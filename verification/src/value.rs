//! The tagged-union value model shared by every parameter source, and the
//! ghost model (`ValM`) that contracts speak of.
//!
//! Executable objects are association vectors with pairwise distinct keys;
//! their ghost model is a `Map`, so contracts never depend on entry order.

use crate::error::Error;
use vstd::prelude::*;

verus! {

broadcast use vstd::std_specs::vec::axiom_vec_index_decreases, vstd::std_specs::vec::axiom_vec_decreases_to_view, vstd::seq::axiom_seq_index_decreases, vstd::seq::axiom_seq_subrange_decreases, vstd::map::axiom_map_index_decreases_finite;

/// Ghost model of a numeric value: the three tags partition all numbers.
pub enum NumM {
    PosInt(u64),
    NegInt(i64),
    Float(Seq<char>),
}

/// Ghost model of a value tree. Objects are maps, so two trees whose objects
/// hold the same keys and values are the same model whatever order the
/// entries were inserted in.
pub enum ValM {
    Null,
    Bool(bool),
    Num(NumM),
    Str(Seq<char>),
    XStr(Seq<char>),
    Obj(Map<Seq<char>, ValM>),
    Arr(Seq<ValM>),
    File { name: Seq<char>, content_type: Seq<char>, path: Seq<char> },
}

/// A numeric value: a non-negative integer, a negative integer, or the
/// decimal text of a floating-point number. The three forms never overlap.
#[derive(Debug, PartialEq)]
pub enum N {
    PosInt(u64),
    /// Always less than zero.
    NegInt(i64),
    /// The number's decimal text, e.g. `"42.5"` or `"-1.23e-5"`.
    Float(String),
}

#[derive(Debug, PartialEq)]
pub struct Number(pub N);

/// The name / content-type / locator triple of an uploaded file. The locator
/// (`temp_file_path`) is an opaque handle to collaborator-managed storage;
/// this engine never opens or reads it.
#[derive(Debug)]
pub struct UploadFile {
    pub name: String,
    pub content_type: String,
    pub temp_file_path: String,
}

/// A parameter value: one node of the merged tree.
#[derive(Debug)]
pub enum Value {
    Null,
    Bool(bool),
    Number(Number),
    /// A value already known to be a string.
    Str(String),
    /// A string of not-yet-known final type, coerced on demand when decoded.
    XStr(String),
    /// Key/value entries with pairwise distinct keys.
    Object(Vec<(String, Value)>),
    Array(Vec<Value>),
    UploadFile(UploadFile),
}

pub open spec fn num_model(n: N) -> NumM {
    match n {
        N::PosInt(u) => NumM::PosInt(u),
        N::NegInt(i) => NumM::NegInt(i),
        N::Float(s) => NumM::Float(s@),
    }
}

/// The map an association sequence stands for: later entries win, though
/// well-formed objects never hold a key twice.
pub open spec fn entries_model(entries: Seq<(String, Value)>) -> Map<Seq<char>, ValM>
    decreases entries,
{
    if entries.len() == 0 {
        Map::empty()
    } else {
        let last = entries[entries.len() - 1];
        entries_model(entries.subrange(0, entries.len() - 1)).insert(last.0@, val_model(last.1))
    }
}

/// The sequence of models of an array's items.
pub open spec fn items_model(items: Seq<Value>) -> Seq<ValM>
    decreases items,
{
    Seq::new(
        items.len(),
        |i: int|
            if 0 <= i < items.len() {
                val_model(items[i])
            } else {
                ValM::Null
            },
    )
}

pub open spec fn val_model(v: Value) -> ValM
    decreases v,
{
    match v {
        Value::Null => ValM::Null,
        Value::Bool(b) => ValM::Bool(b),
        Value::Number(n) => ValM::Num(num_model(n.0)),
        Value::Str(s) => ValM::Str(s@),
        Value::XStr(s) => ValM::XStr(s@),
        Value::Object(entries) => ValM::Obj(entries_model(entries@)),
        Value::Array(items) => ValM::Arr(items_model(items@)),
        Value::UploadFile(f) => ValM::File {
            name: f.name@,
            content_type: f.content_type@,
            path: f.temp_file_path@,
        },
    }
}

impl View for Value {
    type V = ValM;

    open spec fn view(&self) -> ValM {
        val_model(*self)
    }
}

impl View for Number {
    type V = NumM;

    open spec fn view(&self) -> NumM {
        num_model(self.0)
    }
}

/// Pairwise distinct keys: the representation invariant of every object node.
pub open spec fn entries_unique(entries: Seq<(String, Value)>) -> bool {
    forall|i: int, j: int|
        0 <= i < j < entries.len() ==> entries[i].0@ != entries[j].0@
}

pub open spec fn num_wf(n: N) -> bool {
    match n {
        N::NegInt(i) => i < 0,
        _ => true,
    }
}

/// Well-formedness of a value tree: negative integers are negative and every
/// object's keys are pairwise distinct, recursively.
pub open spec fn value_wf(v: Value) -> bool
    decreases v,
{
    match v {
        Value::Number(n) => num_wf(n.0),
        Value::Object(entries) => entries_unique(entries@) && (forall|i: int|
            0 <= i < entries@.len() ==> value_wf(#[trigger] entries@[i].1)),
        Value::Array(items) => forall|i: int|
            0 <= i < items@.len() ==> value_wf(#[trigger] items@[i]),
        _ => true,
    }
}

/// Well-formedness of a whole parameter tree (the top-level object).
pub open spec fn entries_wf(entries: Seq<(String, Value)>) -> bool {
    entries_unique(entries) && (forall|i: int|
        0 <= i < entries.len() ==> value_wf(#[trigger] entries[i].1))
}

impl Value {
    pub open spec fn wf(&self) -> bool {
        value_wf(*self)
    }
}

// ---------------------------------------------------------------------------
// Facts linking the association-vector operations to the map model.
// ---------------------------------------------------------------------------

pub proof fn lemma_entries_model_domain(entries: Seq<(String, Value)>, k: Seq<char>)
    ensures
        entries_model(entries).contains_key(k) <==> exists|i: int|
            0 <= i < entries.len() && entries[i].0@ == k,
        entries_model(entries).dom().finite(),
    decreases entries.len(),
{
    if entries.len() > 0 {
        lemma_entries_model_domain(entries.subrange(0, entries.len() - 1), k);
        let prefix = entries.subrange(0, entries.len() - 1);
        if entries_model(entries).contains_key(k) {
            if entries[entries.len() - 1].0@ == k {
                assert(0 <= entries.len() - 1 < entries.len() && entries[entries.len() - 1].0@
                    == k);
            } else {
                let i = choose|i: int| 0 <= i < prefix.len() && prefix[i].0@ == k;
                assert(entries[i].0@ == k);
            }
        }
        if exists|i: int| 0 <= i < entries.len() && entries[i].0@ == k {
            let i = choose|i: int| 0 <= i < entries.len() && entries[i].0@ == k;
            if i < entries.len() - 1 {
                assert(prefix[i].0@ == k);
            }
        }
    }
}

/// With distinct keys, the entry found at any matching index is the value the
/// model map holds for that key.
pub proof fn lemma_entries_model_get(entries: Seq<(String, Value)>, i: int)
    requires
        entries_unique(entries),
        0 <= i < entries.len(),
    ensures
        entries_model(entries).contains_key(entries[i].0@),
        entries_model(entries)[entries[i].0@] == val_model(entries[i].1),
    decreases entries.len(),
{
    lemma_entries_model_domain(entries, entries[i].0@);
    if i < entries.len() - 1 {
        let prefix = entries.subrange(0, entries.len() - 1);
        lemma_entries_model_get(prefix, i);
    }
}

/// Appending a fresh pair is a model insert.
pub proof fn lemma_entries_model_push(entries: Seq<(String, Value)>, k: String, v: Value)
    ensures
        entries_model(entries.push((k, v))) == entries_model(entries).insert(k@, val_model(v)),
{
    let pushed = entries.push((k, v));
    assert(pushed.subrange(0, pushed.len() - 1) =~= entries);
}

/// Removing the (sole) entry holding a key is a model remove.
pub proof fn lemma_entries_model_remove(entries: Seq<(String, Value)>, i: int)
    requires
        entries_unique(entries),
        0 <= i < entries.len(),
    ensures
        entries_model(entries.remove(i)) =~= entries_model(entries).remove(entries[i].0@),
        entries_unique(entries.remove(i)),
    decreases entries.len(),
{
    let k = entries[i].0@;
    let removed = entries.remove(i);
    assert forall|x: int, y: int| 0 <= x < y < removed.len() implies removed[x].0@
        != removed[y].0@ by {
        if y < i {
            assert(removed[x] == entries[x] && removed[y] == entries[y]);
        } else if x >= i {
            assert(removed[x] == entries[x + 1] && removed[y] == entries[y + 1]);
        } else {
            assert(removed[x] == entries[x] && removed[y] == entries[y + 1]);
        }
    }
    if i == entries.len() - 1 {
        let prefix = entries.subrange(0, entries.len() - 1);
        assert(removed =~= prefix);
        lemma_entries_model_domain(prefix, k);
        assert(!entries_model(prefix).contains_key(k));
    } else {
        let prefix = entries.subrange(0, entries.len() - 1);
        let last = entries[entries.len() - 1];
        lemma_entries_model_remove(prefix, i);
        assert(removed.subrange(0, removed.len() - 1) =~= prefix.remove(i));
        assert(removed[removed.len() - 1] == last);
    }
}

/// The model's domain has exactly one element per entry.
pub proof fn lemma_entries_model_len(entries: Seq<(String, Value)>)
    requires
        entries_unique(entries),
    ensures
        entries_model(entries).dom().finite(),
        entries_model(entries).dom().len() == entries.len(),
    decreases entries.len(),
{
    lemma_entries_model_domain(entries, Seq::empty());
    if entries.len() > 0 {
        let prefix = entries.subrange(0, entries.len() - 1);
        let k = entries[entries.len() - 1].0@;
        lemma_entries_model_len(prefix);
        lemma_entries_model_domain(prefix, k);
        assert(!entries_model(prefix).contains_key(k));
        assert(entries_model(entries).dom() =~= entries_model(prefix).dom().insert(k));
    }
}

// ---------------------------------------------------------------------------
// Equality. A loose string and a plain string holding the same text are
// equal; objects are compared as maps; numbers need identical tag and value;
// upload files compare by name and content type.
// ---------------------------------------------------------------------------

pub open spec fn num_eq(a: NumM, b: NumM) -> bool {
    match (a, b) {
        (NumM::PosInt(x), NumM::PosInt(y)) => x == y,
        (NumM::NegInt(x), NumM::NegInt(y)) => x == y,
        (NumM::Float(x), NumM::Float(y)) => x == y,
        _ => false,
    }
}

pub open spec fn eq_model(a: ValM, b: ValM) -> bool
    decreases a,
{
    match (a, b) {
        (ValM::Null, ValM::Null) => true,
        (ValM::XStr(x), ValM::XStr(y)) => x == y,
        (ValM::XStr(x), ValM::Str(y)) => x == y,
        (ValM::Str(x), ValM::XStr(y)) => x == y,
        (ValM::Bool(x), ValM::Bool(y)) => x == y,
        (ValM::Num(x), ValM::Num(y)) => num_eq(x, y),
        (ValM::Str(x), ValM::Str(y)) => x == y,
        (ValM::Obj(x), ValM::Obj(y)) => x.dom().finite() && y.dom().finite() && x.dom() == y.dom()
            && (forall|k: Seq<char>| #[trigger] x.dom().contains(k) ==> eq_model(x[k], y[k])),
        (ValM::Arr(x), ValM::Arr(y)) => x.len() == y.len() && (forall|i: int|
            0 <= i < x.len() ==> eq_model(#[trigger] x[i], y[i])),
        (
            ValM::File { name: n1, content_type: c1, path: _ },
            ValM::File { name: n2, content_type: c2, path: _ },
        ) => n1 == n2 && c1 == c2,
        _ => false,
    }
}

impl Value {
    /// Structural equality of two well-formed trees, under the model's
    /// equality: `XStr` and `Str` with the same text are equal, and object
    /// entry order is irrelevant.
    #[verifier::loop_isolation(false)]
    pub fn value_eq(&self, other: &Value) -> (r: bool)
        requires
            self.wf(),
            other.wf(),
        ensures
            r == eq_model(self@, other@),
        decreases *self,
    {
        match (self, other) {
            (Value::Null, Value::Null) => true,
            (Value::XStr(x), Value::XStr(y)) => crate::strutil::str_eq(x.as_str(), y.as_str()),
            (Value::XStr(x), Value::Str(y)) => crate::strutil::str_eq(x.as_str(), y.as_str()),
            (Value::Str(x), Value::XStr(y)) => crate::strutil::str_eq(x.as_str(), y.as_str()),
            (Value::Bool(x), Value::Bool(y)) => x == y,
            (Value::Number(x), Value::Number(y)) => match (&x.0, &y.0) {
                (N::PosInt(a), N::PosInt(b)) => a == b,
                (N::NegInt(a), N::NegInt(b)) => a == b,
                (N::Float(a), N::Float(b)) => crate::strutil::str_eq(a.as_str(), b.as_str()),
                _ => false,
            },
            (Value::Str(x), Value::Str(y)) => crate::strutil::str_eq(x.as_str(), y.as_str()),
            (Value::Object(x), Value::Object(y)) => obj_entries_eq(x, y),
            (Value::Array(x), Value::Array(y)) => {
                if x.len() != y.len() {
                    return false;
                }
                let mut i: usize = 0;
                while i < x.len()
                    invariant
                        i <= x@.len(),
                        x@.len() == y@.len(),
                        value_wf(Value::Array(*x)),
                        value_wf(Value::Array(*y)),
                        forall|j: int| 0 <= j < i ==> eq_model(val_model(#[trigger] x@[j]), val_model(y@[j])),
                    decreases x@.len() - i,
                {
                    if !x[i].value_eq(&y[i]) {
                        proof {
                            assert(self@->Arr_0[i as int] == val_model(x@[i as int]));
                            assert(other@->Arr_0[i as int] == val_model(y@[i as int]));
                        }
                        return false;
                    }
                    i = i + 1;
                }
                true
            },
            (Value::UploadFile(a), Value::UploadFile(b)) => crate::strutil::str_eq(
                a.name.as_str(),
                b.name.as_str(),
            ) && crate::strutil::str_eq(a.content_type.as_str(), b.content_type.as_str()),
            _ => false,
        }
    }
}

/// Object equality: same key set, and equal values key for key.
#[verifier::loop_isolation(false)]
fn obj_entries_eq(x: &Vec<(String, Value)>, y: &Vec<(String, Value)>) -> (r: bool)
    requires
        entries_wf(x@),
        entries_wf(y@),
    ensures
        r == eq_model(ValM::Obj(entries_model(x@)), ValM::Obj(entries_model(y@))),
    decreases *x,
{
    let ghost mx = entries_model(x@);
    let ghost my = entries_model(y@);
    proof {
        lemma_entries_model_len(x@);
        lemma_entries_model_len(y@);
    }
    if x.len() != y.len() {
        proof {
            assert(mx.dom() != my.dom());
        }
        return false;
    }
    let mut i: usize = 0;
    while i < x.len()
        invariant
            i <= x@.len(),
            x@.len() == y@.len(),
            entries_wf(x@),
            entries_wf(y@),
            mx == entries_model(x@),
            my == entries_model(y@),
            forall|j: int|
                0 <= j < i ==> my.contains_key(#[trigger] x@[j].0@) && eq_model(
                    mx[x@[j].0@],
                    my[x@[j].0@],
                ),
        decreases x@.len() - i,
    {
        let k = &x[i].0;
        proof {
            lemma_entries_model_get(x@, i as int);
        }
        match map_get(y, k.as_str()) {
            Some(w) => {
                if !x[i].1.value_eq(w) {
                    proof {
                        assert(!eq_model(mx[x@[i as int].0@], my[x@[i as int].0@]));
                        assert(mx.dom().contains(x@[i as int].0@));
                        assert(!eq_model(ValM::Obj(mx), ValM::Obj(my)));
                    }
                    return false;
                }
            },
            None => {
                proof {
                    assert(mx.dom().contains(k@) && !my.dom().contains(k@));
                    assert(mx.dom() != my.dom());
                }
                return false;
            },
        }
        i = i + 1;
    }
    proof {
        assert forall|k: Seq<char>| mx.dom().contains(k) implies my.dom().contains(k) by {
            lemma_entries_model_domain(x@, k);
            let j = choose|j: int| 0 <= j < x@.len() && x@[j].0@ == k;
            assert(my.contains_key(x@[j].0@));
        }
        assert(mx.dom().subset_of(my.dom()));
        vstd::set_lib::lemma_subset_equality(mx.dom(), my.dom());
        assert(mx.dom() =~= my.dom());
        assert forall|k: Seq<char>| #[trigger] mx.dom().contains(k) implies eq_model(mx[k], my[k]) by {
            lemma_entries_model_domain(x@, k);
            let j = choose|j: int| 0 <= j < x@.len() && x@[j].0@ == k;
            assert(eq_model(mx[x@[j].0@], my[x@[j].0@]));
        }
    }
    true
}

// ---------------------------------------------------------------------------
// Executable object operations.
// ---------------------------------------------------------------------------

/// First index holding the key, if any. With distinct keys it is the only one.
pub fn map_find(entries: &Vec<(String, Value)>, k: &str) -> (r: Option<usize>)
    ensures
        match r {
            Some(i) => i < entries@.len() && entries@[i as int].0@ == k@,
            None => forall|i: int| 0 <= i < entries@.len() ==> entries@[i].0@ != k@,
        },
{
    let mut i: usize = 0;
    while i < entries.len()
        invariant
            i <= entries@.len(),
            forall|j: int| 0 <= j < i ==> entries@[j].0@ != k@,
        decreases entries@.len() - i,
    {
        if crate::strutil::str_eq(entries[i].0.as_str(), k) {
            return Some(i);
        }
        i = i + 1;
    }
    None
}

/// Look a key up in an object's entries.
pub fn map_get<'a>(entries: &'a Vec<(String, Value)>, k: &str) -> (r: Option<&'a Value>)
    requires
        entries_unique(entries@),
    ensures
        match r {
            Some(v) => entries_model(entries@).contains_key(k@) && val_model(*v) == entries_model(
                entries@,
            )[k@] && (entries_wf(entries@) ==> value_wf(*v)),
            None => !entries_model(entries@).contains_key(k@),
        },
{
    let found = map_find(entries, k);
    proof {
        lemma_entries_model_domain(entries@, k@);
    }
    match found {
        Some(i) => {
            proof {
                lemma_entries_model_get(entries@, i as int);
            }
            Some(&entries[i].1)
        },
        None => None,
    }
}

/// Insert or replace: afterwards the object's model maps `k` to `v`.
pub fn map_set(entries: &mut Vec<(String, Value)>, k: String, v: Value)
    requires
        entries_unique(old(entries)@),
    ensures
        entries_unique(final(entries)@),
        entries_model(final(entries)@) == entries_model(old(entries)@).insert(
            k@,
            val_model(v),
        ),
        (forall|i: int|
            0 <= i < old(entries)@.len() ==> value_wf(#[trigger] old(entries)@[i].1)) && value_wf(v)
            ==> forall|i: int|
            0 <= i < final(entries)@.len() ==> value_wf(#[trigger] final(entries)@[i].1),
{
    let found = map_find(entries, k.as_str());
    match found {
        Some(i) => {
            proof {
                lemma_entries_model_remove(entries@, i as int);
            }
            let ghost before = entries@;
            entries.remove(i);
            proof {
                lemma_entries_model_push(entries@, k, v);
                assert(entries_model(entries@.push((k, v))) =~= entries_model(
                    before,
                ).insert(k@, val_model(v)));
                assert forall|x: int|
                    0 <= x < entries@.push((k, v)).len() && (forall|i: int|
                        0 <= i < before.len() ==> value_wf(#[trigger] before[i].1)) && value_wf(v)
                    implies value_wf(#[trigger] entries@.push((k, v))[x].1) by {
                    if x < entries@.len() {
                        if x < i {
                            assert(entries@[x] == before[x]);
                        } else {
                            assert(entries@[x] == before[x + 1]);
                        }
                    }
                }
            }
            entries.push((k, v));
        },
        None => {
            proof {
                lemma_entries_model_push(entries@, k, v);
                assert forall|x: int, y: int| 0 <= x < y < entries@.push((k, v)).len() implies
                    entries@.push((k, v))[x].0@ != entries@.push((k, v))[y].0@ by {}
            }
            entries.push((k, v));
        },
    }
}


// ---------------------------------------------------------------------------
// Merging. Object merge is right-biased: on a key collision the second
// operand's value is kept.
// ---------------------------------------------------------------------------

pub open spec fn shape_name_model(m: ValM) -> Seq<char> {
    match m {
        ValM::Null => "null"@,
        ValM::Bool(_) => "bool"@,
        ValM::Num(_) => "number"@,
        ValM::Str(_) => "string"@,
        ValM::XStr(_) => "string"@,
        ValM::Obj(_) => "object"@,
        ValM::Arr(_) => "array"@,
        ValM::File { .. } => "file"@,
    }
}

/// Which shape combinations merge, and to what: objects union (right
/// biased), arrays concatenate, an array absorbs a non-array on the matching
/// side, and `Null` on either side yields the other side. Anything else is
/// refused.
pub open spec fn spec_merge(a: ValM, b: ValM) -> Result<ValM, ()> {
    if a is Obj && b is Obj {
        Ok(ValM::Obj(a->Obj_0.union_prefer_right(b->Obj_0)))
    } else if a is Arr && b is Arr {
        Ok(ValM::Arr(a->Arr_0 + b->Arr_0))
    } else if a is Arr {
        Ok(ValM::Arr(a->Arr_0.push(b)))
    } else if b is Arr {
        Ok(ValM::Arr(seq![a] + b->Arr_0))
    } else if a is Null {
        Ok(b)
    } else if b is Null {
        Ok(a)
    } else {
        Err(())
    }
}

pub proof fn lemma_items_model_concat(x: Seq<Value>, y: Seq<Value>)
    ensures
        items_model(x + y) =~= items_model(x) + items_model(y),
{
    assert forall|i: int| 0 <= i < x.len() + y.len() implies items_model(x + y)[i] == (items_model(
        x,
    ) + items_model(y))[i] by {
        if i < x.len() {
            assert((x + y)[i] == x[i]);
        } else {
            assert((x + y)[i] == y[i - x.len()]);
        }
    }
}

/// Fold the entries of `b` into `a`, replacing on key collision.
#[verifier::loop_isolation(false)]
fn extend_entries(a: &mut Vec<(String, Value)>, b: Vec<(String, Value)>)
    requires
        entries_wf(old(a)@),
        entries_wf(b@),
    ensures
        entries_wf(final(a)@),
        entries_model(final(a)@) == entries_model(old(a)@).union_prefer_right(entries_model(b@)),
{
    let ghost goal = entries_model(old(a)@).union_prefer_right(entries_model(b@));
    let mut b = b;
    while b.len() > 0
        invariant
            entries_wf(a@),
            entries_wf(b@),
            entries_model(a@).union_prefer_right(entries_model(b@)) == goal,
        decreases b@.len(),
    {
        let ghost b_before = b@;
        let ghost a_before = a@;
        proof {
            lemma_entries_model_get(b@, 0);
            lemma_entries_model_remove(b@, 0);
        }
        let (k, v) = b.remove(0);
        proof {
            assert forall|i: int| 0 <= i < b@.len() implies value_wf(#[trigger] b@[i].1) by {
                assert(b@[i] == b_before[i + 1]);
            }
        }
        map_set(a, k, v);
        proof {
            let k0 = b_before[0].0@;
            let v0 = val_model(b_before[0].1);
            assert(entries_model(b@) == entries_model(b_before).remove(k0));
            assert(entries_model(a@) == entries_model(a_before).insert(k0, v0));
            assert(entries_model(a@).union_prefer_right(entries_model(b@)) =~= entries_model(
                a_before,
            ).union_prefer_right(entries_model(b_before)));
        }
    }
    proof {
        assert(entries_model(b@) =~= Map::<Seq<char>, ValM>::empty());
        assert(entries_model(a@).union_prefer_right(Map::empty()) =~= entries_model(a@));
    }
}

impl Value {
    /// Which shape this node is, for error messages.
    pub fn shape_name(&self) -> (r: &'static str)
        ensures
            r@ == shape_name_model(self@),
    {
        match self {
            Value::Null => "null",
            Value::Bool(_) => "bool",
            Value::Number(_) => "number",
            Value::Str(_) => "string",
            Value::Object(_) => "object",
            Value::Array(_) => "array",
            Value::XStr(_) => "string",
            Value::UploadFile(_) => "file",
        }
    }

    /// Combine two subtrees per the shape rules of `spec_merge`, or report
    /// the two shapes that would not combine.
    pub fn merge(self, other: Value) -> (r: Result<Value, Error>)
        requires
            self.wf(),
            other.wf(),
        ensures
            match spec_merge(self@, other@) {
                Ok(m) => r matches Ok(v) && v@ == m && v.wf(),
                Err(_) => r matches Err(e) && (e matches Error::MergeError(s) && s@ == "Cannot merge "@
                    + shape_name_model(self@) + " with "@ + shape_name_model(other@)),
            },
    {
        match (self, other) {
            (Value::Object(mut a), Value::Object(b)) => {
                extend_entries(&mut a, b);
                Ok(Value::Object(a))
            },
            (Value::Array(mut a), Value::Array(mut b)) => {
                let ghost xs = a@;
                let ghost ys = b@;
                a.append(&mut b);
                proof {
                    lemma_items_model_concat(xs, ys);
                }
                Ok(Value::Array(a))
            },
            (Value::Array(mut a), other) => {
                let ghost xs = a@;
                let ghost o = val_model(other);
                a.push(other);
                proof {
                    assert(items_model(a@) =~= items_model(xs).push(o));
                }
                Ok(Value::Array(a))
            },
            (value, Value::Array(mut arr)) => {
                let ghost ys = arr@;
                let ghost o = val_model(value);
                arr.insert(0, value);
                proof {
                    assert(items_model(arr@) =~= seq![o] + items_model(ys));
                }
                Ok(Value::Array(arr))
            },
            (Value::Null, other) => Ok(other),
            (value, Value::Null) => Ok(value),
            (a, b) => Err(
                Error::MergeError(
                    String::from_str("Cannot merge ").concat(a.shape_name()).concat(
                        " with ",
                    ).concat(b.shape_name()),
                ),
            ),
        }
    }

    /// Merge an `Object`-shaped value into a running parameter tree. Any
    /// other shape is refused, naming it.
    pub fn merge_into(self, a: Vec<(String, Value)>) -> (r: Result<Vec<(String, Value)>, Error>)
        requires
            self.wf(),
            entries_wf(a@),
        ensures
            match r {
                Ok(out) => self is Object && entries_wf(out@) && entries_model(out@)
                    == entries_model(a@).union_prefer_right(self@->Obj_0),
                Err(e) => !(self is Object) && (e matches Error::MergeError(s) && s@
                    == "Cannot merge "@ + shape_name_model(self@) + " with object"@),
            },
    {
        match self {
            Value::Object(b) => {
                let mut out = a;
                extend_entries(&mut out, b);
                Ok(out)
            },
            other => Err(
                Error::MergeError(
                    String::from_str("Cannot merge ").concat(other.shape_name()).concat(
                        " with object",
                    ),
                ),
            ),
        }
    }
}


// ---------------------------------------------------------------------------
// Numbers and constructors.
// ---------------------------------------------------------------------------

impl From<u64> for Number {
    fn from(v: u64) -> (r: Self) {
        Number(N::PosInt(v))
    }
}

impl vstd::std_specs::convert::FromSpecImpl<u64> for Number {
    open spec fn obeys_from_spec() -> bool {
        true
    }

    open spec fn from_spec(v: u64) -> Number {
        Number(N::PosInt(v))
    }
}

impl From<i64> for Number {
    fn from(v: i64) -> (r: Self) {
        if v >= 0 {
            Number(N::PosInt(v as u64))
        } else {
            Number(N::NegInt(v))
        }
    }
}

impl vstd::std_specs::convert::FromSpecImpl<i64> for Number {
    open spec fn obeys_from_spec() -> bool {
        true
    }

    open spec fn from_spec(v: i64) -> Number {
        if v >= 0 {
            Number(N::PosInt(v as u64))
        } else {
            Number(N::NegInt(v))
        }
    }
}

/// Conversion of a plain integer into the number model.
pub trait IntoNumber: Sized {
    spec fn num_spec(self) -> NumM;

    fn into_number(self) -> (n: Number)
        ensures
            n@ == self.num_spec(),
            num_wf(n.0),
    ;
}

impl IntoNumber for u64 {
    open spec fn num_spec(self) -> NumM {
        NumM::PosInt(self)
    }

    fn into_number(self) -> (n: Number) {
        Number(N::PosInt(self))
    }
}

impl IntoNumber for i64 {
    open spec fn num_spec(self) -> NumM {
        if self >= 0 {
            NumM::PosInt(self as u64)
        } else {
            NumM::NegInt(self)
        }
    }

    fn into_number(self) -> (n: Number) {
        if self >= 0 {
            Number(N::PosInt(self as u64))
        } else {
            Number(N::NegInt(self))
        }
    }
}

impl Value {
    /// A loose string: text whose final type is decided when decoded.
    pub fn xstr(v: &str) -> (r: Value)
        ensures
            r@ == ValM::XStr(v@),
            r.wf(),
    {
        Value::XStr(v.to_owned())
    }

    /// A loose string when present, `Null` when absent.
    pub fn xstr_opt(v: Option<&str>) -> (r: Value)
        ensures
            match v {
                Some(s) => r@ == ValM::XStr(s@),
                None => r@ == ValM::Null,
            },
            r.wf(),
    {
        match v {
            Some(s) => Value::XStr(s.to_owned()),
            None => Value::Null,
        }
    }

    pub fn number<T: IntoNumber>(v: T) -> (r: Value)
        ensures
            r@ == ValM::Num(v.num_spec()),
            r.wf(),
    {
        Value::Number(v.into_number())
    }

    pub fn bool(v: bool) -> (r: Value)
        ensures
            r == Value::Bool(v),
    {
        Value::Bool(v)
    }

    pub fn null() -> (r: Value)
        ensures
            r == Value::Null,
    {
        Value::Null
    }

    pub fn array(v: Vec<Value>) -> (r: Value)
        ensures
            r == Value::Array(v),
    {
        Value::Array(v)
    }

    pub fn object(v: Vec<(String, Value)>) -> (r: Value)
        ensures
            r == Value::Object(v),
    {
        Value::Object(v)
    }
}

// ---------------------------------------------------------------------------
// Deep clones, written by hand so that the copy is provably the same value.
// ---------------------------------------------------------------------------

impl Clone for N {
    fn clone(&self) -> (r: Self)
        ensures
            r == *self,
    {
        match self {
            N::PosInt(u) => N::PosInt(*u),
            N::NegInt(i) => N::NegInt(*i),
            N::Float(s) => N::Float(s.clone()),
        }
    }
}

impl Clone for Number {
    fn clone(&self) -> (r: Self)
        ensures
            r == *self,
    {
        Number(self.0.clone())
    }
}

impl Clone for UploadFile {
    fn clone(&self) -> (r: Self)
        ensures
            r == *self,
    {
        UploadFile {
            name: self.name.clone(),
            content_type: self.content_type.clone(),
            temp_file_path: self.temp_file_path.clone(),
        }
    }
}

impl Clone for Value {
    /// A deep copy: the same value tree, model for model.
    #[verifier::loop_isolation(false)]
    fn clone(&self) -> (r: Self)
        ensures
            r@ == self@,
            value_wf(r) == value_wf(*self),
        decreases *self,
    {
        match self {
            Value::Null => Value::Null,
            Value::Bool(b) => Value::Bool(*b),
            Value::Number(n) => Value::Number(n.clone()),
            Value::Str(s) => Value::Str(s.clone()),
            Value::XStr(s) => Value::XStr(s.clone()),
            Value::Object(entries) => {
                let out = clone_entries(entries);
                Value::Object(out)
            },
            Value::Array(items) => {
                let mut out: Vec<Value> = Vec::new();
                let mut i: usize = 0;
                while i < items.len()
                    invariant
                        i <= items@.len(),
                        out@.len() == i,
                        forall|j: int| 0 <= j < i ==> val_model(#[trigger] out@[j]) == val_model(
                            items@[j],
                        ) && value_wf(out@[j]) == value_wf(items@[j]),
                    decreases items@.len() - i,
                {
                    out.push(items[i].clone());
                    i = i + 1;
                }
                proof {
                    assert(items_model(out@) =~= items_model(items@));
                    if value_wf(*self) {
                        assert forall|i: int| 0 <= i < out@.len() implies value_wf(
                            #[trigger] out@[i],
                        ) by {
                            assert(value_wf(items@[i]));
                        }
                        assert(value_wf(Value::Array(out)));
                    } else {
                        assert(!(forall|i: int|
                            0 <= i < items@.len() ==> value_wf(#[trigger] items@[i])));
                        let i0 = choose|i: int| 0 <= i < items@.len() && !value_wf(items@[i]);
                        assert(out@.len() == items@.len());
                        assert(!value_wf(out@[i0]));
                        let ghost arrv = Value::Array(out);
                        assert(arrv->Array_0 == out);
                        assert(!value_wf(arrv)) by {
                            if value_wf(arrv) {
                                assert(value_wf(arrv->Array_0@[i0]));
                            }
                        }
                    }
                }
                Value::Array(out)
            },
            Value::UploadFile(f) => Value::UploadFile(f.clone()),
        }
    }
}

/// Entry sequences equal key view for key view and model for model stand for
/// the same map.
pub proof fn lemma_entries_model_pointwise(x: Seq<(String, Value)>, y: Seq<(String, Value)>)
    requires
        x.len() == y.len(),
        forall|i: int| 0 <= i < x.len() ==> (#[trigger] x[i]).0@ == y[i].0@ && val_model(x[i].1)
            == val_model(y[i].1),
    ensures
        entries_model(x) == entries_model(y),
    decreases x.len(),
{
    if x.len() > 0 {
        let xp = x.subrange(0, x.len() - 1);
        let yp = y.subrange(0, y.len() - 1);
        lemma_entries_model_pointwise(xp, yp);
    }
}



/// A deep copy of an object's entries: same keys, same models, same
/// well-formedness.
#[verifier::loop_isolation(false)]
pub fn clone_entries(entries: &Vec<(String, Value)>) -> (out: Vec<(String, Value)>)
    ensures
        out@.len() == entries@.len(),
        forall|j: int| 0 <= j < entries@.len() ==> (#[trigger] out@[j]).0@ == entries@[j].0@
            && val_model(out@[j].1) == val_model(entries@[j].1) && value_wf(out@[j].1) == value_wf(
            entries@[j].1,
        ),
        entries_model(out@) == entries_model(entries@),
        entries_unique(out@) == entries_unique(entries@),
        entries_wf(out@) == entries_wf(entries@),
        val_model(Value::Object(out)) == val_model(Value::Object(*entries)),
        value_wf(Value::Object(out)) == value_wf(Value::Object(*entries)),
    decreases *entries,
{
    let mut out: Vec<(String, Value)> = Vec::new();
    let mut i: usize = 0;
    while i < entries.len()
        invariant
            i <= entries@.len(),
            out@.len() == i,
            forall|j: int| 0 <= j < i ==> (#[trigger] out@[j]).0@ == entries@[j].0@
                && val_model(out@[j].1) == val_model(entries@[j].1)
                && value_wf(out@[j].1) == value_wf(entries@[j].1),
        decreases entries@.len() - i,
    {
        let k = entries[i].0.clone();
        let v = entries[i].1.clone();
        out.push((k, v));
        i = i + 1;
    }
    proof {
        lemma_entries_model_pointwise(out@, entries@);
        assert forall|a: int, b: int|
            0 <= a < b < out@.len() && entries_unique(entries@) implies out@[a].0@
            != out@[b].0@ by {}
        assert forall|a: int, b: int|
            0 <= a < b < entries@.len() && entries_unique(out@) implies entries@[a].0@
            != entries@[b].0@ by {
            assert(out@[a].0@ == entries@[a].0@);
            assert(out@[b].0@ == entries@[b].0@);
        }
        assert(entries_unique(out@) == entries_unique(entries@));
        assert forall|j: int|
            0 <= j < out@.len() && (forall|i: int|
                0 <= i < entries@.len() ==> value_wf(#[trigger] entries@[i].1)) implies value_wf(
            #[trigger] out@[j].1) by {}
        assert forall|j: int|
            0 <= j < entries@.len() && (forall|i: int|
                0 <= i < out@.len() ==> value_wf(#[trigger] out@[i].1)) implies value_wf(
            #[trigger] entries@[j].1) by {
            assert(value_wf(out@[j].1) == value_wf(entries@[j].1));
        }
        assert(entries_wf(out@) == entries_wf(entries@));
        let ghost objout = Value::Object(out);
        let ghost objin = Value::Object(*entries);
        assert(objout->Object_0 == out && objin->Object_0 == *entries);
        assert(value_wf(objout) == (entries_unique(out@) && (forall|i: int|
            0 <= i < out@.len() ==> value_wf(#[trigger] objout->Object_0@[i].1))));
        assert(value_wf(objin) == (entries_unique(entries@) && (forall|i: int|
            0 <= i < entries@.len() ==> value_wf(#[trigger] objin->Object_0@[i].1))));
        assert forall|i: int| 0 <= i < out@.len() implies (#[trigger] objout->Object_0@[i]).1
            == out@[i].1 by {}
        assert(value_wf(objout) == value_wf(objin));
    }
    out
}

/// Remove and hand out the entry holding `k`, when there is one.
pub fn take_entry(entries: &mut Vec<(String, Value)>, k: &str) -> (r: Option<(String, Value)>)
    requires
        entries_wf(old(entries)@),
    ensures
        entries_wf(final(entries)@),
        match r {
            Some(p) => {
                &&& p.0@ == k@
                &&& entries_model(old(entries)@).contains_key(k@)
                &&& val_model(p.1) == entries_model(old(entries)@)[k@]
                &&& value_wf(p.1)
                &&& entries_model(final(entries)@) == entries_model(old(entries)@).remove(k@)
                &&& !entries_model(final(entries)@).contains_key(k@)
            },
            None => {
                &&& !entries_model(old(entries)@).contains_key(k@)
                &&& final(entries)@ == old(entries)@
            },
        },
{
    proof {
        lemma_entries_model_domain(entries@, k@);
    }
    match map_find(entries, k) {
        Some(i) => {
            proof {
                lemma_entries_model_get(entries@, i as int);
                lemma_entries_model_remove(entries@, i as int);
            }
            let ghost before = entries@;
            let p = entries.remove(i);
            proof {
                assert forall|x: int| 0 <= x < entries@.len() implies value_wf(
                    #[trigger] entries@[x].1,
                ) by {
                    if x < i {
                        assert(entries@[x] == before[x]);
                    } else {
                        assert(entries@[x] == before[x + 1]);
                    }
                }
                lemma_entries_model_domain(entries@, k@);
                assert forall|x: int| 0 <= x < entries@.len() implies entries@[x].0@ != k@ by {
                    if x < i {
                        assert(entries@[x] == before[x]);
                    } else {
                        assert(entries@[x] == before[x + 1]);
                    }
                }
            }
            Some(p)
        },
        None => None,
    }
}

/// Append an entry for a key the object does not yet hold.
pub fn put_entry(entries: &mut Vec<(String, Value)>, k: String, v: Value)
    requires
        entries_wf(old(entries)@),
        value_wf(v),
        !entries_model(old(entries)@).contains_key(k@),
    ensures
        entries_wf(final(entries)@),
        entries_model(final(entries)@) == entries_model(old(entries)@).insert(k@, val_model(v)),
{
    proof {
        lemma_entries_model_domain(entries@, k@);
        lemma_entries_model_push(entries@, k, v);
    }
    entries.push((k, v));
}


/// `value_wf` of an object node is exactly `entries_wf` of its entries.
pub proof fn lemma_value_obj_wf(entries: Vec<(String, Value)>)
    ensures
        value_wf(Value::Object(entries)) == entries_wf(entries@),
{
    let obj = Value::Object(entries);
    assert(obj->Object_0 == entries);
    if entries_wf(entries@) {
        assert forall|i: int| 0 <= i < obj->Object_0@.len() implies value_wf(
            #[trigger] obj->Object_0@[i].1,
        ) by {
            assert(value_wf(entries@[i].1));
        }
        assert(value_wf(obj));
    }
    if value_wf(obj) {
        assert forall|i: int| 0 <= i < entries@.len() implies value_wf(
            #[trigger] entries@[i].1,
        ) by {
            assert(value_wf(obj->Object_0@[i].1));
        }
        assert(entries_wf(entries@));
    }
}

/// `value_wf` of an array node is well-formedness of every item.
pub proof fn lemma_value_arr_wf(items: Vec<Value>)
    ensures
        value_wf(Value::Array(items)) == (forall|i: int|
            0 <= i < items@.len() ==> value_wf(#[trigger] items@[i])),
{
    let arr = Value::Array(items);
    assert(arr->Array_0 == items);
    if forall|i: int| 0 <= i < items@.len() ==> value_wf(#[trigger] items@[i]) {
        assert forall|i: int| 0 <= i < arr->Array_0@.len() implies value_wf(
            #[trigger] arr->Array_0@[i],
        ) by {
            assert(value_wf(items@[i]));
        }
        assert(value_wf(arr));
    }
    if value_wf(arr) {
        assert forall|i: int| 0 <= i < items@.len() implies value_wf(#[trigger] items@[i]) by {
            assert(value_wf(arr->Array_0@[i]));
        }
    }
}

} // verus!
