//! The bracket-notation key parser and the nested merge normalizer: flat
//! `key[sub][sub2]=value` pairs are folded into a running object tree.
//!
//! The ghost function `spec_normalize` is the reference semantics; the
//! executable parser is proved to follow it step for step.

use crate::error::QueryParserError;
use crate::strutil::{contains_char, contains_pair, find_char_from, lemma_spec_find, spec_contains_char, spec_contains_pair, spec_find, str_eq};
use crate::value::{
    entries_model, entries_unique, entries_wf, items_model, lemma_value_arr_wf, lemma_value_obj_wf,
    put_entry, shape_name_model, take_entry, val_model, value_wf, ValM, Value,
};
use vstd::prelude::*;

verus! {

/// The depth limit applied when none is configured.
pub const DEFAULT_PARAM_DEPTH_LIMIT: usize = 100;

/// Ghost model of a normalizer failure.
pub enum NormErr {
    /// The whole message text of a `ParameterTypeError`.
    ParameterType(Seq<char>),
    TooDeep,
}

/// Index of the first occurrence of either `a` or `b` at or after `i`.
pub open spec fn spec_find2(s: Seq<char>, i: int, a: char, b: char) -> Option<int>
    decreases s.len() - i,
{
    if i < 0 || i >= s.len() {
        None
    } else if s[i] == a || s[i] == b {
        Some(i)
    } else {
        spec_find2(s, i + 1, a, b)
    }
}

pub proof fn lemma_spec_find2(s: Seq<char>, i: int, a: char, b: char)
    requires
        0 <= i <= s.len(),
    ensures
        match spec_find2(s, i, a, b) {
            Some(j) => i <= j < s.len() && (s[j] == a || s[j] == b) && (forall|x: int|
                i <= x < j ==> s[x] != a && s[x] != b),
            None => forall|x: int| i <= x < s.len() ==> s[x] != a && s[x] != b,
        },
    decreases s.len() - i,
{
    if i < s.len() && s[i] != a && s[i] != b {
        lemma_spec_find2(s, i + 1, a, b);
    }
}

/// One step of the key-path split: the leading segment and the rest.
///
/// At the top level the split is at the first `[` after the first character;
/// below it, a leading `[]` is the append marker, a leading `[seg]` yields
/// `seg`, and anything else (stray brackets included) is one literal segment.
pub open spec fn spec_split_key(name: Seq<char>, top: bool) -> (Seq<char>, Seq<char>) {
    if name.len() == 0 {
        (Seq::empty(), Seq::empty())
    } else if top {
        match spec_find(name, 1, '[') {
            Some(j) => (name.take(j), name.skip(j)),
            None => (name, Seq::empty()),
        }
    } else if name.len() >= 2 && name[0] == '[' && name[1] == ']' {
        (name.take(2), name.skip(2))
    } else if name[0] == '[' {
        match spec_find(name, 1, ']') {
            Some(j) => (name.subrange(1, j), name.skip(j + 1)),
            None => (name, Seq::empty()),
        }
    } else {
        (name, Seq::empty())
    }
}

/// The remainder of a split is always strictly shorter than a non-empty key.
pub proof fn lemma_split_key_len(name: Seq<char>, top: bool)
    ensures
        name.len() > 0 ==> spec_split_key(name, top).1.len() < name.len(),
        spec_split_key(name, top).1.len() <= name.len(),
{
    if name.len() > 0 {
        if top {
            lemma_spec_find(name, 1, '[');
        } else if !(name.len() >= 2 && name[0] == '[' && name[1] == ']') && name[0] == '[' {
            lemma_spec_find(name, 1, ']');
        }
    }
}

pub open spec fn is_digit(c: char) -> bool {
    '0' <= c <= '9'
}

pub open spec fn all_digits(s: Seq<char>) -> bool {
    s.len() > 0 && forall|i: int| 0 <= i < s.len() ==> is_digit(#[trigger] s[i])
}

/// The number a digit string denotes.
pub open spec fn digits_val(s: Seq<char>) -> nat
    decreases s.len(),
{
    if s.len() == 0 {
        0
    } else {
        (digits_val(s.subrange(0, s.len() - 1)) * 10 + (s[s.len() - 1] as int - '0' as int)) as nat
    }
}

/// The tail shape `[digits]rest` of an indexed-array key, when it fits in a
/// `usize`.
pub open spec fn spec_indexed_tail(after: Seq<char>) -> Option<(nat, Seq<char>)> {
    if after.len() >= 2 && after[0] == '[' {
        match spec_find(after, 1, ']') {
            Some(j) => {
                let digits = after.subrange(1, j);
                if all_digits(digits) && digits_val(digits) <= usize::MAX {
                    Some((digits_val(digits), after.skip(j + 1)))
                } else {
                    None
                }
            },
            None => None,
        }
    } else {
        None
    }
}

/// Whether a bracket-split path of `key` is already present in `h`: every
/// segment in turn must name an entry, descending while entries are objects.
/// A key that itself holds a `[]` pair is never treated as present.
pub open spec fn spec_walk_path(h: Map<Seq<char>, ValM>, key: Seq<char>) -> bool
    decreases key.len(),
    via spec_walk_path_decreases
{
    if key.len() == 0 {
        true
    } else if key[0] == '[' || key[0] == ']' {
        spec_walk_path(h, key.skip(1))
    } else {
        let j = match spec_find2(key, 0, '[', ']') {
            Some(j) => j,
            None => key.len() as int,
        };
        let part = key.take(j);
        if !h.contains_key(part) {
            false
        } else {
            match h[part] {
                ValM::Obj(m) => spec_walk_path(m, key.skip(j)),
                _ => true,
            }
        }
    }
}

#[via_fn]
proof fn spec_walk_path_decreases(h: Map<Seq<char>, ValM>, key: Seq<char>) {
    if key.len() > 0 && !(key[0] == '[' || key[0] == ']') {
        lemma_spec_find2(key, 0, '[', ']');
    }
}

pub open spec fn spec_has_key_path(h: Map<Seq<char>, ValM>, key: Seq<char>) -> bool {
    if spec_contains_pair(key, '[', ']') {
        false
    } else {
        spec_walk_path(h, key)
    }
}

/// The `ParameterTypeError` message naming the shape found and the key.
pub open spec fn type_err_msg(expected_array: bool, got: ValM, k: Seq<char>) -> Seq<char> {
    (if expected_array {
        "expected Array (got "@
    } else {
        "expected Object (got "@
    }) + shape_name_model(got) + ") for param `"@ + k + "`"@
}

/// The reference semantics of the normalizer: the tree after threading one
/// `(name, v)` pair in at the given depth, paired with what the call
/// returns. On an error the tree may keep additions made before the failure,
/// exactly as the algorithm leaves them.
pub open spec fn spec_normalize(
    params: Map<Seq<char>, ValM>,
    name: Seq<char>,
    v: ValM,
    depth: nat,
    limit: nat,
) -> (Map<Seq<char>, ValM>, Result<ValM, NormErr>)
    decreases name.len(),
    via spec_normalize_decreases
{
    if depth >= limit {
        (params, Err(NormErr::TooDeep))
    } else {
        let (k, after) = spec_split_key(name, depth == 0);
        if k.len() == 0 {
            (params, Ok(ValM::Null))
        } else if after.len() == 0 {
            if k == "[]"@ && depth != 0 {
                (params, Ok(ValM::Arr(seq![v])))
            } else {
                let p = params.insert(k, v);
                (p, Ok(ValM::Obj(p)))
            }
        } else if after == "["@ {
            let p = params.insert(name, v);
            (p, Ok(ValM::Obj(p)))
        } else if after == "[]"@ {
            if !params.contains_key(k) {
                let p = params.insert(k, ValM::Arr(seq![v]));
                (p, Ok(ValM::Obj(p)))
            } else if params[k] is Arr {
                let p = params.insert(k, ValM::Arr(params[k]->Arr_0.push(v)));
                (p, Ok(ValM::Obj(p)))
            } else {
                (params, Err(NormErr::ParameterType(type_err_msg(true, params[k], k))))
            }
        } else if after.len() >= 2 && after[0] == '[' && after[1] == ']' {
            // hash-inside-array: x[][y] and friends
            let rest = after.skip(2);
            let mid = rest.subrange(1, rest.len() - 1);
            let child_key = if rest[0] != '[' || rest[rest.len() - 1] != ']'
                || spec_contains_char(mid, '[') || spec_contains_char(mid, ']') || mid.len() == 0 {
                rest
            } else {
                mid
            };
            if params.contains_key(k) && !(params[k] is Arr) {
                (params, Err(NormErr::ParameterType(type_err_msg(true, params[k], k))))
            } else {
                let arr = if params.contains_key(k) {
                    params[k]->Arr_0
                } else {
                    Seq::<ValM>::empty()
                };
                if arr.len() > 0 && arr[arr.len() - 1] is Obj && !spec_has_key_path(
                    arr[arr.len() - 1]->Obj_0,
                    child_key,
                ) {
                    // continue building the current array element; a failure
                    // inside it is swallowed, keeping what was built
                    let (h2, _ignored) = spec_normalize(
                        arr[arr.len() - 1]->Obj_0,
                        child_key,
                        v,
                        depth + 1,
                        limit,
                    );
                    let p = params.insert(
                        k,
                        ValM::Arr(arr.update(arr.len() - 1, ValM::Obj(h2))),
                    );
                    (p, Ok(ValM::Obj(p)))
                } else {
                    // start a new array element
                    let (h2, r) = spec_normalize(
                        Map::empty(),
                        child_key,
                        v,
                        depth + 1,
                        limit,
                    );
                    match r {
                        Err(e) => (params.insert(k, ValM::Arr(arr)), Err(e)),
                        Ok(nv) => {
                            let p = params.insert(k, ValM::Arr(arr.push(nv)));
                            (p, Ok(ValM::Obj(p)))
                        },
                    }
                }
            }
        } else if spec_indexed_tail(after) is Some {
            // indexed array: x[0][y] and friends; the array is zero-extended
            // with empty objects up to the index
            let (n, rest) = spec_indexed_tail(after)->Some_0;
            if params.contains_key(k) && !(params[k] is Arr) {
                (params, Err(NormErr::ParameterType(type_err_msg(true, params[k], k))))
            } else {
                let arr = if params.contains_key(k) {
                    params[k]->Arr_0
                } else {
                    Seq::<ValM>::empty()
                };
                let padded = if arr.len() <= n {
                    arr + Seq::new((n + 1 - arr.len()) as nat, |i: int| ValM::Obj(Map::empty()))
                } else {
                    arr
                };
                if rest.len() == 0 {
                    let p = params.insert(k, ValM::Arr(padded.update(n as int, v)));
                    (p, Ok(ValM::Obj(p)))
                } else {
                    let h = if padded[n as int] is Obj {
                        padded[n as int]->Obj_0
                    } else {
                        Map::empty()
                    };
                    let (h2, r) = spec_normalize(h, rest, v, depth + 1, limit);
                    let p = params.insert(k, ValM::Arr(padded.update(n as int, ValM::Obj(h2))));
                    match r {
                        Err(e) => (p, Err(e)),
                        Ok(_) => (p, Ok(ValM::Obj(p))),
                    }
                }
            }
        } else {
            // ordinary nested object key
            if params.contains_key(k) && !(params[k] is Obj) {
                (params, Err(NormErr::ParameterType(type_err_msg(false, params[k], k))))
            } else {
                let h = if params.contains_key(k) {
                    params[k]->Obj_0
                } else {
                    Map::<Seq<char>, ValM>::empty()
                };
                let (h2, r) = spec_normalize(h, after, v, depth + 1, limit);
                let p = params.insert(k, ValM::Obj(h2));
                match r {
                    Err(e) => (p, Err(e)),
                    Ok(_) => (p, Ok(ValM::Obj(p))),
                }
            }
        }
    }
}

#[via_fn]
proof fn spec_normalize_decreases(
    params: Map<Seq<char>, ValM>,
    name: Seq<char>,
    v: ValM,
    depth: nat,
    limit: nat,
) {
    if depth < limit {
        lemma_split_key_len(name, depth == 0);
        let (k, after) = spec_split_key(name, depth == 0);
        reveal_strlit("[]");
        if after.len() >= 2 && after[0] == '[' && after[1] == ']' {
            if after.len() == 2 {
                assert(after =~= "[]"@);
            }
            let rest = after.skip(2);
            assert(rest.len() < name.len());
            if rest.len() >= 2 {
                assert(rest.subrange(1, rest.len() - 1).len() < name.len());
            }
        }
        if spec_indexed_tail(after) is Some {
            lemma_spec_find(after, 1, ']');
        }
    }
}


// ---------------------------------------------------------------------------
// Executable helpers, each proved against its ghost counterpart.
// ---------------------------------------------------------------------------

/// First occurrence of either `a` or `b` at or after `from`.
fn find_char2_from(s: &str, from: usize, a: char, b: char) -> (r: Option<usize>)
    requires
        from <= s@.len(),
    ensures
        match r {
            Some(j) => from <= j < s@.len() && (s@[j as int] == a || s@[j as int] == b)
                && spec_find2(s@, from as int, a, b) == Some(j as int),
            None => spec_find2(s@, from as int, a, b) is None,
        },
{
    let len = s.unicode_len();
    let mut i: usize = from;
    while i < len
        invariant
            len == s@.len(),
            from <= i <= len,
            spec_find2(s@, from as int, a, b) == spec_find2(s@, i as int, a, b),
        decreases len - i,
    {
        let c = s.get_char(i);
        if c == a || c == b {
            return Some(i);
        }
        i = i + 1;
    }
    None
}

/// The key-path split, mirroring `spec_split_key`.
fn split_key<'a>(name: &'a str, top: bool) -> (r: (&'a str, &'a str))
    ensures
        r.0@ == spec_split_key(name@, top).0,
        r.1@ == spec_split_key(name@, top).1,
{
    let len = name.unicode_len();
    if len == 0 {
        return (name, name);
    }
    if top {
        match find_char_from(name, 1, '[') {
            Some(j) => {
                let k = name.substring_char(0, j);
                let after = name.substring_char(j, len);
                proof {
                    assert(k@ =~= name@.take(j as int));
                    assert(after@ =~= name@.skip(j as int));
                }
                (k, after)
            },
            None => (name, name.substring_char(len, len)),
        }
    } else if len >= 2 && name.get_char(0) == '[' && name.get_char(1) == ']' {
        let k = name.substring_char(0, 2);
        let after = name.substring_char(2, len);
        proof {
            assert(k@ =~= name@.take(2));
            assert(after@ =~= name@.skip(2));
        }
        (k, after)
    } else if name.get_char(0) == '[' {
        match find_char_from(name, 1, ']') {
            Some(j) => {
                let k = name.substring_char(1, j);
                let after = name.substring_char(j + 1, len);
                proof {
                    assert(after@ =~= name@.skip(j + 1));
                }
                (k, after)
            },
            None => (name, name.substring_char(len, len)),
        }
    } else {
        (name, name.substring_char(len, len))
    }
}

/// For an all-digit suffix, a longer digit prefix never denotes less.
proof fn lemma_digits_val_mono(s: Seq<char>, i: int, j: int)
    requires
        0 <= i <= j <= s.len(),
        forall|x: int| 0 <= x < s.len() ==> is_digit(#[trigger] s[x]),
    ensures
        digits_val(s.take(i)) <= digits_val(s.take(j)),
    decreases j - i,
{
    if i < j {
        lemma_digits_val_mono(s, i, j - 1);
        assert(s.take(j).subrange(0, j - 1) =~= s.take(j - 1));
        assert(digits_val(s.take(j)) == digits_val(s.take(j - 1)) * 10 + (s[j - 1] as int - '0'
            as int));
    }
}

/// Parse a decimal index; `None` when the text is not all digits or the
/// value does not fit a `usize`.
#[verifier::loop_isolation(false)]
fn parse_digits(s: &str) -> (r: Option<usize>)
    ensures
        match r {
            Some(n) => all_digits(s@) && digits_val(s@) == n as nat,
            None => !(all_digits(s@) && digits_val(s@) <= usize::MAX),
        },
{
    let len = s.unicode_len();
    if len == 0 {
        return None;
    }
    let mut acc: usize = 0;
    let mut i: usize = 0;
    while i < len
        invariant
            i <= len,
            forall|x: int| 0 <= x < i ==> is_digit(#[trigger] s@[x]),
            acc as nat == digits_val(s@.take(i as int)),
        decreases len - i,
    {
        let c = s.get_char(i);
        let cu = c as u32;
        if cu < 48 || cu > 57 {
            return None;
        }
        let d = (cu - 48) as usize;
        if acc > usize::MAX / 10 || (acc == usize::MAX / 10 && d > usize::MAX % 10) {
            proof {
                assert(s@.take(i as int + 1).subrange(0, i as int) =~= s@.take(i as int));
                assert(digits_val(s@.take(i as int + 1)) == acc as nat * 10 + d as nat);
                assert(usize::MAX / 10 * 10 + usize::MAX % 10 == usize::MAX);
                assert(acc as nat * 10 + d as nat > usize::MAX);
                if all_digits(s@) {
                    lemma_digits_val_mono(s@, i as int + 1, s@.len() as int);
                    assert(s@.take(s@.len() as int) =~= s@);
                    assert(digits_val(s@) > usize::MAX);
                }
            }
            return None;
        }
        proof {
            assert(acc as nat * 10 + d as nat <= usize::MAX) by {
                assert(acc <= usize::MAX / 10);
                assert(usize::MAX / 10 * 10 + usize::MAX % 10 == usize::MAX);
            }
            assert(s@.take(i as int + 1).subrange(0, i as int) =~= s@.take(i as int));
        }
        acc = acc * 10 + d;
        i = i + 1;
    }
    proof {
        assert(s@.take(len as int) =~= s@);
    }
    Some(acc)
}

/// Whether the bracket path of `key` is already present in `hash`.
fn walk_path(hash: &Vec<(String, Value)>, key: &str) -> (r: bool)
    requires
        entries_wf(hash@),
    ensures
        r == spec_walk_path(entries_model(hash@), key@),
    decreases key@.len(),
{
    let len = key.unicode_len();
    if len == 0 {
        return true;
    }
    let c0 = key.get_char(0);
    if c0 == '[' || c0 == ']' {
        let tail = key.substring_char(1, len);
        proof {
            assert(tail@ =~= key@.skip(1));
        }
        return walk_path(hash, tail);
    }
    let j = match find_char2_from(key, 0, '[', ']') {
        Some(j) => j,
        None => len,
    };
    let part = key.substring_char(0, j);
    proof {
        assert(part@ =~= key@.take(j as int));
    }
    match crate::value::map_get(hash, part) {
        None => false,
        Some(v) => match v {
            Value::Object(m) => {
                proof {
                    let ghost obj = Value::Object(*m);
                    assert(val_model(*v) == val_model(obj));
                    assert(value_wf(*v));
                    assert(entries_wf(m@)) by {
                        assert(obj->Object_0 == *m);
                        if !entries_wf(m@) {
                            if !entries_unique(m@) {
                                assert(!value_wf(obj));
                            } else {
                                let i0 = choose|i: int|
                                    0 <= i < m@.len() && !value_wf(#[trigger] m@[i].1);
                                assert(!value_wf(obj->Object_0@[i0].1));
                                assert(!value_wf(obj));
                            }
                        }
                    }
                }
                let tail = key.substring_char(j, len);
                proof {
                    assert(tail@ =~= key@.skip(j as int));
                }
                walk_path(m, tail)
            },
            _ => true,
        },
    }
}

/// Whether the bracket path of `key` is already present, with a literal
/// `[]` pair in the key never counting as present.
pub fn params_hash_has_key(hash: &Vec<(String, Value)>, key: &str) -> (r: bool)
    requires
        entries_wf(hash@),
    ensures
        r == spec_has_key_path(entries_model(hash@), key@),
{
    if contains_pair(key, '[', ']') {
        return false;
    }
    walk_path(hash, key)
}

/// Build the `ParameterTypeError` message naming the found shape and key.
fn make_type_err_msg(expected_array: bool, got: &Value, k: &str) -> (r: String)
    ensures
        r@ == type_err_msg(expected_array, val_model(*got), k@),
{
    let head = if expected_array {
        "expected Array (got "
    } else {
        "expected Object (got "
    };
    String::from_str(head).concat(got.shape_name()).concat(") for param `").concat(k).concat("`")
}


/// How an executable error mirrors its ghost model.
pub open spec fn err_match(e: QueryParserError, em: NormErr) -> bool {
    match em {
        NormErr::ParameterType(msg) => e matches QueryParserError::ParameterTypeError(s) && s@
            == msg,
        NormErr::TooDeep => e matches QueryParserError::ParamsTooDeepError(s) && s@
            == "Parameters nested too deep"@,
    }
}

/// The bracket-notation key parser and normalizer, with its configured
/// nesting-depth limit.
pub struct QueryParser {
    param_depth_limit: usize,
}

impl QueryParser {
    /// The configured depth limit.
    pub closed spec fn limit(&self) -> nat {
        self.param_depth_limit as nat
    }

    pub fn new(param_depth_limit: Option<usize>) -> (r: Self)
        ensures
            r.limit() == match param_depth_limit {
                Some(l) => l as nat,
                None => DEFAULT_PARAM_DEPTH_LIMIT as nat,
            },
    {
        match param_depth_limit {
            Some(l) => QueryParser { param_depth_limit: l },
            None => QueryParser { param_depth_limit: DEFAULT_PARAM_DEPTH_LIMIT },
        }
    }


    /// Thread one `(name, v)` pair into the tree at the given depth. The
    /// tree afterwards, the returned value and every error are exactly those
    /// of `spec_normalize`.
    #[verifier::rlimit(100)]
    fn normalize_params(
        &self,
        params: &mut Vec<(String, Value)>,
        name: &str,
        v: Value,
        depth: usize,
    ) -> (r: Result<Value, QueryParserError>)
        requires
            entries_wf(old(params)@),
            value_wf(v),
        ensures
            ({
                let out = spec_normalize(
                    entries_model(old(params)@),
                    name@,
                    val_model(v),
                    depth as nat,
                    self.limit(),
                );
                &&& entries_wf(final(params)@)
                &&& entries_model(final(params)@) == out.0
                &&& match (r, out.1) {
                    (Ok(rv), Ok(rm)) => val_model(rv) == rm && value_wf(rv),
                    (Err(e), Err(em)) => err_match(e, em),
                    _ => false,
                }
            }),
        decreases name@.len(), 0nat,
    {
        let ghost m0 = entries_model(params@);
        let ghost out = spec_normalize(m0, name@, val_model(v), depth as nat, self.limit());
        if depth >= self.param_depth_limit {
            return Err(
                QueryParserError::ParamsTooDeepError(
                    String::from_str("Parameters nested too deep"),
                ),
            );
        }
        proof {
            lemma_split_key_len(name@, depth == 0);
        }
        let (k, after) = split_key(name, depth == 0);
        if k.unicode_len() == 0 {
            return Ok(Value::Null);
        }
        let after_len = after.unicode_len();

        // terminal segment: insert directly, or a one-element array for a
        // bare append marker below the top level
        if after_len == 0 {
            if str_eq(k, "[]") && depth != 0 {
                let mut items: Vec<Value> = Vec::new();
                items.push(v);
                proof {
                    assert(items_model(items@) =~= seq![val_model(v)]);
                    lemma_value_arr_wf(items);
                }
                return Ok(Value::Array(items));
            }
            let key_string = match take_entry(params, k) {
                Some(p) => p.0,
                None => String::from_str(k),
            };
            put_entry(params, key_string, v);
            let outv = crate::value::clone_entries(params);
            proof {
                assert(entries_model(params@) =~= m0.insert(k@, val_model(v)));
                lemma_value_obj_wf(outv);
            }
            return Ok(Value::Object(outv));
        }

        // a lone stray "[" after the segment: the whole name is a literal key
        if str_eq(after, "[") {
            let key_string = match take_entry(params, name) {
                Some(p) => p.0,
                None => String::from_str(name),
            };
            put_entry(params, key_string, v);
            let outv = crate::value::clone_entries(params);
            proof {
                assert(entries_model(params@) =~= m0.insert(name@, val_model(v)));
                lemma_value_obj_wf(outv);
            }
            return Ok(Value::Object(outv));
        }

        // append marker: the slot is or becomes an array, and v is appended
        if str_eq(after, "[]") {
            match take_entry(params, k) {
                None => {
                    let mut items: Vec<Value> = Vec::new();
                    items.push(v);
                    proof {
                        assert(items_model(items@) =~= seq![val_model(v)]);
                        lemma_value_arr_wf(items);
                    }
                    put_entry(params, String::from_str(k), Value::Array(items));
                },
                Some((kk, cur)) => {
                    match cur {
                        Value::Array(mut a) => {
                            proof {
                                lemma_value_arr_wf(a);
                            }
                            let ghost a0 = a@;
                            a.push(v);
                            proof {
                                assert(items_model(a@) =~= items_model(a0).push(val_model(v)));
                                lemma_value_arr_wf(a);
                            }
                            put_entry(params, kk, Value::Array(a));
                        },
                        other => {
                            let msg = make_type_err_msg(true, &other, k);
                            put_entry(params, kk, other);
                            proof {
                                assert(entries_model(params@) =~= m0);
                            }
                            return Err(QueryParserError::ParameterTypeError(msg));
                        },
                    }
                },
            }
            let outv = crate::value::clone_entries(params);
            proof {
                assert(entries_model(params@) =~= out.0);
                lemma_value_obj_wf(outv);
            }
            return Ok(Value::Object(outv));
        }

        // hash inside array: x[][y] continues or starts an array element
        if after_len >= 2 && after.get_char(0) == '[' && after.get_char(1) == ']' {
            let rest = after.substring_char(2, after_len);
            let rest_len = after_len - 2;
            proof {
                assert(rest@ =~= after@.skip(2));
            }
            let use_mid = rest_len >= 2 && rest.get_char(0) == '[' && rest.get_char(rest_len - 1)
                == ']';
            let mut child_is_mid = false;
            if use_mid {
                let mid = rest.substring_char(1, rest_len - 1);
                proof {
                    assert(mid@ =~= rest@.subrange(1, rest@.len() - 1));
                }
                if !(contains_char(mid, '[') || contains_char(mid, ']') || mid.unicode_len()
                    == 0) {
                    child_is_mid = true;
                }
            }
            let child_key: &str = if child_is_mid {
                let mid = rest.substring_char(1, rest_len - 1);
                proof {
                    assert(mid@ =~= rest@.subrange(1, rest@.len() - 1));
                }
                mid
            } else {
                rest
            };
            proof {
                reveal_strlit("[]");
                if after@.len() == 2 {
                    assert(after@ =~= "[]"@);
                }
                assert(after@.len() > 2);
                let srest = after@.skip(2);
                assert(rest@ == srest && srest.len() >= 1);
                let smid = srest.subrange(1, srest.len() - 1);
                let sck = if srest[0] != '[' || srest[srest.len() - 1] != ']'
                    || spec_contains_char(smid, '[') || spec_contains_char(smid, ']')
                    || smid.len() == 0 {
                    srest
                } else {
                    smid
                };
                if !use_mid && srest.len() == 1 {
                    assert(srest[srest.len() - 1] == srest[0]);
                }
                assert(child_key@ == sck);
            }
            match take_entry(params, k) {
                Some((kk, cur)) => {
                    match cur {
                        Value::Array(mut a) => {
                            proof {
                                lemma_value_arr_wf(a);
                            }
                            if a.len() > 0 {
                                let ghost a0 = a@;
                                let lastv = match a.pop() {
                                    Some(x) => x,
                                    None => Value::Null,
                                };
                                match lastv {
                                    Value::Object(mut h) => {
                                        proof {
                                            lemma_value_obj_wf(h);
                                        }
                                        if !params_hash_has_key(&h, child_key) {
                                            let _ignored = self.normalize_params(
                                                &mut h,
                                                child_key,
                                                v,
                                                depth + 1,
                                            );
                                            proof {
                                                lemma_value_obj_wf(h);
                                            }
                                            a.push(Value::Object(h));
                                            proof {
                                                assert(items_model(a@) =~= items_model(a0).update(
                                                    a0.len() - 1,
                                                    ValM::Obj(entries_model(h@)),
                                                ));
                                                lemma_value_arr_wf(a);
                                            }
                                            put_entry(params, kk, Value::Array(a));
                                            let outv = crate::value::clone_entries(params);
                                            proof {
                                                assert(entries_model(params@) =~= out.0);
                                                lemma_value_obj_wf(outv);
                                            }
                                            return Ok(Value::Object(outv));
                                        } else {
                                            a.push(Value::Object(h));
                                            proof {
                                                assert(a@ =~= a0);
                                                lemma_value_arr_wf(a);
                                            }
                                            let ghost apass = a@;
                                            let r = self.start_new_element(
                                                params,
                                                kk,
                                                a,
                                                child_key,
                                                v,
                                                depth,
                                            );
                                            proof {
                                                assert(items_model(apass) == m0[k@]->Arr_0);
                                                assert(entries_model(params@) =~= out.0);
                                            }
                                            return r;
                                        }
                                    },
                                    other_last => {
                                        a.push(other_last);
                                        proof {
                                            assert(a@ =~= a0);
                                            lemma_value_arr_wf(a);
                                        }
                                        let ghost apass = a@;
                                        let r = self.start_new_element(
                                            params,
                                            kk,
                                            a,
                                            child_key,
                                            v,
                                            depth,
                                        );
                                        proof {
                                            assert(items_model(apass) == m0[k@]->Arr_0);
                                            assert(entries_model(params@) =~= out.0);
                                        }
                                        return r;
                                    },
                                }
                            } else {
                                let ghost apass = a@;
                                let r = self.start_new_element(params, kk, a, child_key, v, depth);
                                proof {
                                    assert(items_model(apass) == m0[k@]->Arr_0);
                                    assert(entries_model(params@) =~= out.0);
                                }
                                return r;
                            }
                        },
                        other => {
                            let msg = make_type_err_msg(true, &other, k);
                            put_entry(params, kk, other);
                            proof {
                                assert(entries_model(params@) =~= m0);
                            }
                            return Err(QueryParserError::ParameterTypeError(msg));
                        },
                    }
                },
                None => {
                    let a: Vec<Value> = Vec::new();
                    proof {
                        assert(items_model(a@) =~= Seq::<ValM>::empty());
                    }
                    let r = self.start_new_element(
                        params,
                        String::from_str(k),
                        a,
                        child_key,
                        v,
                        depth,
                    );
                    proof {
                        assert(entries_model(params@) =~= out.0);
                    }
                    return r;
                },
            }
        }

        // indexed array: x[0]rest zero-extends the array with empty objects
        let mut indexed: Option<(usize, &str)> = None;
        if after.get_char(0) == '[' {
            match find_char_from(after, 1, ']') {
                Some(j) => {
                    let digits = after.substring_char(1, j);
                    proof {
                        assert(digits@ =~= after@.subrange(1, j as int));
                    }
                    match parse_digits(digits) {
                        Some(n) => {
                            let rest2 = after.substring_char(j + 1, after_len);
                            proof {
                                assert(rest2@ =~= after@.skip(j as int + 1));
                            }
                            indexed = Some((n, rest2));
                        },
                        None => {},
                    }
                },
                None => {},
            }
        }
        proof {
            match indexed {
                Some(p) => {
                    assert(spec_indexed_tail(after@) == Some((p.0 as nat, p.1@)));
                },
                None => {
                    assert(spec_indexed_tail(after@) is None);
                },
            }
        }
        match indexed {
            Some((n, rest2)) => {
                let taken = take_entry(params, k);
                let (key_string, mut a) = match taken {
                    None => (String::from_str(k), Vec::new()),
                    Some((kk, cur)) => match cur {
                        Value::Array(a) => (kk, a),
                        other => {
                            let msg = make_type_err_msg(true, &other, k);
                            put_entry(params, kk, other);
                            proof {
                                assert(entries_model(params@) =~= m0);
                            }
                            return Err(QueryParserError::ParameterTypeError(msg));
                        },
                    },
                };
                proof {
                    lemma_value_arr_wf(a);
                }
                let ghost arr0 = a@;
                while a.len() <= n
                    invariant
                        a@.len() >= arr0.len(),
                        a@.len() <= n + 1 || a@ == arr0,
                        forall|i: int| 0 <= i < arr0.len() ==> a@[i] == arr0[i],
                        forall|i: int|
                            arr0.len() <= i < a@.len() ==> val_model(#[trigger] a@[i])
                                == ValM::Obj(Map::empty()) && value_wf(a@[i]),
                        forall|i: int| 0 <= i < arr0.len() ==> value_wf(#[trigger] a@[i]),
                    decreases n + 1 - a@.len(),
                {
                    let fresh_obj: Vec<(String, Value)> = Vec::new();
                    proof {
                        assert(entries_model(fresh_obj@) =~= Map::<Seq<char>, ValM>::empty());
                    }
                    a.push(Value::Object(fresh_obj));
                }
                proof {
                    let padded = if items_model(arr0).len() <= n as nat {
                        items_model(arr0) + Seq::new(
                            (n as nat + 1 - items_model(arr0).len()) as nat,
                            |i: int| ValM::Obj(Map::empty()),
                        )
                    } else {
                        items_model(arr0)
                    };
                    assert(items_model(a@) =~= padded);
                }
                if rest2.unicode_len() == 0 {
                    let ghost a1 = a@;
                    let _old_elem = a.remove(n);
                    a.insert(n, v);
                    proof {
                        assert(a@ =~= a1.update(n as int, v));
                        assert(items_model(a@) =~= items_model(a1).update(n as int, val_model(v)));
                        lemma_value_arr_wf(a);
                    }
                    put_entry(params, key_string, Value::Array(a));
                    let outv = crate::value::clone_entries(params);
                    proof {
                        assert(entries_model(params@) =~= out.0);
                        lemma_value_obj_wf(outv);
                    }
                    return Ok(Value::Object(outv));
                } else {
                    let ghost a1 = a@;
                    let elem = a.remove(n);
                    let mut h: Vec<(String, Value)> = match elem {
                        Value::Object(hh) => hh,
                        _ => Vec::new(),
                    };
                    proof {
                        lemma_value_obj_wf(h);
                        assert(entries_model(Seq::<(String, Value)>::empty()) =~= Map::<
                            Seq<char>,
                            ValM,
                        >::empty());
                    }
                    let rr = self.normalize_params(&mut h, rest2, v, depth + 1);
                    proof {
                        lemma_value_obj_wf(h);
                    }
                    a.insert(n, Value::Object(h));
                    proof {
                        assert(a@ =~= a1.update(n as int, Value::Object(h)));
                        assert(items_model(a@) =~= items_model(a1).update(
                            n as int,
                            ValM::Obj(entries_model(h@)),
                        ));
                        lemma_value_arr_wf(a);
                    }
                    put_entry(params, key_string, Value::Array(a));
                    match rr {
                        Err(e) => {
                            proof {
                                assert(entries_model(params@) =~= out.0);
                            }
                            return Err(e);
                        },
                        Ok(_) => {
                            let outv = crate::value::clone_entries(params);
                            proof {
                                assert(entries_model(params@) =~= out.0);
                                lemma_value_obj_wf(outv);
                            }
                            return Ok(Value::Object(outv));
                        },
                    }
                }
            },
            None => {
                // ordinary nested object key
                let taken = take_entry(params, k);
                let (key_string, mut h) = match taken {
                    None => (String::from_str(k), Vec::new()),
                    Some((kk, cur)) => match cur {
                        Value::Object(hh) => (kk, hh),
                        other => {
                            let msg = make_type_err_msg(false, &other, k);
                            put_entry(params, kk, other);
                            proof {
                                assert(entries_model(params@) =~= m0);
                            }
                            return Err(QueryParserError::ParameterTypeError(msg));
                        },
                    },
                };
                proof {
                    lemma_value_obj_wf(h);
                    assert(entries_model(Seq::<(String, Value)>::empty()) =~= Map::<Seq<char>,
                        ValM>::empty());
                }
                let rr = self.normalize_params(&mut h, after, v, depth + 1);
                proof {
                    lemma_value_obj_wf(h);
                }
                put_entry(params, key_string, Value::Object(h));
                match rr {
                    Err(e) => {
                        proof {
                            assert(entries_model(params@) =~= out.0);
                        }
                        return Err(e);
                    },
                    Ok(_) => {
                        let outv = crate::value::clone_entries(params);
                        proof {
                            assert(entries_model(params@) =~= out.0);
                            lemma_value_obj_wf(outv);
                        }
                        return Ok(Value::Object(outv));
                    },
                }
            },
        }
    }

    /// Start a new element of the array at `key_string`: normalize the pair
    /// into a fresh object and append what comes back, or leave the array as
    /// it stands when the recursion fails.
    fn start_new_element(
        &self,
        params: &mut Vec<(String, Value)>,
        key_string: String,
        a: Vec<Value>,
        child_key: &str,
        v: Value,
        depth: usize,
    ) -> (r: Result<Value, QueryParserError>)
        requires
            entries_wf(old(params)@),
            value_wf(v),
            !entries_model(old(params)@).contains_key(key_string@),
            forall|i: int| 0 <= i < a@.len() ==> value_wf(#[trigger] a@[i]),
            depth < usize::MAX,
        ensures
            ({
                let m0 = entries_model(old(params)@);
                let (h2, rr) = spec_normalize(
                    Map::empty(),
                    child_key@,
                    val_model(v),
                    depth as nat + 1,
                    self.limit(),
                );
                &&& entries_wf(final(params)@)
                &&& match (r, rr) {
                    (Err(e), Err(em)) => entries_model(final(params)@) == m0.insert(
                        key_string@,
                        ValM::Arr(items_model(a@)),
                    ) && err_match(e, em),
                    (Ok(rv), Ok(nv)) => entries_model(final(params)@) == m0.insert(
                        key_string@,
                        ValM::Arr(items_model(a@).push(nv)),
                    ) && val_model(rv) == ValM::Obj(entries_model(final(params)@)) && value_wf(rv),
                    _ => false,
                }
            }),
        decreases child_key@.len(), 1nat,
    {
        let ghost m0 = entries_model(params@);
        let mut a = a;
        let mut fresh: Vec<(String, Value)> = Vec::new();
        let rr = self.normalize_params(&mut fresh, child_key, v, depth + 1);
        proof {
            assert(entries_model(Seq::<(String, Value)>::empty()) =~= Map::<Seq<char>,
                ValM>::empty());
        }
        match rr {
            Err(e) => {
                proof {
                    lemma_value_arr_wf(a);
                }
                put_entry(params, key_string, Value::Array(a));
                Err(e)
            },
            Ok(nv) => {
                let ghost a0 = a@;
                a.push(nv);
                proof {
                    assert(items_model(a@) =~= items_model(a0).push(val_model(nv)));
                    lemma_value_arr_wf(a);
                }
                put_entry(params, key_string, Value::Array(a));
                let out = crate::value::clone_entries(params);
                proof {
                    lemma_value_obj_wf(out);
                }
                Ok(Value::Object(out))
            },
        }
    }
}


// ---------------------------------------------------------------------------
// Query strings: split on `&`, percent-decode each side of the first `=`,
// fold every pair into the tree.
// ---------------------------------------------------------------------------

/// Named result of the percent-decoder of the `form_urlencoded` crate.
pub uninterp spec fn form_decode(s: Seq<char>) -> Seq<char>;

/// Relies on form_urlencoded::parse: the decoded key of the first parsed
/// pair of `s` (plus-for-space and percent-escapes resolved), or empty text
/// when `s` holds no pair. The result depends on `s` alone.
#[verifier::external_body]
fn url_decode(s: &str) -> (r: String)
    ensures
        r@ == form_decode(s@),
        s@.len() == 0 ==> r@.len() == 0,
{
    form_urlencoded::parse(s.as_bytes()).next().map(|(k, _)| k.into_owned()).unwrap_or_default()
}

/// The segments of `s` between occurrences of `c`, in order, empties kept.
pub open spec fn spec_split_char(s: Seq<char>, c: char) -> Seq<Seq<char>>
    decreases s.len(),
    via spec_split_char_decreases
{
    match spec_find(s, 0, c) {
        None => seq![s],
        Some(j) => seq![s.take(j)] + spec_split_char(s.skip(j + 1), c),
    }
}

#[via_fn]
proof fn spec_split_char_decreases(s: Seq<char>, c: char) {
    lemma_spec_find(s, 0, c);
}

/// The key and value model of one raw (still encoded) query pair.
pub open spec fn spec_pair_kv(pair: Seq<char>) -> (Seq<char>, ValM) {
    match spec_find(pair, 0, '=') {
        Some(j) => (form_decode(pair.take(j)), ValM::XStr(form_decode(pair.skip(j + 1)))),
        None => (form_decode(pair), ValM::Null),
    }
}

/// Fold raw pairs into the tree in order, skipping empty pairs and stopping
/// at the first failure.
pub open spec fn spec_fold_pairs(
    params: Map<Seq<char>, ValM>,
    pairs: Seq<Seq<char>>,
    limit: nat,
) -> (Map<Seq<char>, ValM>, Option<NormErr>)
    decreases pairs.len(),
{
    if pairs.len() == 0 {
        (params, None)
    } else if pairs[0].len() == 0 {
        spec_fold_pairs(params, pairs.skip(1), limit)
    } else {
        let kv = spec_pair_kv(pairs[0]);
        let (p2, r) = spec_normalize(params, kv.0, kv.1, 0, limit);
        match r {
            Err(e) => (p2, Some(e)),
            Ok(_) => spec_fold_pairs(p2, pairs.skip(1), limit),
        }
    }
}

/// A first occurrence in a suffix is the first occurrence past its start.
proof fn lemma_spec_find_skip(s: Seq<char>, p: int, c: char)
    requires
        0 <= p <= s.len(),
    ensures
        spec_find(s.skip(p), 0, c) == match spec_find(s, p, c) {
            Some(j) => Some(j - p),
            None => None::<int>,
        },
{
    lemma_spec_find(s, p, c);
    lemma_spec_find(s.skip(p), 0, c);
    let t = s.skip(p);
    match (spec_find(s, p, c), spec_find(t, 0, c)) {
        (Some(j), Some(j2)) => {
            assert(t[j - p] == c);
            assert(s[p + j2] == c);
            if j2 < j - p {
                assert(s[p + j2] != c);
            }
            if j - p < j2 {
                assert(t[j - p] != c);
            }
        },
        (Some(j), None) => {
            assert(t[j - p] == c);
        },
        (None, Some(j2)) => {
            assert(s[p + j2] == c);
        },
        (None, None) => {},
    }
}

impl QueryParser {
    /// Decode and fold one raw query pair; an empty pair is a no-op.
    fn process_pair(&self, params: &mut Vec<(String, Value)>, pair: &str) -> (r: Result<
        (),
        QueryParserError,
    >)
        requires
            entries_wf(old(params)@),
        ensures
            entries_wf(final(params)@),
            pair@.len() == 0 ==> final(params)@ == old(params)@ && r is Ok,
            pair@.len() > 0 ==> ({
                let kv = spec_pair_kv(pair@);
                let (p2, rr) = spec_normalize(
                    entries_model(old(params)@),
                    kv.0,
                    kv.1,
                    0,
                    self.limit(),
                );
                &&& entries_model(final(params)@) == p2
                &&& match (r, rr) {
                    (Ok(_), Ok(_)) => true,
                    (Err(e), Err(em)) => err_match(e, em),
                    _ => false,
                }
            }),
    {
        let plen = pair.unicode_len();
        if plen == 0 {
            return Ok(());
        }
        let (key, value): (String, Value) = match find_char_from(pair, 0, '=') {
            Some(j) => {
                let kraw = pair.substring_char(0, j);
                let vraw = pair.substring_char(j + 1, plen);
                proof {
                    assert(kraw@ =~= pair@.take(j as int));
                    assert(vraw@ =~= pair@.skip(j as int + 1));
                }
                (url_decode(kraw), Value::XStr(url_decode(vraw)))
            },
            None => (url_decode(pair), Value::Null),
        };
        match self.normalize_params(params, key.as_str(), value, 0) {
            Ok(_) => Ok(()),
            Err(e) => Err(e),
        }
    }

    /// Fold a whole query string into a running tree: pairs are split on
    /// `&`, keys and values are percent-decoded, and each pair is threaded
    /// in by the normalizer. `None` reads as the empty query string.
    #[verifier::loop_isolation(false)]
    pub fn parse_nested_query_into(
        &self,
        params: &mut Vec<(String, Value)>,
        qs: Option<&str>,
    ) -> (r: Result<(), QueryParserError>)
        requires
            entries_wf(old(params)@),
        ensures
            entries_wf(final(params)@),
            ({
                let text = match qs {
                    Some(s) => s@,
                    None => Seq::empty(),
                };
                let (pm, err) = spec_fold_pairs(
                    entries_model(old(params)@),
                    spec_split_char(text, '&'),
                    self.limit(),
                );
                &&& entries_model(final(params)@) == pm
                &&& match (r, err) {
                    (Ok(_), None) => true,
                    (Err(e), Some(em)) => err_match(e, em),
                    _ => false,
                }
            }),
    {
        proof {
            reveal_strlit("");
            assert(""@ =~= Seq::<char>::empty());
        }
        let qs: &str = match qs {
            Some(s) => s,
            None => "",
        };
        let qlen = qs.unicode_len();
        let ghost m0 = entries_model(params@);
        let ghost whole = spec_split_char(qs@, '&');
        let ghost goal = spec_fold_pairs(m0, whole, self.limit());
        if qlen == 0 {
            proof {
                assert(spec_find(qs@, 0, '&') is None);
                assert(whole == seq![qs@]);
                assert(seq![qs@].skip(1) =~= Seq::<Seq<char>>::empty());
                assert(spec_fold_pairs(m0, seq![qs@].skip(1), self.limit()) == (m0, Option::<
                    NormErr,
                >::None));
                assert(goal == (m0, Option::<NormErr>::None));
            }
            return Ok(());
        }
        let mut pos: usize = 0;
        proof {
            assert(qs@.skip(0) =~= qs@);
        }
        loop
            invariant
                pos <= qlen,
                entries_wf(params@),
                spec_fold_pairs(
                    entries_model(params@),
                    spec_split_char(qs@.skip(pos as int), '&'),
                    self.limit(),
                ) == goal,
            decreases qlen - pos,
        {
            let ghost mcur = entries_model(params@);
            let ghost suffix = qs@.skip(pos as int);
            proof {
                lemma_spec_find_skip(qs@, pos as int, '&');
            }
            match find_char_from(qs, pos, '&') {
                Some(j) => {
                    let segment = qs.substring_char(pos, j);
                    let ghost rest_pairs = spec_split_char(qs@.skip(j + 1), '&');
                    proof {
                        assert(segment@ =~= suffix.take(j - pos));
                        assert(suffix.skip(j - pos + 1) =~= qs@.skip(j + 1));
                        assert(spec_split_char(suffix, '&') == seq![segment@] + rest_pairs);
                        assert((seq![segment@] + rest_pairs)[0] == segment@);
                        assert((seq![segment@] + rest_pairs).skip(1) =~= rest_pairs);
                    }
                    match self.process_pair(params, segment) {
                        Ok(_) => {
                            proof {
                                assert(spec_fold_pairs(mcur, seq![segment@] + rest_pairs, self.limit())
                                    == spec_fold_pairs(entries_model(params@), rest_pairs, self.limit()));
                            }
                        },
                        Err(e) => {
                            proof {
                                assert(spec_fold_pairs(mcur, seq![segment@] + rest_pairs, self.limit())
                                    == goal);
                                assert(goal.0 == entries_model(params@));
                                assert(goal.1 is Some && err_match(e, goal.1->Some_0));
                            }
                            return Err(e);
                        },
                    }
                    pos = j + 1;
                },
                None => {
                    let segment = qs.substring_char(pos, qlen);
                    proof {
                        assert(segment@ =~= suffix);
                        assert(spec_split_char(suffix, '&') == seq![suffix]);
                        assert(seq![suffix][0] == suffix);
                        assert(seq![suffix].skip(1) =~= Seq::<Seq<char>>::empty());
                    }
                    let r = self.process_pair(params, segment);
                    match r {
                        Ok(_) => {
                            proof {
                                assert(spec_fold_pairs(
                                    entries_model(params@),
                                    Seq::<Seq<char>>::empty(),
                                    self.limit(),
                                ) == (entries_model(params@), Option::<NormErr>::None));
                                assert(spec_fold_pairs(mcur, seq![suffix], self.limit()) == (
                                    entries_model(params@),
                                    Option::<NormErr>::None,
                                ));
                            }
                            return Ok(());
                        },
                        Err(e) => {
                            proof {
                                assert(spec_fold_pairs(mcur, seq![suffix], self.limit()) == goal);
                                assert(goal.0 == entries_model(params@));
                                assert(goal.1 is Some && err_match(e, goal.1->Some_0));
                            }
                            return Err(e);
                        },
                    }
                },
            }
        }
    }

    /// Parse a whole query string into a fresh tree.
    pub fn parse_nested_query(&self, qs: Option<&str>) -> (r: Result<
        Vec<(String, Value)>,
        QueryParserError,
    >)
        ensures
            ({
                let text = match qs {
                    Some(s) => s@,
                    None => Seq::empty(),
                };
                let (pm, err) = spec_fold_pairs(
                    Map::empty(),
                    spec_split_char(text, '&'),
                    self.limit(),
                );
                match r {
                    Ok(out) => entries_wf(out@) && err is None && entries_model(out@) == pm,
                    Err(e) => err matches Some(em) && err_match(e, em),
                }
            }),
    {
        let mut params: Vec<(String, Value)> = Vec::new();
        proof {
            assert(entries_model(params@) =~= Map::<Seq<char>, ValM>::empty());
        }
        match self.parse_nested_query_into(&mut params, qs) {
            Ok(_) => Ok(params),
            Err(e) => Err(e),
        }
    }

    /// Thread one already-decoded `(key, value)` pair into a running tree.
    /// An empty (or absent) key discards the value.
    pub fn parse_nested_value(
        &self,
        params: &mut Vec<(String, Value)>,
        key: Option<&str>,
        value: Value,
    ) -> (r: Result<(), QueryParserError>)
        requires
            entries_wf(old(params)@),
            value_wf(value),
        ensures
            entries_wf(final(params)@),
            ({
                let ktext = match key {
                    Some(s) => s@,
                    None => Seq::empty(),
                };
                if ktext.len() == 0 {
                    final(params)@ == old(params)@ && r is Ok
                } else {
                    let (p2, rr) = spec_normalize(
                        entries_model(old(params)@),
                        ktext,
                        val_model(value),
                        0,
                        self.limit(),
                    );
                    &&& entries_model(final(params)@) == p2
                    &&& match (r, rr) {
                        (Ok(_), Ok(_)) => true,
                        (Err(e), Err(em)) => err_match(e, em),
                        _ => false,
                    }
                }
            }),
    {
        proof {
            reveal_strlit("");
            assert(""@ =~= Seq::<char>::empty());
        }
        let key: &str = match key {
            Some(s) => s,
            None => "",
        };
        if key.unicode_len() == 0 {
            return Ok(());
        }
        match self.normalize_params(params, key, value, 0) {
            Ok(_) => Ok(()),
            Err(e) => Err(e),
        }
    }
}

} // verus!
