//! Laws of the engine, stated and proved over the ghost models: what one
//! bracketed pair builds, that loose and plain strings are the same value,
//! and that object merging is right-biased.

use crate::query_parser::{
    all_digits, digits_val, spec_indexed_tail, spec_normalize, spec_split_key,
};
use crate::strutil::{lemma_spec_find, spec_contains_char, spec_find};
use crate::value::{eq_model, ValM};
use vstd::prelude::*;

verus! {

/// In `base + ['['] + b + [']']`-shaped text with no brackets in `a` or
/// `b`, the first `[` at or after 1 stands exactly at `a.len()`.
proof fn lemma_find_bracket(a: Seq<char>, b: Seq<char>)
    requires
        a.len() > 0,
        !spec_contains_char(a, '['),
        !spec_contains_char(b, '['),
    ensures
        spec_find(a + seq!['['] + b + seq![']'], 1, '[') == Some(a.len() as int),
{
    let name = a + seq!['['] + b + seq![']'];
    assert(name[a.len() as int] == '[');
    lemma_spec_find(name, 1, '[');
    match spec_find(name, 1, '[') {
        Some(j) => {
            if j > a.len() {
                assert(name[a.len() as int] != '[');
            }
            if j < a.len() {
                assert(name[j] == a[j]);
                assert(spec_contains_char(a, '['));
            }
        },
        None => {
            assert(name[a.len() as int] != '[');
        },
    }
}

/// One bracketed pair `a[b]` threaded into an empty tree builds exactly
/// `{a: {b: v}}`, whenever `a` and `b` hold no brackets, `b` is not an
/// array index, and the depth limit allows one descent. Decoding the `a`
/// then `b` slots of the result therefore hands `v` back unchanged.
pub proof fn lemma_normalize_nested_pair(a: Seq<char>, b: Seq<char>, v: ValM, limit: nat)
    requires
        a.len() > 0,
        !spec_contains_char(a, '['),
        b.len() > 0,
        !spec_contains_char(b, '['),
        !spec_contains_char(b, ']'),
        !(all_digits(b) && digits_val(b) <= usize::MAX),
        limit >= 2,
    ensures
        ({
            let name = a + seq!['['] + b + seq![']'];
            let out = spec_normalize(Map::<Seq<char>, ValM>::empty(), name, v, 0, limit);
            &&& out.0 == Map::<Seq<char>, ValM>::empty().insert(
                a,
                ValM::Obj(Map::<Seq<char>, ValM>::empty().insert(b, v)),
            )
            &&& out.1 is Ok
        }),
{
    reveal_strlit("[");
    reveal_strlit("[]");
    let name = a + seq!['['] + b + seq![']'];
    lemma_find_bracket(a, b);
    let split0 = spec_split_key(name, true);
    assert(split0.0 =~= a);
    let after = name.skip(a.len() as int);
    assert(split0.1 =~= after);
    assert(after.len() == b.len() + 2);
    assert(after[0] == '[');
    assert(after[1] == b[0]);
    assert(b[0] != ']');
    assert(after != "["@);
    assert(after != "[]"@);
    assert(split0.0.len() > 0);
    // the tail is not an indexed-array tail: its bracketed run is b
    assert(spec_find(after, 1, ']') == Some(b.len() as int + 1)) by {
        assert(after[b.len() as int + 1] == ']');
        lemma_spec_find(after, 1, ']');
        match spec_find(after, 1, ']') {
            Some(j) => {
                if j > b.len() as int + 1 {
                    assert(after[b.len() as int + 1] != ']');
                }
                if j < b.len() as int + 1 {
                    assert(after[j] == b[j - 1]);
                    assert(spec_contains_char(b, ']'));
                }
            },
            None => {
                assert(after[b.len() as int + 1] != ']');
            },
        }
    }
    assert(after.subrange(1, b.len() as int + 1) =~= b);
    assert(spec_indexed_tail(after) is None);
    // the inner step: `[b]` at depth one inserts at key b
    let inner = spec_normalize(Map::<Seq<char>, ValM>::empty(), after, v, 1, limit);
    assert(inner.0 == Map::<Seq<char>, ValM>::empty().insert(b, v) && inner.1 is Ok) by {
        let split1 = spec_split_key(after, false);
        assert(!(after.len() >= 2 && after[0] == '[' && after[1] == ']'));
        assert(split1.0 =~= b);
        assert(split1.1 =~= after.skip(b.len() as int + 2));
        assert(split1.1.len() == 0);
        assert(b != "[]"@) by {
            if b == "[]"@ {
                assert(b[0] == '[');
                assert(spec_contains_char(b, '['));
            }
        }
    }
    assert(!Map::<Seq<char>, ValM>::empty().contains_key(a));
}

/// A loose string and a plain string carrying the same text are the same
/// value under the model's equality.
pub proof fn lemma_loose_plain_equal(s: Seq<char>)
    ensures
        eq_model(ValM::XStr(s), ValM::Str(s)),
        eq_model(ValM::Str(s), ValM::XStr(s)),
{
}

/// Object merging is right-biased: on a key collision the second operand's
/// value is kept, and every key of either side survives.
pub proof fn lemma_merge_right_bias(ma: Map<Seq<char>, ValM>, mb: Map<Seq<char>, ValM>, k: Seq<char>)
    ensures
        ma.union_prefer_right(mb).contains_key(k) <==> ma.contains_key(k) || mb.contains_key(k),
        mb.contains_key(k) ==> ma.union_prefer_right(mb)[k] == mb[k],
        ma.contains_key(k) && !mb.contains_key(k) ==> ma.union_prefer_right(mb)[k] == ma[k],
{
}

} // verus!
