//! Small verified helpers over string slices, used by the key-path parser
//! and the JSON scanner. All of them are specified over `Seq<char>` views.

use vstd::prelude::*;

verus! {

/// Index of the first occurrence of `c` at or after `i`, if any.
pub open spec fn spec_find(s: Seq<char>, i: int, c: char) -> Option<int>
    decreases s.len() - i,
{
    if i < 0 || i >= s.len() {
        None
    } else if s[i] == c {
        Some(i)
    } else {
        spec_find(s, i + 1, c)
    }
}

pub proof fn lemma_spec_find(s: Seq<char>, i: int, c: char)
    requires
        0 <= i <= s.len(),
    ensures
        match spec_find(s, i, c) {
            Some(j) => i <= j < s.len() && s[j] == c && (forall|x: int| i <= x < j ==> s[x] != c),
            None => forall|x: int| i <= x < s.len() ==> s[x] != c,
        },
    decreases s.len() - i,
{
    if i < s.len() && s[i] != c {
        lemma_spec_find(s, i + 1, c);
    }
}

/// Character-for-character equality of two string slices.
pub fn str_eq(a: &str, b: &str) -> (r: bool)
    ensures
        r == (a@ == b@),
{
    let alen = a.unicode_len();
    let blen = b.unicode_len();
    if alen != blen {
        proof {
            assert(a@.len() != b@.len());
        }
        return false;
    }
    let mut i: usize = 0;
    while i < alen
        invariant
            alen == a@.len(),
            alen == b@.len(),
            i <= alen,
            forall|j: int| 0 <= j < i ==> a@[j] == b@[j],
        decreases alen - i,
    {
        if a.get_char(i) != b.get_char(i) {
            return false;
        }
        i = i + 1;
    }
    proof {
        assert(a@ =~= b@);
    }
    true
}

/// First occurrence of `c` at or after `from`.
pub fn find_char_from(s: &str, from: usize, c: char) -> (r: Option<usize>)
    requires
        from <= s@.len(),
    ensures
        match r {
            Some(j) => from <= j < s@.len() && s@[j as int] == c && spec_find(s@, from as int, c)
                == Some(j as int),
            None => spec_find(s@, from as int, c) is None,
        },
{
    let len = s.unicode_len();
    let mut i: usize = from;
    while i < len
        invariant
            len == s@.len(),
            from <= i <= len,
            forall|x: int| from <= x < i ==> s@[x] != c,
            spec_find(s@, from as int, c) == spec_find(s@, i as int, c),
        decreases len - i,
    {
        if s.get_char(i) == c {
            return Some(i);
        }
        i = i + 1;
    }
    None
}

/// Whether `s` holds the two-character sequence `ab` anywhere.
pub open spec fn spec_contains_pair(s: Seq<char>, a: char, b: char) -> bool {
    exists|i: int| 0 <= i && i + 1 < s.len() && #[trigger] s[i] == a && s[i + 1] == b
}

pub fn contains_pair(s: &str, a: char, b: char) -> (r: bool)
    ensures
        r == spec_contains_pair(s@, a, b),
{
    let len = s.unicode_len();
    if len < 2 {
        return false;
    }
    let mut i: usize = 0;
    while i + 1 < len
        invariant
            len == s@.len(),
            i + 1 <= len,
            forall|x: int| 0 <= x < i ==> !(#[trigger] s@[x] == a && s@[x + 1] == b),
        decreases len - i,
    {
        if s.get_char(i) == a && s.get_char(i + 1) == b {
            return true;
        }
        i = i + 1;
    }
    false
}

/// Whether `s` holds `c` anywhere.
pub open spec fn spec_contains_char(s: Seq<char>, c: char) -> bool {
    exists|i: int| 0 <= i < s.len() && s[i] == c
}

pub fn contains_char(s: &str, c: char) -> (r: bool)
    ensures
        r == spec_contains_char(s@, c),
{
    proof {
        lemma_spec_find(s@, 0, c);
    }
    match find_char_from(s, 0, c) {
        Some(_) => true,
        None => false,
    }
}

} // verus!
