//! Small verified text helpers: character search, string equality, and
//! path concatenation, shared by the token codec, the manifest codec and the
//! state facade.

use vstd::prelude::*;
use vstd::string::StrSliceExecFns;
use vstd::string::StringExecFns;

verus! {

/// The first index at or after `from` where `c` stands in `s`, or the length
/// of `s` when there is none.
pub open spec fn find_from(s: Seq<char>, from: int, c: char) -> int
    decreases s.len() - from,
{
    if from < 0 || from >= s.len() {
        s.len() as int
    } else if s[from] == c {
        from
    } else {
        find_from(s, from + 1, c)
    }
}

/// `find_from` lands on the first occurrence: where a stretch free of `c`
/// ends at an occurrence (or at the end of the string), that is the result.
pub proof fn lemma_find_from_is(s: Seq<char>, from: int, e: int, c: char)
    requires
        0 <= from <= e <= s.len(),
        forall|k: int| from <= k < e ==> s[k] != c,
        e == s.len() || s[e] == c,
    ensures
        find_from(s, from, c) == if e == s.len() {
            s.len() as int
        } else {
            e
        },
    decreases e - from,
{
    if from < e {
        lemma_find_from_is(s, from + 1, e, c);
    }
}

/// `find_from` stays inside the string, lands on `c`, and skips no
/// occurrence.
pub proof fn lemma_find_from_bounds(s: Seq<char>, from: int, c: char)
    requires
        0 <= from <= s.len(),
    ensures
        from <= find_from(s, from, c) <= s.len(),
        find_from(s, from, c) < s.len() ==> s[find_from(s, from, c)] == c,
        forall|k: int| from <= k < find_from(s, from, c) ==> s[k] != c,
    decreases s.len() - from,
{
    if from < s.len() && s[from] != c {
        lemma_find_from_bounds(s, from + 1, c);
    }
}

/// Find the first occurrence of `c` in `s` at or after `from`.
pub fn find_char(s: &str, from: usize, c: char) -> (r: Option<usize>)
    requires
        from <= s@.len(),
    ensures
        match r {
            Some(i) => i == find_from(s@, from as int, c) && i < s@.len(),
            None => find_from(s@, from as int, c) == s@.len(),
        },
{
    let len = s.unicode_len();
    proof {
        lemma_find_from_bounds(s@, from as int, c);
    }
    let mut i: usize = from;
    while i < len
        invariant
            from <= i <= len,
            len == s@.len(),
            from <= find_from(s@, from as int, c) <= len,
            i <= find_from(s@, from as int, c),
            forall|k: int| from <= k < find_from(s@, from as int, c) ==> s@[k] != c,
            find_from(s@, from as int, c) < len ==> s@[find_from(s@, from as int, c)] == c,
        ensures
            i == find_from(s@, from as int, c) || (i == len && find_from(s@, from as int, c)
                == len),
        decreases len - i,
    {
        if s.get_char(i) == c {
            proof {
                if i < find_from(s@, from as int, c) {
                    assert(s@[i as int] != c);
                }
            }
            break;
        }
        proof {
            if i == find_from(s@, from as int, c) {
                assert(s@[i as int] == c);
            }
        }
        i = i + 1;
    }
    if i < len {
        Some(i)
    } else {
        None
    }
}

/// Character-for-character string equality.
pub fn str_eq(a: &str, b: &str) -> (r: bool)
    ensures
        r == (a@ == b@),
{
    let alen = a.unicode_len();
    let blen = b.unicode_len();
    if alen != blen {
        return false;
    }
    let mut i: usize = 0;
    while i < alen
        invariant
            i <= alen,
            alen == a@.len(),
            alen == b@.len(),
            forall|k: int| 0 <= k < i ==> a@[k] == b@[k],
        decreases alen - i,
    {
        if a.get_char(i) != b.get_char(i) {
            return false;
        }
        i = i + 1;
    }
    proof {
        assert(a@ =~= b@);
    }
    true
}

/// Equality between an optional string and a string.
pub fn opt_str_eq(a: &Option<String>, b: &str) -> (r: bool)
    ensures
        r == match a {
            Some(s) => s@ == b@,
            None => false,
        },
{
    match a {
        Some(s) => str_eq(s.as_str(), b),
        None => false,
    }
}

/// `base`, a path separator, then `leaf`.
pub fn path_join(base: &str, leaf: &str) -> (r: String)
    ensures
        r@ == base@ + seq!['/'] + leaf@,
{
    proof {
        reveal_strlit("/");
        assert("/"@ =~= seq!['/']);
    }
    let mut r = base.to_owned();
    r.append("/");
    r.append(leaf);
    proof {
        assert(r@ =~= base@ + seq!['/'] + leaf@);
    }
    r
}

} // verus!
