//! Key-value entry lists.
//!
//! The bundle's two namespaces are lists of string pairs, read as maps.
//! Keys are unique within each list and disjoint across the two; the spec
//! functions here say what such a list denotes and the lemmas carry list
//! edits over to the maps they denote.

use vstd::prelude::*;

use crate::text::str_eq;

verus! {

/// The view of an entry list: each pair as its character sequences.
pub open spec fn entries_view(es: Seq<(String, String)>) -> Seq<(Seq<char>, Seq<char>)> {
    es.map_values(|e: (String, String)| (e.0@, e.1@))
}

/// Some entry of `es` has the key `k`.
pub open spec fn has_key(es: Seq<(Seq<char>, Seq<char>)>, k: Seq<char>) -> bool {
    exists|i: int| 0 <= i < es.len() && (#[trigger] es[i]).0 == k
}

/// The map an entry list denotes; a later entry for the same key wins.
pub open spec fn entries_map(es: Seq<(Seq<char>, Seq<char>)>) -> Map<Seq<char>, Seq<char>>
    decreases es.len(),
{
    if es.len() == 0 {
        Map::empty()
    } else {
        entries_map(es.drop_last()).insert(es.last().0, es.last().1)
    }
}

/// No two entries of `es` share a key.
pub open spec fn unique_keys(es: Seq<(Seq<char>, Seq<char>)>) -> bool {
    forall|i: int, j: int|
        #![trigger es[i], es[j]]
        0 <= i < j < es.len() ==> es[i].0 != es[j].0
}

/// No key stands in both `a` and `b`.
pub open spec fn disjoint_keys(
    a: Seq<(Seq<char>, Seq<char>)>,
    b: Seq<(Seq<char>, Seq<char>)>,
) -> bool {
    forall|i: int, j: int|
        #![trigger a[i], b[j]]
        0 <= i < a.len() && 0 <= j < b.len() ==> a[i].0 != b[j].0
}

/// A key is in the denoted map exactly when some entry carries it.
pub proof fn lemma_entries_map_contains(es: Seq<(Seq<char>, Seq<char>)>, k: Seq<char>)
    ensures
        entries_map(es).contains_key(k) <==> has_key(es, k),
    decreases es.len(),
{
    if es.len() > 0 {
        lemma_entries_map_contains(es.drop_last(), k);
        if has_key(es, k) {
            let i = choose|i: int| 0 <= i < es.len() && (#[trigger] es[i]).0 == k;
            if i < es.len() - 1 {
                assert(es.drop_last()[i].0 == k);
                assert(has_key(es.drop_last(), k));
            }
        }
        if has_key(es.drop_last(), k) {
            let i = choose|i: int|
                0 <= i < es.drop_last().len() && (#[trigger] es.drop_last()[i]).0 == k;
            assert(es[i].0 == k);
        }
    }
}

/// Under unique keys, the denoted map sends each entry's key to its value.
pub proof fn lemma_entries_map_value(es: Seq<(Seq<char>, Seq<char>)>, i: int)
    requires
        unique_keys(es),
        0 <= i < es.len(),
    ensures
        entries_map(es).contains_key(es[i].0),
        entries_map(es)[es[i].0] == es[i].1,
    decreases es.len(),
{
    if i == es.len() - 1 {
    } else {
        assert(unique_keys(es.drop_last()));
        assert(es.drop_last()[i] == es[i]);
        lemma_entries_map_value(es.drop_last(), i);
        assert(es[i].0 != es.last().0);
    }
}

/// Replacing the value of the entry that holds `k` is a map insert of `k`.
pub proof fn lemma_entries_map_update(es: Seq<(Seq<char>, Seq<char>)>, i: int, v: Seq<char>)
    requires
        unique_keys(es),
        0 <= i < es.len(),
    ensures
        entries_map(es.update(i, (es[i].0, v))) == entries_map(es).insert(es[i].0, v),
        unique_keys(es.update(i, (es[i].0, v))),
    decreases es.len(),
{
    let k = es[i].0;
    let es2 = es.update(i, (k, v));
    assert forall|a: int, b: int|
        #![trigger es2[a], es2[b]]
        0 <= a < b < es2.len() implies es2[a].0 != es2[b].0 by {
        assert(es2[a].0 == es[a].0);
        assert(es2[b].0 == es[b].0);
    }
    if i == es.len() - 1 {
        assert(es2.drop_last() =~= es.drop_last());
        assert(entries_map(es2) == entries_map(es.drop_last()).insert(k, v));
        assert(entries_map(es).insert(k, v) =~= entries_map(es.drop_last()).insert(
            es.last().0,
            es.last().1,
        ).insert(k, v));
        assert(entries_map(es2) =~= entries_map(es).insert(k, v));
    } else {
        assert(unique_keys(es.drop_last()));
        assert(es.drop_last()[i] == es[i]);
        lemma_entries_map_update(es.drop_last(), i, v);
        assert(es2.drop_last() =~= es.drop_last().update(i, (k, v)));
        assert(es2.last() == es.last());
        assert(entries_map(es2) == entries_map(es.drop_last().update(i, (k, v))).insert(
            es.last().0,
            es.last().1,
        ));
        assert(k != es.last().0);
        assert(entries_map(es2) =~= entries_map(es).insert(k, v));
    }
}

/// Appending an entry with a fresh key is a map insert that keeps keys
/// unique.
pub proof fn lemma_entries_map_push(es: Seq<(Seq<char>, Seq<char>)>, k: Seq<char>, v: Seq<char>)
    requires
        unique_keys(es),
        !has_key(es, k),
    ensures
        entries_map(es.push((k, v))) == entries_map(es).insert(k, v),
        unique_keys(es.push((k, v))),
        has_key(es.push((k, v)), k),
{
    let es2 = es.push((k, v));
    assert(es2.drop_last() =~= es);
    assert(es2.last() == (k, v));
    assert forall|a: int, b: int|
        #![trigger es2[a], es2[b]]
        0 <= a < b < es2.len() implies es2[a].0 != es2[b].0 by {
        if b < es.len() {
            assert(es2[a] == es[a] && es2[b] == es[b]);
        } else {
            assert(es2[a] == es[a]);
            assert(es2[b].0 == k);
            assert(es[a].0 != k);
        }
    }
    assert(es2[es.len() as int].0 == k);
}

/// Every key of `a` is a key of `b`.
pub open spec fn key_subset(a: Seq<(Seq<char>, Seq<char>)>, b: Seq<(Seq<char>, Seq<char>)>) -> bool {
    forall|i: int| 0 <= i < a.len() ==> has_key(b, (#[trigger] a[i]).0)
}

/// Lists whose keys shrank stay disjoint.
pub proof fn lemma_disjoint_shrink(
    a2: Seq<(Seq<char>, Seq<char>)>,
    a: Seq<(Seq<char>, Seq<char>)>,
    b2: Seq<(Seq<char>, Seq<char>)>,
    b: Seq<(Seq<char>, Seq<char>)>,
)
    requires
        key_subset(a2, a),
        key_subset(b2, b),
        disjoint_keys(a, b),
    ensures
        disjoint_keys(a2, b2),
{
    assert forall|i: int, j: int|
        #![trigger a2[i], b2[j]]
        0 <= i < a2.len() && 0 <= j < b2.len() implies a2[i].0 != b2[j].0 by {
        assert(has_key(a, a2[i].0));
        assert(has_key(b, b2[j].0));
        let w = choose|w: int| 0 <= w < a.len() && (#[trigger] a[w]).0 == a2[i].0;
        let x = choose|x: int| 0 <= x < b.len() && (#[trigger] b[x]).0 == b2[j].0;
        assert(a[w].0 != b[x].0);
    }
}

/// Removing the entry that holds `k` is a map removal of `k` and keeps keys
/// unique.
pub proof fn lemma_entries_map_remove(es: Seq<(Seq<char>, Seq<char>)>, i: int)
    requires
        unique_keys(es),
        0 <= i < es.len(),
    ensures
        entries_map(es.remove(i)) == entries_map(es).remove(es[i].0),
        unique_keys(es.remove(i)),
        !has_key(es.remove(i), es[i].0),
        key_subset(es.remove(i), es),
    decreases es.len(),
{
    let k = es[i].0;
    let es2 = es.remove(i);
    assert forall|a: int, b: int|
        #![trigger es2[a], es2[b]]
        0 <= a < b < es2.len() implies es2[a].0 != es2[b].0 by {
        let a0 = if a < i {
            a
        } else {
            a + 1
        };
        let b0 = if b < i {
            b
        } else {
            b + 1
        };
        assert(es2[a] == es[a0]);
        assert(es2[b] == es[b0]);
    }
    assert forall|m: int| 0 <= m < es2.len() implies (#[trigger] es2[m]).0 != k by {
        let m0 = if m < i {
            m
        } else {
            m + 1
        };
        assert(es2[m] == es[m0]);
    }
    assert forall|m: int| 0 <= m < es2.len() implies has_key(es, (#[trigger] es2[m]).0) by {
        let m0 = if m < i {
            m
        } else {
            m + 1
        };
        assert(es2[m] == es[m0]);
        assert(es[m0].0 == es2[m].0);
    }
    if i == es.len() - 1 {
        assert(es2 =~= es.drop_last());
        lemma_entries_map_contains(es.drop_last(), k);
        assert(!has_key(es.drop_last(), k)) by {
            if has_key(es.drop_last(), k) {
                let m = choose|m: int|
                    0 <= m < es.drop_last().len() && (#[trigger] es.drop_last()[m]).0 == k;
                assert(es[m].0 == k);
            }
        }
        assert(entries_map(es) == entries_map(es.drop_last()).insert(k, es.last().1));
        assert(entries_map(es.remove(i)) =~= entries_map(es).remove(k));
    } else {
        assert(unique_keys(es.drop_last()));
        assert(es.drop_last()[i] == es[i]);
        lemma_entries_map_remove(es.drop_last(), i);
        assert(es2.drop_last() =~= es.drop_last().remove(i));
        assert(es2.last() == es.last());
        assert(entries_map(es2) == entries_map(es.drop_last().remove(i)).insert(
            es.last().0,
            es.last().1,
        ));
        assert(k != es.last().0);
        assert(entries_map(es2) =~= entries_map(es).remove(k));
    }
}

/// Look up the index of the entry that carries `k`.
pub fn find_key(es: &Vec<(String, String)>, k: &str) -> (r: Option<usize>)
    ensures
        match r {
            Some(i) => i < es@.len() && entries_view(es@)[i as int].0 == k@,
            None => !has_key(entries_view(es@), k@),
        },
{
    let mut i: usize = 0;
    while i < es.len()
        invariant
            i <= es@.len(),
            forall|m: int| 0 <= m < i ==> (#[trigger] entries_view(es@)[m]).0 != k@,
        decreases es@.len() - i,
    {
        if str_eq(es[i].0.as_str(), k) {
            return Some(i);
        }
        i = i + 1;
    }
    None
}

/// Whether some entry carries `k`.
pub fn contains_key(es: &Vec<(String, String)>, k: &str) -> (r: bool)
    ensures
        r == has_key(entries_view(es@), k@),
{
    match find_key(es, k) {
        Some(i) => {
            proof {
                assert(entries_view(es@)[i as int].0 == k@);
            }
            true
        },
        None => false,
    }
}

/// Whether two entries share a key (the inverse of key uniqueness).
pub fn has_duplicate_key(es: &Vec<(String, String)>) -> (r: bool)
    ensures
        r == !unique_keys(entries_view(es@)),
{
    let mut j: usize = 1;
    if es.len() == 0 {
        return false;
    }
    while j < es.len()
        invariant
            1 <= j <= es@.len(),
            forall|a: int, b: int|
                #![trigger entries_view(es@)[a], entries_view(es@)[b]]
                0 <= a < b < j ==> entries_view(es@)[a].0 != entries_view(es@)[b].0,
        decreases es@.len() - j,
    {
        let mut a: usize = 0;
        while a < j
            invariant
                a <= j < es@.len(),
                forall|m: int| 0 <= m < a ==> (#[trigger] entries_view(es@)[m]).0 != entries_view(
                    es@,
                )[j as int].0,
            decreases j - a,
        {
            if str_eq(es[a].0.as_str(), es[j].0.as_str()) {
                proof {
                    assert(entries_view(es@)[a as int].0 == entries_view(es@)[j as int].0);
                }
                return true;
            }
            a = a + 1;
        }
        j = j + 1;
    }
    false
}

/// Whether any key stands in both lists (the inverse of disjointness).
pub fn has_common_key(a: &Vec<(String, String)>, b: &Vec<(String, String)>) -> (r: bool)
    ensures
        r == !disjoint_keys(entries_view(a@), entries_view(b@)),
{
    let mut i: usize = 0;
    while i < a.len()
        invariant
            i <= a@.len(),
            forall|m: int, j: int|
                #![trigger entries_view(a@)[m], entries_view(b@)[j]]
                0 <= m < i && 0 <= j < b@.len() ==> entries_view(a@)[m].0 != entries_view(b@)[j].0,
        decreases a@.len() - i,
    {
        match find_key(b, a[i].0.as_str()) {
            Some(j) => {
                proof {
                    assert(entries_view(b@)[j as int].0 == entries_view(a@)[i as int].0);
                }
                return true;
            },
            None => {
                proof {
                    assert forall|j: int|
                        0 <= j < b@.len() implies (#[trigger] entries_view(b@)[j]).0
                        != entries_view(a@)[i as int].0 by {
                        if entries_view(b@)[j].0 == entries_view(a@)[i as int].0 {
                            assert(has_key(entries_view(b@), entries_view(a@)[i as int].0));
                        }
                    }
                }
            },
        }
        i = i + 1;
    }
    false
}

} // verus!
