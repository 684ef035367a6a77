//! Spec-level helpers for sequences of participant names.
//!
//! A participant name is modelled as its character sequence; a roster of
//! names is a `Seq<Seq<char>>`. The matrix and the assignment engine both
//! resolve a name to the index of its first occurrence in such a roster.

use vstd::prelude::*;

verus! {

/// The views of a vector of strings, in order.
pub open spec fn views_of(names: Seq<String>) -> Seq<Seq<char>> {
    names.map_values(|n: String| n@)
}

/// Index of the first occurrence of `x` in `names`, or -1 if absent.
pub open spec fn first_index_of(names: Seq<Seq<char>>, x: Seq<char>) -> int
    decreases names.len(),
{
    if names.len() == 0 {
        -1
    } else if names[0] == x {
        0
    } else {
        let rest = first_index_of(names.drop_first(), x);
        if rest < 0 {
            -1
        } else {
            rest + 1
        }
    }
}

/// `first_index_of` returns -1 exactly when the name is absent; otherwise it
/// returns the position of the first occurrence.
pub proof fn lemma_first_index_of(names: Seq<Seq<char>>, x: Seq<char>)
    ensures
        first_index_of(names, x) == -1 <==> !names.contains(x),
        first_index_of(names, x) != -1 ==> {
            let i = first_index_of(names, x);
            &&& 0 <= i < names.len()
            &&& names[i] == x
            &&& forall|k: int| 0 <= k < i ==> names[k] != x
        },
    decreases names.len(),
{
    if names.len() == 0 {
    } else if names[0] == x {
    } else {
        lemma_first_index_of(names.drop_first(), x);
        let rest = names.drop_first();
        if first_index_of(rest, x) != -1 {
            let r = first_index_of(rest, x);
            assert(names[r + 1] == rest[r]);
            assert forall|k: int| 0 <= k < r + 1 implies names[k] != x by {
                if k >= 1 {
                    assert(rest[k - 1] != x);
                }
            }
        }
        if rest.contains(x) {
            let j = choose|j: int| 0 <= j < rest.len() && rest[j] == x;
            assert(names[j + 1] == x);
            assert(names.contains(x));
        }
        if names.contains(x) {
            let j = choose|j: int| 0 <= j < names.len() && names[j] == x;
            assert(rest[j - 1] == x);
            assert(rest.contains(x));
        }
    }
}

/// In a roster without duplicates, the first occurrence of `names[i]` is `i`
/// itself.
pub proof fn lemma_first_index_of_distinct(names: Seq<Seq<char>>, i: int)
    requires
        names.no_duplicates(),
        0 <= i < names.len(),
    ensures
        first_index_of(names, names[i]) == i,
{
    lemma_first_index_of(names, names[i]);
    assert(names.contains(names[i]));
    let f = first_index_of(names, names[i]);
    assert(names[f] == names[i]);
}

/// A reordering (equal multiset of names) keeps distinctness, the set of
/// names, and the length.
pub proof fn lemma_reorder_preserves(s1: Seq<Seq<char>>, s2: Seq<Seq<char>>)
    requires
        s1.to_multiset() == s2.to_multiset(),
        s1.no_duplicates(),
    ensures
        s2.no_duplicates(),
        s2.to_set() == s1.to_set(),
        s2.len() == s1.len(),
{
    s1.to_multiset_ensures();
    s2.to_multiset_ensures();
    s1.lemma_multiset_has_no_duplicates();
    assert forall|x: Seq<char>|
        s2.to_multiset().contains(x) implies #[trigger] s2.to_multiset().count(x) == 1 by {
        assert(s1.to_multiset().count(x) > 0);
        assert(s1.contains(x));
    }
    s2.lemma_multiset_has_no_duplicates_conv();
    assert forall|x: Seq<char>| s1.to_set().contains(x) <==> s2.to_set().contains(x) by {
        assert(s1.contains(x) <==> s1.to_multiset().count(x) > 0);
        assert(s2.contains(x) <==> s2.to_multiset().count(x) > 0);
    }
    assert(s2.to_set() =~= s1.to_set());
    assert(s1.len() == s1.to_multiset().len());
    assert(s2.len() == s2.to_multiset().len());
}

/// A sequence without duplicates has as many elements as its set of values.
pub proof fn lemma_distinct_len(s: Seq<Seq<char>>)
    requires
        s.no_duplicates(),
    ensures
        s.to_set().len() == s.len(),
        s.to_set().finite(),
{
    s.unique_seq_to_set();
    vstd::seq_lib::seq_to_set_is_finite(s);
}

} // verus!
