//! Multiset facts about swapping two entries of a sequence.

use vstd::prelude::*;

verus! {

/// The sequence with entries `i` and `j` exchanged.
pub open spec fn swapped<A>(s: Seq<A>, i: int, j: int) -> Seq<A> {
    s.update(i, s[j]).update(j, s[i])
}

pub proof fn lemma_swap_multiset<A>(s: Seq<A>, i: int, j: int)
    requires
        0 <= i < s.len(),
        0 <= j < s.len(),
    ensures
        swapped(s, i, j).to_multiset() == s.to_multiset(),
{
    broadcast use vstd::seq_lib::to_multiset_update, vstd::multiset::group_multiset_axioms;

    let t = s.update(i, s[j]);
    assert(t.to_multiset() == s.to_multiset().insert(s[j]).remove(s[i]));
    assert(t[j] == s[j]);
    assert(t.update(j, s[i]).to_multiset() == t.to_multiset().insert(s[i]).remove(t[j]));
    let m = s.to_multiset();
    assert(m.count(s[i]) > 0) by {
        broadcast use vstd::seq_lib::to_multiset_contains;
        assert(s.contains(s[i]));
    }
    assert forall|x: A| #[trigger] swapped(s, i, j).to_multiset().count(x) == m.count(x) by {
    }
    assert(swapped(s, i, j).to_multiset() =~= s.to_multiset());
}

/// Swapping inside the prefix `[0, n)` permutes the prefix and keeps the rest.
pub proof fn lemma_swap_prefix<A>(s: Seq<A>, i: int, j: int, n: int)
    requires
        0 <= i < n,
        0 <= j < n,
        n <= s.len(),
    ensures
        swapped(s, i, j).subrange(0, n).to_multiset() == s.subrange(0, n).to_multiset(),
        swapped(s, i, j).subrange(n, s.len() as int) == s.subrange(n, s.len() as int),
{
    lemma_swap_multiset(s.subrange(0, n), i, j);
    assert(swapped(s, i, j).subrange(0, n) =~= swapped(s.subrange(0, n), i, j));
    assert(swapped(s, i, j).subrange(n, s.len() as int) =~= s.subrange(n, s.len() as int));
}

} // verus!
