//! The subsets of a finite set are finitely many.

use vstd::prelude::*;
use vstd::set_lib::lemma_len_subset;

verus! {

/// The set of the subsets of `u`.
pub open spec fn powerset<A>(u: Set<A>) -> Set<Set<A>> {
    Set::new(|x: Set<A>| x.subset_of(u))
}

/// A finite set has finitely many subsets.
pub proof fn lemma_powerset_finite<A>(u: Set<A>)
    requires
        u.finite(),
    ensures
        powerset(u).finite(),
    decreases u.len(),
{
    if u.len() == 0 {
        assert forall|x: Set<A>| powerset(u).contains(x) <==> set![Set::<A>::empty()].contains(
            x,
        ) by {
            if x.subset_of(u) {
                assert(x =~= Set::<A>::empty());
            }
        }
        assert(powerset(u) =~= set![Set::<A>::empty()]);
    } else {
        let e = u.choose();
        let rest = u.remove(e);
        lemma_powerset_finite(rest);
        let with = |x: Set<A>| x.insert(e);
        powerset(rest).lemma_map_finite(with);
        let both = powerset(rest).union(powerset(rest).map(with));
        assert forall|x: Set<A>| powerset(u).contains(x) <==> both.contains(x) by {
            if x.subset_of(u) {
                if x.contains(e) {
                    let y = x.remove(e);
                    assert(y.subset_of(rest));
                    assert(x =~= with(y));
                    assert(powerset(rest).contains(y));
                    assert(powerset(rest).map(with).contains(x));
                } else {
                    assert(x.subset_of(rest));
                }
            }
            if powerset(rest).map(with).contains(x) {
                let y = choose|y: Set<A>| powerset(rest).contains(y) && x == with(y);
                assert(x.subset_of(u));
            }
            if powerset(rest).contains(x) {
                assert(x.subset_of(u));
            }
        }
        assert(powerset(u) =~= both);
    }
}

/// Distinct subsets of a finite set are no more than the set has subsets.
pub proof fn lemma_distinct_subsets_bounded<A>(subsets: Seq<Set<A>>, u: Set<A>)
    requires
        u.finite(),
        subsets.no_duplicates(),
        forall|i: int| 0 <= i < subsets.len() ==> (#[trigger] subsets[i]).subset_of(u),
    ensures
        powerset(u).finite(),
        subsets.len() <= powerset(u).len(),
{
    lemma_powerset_finite(u);
    subsets.unique_seq_to_set();
    assert(subsets.to_set().subset_of(powerset(u))) by {
        assert forall|x: Set<A>| subsets.to_set().contains(x) implies powerset(u).contains(x) by {
            let i = choose|i: int| 0 <= i < subsets.len() && subsets[i] == x;
            assert(subsets[i].subset_of(u));
        }
    }
    lemma_len_subset(subsets.to_set(), powerset(u));
}

} // verus!
