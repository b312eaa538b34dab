//! The subsets of a finite set of state identifiers, and how many there are.

use vstd::arithmetic::power2::{lemma2_to64, lemma_pow2_unfold, pow2};
use vstd::prelude::*;
use vstd::relations::injective_on;
use vstd::set_lib::{lemma_map_size, lemma_set_disjoint_lens};

verus! {

/// The set of all subsets of `all`.
pub open spec fn subsets(all: Set<usize>) -> Set<Set<usize>> {
    Set::new(|part: Set<usize>| part.subset_of(all))
}

/// A set of `n` members has two to the `n` subsets.
pub proof fn lemma_subsets_count(all: Set<usize>)
    requires
        all.finite(),
    ensures
        subsets(all).finite(),
        subsets(all).len() == pow2(all.len()),
    decreases all.len(),
{
    if all.len() == 0 {
        assert(all =~= Set::<usize>::empty());
        assert forall|part: Set<usize>| subsets(all).contains(part) implies part
            == Set::<usize>::empty() by {
            assert(part =~= Set::<usize>::empty());
        }
        assert(subsets(all) =~= set![Set::<usize>::empty()]);
        lemma2_to64();
    } else {
        let x = all.choose();
        let rest = all.remove(x);
        lemma_subsets_count(rest);
        let without = subsets(rest);
        let put = |part: Set<usize>| part.insert(x);
        let with = without.map(put);
        assert(injective_on(put, without)) by {
            assert forall|a: Set<usize>, b: Set<usize>|
                without.contains(a) && without.contains(b) && #[trigger] put(a) == #[trigger] put(
                    b,
                ) implies a == b by {
                assert(a =~= a.insert(x).remove(x));
                assert(b =~= b.insert(x).remove(x));
            }
        }
        lemma_map_size(without, with, put);
        assert forall|part: Set<usize>| subsets(all).contains(part) <==> without.union(
            with,
        ).contains(part) by {
            if subsets(all).contains(part) {
                if part.contains(x) {
                    let smaller = part.remove(x);
                    assert(without.contains(smaller));
                    assert(put(smaller) =~= part);
                    assert(with.contains(part));
                } else {
                    assert(without.contains(part));
                }
            }
            if with.contains(part) {
                let smaller = choose|smaller: Set<usize>|
                    without.contains(smaller) && put(smaller) == part;
                assert(part.subset_of(all));
            }
        }
        assert(subsets(all) =~= without.union(with));
        assert(without.disjoint(with)) by {
            assert forall|part: Set<usize>| without.contains(part) implies !with.contains(part) by {
                if with.contains(part) {
                    let smaller = choose|smaller: Set<usize>|
                        without.contains(smaller) && put(smaller) == part;
                    assert(part.contains(x));
                }
            }
        }
        lemma_set_disjoint_lens(without, with);
        lemma_pow2_unfold(all.len());
    }
}

} // verus!
