//! Counting the subsets of a given size of a finite set.

use vstd::prelude::*;
use vstd::relations::injective_on;

verus! {

/// The binomial coefficient: the number of ways to choose `k` of `n` things.
pub open spec fn binomial(n: nat, k: nat) -> nat
    decreases n,
{
    if k == 0 {
        1
    } else if n == 0 {
        0
    } else {
        binomial((n - 1) as nat, (k - 1) as nat) + binomial((n - 1) as nat, k)
    }
}

/// There are `n` ways to choose one of `n` things.
pub proof fn lemma_binomial_one(n: nat)
    ensures
        binomial(n, 1) == n,
    decreases n,
{
    if n > 0 {
        lemma_binomial_one((n - 1) as nat);
        assert(binomial((n - 1) as nat, 0) == 1);
    }
}

/// The subsets of `a` with `k` elements.
pub open spec fn sized_subsets(a: Set<int>, k: nat) -> Set<Set<int>> {
    Set::new(|b: Set<int>| b.subset_of(a) && b.finite() && b.len() == k)
}

/// A finite set of `n` elements has `binomial(n, k)` subsets of `k` elements.
pub proof fn lemma_sized_subsets(a: Set<int>, k: nat)
    requires
        a.finite(),
    ensures
        sized_subsets(a, k).finite(),
        sized_subsets(a, k).len() == binomial(a.len(), k),
    decreases a.len(),
{
    broadcast use vstd::set_lib::group_set_properties;
    broadcast use vstd::set::group_set_axioms;

    if k == 0 {
        assert forall|b: Set<int>| #[trigger] sized_subsets(a, 0).contains(b) <==> b == Set::<int>::empty() by {
            if sized_subsets(a, 0).contains(b) {
                assert(b =~= Set::<int>::empty());
            }
        }
        assert(sized_subsets(a, 0) =~= set![Set::<int>::empty()]);
    } else if a.len() == 0 {
        assert(a =~= Set::<int>::empty());
        assert forall|b: Set<int>| !#[trigger] sized_subsets(a, k).contains(b) by {
            if sized_subsets(a, k).contains(b) {
                assert(b =~= Set::<int>::empty());
            }
        }
        assert(sized_subsets(a, k) =~= Set::<Set<int>>::empty());
    } else {
        let x = a.choose();
        let rest = a.remove(x);
        let k1 = (k - 1) as nat;
        lemma_sized_subsets(rest, k);
        lemma_sized_subsets(rest, k1);
        let without = sized_subsets(rest, k);
        let smaller = sized_subsets(rest, k1);
        let add_x = |b: Set<int>| b.insert(x);
        let with = smaller.map(add_x);
        assert(injective_on(add_x, smaller)) by {
            assert forall|b1: Set<int>, b2: Set<int>|
                smaller.contains(b1) && smaller.contains(b2) && #[trigger] add_x(b1) == #[trigger] add_x(b2)
                    implies b1 == b2 by {
                assert forall|y: int| b1.contains(y) <==> b2.contains(y) by {
                    assert(add_x(b1).contains(y) == add_x(b2).contains(y));
                }
                assert(b1 =~= b2);
            }
        }
        vstd::set_lib::lemma_map_size(smaller, with, add_x);
        assert forall|b: Set<int>| #[trigger] sized_subsets(a, k).contains(b) <==> (without + with).contains(b) by {
            if sized_subsets(a, k).contains(b) {
                if b.contains(x) {
                    let c = b.remove(x);
                    assert(smaller.contains(c));
                    assert(add_x(c) =~= b);
                    assert(with.contains(add_x(c)));
                } else {
                    assert(without.contains(b));
                }
            }
            if with.contains(b) {
                let c = choose|c: Set<int>| smaller.contains(c) && add_x(c) == b;
                assert(!c.contains(x));
                assert(b.len() == c.len() + 1);
            }
        }
        assert(sized_subsets(a, k) =~= without + with);
        assert(without.disjoint(with)) by {
            assert forall|b: Set<int>| without.contains(b) implies !with.contains(b) by {
                if with.contains(b) {
                    let c = choose|c: Set<int>| smaller.contains(c) && add_x(c) == b;
                    assert(b.contains(x));
                }
            }
        }
    }
}

} // verus!
