//! Sorted lists.

use vstd::prelude::*;

verus! {

/// Two lists that hold the same elements, each strictly increasing for an
/// asymmetric relation `lt`, are equal.
pub proof fn lemma_sorted_unique<A>(lt: spec_fn(A, A) -> bool, o1: Seq<A>, o2: Seq<A>)
    requires
        forall|x: A, y: A| #[trigger] lt(x, y) ==> !lt(y, x),
        forall|f: A| #[trigger] o1.contains(f) <==> o2.contains(f),
        forall|a: int, b: int| 0 <= a < b < o1.len() ==> lt(#[trigger] o1[a], #[trigger] o1[b]),
        forall|a: int, b: int| 0 <= a < b < o2.len() ==> lt(#[trigger] o2[a], #[trigger] o2[b]),
    ensures
        o1 == o2,
    decreases o1.len(),
{
    if o1.len() == 0 {
        if o2.len() > 0 {
            assert(o2.contains(o2[0]));
            assert(o1.contains(o2[0]));
        }
        assert(o1 =~= o2);
    } else {
        assert(o1.contains(o1[0]));
        assert(o2.len() > 0);
        assert(o2.contains(o2[0]));
        assert(o1.contains(o2[0]));
        assert(o2.contains(o1[0]));
        let i = choose|i: int| 0 <= i < o1.len() && o1[i] == o2[0];
        let j = choose|j: int| 0 <= j < o2.len() && o2[j] == o1[0];
        if i > 0 && j > 0 {
            assert(lt(o1[0], o1[i]));
            assert(lt(o2[0], o2[j]));
        }
        assert(o1[0] == o2[0]);
        let r1 = o1.drop_first();
        let r2 = o2.drop_first();
        assert forall|f: A| #[trigger] r1.contains(f) <==> r2.contains(f) by {
            if r1.contains(f) {
                let a = choose|a: int| 0 <= a < r1.len() && r1[a] == f;
                assert(o1[a + 1] == f);
                assert(o1.contains(f));
                assert(f != o1[0]) by {
                    assert(lt(o1[0], o1[a + 1]));
                }
                assert(o2.contains(f));
                let b = choose|b: int| 0 <= b < o2.len() && o2[b] == f;
                assert(b != 0);
                assert(r2[b - 1] == f);
            }
            if r2.contains(f) {
                let b = choose|b: int| 0 <= b < r2.len() && r2[b] == f;
                assert(o2[b + 1] == f);
                assert(o2.contains(f));
                assert(f != o2[0]) by {
                    assert(lt(o2[0], o2[b + 1]));
                }
                assert(o1.contains(f));
                let a = choose|a: int| 0 <= a < o1.len() && o1[a] == f;
                assert(a != 0);
                assert(r1[a - 1] == f);
            }
        }
        assert forall|a: int, b: int| 0 <= a < b < r1.len() implies lt(#[trigger] r1[a], #[trigger] r1[b]) by {
            assert(lt(o1[a + 1], o1[b + 1]));
        }
        assert forall|a: int, b: int| 0 <= a < b < r2.len() implies lt(#[trigger] r2[a], #[trigger] r2[b]) by {
            assert(lt(o2[a + 1], o2[b + 1]));
        }
        lemma_sorted_unique(lt, r1, r2);
        assert(o1 =~= seq![o1[0]] + r1);
        assert(o2 =~= seq![o2[0]] + r2);
    }
}

} // verus!
