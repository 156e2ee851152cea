//! The Euler characteristic of a feature complex.

use vstd::prelude::*;
use crate::complex::{
    count_bits, is_submask, is_face, faces, mask_range, masks_within, max_dim, is_betti_sequence,
    betti_value_ok, betti_zero_ok, boundary_rank_ok, boundary, MASK_SPACE,
};
use crate::gf2::{is_gf2_rank, is_column_basis, lemma_rank_unique};
use crate::chain::{bit_set, lemma_count_bits_set, lemma_submask_set};

verus! {

/// `x` for an even `k`, `-x` for an odd one.
pub open spec fn signed(k: int, x: int) -> int {
    if k % 2 == 0 {
        x
    } else {
        -x
    }
}

/// The alternating sum `b[0] - b[1] + b[2] - ...` of the first `n` numbers.
pub open spec fn alternating_sum(b: Seq<usize>, n: nat) -> int
    decreases n,
{
    if n == 0 {
        0
    } else {
        alternating_sum(b, (n - 1) as nat) + signed(n - 1, b[n - 1] as int)
    }
}

/// Number of faces of dimension `k` on the vertices `verts`: the vertices
/// themselves for `k == 0`, else the faces with `k + 1` vertices.
pub open spec fn face_count(masks: Seq<u64>, verts: u64, k: nat) -> nat {
    if k == 0 {
        count_bits(verts, 11)
    } else {
        faces(masks, k + 1).len()
    }
}

/// The alternating count of faces of dimensions below `n`.
pub open spec fn alternating_faces(masks: Seq<u64>, verts: u64, n: nat) -> int
    decreases n,
{
    if n == 0 {
        0
    } else {
        alternating_faces(masks, verts, (n - 1) as nat) + signed(n - 1, face_count(masks, verts, (n - 1) as nat) as int)
    }
}

/// The rank of the boundary map from the faces with `k + 1` vertices to those
/// with `k`.
pub open spec fn rank_at(masks: Seq<u64>, k: nat) -> nat {
    choose|r: nat| boundary_rank_ok(masks, k, r)
}

/// No face has more vertices than the vertex set it lies within.
proof fn lemma_no_large_faces(masks: Seq<u64>, verts: u64, size: nat)
    requires
        masks_within(masks, verts),
        verts < MASK_SPACE,
        size > count_bits(verts, 11),
    ensures
        faces(masks, size).len() == 0,
{
    lemma_count_bits_set(verts, 11);
    let p = |s: u64| is_face(masks, size, s);
    assert forall|i: int| 0 <= i < mask_range(MASK_SPACE as nat).len() implies !p(
        #[trigger] mask_range(MASK_SPACE as nat)[i],
    ) by {
        let s = mask_range(MASK_SPACE as nat)[i];
        if is_face(masks, size, s) {
            let d = choose|d: int| 0 <= d < masks.len() && is_submask(s, #[trigger] masks[d]);
            crate::feature_space::lemma_submask_trans(s, masks[d], verts);
            lemma_submask_set(s, verts);
            lemma_count_bits_set(s, 11);
            vstd::set_lib::lemma_len_subset(bit_set(s), bit_set(verts));
        }
    }
    mask_range(MASK_SPACE as nat).lemma_all_neg_filter_empty(p);
}

/// A boundary map with no columns has rank zero.
proof fn lemma_rank_empty(masks: Seq<u64>, k: nat, r: nat)
    requires
        faces(masks, k + 1).len() == 0,
        boundary_rank_ok(masks, k, r),
    ensures
        r == 0,
{
    let m = boundary(faces(masks, k), faces(masks, k + 1));
    let empty = Seq::<int>::empty();
    assert(is_column_basis(m, faces(masks, k + 1).len(), empty) && empty.len() == 0);
    assert(is_gf2_rank(m, faces(masks, k + 1).len(), 0));
    lemma_rank_unique(m, faces(masks, k + 1).len(), r, 0);
}

/// Euler–Poincaré: when every dimension is computed (at most seven vertices),
/// the alternating sum of the Betti numbers equals the alternating count of
/// the faces, the vertices counted in dimension 0.
pub proof fn lemma_euler_characteristic(masks: Seq<u64>, verts: u64, b: Seq<usize>)
    requires
        verts < MASK_SPACE,
        masks_within(masks, verts),
        count_bits(verts, 11) <= 7,
        is_betti_sequence(masks, verts, b),
    ensures
        alternating_sum(b, b.len()) == alternating_faces(masks, verts, b.len()),
{
    let n = count_bits(verts, 11);
    assert(max_dim(verts) == n);
    // the Betti numbers through the ranks
    assert(betti_zero_ok(masks, verts, b[0] as int));
    let r1 = choose|r: nat| #[trigger] boundary_rank_ok(masks, 1, r) && b[0] as int == count_bits(verts, 11) - r;
    lemma_rank_unique(
        boundary(faces(masks, 1), faces(masks, 2)),
        faces(masks, 2).len(),
        r1,
        rank_at(masks, 1),
    );
    assert forall|k: nat| 1 <= k <= n implies #[trigger] b[k as int] == face_count(masks, verts, k) - rank_at(masks, k)
        - rank_at(masks, k + 1) && boundary_rank_ok(masks, k + 1, rank_at(masks, k + 1)) by {
        assert(betti_value_ok(masks, k, b[k as int] as int));
        let (r, s) = choose|r: nat, s: nat|
            #[trigger] boundary_rank_ok(masks, k, r) && #[trigger] boundary_rank_ok(masks, k + 1, s) && b[k as int]
                as int == faces(masks, k + 1).len() - r - s;
        lemma_rank_unique(boundary(faces(masks, k), faces(masks, k + 1)), faces(masks, k + 1).len(), r, rank_at(masks, k));
        lemma_rank_unique(
            boundary(faces(masks, k + 1), faces(masks, k + 2)),
            faces(masks, k + 2).len(),
            s,
            rank_at(masks, k + 1),
        );
    }
    // telescoping
    lemma_partial_sums(masks, verts, b, n);
    // no face has n + 2 vertices
    lemma_no_large_faces(masks, verts, n + 2);
    if n >= 1 {
        assert(boundary_rank_ok(masks, n + 1, rank_at(masks, n + 1)));
        lemma_rank_empty(masks, n + 1, rank_at(masks, n + 1));
    } else {
        lemma_no_large_faces(masks, verts, 2);
        lemma_rank_empty(masks, 1, rank_at(masks, 1));
    }
}

/// The partial alternating sums: through dimension `m`, the Betti numbers sum
/// to the faces' alternating count plus a boundary term.
proof fn lemma_partial_sums(masks: Seq<u64>, verts: u64, b: Seq<usize>, m: nat)
    requires
        m + 1 <= b.len(),
        boundary_rank_ok(masks, 1, rank_at(masks, 1)),
        b[0] as int == count_bits(verts, 11) - rank_at(masks, 1),
        forall|k: nat| 1 <= k < b.len() ==> #[trigger] b[k as int] == face_count(masks, verts, k) - rank_at(masks, k)
            - rank_at(masks, k + 1),
    ensures
        alternating_sum(b, m + 1) == alternating_faces(masks, verts, m + 1) + signed(
            m as int + 1,
            rank_at(masks, m + 1) as int,
        ),
    decreases m,
{
    if m > 0 {
        lemma_partial_sums(masks, verts, b, (m - 1) as nat);
        assert(b[m as int] == face_count(masks, verts, m) - rank_at(masks, m) - rank_at(masks, m + 1));
        assert((m - 1) as nat + 1 == m);
        if m % 2 == 0 {
            assert((m as int + 1) % 2 == 1);
        } else {
            assert((m as int + 1) % 2 == 0);
        }
        assert(alternating_sum(b, m + 1) == alternating_sum(b, m) + signed(m as int, b[m as int] as int));
        assert(alternating_faces(masks, verts, m + 1) == alternating_faces(masks, verts, m) + signed(
            m as int,
            face_count(masks, verts, m) as int,
        ));
    } else {
        reveal_with_fuel(alternating_sum, 2);
        reveal_with_fuel(alternating_faces, 2);
    }
}

} // verus!
