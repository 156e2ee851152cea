//! Simplicial complexes over the document features, and their Betti numbers.
//!
//! A set of features is a bit mask: bit `i` stands for the feature of ordinal `i`.
//! The complex generated by a list of masks holds every nonempty sub-mask of
//! them. Its faces of a given size are listed in increasing numeric order.

use vstd::prelude::*;
use vstd::set_lib::set_int_range;
use crate::gf2::{
    gaussian_elimination_rank_z2, is_gf2_rank, rows_view, lemma_rank_unique, is_column_basis, kills,
    lemma_basis_transfer,
};
use crate::union_find::{UnionFind, fixed_points, leaders, is_leader, lemma_count_classes};
use crate::chain::{lemma_boundaries_in_cycles, lemma_faces_binomial};
use crate::subsets::{binomial, lemma_binomial_one};
use crate::graph::{
    incidence, all_edges, edge_between, lemma_faces_are_edges, lemma_empty_basis, lemma_fixed_identity,
    lemma_tree_step, lemma_merge_fixed, lemma_fixed_split, lemma_incidence_boundary,
};

verus! {

broadcast use vstd::set::group_set_axioms, vstd::set_lib::group_set_properties;

/// Number of distinct feature masks (`2` to the number of features).
pub const MASK_SPACE: u64 = 2048;

/// Bit `i` of `m` is set.
pub open spec fn has_bit(m: u64, i: int) -> bool {
    0 <= i < 64 && (m >> (i as u64)) & 1u64 == 1u64
}

/// Number of bits of `m` set among its `n` lowest bits.
pub open spec fn count_bits(m: u64, n: nat) -> nat
    decreases n,
{
    if n == 0 {
        0
    } else {
        count_bits(m, (n - 1) as nat) + if has_bit(m, n - 1) {
            1nat
        } else {
            0nat
        }
    }
}

/// Every bit of `a` is a bit of `b`.
pub open spec fn is_submask(a: u64, b: u64) -> bool {
    a & b == a
}

/// `s` lies inside one of the given masks.
pub open spec fn is_simplex(masks: Seq<u64>, s: u64) -> bool {
    exists|i: int| 0 <= i < masks.len() && is_submask(s, #[trigger] masks[i])
}

/// `s` is a face with `size` vertices of the complex generated by `masks`.
pub open spec fn is_face(masks: Seq<u64>, size: nat, s: u64) -> bool {
    &&& s < MASK_SPACE
    &&& count_bits(s, 11) == size
    &&& is_simplex(masks, s)
}

/// The masks `0..len` in increasing order.
pub open spec fn mask_range(len: nat) -> Seq<u64> {
    Seq::new(len, |s: int| s as u64)
}

/// The faces with `size` vertices of the complex generated by `masks`, in increasing order.
pub open spec fn faces(masks: Seq<u64>, size: nat) -> Seq<u64> {
    mask_range(MASK_SPACE as nat).filter(|s: u64| is_face(masks, size, s))
}

/// The boundary matrix over GF(2) from the faces `upper` (columns) to the faces
/// `lower` (rows): an entry is set when the row face lies inside the column face.
pub open spec fn boundary(lower: Seq<u64>, upper: Seq<u64>) -> Seq<Seq<bool>> {
    Seq::new(
        lower.len(),
        |j: int| Seq::new(upper.len(), |i: int| is_submask(lower[j], upper[i])),
    )
}

/// `r` is the rank over GF(2) of the boundary map from the faces with `k + 1`
/// vertices to the faces with `k` vertices.
pub open spec fn boundary_rank_ok(masks: Seq<u64>, k: nat, r: nat) -> bool {
    is_gf2_rank(boundary(faces(masks, k), faces(masks, k + 1)), faces(masks, k + 1).len(), r)
}

/// `value` is the `k`-th Betti number over GF(2): the dimension of the space of
/// `k`-cycles (the number of faces with `k + 1` vertices less the rank of the
/// boundary map on them) less the dimension of the space of `k`-boundaries (the
/// rank of the boundary map on the faces with `k + 2` vertices).
pub open spec fn betti_value_ok(masks: Seq<u64>, k: nat, value: int) -> bool {
    exists|r: nat, s: nat|
        #[trigger] boundary_rank_ok(masks, k, r) && #[trigger] boundary_rank_ok(masks, k + 1, s) && value
            == faces(masks, k + 1).len() - r - s
}

/// The set `s` holds, of any two features that share a mask, both or neither.
pub open spec fn closed_under(masks: Seq<u64>, s: Set<int>) -> bool {
    forall|i: int, a: int, b: int|
        #![trigger has_bit(masks[i], a), has_bit(masks[i], b)]
        0 <= i < masks.len() && 0 <= a < 11 && 0 <= b < 11 && has_bit(masks[i], a) && has_bit(
            masks[i],
            b,
        ) ==> (s.contains(a) <==> s.contains(b))
}

/// Features `u` and `v` are joined by a chain of masks.
pub open spec fn connected(masks: Seq<u64>, u: int, v: int) -> bool {
    forall|s: Set<int>| #[trigger] closed_under(masks, s) && s.contains(u) ==> s.contains(v)
}

/// `v` is a vertex and no smaller vertex is connected to it.
pub open spec fn is_component_leader(masks: Seq<u64>, verts: u64, v: int) -> bool {
    &&& has_bit(verts, v)
    &&& forall|u: int| 0 <= u < v && has_bit(verts, u) ==> !#[trigger] connected(masks, u, v)
}

/// Number of connected components of the complex on the vertices `verts`.
pub open spec fn component_count(masks: Seq<u64>, verts: u64) -> nat {
    set_int_range(0, 11).filter(|v: int| is_component_leader(masks, verts, v)).len()
}

/// The highest dimension computed: the number of vertices, at most 7.
pub open spec fn max_dim(verts: u64) -> nat {
    if count_bits(verts, 11) < 7 {
        count_bits(verts, 11)
    } else {
        7
    }
}

/// `value` is the Betti number in dimension 0 by homology over GF(2): the
/// number of vertices less the rank of the boundary map from the faces with two
/// vertices to those with one.
pub open spec fn betti_zero_ok(masks: Seq<u64>, verts: u64, value: int) -> bool {
    exists|r: nat| #[trigger] boundary_rank_ok(masks, 1, r) && value == count_bits(verts, 11) - r
}

/// `b` lists the Betti numbers of the complex generated by `masks` on the
/// vertices `verts`: the number of components, which is also the Betti number
/// of dimension 0 by homology, then the Betti number of each dimension from 1
/// to `max_dim`.
pub open spec fn is_betti_sequence(masks: Seq<u64>, verts: u64, b: Seq<usize>) -> bool {
    &&& b.len() == max_dim(verts) + 1
    &&& b[0] == component_count(masks, verts)
    &&& betti_zero_ok(masks, verts, b[0] as int)
    &&& forall|k: int| 1 <= k <= max_dim(verts) ==> betti_value_ok(masks, k as nat, #[trigger] b[k] as int)
}

/// Every mask lies within the vertex set.
pub open spec fn masks_within(masks: Seq<u64>, verts: u64) -> bool {
    forall|i: int| 0 <= i < masks.len() ==> is_submask(#[trigger] masks[i], verts)
}

proof fn bv_submask(a: u64, b: u64, i: u64)
    by (bit_vector)
    requires
        a & b == a,
        i < 64,
        (a >> i) & 1u64 == 1u64,
    ensures
        (b >> i) & 1u64 == 1u64,
{
}

pub proof fn lemma_submask_bit(a: u64, b: u64, i: int)
    requires
        is_submask(a, b),
        has_bit(a, i),
    ensures
        has_bit(b, i),
{
    bv_submask(a, b, i as u64);
}

proof fn bv_pair(a: u64, b: u64, i: u64)
    by (bit_vector)
    requires
        a < 11,
        b < 11,
        i < 64,
    ensures
        ((((1u64 << a) | (1u64 << b)) >> i) & 1u64 == 1u64) == (i == a || i == b),
        ((1u64 << a) | (1u64 << b)) < 2048,
{
}

proof fn bv_pair_submask(a: u64, b: u64, m: u64)
    by (bit_vector)
    requires
        a < 64,
        b < 64,
        (m >> a) & 1u64 == 1u64,
        (m >> b) & 1u64 == 1u64,
    ensures
        ((1u64 << a) | (1u64 << b)) & m == ((1u64 << a) | (1u64 << b)),
{
}

proof fn lemma_count_pair(p: u64, k: nat, a: int, b: int)
    requires
        0 <= a < b < 11,
        k <= 11,
        forall|i: int| 0 <= i < 11 ==> (has_bit(p, i) <==> (i == a || i == b)),
    ensures
        count_bits(p, k) == (if a < k {
            1nat
        } else {
            0nat
        }) + (if b < k {
            1nat
        } else {
            0nat
        }),
    decreases k,
{
    if k > 0 {
        lemma_count_pair(p, (k - 1) as nat, a, b);
    }
}

/// The mask over the 11 feature bits whose bit `i` is set exactly when `p(i)`
/// holds, built from its `k` lowest bits.
pub open spec fn mask_where(p: spec_fn(int) -> bool, k: nat) -> u64
    decreases k,
{
    if k == 0 {
        0
    } else {
        mask_where(p, (k - 1) as nat) | if p(k - 1) {
            1u64 << ((k - 1) as u64)
        } else {
            0u64
        }
    }
}

proof fn bv_or_bit(m: u64, k: u64, i: u64)
    by (bit_vector)
    requires
        k < 64,
        i < 64,
    ensures
        (((m | (1u64 << k)) >> i) & 1u64 == 1u64) == (((m >> i) & 1u64 == 1u64) || i == k),
        (((m | 0u64) >> i) & 1u64 == 1u64) == ((m >> i) & 1u64 == 1u64),
{
}

proof fn bv_zero(i: u64)
    by (bit_vector)
    ensures
        (0u64 >> i) & 1u64 == 0u64,
{
}

proof fn bv_inside_zero(s: u64, m: u64)
    by (bit_vector)
    requires
        s & 0u64 == s,
    ensures
        s & m == s,
{
}

proof fn bv_or_bound(m: u64, k: u64)
    by (bit_vector)
    requires
        m < 2048,
        k < 11,
    ensures
        m | (1u64 << k) < 2048,
        m | 0u64 < 2048,
{
}

/// Setting bit `k` of `m` sets it and keeps the others.
pub proof fn lemma_set_bit(m: u64, k: int)
    requires
        0 <= k < 11,
        m < MASK_SPACE,
    ensures
        m | (1u64 << (k as u64)) < MASK_SPACE,
        forall|i: int| 0 <= i < 64 ==> #[trigger] has_bit(m | (1u64 << (k as u64)), i) == (has_bit(m, i) || i == k),
{
    bv_or_bound(m, k as u64);
    assert forall|i: int| 0 <= i < 64 implies #[trigger] has_bit(m | (1u64 << (k as u64)), i) == (has_bit(m, i)
        || i == k) by {
        bv_or_bit(m, k as u64, i as u64);
    }
}

/// The bits of `mask_where(p, k)`.
pub proof fn lemma_mask_where(p: spec_fn(int) -> bool, k: nat)
    requires
        k <= 11,
    ensures
        mask_where(p, k) < MASK_SPACE,
        forall|i: int| 0 <= i < 64 ==> #[trigger] has_bit(mask_where(p, k), i) == (i < k && p(i)),
    decreases k,
{
    if k == 0 {
        assert forall|i: int| 0 <= i < 64 implies !#[trigger] has_bit(0u64, i) by {
            bv_zero(i as u64);
        }
    } else {
        lemma_mask_where(p, (k - 1) as nat);
        let m = mask_where(p, (k - 1) as nat);
        if p(k - 1) {
            lemma_set_bit(m, k - 1);
        } else {
            bv_or_bound(m, 0);
            assert forall|i: int| 0 <= i < 64 implies #[trigger] has_bit(m | 0u64, i) == has_bit(m, i) by {
                bv_or_bit(m, 0, i as u64);
            }
        }
    }
}

proof fn bv_ext(a: u64, b: u64)
    by (bit_vector)
    requires
        a < 2048,
        b < 2048,
        (a >> 0u64) & 1u64 == (b >> 0u64) & 1u64,
        (a >> 1u64) & 1u64 == (b >> 1u64) & 1u64,
        (a >> 2u64) & 1u64 == (b >> 2u64) & 1u64,
        (a >> 3u64) & 1u64 == (b >> 3u64) & 1u64,
        (a >> 4u64) & 1u64 == (b >> 4u64) & 1u64,
        (a >> 5u64) & 1u64 == (b >> 5u64) & 1u64,
        (a >> 6u64) & 1u64 == (b >> 6u64) & 1u64,
        (a >> 7u64) & 1u64 == (b >> 7u64) & 1u64,
        (a >> 8u64) & 1u64 == (b >> 8u64) & 1u64,
        (a >> 9u64) & 1u64 == (b >> 9u64) & 1u64,
        (a >> 10u64) & 1u64 == (b >> 10u64) & 1u64,
    ensures
        a == b,
{
}

proof fn bv_bit01(a: u64, i: u64)
    by (bit_vector)
    ensures
        (a >> i) & 1u64 == 0u64 || (a >> i) & 1u64 == 1u64,
{
}

/// Two feature masks with the same bits are equal.
pub proof fn lemma_mask_ext(a: u64, b: u64)
    requires
        a < MASK_SPACE,
        b < MASK_SPACE,
        forall|i: int| 0 <= i < 11 ==> has_bit(a, i) == has_bit(b, i),
    ensures
        a == b,
{
    assert forall|i: u64| i < 11 implies (a >> i) & 1u64 == (b >> i) & 1u64 by {
        assert(has_bit(a, i as int) == has_bit(b, i as int));
        bv_bit01(a, i);
        bv_bit01(b, i);
    }
    assert((a >> 0u64) & 1u64 == (b >> 0u64) & 1u64);
    assert((a >> 1u64) & 1u64 == (b >> 1u64) & 1u64);
    assert((a >> 2u64) & 1u64 == (b >> 2u64) & 1u64);
    assert((a >> 3u64) & 1u64 == (b >> 3u64) & 1u64);
    assert((a >> 4u64) & 1u64 == (b >> 4u64) & 1u64);
    assert((a >> 5u64) & 1u64 == (b >> 5u64) & 1u64);
    assert((a >> 6u64) & 1u64 == (b >> 6u64) & 1u64);
    assert((a >> 7u64) & 1u64 == (b >> 7u64) & 1u64);
    assert((a >> 8u64) & 1u64 == (b >> 8u64) & 1u64);
    assert((a >> 9u64) & 1u64 == (b >> 9u64) & 1u64);
    assert((a >> 10u64) & 1u64 == (b >> 10u64) & 1u64);
    bv_ext(a, b);
}

proof fn bv_sub_bits(a: u64, b: u64)
    by (bit_vector)
    requires
        a < 2048,
        ((a >> 0u64) & 1u64 == 1u64) ==> ((b >> 0u64) & 1u64 == 1u64),
        ((a >> 1u64) & 1u64 == 1u64) ==> ((b >> 1u64) & 1u64 == 1u64),
        ((a >> 2u64) & 1u64 == 1u64) ==> ((b >> 2u64) & 1u64 == 1u64),
        ((a >> 3u64) & 1u64 == 1u64) ==> ((b >> 3u64) & 1u64 == 1u64),
        ((a >> 4u64) & 1u64 == 1u64) ==> ((b >> 4u64) & 1u64 == 1u64),
        ((a >> 5u64) & 1u64 == 1u64) ==> ((b >> 5u64) & 1u64 == 1u64),
        ((a >> 6u64) & 1u64 == 1u64) ==> ((b >> 6u64) & 1u64 == 1u64),
        ((a >> 7u64) & 1u64 == 1u64) ==> ((b >> 7u64) & 1u64 == 1u64),
        ((a >> 8u64) & 1u64 == 1u64) ==> ((b >> 8u64) & 1u64 == 1u64),
        ((a >> 9u64) & 1u64 == 1u64) ==> ((b >> 9u64) & 1u64 == 1u64),
        ((a >> 10u64) & 1u64 == 1u64) ==> ((b >> 10u64) & 1u64 == 1u64),
    ensures
        a & b == a,
{
}

/// A feature mask whose bits are all bits of `b` is a sub-mask of `b`.
pub proof fn lemma_submask_by_bits(a: u64, b: u64)
    requires
        a < MASK_SPACE,
        forall|i: int| 0 <= i < 11 && has_bit(a, i) ==> has_bit(b, i),
    ensures
        is_submask(a, b),
{
    assert(has_bit(a, 0) ==> has_bit(b, 0));
    assert(has_bit(a, 1) ==> has_bit(b, 1));
    assert(has_bit(a, 2) ==> has_bit(b, 2));
    assert(has_bit(a, 3) ==> has_bit(b, 3));
    assert(has_bit(a, 4) ==> has_bit(b, 4));
    assert(has_bit(a, 5) ==> has_bit(b, 5));
    assert(has_bit(a, 6) ==> has_bit(b, 6));
    assert(has_bit(a, 7) ==> has_bit(b, 7));
    assert(has_bit(a, 8) ==> has_bit(b, 8));
    assert(has_bit(a, 9) ==> has_bit(b, 9));
    assert(has_bit(a, 10) ==> has_bit(b, 10));
    bv_sub_bits(a, b);
}


/// Number of bits set among the 11 feature bits of `m`.
pub fn bit_count(m: u64) -> (c: usize)
    ensures
        c == count_bits(m, 11),
        c <= 11,
{
    let mut c: usize = 0;
    let mut i: u64 = 0;
    while i < 11
        invariant
            i <= 11,
            c == count_bits(m, i as nat),
            c <= i,
        decreases 11 - i,
    {
        if (m >> i) & 1 == 1 {
            c += 1;
        }
        i += 1;
    }
    c
}

/// Whether `s` lies inside one of the masks.
pub fn covered(masks: &Vec<u64>, s: u64) -> (r: bool)
    ensures
        r == is_simplex(masks@, s),
{
    let mut i: usize = 0;
    while i < masks.len()
        invariant
            i <= masks.len(),
            forall|j: int| 0 <= j < i ==> !is_submask(s, #[trigger] masks@[j]),
        decreases masks.len() - i,
    {
        if s & masks[i] == s {
            return true;
        }
        i += 1;
    }
    false
}

/// The faces with `size` vertices of the complex generated by `masks`, in increasing order.
pub fn faces_of_size(masks: &Vec<u64>, size: usize) -> (v: Vec<u64>)
    ensures
        v@ == faces(masks@, size as nat),
{
    let ghost pred = |s: u64| is_face(masks@, size as nat, s);
    let mut v: Vec<u64> = Vec::new();
    let mut s: u64 = 0;
    proof {
        reveal_with_fuel(Seq::filter, 1);
        assert(mask_range(0) =~= Seq::<u64>::empty());
    }
    while s < MASK_SPACE
        invariant
            s <= MASK_SPACE,
            pred == (|s: u64| is_face(masks@, size as nat, s)),
            v@ == mask_range(s as nat).filter(pred),
        decreases MASK_SPACE - s,
    {
        let keep = bit_count(s) == size && covered(masks, s);
        if keep {
            v.push(s);
        }
        proof {
            reveal_with_fuel(Seq::filter, 1);
            assert(mask_range((s + 1) as nat).drop_last() =~= mask_range(s as nat));
            assert(mask_range((s + 1) as nat).last() == s);
            assert(keep == pred(s));
        }
        s += 1;
    }
    v
}

/// The boundary matrix from the faces `upper` to the faces `lower`.
pub fn boundary_matrix(lower: &Vec<u64>, upper: &Vec<u64>) -> (m: Vec<Vec<bool>>)
    ensures
        rows_view(m@) == boundary(lower@, upper@),
        forall|j: int| 0 <= j < m@.len() ==> #[trigger] m@[j].len() == upper@.len(),
{
    let mut m: Vec<Vec<bool>> = Vec::new();
    let mut j: usize = 0;
    while j < lower.len()
        invariant
            j <= lower.len(),
            m@.len() == j,
            forall|t: int| 0 <= t < j ==> #[trigger] m@[t]@ == boundary(lower@, upper@)[t],
        decreases lower.len() - j,
    {
        let mut row: Vec<bool> = Vec::new();
        let mut i: usize = 0;
        while i < upper.len()
            invariant
                i <= upper.len(),
                j < lower.len(),
                row@.len() == i,
                forall|t: int| 0 <= t < i ==> #[trigger] row@[t] == is_submask(lower@[j as int], upper@[t]),
            decreases upper.len() - i,
        {
            row.push(lower[j] & upper[i] == lower[j]);
            i += 1;
        }
        assert(row@ =~= boundary(lower@, upper@)[j as int]);
        m.push(row);
        j += 1;
    }
    assert(rows_view(m@) =~= boundary(lower@, upper@));
    m
}

/// Two features in a common mask are connected.
proof fn lemma_shared_connected(masks: Seq<u64>, i: int, a: int, b: int)
    requires
        0 <= i < masks.len(),
        0 <= a < 11,
        0 <= b < 11,
        has_bit(masks[i], a),
        has_bit(masks[i], b),
    ensures
        connected(masks, a, b),
{
    assert forall|s: Set<int>| #[trigger] closed_under(masks, s) && s.contains(a) implies s.contains(b) by {
        assert(has_bit(masks[i], a) && has_bit(masks[i], b));
    }
}

/// Connections survive adding a mask.
proof fn lemma_connected_push(masks: Seq<u64>, e: u64, u: int, v: int)
    requires
        connected(masks, u, v),
    ensures
        connected(masks.push(e), u, v),
{
    let m2 = masks.push(e);
    assert forall|s: Set<int>| #[trigger] closed_under(m2, s) && s.contains(u) implies s.contains(v) by {
        assert forall|i: int, a: int, b: int|
            #![trigger has_bit(masks[i], a), has_bit(masks[i], b)]
            0 <= i < masks.len() && 0 <= a < 11 && 0 <= b < 11 && has_bit(masks[i], a) && has_bit(
                masks[i],
                b,
            ) implies (s.contains(a) <==> s.contains(b)) by {
            assert(m2[i] == masks[i]);
            assert(has_bit(m2[i], a) && has_bit(m2[i], b));
        }
        assert(closed_under(masks, s));
    }
}

/// Connection is transitive.
proof fn lemma_connected_trans(masks: Seq<u64>, u: int, v: int, w: int)
    requires
        connected(masks, u, v),
        connected(masks, v, w),
    ensures
        connected(masks, u, w),
{
    assert forall|s: Set<int>| #[trigger] closed_under(masks, s) && s.contains(u) implies s.contains(w) by {
        assert(s.contains(v));
    }
}

/// Connection is symmetric.
proof fn lemma_connected_sym(masks: Seq<u64>, u: int, v: int)
    requires
        connected(masks, u, v),
        0 <= u < 11,
        0 <= v < 11,
    ensures
        connected(masks, v, u),
{
    assert forall|s: Set<int>| #[trigger] closed_under(masks, s) && s.contains(v) implies s.contains(u) by {
        if !s.contains(u) {
            let c = set_int_range(0, 11).difference(s);
            assert(closed_under(masks, c));
            assert(c.contains(u));
            assert(c.contains(v));
        }
    }
}

/// With no masks, a feature is connected only to itself.
proof fn lemma_connected_empty(u: int, v: int)
    requires
        connected(Seq::<u64>::empty(), u, v),
    ensures
        u == v,
{
    let s = Set::<int>::empty().insert(u);
    assert(closed_under(Seq::<u64>::empty(), s));
}

/// A feature outside every mask is connected only to itself.
proof fn lemma_connected_isolated(masks: Seq<u64>, verts: u64, u: int, v: int)
    requires
        masks_within(masks, verts),
        0 <= u < 11,
        !has_bit(verts, v),
        connected(masks, u, v),
    ensures
        u == v,
{
    if u != v {
        let s = set_int_range(0, 11).remove(v);
        assert forall|i: int, a: int, b: int|
            #![trigger has_bit(masks[i], a), has_bit(masks[i], b)]
            0 <= i < masks.len() && 0 <= a < 11 && 0 <= b < 11 && has_bit(masks[i], a) && has_bit(
                masks[i],
                b,
            ) implies (s.contains(a) <==> s.contains(b)) by {
            lemma_submask_bit(masks[i], verts, a);
            lemma_submask_bit(masks[i], verts, b);
        }
        assert(closed_under(masks, s));
        assert(s.contains(u));
    }
}

/// Connection by the 2-vertex faces is connection by the masks.
proof fn lemma_edges_connect(masks: Seq<u64>, u: int, v: int)
    requires
        0 <= u < 11,
    ensures
        connected(faces(masks, 2), u, v) <==> connected(masks, u, v),
{
    let edges = faces(masks, 2);
    let pred = |s: u64| is_face(masks, 2, s);
    broadcast use vstd::seq_lib::group_filter_ensures;
    assert forall|s: Set<int>| closed_under(edges, s) <==> closed_under(masks, s) by {
        if closed_under(masks, s) {
            assert forall|i: int, a: int, b: int|
                #![trigger has_bit(edges[i], a), has_bit(edges[i], b)]
                0 <= i < edges.len() && 0 <= a < 11 && 0 <= b < 11 && has_bit(edges[i], a)
                    && has_bit(edges[i], b) implies (s.contains(a) <==> s.contains(b)) by {
                assert(pred(edges[i]));
                let k = choose|k: int| 0 <= k < masks.len() && is_submask(edges[i], #[trigger] masks[k]);
                lemma_submask_bit(edges[i], masks[k], a);
                lemma_submask_bit(edges[i], masks[k], b);
            }
        }
        if closed_under(edges, s) {
            assert forall|k: int, a: int, b: int|
                #![trigger has_bit(masks[k], a), has_bit(masks[k], b)]
                0 <= k < masks.len() && 0 <= a < 11 && 0 <= b < 11 && has_bit(masks[k], a)
                    && has_bit(masks[k], b) implies (s.contains(a) <==> s.contains(b)) by {
                if a != b {
                    let lo = if a < b { a } else { b };
                    let hi = if a < b { b } else { a };
                    let p = (1u64 << (lo as u64)) | (1u64 << (hi as u64));
                    assert forall|i: int| 0 <= i < 11 implies (has_bit(p, i) <==> (i == lo || i == hi)) by {
                        bv_pair(lo as u64, hi as u64, i as u64);
                    }
                    bv_pair(lo as u64, hi as u64, 0);
                    lemma_count_pair(p, 11, lo, hi);
                    bv_pair_submask(lo as u64, hi as u64, masks[k]);
                    assert(is_simplex(masks, p));
                    assert(pred(p));
                    let r = mask_range(MASK_SPACE as nat);
                    assert(r[p as int] == p);
                    assert(edges.contains(p));
                    let i = choose|i: int| 0 <= i < edges.len() && edges[i] == p;
                    assert(has_bit(edges[i], lo) && has_bit(edges[i], hi));
                }
            }
        }
    }
    if connected(edges, u, v) {
        assert forall|s: Set<int>| #[trigger] closed_under(masks, s) && s.contains(u) implies s.contains(v) by {
            assert(closed_under(edges, s));
        }
    }
    if connected(masks, u, v) {
        assert forall|s: Set<int>| #[trigger] closed_under(edges, s) && s.contains(u) implies s.contains(v) by {
            assert(closed_under(masks, s));
        }
    }
}

/// Adding an edge between `a` and `b` merges their classes as connection by the
/// new edge list requires.
proof fn lemma_union_step(
    edges: Seq<u64>,
    e: u64,
    a: int,
    b: int,
    r: spec_fn(int) -> int,
    r2: spec_fn(int) -> int,
)
    requires
        0 <= a < 11,
        0 <= b < 11,
        forall|i: int| 0 <= i < 11 ==> (has_bit(e, i) <==> (i == a || i == b)),
        forall|u: int, v: int|
            0 <= u < 11 && 0 <= v < 11 ==> (r(u) == r(v) <==> #[trigger] connected(edges, u, v)),
        forall|y: int| 0 <= y < 11 ==> #[trigger] r2(y) == if r(y) == r(a) {
            r(b)
        } else {
            r(y)
        },
    ensures
        forall|u: int, v: int|
            0 <= u < 11 && 0 <= v < 11 ==> (r2(u) == r2(v) <==> #[trigger] connected(
                edges.push(e),
                u,
                v,
            )),
{
    let e2 = edges.push(e);
    assert(has_bit(e2[edges.len() as int], a) && has_bit(e2[edges.len() as int], b));
    lemma_shared_connected(e2, edges.len() as int, a, b);
    lemma_shared_connected(e2, edges.len() as int, b, a);
    assert forall|u: int, v: int| 0 <= u < 11 && 0 <= v < 11 implies (r2(u) == r2(v)
        <==> #[trigger] connected(e2, u, v)) by {
        if r2(u) == r2(v) {
            if r(u) == r(v) {
                assert(connected(edges, u, v));
                lemma_connected_push(edges, e, u, v);
            } else if r(u) == r(a) {
                assert(r(v) == r(b));
                assert(connected(edges, u, a));
                assert(connected(edges, v, b));
                lemma_connected_sym(edges, v, b);
                lemma_connected_push(edges, e, u, a);
                lemma_connected_push(edges, e, b, v);
                lemma_connected_trans(e2, u, a, b);
                lemma_connected_trans(e2, u, b, v);
            } else {
                assert(r(v) == r(a));
                assert(r(u) == r(b));
                assert(connected(edges, u, b));
                assert(connected(edges, v, a));
                lemma_connected_sym(edges, v, a);
                lemma_connected_push(edges, e, u, b);
                lemma_connected_push(edges, e, a, v);
                lemma_connected_trans(e2, u, b, a);
                lemma_connected_trans(e2, u, a, v);
            }
        }
        if connected(e2, u, v) {
            let s = Set::new(|w: int| 0 <= w < 11 && r2(w) == r2(u));
            assert forall|i: int, x: int, y: int|
                #![trigger has_bit(e2[i], x), has_bit(e2[i], y)]
                0 <= i < e2.len() && 0 <= x < 11 && 0 <= y < 11 && has_bit(e2[i], x) && has_bit(
                    e2[i],
                    y,
                ) implies (s.contains(x) <==> s.contains(y)) by {
                if i < edges.len() {
                    assert(e2[i] == edges[i]);
                    lemma_shared_connected(edges, i, x, y);
                    assert(r(x) == r(y));
                } else {
                    assert(x == a || x == b);
                    assert(y == a || y == b);
                    assert(r2(a) == r(b));
                    assert(r2(b) == r(b));
                }
            }
            assert(closed_under(e2, s));
            assert(s.contains(u));
        }
    }
}

/// Number of connected components of the complex generated by `masks` on the
/// vertices `verts`, found with a union-find over its 2-vertex faces.
pub fn count_components(masks: &Vec<u64>, verts: u64) -> (c: usize)
    requires
        masks_within(masks@, verts),
    ensures
        c == component_count(masks@, verts),
        c <= count_bits(verts, 11),
        boundary_rank_ok(masks@, 1, (count_bits(verts, 11) - c) as nat),
{
    let edges = faces_of_size(masks, 2);
    let mut uf = UnionFind::new(11);
    let mut t: usize = 0;
    let ghost mut tree: Seq<int> = Seq::empty();
    proof {
        lemma_faces_are_edges(masks@);
        lemma_empty_basis(incidence(edges@));
        lemma_fixed_identity(|y: int| uf.root(y));
        assert(edges@.take(0) =~= Seq::<u64>::empty());
        assert forall|u: int, v: int| 0 <= u < 11 && 0 <= v < 11 implies (uf.root(u) == uf.root(v)
            <==> #[trigger] connected(edges@.take(0), u, v)) by {
            if connected(edges@.take(0), u, v) {
                lemma_connected_empty(u, v);
            }
        }
    }
    while t < edges.len()
        invariant
            edges@ == faces(masks@, 2),
            t <= edges.len(),
            uf.wf(),
            uf.size() == 11,
            forall|u: int, v: int|
                0 <= u < 11 && 0 <= v < 11 ==> (uf.root(u) == uf.root(v) <==> #[trigger] connected(
                    edges@.take(t as int),
                    u,
                    v,
                )),
            all_edges(edges@, edges@.len() as int),
            is_column_basis(incidence(edges@), t as nat, tree),
            fixed_points(|y: int| uf.root(y), |y: int| true, 11).len() + tree.len() == 11,
        decreases edges.len() - t,
    {
        let e = edges[t];
        proof {
            broadcast use vstd::seq_lib::group_filter_ensures;
            let pred = |s: u64| is_face(masks@, 2, s);
            assert(pred(edges@[t as int]));
        }
        let mut ends: Vec<usize> = Vec::new();
        let mut i: u64 = 0;
        while i < 11
            invariant
                i <= 11,
                ends@.len() == count_bits(e, i as nat),
                forall|j: int| 0 <= j < ends@.len() ==> (#[trigger] ends@[j] as int) < i && has_bit(e, ends@[j] as int),
                forall|j: int, j2: int| 0 <= j < j2 < ends@.len() ==> ends@[j] < ends@[j2],
                forall|x: int| 0 <= x < i && has_bit(e, x) ==> ends@.contains(x as usize),
            decreases 11 - i,
        {
            let ghost prev = ends@;
            if (e >> i) & 1 == 1 {
                ends.push(i as usize);
            }
            proof {
                assert forall|x: int| 0 <= x < i + 1 && has_bit(e, x) implies ends@.contains(x as usize) by {
                    if x == i {
                        assert(ends@[ends@.len() - 1] == x as usize);
                    } else {
                        let j = choose|j: int| 0 <= j < prev.len() && prev[j] == x as usize;
                        assert(ends@[j] == x as usize);
                    }
                }
            }
            i += 1;
        }
        let ghost old_uf = uf;
        proof {
            assert(is_face(masks@, 2, e));
        }
        if ends.len() == 2 {
            uf.union(ends[0], ends[1]);
            proof {
                let a = ends@[0] as int;
                let b = ends@[1] as int;
                assert forall|x: int| 0 <= x < 11 implies (has_bit(e, x) <==> (x == a || x == b)) by {
                    if has_bit(e, x) {
                        assert(ends@.contains(x as usize));
                    }
                }
                let r = |y: int| old_uf.root(y);
                let r2 = |y: int| uf.root(y);
                lemma_union_step(edges@.take(t as int), e, a, b, r, r2);
                assert(edges@.take(t as int).push(e) =~= edges@.take(t + 1));
                assert(edge_between(e, a, b));
                lemma_tree_step(edges@, t as nat, tree, a, b);
                assert forall|y: int| 0 <= y < 11 implies 0 <= #[trigger] r(y) < 11 && r(r(y)) == r(y) by {
                    old_uf.lemma_root_facts(y);
                }
                if r(a) != r(b) {
                    lemma_merge_fixed(r, r2, a, b, 11);
                    tree = tree.push(t as int);
                } else {
                    assert(connected(edges@.take(t as int), a, b));
                    assert(fixed_points(r2, |y: int| true, 11) =~= fixed_points(r, |y: int| true, 11));
                }
            }
        }
        t += 1;
    }
    assert(edges@.take(t as int) =~= edges@);
    let ghost r0 = |y: int| uf.root(y);
    let ghost dom = |y: int| has_bit(verts, y);
    let mut c: usize = 0;
    let mut i: u64 = 0;
    proof {
        assert(fixed_points(r0, dom, 0) =~= Set::<int>::empty());
    }
    while i < 11
        invariant
            i <= 11,
            uf.wf(),
            uf.size() == 11,
            forall|y: int| 0 <= y < 11 ==> #[trigger] uf.root(y) == r0(y),
            dom == (|y: int| has_bit(verts, y)),
            c == fixed_points(r0, dom, i as nat).len(),
            fixed_points(r0, dom, i as nat).finite(),
            c <= i,
        decreases 11 - i,
    {
        let ghost before = fixed_points(r0, dom, i as nat);
        let mut hit = false;
        if (verts >> i) & 1 == 1 {
            let r = uf.find(i as usize);
            if r == i as usize {
                hit = true;
            }
        }
        proof {
            let after = fixed_points(r0, dom, (i + 1) as nat);
            if hit {
                assert(after =~= before.insert(i as int));
            } else {
                assert(after =~= before);
            }
        }
        if hit {
            c += 1;
        }
        i += 1;
    }
    proof {
        assert forall|y: int| 0 <= y < 11 implies 0 <= #[trigger] r0(y) < 11 && r0(r0(y)) == r0(y) by {
            uf.lemma_root_facts(y);
        }
        assert forall|y: int| 0 <= y < 11 && dom(y) implies dom(#[trigger] r0(y)) by {
            uf.lemma_root_facts(y);
            assert(connected(edges@, y, r0(y)));
            lemma_edges_connect(masks@, y, r0(y));
            if !dom(r0(y)) {
                lemma_connected_isolated(masks@, verts, y, r0(y));
            }
        }
        lemma_count_classes(r0, dom, 11);
        assert forall|y: int| 0 <= y < 11 && !has_bit(verts, y) implies #[trigger] r0(y) == y by {
            uf.lemma_root_facts(y);
            assert(connected(edges@, y, r0(y)));
            lemma_edges_connect(masks@, y, r0(y));
            lemma_connected_sym(masks@, y, r0(y));
            lemma_connected_isolated(masks@, verts, r0(y), y);
        }
        lemma_fixed_split(r0, verts);
        assert forall|x: Seq<bool>| x.len() == edges@.len() implies (#[trigger] kills(incidence(edges@), x, edges@.len())
            <==> kills(boundary(faces(masks@, 1), faces(masks@, 2)), x, faces(masks@, 2).len())) by {
            lemma_incidence_boundary(masks@, x);
        }
        lemma_basis_transfer(incidence(edges@), boundary(faces(masks@, 1), faces(masks@, 2)), edges@.len(), tree);
        assert(boundary_rank_ok(masks@, 1, tree.len()));
        assert(leaders(r0, dom, 11) =~= set_int_range(0, 11).filter(
            |v: int| is_component_leader(masks@, verts, v),
        )) by {
            assert forall|v: int| 0 <= v < 11 implies (dom(v) && is_leader(r0, dom, v)
                <==> is_component_leader(masks@, verts, v)) by {
                assert forall|u: int| 0 <= u < v && has_bit(verts, u) implies (r0(u) != r0(v)
                    <==> !#[trigger] connected(masks@, u, v)) by {
                    lemma_edges_connect(masks@, u, v);
                }
                if is_component_leader(masks@, verts, v) {
                    assert forall|u: int| 0 <= u < v && dom(u) implies #[trigger] r0(u) != r0(v) by {
                        assert(!connected(masks@, u, v));
                    }
                }
                if dom(v) && is_leader(r0, dom, v) {
                    assert forall|u: int| 0 <= u < v && has_bit(verts, u) implies !#[trigger] connected(
                        masks@,
                        u,
                        v,
                    ) by {
                        assert(r0(u) != r0(v));
                    }
                }
            }
        }
    }
    c
}

/// Rank over GF(2) of the boundary map from the faces with `k + 1` vertices to
/// the faces with `k` vertices, and the number of faces with `k + 1` vertices.
fn boundary_rank(masks: &Vec<u64>, k: usize) -> (r: (usize, usize))
    requires
        k < 11,
    ensures
        boundary_rank_ok(masks@, k as nat, r.0 as nat),
        r.1 == faces(masks@, (k + 1) as nat).len(),
        r.0 <= r.1,
{
    let lower = faces_of_size(masks, k);
    let upper = faces_of_size(masks, k + 1);
    let m = boundary_matrix(&lower, &upper);
    let rank = gaussian_elimination_rank_z2(m.as_slice(), upper.len(), lower.len());
    (rank, upper.len())
}

/// Betti numbers of the complex generated by `masks` on the vertices `verts`:
/// the number of components, then the Betti number of each dimension from 1 up
/// to the number of vertices (at most 7).
pub fn simplicial_betti(masks: &Vec<u64>, verts: u64) -> (b: Vec<usize>)
    requires
        masks_within(masks@, verts),
    ensures
        is_betti_sequence(masks@, verts, b@),
{
    let n = bit_count(verts);
    let top = if n < 7 {
        n
    } else {
        7
    };
    let mut betti: Vec<usize> = Vec::new();
    betti.push(count_components(masks, verts));
    let (first_rank, first_count) = boundary_rank(masks, 1);
    let mut rank = first_rank;
    let mut count = first_count;
    let mut k: usize = 1;
    while k <= top
        invariant
            1 <= k <= top + 1,
            top == max_dim(verts),
            top <= 7,
            betti@.len() == k,
            betti@[0] == component_count(masks@, verts),
            forall|j: int| 1 <= j < k ==> betti_value_ok(masks@, j as nat, #[trigger] betti@[j] as int),
            boundary_rank_ok(masks@, k as nat, rank as nat),
            count == faces(masks@, (k + 1) as nat).len(),
            rank <= count,
        decreases top + 1 - k,
    {
        let (next_rank, next_count) = boundary_rank(masks, k + 1);
        proof {
            lemma_boundaries_in_cycles(masks@, k as nat, rank as nat, next_rank as nat);
        }
        let value = count - rank - next_rank;
        proof {
            assert(betti_value_ok(masks@, k as nat, value as int));
        }
        betti.push(value);
        rank = next_rank;
        count = next_count;
        k += 1;
    }
    betti
}

/// Betti numbers of the complex generated by `masks` on the vertices `verts`, or
/// one zero per vertex when there are no vertices or no masks.
pub fn compute_simple_betti(masks: &Vec<u64>, verts: u64) -> (b: Vec<usize>)
    requires
        masks_within(masks@, verts),
    ensures
        (count_bits(verts, 11) == 0 || masks@.len() == 0) ==> b@ == Seq::new(
            count_bits(verts, 11),
            |i: int| 0usize,
        ),
        !(count_bits(verts, 11) == 0 || masks@.len() == 0) ==> is_betti_sequence(masks@, verts, b@),
{
    let n = bit_count(verts);
    if n == 0 || masks.len() == 0 {
        let mut zeros: Vec<usize> = Vec::new();
        let mut i: usize = 0;
        while i < n
            invariant
                i <= n,
                zeros@ == Seq::new(i as nat, |j: int| 0usize),
            decreases n - i,
        {
            zeros.push(0);
            i += 1;
            assert(zeros@ =~= Seq::new(i as nat, |j: int| 0usize));
        }
        return zeros;
    }
    simplicial_betti(masks, verts)
}

/// A document whose features all lie within those of another document adds
/// nothing to the complex: its faces, its components and its Betti numbers are
/// the same with or without it.
pub proof fn lemma_subsumed_mask(masks: Seq<u64>, m: u64, i: int, verts: u64, b: Seq<usize>)
    requires
        0 <= i < masks.len(),
        is_submask(m, masks[i]),
    ensures
        forall|size: nat| #[trigger] faces(masks.push(m), size) == faces(masks, size),
        component_count(masks.push(m), verts) == component_count(masks, verts),
        is_betti_sequence(masks.push(m), verts, b) <==> is_betti_sequence(masks, verts, b),
{
    let more = masks.push(m);
    assert forall|s: u64| #[trigger] is_simplex(more, s) <==> is_simplex(masks, s) by {
        if is_simplex(more, s) {
            let j = choose|j: int| 0 <= j < more.len() && is_submask(s, #[trigger] more[j]);
            if j == masks.len() {
                crate::feature_space::lemma_submask_trans(s, m, masks[i]);
                assert(is_submask(s, masks[i]));
            } else {
                assert(more[j] == masks[j]);
            }
        }
        if is_simplex(masks, s) {
            let j = choose|j: int| 0 <= j < masks.len() && is_submask(s, #[trigger] masks[j]);
            assert(more[j] == masks[j]);
        }
    }
    assert forall|st: Set<int>| #[trigger] closed_under(more, st) <==> closed_under(masks, st) by {
        if closed_under(more, st) {
            assert forall|j: int, a: int, c: int|
                #![trigger has_bit(masks[j], a), has_bit(masks[j], c)]
                0 <= j < masks.len() && 0 <= a < 11 && 0 <= c < 11 && has_bit(masks[j], a) && has_bit(masks[j], c)
                    implies (st.contains(a) <==> st.contains(c)) by {
                assert(more[j] == masks[j]);
                assert(has_bit(more[j], a) && has_bit(more[j], c));
            }
        }
        if closed_under(masks, st) {
            assert forall|j: int, a: int, c: int|
                #![trigger has_bit(more[j], a), has_bit(more[j], c)]
                0 <= j < more.len() && 0 <= a < 11 && 0 <= c < 11 && has_bit(more[j], a) && has_bit(more[j], c)
                    implies (st.contains(a) <==> st.contains(c)) by {
                if j == masks.len() {
                    lemma_submask_bit(m, masks[i], a);
                    lemma_submask_bit(m, masks[i], c);
                    assert(has_bit(masks[i], a) && has_bit(masks[i], c));
                } else {
                    assert(more[j] == masks[j]);
                    assert(has_bit(masks[j], a) && has_bit(masks[j], c));
                }
            }
        }
    }
    lemma_same_complex(more, masks, verts, b);
}

/// Two lists of masks with the same simplices and the same sets closed under
/// their masks have the same faces, components and Betti numbers.
proof fn lemma_same_complex(more: Seq<u64>, masks: Seq<u64>, verts: u64, b: Seq<usize>)
    requires
        forall|s: u64| #[trigger] is_simplex(more, s) <==> is_simplex(masks, s),
        forall|st: Set<int>| #[trigger] closed_under(more, st) <==> closed_under(masks, st),
    ensures
        forall|size: nat| #[trigger] faces(more, size) == faces(masks, size),
        component_count(more, verts) == component_count(masks, verts),
        is_betti_sequence(more, verts, b) <==> is_betti_sequence(masks, verts, b),
{
    assert forall|size: nat| #[trigger] faces(more, size) == faces(masks, size) by {
        assert((|s: u64| is_face(more, size, s)) =~= (|s: u64| is_face(masks, size, s)));
    }
    assert forall|u: int, v: int| #[trigger] connected(more, u, v) <==> connected(masks, u, v) by {
        if connected(more, u, v) {
            assert forall|st: Set<int>| #[trigger] closed_under(masks, st) && st.contains(u) implies st.contains(v) by {
                assert(closed_under(more, st));
            }
        }
        if connected(masks, u, v) {
            assert forall|st: Set<int>| #[trigger] closed_under(more, st) && st.contains(u) implies st.contains(v) by {
                assert(closed_under(masks, st));
            }
        }
    }
    assert((|v: int| is_component_leader(more, verts, v)) =~= (|v: int| is_component_leader(masks, verts, v))) by {
        assert forall|v: int| is_component_leader(more, verts, v) == is_component_leader(masks, verts, v) by {
            if is_component_leader(masks, verts, v) {
                assert forall|u: int| 0 <= u < v && has_bit(verts, u) implies !#[trigger] connected(more, u, v) by {
                    assert(!connected(masks, u, v));
                }
            }
            if is_component_leader(more, verts, v) {
                assert forall|u: int| 0 <= u < v && has_bit(verts, u) implies !#[trigger] connected(masks, u, v) by {
                    assert(!connected(more, u, v));
                }
            }
        }
    }
    assert forall|k: nat, value: int| #[trigger] betti_value_ok(more, k, value) <==> betti_value_ok(masks, k, value) by {
        assert(faces(more, k) == faces(masks, k));
        assert(faces(more, k + 1) == faces(masks, k + 1));
        assert(faces(more, k + 2) == faces(masks, k + 2));
        assert forall|r: nat| #[trigger] boundary_rank_ok(more, k, r) == boundary_rank_ok(masks, k, r) by {}
        assert forall|r: nat| #[trigger] boundary_rank_ok(more, k + 1, r) == boundary_rank_ok(masks, k + 1, r) by {
            assert(faces(more, (k + 1 + 1) as nat) == faces(masks, (k + 1 + 1) as nat));
        }
        if betti_value_ok(more, k, value) {
            let (r, t) = choose|r: nat, t: nat|
                #[trigger] boundary_rank_ok(more, k, r) && #[trigger] boundary_rank_ok(more, k + 1, t) && value
                    == faces(more, k + 1).len() - r - t;
            assert(boundary_rank_ok(masks, k, r) && boundary_rank_ok(masks, k + 1, t));
        }
        if betti_value_ok(masks, k, value) {
            let (r, t) = choose|r: nat, t: nat|
                #[trigger] boundary_rank_ok(masks, k, r) && #[trigger] boundary_rank_ok(masks, k + 1, t) && value
                    == faces(masks, k + 1).len() - r - t;
            assert(boundary_rank_ok(more, k, r) && boundary_rank_ok(more, k + 1, t));
        }
    }
    assert forall|r: nat| #[trigger] boundary_rank_ok(more, 1, r) == boundary_rank_ok(masks, 1, r) by {
        assert(faces(more, 1) == faces(masks, 1));
        assert(faces(more, 2) == faces(masks, 2));
    }
    assert forall|value: int| #[trigger] betti_zero_ok(more, verts, value) <==> betti_zero_ok(masks, verts, value) by {
        if betti_zero_ok(more, verts, value) {
            let r = choose|r: nat| #[trigger] boundary_rank_ok(more, 1, r) && value == count_bits(verts, 11) - r;
            assert(boundary_rank_ok(masks, 1, r));
        }
        if betti_zero_ok(masks, verts, value) {
            let r = choose|r: nat| #[trigger] boundary_rank_ok(masks, 1, r) && value == count_bits(verts, 11) - r;
            assert(boundary_rank_ok(more, 1, r));
        }
    }
    if is_betti_sequence(more, verts, b) {
        assert forall|k: int| 1 <= k <= max_dim(verts) implies betti_value_ok(masks, k as nat, #[trigger] b[k] as int) by {
            assert(betti_value_ok(more, k as nat, b[k] as int));
        }
    }
    if is_betti_sequence(masks, verts, b) {
        assert forall|k: int| 1 <= k <= max_dim(verts) implies betti_value_ok(more, k as nat, #[trigger] b[k] as int) by {
            assert(betti_value_ok(masks, k as nat, b[k] as int));
        }
    }
}

/// The complex depends on the set of nonzero document masks alone: two
/// nonempty lists that hold the same nonzero masks, in any order, with any
/// repetitions and any number of zero masks, have the same faces, components
/// and Betti numbers.
pub proof fn lemma_same_masks(m1: Seq<u64>, m2: Seq<u64>, verts: u64, b: Seq<usize>)
    requires
        forall|i: int| 0 <= i < m1.len() && m1[i] != 0 ==> m2.contains(#[trigger] m1[i]),
        forall|j: int| 0 <= j < m2.len() && m2[j] != 0 ==> m1.contains(#[trigger] m2[j]),
        m1.len() > 0,
        m2.len() > 0,
    ensures
        forall|size: nat| #[trigger] faces(m1, size) == faces(m2, size),
        component_count(m1, verts) == component_count(m2, verts),
        is_betti_sequence(m1, verts, b) <==> is_betti_sequence(m2, verts, b),
{
    let w = 0int;
    let w2 = 0int;
    assert forall|s: u64| #[trigger] is_simplex(m1, s) <==> is_simplex(m2, s) by {
        if is_simplex(m1, s) {
            let i = choose|i: int| 0 <= i < m1.len() && is_submask(s, #[trigger] m1[i]);
            if m1[i] == 0 {
                bv_inside_zero(s, m2[w2]);
                assert(is_submask(s, m2[w2]));
            } else {
                assert(m2.contains(m1[i]));
                let j = choose|j: int| 0 <= j < m2.len() && m2[j] == m1[i];
                assert(is_submask(s, m2[j]));
            }
        }
        if is_simplex(m2, s) {
            let j = choose|j: int| 0 <= j < m2.len() && is_submask(s, #[trigger] m2[j]);
            if m2[j] == 0 {
                bv_inside_zero(s, m1[w]);
                assert(is_submask(s, m1[w]));
            } else {
                assert(m1.contains(m2[j]));
                let i = choose|i: int| 0 <= i < m1.len() && m1[i] == m2[j];
                assert(is_submask(s, m1[i]));
            }
        }
    }
    assert forall|st: Set<int>| #[trigger] closed_under(m1, st) <==> closed_under(m2, st) by {
        if closed_under(m1, st) {
            assert forall|j: int, a: int, c: int|
                #![trigger has_bit(m2[j], a), has_bit(m2[j], c)]
                0 <= j < m2.len() && 0 <= a < 11 && 0 <= c < 11 && has_bit(m2[j], a) && has_bit(m2[j], c)
                    implies (st.contains(a) <==> st.contains(c)) by {
                bv_zero(a as u64);
                assert(m1.contains(m2[j]));
                let i = choose|i: int| 0 <= i < m1.len() && m1[i] == m2[j];
                assert(has_bit(m1[i], a) && has_bit(m1[i], c));
            }
        }
        if closed_under(m2, st) {
            assert forall|i: int, a: int, c: int|
                #![trigger has_bit(m1[i], a), has_bit(m1[i], c)]
                0 <= i < m1.len() && 0 <= a < 11 && 0 <= c < 11 && has_bit(m1[i], a) && has_bit(m1[i], c)
                    implies (st.contains(a) <==> st.contains(c)) by {
                bv_zero(a as u64);
                assert(m2.contains(m1[i]));
                let j = choose|j: int| 0 <= j < m2.len() && m2[j] == m1[i];
                assert(has_bit(m2[j], a) && has_bit(m2[j], c));
            }
        }
    }
    lemma_same_complex(m1, m2, verts, b);
}

/// Each Betti number from dimension 1 up is at most the number of faces of its
/// dimension: the number of faces with one vertex more than the dimension.
pub proof fn lemma_betti_at_most_faces(masks: Seq<u64>, verts: u64, b: Seq<usize>)
    requires
        is_betti_sequence(masks, verts, b),
    ensures
        forall|k: int| 1 <= k <= max_dim(verts) ==> #[trigger] b[k] <= faces(masks, (k + 1) as nat).len(),
{
    assert forall|k: int| 1 <= k <= max_dim(verts) implies #[trigger] b[k] <= faces(masks, (k + 1) as nat).len() by {
        assert(betti_value_ok(masks, k as nat, b[k] as int));
    }
}

/// Each Betti number is at most the number of ways to choose one vertex more
/// than its dimension among the `n` vertices: `b[k] <= binomial(n, k + 1)`.
pub proof fn lemma_betti_binomial(masks: Seq<u64>, verts: u64, b: Seq<usize>)
    requires
        is_betti_sequence(masks, verts, b),
        masks_within(masks, verts),
        count_bits(verts, 11) > 0,
    ensures
        forall|k: int| 0 <= k < b.len() ==> #[trigger] b[k] <= binomial(count_bits(verts, 11), (k + 1) as nat),
{
    let n = count_bits(verts, 11);
    lemma_betti_zero_bounds(masks, verts, b);
    lemma_binomial_one(n);
    lemma_betti_at_most_faces(masks, verts, b);
    assert forall|k: int| 0 <= k < b.len() implies #[trigger] b[k] <= binomial(n, (k + 1) as nat) by {
        if k > 0 {
            lemma_faces_binomial(masks, verts, (k + 1) as nat);
        }
    }
}

/// The Betti numbers are well defined: two sequences that both list them are
/// equal.
pub proof fn lemma_betti_unique(masks: Seq<u64>, verts: u64, b1: Seq<usize>, b2: Seq<usize>)
    requires
        is_betti_sequence(masks, verts, b1),
        is_betti_sequence(masks, verts, b2),
    ensures
        b1 == b2,
{
    assert forall|k: int| 0 <= k < b1.len() implies b1[k] == b2[k] by {
        if k >= 1 {
            let kk = k as nat;
            assert(betti_value_ok(masks, kk, b1[k] as int));
            assert(betti_value_ok(masks, kk, b2[k] as int));
            let (r1, s1) = choose|r: nat, t: nat|
                #[trigger] boundary_rank_ok(masks, kk, r) && #[trigger] boundary_rank_ok(masks, kk + 1, t)
                    && b1[k] as int == faces(masks, kk + 1).len() - r - t;
            let (r2, s2) = choose|r: nat, t: nat|
                #[trigger] boundary_rank_ok(masks, kk, r) && #[trigger] boundary_rank_ok(masks, kk + 1, t)
                    && b2[k] as int == faces(masks, kk + 1).len() - r - t;
            lemma_rank_unique(boundary(faces(masks, kk), faces(masks, kk + 1)), faces(masks, kk + 1).len(), r1, r2);
            lemma_rank_unique(
                boundary(faces(masks, kk + 1), faces(masks, kk + 2)),
                faces(masks, kk + 2).len(),
                s1,
                s2,
            );
        }
    }
    assert(b1 =~= b2);
}

/// A mask with no bit among its first `n` has none set there.
pub proof fn lemma_count_zero(m: u64, n: nat)
    requires
        count_bits(m, n) == 0,
    ensures
        forall|u: int| 0 <= u < n ==> !#[trigger] has_bit(m, u),
    decreases n,
{
    if n > 0 {
        lemma_count_zero(m, (n - 1) as nat);
    }
}

/// A mask with a bit among its first `n` has a lowest one.
proof fn lemma_first_bit(m: u64, n: nat) -> (v: int)
    requires
        count_bits(m, n) > 0,
    ensures
        0 <= v < n,
        has_bit(m, v),
        forall|u: int| 0 <= u < v ==> !#[trigger] has_bit(m, u),
    decreases n,
{
    if count_bits(m, (n - 1) as nat) > 0 {
        lemma_first_bit(m, (n - 1) as nat)
    } else {
        lemma_count_zero(m, (n - 1) as nat);
        n - 1
    }
}

/// A nonzero feature mask has a feature.
pub proof fn lemma_nonzero_mask(m: u64)
    requires
        m < MASK_SPACE,
        m != 0,
    ensures
        count_bits(m, 11) > 0,
{
    if count_bits(m, 11) == 0 {
        lemma_count_zero(m, 11);
        assert forall|i: int| 0 <= i < 11 implies has_bit(m, i) == has_bit(0u64, i) by {
            bv_zero(i as u64);
        }
        lemma_mask_ext(m, 0u64);
    }
}

/// On a nonempty vertex set there are between one component and one per
/// vertex.
pub proof fn lemma_betti_zero_bounds(masks: Seq<u64>, verts: u64, b: Seq<usize>)
    requires
        is_betti_sequence(masks, verts, b),
        count_bits(verts, 11) > 0,
    ensures
        1 <= b[0] <= count_bits(verts, 11),
{
    let v = lemma_first_bit(verts, 11);
    assert(is_component_leader(masks, verts, v));
    let leaders = set_int_range(0, 11).filter(|w: int| is_component_leader(masks, verts, w));
    vstd::set_lib::lemma_int_range(0, 11);
    assert(leaders.contains(v));
    assert(leaders.remove(v).len() + 1 == leaders.len());
    assert(betti_zero_ok(masks, verts, b[0] as int));
}

/// The empty mask has no bit.
pub proof fn lemma_zero_mask()
    ensures
        forall|i: int| !#[trigger] has_bit(0u64, i),
{
    assert forall|i: int| !#[trigger] has_bit(0u64, i) by {
        if 0 <= i < 64 {
            bv_zero(i as u64);
        }
    }
}

} // verus!
