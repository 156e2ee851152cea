//! The boundary maps of a feature complex form a chain complex: over GF(2),
//! the boundary of a boundary vanishes.

use vstd::prelude::*;
use crate::complex::{
    has_bit, count_bits, is_submask, is_simplex, is_face, faces, mask_range, boundary, MASK_SPACE,
    lemma_set_bit, lemma_submask_bit, lemma_submask_by_bits, lemma_mask_ext,
};
use crate::gf2::{
    dot, kills, selects_some, selects_within, is_column_basis, supported,
    column_is_sum, lemma_dot_ext, lemma_dot_xor_sel, lemma_dot_ext_sel, lemma_dot_none, lemma_dot_one,
    lemma_exchange,
};
use crate::complex::{boundary_rank_ok, masks_within};
use crate::subsets::{binomial, sized_subsets, lemma_sized_subsets};
use vstd::set_lib::set_int_range;

verus! {

broadcast use vstd::set::group_set_axioms, vstd::set_lib::group_set_properties;

/// The features (bits below 11) of the mask `m` among the first `n`.
pub open spec fn bits_below(m: u64, n: int) -> Set<int> {
    Set::new(|i: int| 0 <= i < n && has_bit(m, i))
}

/// The features of the mask `m`.
pub open spec fn bit_set(m: u64) -> Set<int> {
    bits_below(m, 11)
}

/// The number of bits of a mask among its first `n` is the size of their set.
pub(crate) proof fn lemma_count_bits_set(m: u64, n: nat)
    requires
        n <= 11,
    ensures
        bits_below(m, n as int).finite(),
        count_bits(m, n) == bits_below(m, n as int).len(),
    decreases n,
{
    if n == 0 {
        assert(bits_below(m, 0) =~= Set::<int>::empty());
    } else {
        lemma_count_bits_set(m, (n - 1) as nat);
        let prev = bits_below(m, n - 1);
        if has_bit(m, n - 1) {
            assert(bits_below(m, n as int) =~= prev.insert(n - 1));
        } else {
            assert(bits_below(m, n as int) =~= prev);
        }
    }
}

/// A strictly increasing sequence keeps increasing once filtered.
proof fn lemma_filter_increasing(s: Seq<u64>, p: spec_fn(u64) -> bool)
    requires
        forall|a: int, b: int| 0 <= a < b < s.len() ==> s[a] < s[b],
    ensures
        forall|a: int, b: int| 0 <= a < b < s.filter(p).len() ==> s.filter(p)[a] < s.filter(p)[b],
    decreases s.len(),
{
    reveal_with_fuel(Seq::filter, 1);
    if s.len() > 0 {
        let rest = s.drop_last();
        lemma_filter_increasing(rest, p);
        let fr = rest.filter(p);
        if p(s.last()) {
            assert forall|a: int| 0 <= a < fr.len() implies fr[a] < s.last() by {
                assert(fr.contains(fr[a]));
                rest.lemma_filter_contains_rev(p, fr[a]);
                let i = choose|i: int| 0 <= i < rest.len() && rest[i] == fr[a];
                assert(s[i] < s[s.len() - 1]);
            }
        }
    }
}

/// The faces of a given size are listed in strictly increasing order.
pub(crate) proof fn lemma_faces_increasing(masks: Seq<u64>, size: nat)
    ensures
        forall|a: int, b: int| 0 <= a < b < faces(masks, size).len() ==> faces(masks, size)[a] < faces(masks, size)[b],
{
    lemma_filter_increasing(mask_range(MASK_SPACE as nat), |s: u64| is_face(masks, size, s));
}

/// Every face of the given size is listed among the faces of that size.
pub(crate) proof fn lemma_face_listed(masks: Seq<u64>, size: nat, h: u64)
    requires
        is_face(masks, size, h),
    ensures
        faces(masks, size).contains(h),
{
    let r = mask_range(MASK_SPACE as nat);
    assert(r[h as int] == h);
    r.lemma_filter_contains(|s: u64| is_face(masks, size, s), h as int);
}

/// Every listed face is a face of that size.
pub(crate) proof fn lemma_listed_face(masks: Seq<u64>, size: nat, i: int)
    requires
        0 <= i < faces(masks, size).len(),
    ensures
        is_face(masks, size, faces(masks, size)[i]),
{
    mask_range(MASK_SPACE as nat).lemma_filter_pred(|s: u64| is_face(masks, size, s), i);
}

/// A complex on the vertices `verts` has at most `binomial(n, size)` faces
/// with `size` vertices, `n` being the number of vertices: each face is a
/// distinct set of `size` of them.
pub proof fn lemma_faces_binomial(masks: Seq<u64>, verts: u64, size: nat)
    requires
        masks_within(masks, verts),
    ensures
        faces(masks, size).len() <= binomial(count_bits(verts, 11), size),
{
    let fs = faces(masks, size);
    lemma_faces_increasing(masks, size);
    assert(fs.no_duplicates()) by {
        assert forall|a: int, b: int| 0 <= a < fs.len() && 0 <= b < fs.len() && a != b implies fs[a] != fs[b] by {
            if a < b {
                assert(fs[a] < fs[b]);
            } else {
                assert(fs[b] < fs[a]);
            }
        }
    }
    let x = fs.to_set();
    fs.unique_seq_to_set();
    let to_bits = |s: u64| bit_set(s);
    assert(vstd::relations::injective_on(to_bits, x)) by {
        assert forall|s1: u64, s2: u64|
            x.contains(s1) && x.contains(s2) && #[trigger] to_bits(s1) == #[trigger] to_bits(s2) implies s1 == s2 by {
            let i1 = choose|i: int| 0 <= i < fs.len() && fs[i] == s1;
            let i2 = choose|i: int| 0 <= i < fs.len() && fs[i] == s2;
            lemma_listed_face(masks, size, i1);
            lemma_listed_face(masks, size, i2);
            assert forall|i: int| 0 <= i < 11 implies has_bit(s1, i) == has_bit(s2, i) by {
                assert(bit_set(s1).contains(i) == bit_set(s2).contains(i));
            }
            lemma_mask_ext(s1, s2);
        }
    }
    let y = x.map(to_bits);
    vstd::set_lib::lemma_map_size(x, y, to_bits);
    let all = sized_subsets(bit_set(verts), size);
    assert(y.subset_of(all)) by {
        assert forall|t: Set<int>| y.contains(t) implies all.contains(t) by {
            let s = choose|s: u64| x.contains(s) && to_bits(s) == t;
            let i = choose|i: int| 0 <= i < fs.len() && fs[i] == s;
            lemma_listed_face(masks, size, i);
            lemma_count_bits_set(s, 11);
            let j = choose|j: int| 0 <= j < masks.len() && is_submask(s, #[trigger] masks[j]);
            assert(is_submask(masks[j], verts));
            assert forall|v: int| t.contains(v) implies bit_set(verts).contains(v) by {
                lemma_submask_bit(s, masks[j], v);
                lemma_submask_bit(masks[j], verts, v);
            }
        }
    }
    lemma_count_bits_set(verts, 11);
    lemma_sized_subsets(bit_set(verts), size);
    vstd::set_lib::lemma_len_subset(y, all);
}

/// The bits of a sub-mask are among those of the mask, and conversely.
pub(crate) proof fn lemma_submask_set(a: u64, b: u64)
    requires
        a < MASK_SPACE,
    ensures
        is_submask(a, b) <==> bit_set(a).subset_of(bit_set(b)),
{
    if is_submask(a, b) {
        assert forall|i: int| bit_set(a).contains(i) implies bit_set(b).contains(i) by {
            lemma_submask_bit(a, b, i);
        }
    }
    if bit_set(a).subset_of(bit_set(b)) {
        assert forall|i: int| 0 <= i < 11 && has_bit(a, i) implies has_bit(b, i) by {
            assert(bit_set(a).contains(i));
        }
        lemma_submask_by_bits(a, b);
    }
}

/// Between a face `g` and a face `f` with two more vertices lie exactly two
/// faces, each with one vertex more than `g`: `g` with either missing vertex.
proof fn lemma_two_between(g: u64, f: u64, k: nat) -> (ab: (int, int))
    requires
        g < MASK_SPACE,
        f < MASK_SPACE,
        is_submask(g, f),
        count_bits(g, 11) == k,
        count_bits(f, 11) == k + 2,
    ensures
        0 <= ab.0 < 11,
        0 <= ab.1 < 11,
        ab.0 != ab.1,
        !has_bit(g, ab.0),
        !has_bit(g, ab.1),
        forall|h: u64|
            h < MASK_SPACE ==> ((is_submask(g, h) && is_submask(h, f) && count_bits(h, 11) == k + 1) <==> (h
                == g | (1u64 << (ab.0 as u64)) || h == g | (1u64 << (ab.1 as u64)))),
{
    lemma_count_bits_set(g, 11);
    lemma_count_bits_set(f, 11);
    lemma_submask_set(g, f);
    let gs = bit_set(g);
    let fs = bit_set(f);
    let d = fs.difference(gs);
    assert(fs.intersect(gs) =~= gs);
    assert(d.len() == 2);
    let a = d.choose();
    assert(d.contains(a));
    let b = d.remove(a).choose();
    assert(d.remove(a).len() == 1);
    assert(d.remove(a).contains(b));
    assert(d =~= set![a, b]) by {
        assert(d.remove(a).remove(b).len() == 0);
        assert forall|x: int| d.contains(x) implies x == a || x == b by {
            if x != a && x != b {
                assert(d.remove(a).remove(b).contains(x));
            }
        }
    }
    let ha = g | (1u64 << (a as u64));
    let hb = g | (1u64 << (b as u64));
    lemma_set_bit(g, a);
    lemma_set_bit(g, b);
    assert(!gs.contains(a) && !gs.contains(b));
    assert(bit_set(ha) =~= gs.insert(a));
    assert(bit_set(hb) =~= gs.insert(b));
    assert forall|h: u64| h < MASK_SPACE implies ((is_submask(g, h) && is_submask(h, f) && count_bits(h, 11) == k
        + 1) <==> (h == ha || h == hb)) by {
        lemma_count_bits_set(h, 11);
        lemma_count_bits_set(ha, 11);
        lemma_count_bits_set(hb, 11);
        lemma_submask_set(g, h);
        lemma_submask_set(h, f);
        let hs = bit_set(h);
        if is_submask(g, h) && is_submask(h, f) && count_bits(h, 11) == k + 1 {
            let e = hs.difference(gs);
            assert(hs.intersect(gs) =~= gs);
            assert(e.len() == 1);
            let c = e.choose();
            assert(e.contains(c));
            assert(d.contains(c));
            assert(e =~= set![c]) by {
                assert(e.remove(c).len() == 0);
                assert forall|x: int| e.contains(x) implies x == c by {
                    if x != c {
                        assert(e.remove(c).contains(x));
                    }
                }
            }
            assert forall|x: int| hs.contains(x) == gs.insert(c).contains(x) by {
                if hs.contains(x) && !gs.contains(x) {
                    assert(e.contains(x));
                }
            }
            assert(hs =~= gs.insert(c));
            if c == a {
                assert forall|i: int| 0 <= i < 11 implies has_bit(h, i) == has_bit(ha, i) by {
                    assert(hs.contains(i) == bit_set(ha).contains(i));
                }
                lemma_mask_ext(h, ha);
            } else {
                assert(c == b);
                assert forall|i: int| 0 <= i < 11 implies has_bit(h, i) == has_bit(hb, i) by {
                    assert(hs.contains(i) == bit_set(hb).contains(i));
                }
                lemma_mask_ext(h, hb);
            }
        }
        if h == ha || h == hb {
            assert(gs.subset_of(hs));
            assert(hs.subset_of(fs));
            assert(!gs.contains(a) && !gs.contains(b));
        }
    }
    (a, b)
}

/// The column `f` of a matrix, over its first `n` rows.
pub open spec fn column(m: Seq<Seq<bool>>, f: int, n: nat) -> Seq<bool> {
    Seq::new(n, |h: int| m[h][f])
}

/// The boundary of a boundary vanishes: over GF(2), the boundary map from the
/// faces with `k + 1` vertices to those with `k`, applied after the one from the
/// faces with `k + 2` vertices, is zero.
pub proof fn lemma_boundary_of_boundary(masks: Seq<u64>, k: nat, g: int, f: int)
    requires
        0 <= g < faces(masks, k).len(),
        0 <= f < faces(masks, k + 2).len(),
    ensures
        !dot(
            boundary(faces(masks, k), faces(masks, k + 1))[g],
            column(boundary(faces(masks, k + 1), faces(masks, k + 2)), f, faces(masks, k + 1).len()),
            faces(masks, k + 1).len(),
        ),
{
    let lower = faces(masks, k);
    let mid = faces(masks, k + 1);
    let upper = faces(masks, k + 2);
    let n = mid.len();
    let row = boundary(lower, mid)[g];
    let col = column(boundary(mid, upper), f, n);
    let gm = lower[g];
    let fm = upper[f];
    lemma_listed_face(masks, k, g);
    lemma_listed_face(masks, k + 2, f);
    assert forall|h: int| 0 <= h < n implies (row[h] && col[h]) == (is_submask(gm, mid[h]) && is_submask(
        mid[h],
        fm,
    )) by {}
    if !is_submask(gm, fm) {
        assert forall|h: int| 0 <= h < n implies !(row[h] && col[h]) by {
            if is_submask(gm, mid[h]) && is_submask(mid[h], fm) {
                crate::feature_space::lemma_submask_trans(gm, mid[h], fm);
            }
        }
        crate::gf2::lemma_dot_none(row, col, n);
    } else {
        let (a, b) = lemma_two_between(gm, fm, k);
        let ha = gm | (1u64 << (a as u64));
        let hb = gm | (1u64 << (b as u64));
        lemma_set_bit(gm, a);
        lemma_set_bit(gm, b);
        assert(ha != hb) by {
            assert(has_bit(ha, a));
            if ha == hb {
                assert(has_bit(hb, a));
            }
        }
        let fi = choose|i: int| 0 <= i < masks.len() && is_submask(fm, #[trigger] masks[i]);
        assert(is_simplex(masks, ha)) by {
            crate::feature_space::lemma_submask_trans(ha, fm, masks[fi]);
        }
        assert(is_simplex(masks, hb)) by {
            crate::feature_space::lemma_submask_trans(hb, fm, masks[fi]);
        }
        lemma_face_listed(masks, k + 1, ha);
        lemma_face_listed(masks, k + 1, hb);
        let ia = choose|i: int| 0 <= i < n && mid[i] == ha;
        let ib = choose|i: int| 0 <= i < n && mid[i] == hb;
        lemma_faces_increasing(masks, k + 1);
        assert forall|h: int| 0 <= h < n implies ((row[h] && col[h]) <==> (h == ia || h == ib)) by {
            lemma_listed_face(masks, k + 1, h);
            if h != ia && h != ib {
                if mid[h] == ha {
                    if h < ia {
                        assert(mid[h] < mid[ia]);
                    } else {
                        assert(mid[ia] < mid[h]);
                    }
                }
                if mid[h] == hb {
                    if h < ib {
                        assert(mid[h] < mid[ib]);
                    } else {
                        assert(mid[ib] < mid[h]);
                    }
                }
            }
        }
        crate::gf2::lemma_dot_two(row, col, n, ia, ib);
    }
}

/// The vector `m c`: entry `i` sums the entries of row `i` selected by `c`.
pub open spec fn mat_vec(m: Seq<Seq<bool>>, c: Seq<bool>, rows: nat, cols: nat) -> Seq<bool> {
    Seq::new(rows, |i: int| dot(m[i], c, cols))
}

/// Over GF(2), `a · (m c)` equals `(mᵀ a) · c`.
pub(crate) proof fn lemma_dot_mat_vec(a: Seq<bool>, m: Seq<Seq<bool>>, c: Seq<bool>, rows: nat, cols: nat)
    ensures
        dot(a, mat_vec(m, c, rows, cols), rows) == dot(
            Seq::new(cols, |j: int| dot(a, column(m, j, rows), rows)),
            c,
            cols,
        ),
    decreases cols,
{
    let v = Seq::new(cols, |j: int| dot(a, column(m, j, rows), rows));
    if cols == 0 {
        lemma_dot_none(a, mat_vec(m, c, rows, 0), rows);
    } else {
        let p = (cols - 1) as nat;
        lemma_dot_mat_vec(a, m, c, rows, p);
        let vp = Seq::new(p, |j: int| dot(a, column(m, j, rows), rows));
        lemma_dot_ext(vp, v, c, p);
        let prev = mat_vec(m, c, rows, p);
        let cur = mat_vec(m, c, rows, cols);
        if c[p as int] {
            assert forall|i: int| 0 <= i < rows implies cur[i] == (prev[i] != column(m, p as int, rows)[i]) by {}
            lemma_dot_xor_sel(a, prev, column(m, p as int, rows), cur, rows);
        } else {
            lemma_dot_ext_sel(a, cur, prev, rows);
        }
    }
}

/// The selection of the columns below `c` that are not in `b`.
pub open spec fn off_basis(b: Seq<int>, c: nat) -> Set<int> {
    Set::new(|j: int| 0 <= j < c && !b.contains(j))
}

/// The columns below `c` outside a basis of `c` columns with `r` members number
/// `c - r`.
proof fn lemma_off_basis_len(b: Seq<int>, c: nat)
    requires
        b.no_duplicates(),
        forall|i: int| 0 <= i < b.len() ==> 0 <= #[trigger] b[i] < c,
    ensures
        off_basis(b, c).finite(),
        off_basis(b, c).len() + b.len() == c,
{
    broadcast use vstd::seq_lib::seq_to_set_is_finite;
    let all = set_int_range(0, c as int);
    vstd::set_lib::lemma_int_range(0, c as int);
    let bs = b.to_set();
    b.unique_seq_to_set();
    assert(bs.subset_of(all)) by {
        assert forall|j: int| bs.contains(j) implies all.contains(j) by {
            let i = choose|i: int| 0 <= i < b.len() && b[i] == j;
            assert(0 <= b[i] < c);
        }
    }
    assert(off_basis(b, c) =~= all.difference(bs));
    assert(all.intersect(bs) =~= bs);
}

/// The boundaries of faces with `k + 2` vertices are cycles, so the rank of the
/// boundary map on them is at most the dimension of the space of cycles among
/// the faces with `k + 1` vertices: no Betti number is negative.
pub proof fn lemma_boundaries_in_cycles(masks: Seq<u64>, k: nat, r: nat, s: nat)
    requires
        boundary_rank_ok(masks, k, r),
        boundary_rank_ok(masks, k + 1, s),
    ensures
        r + s <= faces(masks, k + 1).len(),
{
    broadcast use vstd::seq_lib::seq_to_set_is_finite;
    let lower = faces(masks, k);
    let mid = faces(masks, k + 1);
    let upper = faces(masks, k + 2);
    let c = mid.len();
    let c2 = upper.len();
    let a = boundary(lower, mid);
    let bm = boundary(mid, upper);
    let ba = choose|b: Seq<int>| is_column_basis(a, c, b) && b.len() == r;
    let bb = choose|b: Seq<int>| is_column_basis(bm, c2, b) && b.len() == s;
    assert(is_column_basis(a, c, ba) && ba.len() == r);
    assert(is_column_basis(bm, c2, bb) && bb.len() == s);
    let xs = |j: int| choose|x: Seq<bool>| selects_within(x, c, ba, j) && x[j] && #[trigger] kills(a, x, c);
    let u = Seq::new(c, |i: int| Seq::new(c, |j: int| !ba.contains(j) && xs(j)[i]));
    let coef = Seq::new(c2, |f: int| Seq::new(c, |j: int| !ba.contains(j) && bm[j][f]));
    let t = off_basis(ba, c);
    let sb = bb.to_set();
    lemma_off_basis_len(ba, c);
    bb.unique_seq_to_set();
    assert forall|j: int| 0 <= j < c && !ba.contains(j) implies selects_within(xs(j), c, ba, j) && xs(j)[j]
        && kills(a, xs(j), c) by {}
    assert forall|f: int| #[trigger] sb.contains(f) implies 0 <= f < c2 by {
        let i = choose|i: int| 0 <= i < bb.len() && bb[i] == f;
        assert(0 <= bb[i] < c2);
    }
    assert forall|f: int| #[trigger] sb.contains(f) implies supported(coef[f], c, t) && column_is_sum(
        bm,
        f,
        u,
        coef[f],
        c,
    ) by {
        assert(0 <= f < c2);
        let y = column(bm, f, c);
        let uc = mat_vec(u, coef[f], c, c);
        let z = Seq::new(c, |i: int| y[i] != uc[i]);
        // `y` is a cycle: the boundary of a boundary vanishes
        assert forall|g: int| 0 <= g < a.len() implies !#[trigger] dot(a[g], z, c) by {
            lemma_boundary_of_boundary(masks, k, g, f);
            assert(!dot(a[g], y, c));
            lemma_dot_mat_vec(a[g], u, coef[f], c, c);
            let v = Seq::new(c, |j: int| dot(a[g], column(u, j, c), c));
            assert forall|j: int| 0 <= j < c implies !#[trigger] v[j] by {
                if ba.contains(j) {
                    assert forall|i: int| 0 <= i < c implies !(a[g][i] && column(u, j, c)[i]) by {}
                    lemma_dot_none(a[g], column(u, j, c), c);
                } else {
                    assert(kills(a, xs(j), c));
                    assert(!dot(a[g], xs(j), c));
                    lemma_dot_ext_sel(a[g], column(u, j, c), xs(j), c);
                }
            }
            assert forall|j: int| 0 <= j < c implies !(v[j] && coef[f][j]) by {
                assert(!v[j]);
            }
            lemma_dot_none(v, coef[f], c);
            lemma_dot_xor_sel(a[g], y, uc, z, c);
        }
        assert(kills(a, z, c));
        // `z` vanishes off the basis of `a`
        assert forall|i: int| 0 <= i < c && #[trigger] z[i] implies (i == -1 || ba.contains(i)) by {
            if !ba.contains(i) {
                assert forall|j: int| 0 <= j < c implies ((u[i][j] && coef[f][j]) <==> (j == i && y[i])) by {
                    if u[i][j] && coef[f][j] {
                        assert(!ba.contains(j));
                        assert(xs(j)[i]);
                        assert(selects_within(xs(j), c, ba, j));
                        assert(i == j || ba.contains(i));
                    }
                    if j == i && y[i] {
                        assert(xs(i)[i]);
                    }
                }
                if y[i] {
                    lemma_dot_one(u[i], coef[f], c, i);
                } else {
                    lemma_dot_none(u[i], coef[f], c);
                }
                assert(uc[i] == y[i]);
            }
        }
        assert(selects_within(z, c, ba, -1));
        assert(!selects_some(z, c)) by {
            if selects_some(z, c) {
                assert(!kills(a, z, c));
            }
        }
        assert forall|i: int| 0 <= i < bm.len() implies bm[i][f] == #[trigger] dot(u[i], coef[f], c) by {
            assert(!z[i]);
            assert(y[i] == bm[i][f]);
        }
        assert forall|j: int| 0 <= j < c && #[trigger] coef[f][j] implies t.contains(j) by {}
    }
    assert forall|x: Seq<bool>| x.len() == c2 && supported(x, c2, sb) && selects_some(x, c2) implies !#[trigger] kills(
        bm,
        x,
        c2,
    ) by {
        assert forall|j: int| 0 <= j < c2 && #[trigger] x[j] implies (j == -1 || bb.contains(j)) by {
            assert(sb.contains(j));
        }
        assert(selects_within(x, c2, bb, -1));
    }
    lemma_exchange(u, c, t, bm, c2, sb, coef);
}

} // verus!
