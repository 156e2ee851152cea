//! The graph of the 2-vertex faces: its connected components against the rank
//! over GF(2) of its incidence matrix.

use vstd::prelude::*;
use crate::complex::{
    has_bit, count_bits, is_submask, is_simplex, is_face, faces, boundary, connected, closed_under, MASK_SPACE,
};
use crate::union_find::fixed_points;
use vstd::set_lib::set_int_range;
use crate::gf2::{
    dot, kills, selects_within, selects_some, is_column_basis, unit, lemma_dot_none, lemma_dot_one, lemma_dot_two,
    lemma_dot_xor_sel, lemma_dot_unit, lemma_dot_ext_sel,
};
use crate::chain::{
    column, mat_vec, bit_set, lemma_dot_mat_vec, lemma_count_bits_set, lemma_submask_set, lemma_face_listed,
    lemma_listed_face,
};

verus! {

broadcast use vstd::set::group_set_axioms, vstd::set_lib::group_set_properties;

/// The incidence matrix of the masks `es` over the features: row `v` marks the
/// masks that hold feature `v`.
pub open spec fn incidence(es: Seq<u64>) -> Seq<Seq<bool>> {
    Seq::new(11, |v: int| Seq::new(es.len(), |e: int| has_bit(es[e], v)))
}

/// `e` holds, of the features, exactly `p` and `q`, two distinct ones.
pub open spec fn edge_between(e: u64, p: int, q: int) -> bool {
    &&& 0 <= p < 11
    &&& 0 <= q < 11
    &&& p != q
    &&& forall|i: int| 0 <= i < 11 ==> (#[trigger] has_bit(e, i) <==> (i == p || i == q))
}

/// `e` is an edge between two features.
pub open spec fn is_edge(e: u64) -> bool {
    exists|p: int, q: int| edge_between(e, p, q)
}

/// Each of the first `t` masks of `es` is an edge.
pub open spec fn all_edges(es: Seq<u64>, t: int) -> bool {
    forall|i: int| 0 <= i < t ==> #[trigger] is_edge(es[i])
}

/// Selecting `x` among the first `t` masks of `es` leaves an odd number of
/// selected masks at a feature `v` exactly when `v` is one of `a` and `w`, not
/// both.
pub open spec fn joins(es: Seq<u64>, x: Seq<bool>, t: nat, a: int, w: int) -> bool {
    forall|v: int| 0 <= v < 11 ==> #[trigger] dot(incidence(es)[v], x, t) == ((v == a) != (v == w))
}

/// Every face with two vertices is an edge.
pub proof fn lemma_faces_are_edges(masks: Seq<u64>)
    ensures
        all_edges(faces(masks, 2), faces(masks, 2).len() as int),
{
    let es = faces(masks, 2);
    assert forall|i: int| 0 <= i < es.len() implies #[trigger] is_edge(es[i]) by {
        crate::chain::lemma_listed_face(masks, 2, i);
        let e = es[i];
        lemma_count_bits_set(e, 11);
        let s = bit_set(e);
        assert(s.len() == 2);
        let p = s.choose();
        assert(s.contains(p));
        assert(s.remove(p).len() == 1);
        let q = s.remove(p).choose();
        assert(s.remove(p).contains(q));
        assert forall|k: int| 0 <= k < 11 implies (#[trigger] has_bit(e, k) <==> (k == p || k == q)) by {
            if has_bit(e, k) && k != p && k != q {
                assert(s.remove(p).remove(q).contains(k));
                assert(s.remove(p).remove(q).len() == 0);
            }
        }
        assert(edge_between(es[i], p, q));
    }
}

/// Flipping the selection of column `i` adds the row's entry in it.
proof fn lemma_dot_toggle(row: Seq<bool>, x: Seq<bool>, i: int, t: nat)
    requires
        0 <= i < t,
        x.len() == t,
    ensures
        dot(row, x.update(i, !x[i]), t) == (dot(row, x, t) != row[i]),
{
    lemma_dot_xor_sel(row, x, unit(t, i), x.update(i, !x[i]), t);
    lemma_dot_unit(row, t, i);
}

/// A selection of edges whose odd-degree features are exactly `a` and `b`
/// joins `a` to `b`: they are connected.
pub proof fn lemma_joined_connected(es: Seq<u64>, t: nat, x: Seq<bool>, a: int, b: int)
    requires
        t <= es.len(),
        0 <= a < 11,
        0 <= b < 11,
        all_edges(es, t as int),
        joins(es, x, t, a, b),
    ensures
        connected(es.take(t as int), a, b),
{
    let inc = incidence(es);
    let et = es.take(t as int);
    assert forall|s: Set<int>| #[trigger] closed_under(et, s) && s.contains(a) implies s.contains(b) by {
        if !s.contains(b) {
            let ind = Seq::new(11, |v: int| s.contains(v));
            lemma_dot_mat_vec(ind, inc, x, 11, t);
            let w = Seq::new(t, |e: int| dot(ind, column(inc, e, 11), 11));
            assert forall|e: int| 0 <= e < t implies !(w[e] && x[e]) by {
                assert(is_edge(es[e]));
                let (p, q) = choose|p: int, q: int| edge_between(es[e], p, q);
                assert(edge_between(es[e], p, q));
                assert(et[e] == es[e]);
                assert(has_bit(et[e], p) && has_bit(et[e], q));
                assert(s.contains(p) <==> s.contains(q));
                let col = column(inc, e, 11);
                if s.contains(p) {
                    lemma_dot_two(ind, col, 11, p, q);
                } else {
                    assert forall|v: int| 0 <= v < 11 implies !(ind[v] && col[v]) by {
                        if col[v] {
                            assert(has_bit(es[e], v));
                        }
                    }
                    lemma_dot_none(ind, col, 11);
                }
            }
            lemma_dot_none(w, x, t);
            let mv = mat_vec(inc, x, 11, t);
            assert forall|v: int| 0 <= v < 11 implies ((ind[v] && mv[v]) <==> v == a) by {
                assert(mv[v] == dot(inc[v], x, t));
            }
            lemma_dot_one(ind, mv, 11, a);
        }
    }
}

/// Connected features are joined by a selection of the edges.
pub proof fn lemma_connected_joined(es: Seq<u64>, t: nat, a: int, b: int)
    requires
        t <= es.len(),
        0 <= a < 11,
        0 <= b < 11,
        all_edges(es, t as int),
        connected(es.take(t as int), a, b),
    ensures
        exists|x: Seq<bool>| x.len() == t && #[trigger] joins(es, x, t, a, b),
{
    let inc = incidence(es);
    let et = es.take(t as int);
    let s = Set::new(|w: int| 0 <= w < 11 && exists|x: Seq<bool>| x.len() == t && #[trigger] joins(es, x, t, a, w));
    let zero = Seq::new(t, |e: int| false);
    assert(joins(es, zero, t, a, a)) by {
        assert forall|v: int| 0 <= v < 11 implies #[trigger] dot(inc[v], zero, t) == ((v == a) != (v == a)) by {
            lemma_dot_none(inc[v], zero, t);
        }
    }
    assert(s.contains(a));
    assert forall|i: int, p: int, q: int|
        #![trigger has_bit(et[i], p), has_bit(et[i], q)]
        0 <= i < et.len() && 0 <= p < 11 && 0 <= q < 11 && has_bit(et[i], p) && has_bit(et[i], q)
            implies (s.contains(p) <==> s.contains(q)) by {
        assert(et[i] == es[i]);
        assert(is_edge(es[i]));
        let (p0, q0) = choose|p0: int, q0: int| edge_between(es[i], p0, q0);
        assert(edge_between(es[i], p0, q0));
        if p != q {
            assert forall|from: int, to: int|
                ((from == p && to == q) || (from == q && to == p)) && s.contains(from) implies s.contains(to) by {
                {
                    let x = choose|x: Seq<bool>| x.len() == t && #[trigger] joins(es, x, t, a, from);
                    let x2 = x.update(i, !x[i]);
                    assert forall|v: int| 0 <= v < 11 implies #[trigger] dot(inc[v], x2, t) == ((v == a) != (v
                        == to)) by {
                        lemma_dot_toggle(inc[v], x, i, t);
                        assert(dot(inc[v], x, t) == ((v == a) != (v == from)));
                        assert(inc[v][i] == has_bit(es[i], v));
                    }
                    assert(joins(es, x2, t, a, to));
                    assert(x2.len() == t);
                }
            }
        }
    }
    assert(closed_under(et, s));
    assert(s.contains(b));
}

/// Number of the first `n` columns selected by `y` outside `b`.
pub open spec fn off_count(y: Seq<bool>, b: Seq<int>, n: nat) -> nat
    decreases n,
{
    if n == 0 {
        0
    } else {
        off_count(y, b, (n - 1) as nat) + if y[n - 1] && !b.contains(n - 1) {
            1nat
        } else {
            0nat
        }
    }
}

proof fn lemma_off_count_zero(y: Seq<bool>, b: Seq<int>, n: nat)
    requires
        off_count(y, b, n) == 0,
    ensures
        forall|j: int| 0 <= j < n && #[trigger] y[j] ==> b.contains(j),
    decreases n,
{
    if n > 0 {
        lemma_off_count_zero(y, b, (n - 1) as nat);
    }
}

proof fn lemma_off_count_drop(y: Seq<bool>, y2: Seq<bool>, b: Seq<int>, n: nat, j: int)
    requires
        0 <= j < n,
        y[j] && !b.contains(j),
        !y2[j],
        forall|k: int| 0 <= k < n && k != j ==> (#[trigger] y2[k] && !b.contains(k)) == (y[k] && !b.contains(k)),
    ensures
        off_count(y2, b, n) + 1 == off_count(y, b, n),
    decreases n,
{
    if n - 1 > j {
        lemma_off_count_drop(y, y2, b, (n - 1) as nat, j);
    } else {
        lemma_off_count_same(y, y2, b, (n - 1) as nat);
    }
}

proof fn lemma_off_count_same(y: Seq<bool>, y2: Seq<bool>, b: Seq<int>, n: nat)
    requires
        forall|k: int| 0 <= k < n ==> (#[trigger] y2[k] && !b.contains(k)) == (y[k] && !b.contains(k)),
    ensures
        off_count(y2, b, n) == off_count(y, b, n),
    decreases n,
{
    if n > 0 {
        lemma_off_count_same(y, y2, b, (n - 1) as nat);
    }
}

/// Every sum of the first `t` columns is a sum of columns of a basis of them.
pub proof fn lemma_basis_spans(m: Seq<Seq<bool>>, t: nat, b: Seq<int>, y: Seq<bool>)
    requires
        is_column_basis(m, t, b),
        y.len() == t,
    ensures
        exists|z: Seq<bool>|
            z.len() == t && selects_within(z, t, b, -1) && forall|r: int|
                0 <= r < m.len() ==> #[trigger] dot(m[r], z, t) == dot(m[r], y, t),
    decreases off_count(y, b, t),
{
    if off_count(y, b, t) == 0 {
        lemma_off_count_zero(y, b, t);
        assert(selects_within(y, t, b, -1));
        assert(forall|r: int| 0 <= r < m.len() ==> #[trigger] dot(m[r], y, t) == dot(m[r], y, t));
    } else {
        let j = choose_off(y, b, t);
        let x = choose|x: Seq<bool>| selects_within(x, t, b, j) && x[j] && #[trigger] kills(m, x, t);
        assert(selects_within(x, t, b, j) && x[j] && kills(m, x, t));
        let y2 = Seq::new(t, |k: int| y[k] != x[k]);
        assert forall|k: int| 0 <= k < t && k != j implies (#[trigger] y2[k] && !b.contains(k)) == (y[k] && !b.contains(k)) by {
            if x[k] {
                assert(b.contains(k));
            }
        }
        lemma_off_count_drop(y, y2, b, t, j);
        lemma_basis_spans(m, t, b, y2);
        let z = choose|z: Seq<bool>|
            z.len() == t && selects_within(z, t, b, -1) && forall|r: int|
                0 <= r < m.len() ==> #[trigger] dot(m[r], z, t) == dot(m[r], y2, t);
        assert forall|r: int| 0 <= r < m.len() implies #[trigger] dot(m[r], z, t) == dot(m[r], y, t) by {
            assert(dot(m[r], z, t) == dot(m[r], y2, t));
            lemma_dot_xor_sel(m[r], y, x, y2, t);
            assert(!dot(m[r], x, t));
        }
    }
}

/// A column selected by `y` outside `b`, when there is one.
proof fn choose_off(y: Seq<bool>, b: Seq<int>, n: nat) -> (j: int)
    requires
        off_count(y, b, n) > 0,
    ensures
        0 <= j < n,
        y[j],
        !b.contains(j),
    decreases n,
{
    if y[n - 1] && !b.contains(n - 1) {
        n - 1
    } else {
        choose_off(y, b, (n - 1) as nat)
    }
}

proof fn bv_single(v: u64, i: u64)
    by (bit_vector)
    requires
        v < 11,
        i < 64,
    ensures
        (((1u64 << v) >> i) & 1u64 == 1u64) == (i == v),
        (1u64 << v) < 2048,
{
}

/// The mask of the single feature `v`.
pub open spec fn vertex_mask(v: int) -> u64 {
    1u64 << (v as u64)
}

proof fn lemma_vertex_mask(v: int)
    requires
        0 <= v < 11,
    ensures
        vertex_mask(v) < MASK_SPACE,
        forall|i: int| 0 <= i < 64 ==> (#[trigger] has_bit(vertex_mask(v), i) <==> i == v),
        bit_set(vertex_mask(v)) == set![v],
        count_bits(vertex_mask(v), 11) == 1,
{
    bv_single(v as u64, 0);
    assert forall|i: int| 0 <= i < 64 implies (#[trigger] has_bit(vertex_mask(v), i) <==> i == v) by {
        bv_single(v as u64, i as u64);
    }
    assert(bit_set(vertex_mask(v)) =~= set![v]);
    lemma_count_bits_set(vertex_mask(v), 11);
}

/// A mask with the single feature `v` lies within `e` exactly when `e` holds `v`.
proof fn lemma_vertex_in(vm: u64, v: int, e: u64)
    requires
        vm < MASK_SPACE,
        0 <= v < 11,
        bit_set(vm) == set![v],
    ensures
        is_submask(vm, e) <==> has_bit(e, v),
{
    lemma_submask_set(vm, e);
    if has_bit(e, v) {
        assert(bit_set(vm).subset_of(bit_set(e))) by {
            assert forall|i: int| bit_set(vm).contains(i) implies bit_set(e).contains(i) by {
                assert(i == v);
            }
        }
    }
    if is_submask(vm, e) {
        assert(bit_set(vm).contains(v));
    }
}

/// The incidence matrix of the edges and the boundary map from the edges to the
/// vertices kill the same selections.
pub proof fn lemma_incidence_boundary(masks: Seq<u64>, x: Seq<bool>)
    ensures
        kills(incidence(faces(masks, 2)), x, faces(masks, 2).len()) <==> kills(
            boundary(faces(masks, 1), faces(masks, 2)),
            x,
            faces(masks, 2).len(),
        ),
{
    let es = faces(masks, 2);
    let vs = faces(masks, 1);
    let c = es.len();
    let inc = incidence(es);
    let bd = boundary(vs, es);
    if kills(bd, x, c) {
        assert forall|v: int| 0 <= v < inc.len() implies !#[trigger] dot(inc[v], x, c) by {
            if exists|e: int| 0 <= e < c && has_bit(es[e], v) {
                let e = choose|e: int| 0 <= e < c && has_bit(es[e], v);
                lemma_vertex_mask(v);
                let vm = vertex_mask(v);
                lemma_listed_face(masks, 2, e);
                lemma_vertex_in(vm, v, es[e]);
                let d = choose|d: int| 0 <= d < masks.len() && is_submask(es[e], #[trigger] masks[d]);
                crate::feature_space::lemma_submask_trans(vm, es[e], masks[d]);
                assert(is_simplex(masks, vm));
                assert(is_face(masks, 1, vm));
                lemma_face_listed(masks, 1, vm);
                let h = choose|h: int| 0 <= h < vs.len() && vs[h] == vm;
                assert forall|t: int| 0 <= t < c implies bd[h][t] == inc[v][t] by {
                    lemma_vertex_in(vm, v, es[t]);
                }
                crate::gf2::lemma_dot_ext(bd[h], inc[v], x, c);
                assert(!dot(bd[h], x, c));
            } else {
                assert forall|t: int| 0 <= t < c implies !(inc[v][t] && x[t]) by {}
                lemma_dot_none(inc[v], x, c);
            }
        }
    }
    if kills(inc, x, c) {
        assert forall|h: int| 0 <= h < bd.len() implies !#[trigger] dot(bd[h], x, c) by {
            lemma_listed_face(masks, 1, h);
            let vm = vs[h];
            lemma_count_bits_set(vm, 11);
            let v = bit_set(vm).choose();
            assert(bit_set(vm).contains(v));
            assert(bit_set(vm) =~= set![v]) by {
                assert(bit_set(vm).remove(v).len() == 0);
                assert forall|i: int| bit_set(vm).contains(i) implies i == v by {
                    if i != v {
                        assert(bit_set(vm).remove(v).contains(i));
                    }
                }
            }
            assert forall|t: int| 0 <= t < c implies bd[h][t] == inc[v][t] by {
                lemma_vertex_in(vm, v, es[t]);
            }
            crate::gf2::lemma_dot_ext(bd[h], inc[v], x, c);
            assert(!dot(inc[v], x, c));
        }
    }
}

/// Merging the class of `a` into that of `b`, two different classes, leaves one
/// representative fewer.
pub proof fn lemma_merge_fixed(r: spec_fn(int) -> int, r2: spec_fn(int) -> int, a: int, b: int, n: nat)
    requires
        0 <= a < n,
        0 <= b < n,
        r(a) != r(b),
        forall|y: int| 0 <= y < n ==> 0 <= #[trigger] r(y) < n && r(r(y)) == r(y),
        forall|y: int| 0 <= y < n ==> #[trigger] r2(y) == if r(y) == r(a) {
            r(b)
        } else {
            r(y)
        },
    ensures
        fixed_points(r2, |y: int| true, n).len() + 1 == fixed_points(r, |y: int| true, n).len(),
        fixed_points(r2, |y: int| true, n).finite(),
{
    let all = |y: int| true;
    let f1 = fixed_points(r, all, n);
    let f2 = fixed_points(r2, all, n);
    vstd::set_lib::lemma_int_range(0, n as int);
    assert(f1.finite());
    assert(f1.contains(r(a))) by {
        assert(0 <= r(a) < n && r(r(a)) == r(a));
    }
    assert forall|y: int| f2.contains(y) <==> f1.remove(r(a)).contains(y) by {
        if 0 <= y < n {
            assert(0 <= r(y) < n && r(r(y)) == r(y));
            assert(0 <= r(b) < n && r(r(b)) == r(b));
            if r(y) == r(a) {
                if y == r(b) {
                    assert(r(y) == r(b));
                }
            }
        }
    }
    assert(f2 =~= f1.remove(r(a)));
}

/// Dropping the last of `t + 1` selected columns.
proof fn lemma_dot_last(row: Seq<bool>, x: Seq<bool>, t: nat)
    requires
        x.len() == t + 1,
    ensures
        dot(row, x, t + 1) == (dot(row, x.take(t as int), t) != (row[t as int] && x[t as int])),
{
    lemma_dot_ext_sel(row, x, x.take(t as int), t);
}

/// A column outside a basis of the first `t` columns is a sum of basis columns
/// among the first `t + 1` too.
proof fn lemma_extend_spanned(m: Seq<Seq<bool>>, t: nat, tree: Seq<int>, b2: Seq<int>, j: int)
    requires
        is_column_basis(m, t, tree),
        0 <= j < t,
        !tree.contains(j),
        forall|k: int| tree.contains(k) ==> b2.contains(k),
    ensures
        exists|x: Seq<bool>| selects_within(x, t + 1, b2, j) && x[j] && #[trigger] kills(m, x, t + 1),
{
    let x = choose|x: Seq<bool>| selects_within(x, t, tree, j) && x[j] && #[trigger] kills(m, x, t);
    assert(selects_within(x, t, tree, j) && x[j] && kills(m, x, t));
    let x2 = x.push(false);
    assert(x2.take(t as int) =~= x);
    assert forall|v: int| 0 <= v < m.len() implies !#[trigger] dot(m[v], x2, t + 1) by {
        lemma_dot_last(m[v], x2, t);
        assert(!dot(m[v], x, t));
    }
    assert(kills(m, x2, t + 1));
    assert forall|k: int| 0 <= k < t + 1 && #[trigger] x2[k] implies (k == j || b2.contains(k)) by {
        assert(x[k]);
        if k != j {
            assert(tree.contains(k));
        }
    }
    assert(selects_within(x2, t + 1, b2, j));
}

/// Extending a basis of the first `t` columns of the incidence matrix by edge
/// `t`, whose ends are `a` and `b`: when the first `t` edges do not connect its
/// ends, the basis with `t` added is a basis of the first `t + 1` columns; when
/// they do, the basis itself is.
pub proof fn lemma_tree_step(es: Seq<u64>, t: nat, tree: Seq<int>, a: int, b: int)
    requires
        t < es.len(),
        all_edges(es, es.len() as int),
        edge_between(es[t as int], a, b),
        is_column_basis(incidence(es), t, tree),
    ensures
        !connected(es.take(t as int), a, b) ==> is_column_basis(incidence(es), t + 1, tree.push(t as int)),
        connected(es.take(t as int), a, b) ==> is_column_basis(incidence(es), t + 1, tree),
{
    let m = incidence(es);
    let ti = t as int;
    assert(all_edges(es, t as int));
    assert forall|v: int| 0 <= v < 11 implies #[trigger] m[v][ti] == ((v == a) != (v == b)) by {
        assert(has_bit(es[ti], v) == (v == a || v == b));
    }
    assert(!tree.contains(ti)) by {
        if tree.contains(ti) {
            let i = choose|i: int| 0 <= i < tree.len() && tree[i] == ti;
            assert(0 <= tree[i] < t);
        }
    }
    // a killed selection of `t + 1` columns that leaves out column `t` is a killed
    // selection of the first `t`
    assert forall|x: Seq<bool>|
        x.len() == t + 1 && !x[ti] && selects_some(x, t + 1) && (forall|k: int|
            0 <= k < t + 1 && #[trigger] x[k] ==> tree.contains(k)) implies !#[trigger] kills(m, x, t + 1) by {
        let x1 = x.take(ti);
        if kills(m, x, t + 1) {
            assert forall|v: int| 0 <= v < m.len() implies !#[trigger] dot(m[v], x1, t) by {
                lemma_dot_last(m[v], x, t);
                assert(!dot(m[v], x, t + 1));
            }
            let j = choose|j: int| 0 <= j < t + 1 && #[trigger] x[j];
            assert(x1[j]);
            assert(selects_some(x1, t));
            assert(selects_within(x1, t, tree, -1)) by {
                assert forall|k: int| 0 <= k < t && #[trigger] x1[k] implies (k == -1 || tree.contains(k)) by {
                    assert(x[k]);
                }
            }
            assert(!kills(m, x1, t));
        }
    }
    if connected(es.take(ti), a, b) {
        assert forall|x: Seq<bool>| selects_within(x, t + 1, tree, -1) && selects_some(x, t + 1) implies !#[trigger] kills(
            m,
            x,
            t + 1,
        ) by {
            assert(!x[ti]) by {
                if x[ti] {
                    assert(tree.contains(ti));
                }
            }
            assert(forall|k: int| 0 <= k < t + 1 && #[trigger] x[k] ==> tree.contains(k));
        }
        assert forall|j: int| 0 <= j < t + 1 && !tree.contains(j) implies exists|x: Seq<bool>|
            selects_within(x, t + 1, tree, j) && x[j] && #[trigger] kills(m, x, t + 1) by {
            if j < t {
                lemma_extend_spanned(m, t, tree, tree, j);
            } else {
                lemma_connected_joined(es, t, a, b);
                let y = choose|y: Seq<bool>| y.len() == t && #[trigger] joins(es, y, t, a, b);
                lemma_basis_spans(m, t, tree, y);
                let z = choose|z: Seq<bool>|
                    z.len() == t && selects_within(z, t, tree, -1) && forall|r: int|
                        0 <= r < m.len() ==> #[trigger] dot(m[r], z, t) == dot(m[r], y, t);
                let x = z.push(true);
                assert(x.take(ti) =~= z);
                assert forall|v: int| 0 <= v < m.len() implies !#[trigger] dot(m[v], x, t + 1) by {
                    lemma_dot_last(m[v], x, t);
                    assert(dot(m[v], z, t) == dot(m[v], y, t));
                    assert(dot(m[v], y, t) == ((v == a) != (v == b)));
                }
                assert(kills(m, x, t + 1));
                assert forall|k: int| 0 <= k < t + 1 && #[trigger] x[k] implies (k == j || tree.contains(k)) by {
                    if k < t {
                        assert(z[k]);
                    }
                }
                assert(selects_within(x, t + 1, tree, j));
            }
        }
        assert(is_column_basis(m, t + 1, tree));
    } else {
        let tp = tree.push(ti);
        assert(tp.no_duplicates()) by {
            assert forall|i: int, k: int| 0 <= i < tp.len() && 0 <= k < tp.len() && i != k implies tp[i] != tp[k] by {
                if i < tree.len() && k < tree.len() {
                    assert(tree.no_duplicates());
                } else if i < tree.len() {
                    assert(0 <= tree[i] < t);
                } else if k < tree.len() {
                    assert(0 <= tree[k] < t);
                }
            }
        }
        assert forall|x: Seq<bool>| selects_within(x, t + 1, tp, -1) && selects_some(x, t + 1) implies !#[trigger] kills(
            m,
            x,
            t + 1,
        ) by {
            if x[ti] {
                let x1 = x.take(ti);
                if kills(m, x, t + 1) {
                    assert forall|v: int| 0 <= v < 11 implies #[trigger] dot(incidence(es)[v], x1, t) == ((v == a)
                        != (v == b)) by {
                        lemma_dot_last(m[v], x, t);
                        assert(!dot(m[v], x, t + 1));
                    }
                    assert(joins(es, x1, t, a, b));
                    lemma_joined_connected(es, t, x1, a, b);
                }
            } else {
                assert forall|k: int| 0 <= k < t + 1 && #[trigger] x[k] implies tree.contains(k) by {
                    assert(tp.contains(k));
                    let i = choose|i: int| 0 <= i < tp.len() && tp[i] == k;
                    if i < tree.len() {
                        assert(tree[i] == k);
                    }
                }
            }
        }
        assert forall|j: int| 0 <= j < t + 1 && !tp.contains(j) implies exists|x: Seq<bool>|
            selects_within(x, t + 1, tp, j) && x[j] && #[trigger] kills(m, x, t + 1) by {
            assert(j != ti) by {
                assert(tp[tree.len() as int] == ti);
            }
            assert(!tree.contains(j)) by {
                if tree.contains(j) {
                    let i = choose|i: int| 0 <= i < tree.len() && tree[i] == j;
                    assert(tp[i] == j);
                }
            }
            assert forall|k: int| tree.contains(k) implies tp.contains(k) by {
                let i = choose|i: int| 0 <= i < tree.len() && tree[i] == k;
                assert(tp[i] == k);
            }
            lemma_extend_spanned(m, t, tree, tp, j);
        }
        assert forall|i: int| 0 <= i < tp.len() implies 0 <= #[trigger] tp[i] < t + 1 by {
            if i < tree.len() {
                assert(0 <= tree[i] < t);
            }
        }
        assert(is_column_basis(m, t + 1, tp));
    }
}

/// The representatives among all features are those among the vertices and
/// every feature that is not a vertex, which is its own.
pub proof fn lemma_fixed_split(r: spec_fn(int) -> int, verts: u64)
    requires
        forall|y: int| 0 <= y < 11 && !has_bit(verts, y) ==> #[trigger] r(y) == y,
    ensures
        fixed_points(r, |y: int| true, 11).len() == fixed_points(r, |y: int| has_bit(verts, y), 11).len() + (11
            - count_bits(verts, 11)),
        fixed_points(r, |y: int| has_bit(verts, y), 11).len() <= count_bits(verts, 11),
{
    let range = set_int_range(0, 11);
    vstd::set_lib::lemma_int_range(0, 11);
    lemma_count_bits_set(verts, 11);
    let vs = bit_set(verts);
    let fa = fixed_points(r, |y: int| true, 11);
    let fv = fixed_points(r, |y: int| has_bit(verts, y), 11);
    let others = range.difference(vs);
    assert(vs.subset_of(range));
    assert(range.intersect(vs) =~= vs);
    assert(others.len() == 11 - vs.len());
    assert(fa =~= fv + others);
    assert(fv.disjoint(others));
    vstd::set_lib::lemma_set_disjoint_lens(fv, others);
    assert(fv.subset_of(vs));
    vstd::set_lib::lemma_len_subset(fv, vs);
}

/// With every feature its own representative, all are representatives.
pub proof fn lemma_fixed_identity(r: spec_fn(int) -> int)
    requires
        forall|y: int| 0 <= y < 11 ==> #[trigger] r(y) == y,
    ensures
        fixed_points(r, |y: int| true, 11).len() == 11,
        fixed_points(r, |y: int| true, 11).finite(),
{
    vstd::set_lib::lemma_int_range(0, 11);
    assert(fixed_points(r, |y: int| true, 11) =~= set_int_range(0, 11));
}

/// The empty selection is a basis of no columns.
pub proof fn lemma_empty_basis(m: Seq<Seq<bool>>)
    ensures
        is_column_basis(m, 0, Seq::<int>::empty()),
{
}

} // verus!
