//! Rank of boolean matrices over the two-element field GF(2).
//!
//! A matrix is a sequence of rows; a vector `x` over the columns selects a set
//! of columns, and the matrix "kills" `x` when the selected columns sum to
//! zero (every row has an even number of selected ones). The rank is the size
//! of a column basis: a set of columns that is independent (no nonempty
//! selection of them sums to zero) and spans every other column (each other
//! column is the sum of some of them).

use vstd::prelude::*;

verus! {

/// Sum over GF(2) of `row[t] * x[t]` for `t < n`.
pub open spec fn dot(row: Seq<bool>, x: Seq<bool>, n: nat) -> bool
    decreases n,
{
    if n == 0 {
        false
    } else {
        dot(row, x, (n - 1) as nat) != (row[n - 1] && x[n - 1])
    }
}

/// The columns selected by `x` sum to zero in every row of `m`.
pub open spec fn kills(m: Seq<Seq<bool>>, x: Seq<bool>, cols: nat) -> bool {
    forall|r: int| 0 <= r < m.len() ==> !#[trigger] dot(m[r], x, cols)
}

/// `x` selects only columns in `b`, or the column `extra`.
pub open spec fn selects_within(x: Seq<bool>, cols: nat, b: Seq<int>, extra: int) -> bool {
    &&& x.len() == cols
    &&& forall|j: int| 0 <= j < cols && #[trigger] x[j] ==> (j == extra || b.contains(j))
}

/// `x` selects at least one column.
pub open spec fn selects_some(x: Seq<bool>, cols: nat) -> bool {
    exists|j: int| 0 <= j < cols && #[trigger] x[j]
}

/// `b` is a set of column indices of `m` that is independent and spans all columns.
pub open spec fn is_column_basis(m: Seq<Seq<bool>>, cols: nat, b: Seq<int>) -> bool {
    &&& b.no_duplicates()
    &&& forall|i: int| 0 <= i < b.len() ==> 0 <= #[trigger] b[i] < cols
    &&& forall|x: Seq<bool>|
        selects_within(x, cols, b, -1) && selects_some(x, cols) ==> !#[trigger] kills(m, x, cols)
    &&& forall|j: int|
        0 <= j < cols && !b.contains(j) ==> exists|x: Seq<bool>|
            selects_within(x, cols, b, j) && x[j] && #[trigger] kills(m, x, cols)
}

/// `r` is the rank over GF(2) of the first `cols` columns of `m`: the size of a column basis.
pub open spec fn is_gf2_rank(m: Seq<Seq<bool>>, cols: nat, r: nat) -> bool {
    exists|b: Seq<int>| is_column_basis(m, cols, b) && b.len() == r
}

/// The rows of a matrix as sequences.
pub open spec fn rows_view(m: Seq<Vec<bool>>) -> Seq<Seq<bool>> {
    m.map_values(|r: Vec<bool>| r@)
}

/// The rows view of a matrix, entry by entry.
proof fn lemma_rows_view(m: Seq<Vec<bool>>)
    ensures
        rows_view(m).len() == m.len(),
        forall|s: int| #![trigger rows_view(m)[s]] #![trigger m[s]] 0 <= s < m.len() ==> rows_view(m)[s] == m[s]@,
{
}

pub(crate) proof fn lemma_dot_ext(r1: Seq<bool>, r2: Seq<bool>, x: Seq<bool>, n: nat)
    requires
        forall|t: int| 0 <= t < n ==> r1[t] == r2[t],
    ensures
        dot(r1, x, n) == dot(r2, x, n),
    decreases n,
{
    if n > 0 {
        lemma_dot_ext(r1, r2, x, (n - 1) as nat);
    }
}

pub(crate) proof fn lemma_dot_xor(r: Seq<bool>, p: Seq<bool>, q: Seq<bool>, x: Seq<bool>, n: nat)
    requires
        forall|t: int| 0 <= t < n ==> q[t] == (r[t] != p[t]),
    ensures
        dot(q, x, n) == (dot(r, x, n) != dot(p, x, n)),
    decreases n,
{
    if n > 0 {
        lemma_dot_xor(r, p, q, x, (n - 1) as nat);
    }
}

pub proof fn lemma_dot_none(r: Seq<bool>, x: Seq<bool>, n: nat)
    requires
        forall|t: int| 0 <= t < n ==> !(r[t] && x[t]),
    ensures
        !dot(r, x, n),
    decreases n,
{
    if n > 0 {
        lemma_dot_none(r, x, (n - 1) as nat);
    }
}

pub(crate) proof fn lemma_dot_one(r: Seq<bool>, x: Seq<bool>, n: nat, c: int)
    requires
        0 <= c < n,
        forall|t: int| 0 <= t < n ==> ((r[t] && x[t]) <==> t == c),
    ensures
        dot(r, x, n),
    decreases n,
{
    if n - 1 == c {
        lemma_dot_none(r, x, (n - 1) as nat);
    } else {
        lemma_dot_one(r, x, (n - 1) as nat, c);
    }
}

pub proof fn lemma_dot_two(r: Seq<bool>, x: Seq<bool>, n: nat, c1: int, c2: int)
    requires
        0 <= c1 < n,
        0 <= c2 < n,
        c1 != c2,
        forall|t: int| 0 <= t < n ==> ((r[t] && x[t]) <==> (t == c1 || t == c2)),
    ensures
        !dot(r, x, n),
    decreases n,
{
    if n - 1 == c1 {
        lemma_dot_one(r, x, (n - 1) as nat, c2);
    } else if n - 1 == c2 {
        lemma_dot_one(r, x, (n - 1) as nat, c1);
    } else {
        lemma_dot_two(r, x, (n - 1) as nat, c1, c2);
    }
}

/// Exchanging two rows does not change which selections are killed.
proof fn lemma_swap_kills(m: Seq<Seq<bool>>, a: int, b: int, x: Seq<bool>, cols: nat)
    requires
        0 <= a < m.len(),
        0 <= b < m.len(),
    ensures
        kills(m.update(a, m[b]).update(b, m[a]), x, cols) == kills(m, x, cols),
{
    let m2 = m.update(a, m[b]).update(b, m[a]);
    if kills(m, x, cols) {
        assert forall|r: int| 0 <= r < m2.len() implies !#[trigger] dot(m2[r], x, cols) by {
            if r == a {
                assert(!dot(m[b], x, cols));
            } else if r == b {
                assert(!dot(m[a], x, cols));
            } else {
                assert(!dot(m[r], x, cols));
            }
        }
    }
    if kills(m2, x, cols) {
        assert forall|r: int| 0 <= r < m.len() implies !#[trigger] dot(m[r], x, cols) by {
            if r == a {
                assert(!dot(m2[b], x, cols));
            } else if r == b {
                assert(!dot(m2[a], x, cols));
            } else {
                assert(!dot(m2[r], x, cols));
            }
        }
    }
}

/// Adding row `p` to row `r` does not change which selections are killed.
proof fn lemma_add_kills(m: Seq<Seq<bool>>, r: int, p: int, q: Seq<bool>, x: Seq<bool>, cols: nat)
    requires
        0 <= r < m.len(),
        0 <= p < m.len(),
        r != p,
        forall|t: int| 0 <= t < cols ==> q[t] == (m[r][t] != m[p][t]),
    ensures
        kills(m.update(r, q), x, cols) == kills(m, x, cols),
{
    let m2 = m.update(r, q);
    lemma_dot_xor(m[r], m[p], q, x, cols);
    if kills(m, x, cols) {
        assert forall|s: int| 0 <= s < m2.len() implies !#[trigger] dot(m2[s], x, cols) by {
            if s == r {
                assert(!dot(m[r], x, cols));
                assert(!dot(m[p], x, cols));
            } else {
                assert(!dot(m[s], x, cols));
            }
        }
    }
    if kills(m2, x, cols) {
        assert forall|s: int| 0 <= s < m.len() implies !#[trigger] dot(m[s], x, cols) by {
            if s == r {
                assert(!dot(m2[r], x, cols));
                assert(!dot(m2[p], x, cols));
            } else {
                assert(!dot(m2[s], x, cols));
            }
        }
    }
}

/// Reduced echelon structure of a partly eliminated matrix: `piv[i]` is the pivot
/// column of row `i`, it holds the only one of its column, and the rows below the
/// pivots are zero in the first `col` columns.
pub open spec fn echelon(w: Seq<Seq<bool>>, piv: Seq<int>, col: nat, cols: nat) -> bool {
    &&& piv.len() <= w.len()
    &&& forall|i: int, j: int| 0 <= i < j < piv.len() ==> piv[i] < piv[j]
    &&& forall|i: int| 0 <= i < piv.len() ==> 0 <= #[trigger] piv[i] < col
    &&& forall|i: int, s: int|
        0 <= i < piv.len() && 0 <= s < w.len() ==> (#[trigger] w[s][piv[i]] <==> s == i)
    &&& forall|s: int, c: int| piv.len() <= s < w.len() && 0 <= c < col ==> !#[trigger] w[s][c]
}

/// A fully eliminated matrix has its pivot columns as a column basis.
proof fn lemma_echelon_basis(w: Seq<Seq<bool>>, piv: Seq<int>, cols: nat)
    requires
        echelon(w, piv, cols, cols),
    ensures
        is_column_basis(w, cols, piv),
{
    let rank = piv.len();
    assert(piv.no_duplicates()) by {
        assert forall|i: int, j: int| 0 <= i < piv.len() && 0 <= j < piv.len() && i != j
            implies piv[i] != piv[j] by {
            if i < j {
                assert(piv[i] < piv[j]);
            } else {
                assert(piv[j] < piv[i]);
            }
        }
    }
    assert forall|x: Seq<bool>|
        selects_within(x, cols, piv, -1) && selects_some(x, cols) implies !#[trigger] kills(
        w,
        x,
        cols,
    ) by {
        let j0 = choose|j: int| 0 <= j < cols && #[trigger] x[j];
        assert(x[j0]);
        assert(piv.contains(j0));
        let i = choose|i: int| 0 <= i < piv.len() && piv[i] == j0;
        assert forall|t: int| 0 <= t < cols implies ((w[i][t] && x[t]) <==> t == j0) by {
            if w[i][t] && x[t] {
                assert(piv.contains(t));
                let i2 = choose|i2: int| 0 <= i2 < piv.len() && piv[i2] == t;
                assert(w[i][piv[i2]]);
            }
            if t == j0 {
                assert(w[i][piv[i]]);
            }
        }
        lemma_dot_one(w[i], x, cols, j0);
        assert(dot(w[i], x, cols));
    }
    assert forall|j: int| 0 <= j < cols && !piv.contains(j) implies exists|x: Seq<bool>|
        selects_within(x, cols, piv, j) && x[j] && #[trigger] kills(w, x, cols) by {
        let x = Seq::new(
            cols,
            |t: int| t == j || exists|i: int| 0 <= i < rank && piv[i] == t && w[i][j],
        );
        assert forall|t: int| 0 <= t < cols && #[trigger] x[t] implies (t == j || piv.contains(
            t,
        )) by {
            if t != j {
                let i = choose|i: int| 0 <= i < rank && piv[i] == t && w[i][j];
                assert(piv[i] == t);
            }
        }
        assert(selects_within(x, cols, piv, j));
        assert forall|r: int| 0 <= r < w.len() implies !#[trigger] dot(w[r], x, cols) by {
            if r < rank {
                assert(piv[r] != j) by {
                    assert(!piv.contains(j));
                }
                assert(w[r][piv[r]]);
                if w[r][j] {
                    assert forall|t: int| 0 <= t < cols implies ((w[r][t] && x[t]) <==> (t == j
                        || t == piv[r])) by {
                        if w[r][t] && x[t] && t != j {
                            let i = choose|i: int| 0 <= i < rank && piv[i] == t && w[i][j];
                            assert(w[r][piv[i]]);
                        }
                        if t == piv[r] {
                            assert(0 <= r < rank && piv[r] == t && w[r][j]);
                        }
                    }
                    lemma_dot_two(w[r], x, cols, j, piv[r]);
                } else {
                    assert forall|t: int| 0 <= t < cols implies !(w[r][t] && x[t]) by {
                        if w[r][t] && x[t] && t != j {
                            let i = choose|i: int| 0 <= i < rank && piv[i] == t && w[i][j];
                            assert(w[r][piv[i]]);
                        }
                    }
                    lemma_dot_none(w[r], x, cols);
                }
            } else {
                assert forall|t: int| 0 <= t < cols implies !(w[r][t] && x[t]) by {
                    assert(!w[r][t]);
                }
                lemma_dot_none(w[r], x, cols);
            }
        }
        assert(kills(w, x, cols));
        assert(x[j]);
    }
}

/// A basis carries over between matrices that kill the same selections.
pub(crate) proof fn lemma_basis_transfer(w: Seq<Seq<bool>>, m: Seq<Seq<bool>>, cols: nat, b: Seq<int>)
    requires
        is_column_basis(w, cols, b),
        forall|x: Seq<bool>| x.len() == cols ==> (#[trigger] kills(w, x, cols) <==> kills(m, x, cols)),
    ensures
        is_column_basis(m, cols, b),
{
    assert forall|x: Seq<bool>|
        selects_within(x, cols, b, -1) && selects_some(x, cols) implies !#[trigger] kills(
        m,
        x,
        cols,
    ) by {
        assert(!kills(w, x, cols));
    }
    assert forall|j: int| 0 <= j < cols && !b.contains(j) implies exists|x: Seq<bool>|
        selects_within(x, cols, b, j) && x[j] && #[trigger] kills(m, x, cols) by {
        let x = choose|x: Seq<bool>| selects_within(x, cols, b, j) && x[j] && #[trigger] kills(w, x, cols);
        assert(kills(m, x, cols));
    }
}

/// `dot` is symmetric in its two vectors.
pub(crate) proof fn lemma_dot_sym(a: Seq<bool>, b: Seq<bool>, n: nat)
    ensures
        dot(a, b, n) == dot(b, a, n),
    decreases n,
{
    if n > 0 {
        lemma_dot_sym(a, b, (n - 1) as nat);
    }
}

/// `dot` adds up over GF(2) in the selection.
pub(crate) proof fn lemma_dot_xor_sel(row: Seq<bool>, x: Seq<bool>, y: Seq<bool>, z: Seq<bool>, n: nat)
    requires
        forall|t: int| 0 <= t < n ==> z[t] == (x[t] != y[t]),
    ensures
        dot(row, z, n) == (dot(row, x, n) != dot(row, y, n)),
{
    lemma_dot_xor(x, y, z, row, n);
    lemma_dot_sym(row, z, n);
    lemma_dot_sym(row, x, n);
    lemma_dot_sym(row, y, n);
}

/// Selections that agree on the first `n` columns have the same `dot`.
pub(crate) proof fn lemma_dot_ext_sel(row: Seq<bool>, x: Seq<bool>, y: Seq<bool>, n: nat)
    requires
        forall|t: int| 0 <= t < n ==> x[t] == y[t],
    ensures
        dot(row, x, n) == dot(row, y, n),
{
    lemma_dot_ext(x, y, row, n);
    lemma_dot_sym(row, x, n);
    lemma_dot_sym(row, y, n);
}

/// The selection of the single column `j` among `n`.
pub open spec fn unit(n: nat, j: int) -> Seq<bool> {
    Seq::new(n, |t: int| t == j)
}

/// Selecting the single column `j` gives the row's entry in it.
pub(crate) proof fn lemma_dot_unit(row: Seq<bool>, n: nat, j: int)
    requires
        0 <= j < n,
    ensures
        dot(row, unit(n, j), n) == row[j],
{
    if row[j] {
        lemma_dot_one(row, unit(n, j), n, j);
    } else {
        lemma_dot_none(row, unit(n, j), n);
    }
}

/// Setting an unselected column `i` to `v` adds `v` times the row's entry.
proof fn lemma_dot_update(row: Seq<bool>, x: Seq<bool>, i: int, v: bool, n: nat)
    requires
        0 <= i < n,
        x.len() == n,
        !x[i],
    ensures
        dot(row, x.update(i, v), n) == (dot(row, x, n) != (v && row[i])),
{
    if v {
        lemma_dot_xor_sel(row, x, unit(n, i), x.update(i, v), n);
        lemma_dot_unit(row, n, i);
    } else {
        lemma_dot_ext_sel(row, x.update(i, v), x, n);
    }
}

/// `x` selects only columns in `s`.
pub open spec fn supported(x: Seq<bool>, n: nat, s: Set<int>) -> bool {
    forall|j: int| 0 <= j < n && #[trigger] x[j] ==> s.contains(j)
}

/// No nonempty selection of the columns of `w` in `s` sums to zero.
pub open spec fn independent_in(w: Seq<Seq<bool>>, n: nat, s: Set<int>) -> bool {
    forall|x: Seq<bool>| x.len() == n && supported(x, n, s) && selects_some(x, n) ==> !#[trigger] kills(w, x, n)
}

/// Column `j` of `w` is the sum of the first `nu` columns of `u` selected by `c`.
pub open spec fn column_is_sum(w: Seq<Seq<bool>>, j: int, u: Seq<Seq<bool>>, c: Seq<bool>, nu: nat) -> bool {
    forall|r: int| 0 <= r < w.len() ==> w[r][j] == #[trigger] dot(u[r], c, nu)
}

/// Steinitz exchange over GF(2): independent columns of `w` (those in `s`),
/// each a sum of columns of `u` in `t`, are no more than the columns in `t`.
pub(crate) proof fn lemma_exchange(
    u: Seq<Seq<bool>>,
    nu: nat,
    t: Set<int>,
    w: Seq<Seq<bool>>,
    n: nat,
    s: Set<int>,
    coef: Seq<Seq<bool>>,
)
    requires
        u.len() == w.len(),
        t.finite(),
        s.finite(),
        forall|j: int| #[trigger] s.contains(j) ==> 0 <= j < n,
        forall|j: int|
            #[trigger] s.contains(j) ==> supported(coef[j], nu, t) && column_is_sum(w, j, u, coef[j], nu),
        independent_in(w, n, s),
    ensures
        s.len() <= t.len(),
    decreases t.len(),
{
    if s.len() == 0 {
        return;
    }
    if t.len() == 0 {
        let j = s.choose();
        assert(s.contains(j));
        assert forall|r: int| 0 <= r < w.len() implies !#[trigger] w[r][j] by {
            assert(column_is_sum(w, j, u, coef[j], nu));
            assert(w[r][j] == dot(u[r], coef[j], nu));
            assert forall|q: int| 0 <= q < nu implies !(u[r][q] && coef[j][q]) by {
                if coef[j][q] {
                    assert(t.contains(q));
                }
            }
            lemma_dot_none(u[r], coef[j], nu);
        }
        let x = unit(n, j);
        assert forall|r: int| 0 <= r < w.len() implies !#[trigger] dot(w[r], x, n) by {
            lemma_dot_unit(w[r], n, j);
        }
        assert(kills(w, x, n));
        assert(supported(x, n, s));
        assert(x[j]);
        assert(selects_some(x, n));
        assert(false);
    } else {
        let t0 = t.choose();
        assert(t.contains(t0));
        let t1 = t.remove(t0);
        if forall|j: int| #[trigger] s.contains(j) ==> !coef[j][t0] {
            assert forall|j: int| #[trigger] s.contains(j) implies supported(coef[j], nu, t1) && column_is_sum(
                w,
                j,
                u,
                coef[j],
                nu,
            ) by {
                assert(supported(coef[j], nu, t));
            }
            lemma_exchange(u, nu, t1, w, n, s, coef);
        } else {
            let i0 = choose|j: int| #[trigger] s.contains(j) && coef[j][t0];
            assert(s.contains(i0) && coef[i0][t0]);
            let s1 = s.remove(i0);
            let w1 = Seq::new(
                w.len(),
                |r: int| Seq::new(n, |j: int| w[r][j] != (coef[j][t0] && w[r][i0])),
            );
            let coef1 = Seq::new(
                n,
                |j: int| Seq::new(nu, |q: int| coef[j][q] != (coef[j][t0] && coef[i0][q])),
            );
            assert(supported(coef[i0], nu, t) && column_is_sum(w, i0, u, coef[i0], nu));
            assert forall|j: int| #[trigger] s1.contains(j) implies supported(coef1[j], nu, t1)
                && column_is_sum(w1, j, u, coef1[j], nu) by {
                assert(s.contains(j));
                assert(supported(coef[j], nu, t) && column_is_sum(w, j, u, coef[j], nu));
                assert forall|q: int| 0 <= q < nu && #[trigger] coef1[j][q] implies t1.contains(q) by {
                    if coef[j][q] {
                        assert(t.contains(q));
                    } else {
                        assert(coef[i0][q]);
                        assert(t.contains(q));
                    }
                }
                assert forall|r: int| 0 <= r < w1.len() implies w1[r][j] == #[trigger] dot(
                    u[r],
                    coef1[j],
                    nu,
                ) by {
                    assert(w[r][j] == dot(u[r], coef[j], nu));
                    assert(w[r][i0] == dot(u[r], coef[i0], nu));
                    if coef[j][t0] {
                        lemma_dot_xor_sel(u[r], coef[j], coef[i0], coef1[j], nu);
                    } else {
                        lemma_dot_ext_sel(u[r], coef1[j], coef[j], nu);
                    }
                }
            }
            let cvec = Seq::new(n, |j: int| coef[j][t0]);
            assert forall|x: Seq<bool>| x.len() == n && supported(x, n, s1) && selects_some(x, n) implies !#[trigger] kills(
                w1,
                x,
                n,
            ) by {
                if kills(w1, x, n) {
                    assert(!x[i0]) by {
                        if x[i0] {
                            assert(s1.contains(i0));
                        }
                    }
                    let sb = dot(cvec, x, n);
                    let x2 = x.update(i0, sb);
                    assert forall|r: int| 0 <= r < w.len() implies !#[trigger] dot(w[r], x2, n) by {
                        let v = Seq::new(n, |j: int| coef[j][t0] && w[r][i0]);
                        lemma_dot_xor(w[r], v, w1[r], x, n);
                        if w[r][i0] {
                            lemma_dot_ext(v, cvec, x, n);
                        } else {
                            lemma_dot_none(v, x, n);
                        }
                        lemma_dot_update(w[r], x, i0, sb, n);
                        assert(!dot(w1[r], x, n));
                    }
                    assert(kills(w, x2, n));
                    assert(supported(x2, n, s)) by {
                        assert forall|j: int| 0 <= j < n && #[trigger] x2[j] implies s.contains(j) by {
                            if j != i0 {
                                assert(x[j]);
                                assert(s1.contains(j));
                            }
                        }
                    }
                    let j1 = choose|j: int| 0 <= j < n && #[trigger] x[j];
                    assert(j1 != i0);
                    assert(x2[j1]);
                    assert(selects_some(x2, n));
                    assert(x2.len() == n);
                }
            }
            lemma_exchange(u, nu, t1, w1, n, s1, coef1);
        }
    }
}

/// A column basis has no more columns than any other: its columns are
/// independent and each is a sum of the other basis's columns.
proof fn lemma_basis_size_bound(m: Seq<Seq<bool>>, cols: nat, b1: Seq<int>, b2: Seq<int>)
    requires
        is_column_basis(m, cols, b1),
        is_column_basis(m, cols, b2),
    ensures
        b2.len() <= b1.len(),
{
    broadcast use vstd::seq_lib::seq_to_set_is_finite;
    let t = b1.to_set();
    let s = b2.to_set();
    let coef = lemma_column_coefs(m, cols, b1);
    assert forall|j: int| #[trigger] s.contains(j) implies 0 <= j < cols by {
        let i = choose|i: int| 0 <= i < b2.len() && b2[i] == j;
        assert(0 <= b2[i] < cols);
    }
    assert forall|j: int| #[trigger] s.contains(j) implies supported(coef[j], cols, t) && column_is_sum(
        m,
        j,
        m,
        coef[j],
        cols,
    ) by {
        assert(0 <= j < cols);
    }
    assert forall|x: Seq<bool>| x.len() == cols && supported(x, cols, s) && selects_some(x, cols) implies !#[trigger] kills(
        m,
        x,
        cols,
    ) by {
        assert forall|j: int| 0 <= j < cols && #[trigger] x[j] implies (j == -1 || b2.contains(j)) by {
            assert(s.contains(j));
        }
        assert(selects_within(x, cols, b2, -1));
    }
    lemma_exchange(m, cols, t, m, cols, s, coef);
    b1.unique_seq_to_set();
    b2.unique_seq_to_set();
}

/// The rank over GF(2) is well defined: all column bases have the same size.
pub proof fn lemma_rank_unique(m: Seq<Seq<bool>>, cols: nat, r1: nat, r2: nat)
    requires
        is_gf2_rank(m, cols, r1),
        is_gf2_rank(m, cols, r2),
    ensures
        r1 == r2,
{
    let b1 = choose|b: Seq<int>| is_column_basis(m, cols, b) && b.len() == r1;
    let b2 = choose|b: Seq<int>| is_column_basis(m, cols, b) && b.len() == r2;
    lemma_basis_size_bound(m, cols, b1, b2);
    lemma_basis_size_bound(m, cols, b2, b1);
}

/// Two matrices that kill the same selections of columns have the same column
/// bases.
proof fn lemma_same_kills(m1: Seq<Seq<bool>>, m2: Seq<Seq<bool>>, cols: nat)
    requires
        forall|x: Seq<bool>| #[trigger] kills(m1, x, cols) <==> kills(m2, x, cols),
    ensures
        forall|b: Seq<int>| #[trigger] is_column_basis(m1, cols, b) <==> is_column_basis(m2, cols, b),
        forall|r: nat| #[trigger] is_gf2_rank(m1, cols, r) <==> is_gf2_rank(m2, cols, r),
{
    assert forall|b: Seq<int>| #[trigger] is_column_basis(m1, cols, b) <==> is_column_basis(m2, cols, b) by {
        if is_column_basis(m1, cols, b) {
            assert forall|x: Seq<bool>|
                selects_within(x, cols, b, -1) && selects_some(x, cols) implies !#[trigger] kills(m2, x, cols) by {
                assert(!kills(m1, x, cols));
            }
            assert forall|j: int| 0 <= j < cols && !b.contains(j) implies exists|x: Seq<bool>|
                selects_within(x, cols, b, j) && x[j] && #[trigger] kills(m2, x, cols) by {
                let x = choose|x: Seq<bool>| selects_within(x, cols, b, j) && x[j] && #[trigger] kills(m1, x, cols);
                assert(kills(m2, x, cols));
            }
        }
        if is_column_basis(m2, cols, b) {
            assert forall|x: Seq<bool>|
                selects_within(x, cols, b, -1) && selects_some(x, cols) implies !#[trigger] kills(m1, x, cols) by {
                assert(!kills(m2, x, cols));
            }
            assert forall|j: int| 0 <= j < cols && !b.contains(j) implies exists|x: Seq<bool>|
                selects_within(x, cols, b, j) && x[j] && #[trigger] kills(m1, x, cols) by {
                let x = choose|x: Seq<bool>| selects_within(x, cols, b, j) && x[j] && #[trigger] kills(m2, x, cols);
                assert(kills(m1, x, cols));
            }
        }
    }
    assert forall|r: nat| #[trigger] is_gf2_rank(m1, cols, r) <==> is_gf2_rank(m2, cols, r) by {
        if is_gf2_rank(m1, cols, r) {
            let b = choose|b: Seq<int>| is_column_basis(m1, cols, b) && b.len() == r;
            assert(is_column_basis(m2, cols, b));
        }
        if is_gf2_rank(m2, cols, r) {
            let b = choose|b: Seq<int>| is_column_basis(m2, cols, b) && b.len() == r;
            assert(is_column_basis(m1, cols, b));
        }
    }
}

/// The rank over GF(2) depends only on which rows the matrix has: reordering
/// the rows, or repeating one, leaves it unchanged.
pub proof fn lemma_rank_same_rows(m1: Seq<Seq<bool>>, m2: Seq<Seq<bool>>, cols: nat, r: nat)
    requires
        forall|i: int| 0 <= i < m1.len() ==> m2.contains(#[trigger] m1[i]),
        forall|j: int| 0 <= j < m2.len() ==> m1.contains(#[trigger] m2[j]),
    ensures
        is_gf2_rank(m1, cols, r) <==> is_gf2_rank(m2, cols, r),
{
    assert forall|x: Seq<bool>| #[trigger] kills(m1, x, cols) <==> kills(m2, x, cols) by {
        if kills(m1, x, cols) {
            assert forall|j: int| 0 <= j < m2.len() implies !#[trigger] dot(m2[j], x, cols) by {
                assert(m1.contains(m2[j]));
                let i = choose|i: int| 0 <= i < m1.len() && m1[i] == m2[j];
                assert(!dot(m1[i], x, cols));
            }
        }
        if kills(m2, x, cols) {
            assert forall|i: int| 0 <= i < m1.len() implies !#[trigger] dot(m1[i], x, cols) by {
                assert(m2.contains(m1[i]));
                let j = choose|j: int| 0 <= j < m2.len() && m2[j] == m1[i];
                assert(!dot(m2[j], x, cols));
            }
        }
    }
    lemma_same_kills(m1, m2, cols);
}

/// The `rows` by `cols` matrix `m` with rows and columns exchanged.
pub open spec fn transpose(m: Seq<Seq<bool>>, rows: nat, cols: nat) -> Seq<Seq<bool>> {
    Seq::new(cols, |c: int| Seq::new(rows, |j: int| m[j][c]))
}

/// `dot` only looks at the selected entries.
proof fn lemma_dot_ext_on(r1: Seq<bool>, r2: Seq<bool>, x: Seq<bool>, n: nat)
    requires
        forall|t: int| 0 <= t < n ==> (r1[t] && x[t]) == (r2[t] && x[t]),
    ensures
        dot(r1, x, n) == dot(r2, x, n),
    decreases n,
{
    if n > 0 {
        lemma_dot_ext_on(r1, r2, x, (n - 1) as nat);
    }
}

/// With a column basis `b`, each column of `m` is the sum of the basis columns
/// that a coefficient vector selects.
proof fn lemma_column_coefs(m: Seq<Seq<bool>>, cols: nat, b: Seq<int>) -> (coef: Seq<Seq<bool>>)
    requires
        is_column_basis(m, cols, b),
    ensures
        coef.len() == cols,
        forall|c: int|
            0 <= c < cols ==> supported(#[trigger] coef[c], cols, b.to_set()) && column_is_sum(m, c, m, coef[c], cols),
{
    let coef = Seq::new(
        cols,
        |j: int|
            if b.contains(j) {
                unit(cols, j)
            } else {
                (choose|x: Seq<bool>| selects_within(x, cols, b, j) && x[j] && #[trigger] kills(m, x, cols)).update(
                    j,
                    false,
                )
            },
    );
    let t = b.to_set();
    assert forall|j: int| 0 <= j < cols implies supported(#[trigger] coef[j], cols, t) && column_is_sum(m, j, m, coef[j], cols) by {
        if b.contains(j) {
            assert forall|q: int| 0 <= q < cols && #[trigger] coef[j][q] implies t.contains(q) by {}
            assert forall|r: int| 0 <= r < m.len() implies m[r][j] == #[trigger] dot(m[r], coef[j], cols) by {
                lemma_dot_unit(m[r], cols, j);
            }
        } else {
            let x = choose|x: Seq<bool>| selects_within(x, cols, b, j) && x[j] && #[trigger] kills(m, x, cols);
            assert(selects_within(x, cols, b, j) && x[j] && kills(m, x, cols));
            assert(coef[j] == x.update(j, false));
            assert forall|q: int| 0 <= q < cols && #[trigger] coef[j][q] implies t.contains(q) by {
                assert(x[q]);
                assert(b.contains(q));
            }
            assert forall|r: int| 0 <= r < m.len() implies m[r][j] == #[trigger] dot(m[r], coef[j], cols) by {
                assert(!dot(m[r], x, cols));
                assert(!coef[j][j]);
                lemma_dot_update(m[r], coef[j], j, true, cols);
                assert(coef[j].update(j, true) =~= x);
            }
        }
    }
    coef
}

/// Independent rows are no more than the columns of a column basis.
proof fn lemma_transpose_bound(m: Seq<Seq<bool>>, cols: nat, b: Seq<int>, d: Seq<int>)
    requires
        is_column_basis(m, cols, b),
        is_column_basis(transpose(m, m.len(), cols), m.len(), d),
    ensures
        d.len() <= b.len(),
{
    broadcast use vstd::seq_lib::seq_to_set_is_finite;
    let rows = m.len();
    let tm = transpose(m, rows, cols);
    let coef = lemma_column_coefs(m, cols, b);
    let t = b.to_set();
    let s = d.to_set();
    let sel = Seq::new(rows, |j: int| Seq::new(cols, |q: int| t.contains(q) && m[j][q]));
    assert forall|j: int| #[trigger] s.contains(j) implies 0 <= j < rows by {
        let i = choose|i: int| 0 <= i < d.len() && d[i] == j;
        assert(0 <= d[i] < rows);
    }
    assert forall|j: int| #[trigger] s.contains(j) implies supported(sel[j], cols, t) && column_is_sum(
        tm,
        j,
        coef,
        sel[j],
        cols,
    ) by {
        assert forall|c: int| 0 <= c < tm.len() implies tm[c][j] == #[trigger] dot(coef[c], sel[j], cols) by {
            assert(supported(coef[c], cols, t) && column_is_sum(m, c, m, coef[c], cols));
            assert(m[j][c] == dot(m[j], coef[c], cols));
            lemma_dot_ext_on(m[j], sel[j], coef[c], cols);
            lemma_dot_sym(sel[j], coef[c], cols);
        }
    }
    assert forall|x: Seq<bool>| x.len() == rows && supported(x, rows, s) && selects_some(x, rows) implies !#[trigger] kills(
        tm,
        x,
        rows,
    ) by {
        assert forall|j: int| 0 <= j < rows && #[trigger] x[j] implies (j == -1 || d.contains(j)) by {
            assert(s.contains(j));
        }
        assert(selects_within(x, rows, d, -1));
    }
    lemma_exchange(coef, cols, t, tm, rows, s, sel);
    b.unique_seq_to_set();
    d.unique_seq_to_set();
}

/// The rank over GF(2) is unchanged by exchanging rows and columns: the
/// largest number of independent columns equals that of independent rows.
pub proof fn lemma_rank_transpose(m: Seq<Seq<bool>>, cols: nat, r1: nat, r2: nat)
    requires
        is_gf2_rank(m, cols, r1),
        is_gf2_rank(transpose(m, m.len(), cols), m.len(), r2),
    ensures
        r1 == r2,
{
    let rows = m.len();
    let tm = transpose(m, rows, cols);
    let b = choose|b: Seq<int>| is_column_basis(m, cols, b) && b.len() == r1;
    let d = choose|d: Seq<int>| is_column_basis(tm, rows, d) && d.len() == r2;
    lemma_transpose_bound(m, cols, b, d);
    let back = transpose(tm, cols, rows);
    assert(back.len() == rows);
    assert forall|x: Seq<bool>| #[trigger] kills(back, x, cols) <==> kills(m, x, cols) by {
        assert forall|j: int| 0 <= j < rows implies #[trigger] dot(back[j], x, cols) == dot(m[j], x, cols) by {
            assert forall|c: int| 0 <= c < cols implies back[j][c] == m[j][c] by {}
            lemma_dot_ext(back[j], m[j], x, cols);
        }
        if kills(back, x, cols) {
            assert forall|j: int| 0 <= j < m.len() implies !#[trigger] dot(m[j], x, cols) by {
                assert(!dot(back[j], x, cols));
            }
        }
        if kills(m, x, cols) {
            assert forall|j: int| 0 <= j < back.len() implies !#[trigger] dot(back[j], x, cols) by {
                assert(!dot(m[j], x, cols));
            }
        }
    }
    lemma_same_kills(back, m, cols);
    assert(tm.len() == cols);
    assert(is_column_basis(back, cols, b));
    lemma_transpose_bound(tm, rows, d, b);
}

/// Copy of a row.
fn copy_row(row: &Vec<bool>) -> (r: Vec<bool>)
    ensures
        r@ == row@,
{
    let mut r: Vec<bool> = Vec::new();
    let mut i: usize = 0;
    while i < row.len()
        invariant
            i <= row.len(),
            r@ == row@.subrange(0, i as int),
        decreases row.len() - i,
    {
        r.push(row[i]);
        i += 1;
        assert(r@ =~= row@.subrange(0, i as int));
    }
    assert(r@ =~= row@);
    r
}

/// Adds `pivot` into `row` on the columns `from..to`.
fn add_row_from(row: &mut Vec<bool>, pivot: &Vec<bool>, from: usize, to: usize)
    requires
        from <= to,
        to <= old(row).len(),
        to <= pivot.len(),
    ensures
        final(row).len() == old(row).len(),
        forall|c: int|
            0 <= c < old(row).len() ==> #[trigger] final(row)@[c] == if from <= c < to {
                old(row)@[c] != pivot@[c]
            } else {
                old(row)@[c]
            },
{
    let mut c = from;
    while c < to
        invariant
            from <= c <= to,
            to <= row.len(),
            to <= pivot.len(),
            row.len() == old(row).len(),
            forall|t: int|
                0 <= t < old(row).len() ==> #[trigger] row@[t] == if from <= t < c {
                    old(row)@[t] != pivot@[t]
                } else {
                    old(row)@[t]
                },
        decreases to - c,
    {
        let v = row[c] != pivot[c];
        row.set(c, v);
        c += 1;
    }
}

/// Exchanges two rows of a matrix.
fn swap_rows(m: &mut Vec<Vec<bool>>, a: usize, b: usize)
    requires
        a < old(m).len(),
        b < old(m).len(),
        a != b,
    ensures
        final(m)@ == old(m)@.update(a as int, old(m)@[b as int]).update(b as int, old(m)@[a as int]),
{
    let mut tmp: Vec<bool> = Vec::new();
    m.set_and_swap(a, &mut tmp);
    m.set_and_swap(b, &mut tmp);
    m.set(a, tmp);
    assert(m@ =~= old(m)@.update(a as int, old(m)@[b as int]).update(b as int, old(m)@[a as int]));
}

/// Rank over GF(2) of the first `cols` columns of a boolean matrix, by Gaussian
/// elimination. The rows of `matrix` are the matrix rows; `_rows` is not read.
pub fn gaussian_elimination_rank_z2(matrix: &[Vec<bool>], cols: usize, _rows: usize) -> (rank: usize)
    requires
        forall|r: int| 0 <= r < matrix@.len() ==> #[trigger] matrix@[r].len() >= cols,
    ensures
        is_gf2_rank(rows_view(matrix@), cols as nat, rank as nat),
        rank <= cols,
        rank <= matrix@.len(),
{
    let ghost m = rows_view(matrix@);
    if cols == 0 {
        proof {
            let b = Seq::<int>::empty();
            assert(is_column_basis(m, 0, b) && b.len() == 0);
        }
        return 0;
    }
    let rows = matrix.len();
    let mut work: Vec<Vec<bool>> = Vec::new();
    let mut i: usize = 0;
    while i < rows
        invariant
            i <= rows,
            rows == matrix@.len(),
            m == rows_view(matrix@),
            work@.len() == i,
            forall|s: int| 0 <= s < i ==> #[trigger] work@[s]@ == m[s],
        decreases rows - i,
    {
        work.push(copy_row(&matrix[i]));
        i += 1;
    }
    proof {
        lemma_rows_view(work@);
        lemma_rows_view(matrix@);
    }
    assert(rows_view(work@) =~= m);
    assert forall|s: int| 0 <= s < rows implies #[trigger] work@[s]@.len() >= cols by {
        assert(matrix@[s].len() >= cols);
    }
    let mut rank: usize = 0;
    let mut col: usize = 0;
    let ghost mut piv: Seq<int> = Seq::empty();
    while col < cols && rank < rows
        invariant
            rows == work@.len(),
            rows == m.len(),
            forall|s: int| 0 <= s < rows ==> #[trigger] work@[s]@.len() >= cols,
            rank == piv.len(),
            col <= cols,
            rank <= col,
            echelon(rows_view(work@), piv, col as nat, cols as nat),
            forall|x: Seq<bool>| x.len() == cols ==> (#[trigger] kills(rows_view(work@), x, cols as nat)
                <==> kills(m, x, cols as nat)),
        decreases cols - col,
    {
        let mut r = rank;
        while r < rows && !work[r][col]
            invariant
                rank <= r <= rows,
                rows == work@.len(),
                col < cols,
                forall|s: int| 0 <= s < rows ==> #[trigger] work@[s]@.len() >= cols,
                forall|s: int| rank <= s < r ==> !#[trigger] work@[s]@[col as int],
            decreases rows - r,
        {
            r += 1;
        }
        if r < rows {
            let ghost w_before = rows_view(work@);
            proof { lemma_rows_view(work@); }
            if r != rank {
                swap_rows(&mut work, rank, r);
                proof {
                    assert(rows_view(work@) =~= w_before.update(rank as int, w_before[r as int]).update(
                        r as int,
                        w_before[rank as int],
                    ));
                    assert forall|x: Seq<bool>| x.len() == cols implies (#[trigger] kills(
                        rows_view(work@),
                        x,
                        cols as nat,
                    ) <==> kills(m, x, cols as nat)) by {
                        lemma_swap_kills(w_before, rank as int, r as int, x, cols as nat);
                    }
                }
            }
            let ghost w0 = rows_view(work@);
            proof { lemma_rows_view(work@); }
            assert(w0[rank as int][col as int]);
            assert forall|s: int, c: int| rank <= s < rows && 0 <= c < col implies !#[trigger] w0[s][c] by {
                if s == rank {
                    assert(!w_before[r as int][c]);
                } else if s == r {
                    assert(!w_before[rank as int][c]);
                } else {
                    assert(!w_before[s][c]);
                }
            }
            assert forall|i: int, s: int| 0 <= i < piv.len() && 0 <= s < rows implies (
            #[trigger] w0[s][piv[i]] <==> s == i) by {
                if s == rank {
                    assert(w0[s][piv[i]] == w_before[r as int][piv[i]]);
                } else if s == r {
                    assert(w0[s][piv[i]] == w_before[rank as int][piv[i]]);
                } else {
                    assert(w0[s][piv[i]] == w_before[s][piv[i]]);
                }
            }
            let pivot_row = copy_row(&work[rank]);
            let mut t: usize = 0;
            while t < rows
                invariant
                    t <= rows,
                    rank < rows,
                    col < cols,
                    rows == work@.len(),
                    rows == m.len(),
                    pivot_row@ == w0[rank as int],
                    forall|c: int| 0 <= c < col ==> !#[trigger] w0[rank as int][c],
                    w0.len() == rows,
                    forall|s: int| 0 <= s < rows ==> #[trigger] work@[s]@.len() == w0[s].len(),
                    forall|s: int| 0 <= s < rows ==> #[trigger] w0[s].len() >= cols,
                    forall|s: int, c: int|
                        0 <= s < rows && 0 <= c < w0[s].len() ==> #[trigger] rows_view(work@)[s][c] == if s
                            < t && s != rank && w0[s][col as int] && c < cols {
                            w0[s][c] != w0[rank as int][c]
                        } else {
                            w0[s][c]
                        },
                    forall|x: Seq<bool>| x.len() == cols ==> (#[trigger] kills(
                        rows_view(work@),
                        x,
                        cols as nat,
                    ) <==> kills(m, x, cols as nat)),
                decreases rows - t,
            {
                proof { lemma_rows_view(work@); }
                if t != rank && work[t][col] {
                    let ghost wb = rows_view(work@);
                    let mut row: Vec<bool> = Vec::new();
                    work.set_and_swap(t, &mut row);
                    add_row_from(&mut row, &pivot_row, col, cols);
                    let ghost q = row@;
                    work.set(t, row);
                    proof {
                        lemma_rows_view(work@);
                        assert(rows_view(work@) =~= wb.update(t as int, q));
                        assert(wb[rank as int] =~= w0[rank as int]);
                        assert(wb[t as int] =~= w0[t as int]);
                        assert forall|c: int| 0 <= c < cols implies q[c] == (wb[t as int][c]
                            != wb[rank as int][c]) by {
                            if c < col {
                                assert(!w0[rank as int][c]);
                            }
                        }
                        assert forall|x: Seq<bool>| x.len() == cols implies (#[trigger] kills(
                            rows_view(work@),
                            x,
                            cols as nat,
                        ) <==> kills(m, x, cols as nat)) by {
                            lemma_add_kills(wb, t as int, rank as int, q, x, cols as nat);
                        }
                        assert forall|s: int, c: int|
                            0 <= s < rows && 0 <= c < w0[s].len() implies #[trigger] rows_view(
                            work@,
                        )[s][c] == if s < t + 1 && s != rank && w0[s][col as int] && c < cols {
                            w0[s][c] != w0[rank as int][c]
                        } else {
                            w0[s][c]
                        } by {
                            if s == t {
                                if c < col {
                                    assert(!w0[rank as int][c]);
                                }
                            }
                        }
                    }
                }
                t += 1;
            }
            proof {
                lemma_rows_view(work@);
                let w1 = rows_view(work@);
                let piv1 = piv.push(col as int);
                assert forall|i: int, s: int| 0 <= i < piv1.len() && 0 <= s < rows implies (
                #[trigger] w1[s][piv1[i]] <==> s == i) by {
                    if i < piv.len() {
                        assert(piv1[i] == piv[i]);
                        assert(!w0[rank as int][piv[i]]);
                        assert(w0[s][piv[i]] <==> s == i);
                    } else {
                        assert(piv1[i] == col);
                    }
                }
                assert forall|s: int, c: int| piv1.len() <= s < rows && 0 <= c < col + 1 implies !#[trigger] w1[s][c] by {
                    if c < col {
                        assert(!w0[s][c]);
                        assert(!w0[rank as int][c]);
                    }
                }
                assert forall|i: int, j: int| 0 <= i < j < piv1.len() implies piv1[i] < piv1[j] by {
                    if j == piv.len() {
                        assert(piv[i] < col);
                    }
                }
                assert(echelon(w1, piv1, (col + 1) as nat, cols as nat));
                piv = piv1;
            }
            rank += 1;
        } else {
            proof {
                lemma_rows_view(work@);
                let w1 = rows_view(work@);
                assert forall|s: int, c: int| piv.len() <= s < rows && 0 <= c < col + 1 implies !#[trigger] w1[s][c] by {
                    if c == col {
                        assert(!work@[s]@[col as int]);
                    }
                }
                assert(echelon(w1, piv, (col + 1) as nat, cols as nat));
            }
        }
        col += 1;
    }
    proof {
        let w = rows_view(work@);
        assert(echelon(w, piv, cols as nat, cols as nat)) by {
            if col < cols {
                assert(rank == rows);
            }
        }
        lemma_echelon_basis(w, piv, cols as nat);
        lemma_basis_transfer(w, m, cols as nat, piv);
    }
    rank
}

} // verus!
