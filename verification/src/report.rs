//! The coverage report: Betti numbers, known and missing feature combinations,
//! and a human-readable summary.

use vstd::prelude::*;
use crate::feature::{DocumentFeature, label_of, all_features, lex_lt};
use crate::complex::{
    has_bit, is_submask, covered, lemma_set_bit, lemma_submask_bit,
    lemma_submask_by_bits, MASK_SPACE,
};
use crate::feature_space::{DocumentFeatureSpace, alpha_labels, alpha_mask_features, strings_view,
    alphabetical_features_of, labels_of,
};
use crate::complex::{is_betti_sequence, lemma_betti_unique};
use crate::sorted::lemma_sorted_unique;

verus! {

/// `idx` lists 2 or 3 strictly increasing positions below `n`.
pub open spec fn is_index_tuple(n: int, idx: Seq<int>) -> bool {
    &&& idx.len() == 2 || idx.len() == 3
    &&& forall|e: int| 0 <= e < idx.len() ==> 0 <= #[trigger] idx[e] < n
    &&& forall|e: int, f: int| 0 <= e < f < idx.len() ==> idx[e] < idx[f]
}

/// Some document holds every feature `l[idx[e]]`.
pub open spec fn tuple_covered(masks: Seq<u64>, l: Seq<DocumentFeature>, idx: Seq<int>) -> bool {
    exists|d: int|
        0 <= d < masks.len() && forall|e: int|
            0 <= e < idx.len() ==> has_bit(#[trigger] masks[d], l[idx[e]].ordinal())
}

/// The mask holds every one of the features.
pub open spec fn holds_all(m: u64, fs: Seq<DocumentFeature>) -> bool {
    forall|e: int| 0 <= e < fs.len() ==> has_bit(m, #[trigger] fs[e].ordinal())
}

/// Some document holds every one of the features.
pub open spec fn some_doc_holds(masks: Seq<u64>, fs: Seq<DocumentFeature>) -> bool {
    exists|d: int| 0 <= d < masks.len() && holds_all(#[trigger] masks[d], fs)
}

/// `idx` picks 2 or 3 features of `l` that no document holds together.
pub open spec fn is_missing_tuple(masks: Seq<u64>, l: Seq<DocumentFeature>, idx: Seq<int>) -> bool {
    is_index_tuple(l.len() as int, idx) && !tuple_covered(masks, l, idx)
}

/// Order of combinations: smaller ones first, then lexicographic by position.
pub open spec fn combination_lt(a: Seq<int>, b: Seq<int>) -> bool {
    ||| a.len() < b.len()
    ||| a.len() == b.len() && (a[0] < b[0] || (a[0] == b[0] && (a[1] < b[1] || (a[1] == b[1]
        && a.len() == 3 && a[2] < b[2]))))
}

/// `tuples` lists, in increasing combination order, exactly the missing
/// combinations of the features `l`.
pub open spec fn missing_tuples_ok(masks: Seq<u64>, l: Seq<DocumentFeature>, tuples: Seq<Seq<int>>) -> bool {
    &&& forall|t: int| 0 <= t < tuples.len() ==> is_missing_tuple(masks, l, #[trigger] tuples[t])
    &&& forall|idx: Seq<int>| #[trigger] is_missing_tuple(masks, l, idx) ==> tuples.contains(idx)
    &&& forall|a: int, b: int| 0 <= a < b < tuples.len() ==> combination_lt(tuples[a], tuples[b])
}

/// The positions of a list of index vectors.
pub open spec fn tuples_view(v: Seq<Vec<usize>>) -> Seq<Seq<int>> {
    v.map_values(|t: Vec<usize>| t@.map_values(|x: usize| x as int))
}

/// The mask of the given features.
fn mask_of_features(fs: &Vec<DocumentFeature>) -> (m: u64)
    ensures
        m < MASK_SPACE,
        forall|i: int| 0 <= i < 64 ==> #[trigger] has_bit(m, i) == exists|e: int| 0 <= e < fs@.len() && #[trigger] fs@[e].ordinal() == i,
{
    let mut m: u64 = 0;
    let mut e: usize = 0;
    proof {
        crate::complex::lemma_mask_where(|i: int| false, 0);
    }
    while e < fs.len()
        invariant
            e <= fs@.len(),
            m < MASK_SPACE,
            forall|i: int| 0 <= i < 64 ==> #[trigger] has_bit(m, i) == exists|t: int| 0 <= t < e && #[trigger] fs@[t].ordinal() == i,
        decreases fs@.len() - e,
    {
        let i = fs[e].index();
        proof {
            lemma_set_bit(m, i as int);
            assert forall|x: int| 0 <= x < 64 implies #[trigger] has_bit(m | (1u64 << (i as u64)), x) == exists|t: int| 0 <= t < e + 1 && #[trigger] fs@[t].ordinal() == x by {
                if x == i {
                    assert(fs@[e as int].ordinal() == x);
                }
                if exists|t: int| 0 <= t < e + 1 && #[trigger] fs@[t].ordinal() == x {
                    let t = choose|t: int| 0 <= t < e + 1 && #[trigger] fs@[t].ordinal() == x;
                    if t < e {
                        assert(0 <= t < e && fs@[t].ordinal() == x);
                    }
                }
            }
        }
        m = m | (1u64 << (i as u64));
        e += 1;
    }
    m
}

/// Whether some document holds all the given features.
fn features_covered(masks: &Vec<u64>, fs: &Vec<DocumentFeature>) -> (r: bool)
    ensures
        r == some_doc_holds(masks@, fs@),
{
    let m = mask_of_features(fs);
    let r = covered(masks, m);
    proof {
        if r {
            let d = choose|d: int| 0 <= d < masks@.len() && is_submask(m, #[trigger] masks@[d]);
            assert forall|e: int| 0 <= e < fs@.len() implies has_bit(masks@[d], #[trigger] fs@[e].ordinal()) by {
                crate::feature::lemma_feature_at_ordinal(fs@[e]);
                assert(has_bit(m, fs@[e].ordinal()));
                lemma_submask_bit(m, masks@[d], fs@[e].ordinal());
            }
            assert(holds_all(masks@[d], fs@));
        } else {
            assert forall|d: int| 0 <= d < masks@.len() implies !holds_all(#[trigger] masks@[d], fs@) by {
                if holds_all(masks@[d], fs@) {
                    assert forall|i: int| 0 <= i < 11 && has_bit(m, i) implies has_bit(masks@[d], i) by {
                        let e = choose|e: int| 0 <= e < fs@.len() && #[trigger] fs@[e].ordinal() == i;
                        assert(has_bit(masks@[d], fs@[e].ordinal()));
                    }
                    lemma_submask_by_bits(m, masks@[d]);
                    assert(is_submask(m, masks@[d]));
                }
            }
        }
    }
    r
}

/// The combinations of 2 and then 3 of the features `l` that no document holds
/// together, as positions in `l`, in increasing combination order.
fn find_missing_tuples(masks: &Vec<u64>, l: &Vec<DocumentFeature>) -> (out: Vec<Vec<usize>>)
    ensures
        missing_tuples_ok(masks@, l@, tuples_view(out@)),
{
    let n = l.len();
    let mut out: Vec<Vec<usize>> = Vec::new();
    if n < 2 {
        proof {
            assert forall|idx: Seq<int>| #[trigger] is_missing_tuple(masks@, l@, idx) implies tuples_view(out@).contains(idx) by {
                assert(idx[0] < idx[1]);
            }
        }
        return out;
    }
    // pairs
    let mut i: usize = 0;
    while i < n
        invariant
            n == l@.len(),
            i <= n,
            forall|t: int| 0 <= t < out@.len() ==> is_missing_tuple(masks@, l@, #[trigger] tuples_view(out@)[t]) && tuples_view(out@)[t].len() == 2,
            forall|a: int, b: int| 0 <= a < b < out@.len() ==> combination_lt(tuples_view(out@)[a], tuples_view(out@)[b]),
            forall|t: int| 0 <= t < out@.len() ==> #[trigger] tuples_view(out@)[t][0] < i,
            forall|idx: Seq<int>| #[trigger] is_missing_tuple(masks@, l@, idx) && idx.len() == 2 && idx[0] < i ==> tuples_view(out@).contains(idx),
        decreases n - i,
    {
        let mut j: usize = i + 1;
        while j < n
            invariant
                n == l@.len(),
                i < n,
                i + 1 <= j <= n,
                forall|t: int| 0 <= t < out@.len() ==> is_missing_tuple(masks@, l@, #[trigger] tuples_view(out@)[t]) && tuples_view(out@)[t].len() == 2,
                forall|a: int, b: int| 0 <= a < b < out@.len() ==> combination_lt(tuples_view(out@)[a], tuples_view(out@)[b]),
                forall|t: int| 0 <= t < out@.len() ==> #[trigger] tuples_view(out@)[t][0] < i || (tuples_view(out@)[t][0] == i && tuples_view(out@)[t][1] < j),
                forall|idx: Seq<int>| #[trigger] is_missing_tuple(masks@, l@, idx) && idx.len() == 2 && (idx[0] < i || (idx[0] == i && idx[1] < j)) ==> tuples_view(out@).contains(idx),
            decreases n - j,
        {
            let mut fs: Vec<DocumentFeature> = Vec::new();
            fs.push(l[i]);
            fs.push(l[j]);
            let hit = features_covered(masks, &fs);
            let ghost cand = seq![i as int, j as int];
            let ghost before = tuples_view(out@);
            proof {
                assert(is_index_tuple(n as int, cand));
                assert(hit == tuple_covered(masks@, l@, cand)) by {
                    if hit {
                        let d = choose|d: int| 0 <= d < masks@.len() && holds_all(#[trigger] masks@[d], fs@);
                        assert forall|e: int| 0 <= e < cand.len() implies has_bit(#[trigger] masks@[d], l@[cand[e]].ordinal()) by {
                            assert(has_bit(masks@[d], fs@[e].ordinal()));
                        }
                    }
                    if tuple_covered(masks@, l@, cand) {
                        let d = choose|d: int| 0 <= d < masks@.len() && forall|e: int| 0 <= e < cand.len() ==> has_bit(#[trigger] masks@[d], l@[cand[e]].ordinal());
                        assert forall|e: int| 0 <= e < fs@.len() implies has_bit(masks@[d], #[trigger] fs@[e].ordinal()) by {
                            assert(has_bit(masks@[d], l@[cand[e]].ordinal()));
                        }
                        assert(holds_all(masks@[d], fs@));
                    }
                }
            }
            if !hit {
                let mut t: Vec<usize> = Vec::new();
                t.push(i);
                t.push(j);
                out.push(t);
                proof {
                    assert(tuples_view(out@) =~= before.push(cand)) by {
                        assert(tuples_view(out@)[before.len() as int] =~= cand);
                    }
                }
            }
            proof {
                let after = tuples_view(out@);
                assert forall|idx: Seq<int>| #[trigger] is_missing_tuple(masks@, l@, idx) && idx.len() == 2 && (idx[0] < i || (idx[0] == i && idx[1] < j + 1)) implies after.contains(idx) by {
                    if idx[0] == i && idx[1] == j {
                        assert(idx =~= cand);
                        assert(after[after.len() - 1] == cand);
                    } else {
                        assert(before.contains(idx));
                        let t = choose|t: int| 0 <= t < before.len() && before[t] == idx;
                        assert(after[t] == idx);
                    }
                }
            }
            j += 1;
        }
        i += 1;
    }
    // triples
    let ghost n_pairs = out@.len();
    let mut i: usize = 0;
    while i < n
        invariant
            n == l@.len(),
            i <= n,
            n_pairs <= out@.len(),
            forall|t: int| 0 <= t < out@.len() ==> is_missing_tuple(masks@, l@, #[trigger] tuples_view(out@)[t]),
            forall|t: int| 0 <= t < out@.len() ==> (#[trigger] tuples_view(out@)[t].len() == 2 <==> t < n_pairs),
            forall|a: int, b: int| 0 <= a < b < out@.len() ==> combination_lt(tuples_view(out@)[a], tuples_view(out@)[b]),
            forall|t: int| n_pairs <= t < out@.len() ==> #[trigger] tuples_view(out@)[t][0] < i,
            forall|idx: Seq<int>| #[trigger] is_missing_tuple(masks@, l@, idx) && idx.len() == 2 ==> tuples_view(out@).contains(idx),
            forall|idx: Seq<int>| #[trigger] is_missing_tuple(masks@, l@, idx) && idx.len() == 3 && idx[0] < i ==> tuples_view(out@).contains(idx),
        decreases n - i,
    {
        let mut j: usize = i + 1;
        while j < n
            invariant
                n == l@.len(),
                i < n,
                i + 1 <= j <= n,
                n_pairs <= out@.len(),
                forall|t: int| 0 <= t < out@.len() ==> is_missing_tuple(masks@, l@, #[trigger] tuples_view(out@)[t]),
                forall|t: int| 0 <= t < out@.len() ==> (#[trigger] tuples_view(out@)[t].len() == 2 <==> t < n_pairs),
                forall|a: int, b: int| 0 <= a < b < out@.len() ==> combination_lt(tuples_view(out@)[a], tuples_view(out@)[b]),
                forall|t: int| n_pairs <= t < out@.len() ==> #[trigger] tuples_view(out@)[t][0] < i || (tuples_view(out@)[t][0] == i && tuples_view(out@)[t][1] < j),
                forall|idx: Seq<int>| #[trigger] is_missing_tuple(masks@, l@, idx) && idx.len() == 2 ==> tuples_view(out@).contains(idx),
                forall|idx: Seq<int>| #[trigger] is_missing_tuple(masks@, l@, idx) && idx.len() == 3 && (idx[0] < i || (idx[0] == i && idx[1] < j)) ==> tuples_view(out@).contains(idx),
            decreases n - j,
        {
            let mut k: usize = j + 1;
            while k < n
                invariant
                    n == l@.len(),
                    i < j < n,
                    j + 1 <= k <= n,
                    n_pairs <= out@.len(),
                    forall|t: int| 0 <= t < out@.len() ==> is_missing_tuple(masks@, l@, #[trigger] tuples_view(out@)[t]),
                    forall|t: int| 0 <= t < out@.len() ==> (#[trigger] tuples_view(out@)[t].len() == 2 <==> t < n_pairs),
                    forall|a: int, b: int| 0 <= a < b < out@.len() ==> combination_lt(tuples_view(out@)[a], tuples_view(out@)[b]),
                    forall|t: int| n_pairs <= t < out@.len() ==> #[trigger] tuples_view(out@)[t][0] < i || (tuples_view(out@)[t][0] == i && (tuples_view(out@)[t][1] < j || (tuples_view(out@)[t][1] == j && tuples_view(out@)[t][2] < k))),
                    forall|idx: Seq<int>| #[trigger] is_missing_tuple(masks@, l@, idx) && idx.len() == 2 ==> tuples_view(out@).contains(idx),
                    forall|idx: Seq<int>| #[trigger] is_missing_tuple(masks@, l@, idx) && idx.len() == 3 && (idx[0] < i || (idx[0] == i && (idx[1] < j || (idx[1] == j && idx[2] < k)))) ==> tuples_view(out@).contains(idx),
                decreases n - k,
            {
                let mut fs: Vec<DocumentFeature> = Vec::new();
                fs.push(l[i]);
                fs.push(l[j]);
                fs.push(l[k]);
                let hit = features_covered(masks, &fs);
                let ghost cand = seq![i as int, j as int, k as int];
                let ghost before = tuples_view(out@);
                proof {
                    assert(is_index_tuple(n as int, cand));
                    assert(hit == tuple_covered(masks@, l@, cand)) by {
                        if hit {
                            let d = choose|d: int| 0 <= d < masks@.len() && holds_all(#[trigger] masks@[d], fs@);
                            assert forall|e: int| 0 <= e < cand.len() implies has_bit(#[trigger] masks@[d], l@[cand[e]].ordinal()) by {
                                assert(has_bit(masks@[d], fs@[e].ordinal()));
                            }
                        }
                        if tuple_covered(masks@, l@, cand) {
                            let d = choose|d: int| 0 <= d < masks@.len() && forall|e: int| 0 <= e < cand.len() ==> has_bit(#[trigger] masks@[d], l@[cand[e]].ordinal());
                            assert forall|e: int| 0 <= e < fs@.len() implies has_bit(masks@[d], #[trigger] fs@[e].ordinal()) by {
                                assert(has_bit(masks@[d], l@[cand[e]].ordinal()));
                            }
                            assert(holds_all(masks@[d], fs@));
                        }
                    }
                }
                if !hit {
                    let mut t: Vec<usize> = Vec::new();
                    t.push(i);
                    t.push(j);
                    t.push(k);
                    out.push(t);
                    proof {
                        assert(tuples_view(out@) =~= before.push(cand)) by {
                            assert(tuples_view(out@)[before.len() as int] =~= cand);
                        }
                    }
                }
                proof {
                    let after = tuples_view(out@);
                    assert forall|idx: Seq<int>| #[trigger] is_missing_tuple(masks@, l@, idx) && (idx.len() == 2 || (idx.len() == 3 && (idx[0] < i || (idx[0] == i && (idx[1] < j || (idx[1] == j && idx[2] < k + 1)))))) implies after.contains(idx) by {
                        if idx.len() == 3 && idx[0] == i && idx[1] == j && idx[2] == k {
                            assert(idx =~= cand);
                            assert(after[after.len() - 1] == cand);
                        } else {
                            assert(before.contains(idx));
                            let t = choose|t: int| 0 <= t < before.len() && before[t] == idx;
                            assert(after[t] == idx);
                        }
                    }
                }
                k += 1;
            }
            j += 1;
        }
        i += 1;
    }
    out
}

/// Join the strings with `sep` between consecutive ones.
pub open spec fn join(list: Seq<Seq<char>>, sep: Seq<char>) -> Seq<char>
    decreases list.len(),
{
    if list.len() == 0 {
        Seq::empty()
    } else if list.len() == 1 {
        list[0]
    } else {
        join(list.drop_last(), sep) + sep + list.last()
    }
}

/// The text of a feature family: its labels joined by `" + "`, in brackets.
pub open spec fn family_text(labels: Seq<Seq<char>>) -> Seq<char> {
    "["@ + join(labels, " + "@) + "]"@
}

/// The labels of the features of `l` at the positions `idx`.
pub open spec fn tuple_labels(l: Seq<DocumentFeature>, idx: Seq<int>) -> Seq<Seq<char>> {
    idx.map_values(|e: int| label_of(l[e]))
}

/// The views of a list of string lists.
pub open spec fn string_lists_view(v: Seq<Vec<String>>) -> Seq<Seq<Seq<char>>> {
    v.map_values(|w: Vec<String>| strings_view(w@))
}

/// The text of a feature family.
fn family_text_of(labels: &Vec<String>) -> (s: String)
    ensures
        s@ == family_text(strings_view(labels@)),
{
    let mut s = String::from_str("[");
    let ghost ls = strings_view(labels@);
    let mut i: usize = 0;
    proof {
        assert(ls.take(0) =~= Seq::<Seq<char>>::empty());
    }
    while i < labels.len()
        invariant
            i <= labels@.len(),
            ls == strings_view(labels@),
            s@ == "["@ + join(ls.take(i as int), " + "@),
        decreases labels@.len() - i,
    {
        if i > 0 {
            s.append(" + ");
        }
        s.append(labels[i].as_str());
        proof {
            assert(ls.take(i + 1).drop_last() =~= ls.take(i as int));
            assert(ls[i as int] == labels@[i as int]@);
            if i == 0 {
                assert(ls.take(1).len() == 1);
                assert(join(ls.take(1), " + "@) == ls.take(1)[0]);
            }
            assert(s@ =~= "["@ + join(ls.take(i + 1), " + "@));
        }
        i += 1;
    }
    s.append("]");
    assert(ls.take(labels@.len() as int) =~= ls);
    s
}

/// The decimal text of one digit.
pub open spec fn digit_text(d: nat) -> Seq<char> {
    if d == 0 {
        "0"@
    } else if d == 1 {
        "1"@
    } else if d == 2 {
        "2"@
    } else if d == 3 {
        "3"@
    } else if d == 4 {
        "4"@
    } else if d == 5 {
        "5"@
    } else if d == 6 {
        "6"@
    } else if d == 7 {
        "7"@
    } else if d == 8 {
        "8"@
    } else {
        "9"@
    }
}

/// The decimal text of a number.
pub open spec fn decimal(n: nat) -> Seq<char>
    decreases n,
{
    if n < 10 {
        digit_text(n)
    } else {
        decimal(n / 10) + digit_text(n % 10)
    }
}

/// The value of a decimal digit character.
pub open spec fn digit_value(c: char) -> int {
    c as int - '0' as int
}

/// The number that the digits `s` stand for, most significant first.
pub open spec fn decimal_value(s: Seq<char>) -> int
    decreases s.len(),
{
    if s.len() == 0 {
        0
    } else {
        decimal_value(s.drop_last()) * 10 + digit_value(s.last())
    }
}

/// The text of a digit is one character that stands for it.
proof fn lemma_digit_text(d: nat)
    requires
        d < 10,
    ensures
        digit_text(d).len() == 1,
        '0' <= digit_text(d)[0] <= '9',
        digit_value(digit_text(d)[0]) == d,
{
    reveal_strlit("0");
    reveal_strlit("1");
    reveal_strlit("2");
    reveal_strlit("3");
    reveal_strlit("4");
    reveal_strlit("5");
    reveal_strlit("6");
    reveal_strlit("7");
    reveal_strlit("8");
    reveal_strlit("9");
}

/// The decimal text of a number is made of digits, starts with no `0` unless
/// the number is 0, and reads back as the number.
pub proof fn lemma_decimal_reads_back(n: nat)
    ensures
        decimal(n).len() >= 1,
        forall|i: int| 0 <= i < decimal(n).len() ==> '0' <= #[trigger] decimal(n)[i] <= '9',
        n > 0 ==> decimal(n)[0] != '0',
        decimal_value(decimal(n)) == n,
    decreases n,
{
    if n < 10 {
        lemma_digit_text(n);
        let s = decimal(n);
        assert(s.drop_last().len() == 0);
        assert(decimal_value(s.drop_last()) == 0);
    } else {
        let q = n / 10;
        let r = n % 10;
        lemma_decimal_reads_back(q);
        lemma_digit_text(r);
        let s = decimal(n);
        assert(s == decimal(q) + digit_text(r));
        assert(s.drop_last() =~= decimal(q));
        assert(s.last() == digit_text(r)[0]);
        assert forall|i: int| 0 <= i < s.len() implies '0' <= #[trigger] s[i] <= '9' by {
            if i < decimal(q).len() {
                assert(s[i] == decimal(q)[i]);
            }
        }
        assert(s[0] == decimal(q)[0]);
        assert(q * 10 + r == n);
    }
}

/// What dimension `dim` of a Betti number stands for.
pub open spec fn dim_description(dim: nat) -> Seq<char> {
    if dim == 0 {
        "connected components"@
    } else if dim == 1 {
        "1-dimensional holes (missing pairs)"@
    } else if dim == 2 {
        "2-dimensional holes (missing triples)"@
    } else if dim == 3 {
        "3-dimensional holes (missing quadruples)"@
    } else {
        decimal(dim) + "D holes"@
    }
}

/// One line per Betti number, in order.
pub open spec fn betti_lines(b: Seq<usize>) -> Seq<char>
    decreases b.len(),
{
    if b.len() == 0 {
        Seq::empty()
    } else {
        let dim = (b.len() - 1) as nat;
        betti_lines(b.drop_last()) + "  \u{3b2}"@ + decimal(dim) + " = "@ + decimal(b.last() as nat)
            + " \u{2014} "@ + dim_description(dim) + "\n"@
    }
}

/// One line per missing family, in order.
pub open spec fn family_lines(f: Seq<Seq<char>>) -> Seq<char>
    decreases f.len(),
{
    if f.len() == 0 {
        Seq::empty()
    } else {
        family_lines(f.drop_last()) + "   \u{274c} "@ + f.last() + "\n"@
    }
}

/// The summary of a report with the given counts, families and Betti numbers.
pub open spec fn summary_text(
    total: nat,
    features: nat,
    known: nat,
    families: Seq<Seq<char>>,
    betti: Seq<usize>,
) -> Seq<char> {
    "\u{1f4ca} Coverage Report\n"@ + "==================\n\n"@ + "Documents analyzed: "@ + decimal(total)
        + "\n"@ + "Features tracked:   "@ + decimal(features) + "\n"@ + "Known combinations: "@
        + decimal(known) + "\n"@ + "Missing families:   "@ + decimal(families.len()) + "\n\n"@
        + "Betti Numbers (holes in coverage):\n"@ + betti_lines(betti) + (if families.len() > 0 {
        "\n\u{26a0}\u{fe0f}  Missing format families:\n"@ + family_lines(families)
    } else {
        Seq::empty()
    }) + (if betti.len() > 0 && betti[0] > 1 {
        "\n\u{1f534} HIGH Betti\u{2080}: Format features are tested in isolation.\n"@
            + "   Combine features that are currently disconnected!\n"@
    } else {
        Seq::empty()
    }) + "\n\u{1f4a1} Recommendation: Aim for \u{3b2}\u{2080} = 1, \u{3b2}\u{1d62} = 0 for i \u{2265} 1.\n"@
}

/// Appends the decimal text of `n`.
pub fn append_decimal(s: &mut String, n: usize)
    ensures
        final(s)@ == old(s)@ + decimal(n as nat),
    decreases n,
{
    if n >= 10 {
        append_decimal(s, n / 10);
    }
    let d = n % 10;
    if d == 0 {
        s.append("0");
    } else if d == 1 {
        s.append("1");
    } else if d == 2 {
        s.append("2");
    } else if d == 3 {
        s.append("3");
    } else if d == 4 {
        s.append("4");
    } else if d == 5 {
        s.append("5");
    } else if d == 6 {
        s.append("6");
    } else if d == 7 {
        s.append("7");
    } else if d == 8 {
        s.append("8");
    } else {
        s.append("9");
    }
    proof {
        if n >= 10 {
            assert(s@ =~= old(s)@ + decimal(n as nat));
        }
    }
}

/// Appends what dimension `dim` of a Betti number stands for.
fn append_dim_description(s: &mut String, dim: usize)
    ensures
        final(s)@ == old(s)@ + dim_description(dim as nat),
{
    if dim == 0 {
        s.append("connected components");
    } else if dim == 1 {
        s.append("1-dimensional holes (missing pairs)");
    } else if dim == 2 {
        s.append("2-dimensional holes (missing triples)");
    } else if dim == 3 {
        s.append("3-dimensional holes (missing quadruples)");
    } else {
        append_decimal(s, dim);
        s.append("D holes");
        assert(s@ =~= old(s)@ + dim_description(dim as nat));
    }
}

/// A comprehensive report on document format coverage.
#[derive(Debug, Clone)]
pub struct CoverageReport {
    betti_numbers: Vec<usize>,
    feature_labels: Vec<String>,
    total_documents: usize,
    known_combinations: Vec<Vec<String>>,
    missing_combinations: Vec<Vec<String>>,
    missing_format_families: Vec<String>,
}

impl CoverageReport {
    /// The Betti numbers.
    pub closed spec fn betti(&self) -> Seq<usize> {
        self.betti_numbers@
    }

    /// The feature labels.
    pub closed spec fn labels(&self) -> Seq<Seq<char>> {
        strings_view(self.feature_labels@)
    }

    /// The number of documents analyzed.
    pub closed spec fn total(&self) -> nat {
        self.total_documents as nat
    }

    /// The known combinations, each as its sorted labels.
    pub closed spec fn known(&self) -> Seq<Seq<Seq<char>>> {
        string_lists_view(self.known_combinations@)
    }

    /// The missing combinations, each as its sorted labels.
    pub closed spec fn missing(&self) -> Seq<Seq<Seq<char>>> {
        string_lists_view(self.missing_combinations@)
    }

    /// The texts of the missing format families.
    pub closed spec fn families(&self) -> Seq<Seq<char>> {
        strings_view(self.missing_format_families@)
    }

    /// What a report of `space` holds: the space's Betti numbers, the labels of
    /// its observed features sorted alphabetically, its number of documents, the
    /// sorted labels of each document, the missing combinations of 2 and then 3
    /// observed features (in the order of `missing_tuples_ok`) and their texts.
    pub open spec fn describes(&self, space: DocumentFeatureSpace) -> bool {
        &&& space.active_mask() == 0 ==> self.betti() == seq![0usize]
        &&& space.active_mask() != 0 ==> is_betti_sequence(space.doc_masks(), space.active_mask(), self.betti())
        &&& self.labels() == alpha_labels(space.active_mask())
        &&& self.total() == space.doc_names().len()
        &&& self.known() == space.doc_masks().map_values(|m: u64| alpha_labels(m))
        &&& exists|tuples: Seq<Seq<int>>|
            missing_tuples_ok(space.doc_masks(), alpha_mask_features(space.active_mask()), tuples)
                && #[trigger] self.missing() == tuples.map_values(
                |t: Seq<int>| tuple_labels(alpha_mask_features(space.active_mask()), t),
            )
        &&& self.families() == self.missing().map_values(|ls: Seq<Seq<char>>| family_text(ls))
    }

    /// Build a coverage report from a document feature space.
    pub fn new(space: &DocumentFeatureSpace) -> (r: Self)
        requires
            space.wf(),
        ensures
            r.describes(*space),
    {
        let feature_labels = space.feature_labels();
        let betti_numbers = space.betti_numbers();
        let masks = space.masks_vec();
        let mut known: Vec<Vec<String>> = Vec::new();
        let mut i: usize = 0;
        while i < masks.len()
            invariant
                i <= masks@.len(),
                known@.len() == i,
                forall|t: int| 0 <= t < i ==> #[trigger] strings_view(known@[t]@) == alpha_labels(masks@[t]),
            decreases masks@.len() - i,
        {
            let fs = alphabetical_features_of(masks[i]);
            known.push(labels_of(&fs));
            i += 1;
        }
        let l = alphabetical_features_of(space.active_mask_exec());
        let tuples = find_missing_tuples(&masks, &l);
        let mut missing: Vec<Vec<String>> = Vec::new();
        let mut families: Vec<String> = Vec::new();
        let mut t: usize = 0;
        while t < tuples.len()
            invariant
                t <= tuples@.len(),
                missing@.len() == t,
                families@.len() == t,
                forall|u: int| 0 <= u < tuples@.len() ==> is_missing_tuple(masks@, l@, #[trigger] tuples_view(tuples@)[u]),
                forall|u: int| 0 <= u < t ==> #[trigger] strings_view(missing@[u]@) == tuple_labels(l@, tuples_view(tuples@)[u]),
                forall|u: int| 0 <= u < t ==> #[trigger] families@[u]@ == family_text(strings_view(missing@[u]@)),
            decreases tuples@.len() - t,
        {
            let tup = &tuples[t];
            let mut fs: Vec<DocumentFeature> = Vec::new();
            let mut e: usize = 0;
            proof {
                assert(tuples_view(tuples@)[t as int] == tup@.map_values(|x: usize| x as int));
            }
            while e < tup.len()
                invariant
                    e <= tup@.len(),
                    fs@.len() == e,
                    tuples_view(tuples@)[t as int] == tup@.map_values(|x: usize| x as int),
                    is_missing_tuple(masks@, l@, tuples_view(tuples@)[t as int]),
                    forall|u: int| 0 <= u < e ==> #[trigger] fs@[u] == l@[tup@[u] as int],
                decreases tup@.len() - e,
            {
                assert(tuples_view(tuples@)[t as int][e as int] == tup@[e as int] as int);
                fs.push(l[tup[e]]);
                e += 1;
            }
            let names = labels_of(&fs);
            let text = family_text_of(&names);
            proof {
                assert(strings_view(names@) =~= tuple_labels(l@, tuples_view(tuples@)[t as int]));
            }
            missing.push(names);
            families.push(text);
            t += 1;
        }
        let r = CoverageReport {
            betti_numbers,
            feature_labels,
            total_documents: masks.len(),
            known_combinations: known,
            missing_combinations: missing,
            missing_format_families: families,
        };
        proof {
            space.lemma_wf();
            assert(r.total() == space.doc_names().len());
            assert(r.labels() == alpha_labels(space.active_mask()));
            assert(r.known() =~= space.doc_masks().map_values(|m: u64| alpha_labels(m)));
            assert(r.missing() =~= tuples_view(tuples@).map_values(
                |tt: Seq<int>| tuple_labels(alpha_mask_features(space.active_mask()), tt),
            ));
            assert(r.families() =~= r.missing().map_values(|ls: Seq<Seq<char>>| family_text(ls)));
            let tv = tuples_view(tuples@);
            assert(missing_tuples_ok(space.doc_masks(), alpha_mask_features(space.active_mask()), tv));
            assert(r.missing() == tv.map_values(
                |tt: Seq<int>| tuple_labels(alpha_mask_features(space.active_mask()), tt),
            ));
        }
        r
    }

    /// Generate a human-readable summary of coverage.
    pub fn summary(&self) -> (s: String)
        ensures
            s@ == summary_text(self.total(), self.labels().len(), self.known().len(), self.families(), self.betti()),
    {
        let mut s = String::new();
        s.append("\u{1f4ca} Coverage Report\n");
        s.append("==================\n\n");
        s.append("Documents analyzed: ");
        append_decimal(&mut s, self.total_documents);
        s.append("\n");
        s.append("Features tracked:   ");
        append_decimal(&mut s, self.feature_labels.len());
        s.append("\n");
        s.append("Known combinations: ");
        append_decimal(&mut s, self.known_combinations.len());
        s.append("\n");
        s.append("Missing families:   ");
        append_decimal(&mut s, self.missing_format_families.len());
        s.append("\n\n");
        s.append("Betti Numbers (holes in coverage):\n");
        let ghost head = s@;
        proof {
            assert(self.betti().take(0) =~= Seq::<usize>::empty());
        }
        let mut dim: usize = 0;
        while dim < self.betti_numbers.len()
            invariant
                dim <= self.betti().len(),
                self.betti_numbers@ == self.betti(),
                s@ == head + betti_lines(self.betti().take(dim as int)),
            decreases self.betti().len() - dim,
        {
            let b = self.betti_numbers[dim];
            let ghost before = s@;
            s.append("  \u{3b2}");
            append_decimal(&mut s, dim);
            s.append(" = ");
            append_decimal(&mut s, b);
            s.append(" \u{2014} ");
            append_dim_description(&mut s, dim);
            s.append("\n");
            proof {
                assert(self.betti().take(dim + 1).drop_last() =~= self.betti().take(dim as int));
                assert(self.betti().take(dim + 1).last() == b);
                assert(s@ =~= head + betti_lines(self.betti().take(dim + 1)));
            }
            dim += 1;
        }
        assert(self.betti().take(self.betti().len() as int) =~= self.betti());
        let ghost mid = s@;
        if self.missing_format_families.len() > 0 {
            s.append("\n\u{26a0}\u{fe0f}  Missing format families:\n");
            let ghost head2 = s@;
            proof {
                assert(self.families().take(0) =~= Seq::<Seq<char>>::empty());
            }
            let mut k: usize = 0;
            while k < self.missing_format_families.len()
                invariant
                    k <= self.missing_format_families@.len(),
                    strings_view(self.missing_format_families@) == self.families(),
                    s@ == head2 + family_lines(self.families().take(k as int)),
                decreases self.missing_format_families@.len() - k,
            {
                s.append("   \u{274c} ");
                s.append(self.missing_format_families[k].as_str());
                s.append("\n");
                proof {
                    assert(self.families().take(k + 1).drop_last() =~= self.families().take(k as int));
                    assert(self.families()[k as int] == self.missing_format_families@[k as int]@);
                    assert(s@ =~= head2 + family_lines(self.families().take(k + 1)));
                }
                k += 1;
            }
            assert(self.families().take(self.families().len() as int) =~= self.families());
        }
        let first = if self.betti_numbers.len() > 0 {
            self.betti_numbers[0]
        } else {
            0
        };
        if first > 1 {
            s.append("\n\u{1f534} HIGH Betti\u{2080}: Format features are tested in isolation.\n");
            s.append("   Combine features that are currently disconnected!\n");
        }
        s.append("\n\u{1f4a1} Recommendation: Aim for \u{3b2}\u{2080} = 1, \u{3b2}\u{1d62} = 0 for i \u{2265} 1.\n");
        s
    }

    /// Betti numbers of the feature space.
    pub fn betti_numbers(&self) -> (b: &[usize])
        ensures
            b@ == self.betti(),
    {
        self.betti_numbers.as_slice()
    }

    /// Number of documents analyzed.
    pub fn total_documents(&self) -> (n: usize)
        ensures
            n == self.total(),
    {
        self.total_documents
    }

    /// Number of distinct features tracked.
    pub fn feature_count(&self) -> (n: usize)
        ensures
            n == self.labels().len(),
    {
        self.feature_labels.len()
    }

    /// The feature labels.
    pub fn feature_labels(&self) -> (v: &[String])
        ensures
            strings_view(v@) == self.labels(),
    {
        self.feature_labels.as_slice()
    }

    /// Known feature combinations (the tested ones).
    pub fn known_combinations(&self) -> (v: &[Vec<String>])
        ensures
            string_lists_view(v@) == self.known(),
    {
        self.known_combinations.as_slice()
    }

    /// Missing combinations: features that have never appeared together.
    pub fn missing_combinations(&self) -> (v: &[Vec<String>])
        ensures
            string_lists_view(v@) == self.missing(),
    {
        self.missing_combinations.as_slice()
    }

    /// Human-readable list of missing format families.
    pub fn missing_format_families(&self) -> (v: &[String])
        ensures
            strings_view(v@) == self.families(),
    {
        self.missing_format_families.as_slice()
    }
}

/// A report tracks as many features as its space has dimensions, lists one
/// known combination per document, and one format family per missing
/// combination.
pub proof fn lemma_report_counts(space: DocumentFeatureSpace, r: CoverageReport)
    requires
        space.wf(),
        r.describes(space),
    ensures
        r.labels().len() == space.observed().len(),
        r.known().len() == r.total(),
        r.families().len() == r.missing().len(),
{
    space.lemma_wf();
    crate::feature_space::lemma_alpha_count(space.active_mask());
    crate::feature_space::lemma_count_bits_features(space.active_mask(), 11);
    assert(all_features().take(11) =~= all_features());
}

/// Each known combination is exactly the set of labels of its document's
/// features, one combination per document in document order.
pub proof fn lemma_known_exact(space: DocumentFeatureSpace, r: CoverageReport)
    requires
        space.wf(),
        r.describes(space),
    ensures
        r.known().len() == space.doc_masks().len(),
        r.known().len() == r.total(),
        forall|d: int, t: Seq<char>|
            0 <= d < r.known().len() ==> (#[trigger] r.known()[d].contains(t) <==> exists|f: DocumentFeature|
                space.document_features(d).contains(f) && #[trigger] label_of(f) == t),
{
    space.lemma_wf();
    assert forall|d: int, t: Seq<char>|
        0 <= d < r.known().len() implies (#[trigger] r.known()[d].contains(t) <==> exists|f: DocumentFeature|
            space.document_features(d).contains(f) && #[trigger] label_of(f) == t) by {
        assert(r.known()[d] == alpha_labels(space.doc_masks()[d]));
        crate::feature_space::lemma_alpha_labels_exact(space.doc_masks()[d]);
    }
}

/// Some label of `c` is not among the labels `k`.
pub open spec fn not_within(c: Seq<Seq<char>>, k: Seq<Seq<char>>) -> bool {
    exists|e: int| 0 <= e < c.len() && !k.contains(#[trigger] c[e])
}

/// Every missing combination names two or three of the report's feature labels
/// and lies within no known combination: for each document, one of its labels
/// is not among the document's labels.
pub proof fn lemma_missing_shape(space: DocumentFeatureSpace, r: CoverageReport)
    requires
        space.wf(),
        r.describes(space),
    ensures
        forall|i: int|
            0 <= i < r.missing().len() ==> 2 <= (#[trigger] r.missing()[i]).len() <= 3,
        forall|i: int, e: int|
            0 <= i < r.missing().len() && 0 <= e < r.missing()[i].len() ==> r.labels().contains(
                #[trigger] r.missing()[i][e],
            ),
        forall|i: int, d: int|
            0 <= i < r.missing().len() && 0 <= d < r.known().len() ==> not_within(
                #[trigger] r.missing()[i],
                #[trigger] r.known()[d],
            ),
{
    space.lemma_wf();
    let masks = space.doc_masks();
    let l = alpha_mask_features(space.active_mask());
    let tuples = choose|tuples: Seq<Seq<int>>|
        missing_tuples_ok(masks, l, tuples) && #[trigger] r.missing() == tuples.map_values(
            |t: Seq<int>| tuple_labels(l, t),
        );
    assert forall|i: int| 0 <= i < r.missing().len() implies 2 <= (#[trigger] r.missing()[i]).len() <= 3 by {
        assert(is_missing_tuple(masks, l, tuples[i]));
    }
    assert forall|i: int, e: int|
        0 <= i < r.missing().len() && 0 <= e < r.missing()[i].len() implies r.labels().contains(
            #[trigger] r.missing()[i][e],
        ) by {
        let t = tuples[i];
        assert(is_missing_tuple(masks, l, t));
        assert(r.missing()[i] == tuple_labels(l, t));
        assert(0 <= t[e] < l.len());
        assert(r.labels()[t[e]] == label_of(l[t[e]]));
    }
    assert forall|i: int, d: int|
        0 <= i < r.missing().len() && 0 <= d < r.known().len() implies not_within(
            #[trigger] r.missing()[i],
            #[trigger] r.known()[d],
        ) by {
        let t = tuples[i];
        let c = r.missing()[i];
        assert(is_missing_tuple(masks, l, t));
        assert(c == tuple_labels(l, t));
        assert(r.known()[d] == alpha_labels(masks[d]));
        if forall|e: int| 0 <= e < c.len() ==> r.known()[d].contains(#[trigger] c[e]) {
            assert forall|e: int| 0 <= e < t.len() implies has_bit(#[trigger] masks[d], l[t[e]].ordinal()) by {
                assert(c[e] == label_of(l[t[e]]));
                assert(r.known()[d].contains(c[e]));
                crate::feature_space::lemma_alpha_labels_contain(masks[d], l[t[e]]);
                crate::feature_space::lemma_in_mask_features(masks[d], l[t[e]]);
            }
            assert(tuple_covered(masks, l, t));
        }
    }
}

/// `t` occurs in `s` as a contiguous piece.
pub open spec fn has_infix(s: Seq<char>, t: Seq<char>) -> bool {
    exists|i: int| 0 <= i && i + t.len() <= s.len() && #[trigger] s.subrange(i, i + t.len()) == t
}

/// A piece of a text is a piece of the text with more after it.
proof fn lemma_infix_extend(s: Seq<char>, q: Seq<char>, t: Seq<char>)
    requires
        has_infix(s, t),
    ensures
        has_infix(s + q, t),
{
    let i = choose|i: int| 0 <= i && i + t.len() <= s.len() && #[trigger] s.subrange(i, i + t.len()) == t;
    assert((s + q).subrange(i, i + t.len()) =~= s.subrange(i, i + t.len()));
}

/// A piece of a text is a piece of the text with more before it.
proof fn lemma_infix_prepend(a: Seq<char>, s: Seq<char>, t: Seq<char>)
    requires
        has_infix(s, t),
    ensures
        has_infix(a + s, t),
{
    let i = choose|i: int| 0 <= i && i + t.len() <= s.len() && #[trigger] s.subrange(i, i + t.len()) == t;
    let j = a.len() + i;
    assert((a + s).subrange(j, j + t.len()) =~= s.subrange(i, i + t.len()));
}

/// A text is a piece of itself.
proof fn lemma_infix_self(t: Seq<char>)
    ensures
        has_infix(t, t),
{
    let i: int = 0;
    assert(t.subrange(i, i + t.len()) =~= t);
}

/// Three consecutive pieces at the end of a text form a piece of it.
proof fn lemma_infix_last3(p: Seq<char>, x: Seq<char>, y: Seq<char>, z: Seq<char>)
    ensures
        has_infix(p + x + y + z, x + y + z),
{
    let t = x + y + z;
    let i = p.len() as int;
    assert((p + x + y + z).subrange(i, i + t.len()) =~= t);
}

/// The line of the Betti number `value` of dimension `dim`, up to its description.
pub open spec fn betti_line_head(dim: nat, value: nat) -> Seq<char> {
    "  \u{3b2}"@ + decimal(dim) + " = "@ + decimal(value) + " \u{2014} "@
}

/// Each Betti number has its line.
proof fn lemma_betti_lines_hold(b: Seq<usize>)
    ensures
        forall|d: int| 0 <= d < b.len() ==> has_infix(betti_lines(b), betti_line_head(d as nat, #[trigger] b[d] as nat)),
    decreases b.len(),
{
    if b.len() > 0 {
        let prev = b.drop_last();
        let dim = (b.len() - 1) as nat;
        lemma_betti_lines_hold(prev);
        let h = betti_line_head(dim, b.last() as nat);
        let rest = dim_description(dim) + "\n"@;
        assert(betti_lines(b) =~= betti_lines(prev) + h + rest);
        assert forall|d: int| 0 <= d < b.len() implies has_infix(betti_lines(b), betti_line_head(d as nat, #[trigger] b[d] as nat)) by {
            if d < prev.len() {
                assert(prev[d] == b[d]);
                lemma_infix_extend(betti_lines(prev), h, betti_line_head(d as nat, b[d] as nat));
                lemma_infix_extend(betti_lines(prev) + h, rest, betti_line_head(d as nat, b[d] as nat));
            } else {
                lemma_infix_self(h);
                lemma_infix_prepend(betti_lines(prev), h, h);
                lemma_infix_extend(betti_lines(prev) + h, rest, h);
            }
        }
    }
}

/// The line of a missing family.
pub open spec fn family_line(f: Seq<char>) -> Seq<char> {
    "   \u{274c} "@ + f + "\n"@
}

/// Each missing family has its line.
proof fn lemma_family_lines_hold(f: Seq<Seq<char>>)
    ensures
        forall|k: int| 0 <= k < f.len() ==> has_infix(family_lines(f), family_line(#[trigger] f[k])),
    decreases f.len(),
{
    if f.len() > 0 {
        let prev = f.drop_last();
        lemma_family_lines_hold(prev);
        let tail = family_line(f.last());
        assert(family_lines(f) =~= family_lines(prev) + tail);
        assert forall|k: int| 0 <= k < f.len() implies has_infix(family_lines(f), family_line(#[trigger] f[k])) by {
            if k < prev.len() {
                assert(prev[k] == f[k]);
                lemma_infix_extend(family_lines(prev), tail, family_line(f[k]));
            } else {
                lemma_infix_self(tail);
                lemma_infix_prepend(family_lines(prev), tail, tail);
            }
        }
    }
}

/// The summary shows the number of documents, of features, of known
/// combinations and of missing families, one line per Betti number, one line per missing family, and the warning on
/// isolated features when there is more than one component.
pub proof fn lemma_summary_parts(
    total: nat,
    features: nat,
    known: nat,
    families: Seq<Seq<char>>,
    betti: Seq<usize>,
)
    ensures
        has_infix(summary_text(total, features, known, families, betti), "Documents analyzed: "@ + decimal(total) + "\n"@),
        has_infix(summary_text(total, features, known, families, betti), "Features tracked:   "@ + decimal(features) + "\n"@),
        has_infix(summary_text(total, features, known, families, betti), "Known combinations: "@ + decimal(known) + "\n"@),
        has_infix(
            summary_text(total, features, known, families, betti),
            "Missing families:   "@ + decimal(families.len()) + "\n\n"@,
        ),
        forall|d: int|
            0 <= d < betti.len() ==> has_infix(
                summary_text(total, features, known, families, betti),
                betti_line_head(d as nat, #[trigger] betti[d] as nat),
            ),
        forall|k: int|
            0 <= k < families.len() ==> has_infix(
                summary_text(total, features, known, families, betti),
                family_line(#[trigger] families[k]),
            ),
        betti.len() > 0 && betti[0] > 1 ==> has_infix(
            summary_text(total, features, known, families, betti),
            "HIGH Betti\u{2080}"@,
        ),
{
    let families_part = if families.len() > 0 {
        "\n\u{26a0}\u{fe0f}  Missing format families:\n"@ + family_lines(families)
    } else {
        Seq::empty()
    };
    let warning = if betti.len() > 0 && betti[0] > 1 {
        "\n\u{1f534} HIGH Betti\u{2080}: Format features are tested in isolation.\n"@
            + "   Combine features that are currently disconnected!\n"@
    } else {
        Seq::empty()
    };
    let q0 = "\u{1f4ca} Coverage Report\n"@;
    let p0 = q0;
    let q1 = "==================\n\n"@;
    let p1 = p0 + q1;
    let q2 = "Documents analyzed: "@;
    let p2 = p1 + q2;
    let q3 = decimal(total);
    let p3 = p2 + q3;
    let q4 = "\n"@;
    let p4 = p3 + q4;
    let q5 = "Features tracked:   "@;
    let p5 = p4 + q5;
    let q6 = decimal(features);
    let p6 = p5 + q6;
    let q7 = "\n"@;
    let p7 = p6 + q7;
    let q8 = "Known combinations: "@;
    let p8 = p7 + q8;
    let q9 = decimal(known);
    let p9 = p8 + q9;
    let q10 = "\n"@;
    let p10 = p9 + q10;
    let q11 = "Missing families:   "@;
    let p11 = p10 + q11;
    let q12 = decimal(families.len());
    let p12 = p11 + q12;
    let q13 = "\n\n"@;
    let p13 = p12 + q13;
    let q14 = "Betti Numbers (holes in coverage):\n"@;
    let p14 = p13 + q14;
    let q15 = betti_lines(betti);
    let p15 = p14 + q15;
    let q16 = families_part;
    let p16 = p15 + q16;
    let q17 = warning;
    let p17 = p16 + q17;
    let q18 = "\n\u{1f4a1} Recommendation: Aim for \u{3b2}\u{2080} = 1, \u{3b2}\u{1d62} = 0 for i \u{2265} 1.\n"@;
    let p18 = p17 + q18;
    assert(summary_text(total, features, known, families, betti) == p18);
    let docs = q2 + q3 + q4;
    lemma_infix_last3(p1, q2, q3, q4);
    lemma_infix_extend(p4, q5, docs);
    lemma_infix_extend(p5, q6, docs);
    lemma_infix_extend(p6, q7, docs);
    lemma_infix_extend(p7, q8, docs);
    lemma_infix_extend(p8, q9, docs);
    lemma_infix_extend(p9, q10, docs);
    lemma_infix_extend(p10, q11, docs);
    lemma_infix_extend(p11, q12, docs);
    lemma_infix_extend(p12, q13, docs);
    lemma_infix_extend(p13, q14, docs);
    lemma_infix_extend(p14, q15, docs);
    lemma_infix_extend(p15, q16, docs);
    lemma_infix_extend(p16, q17, docs);
    lemma_infix_extend(p17, q18, docs);
    let feats = q5 + q6 + q7;
    lemma_infix_last3(p4, q5, q6, q7);
    lemma_infix_extend(p7, q8, feats);
    lemma_infix_extend(p8, q9, feats);
    lemma_infix_extend(p9, q10, feats);
    lemma_infix_extend(p10, q11, feats);
    lemma_infix_extend(p11, q12, feats);
    lemma_infix_extend(p12, q13, feats);
    lemma_infix_extend(p13, q14, feats);
    lemma_infix_extend(p14, q15, feats);
    lemma_infix_extend(p15, q16, feats);
    lemma_infix_extend(p16, q17, feats);
    lemma_infix_extend(p17, q18, feats);
    let knowns = q8 + q9 + q10;
    lemma_infix_last3(p7, q8, q9, q10);
    lemma_infix_extend(p10, q11, knowns);
    lemma_infix_extend(p11, q12, knowns);
    lemma_infix_extend(p12, q13, knowns);
    lemma_infix_extend(p13, q14, knowns);
    lemma_infix_extend(p14, q15, knowns);
    lemma_infix_extend(p15, q16, knowns);
    lemma_infix_extend(p16, q17, knowns);
    lemma_infix_extend(p17, q18, knowns);
    let fams = q11 + q12 + q13;
    lemma_infix_last3(p10, q11, q12, q13);
    lemma_infix_extend(p13, q14, fams);
    lemma_infix_extend(p14, q15, fams);
    lemma_infix_extend(p15, q16, fams);
    lemma_infix_extend(p16, q17, fams);
    lemma_infix_extend(p17, q18, fams);
    lemma_betti_lines_hold(betti);
    assert forall|d: int| 0 <= d < betti.len() implies has_infix(p18, betti_line_head(d as nat, #[trigger] betti[d] as nat)) by {
        let t = betti_line_head(d as nat, betti[d] as nat);
        lemma_infix_prepend(p14, q15, t);
        lemma_infix_extend(p15, q16, t);
        lemma_infix_extend(p16, q17, t);
        lemma_infix_extend(p17, q18, t);
    }
    lemma_family_lines_hold(families);
    assert forall|k: int| 0 <= k < families.len() implies has_infix(p18, family_line(#[trigger] families[k])) by {
        let t = family_line(families[k]);
        lemma_infix_prepend("\n\u{26a0}\u{fe0f}  Missing format families:\n"@, family_lines(families), t);
        lemma_infix_prepend(p15, q16, t);
        lemma_infix_extend(p16, q17, t);
        lemma_infix_extend(p17, q18, t);
    }
    if betti.len() > 0 && betti[0] > 1 {
        let high = "HIGH Betti\u{2080}"@;
        let lead = "\n\u{1f534} "@;
        let after = ": Format features are tested in isolation.\n"@;
        reveal_strlit("\n\u{1f534} HIGH Betti\u{2080}: Format features are tested in isolation.\n");
        reveal_strlit("\n\u{1f534} ");
        reveal_strlit("HIGH Betti\u{2080}");
        reveal_strlit(": Format features are tested in isolation.\n");
        let w1 = "\n\u{1f534} HIGH Betti\u{2080}: Format features are tested in isolation.\n"@;
        assert(w1 =~= lead + high + after);
        lemma_infix_self(high);
        lemma_infix_prepend(lead, high, high);
        lemma_infix_extend(lead + high, after, high);
        lemma_infix_extend(w1, "   Combine features that are currently disconnected!\n"@, high);
        lemma_infix_prepend(p16, q17, high);
        lemma_infix_extend(p17, q18, high);
    }
}

/// No character of `s` is `c`.
pub open spec fn lacks(s: Seq<char>, c: char) -> bool {
    forall|i: int| 0 <= i < s.len() ==> s[i] != c
}

/// Two texts without `c` make a text without `c`.
proof fn lemma_lacks_add(a: Seq<char>, b: Seq<char>, c: char)
    requires
        lacks(a, c),
        lacks(b, c),
    ensures
        lacks(a + b, c),
{
    assert forall|i: int| 0 <= i < (a + b).len() implies (a + b)[i] != c by {
        if i >= a.len() {
            assert((a + b)[i] == b[i - a.len()]);
        }
    }
}

/// Decimal numbers have no `H`.
proof fn lemma_decimal_lacks_h(n: nat)
    ensures
        lacks(decimal(n), 'H'),
    decreases n,
{
    reveal_strlit("0");
    reveal_strlit("1");
    reveal_strlit("2");
    reveal_strlit("3");
    reveal_strlit("4");
    reveal_strlit("5");
    reveal_strlit("6");
    reveal_strlit("7");
    reveal_strlit("8");
    reveal_strlit("9");
    assert(lacks(digit_text(n % 10), 'H'));
    if n >= 10 {
        lemma_decimal_lacks_h(n / 10);
        lemma_lacks_add(decimal(n / 10), digit_text(n % 10), 'H');
    } else {
        assert(lacks(digit_text(n), 'H'));
    }
}

/// The Betti lines have no `H`.
proof fn lemma_betti_lines_lack_h(b: Seq<usize>)
    ensures
        lacks(betti_lines(b), 'H'),
    decreases b.len(),
{
    if b.len() > 0 {
        let dim = (b.len() - 1) as nat;
        lemma_betti_lines_lack_h(b.drop_last());
        lemma_decimal_lacks_h(dim);
        lemma_decimal_lacks_h(b.last() as nat);
        reveal_strlit("  \u{3b2}");
        reveal_strlit(" = ");
        reveal_strlit(" \u{2014} ");
        reveal_strlit("\n");
        reveal_strlit("connected components");
        reveal_strlit("1-dimensional holes (missing pairs)");
        reveal_strlit("2-dimensional holes (missing triples)");
        reveal_strlit("3-dimensional holes (missing quadruples)");
        reveal_strlit("D holes");
        assert(lacks("D holes"@, 'H'));
        lemma_lacks_add(decimal(dim), "D holes"@, 'H');
        assert(lacks(dim_description(dim), 'H'));
        let x1 = betti_lines(b.drop_last()) + "  \u{3b2}"@;
        lemma_lacks_add(betti_lines(b.drop_last()), "  \u{3b2}"@, 'H');
        lemma_lacks_add(x1, decimal(dim), 'H');
        lemma_lacks_add(x1 + decimal(dim), " = "@, 'H');
        lemma_lacks_add(x1 + decimal(dim) + " = "@, decimal(b.last() as nat), 'H');
        let x2 = x1 + decimal(dim) + " = "@ + decimal(b.last() as nat);
        lemma_lacks_add(x2, " \u{2014} "@, 'H');
        lemma_lacks_add(x2 + " \u{2014} "@, dim_description(dim), 'H');
        lemma_lacks_add(x2 + " \u{2014} "@ + dim_description(dim), "\n"@, 'H');
    }
}

/// Joined texts without `c`, joined by a separator without `c`, have no `c`.
proof fn lemma_join_lacks(list: Seq<Seq<char>>, sep: Seq<char>, c: char)
    requires
        forall|i: int| 0 <= i < list.len() ==> lacks(#[trigger] list[i], c),
        lacks(sep, c),
    ensures
        lacks(join(list, sep), c),
    decreases list.len(),
{
    if list.len() > 1 {
        lemma_join_lacks(list.drop_last(), sep, c);
        assert(lacks(list.last(), c));
        lemma_lacks_add(join(list.drop_last(), sep), sep, c);
        lemma_lacks_add(join(list.drop_last(), sep) + sep, list.last(), c);
    } else if list.len() == 1 {
        assert(lacks(list[0], c));
    }
}

/// No feature label has an `H`.
proof fn lemma_label_lacks_h(f: DocumentFeature)
    ensures
        lacks(label_of(f), 'H'),
{
    reveal_strlit("text");
    reveal_strlit("lists");
    reveal_strlit("nested_lists");
    reveal_strlit("tables");
    reveal_strlit("images");
    reveal_strlit("formulas");
    reveal_strlit("code_blocks");
    reveal_strlit("headers");
    reveal_strlit("footnotes");
    reveal_strlit("cross_references");
    reveal_strlit("bidirectional_text");
}

/// The family lines of a report of a space have no `H`.
proof fn lemma_family_lines_lack_h(f: Seq<Seq<char>>)
    requires
        forall|k: int| 0 <= k < f.len() ==> lacks(#[trigger] f[k], 'H'),
    ensures
        lacks(family_lines(f), 'H'),
    decreases f.len(),
{
    if f.len() > 0 {
        lemma_family_lines_lack_h(f.drop_last());
        reveal_strlit("   \u{274c} ");
        reveal_strlit("\n");
        assert(lacks(f.last(), 'H'));
        lemma_lacks_add(family_lines(f.drop_last()), "   \u{274c} "@, 'H');
        lemma_lacks_add(family_lines(f.drop_last()) + "   \u{274c} "@, f.last(), 'H');
        lemma_lacks_add(family_lines(f.drop_last()) + "   \u{274c} "@ + f.last(), "\n"@, 'H');
    }
}

/// Without the warning, a summary whose families have no `H` has no `H`.
proof fn lemma_summary_lacks_h(total: nat, features: nat, known: nat, families: Seq<Seq<char>>, betti: Seq<usize>)
    requires
        forall|k: int| 0 <= k < families.len() ==> lacks(#[trigger] families[k], 'H'),
        !(betti.len() > 0 && betti[0] > 1),
    ensures
        lacks(summary_text(total, features, known, families, betti), 'H'),
{
    let families_part = if families.len() > 0 {
        "\n\u{26a0}\u{fe0f}  Missing format families:\n"@ + family_lines(families)
    } else {
        Seq::empty()
    };
    let warning = Seq::<char>::empty();
    let q0 = "\u{1f4ca} Coverage Report\n"@;
    let p0 = q0;
    let q1 = "==================\n\n"@;
    let p1 = p0 + q1;
    let q2 = "Documents analyzed: "@;
    let p2 = p1 + q2;
    let q3 = decimal(total);
    let p3 = p2 + q3;
    let q4 = "\n"@;
    let p4 = p3 + q4;
    let q5 = "Features tracked:   "@;
    let p5 = p4 + q5;
    let q6 = decimal(features);
    let p6 = p5 + q6;
    let q7 = "\n"@;
    let p7 = p6 + q7;
    let q8 = "Known combinations: "@;
    let p8 = p7 + q8;
    let q9 = decimal(known);
    let p9 = p8 + q9;
    let q10 = "\n"@;
    let p10 = p9 + q10;
    let q11 = "Missing families:   "@;
    let p11 = p10 + q11;
    let q12 = decimal(families.len());
    let p12 = p11 + q12;
    let q13 = "\n\n"@;
    let p13 = p12 + q13;
    let q14 = "Betti Numbers (holes in coverage):\n"@;
    let p14 = p13 + q14;
    let q15 = betti_lines(betti);
    let p15 = p14 + q15;
    let q16 = families_part;
    let p16 = p15 + q16;
    let q17 = warning;
    let p17 = p16 + q17;
    let q18 = "\n\u{1f4a1} Recommendation: Aim for \u{3b2}\u{2080} = 1, \u{3b2}\u{1d62} = 0 for i \u{2265} 1.\n"@;
    let p18 = p17 + q18;
    assert(summary_text(total, features, known, families, betti) == p18);
    reveal_strlit("\u{1f4ca} Coverage Report\n");
    assert(lacks(q0, 'H'));
    reveal_strlit("==================\n\n");
    assert(lacks(q1, 'H'));
    reveal_strlit("Documents analyzed: ");
    assert(lacks(q2, 'H'));
    reveal_strlit("\n");
    assert(lacks(q4, 'H'));
    reveal_strlit("Features tracked:   ");
    assert(lacks(q5, 'H'));
    assert(lacks(q7, 'H'));
    reveal_strlit("Known combinations: ");
    assert(lacks(q8, 'H'));
    assert(lacks(q10, 'H'));
    reveal_strlit("Missing families:   ");
    assert(lacks(q11, 'H'));
    reveal_strlit("\n\n");
    assert(lacks(q13, 'H'));
    reveal_strlit("Betti Numbers (holes in coverage):\n");
    assert(lacks(q14, 'H'));
    reveal_strlit("\n\u{1f4a1} Recommendation: Aim for \u{3b2}\u{2080} = 1, \u{3b2}\u{1d62} = 0 for i \u{2265} 1.\n");
    assert(lacks(q18, 'H'));
    lemma_decimal_lacks_h(total);
    lemma_decimal_lacks_h(features);
    lemma_decimal_lacks_h(known);
    lemma_decimal_lacks_h(families.len());
    lemma_betti_lines_lack_h(betti);
    lemma_family_lines_lack_h(families);
    reveal_strlit("\n\u{26a0}\u{fe0f}  Missing format families:\n");
    assert(lacks("\n\u{26a0}\u{fe0f}  Missing format families:\n"@, 'H'));
    if families.len() > 0 {
        lemma_lacks_add("\n\u{26a0}\u{fe0f}  Missing format families:\n"@, family_lines(families), 'H');
    }
    lemma_lacks_add(p0, q1, 'H');
    lemma_lacks_add(p1, q2, 'H');
    lemma_lacks_add(p2, q3, 'H');
    lemma_lacks_add(p3, q4, 'H');
    lemma_lacks_add(p4, q5, 'H');
    lemma_lacks_add(p5, q6, 'H');
    lemma_lacks_add(p6, q7, 'H');
    lemma_lacks_add(p7, q8, 'H');
    lemma_lacks_add(p8, q9, 'H');
    lemma_lacks_add(p9, q10, 'H');
    lemma_lacks_add(p10, q11, 'H');
    lemma_lacks_add(p11, q12, 'H');
    lemma_lacks_add(p12, q13, 'H');
    lemma_lacks_add(p13, q14, 'H');
    lemma_lacks_add(p14, q15, 'H');
    lemma_lacks_add(p15, q16, 'H');
    lemma_lacks_add(p16, q17, 'H');
    lemma_lacks_add(p17, q18, 'H');
}

/// The summary of a report of a space warns of features tested in isolation
/// exactly when the space has more than one component.
pub proof fn lemma_summary_warning(space: DocumentFeatureSpace, r: CoverageReport)
    requires
        space.wf(),
        r.describes(space),
    ensures
        has_infix(
            summary_text(r.total(), r.labels().len(), r.known().len(), r.families(), r.betti()),
            "HIGH Betti\u{2080}"@,
        ) <==> (r.betti().len() > 0 && r.betti()[0] > 1),
{
    let b = r.betti();
    let fam = r.families();
    let out = summary_text(r.total(), r.labels().len(), r.known().len(), fam, b);
    lemma_summary_parts(r.total(), r.labels().len(), r.known().len(), fam, b);
    if !(b.len() > 0 && b[0] > 1) {
        let masks = space.doc_masks();
        let l = alpha_mask_features(space.active_mask());
        let tuples = choose|tuples: Seq<Seq<int>>|
            missing_tuples_ok(masks, l, tuples) && #[trigger] r.missing() == tuples.map_values(
                |t: Seq<int>| tuple_labels(l, t),
            );
        reveal_strlit("[");
        reveal_strlit("]");
        reveal_strlit(" + ");
        assert forall|k: int| 0 <= k < fam.len() implies lacks(#[trigger] fam[k], 'H') by {
            let labels = r.missing()[k];
            assert(labels == tuple_labels(l, tuples[k]));
            assert forall|e: int| 0 <= e < labels.len() implies lacks(#[trigger] labels[e], 'H') by {
                lemma_label_lacks_h(l[tuples[k][e]]);
            }
            lemma_join_lacks(labels, " + "@, 'H');
            lemma_lacks_add("["@, join(labels, " + "@), 'H');
            lemma_lacks_add("["@ + join(labels, " + "@), "]"@, 'H');
            assert(fam[k] == family_text(labels));
        }
        lemma_summary_lacks_h(r.total(), r.labels().len(), r.known().len(), fam, b);
        reveal_strlit("HIGH Betti\u{2080}");
        if has_infix(out, "HIGH Betti\u{2080}"@) {
            let t = "HIGH Betti\u{2080}"@;
            let i = choose|i: int| 0 <= i && i + t.len() <= out.len() && #[trigger] out.subrange(i, i + t.len()) == t;
            assert(out.subrange(i, i + t.len())[0] == out[i]);
            assert(t[0] == 'H');
        }
    }
}

/// The labels `t` are strictly increasing, as a set of labels is listed.
pub open spec fn labels_increasing(t: Seq<Seq<char>>) -> bool {
    forall|a: int, b: int| 0 <= a < b < t.len() ==> lex_lt(#[trigger] t[a], #[trigger] t[b])
}

/// `t` is a family that a report of `r`'s kind lists as missing: two or three
/// of its feature labels, as a set, held together by no known combination.
pub open spec fn is_missing_family(r: CoverageReport, t: Seq<Seq<char>>) -> bool {
    &&& 2 <= t.len() <= 3
    &&& labels_increasing(t)
    &&& forall|e: int| 0 <= e < t.len() ==> r.labels().contains(#[trigger] t[e])
    &&& forall|d: int| 0 <= d < r.known().len() ==> not_within(t, #[trigger] r.known()[d])
}

/// `a` comes before `b` among label sets: it is smaller, or as large and
/// before it at the first label where they differ.
pub open spec fn family_before(a: Seq<Seq<char>>, b: Seq<Seq<char>>) -> bool {
    ||| a.len() < b.len()
    ||| a.len() == b.len() && exists|k: int|
        0 <= k < a.len() && (forall|e: int| 0 <= e < k ==> a[e] == b[e]) && #[trigger] lex_lt(a[k], b[k])
}

/// Features whose labels form a family held together by no known combination
/// are held together by no document.
proof fn lemma_positions_uncovered(space: DocumentFeatureSpace, r: CoverageReport, t: Seq<Seq<char>>, pos: Seq<int>)
    requires
        space.wf(),
        r.describes(space),
        pos.len() == t.len(),
        forall|e: int|
            0 <= e < t.len() ==> 0 <= #[trigger] pos[e] < alpha_mask_features(space.active_mask()).len() && label_of(
                alpha_mask_features(space.active_mask())[pos[e]],
            ) == t[e],
        forall|d: int| 0 <= d < r.known().len() ==> not_within(t, #[trigger] r.known()[d]),
    ensures
        !tuple_covered(space.doc_masks(), alpha_mask_features(space.active_mask()), pos),
{
    let masks = space.doc_masks();
    let l = alpha_mask_features(space.active_mask());
    assert(r.known() == masks.map_values(|m: u64| alpha_labels(m)));
    assert forall|d: int| 0 <= d < masks.len() implies !(forall|e: int|
        0 <= e < pos.len() ==> has_bit(#[trigger] masks[d], l[pos[e]].ordinal())) by {
        assert(r.known()[d] == alpha_labels(masks[d]));
        assert(not_within(t, r.known()[d]));
        let e = choose|e: int| 0 <= e < t.len() && !r.known()[d].contains(#[trigger] t[e]);
        crate::feature_space::lemma_in_mask_features(masks[d], l[pos[e]]);
        crate::feature_space::lemma_alpha_labels_contain(masks[d], l[pos[e]]);
        assert(!has_bit(masks[d], l[pos[e]].ordinal()));
    }
    if t.len() > 0 {
        assert(label_of(l[pos[0]]) == t[0]);
    }
}

/// The missing combinations of a report are exactly its missing families,
/// each once, smaller ones first and then in the order of their labels.
pub proof fn lemma_missing_exact(space: DocumentFeatureSpace, r: CoverageReport)
    requires
        space.wf(),
        r.describes(space),
    ensures
        forall|i: int| 0 <= i < r.missing().len() ==> is_missing_family(r, #[trigger] r.missing()[i]),
        forall|t: Seq<Seq<char>>| #[trigger] is_missing_family(r, t) ==> r.missing().contains(t),
        forall|i: int, j: int|
            0 <= i < j < r.missing().len() ==> family_before(#[trigger] r.missing()[i], #[trigger] r.missing()[j]),
        r.missing().no_duplicates(),
{
    space.lemma_wf();
    lemma_missing_shape(space, r);
    let masks = space.doc_masks();
    let l = alpha_mask_features(space.active_mask());
    crate::feature_space::lemma_alpha_features_sorted(space.active_mask());
    let tuples = choose|tuples: Seq<Seq<int>>|
        missing_tuples_ok(masks, l, tuples) && #[trigger] r.missing() == tuples.map_values(
            |t: Seq<int>| tuple_labels(l, t),
        );
    assert(r.labels() == l.map_values(|f: DocumentFeature| label_of(f)));
    assert forall|i: int| 0 <= i < r.missing().len() implies is_missing_family(r, #[trigger] r.missing()[i]) by {
        let t = tuples[i];
        assert(is_missing_tuple(masks, l, t));
        assert(r.missing()[i] == tuple_labels(l, t));
        assert forall|a: int, b: int| 0 <= a < b < r.missing()[i].len() implies lex_lt(
            #[trigger] r.missing()[i][a],
            #[trigger] r.missing()[i][b],
        ) by {
            assert(t[a] < t[b]);
        }
        assert forall|d: int| 0 <= d < r.known().len() implies not_within(r.missing()[i], #[trigger] r.known()[d]) by {
            assert(not_within(r.missing()[i], r.known()[d]));
        }
    }
    assert forall|t: Seq<Seq<char>>| #[trigger] is_missing_family(r, t) implies r.missing().contains(t) by {
        let pos = Seq::new(t.len(), |e: int| choose|p: int| 0 <= p < l.len() && label_of(l[p]) == t[e]);
        assert forall|e: int| 0 <= e < t.len() implies 0 <= #[trigger] pos[e] < l.len() && label_of(l[pos[e]]) == t[e] by {
            assert(r.labels().contains(t[e]));
            let p = choose|p: int| 0 <= p < r.labels().len() && r.labels()[p] == t[e];
            assert(label_of(l[p]) == t[e]);
        }
        assert forall|a: int, b: int| 0 <= a < b < t.len() implies pos[a] < pos[b] by {
            assert(lex_lt(t[a], t[b]));
            if pos[a] == pos[b] {
                crate::feature_space::lemma_lex_irreflexive(t[a]);
            } else if pos[b] < pos[a] {
                assert(lex_lt(label_of(l[pos[b]]), label_of(l[pos[a]])));
                crate::feature_space::lemma_lex_asymmetric(t[a], t[b]);
            }
        }
        assert(is_index_tuple(l.len() as int, pos));
        lemma_positions_uncovered(space, r, t, pos);
        assert(is_missing_tuple(masks, l, pos));
        assert(tuples.contains(pos));
        let i = choose|i: int| 0 <= i < tuples.len() && tuples[i] == pos;
        assert(r.missing()[i] =~= t);
    }
    assert forall|i: int, j: int|
        0 <= i < j < r.missing().len() implies family_before(#[trigger] r.missing()[i], #[trigger] r.missing()[j]) by {
        let a = tuples[i];
        let b = tuples[j];
        assert(is_missing_tuple(masks, l, a) && is_missing_tuple(masks, l, b));
        assert(combination_lt(a, b));
        let x = r.missing()[i];
        let y = r.missing()[j];
        assert(x == tuple_labels(l, a) && y == tuple_labels(l, b));
        if a.len() == b.len() {
            if a[0] < b[0] {
                assert(lex_lt(x[0], y[0]));
            } else if a[1] < b[1] {
                assert(x[0] == y[0]);
                assert(lex_lt(x[1], y[1]));
            } else {
                assert(x[0] == y[0] && x[1] == y[1]);
                assert(lex_lt(x[2], y[2]));
            }
        }
    }
    assert forall|i: int, j: int| 0 <= i < r.missing().len() && 0 <= j < r.missing().len() && i != j implies r.missing()[i]
        != r.missing()[j] by {
        let (p, q) = if i < j { (i, j) } else { (j, i) };
        let x = r.missing()[p];
        let y = r.missing()[q];
        assert(family_before(x, y));
        if x.len() == y.len() {
            let k = choose|k: int| 0 <= k < x.len() && (forall|e: int| 0 <= e < k ==> x[e] == y[e]) && #[trigger] lex_lt(x[k], y[k]);
            crate::feature_space::lemma_lex_irreflexive(x[k]);
        }
    }
}

/// A report is determined by its space: two reports that both describe the
/// same space agree in every part.
pub proof fn lemma_report_unique(space: DocumentFeatureSpace, r1: CoverageReport, r2: CoverageReport)
    requires
        space.wf(),
        r1.describes(space),
        r2.describes(space),
    ensures
        r1.betti() == r2.betti(),
        r1.labels() == r2.labels(),
        r1.total() == r2.total(),
        r1.known() == r2.known(),
        r1.missing() == r2.missing(),
        r1.families() == r2.families(),
{
    let masks = space.doc_masks();
    let active = space.active_mask();
    if active != 0 {
        lemma_betti_unique(masks, active, r1.betti(), r2.betti());
    }
    let l = alpha_mask_features(active);
    let t1 = choose|tuples: Seq<Seq<int>>|
        missing_tuples_ok(masks, l, tuples) && #[trigger] r1.missing() == tuples.map_values(
            |t: Seq<int>| tuple_labels(l, t),
        );
    let t2 = choose|tuples: Seq<Seq<int>>|
        missing_tuples_ok(masks, l, tuples) && #[trigger] r2.missing() == tuples.map_values(
            |t: Seq<int>| tuple_labels(l, t),
        );
    assert forall|idx: Seq<int>| #[trigger] t1.contains(idx) <==> t2.contains(idx) by {
        if t1.contains(idx) {
            let a = choose|a: int| 0 <= a < t1.len() && t1[a] == idx;
            assert(is_missing_tuple(masks, l, t1[a]));
        }
        if t2.contains(idx) {
            let b = choose|b: int| 0 <= b < t2.len() && t2[b] == idx;
            assert(is_missing_tuple(masks, l, t2[b]));
        }
    }
    lemma_sorted_unique(|a: Seq<int>, b: Seq<int>| combination_lt(a, b), t1, t2);
}

} // verus!
