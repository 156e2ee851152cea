//! Persistent homology of a document feature space, in a simplified form.
//!
//! The observed features are added one at a time, rarest first (ties in the
//! canonical order). After each of the first six additions, the Betti numbers
//! of the complex made of the documents whose features have all been added are
//! computed, and every dimension with a positive Betti number is recorded as
//! born with the feature just added.

use vstd::prelude::*;
use crate::feature::{DocumentFeature, FEATURE_COUNT, feature_at};
use crate::complex::{
    has_bit, is_submask, count_bits, is_betti_sequence, masks_within, compute_simple_betti, lemma_betti_unique,
    max_dim, lemma_set_bit, lemma_zero_mask, MASK_SPACE,
};
use crate::chain::{bit_set, lemma_count_bits_set};
use crate::feature_space::DocumentFeatureSpace;
use crate::sorted::lemma_sorted_unique;

verus! {

/// One persistence entry: a dimension, the feature whose addition recorded it,
/// and the feature whose addition ends it (`None`: it persists).
pub type PersistenceEntry = (usize, Option<DocumentFeature>, Option<DocumentFeature>);

/// Number of documents whose features include `f`.
pub open spec fn frequency(masks: Seq<u64>, f: DocumentFeature) -> nat {
    masks.filter(|m: u64| has_bit(m, f.ordinal())).len()
}

/// `f` comes before `g` in the filtration: it is rarer, or as frequent and
/// earlier in the canonical order.
pub open spec fn filtration_before(masks: Seq<u64>, f: DocumentFeature, g: DocumentFeature) -> bool {
    ||| frequency(masks, f) < frequency(masks, g)
    ||| frequency(masks, f) == frequency(masks, g) && f.ordinal() < g.ordinal()
}

/// `order` lists the features of `active`, each once, rarest first.
pub open spec fn is_filtration_order(masks: Seq<u64>, active: u64, order: Seq<DocumentFeature>) -> bool {
    &&& forall|f: DocumentFeature| #[trigger] order.contains(f) <==> has_bit(active, f.ordinal())
    &&& forall|a: int, b: int|
        0 <= a < b < order.len() ==> filtration_before(masks, #[trigger] order[a], #[trigger] order[b])
}

/// The mask of the first `n` features of `order`.
pub open spec fn prefix_mask(order: Seq<DocumentFeature>, n: nat) -> u64
    decreases n,
{
    if n == 0 {
        0
    } else {
        prefix_mask(order, (n - 1) as nat) | (1u64 << (order[n - 1].ordinal() as u64))
    }
}

/// The nonempty document masks that lie within `p`, in document order.
pub open spec fn stage_masks(masks: Seq<u64>, p: u64) -> Seq<u64> {
    masks.filter(|m: u64| m != 0 && is_submask(m, p))
}

/// `b` is what the Betti computation gives at the stage with vertices `p`:
/// one zero per vertex when no document lies within `p`, else the Betti
/// numbers of the complex of the documents that do.
pub open spec fn stage_betti_ok(masks: Seq<u64>, p: u64, b: Seq<usize>) -> bool {
    let s = stage_masks(masks, p);
    &&& (count_bits(p, 11) == 0 || s.len() == 0) ==> b == Seq::new(count_bits(p, 11), |i: int| 0usize)
    &&& !(count_bits(p, 11) == 0 || s.len() == 0) ==> is_betti_sequence(s, p, b)
}

/// The entries of one stage: one per dimension with a positive Betti number,
/// in increasing dimension, born with `f` and persisting.
pub open spec fn stage_entries(b: Seq<usize>, f: DocumentFeature) -> Seq<PersistenceEntry>
    decreases b.len(),
{
    if b.len() == 0 {
        Seq::empty()
    } else {
        stage_entries(b.drop_last(), f) + if b.last() > 0 {
            seq![((b.len() - 1) as usize, Some(f), None::<DocumentFeature>)]
        } else {
            Seq::empty()
        }
    }
}

/// The entries of the first `n` stages, the stage `i` adding `order[i]` and
/// having the Betti numbers `stages[i]`.
pub open spec fn persistence_entries(
    order: Seq<DocumentFeature>,
    stages: Seq<Seq<usize>>,
    n: nat,
) -> Seq<PersistenceEntry>
    decreases n,
{
    if n == 0 {
        Seq::empty()
    } else {
        persistence_entries(order, stages, (n - 1) as nat) + stage_entries(stages[n - 1], order[n - 1])
    }
}

/// Number of stages computed for `n` features: `n`, at most six.
pub open spec fn stage_count(n: nat) -> nat {
    if n < 6 {
        n
    } else {
        6
    }
}

/// `r` is the persistence along the filtration `order`, with Betti numbers
/// `stages` at its stages.
pub open spec fn persistence_along(
    masks: Seq<u64>,
    order: Seq<DocumentFeature>,
    stages: Seq<Seq<usize>>,
    r: Seq<PersistenceEntry>,
) -> bool {
    &&& stages.len() == stage_count(order.len())
    &&& forall|i: int|
        0 <= i < stages.len() ==> stage_betti_ok(masks, prefix_mask(order, (i + 1) as nat), #[trigger] stages[i])
    &&& r == persistence_entries(order, stages, stages.len())
}

/// `r` is the persistence of the complex of the documents `masks` whose
/// observed features are `active`.
pub open spec fn is_persistence(masks: Seq<u64>, active: u64, r: Seq<PersistenceEntry>) -> bool {
    exists|order: Seq<DocumentFeature>, stages: Seq<Seq<usize>>|
        is_filtration_order(masks, active, order) && #[trigger] persistence_along(masks, order, stages, r)
}

/// `f` comes before `g` by the counts `freq`, indexed by ordinal.
pub open spec fn count_before(freq: Seq<usize>, f: DocumentFeature, g: DocumentFeature) -> bool {
    ||| freq[f.ordinal()] < freq[g.ordinal()]
    ||| freq[f.ordinal()] == freq[g.ordinal()] && f.ordinal() < g.ordinal()
}

/// The number of documents containing each feature, by ordinal.
fn frequencies(masks: &Vec<u64>) -> (freq: Vec<usize>)
    ensures
        freq@.len() == FEATURE_COUNT,
        forall|i: int| 0 <= i < FEATURE_COUNT ==> #[trigger] freq@[i] == frequency(masks@, feature_at(i)),
{
    let mut freq: Vec<usize> = Vec::new();
    let mut i: usize = 0;
    while i < FEATURE_COUNT
        invariant
            i <= FEATURE_COUNT,
            freq@.len() == i,
            forall|t: int| 0 <= t < i ==> #[trigger] freq@[t] == frequency(masks@, feature_at(t)),
        decreases FEATURE_COUNT - i,
    {
        let f = DocumentFeature::from_index(i);
        let ghost p = |m: u64| has_bit(m, f.ordinal());
        let mut c: usize = 0;
        let mut j: usize = 0;
        proof {
            reveal_with_fuel(Seq::filter, 1);
            assert(masks@.take(0) =~= Seq::<u64>::empty());
        }
        while j < masks.len()
            invariant
                j <= masks@.len(),
                i < FEATURE_COUNT,
                f.ordinal() == i,
                p == (|m: u64| has_bit(m, f.ordinal())),
                c == masks@.take(j as int).filter(p).len(),
                c <= j,
            decreases masks@.len() - j,
        {
            let m = masks[j];
            if (m >> (i as u64)) & 1u64 == 1u64 {
                c += 1;
            }
            proof {
                reveal_with_fuel(Seq::filter, 1);
                assert(masks@.take(j + 1).drop_last() =~= masks@.take(j as int));
                assert(masks@.take(j + 1).last() == m);
            }
            j += 1;
        }
        proof {
            assert(masks@.take(masks@.len() as int) =~= masks@);
        }
        freq.push(c);
        i += 1;
    }
    freq
}

/// `g` comes before `f` by the counts `freq`.
fn counts_before(freq: &Vec<usize>, g: DocumentFeature, f: DocumentFeature) -> (r: bool)
    requires
        freq@.len() == FEATURE_COUNT,
    ensures
        r == count_before(freq@, g, f),
{
    let gi = g.index();
    let fi = f.index();
    freq[gi] < freq[fi] || (freq[gi] == freq[fi] && gi < fi)
}

/// The features of `active`, ordered by their counts in `freq`, ties in the
/// canonical order.
fn filtration_order(freq: &Vec<usize>, active: u64) -> (order: Vec<DocumentFeature>)
    requires
        freq@.len() == FEATURE_COUNT,
    ensures
        forall|f: DocumentFeature| #[trigger] order@.contains(f) <==> has_bit(active, f.ordinal()),
        forall|a: int, b: int|
            0 <= a < b < order@.len() ==> count_before(freq@, #[trigger] order@[a], #[trigger] order@[b]),
{
    let mut order: Vec<DocumentFeature> = Vec::new();
    let mut i: usize = 0;
    while i < FEATURE_COUNT
        invariant
            i <= FEATURE_COUNT,
            freq@.len() == FEATURE_COUNT,
            forall|f: DocumentFeature| #[trigger] order@.contains(f) <==> (has_bit(active, f.ordinal()) && f.ordinal() < i),
            forall|a: int, b: int|
                0 <= a < b < order@.len() ==> count_before(freq@, #[trigger] order@[a], #[trigger] order@[b]),
        decreases FEATURE_COUNT - i,
    {
        let f = DocumentFeature::from_index(i);
        if (active >> (i as u64)) & 1u64 == 1u64 {
            let mut j: usize = 0;
            while j < order.len() && counts_before(freq, order[j], f)
                invariant
                    j <= order@.len(),
                    freq@.len() == FEATURE_COUNT,
                    forall|t: int| 0 <= t < j ==> count_before(freq@, #[trigger] order@[t], f),
                decreases order@.len() - j,
            {
                j += 1;
            }
            proof {
                assert forall|t: int| j <= t < order@.len() implies count_before(freq@, f, #[trigger] order@[t]) by {
                    assert(order@.contains(order@[j as int]));
                    assert(order@.contains(order@[t]));
                    if t > j {
                        assert(count_before(freq@, order@[j as int], order@[t]));
                    }
                }
            }
            let ghost before = order@;
            order.insert(j, f);
            proof {
                before.insert_ensures(j as int, f);
                assert forall|g: DocumentFeature| #[trigger] order@.contains(g) <==> (has_bit(active, g.ordinal())
                    && g.ordinal() < i + 1) by {
                    if order@.contains(g) {
                        let k = choose|k: int| 0 <= k < order@.len() && order@[k] == g;
                        if k < j {
                            assert(before.contains(before[k]));
                        } else if k > j {
                            assert(before.contains(before[k - 1]));
                        }
                    }
                    if has_bit(active, g.ordinal()) && g.ordinal() < i + 1 {
                        if g.ordinal() < i {
                            assert(before.contains(g));
                            let k = choose|k: int| 0 <= k < before.len() && before[k] == g;
                            if k < j {
                                assert(order@[k] == g);
                            } else {
                                assert(order@[k + 1] == g);
                            }
                        } else {
                            crate::feature::lemma_feature_at_ordinal(g);
                            assert(order@[j as int] == f);
                        }
                    }
                }
                assert forall|a: int, b: int| 0 <= a < b < order@.len() implies count_before(
                    freq@,
                    #[trigger] order@[a],
                    #[trigger] order@[b],
                ) by {
                    if b < j {
                        assert(order@[a] == before[a] && order@[b] == before[b]);
                    } else if b == j {
                        assert(order@[a] == before[a]);
                    } else if a < j {
                        assert(order@[a] == before[a] && order@[b] == before[b - 1]);
                    } else if a == j {
                        assert(order@[b] == before[b - 1]);
                    } else {
                        assert(order@[a] == before[a - 1] && order@[b] == before[b - 1]);
                    }
                }
            }
        } else {
            proof {
                assert forall|g: DocumentFeature| #[trigger] order@.contains(g) <==> (has_bit(active, g.ordinal())
                    && g.ordinal() < i + 1) by {
                    if g.ordinal() == i {
                        assert(!has_bit(active, g.ordinal()));
                    }
                }
            }
        }
        i += 1;
    }
    order
}

/// The nonempty masks that lie within `p`, in order.
fn stage_filter(masks: &Vec<u64>, p: u64) -> (s: Vec<u64>)
    ensures
        s@ == stage_masks(masks@, p),
        masks_within(s@, p),
{
    let ghost keep = |m: u64| m != 0 && is_submask(m, p);
    let mut s: Vec<u64> = Vec::new();
    let mut j: usize = 0;
    proof {
        reveal_with_fuel(Seq::filter, 1);
        assert(masks@.take(0) =~= Seq::<u64>::empty());
    }
    while j < masks.len()
        invariant
            j <= masks@.len(),
            keep == (|m: u64| m != 0 && is_submask(m, p)),
            s@ == masks@.take(j as int).filter(keep),
            masks_within(s@, p),
        decreases masks@.len() - j,
    {
        let m = masks[j];
        if m != 0 && m & p == m {
            s.push(m);
        }
        proof {
            reveal_with_fuel(Seq::filter, 1);
            assert(masks@.take(j + 1).drop_last() =~= masks@.take(j as int));
            assert(masks@.take(j + 1).last() == m);
        }
        j += 1;
    }
    proof {
        assert(masks@.take(masks@.len() as int) =~= masks@);
    }
    s
}

impl DocumentFeatureSpace {
    /// Persistent homology (simplified): add the observed features one at a
    /// time, rarest first, and after each of the first six additions record,
    /// for every dimension whose Betti number is positive on the documents whose
    /// features have all been added, an entry `(dimension, Some(feature), None)`
    /// born with the feature just added.
    pub fn persistent_homology(&self) -> (r: Vec<PersistenceEntry>)
        requires
            self.wf(),
        ensures
            is_persistence(self.doc_masks(), self.active_mask(), r@),
    {
        let masks = self.masks_vec();
        let active = self.active_mask_exec();
        let freq = frequencies(&masks);
        let order = filtration_order(&freq, active);
        proof {
            assert forall|a: int, b: int| 0 <= a < b < order@.len() implies filtration_before(
                masks@,
                #[trigger] order@[a],
                #[trigger] order@[b],
            ) by {
                assert(count_before(freq@, order@[a], order@[b]));
                crate::feature::lemma_feature_at_ordinal(order@[a]);
                crate::feature::lemma_feature_at_ordinal(order@[b]);
                assert(freq@[order@[a].ordinal()] == frequency(masks@, order@[a]));
                assert(freq@[order@[b].ordinal()] == frequency(masks@, order@[b]));
            }
        }
        let n = if order.len() < 6 {
            order.len()
        } else {
            6
        };
        let mut out: Vec<PersistenceEntry> = Vec::new();
        let mut p: u64 = 0;
        let ghost mut stages: Seq<Seq<usize>> = Seq::empty();
        let mut idx: usize = 0;
        while idx < n
            invariant
                idx <= n,
                n == stage_count(order@.len()),
                stages.len() == idx,
                p == prefix_mask(order@, idx as nat),
                forall|t: int|
                    0 <= t < idx ==> stage_betti_ok(masks@, prefix_mask(order@, (t + 1) as nat), #[trigger] stages[t]),
                out@ == persistence_entries(order@, stages, idx as nat),
            decreases n - idx,
        {
            let f = order[idx];
            p = p | (1u64 << (f.index() as u64));
            let filtered = stage_filter(&masks, p);
            let b = compute_simple_betti(&filtered, p);
            let ghost head = out@;
            let mut d: usize = 0;
            proof {
                assert(b@.take(0) =~= Seq::<usize>::empty());
            }
            while d < b.len()
                invariant
                    d <= b@.len(),
                    out@ == head + stage_entries(b@.take(d as int), f),
                decreases b@.len() - d,
            {
                if b[d] > 0 {
                    out.push((d, Some(f), None));
                }
                proof {
                    assert(b@.take(d + 1).drop_last() =~= b@.take(d as int));
                    assert(b@.take(d + 1).last() == b@[d as int]);
                    assert(out@ =~= head + stage_entries(b@.take(d + 1), f));
                }
                d += 1;
            }
            proof {
                assert(b@.take(b@.len() as int) =~= b@);
                assert(stages.push(b@).drop_last() =~= stages);
                stages = stages.push(b@);
                assert(p == prefix_mask(order@, (idx + 1) as nat));
                assert forall|t: int| 0 <= t < idx + 1 implies stage_betti_ok(
                    masks@,
                    prefix_mask(order@, (t + 1) as nat),
                    #[trigger] stages[t],
                ) by {
                    if t < idx {
                        assert(stages[t] == stages.drop_last()[t]);
                    }
                }
                assert(persistence_entries(order@, stages, (idx + 1) as nat) == persistence_entries(
                    order@,
                    stages.drop_last(),
                    idx as nat,
                ) + stage_entries(b@, f)) by {
                    lemma_entries_prefix(order@, stages.drop_last(), stages, idx as nat);
                }
            }
            idx += 1;
        }
        proof {
            assert(persistence_along(masks@, order@, stages, out@));
        }
        out
    }
}

/// The entries of the first `n` stages depend only on the first `n` stages.
proof fn lemma_entries_prefix(
    order: Seq<DocumentFeature>,
    s1: Seq<Seq<usize>>,
    s2: Seq<Seq<usize>>,
    n: nat,
)
    requires
        n <= s1.len(),
        n <= s2.len(),
        forall|t: int| 0 <= t < n ==> s1[t] == s2[t],
    ensures
        persistence_entries(order, s1, n) == persistence_entries(order, s2, n),
    decreases n,
{
    if n > 0 {
        lemma_entries_prefix(order, s1, s2, (n - 1) as nat);
    }
}

/// The persistence is well defined: the filtration order is unique, and so are
/// the Betti numbers of each stage.
pub proof fn lemma_persistence_unique(
    masks: Seq<u64>,
    active: u64,
    r1: Seq<PersistenceEntry>,
    r2: Seq<PersistenceEntry>,
)
    requires
        is_persistence(masks, active, r1),
        is_persistence(masks, active, r2),
    ensures
        r1 == r2,
{
    let (o1, st1) = choose|order: Seq<DocumentFeature>, stages: Seq<Seq<usize>>|
        is_filtration_order(masks, active, order) && #[trigger] persistence_along(masks, order, stages, r1);
    let (o2, st2) = choose|order: Seq<DocumentFeature>, stages: Seq<Seq<usize>>|
        is_filtration_order(masks, active, order) && #[trigger] persistence_along(masks, order, stages, r2);
    lemma_sorted_unique(|f: DocumentFeature, g: DocumentFeature| filtration_before(masks, f, g), o1, o2);
    assert forall|i: int| 0 <= i < st1.len() implies st1[i] == st2[i] by {
        let p = prefix_mask(o1, (i + 1) as nat);
        assert(stage_betti_ok(masks, p, st1[i]));
        assert(stage_betti_ok(masks, p, st2[i]));
        if !(count_bits(p, 11) == 0 || stage_masks(masks, p).len() == 0) {
            lemma_betti_unique(stage_masks(masks, p), p, st1[i], st2[i]);
        }
    }
    assert(st1 =~= st2);
}

/// The feature an entry was born with.
pub open spec fn birth(e: PersistenceEntry) -> DocumentFeature {
    e.1->0
}

/// Every entry of a stage is a positive dimension of its Betti numbers, born
/// with the stage's feature and persisting.
proof fn lemma_stage_entries(b: Seq<usize>, f: DocumentFeature)
    requires
        b.len() <= usize::MAX,
    ensures
        forall|i: int|
            0 <= i < stage_entries(b, f).len() ==> {
                let e = #[trigger] stage_entries(b, f)[i];
                &&& e.1 == Some(f)
                &&& e.2 is None
                &&& e.0 < b.len()
                &&& b[e.0 as int] > 0
            },
    decreases b.len(),
{
    if b.len() > 0 {
        let bl = b.drop_last();
        lemma_stage_entries(bl, f);
        let prev = stage_entries(bl, f);
        let tail = if b.last() > 0 {
            seq![((b.len() - 1) as usize, Some(f), None::<DocumentFeature>)]
        } else {
            Seq::empty()
        };
        let all = stage_entries(b, f);
        assert(all == prev + tail);
        assert forall|i: int| 0 <= i < all.len() implies {
            let e = #[trigger] all[i];
            &&& e.1 == Some(f)
            &&& e.2 is None
            &&& e.0 < b.len()
            &&& b[e.0 as int] > 0
        } by {
            if i < prev.len() {
                assert(all[i] == prev[i]);
                let e = prev[i];
                assert(e.0 < bl.len());
                assert(bl[e.0 as int] == b[e.0 as int]);
            } else {
                assert(all[i] == tail[i - prev.len()]);
                assert(all[i].0 == b.len() - 1);
            }
        }
    }
}

/// A prefix of `n` features of an order has at most `n` bits.
proof fn lemma_prefix_bits(order: Seq<DocumentFeature>, n: nat)
    ensures
        prefix_mask(order, n) < MASK_SPACE,
        count_bits(prefix_mask(order, n), 11) <= n,
    decreases n,
{
    if n == 0 {
        lemma_zero_mask();
        crate::complex::lemma_count_zero(0u64, 0);
        lemma_count_bits_set(0u64, 11);
        assert(bit_set(0u64) =~= Set::<int>::empty());
    } else {
        let p = prefix_mask(order, (n - 1) as nat);
        let o = order[n - 1].ordinal();
        lemma_prefix_bits(order, (n - 1) as nat);
        crate::feature::lemma_feature_at_ordinal(order[n - 1]);
        lemma_set_bit(p, o);
        lemma_count_bits_set(p, 11);
        lemma_count_bits_set(p | (1u64 << (o as u64)), 11);
        assert(bit_set(p | (1u64 << (o as u64))) =~= bit_set(p).insert(o));
    }
}

/// The entry `e` was recorded at stage `j` of the filtration `order` with stage
/// Betti numbers `stages`.
pub open spec fn born_at(order: Seq<DocumentFeature>, stages: Seq<Seq<usize>>, e: PersistenceEntry, j: int) -> bool {
    &&& e.1 == Some(order[j])
    &&& e.2 is None
    &&& e.0 < stages[j].len()
    &&& stages[j][e.0 as int] > 0
}

/// The entry `e` was recorded at one of the first `n` stages.
pub open spec fn recorded_within(order: Seq<DocumentFeature>, stages: Seq<Seq<usize>>, e: PersistenceEntry, n: nat) -> bool {
    exists|j: int| 0 <= j < n && #[trigger] born_at(order, stages, e, j)
}

/// The entry `e` was born with the feature at position `j` of `order`.
pub open spec fn born_with(order: Seq<DocumentFeature>, e: PersistenceEntry, j: int) -> bool {
    e.1 == Some(order[j])
}

/// `e1` and `e2` were born with features at positions `j1 <= j2` of the first
/// `n` of `order`.
pub open spec fn born_in_order(order: Seq<DocumentFeature>, e1: PersistenceEntry, e2: PersistenceEntry, n: nat) -> bool {
    exists|j1: int, j2: int|
        0 <= j1 <= j2 < n && #[trigger] born_with(order, e1, j1) && #[trigger] born_with(order, e2, j2)
}

/// The entries of the first `n` stages: each recorded at one of those stages,
/// and born no later in the order than the entries after it.
proof fn lemma_entries_shape(order: Seq<DocumentFeature>, stages: Seq<Seq<usize>>, n: nat)
    requires
        n <= order.len(),
        n <= stages.len(),
        forall|j: int| 0 <= j < n ==> (#[trigger] stages[j]).len() <= 7,
    ensures
        forall|i: int|
            0 <= i < persistence_entries(order, stages, n).len() ==> recorded_within(
                order,
                stages,
                #[trigger] persistence_entries(order, stages, n)[i],
                n,
            ),
        forall|i1: int, i2: int|
            0 <= i1 < i2 < persistence_entries(order, stages, n).len() ==> born_in_order(
                order,
                #[trigger] persistence_entries(order, stages, n)[i1],
                #[trigger] persistence_entries(order, stages, n)[i2],
                n,
            ),
    decreases n,
{
    if n > 0 {
        let m = (n - 1) as nat;
        lemma_entries_shape(order, stages, m);
        lemma_stage_entries(stages[m as int], order[m as int]);
        let prev = persistence_entries(order, stages, m);
        let last = stage_entries(stages[m as int], order[m as int]);
        let all = persistence_entries(order, stages, n);
        assert(all == prev + last);
        assert forall|i: int| 0 <= i < all.len() implies recorded_within(order, stages, #[trigger] all[i], n) by {
            if i < prev.len() {
                assert(all[i] == prev[i]);
                assert(recorded_within(order, stages, prev[i], m));
                let j = choose|j: int| 0 <= j < m && #[trigger] born_at(order, stages, prev[i], j);
                assert(born_at(order, stages, all[i], j));
            } else {
                assert(all[i] == last[i - prev.len()]);
                assert(born_at(order, stages, all[i], m as int));
            }
        }
        assert forall|i1: int, i2: int| 0 <= i1 < i2 < all.len() implies born_in_order(
            order,
            #[trigger] all[i1],
            #[trigger] all[i2],
            n,
        ) by {
            if i2 < prev.len() {
                assert(all[i1] == prev[i1] && all[i2] == prev[i2]);
                assert(born_in_order(order, prev[i1], prev[i2], m));
                let (j1, j2) = choose|j1: int, j2: int|
                    0 <= j1 <= j2 < m && #[trigger] born_with(order, prev[i1], j1) && #[trigger] born_with(
                        order,
                        prev[i2],
                        j2,
                    );
                assert(born_with(order, all[i1], j1) && born_with(order, all[i2], j2));
            } else if i1 < prev.len() {
                assert(all[i1] == prev[i1]);
                assert(all[i2] == last[i2 - prev.len()]);
                assert(recorded_within(order, stages, prev[i1], m));
                let j1 = choose|j: int| 0 <= j < m && #[trigger] born_at(order, stages, prev[i1], j);
                assert(born_with(order, all[i1], j1) && born_with(order, all[i2], m as int));
            } else {
                assert(all[i1] == last[i1 - prev.len()]);
                assert(all[i2] == last[i2 - prev.len()]);
                assert(born_with(order, all[i1], m as int) && born_with(order, all[i2], m as int));
            }
        }
    }
}

/// What the persistence holds: every entry is born with an observed feature,
/// in a dimension of at most six, and persists; births come rarest first, and
/// among features as frequent in canonical order; and
/// an empty space has no entry.
pub proof fn lemma_persistence_shape(masks: Seq<u64>, active: u64, r: Seq<PersistenceEntry>)
    requires
        is_persistence(masks, active, r),
    ensures
        forall|i: int|
            0 <= i < r.len() ==> {
                let e = #[trigger] r[i];
                &&& e.1 is Some
                &&& e.2 is None
                &&& has_bit(active, birth(e).ordinal())
                &&& e.0 <= 6
            },
        forall|i1: int, i2: int|
            0 <= i1 < i2 < r.len() ==> frequency(masks, birth(#[trigger] r[i1])) <= frequency(masks, birth(#[trigger] r[i2])),
        forall|i1: int, i2: int|
            0 <= i1 < i2 < r.len() && frequency(masks, birth(#[trigger] r[i1])) == frequency(masks, birth(#[trigger] r[i2]))
                ==> birth(r[i1]).ordinal() <= birth(r[i2]).ordinal(),
        r.map_values(|e: PersistenceEntry| birth(e)).to_set().len() <= 6,
        active == 0 ==> r.len() == 0,
{
    let (order, stages) = choose|order: Seq<DocumentFeature>, stages: Seq<Seq<usize>>|
        is_filtration_order(masks, active, order) && #[trigger] persistence_along(masks, order, stages, r);
    let n = stages.len();
    assert forall|j: int| 0 <= j < n implies (#[trigger] stages[j]).len() <= 7 by {
        let p = prefix_mask(order, (j + 1) as nat);
        assert(stage_betti_ok(masks, p, stages[j]));
        lemma_prefix_bits(order, (j + 1) as nat);
    }
    lemma_entries_shape(order, stages, n);
    assert forall|i: int| 0 <= i < r.len() implies {
        let e = #[trigger] r[i];
        &&& e.1 is Some
        &&& e.2 is None
        &&& has_bit(active, birth(e).ordinal())
        &&& e.0 <= 6
    } by {
        assert(r[i] == persistence_entries(order, stages, n)[i]);
        assert(recorded_within(order, stages, r[i], n));
        let j = choose|j: int| 0 <= j < n && #[trigger] born_at(order, stages, r[i], j);
        let e = r[i];
        assert(order.contains(order[j]));
        let p = prefix_mask(order, (j + 1) as nat);
        assert(stage_betti_ok(masks, p, stages[j]));
        lemma_prefix_bits(order, (j + 1) as nat);
        if count_bits(p, 11) == 0 || stage_masks(masks, p).len() == 0 {
            assert(stages[j][e.0 as int] == 0);
        } else {
            assert(stages[j].len() == max_dim(p) + 1);
        }
    }
    assert forall|i1: int, i2: int| 0 <= i1 < i2 < r.len() implies frequency(masks, birth(#[trigger] r[i1]))
        <= frequency(masks, birth(#[trigger] r[i2])) by {
        assert(r[i1] == persistence_entries(order, stages, n)[i1]);
        assert(r[i2] == persistence_entries(order, stages, n)[i2]);
        assert(born_in_order(order, r[i1], r[i2], n));
        let (j1, j2) = choose|j1: int, j2: int|
            0 <= j1 <= j2 < n && #[trigger] born_with(order, r[i1], j1) && #[trigger] born_with(order, r[i2], j2);
        if j1 < j2 {
            assert(filtration_before(masks, order[j1], order[j2]));
        }
    }
    assert forall|i1: int, i2: int|
        0 <= i1 < i2 < r.len() && frequency(masks, birth(#[trigger] r[i1])) == frequency(masks, birth(#[trigger] r[i2]))
            implies birth(r[i1]).ordinal() <= birth(r[i2]).ordinal() by {
        assert(r[i1] == persistence_entries(order, stages, n)[i1]);
        assert(r[i2] == persistence_entries(order, stages, n)[i2]);
        assert(born_in_order(order, r[i1], r[i2], n));
        let (j1, j2) = choose|j1: int, j2: int|
            0 <= j1 <= j2 < n && #[trigger] born_with(order, r[i1], j1) && #[trigger] born_with(order, r[i2], j2);
        if j1 < j2 {
            assert(filtration_before(masks, order[j1], order[j2]));
        }
    }
    let births = r.map_values(|e: PersistenceEntry| birth(e));
    let firsts = order.take(n as int);
    assert(stages.len() == stage_count(order.len()));
    assert forall|f: DocumentFeature| births.to_set().contains(f) implies firsts.to_set().contains(f) by {
        let i = choose|i: int| 0 <= i < births.len() && births[i] == f;
        assert(r[i] == persistence_entries(order, stages, n)[i]);
        assert(recorded_within(order, stages, r[i], n));
        let j = choose|j: int| 0 <= j < n && #[trigger] born_at(order, stages, r[i], j);
        assert(firsts[j] == f);
    }
    vstd::seq_lib::seq_to_set_is_finite(firsts);
    vstd::set_lib::lemma_len_subset(births.to_set(), firsts.to_set());
    firsts.lemma_cardinality_of_set();
    if active == 0 {
        lemma_zero_mask();
        if order.len() > 0 {
            assert(order.contains(order[0]));
        }
    }
}

/// A feature's frequency counts every document that holds it: none in no
/// document, and one more with each added document that holds it, also when
/// that document repeats the features of another.
pub proof fn lemma_frequency_counts(masks: Seq<u64>, m: u64, f: DocumentFeature)
    ensures
        frequency(Seq::<u64>::empty(), f) == 0,
        frequency(masks.push(m), f) == frequency(masks, f) + if has_bit(m, f.ordinal()) {
            1int
        } else {
            0int
        },
{
    let p = |x: u64| has_bit(x, f.ordinal());
    masks.lemma_filter_push(m, p);
    reveal_with_fuel(Seq::filter, 1);
    assert(Seq::<u64>::empty().filter(p) =~= Seq::<u64>::empty());
}

/// Every positive Betti number of a stage is recorded in the stage's entries.
proof fn lemma_stage_entries_complete(b: Seq<usize>, f: DocumentFeature)
    requires
        b.len() <= usize::MAX,
    ensures
        forall|d: int|
            0 <= d < b.len() && #[trigger] b[d] > 0 ==> stage_entries(b, f).contains((d as usize, Some(f), None::<DocumentFeature>)),
    decreases b.len(),
{
    if b.len() > 0 {
        let bl = b.drop_last();
        lemma_stage_entries_complete(bl, f);
        let prev = stage_entries(bl, f);
        let tail = if b.last() > 0 {
            seq![((b.len() - 1) as usize, Some(f), None::<DocumentFeature>)]
        } else {
            Seq::empty()
        };
        let all = stage_entries(b, f);
        assert(all == prev + tail);
        assert forall|d: int| 0 <= d < b.len() && #[trigger] b[d] > 0 implies all.contains(
            (d as usize, Some(f), None::<DocumentFeature>),
        ) by {
            let e = (d as usize, Some(f), None::<DocumentFeature>);
            if d < bl.len() {
                assert(bl[d] == b[d]);
                assert(prev.contains(e));
                let k = choose|k: int| 0 <= k < prev.len() && prev[k] == e;
                assert(all[k] == e);
            } else {
                assert(all[prev.len() as int] == e);
            }
        }
    }
}

/// The entries of the first `n` stages hold every entry of each of them.
proof fn lemma_entries_complete(order: Seq<DocumentFeature>, stages: Seq<Seq<usize>>, n: nat)
    requires
        n <= order.len(),
        n <= stages.len(),
        forall|j: int| 0 <= j < n ==> (#[trigger] stages[j]).len() <= 7,
    ensures
        forall|j: int, d: int|
            0 <= j < n && 0 <= d < stages[j].len() && #[trigger] stages[j][d] > 0 ==> persistence_entries(
                order,
                stages,
                n,
            ).contains((d as usize, Some(order[j]), None::<DocumentFeature>)),
    decreases n,
{
    if n > 0 {
        let m = (n - 1) as nat;
        lemma_entries_complete(order, stages, m);
        lemma_stage_entries_complete(stages[m as int], order[m as int]);
        let prev = persistence_entries(order, stages, m);
        let last = stage_entries(stages[m as int], order[m as int]);
        let all = persistence_entries(order, stages, n);
        assert(all == prev + last);
        assert forall|j: int, d: int|
            0 <= j < n && 0 <= d < stages[j].len() && #[trigger] stages[j][d] > 0 implies all.contains(
                (d as usize, Some(order[j]), None::<DocumentFeature>),
            ) by {
            let e = (d as usize, Some(order[j]), None::<DocumentFeature>);
            if j < m {
                assert(prev.contains(e));
                let k = choose|k: int| 0 <= k < prev.len() && prev[k] == e;
                assert(all[k] == e);
            } else {
                assert(last.contains(e));
                let k = choose|k: int| 0 <= k < last.len() && last[k] == e;
                assert(all[prev.len() + k] == e);
            }
        }
    }
}

/// Every positive Betti number of every stage is recorded: for each stage `j`
/// of the filtration and each dimension `d` in which its Betti number is
/// positive, the persistence holds the entry `(d, Some(order[j]), None)`.
pub proof fn lemma_persistence_complete(
    masks: Seq<u64>,
    active: u64,
    r: Seq<PersistenceEntry>,
    order: Seq<DocumentFeature>,
    stages: Seq<Seq<usize>>,
)
    requires
        is_filtration_order(masks, active, order),
        persistence_along(masks, order, stages, r),
    ensures
        forall|j: int, d: int|
            0 <= j < stages.len() && 0 <= d < stages[j].len() && #[trigger] stages[j][d] > 0 ==> r.contains(
                (d as usize, Some(order[j]), None::<DocumentFeature>),
            ),
{
    let n = stages.len();
    assert forall|j: int| 0 <= j < n implies (#[trigger] stages[j]).len() <= 7 by {
        let p = prefix_mask(order, (j + 1) as nat);
        assert(stage_betti_ok(masks, p, stages[j]));
        lemma_prefix_bits(order, (j + 1) as nat);
    }
    lemma_entries_complete(order, stages, n);
}

} // verus!
