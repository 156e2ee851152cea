//! A document feature space: the simplicial complex whose simplices are the
//! feature sets of known-working documents.
//!
//! Each document is stored under its name with its feature mask; adding a
//! document under a name already present replaces that document's features in
//! place. The observed features are every feature any added document ever had
//! (replacing a document does not remove features from them).

use vstd::prelude::*;
use crate::feature::{DocumentFeature, FEATURE_COUNT, label_of, all_features, feature_at, features_where, lex_lt};
use crate::complex::{
    has_bit, count_bits, is_submask, mask_where, masks_within, is_betti_sequence, lemma_mask_where,
    lemma_set_bit, lemma_mask_ext, lemma_submask_bit,
    simplicial_betti, bit_count, MASK_SPACE,
};
use crate::coverage::DocumentSignature;

verus! {

/// The features whose bits are set in `m`, in canonical order.
pub open spec fn mask_features(m: u64) -> Seq<DocumentFeature> {
    features_where(|f: DocumentFeature| has_bit(m, f.ordinal()))
}

/// The mask of the features named by some of the labels.
pub open spec fn labels_mask(labels: Seq<&str>) -> u64 {
    mask_where(
        |i: int| exists|j: int| 0 <= j < labels.len() && #[trigger] labels[j]@ == label_of(feature_at(i)),
        11,
    )
}

/// The features in alphabetical order of their labels.
pub open spec fn alphabetical_features() -> Seq<DocumentFeature> {
    seq![
        DocumentFeature::BidirectionalText,
        DocumentFeature::CodeBlocks,
        DocumentFeature::CrossReferences,
        DocumentFeature::Footnotes,
        DocumentFeature::Formulas,
        DocumentFeature::Headers,
        DocumentFeature::Images,
        DocumentFeature::Lists,
        DocumentFeature::NestedLists,
        DocumentFeature::Tables,
        DocumentFeature::Text,
    ]
}

/// The features whose bits are set in `m`, in canonical order.
pub fn features_of_mask(m: u64) -> (v: Vec<DocumentFeature>)
    ensures
        v@ == mask_features(m),
{
    let ghost p = |f: DocumentFeature| has_bit(m, f.ordinal());
    let mut v: Vec<DocumentFeature> = Vec::new();
    let mut i: usize = 0;
    proof {
        assert(all_features().take(0) =~= Seq::<DocumentFeature>::empty());
        reveal_with_fuel(Seq::filter, 1);
    }
    while i < FEATURE_COUNT
        invariant
            i <= FEATURE_COUNT,
            p == (|f: DocumentFeature| has_bit(m, f.ordinal())),
            v@ == all_features().take(i as int).filter(p),
        decreases FEATURE_COUNT - i,
    {
        let f = DocumentFeature::from_index(i);
        let keep = (m >> (i as u64)) & 1 == 1;
        if keep {
            v.push(f);
        }
        proof {
            reveal_with_fuel(Seq::filter, 1);
            assert(all_features().take(i + 1).drop_last() =~= all_features().take(i as int));
            assert(all_features().take(i + 1).last() == f);
        }
        i += 1;
    }
    assert(all_features().take(11) =~= all_features());
    v
}

/// The number of bits of a mask among the first `k` equals the number of
/// features among the first `k` whose bit is set.
pub proof fn lemma_count_bits_features(m: u64, k: nat)
    requires
        k <= 11,
    ensures
        count_bits(m, k) == all_features().take(k as int).filter(
            |f: DocumentFeature| has_bit(m, f.ordinal()),
        ).len(),
    decreases k,
{
    reveal_with_fuel(Seq::filter, 1);
    if k > 0 {
        lemma_count_bits_features(m, (k - 1) as nat);
        assert(all_features().take(k as int).drop_last() =~= all_features().take(k - 1));
    } else {
        assert(all_features().take(0) =~= Seq::<DocumentFeature>::empty());
    }
}

/// A feature space of documents and their feature sets.
#[derive(Debug, Clone)]
pub struct DocumentFeatureSpace {
    names: Vec<String>,
    masks: Vec<u64>,
    active: u64,
}

impl DocumentFeatureSpace {
    /// The document names, in insertion order.
    pub closed spec fn doc_names(&self) -> Seq<Seq<char>> {
        self.names@.map_values(|s: String| s@)
    }

    /// The feature masks of the documents, in the order of `doc_names`.
    pub closed spec fn doc_masks(&self) -> Seq<u64> {
        self.masks@
    }

    /// The mask of all features ever observed.
    pub closed spec fn active_mask(&self) -> u64 {
        self.active
    }

    /// The features of the document at position `i`, in canonical order.
    pub open spec fn document_features(&self, i: int) -> Seq<DocumentFeature> {
        mask_features(self.doc_masks()[i])
    }

    /// The observed features, in canonical order.
    pub open spec fn observed(&self) -> Seq<DocumentFeature> {
        mask_features(self.active_mask())
    }

    /// Internal consistency: one mask per name, names distinct, every mask a
    /// feature mask within the observed features.
    pub closed spec fn wf(&self) -> bool {
        &&& self.names@.len() == self.masks@.len()
        &&& self.doc_names().no_duplicates()
        &&& self.active < MASK_SPACE
        &&& forall|i: int| 0 <= i < self.masks@.len() ==> #[trigger] self.masks@[i] < MASK_SPACE
        &&& masks_within(self.masks@, self.active)
    }

    /// The feature masks of the documents.
    pub fn masks_vec(&self) -> (v: Vec<u64>)
        ensures
            v@ == self.doc_masks(),
    {
        self.masks.clone()
    }

    /// The mask of the observed features.
    pub fn active_mask_exec(&self) -> (m: u64)
        ensures
            m == self.active_mask(),
    {
        self.active
    }

    /// Facts that well-formedness gives.
    pub proof fn lemma_wf(&self)
        requires
            self.wf(),
        ensures
            self.doc_names().len() == self.doc_masks().len(),
            self.doc_names().no_duplicates(),
            self.active_mask() < MASK_SPACE,
            forall|i: int| 0 <= i < self.doc_masks().len() ==> #[trigger] self.doc_masks()[i] < MASK_SPACE,
            masks_within(self.doc_masks(), self.active_mask()),
    {
    }

    /// Create a new, empty document feature space.
    pub fn new() -> (s: Self)
        ensures
            s.wf(),
            s.doc_names() == Seq::<Seq<char>>::empty(),
            s.doc_masks() == Seq::<u64>::empty(),
            s.active_mask() == 0,
    {
        let s = DocumentFeatureSpace { names: Vec::new(), masks: Vec::new(), active: 0 };
        assert(s.doc_names() =~= Seq::<Seq<char>>::empty());
        s
    }

    /// Stores `mask` under `name`, replacing the mask of a document of that name.
    fn insert(&mut self, name: &str, mask: u64)
        requires
            old(self).wf(),
            mask < MASK_SPACE,
        ensures
            final(self).wf(),
            final(self).active_mask() == old(self).active_mask() | mask,
            forall|i: int|
                0 <= i < old(self).doc_names().len() && #[trigger] old(self).doc_names()[i] == name@
                    ==> final(self).doc_names() == old(self).doc_names() && final(self).doc_masks()
                    == old(self).doc_masks().update(i, mask),
            !old(self).doc_names().contains(name@) ==> final(self).doc_names() == old(
                self,
            ).doc_names().push(name@) && final(self).doc_masks() == old(self).doc_masks().push(mask),
    {
        let ghost old_names = self.doc_names();
        let key = name.to_owned();
        let found = self.position_of(&key);
        proof {
            lemma_or_facts(mask, self.active);
            assert forall|i: int| 0 <= i < self.masks@.len() implies is_submask(
                #[trigger] self.masks@[i],
                self.active | mask,
            ) by {
                assert(is_submask(self.masks@[i], self.active));
                lemma_submask_trans(self.masks@[i], self.active, self.active | mask);
            }
        }
        self.active = self.active | mask;
        match found {
            Some(i) => {
                self.masks.set(i, mask);
                proof {
                    assert forall|t: int|
                        0 <= t < old_names.len() && #[trigger] old_names[t] == name@ implies t == i by {
                        assert(old_names.no_duplicates());
                        assert(old_names[i as int] == name@);
                    }
                    assert(self.doc_names() == old_names);
                    assert forall|t: int| 0 <= t < self.masks@.len() implies is_submask(
                        #[trigger] self.masks@[t],
                        self.active,
                    ) && self.masks@[t] < MASK_SPACE by {
                        if t != i {
                            assert(self.masks@[t] == old(self).masks@[t]);
                        }
                    }
                }
            },
            None => {
                self.names.push(key);
                self.masks.push(mask);
                proof {
                    assert(self.doc_names() =~= old_names.push(name@));
                    assert(!old_names.contains(name@)) by {
                        if old_names.contains(name@) {
                            let t = choose|t: int| 0 <= t < old_names.len() && old_names[t] == name@;
                            assert(old_names[t] != name@);
                        }
                    }
                    assert(self.doc_names().no_duplicates()) by {
                        assert forall|a: int, b: int|
                            0 <= a < self.doc_names().len() && 0 <= b < self.doc_names().len() && a != b
                            implies self.doc_names()[a] != self.doc_names()[b] by {
                            if b == old_names.len() {
                                assert(old_names[a] != name@);
                            } else if a == old_names.len() {
                                assert(old_names[b] != name@);
                            } else {
                                assert(old_names.no_duplicates());
                            }
                        }
                    }
                    assert forall|t: int| 0 <= t < self.masks@.len() implies is_submask(
                        #[trigger] self.masks@[t],
                        self.active,
                    ) && self.masks@[t] < MASK_SPACE by {
                        if t < old_names.len() {
                            assert(self.masks@[t] == old(self).masks@[t]);
                        }
                    }
                }
            },
        }
    }

    /// The position of the document named `key`, if any.
    fn position_of(&self, key: &String) -> (r: Option<usize>)
        requires
            self.wf(),
        ensures
            r matches Some(i) ==> i < self.doc_names().len() && self.doc_names()[i as int] == key@,
            r is None ==> forall|t: int| 0 <= t < self.doc_names().len() ==> #[trigger] self.doc_names()[t] != key@,
    {
        let mut i: usize = 0;
        while i < self.names.len()
            invariant
                i <= self.names@.len(),
                self.names@.len() == self.masks@.len(),
                forall|t: int| 0 <= t < i ==> #[trigger] self.doc_names()[t] != key@,
            decreases self.names@.len() - i,
        {
            if self.names[i] == *key {
                return Some(i);
            }
            i += 1;
        }
        None
    }

    /// Add a document and its feature set to the space.
    ///
    /// `features` holds feature labels (e.g. `"text"`, `"tables"`, `"images"`);
    /// unknown labels are ignored.
    pub fn add_document(&mut self, name: &str, features: &[&str])
        requires
            old(self).wf(),
        ensures
            final(self).wf(),
            final(self).active_mask() == old(self).active_mask() | labels_mask(features@),
            forall|i: int|
                0 <= i < old(self).doc_names().len() && #[trigger] old(self).doc_names()[i] == name@
                    ==> final(self).doc_names() == old(self).doc_names() && final(self).doc_masks()
                    == old(self).doc_masks().update(i, labels_mask(features@)),
            !old(self).doc_names().contains(name@) ==> final(self).doc_names() == old(
                self,
            ).doc_names().push(name@) && final(self).doc_masks() == old(self).doc_masks().push(
                labels_mask(features@),
            ),
    {
        let ghost p = |i: int| exists|j: int| 0 <= j < features@.len() && #[trigger] features@[j]@ == label_of(feature_at(i));
        let mut mask: u64 = 0;
        let mut j: usize = 0;
        proof {
            lemma_mask_where(|i: int| false, 0);
        }
        while j < features.len()
            invariant
                j <= features@.len(),
                mask < MASK_SPACE,
                forall|t: int| 0 <= t < 64 ==> #[trigger] has_bit(mask, t) == (t < 11 && exists|k: int| 0 <= k < j && #[trigger] features@[k]@ == label_of(feature_at(t))),
            decreases features@.len() - j,
        {
            let label: &str = features[j];
            let found = DocumentFeature::from_label(label);
            match found {
                Some(f) => {
                    let i = f.index();
                    proof {
                        lemma_set_bit(mask, i as int);
                        crate::feature::lemma_feature_at_ordinal(f);
                    }
                    mask = mask | (1u64 << (i as u64));
                },
                None => {},
            }
            proof {
                assert forall|t: int| 0 <= t < 64 implies #[trigger] has_bit(mask, t) == (t < 11 && exists|k: int| 0 <= k < j + 1 && #[trigger] features@[k]@ == label_of(feature_at(t))) by {
                    if t < 11 && features@[j as int]@ == label_of(feature_at(t)) {
                        assert(0 <= j < j + 1 && features@[j as int]@ == label_of(feature_at(t)));
                        crate::feature::lemma_labels_distinct();
                        crate::feature::lemma_feature_at_ordinal(feature_at(t));
                    }
                    if t < 11 && exists|k: int| 0 <= k < j + 1 && #[trigger] features@[k]@ == label_of(feature_at(t)) {
                        let k = choose|k: int| 0 <= k < j + 1 && #[trigger] features@[k]@ == label_of(feature_at(t));
                        if k < j {
                            assert(0 <= k < j && features@[k]@ == label_of(feature_at(t)));
                        } else {
                            crate::feature::lemma_feature_at_ordinal(feature_at(t));
                        }
                    }
                }
            }
            j += 1;
        }
        proof {
            lemma_mask_where(p, 11);
            lemma_mask_ext(mask, labels_mask(features@));
        }
        self.insert(name, mask);
    }

    /// Add a document from a parsed `DocumentSignature`.
    pub fn add_signature(&mut self, name: &str, sig: &DocumentSignature)
        requires
            old(self).wf(),
        ensures
            final(self).wf(),
            final(self).active_mask() == old(self).active_mask() | sig.mask_spec(),
            forall|i: int|
                0 <= i < old(self).doc_names().len() && #[trigger] old(self).doc_names()[i] == name@
                    ==> final(self).doc_names() == old(self).doc_names() && final(self).doc_masks()
                    == old(self).doc_masks().update(i, sig.mask_spec()),
            !old(self).doc_names().contains(name@) ==> final(self).doc_names() == old(
                self,
            ).doc_names().push(name@) && final(self).doc_masks() == old(self).doc_masks().push(
                sig.mask_spec(),
            ),
    {
        let m = sig.mask();
        self.insert(name, m);
    }

    /// Number of dimensions (observed features) in this space.
    pub fn dimensions(&self) -> (n: usize)
        requires
            self.wf(),
        ensures
            n == self.observed().len(),
            n == count_bits(self.active_mask(), 11),
    {
        proof {
            lemma_count_bits_features(self.active, 11);
            assert(all_features().take(11) =~= all_features());
        }
        bit_count(self.active)
    }

    /// Number of documented simplices.
    pub fn simplex_count(&self) -> (n: usize)
        requires
            self.wf(),
        ensures
            n == self.doc_names().len(),
    {
        self.names.len()
    }

    /// The feature set of every document, each in canonical order, in document order.
    pub fn simplices(&self) -> (v: Vec<Vec<DocumentFeature>>)
        requires
            self.wf(),
        ensures
            v@.len() == self.doc_masks().len(),
            forall|i: int| 0 <= i < v@.len() ==> #[trigger] v@[i]@ == self.document_features(i),
    {
        let mut v: Vec<Vec<DocumentFeature>> = Vec::new();
        let mut i: usize = 0;
        while i < self.masks.len()
            invariant
                i <= self.masks@.len(),
                v@.len() == i,
                forall|t: int| 0 <= t < i ==> #[trigger] v@[t]@ == self.document_features(t),
            decreases self.masks@.len() - i,
        {
            v.push(features_of_mask(self.masks[i]));
            i += 1;
        }
        v
    }

    /// The observed features, in canonical order.
    pub fn active_features(&self) -> (v: Vec<DocumentFeature>)
        ensures
            v@ == self.observed(),
    {
        features_of_mask(self.active)
    }

    /// The names of all documents, in document order.
    pub fn simplex_names(&self) -> (v: Vec<&str>)
        requires
            self.wf(),
        ensures
            v@.len() == self.doc_names().len(),
            forall|i: int| 0 <= i < v@.len() ==> #[trigger] v@[i]@ == self.doc_names()[i],
    {
        let mut v: Vec<&str> = Vec::new();
        let mut i: usize = 0;
        while i < self.names.len()
            invariant
                i <= self.names@.len(),
                v@.len() == i,
                forall|t: int| 0 <= t < i ==> #[trigger] v@[t]@ == self.doc_names()[t],
            decreases self.names@.len() - i,
        {
            v.push(self.names[i].as_str());
            i += 1;
        }
        v
    }

    /// The labels of the observed features, sorted alphabetically.
    pub fn feature_labels(&self) -> (labels: Vec<String>)
        requires
            self.wf(),
        ensures
            strings_view(labels@) == alpha_labels(self.active_mask()),
            forall|a: int, b: int| 0 <= a < b < labels@.len() ==> lex_lt(labels@[a]@, labels@[b]@),
    {
        let fs = alphabetical_features_of(self.active);
        let labels = labels_of(&fs);
        proof {
            lemma_alphabetical_sorted();
            assert(strings_view(labels@).len() == labels@.len());
            assert forall|a: int, b: int| 0 <= a < b < labels@.len() implies lex_lt(labels@[a]@, labels@[b]@) by {
                assert(strings_view(labels@)[a] == labels@[a]@);
                assert(strings_view(labels@)[b] == labels@[b]@);
                assert(labels@[a]@ == label_of(fs@[a]));
                assert(labels@[b]@ == label_of(fs@[b]));
                lemma_alpha_position(fs@[a]);
                lemma_alpha_position(fs@[b]);
                assert(fs@[a].alpha_rank() < fs@[b].alpha_rank());
            }
        }
        labels
    }

    /// Run the full topological analysis and produce a coverage report.
    pub fn analyze(&self) -> (r: crate::report::CoverageReport)
        requires
            self.wf(),
        ensures
            r.describes(*self),
    {
        crate::report::CoverageReport::new(self)
    }

    /// Compute the Betti numbers of the simplicial complex over GF(2): Betti 0
    /// is the number of connected components of the observed features (format
    /// islands), and Betti `k`, for each `k` from 1 up to the number of observed
    /// features (at most 7), the number of `k`-dimensional holes. An empty space
    /// has the single Betti number 0.
    pub fn betti_numbers(&self) -> (b: Vec<usize>)
        requires
            self.wf(),
        ensures
            self.active_mask() == 0 ==> b@ == seq![0usize],
            self.active_mask() != 0 ==> is_betti_sequence(self.doc_masks(), self.active_mask(), b@),
    {
        if self.active == 0 {
            let mut v: Vec<usize> = Vec::new();
            v.push(0);
            assert(v@ =~= seq![0usize]);
            return v;
        }
        simplicial_betti(&self.masks, self.active)
    }
}

impl Default for DocumentFeatureSpace {
    fn default() -> (s: Self)
        ensures
            s.wf(),
            s.doc_names() == Seq::<Seq<char>>::empty(),
            s.doc_masks() == Seq::<u64>::empty(),
            s.active_mask() == 0,
    {
        Self::new()
    }
}

/// The views of a list of strings.
pub open spec fn strings_view(v: Seq<String>) -> Seq<Seq<char>> {
    v.map_values(|s: String| s@)
}

/// The features whose bits are set in `m`, in alphabetical order of their labels.
pub open spec fn alpha_mask_features(m: u64) -> Seq<DocumentFeature> {
    alphabetical_features().filter(|f: DocumentFeature| has_bit(m, f.ordinal()))
}

/// The labels of the features whose bits are set in `m`, sorted alphabetically.
pub open spec fn alpha_labels(m: u64) -> Seq<Seq<char>> {
    alpha_mask_features(m).map_values(|f: DocumentFeature| label_of(f))
}

/// The features whose bits are set in `m`, in alphabetical order of their labels.
pub fn alphabetical_features_of(m: u64) -> (v: Vec<DocumentFeature>)
    ensures
        v@ == alpha_mask_features(m),
        forall|a: int, b: int| 0 <= a < b < v@.len() ==> v@[a].alpha_rank() < v@[b].alpha_rank(),
{
    let order = alphabetical_order();
    let ghost p = |f: DocumentFeature| has_bit(m, f.ordinal());
    let mut v: Vec<DocumentFeature> = Vec::new();
    let mut k: usize = 0;
    proof {
        assert(alphabetical_features().take(0) =~= Seq::<DocumentFeature>::empty());
        reveal_with_fuel(Seq::filter, 1);
    }
    while k < order.len()
        invariant
            k <= order@.len(),
            order@ == alphabetical_features(),
            p == (|f: DocumentFeature| has_bit(m, f.ordinal())),
            v@ == alphabetical_features().take(k as int).filter(p),
            forall|t: int| 0 <= t < v@.len() ==> #[trigger] v@[t].alpha_rank() < k,
            forall|a: int, b: int| 0 <= a < b < v@.len() ==> v@[a].alpha_rank() < v@[b].alpha_rank(),
        decreases order@.len() - k,
    {
        let f = order[k];
        let i = f.index();
        let keep = (m >> (i as u64)) & 1 == 1;
        proof {
            lemma_alpha_position(f);
            assert(f.alpha_rank() == k) by {
                assert(alphabetical_features()[k as int] == f);
                assert(alphabetical_features()[f.alpha_rank()] == f);
            }
        }
        if keep {
            v.push(f);
        }
        proof {
            reveal_with_fuel(Seq::filter, 1);
            assert(alphabetical_features().take(k + 1).drop_last() =~= alphabetical_features().take(k as int));
            assert(alphabetical_features().take(k + 1).last() == f);
        }
        k += 1;
    }
    assert(alphabetical_features().take(11) =~= alphabetical_features());
    v
}

/// The labels of the features, as strings.
pub fn labels_of(fs: &Vec<DocumentFeature>) -> (v: Vec<String>)
    ensures
        strings_view(v@) == fs@.map_values(|f: DocumentFeature| label_of(f)),
{
    let mut v: Vec<String> = Vec::new();
    let mut i: usize = 0;
    while i < fs.len()
        invariant
            i <= fs@.len(),
            v@.len() == i,
            forall|t: int| 0 <= t < i ==> #[trigger] v@[t]@ == label_of(fs@[t]),
        decreases fs@.len() - i,
    {
        v.push(fs[i].label().to_owned());
        i += 1;
    }
    assert(strings_view(v@) =~= fs@.map_values(|f: DocumentFeature| label_of(f)));
    v
}

/// The features in alphabetical order of their labels.
fn alphabetical_order() -> (v: Vec<DocumentFeature>)
    ensures
        v@ == alphabetical_features(),
{
    let v = vec![
        DocumentFeature::BidirectionalText,
        DocumentFeature::CodeBlocks,
        DocumentFeature::CrossReferences,
        DocumentFeature::Footnotes,
        DocumentFeature::Formulas,
        DocumentFeature::Headers,
        DocumentFeature::Images,
        DocumentFeature::Lists,
        DocumentFeature::NestedLists,
        DocumentFeature::Tables,
        DocumentFeature::Text,
    ];
    assert(v@ =~= alphabetical_features());
    v
}

/// Position of a feature in the alphabetical order.
pub open spec fn alpha_position(f: DocumentFeature) -> int {
    f.alpha_rank()
}

/// The alphabetical order lists every feature at its alphabetical rank.
proof fn lemma_alpha_position(f: DocumentFeature)
    ensures
        0 <= alpha_position(f) < 11,
        alphabetical_features()[alpha_position(f)] == f,
{
}

/// Membership in the features of a mask.
pub proof fn lemma_in_mask_features(m: u64, f: DocumentFeature)
    ensures
        mask_features(m).contains(f) <==> has_bit(m, f.ordinal()),
{
    broadcast use vstd::seq_lib::group_filter_ensures;
    let p = |g: DocumentFeature| has_bit(m, g.ordinal());
    assert(all_features()[f.ordinal()] == f);
    if mask_features(m).contains(f) {
        let i = choose|i: int| 0 <= i < mask_features(m).len() && mask_features(m)[i] == f;
        assert(p(mask_features(m)[i]));
    }
}

/// Lexicographic order is transitive.
pub proof fn lemma_lex_trans(a: Seq<char>, b: Seq<char>, c: Seq<char>)
    requires
        lex_lt(a, b),
        lex_lt(b, c),
    ensures
        lex_lt(a, c),
    decreases a.len(),
{
    if a.len() > 0 && b.len() > 0 && c.len() > 0 && a[0] == b[0] && b[0] == c[0] {
        lemma_lex_trans(a.drop_first(), b.drop_first(), c.drop_first());
    }
}

/// A signature's labels, in the order `to_labels` lists them, name exactly its
/// features: adding a signature stores the same feature mask as adding a
/// document with its labels.
pub proof fn lemma_signature_labels_mask(sig: DocumentSignature, labels: Seq<&str>)
    requires
        labels.len() == sig.present().len(),
        forall|i: int| 0 <= i < labels.len() ==> (#[trigger] labels[i])@ == label_of(sig.present()[i]),
    ensures
        labels_mask(labels) == sig.mask_spec(),
{
    let p1 = |i: int| exists|j: int| 0 <= j < labels.len() && #[trigger] labels[j]@ == label_of(feature_at(i));
    let p2 = |i: int| sig.has(feature_at(i));
    lemma_mask_where(p1, 11);
    lemma_mask_where(p2, 11);
    crate::coverage::lemma_signature_roundtrip(sig);
    assert forall|i: int| 0 <= i < 11 implies has_bit(labels_mask(labels), i) == has_bit(sig.mask_spec(), i) by {
        let f = feature_at(i);
        if p2(i) {
            let j = choose|j: int| 0 <= j < sig.present().len() && #[trigger] label_of(sig.present()[j]) == label_of(f);
            assert(labels[j]@ == label_of(f));
        }
        if p1(i) {
            let j = choose|j: int| 0 <= j < labels.len() && #[trigger] labels[j]@ == label_of(f);
            assert(label_of(sig.present()[j]) == label_of(f));
        }
    }
    lemma_mask_ext(labels_mask(labels), sig.mask_spec());
}

/// No text comes before itself.
pub proof fn lemma_lex_irreflexive(a: Seq<char>)
    ensures
        !lex_lt(a, a),
    decreases a.len(),
{
    if a.len() > 0 {
        lemma_lex_irreflexive(a.drop_first());
    }
}

/// Of two texts, at most one comes before the other.
pub proof fn lemma_lex_asymmetric(a: Seq<char>, b: Seq<char>)
    requires
        lex_lt(a, b),
    ensures
        !lex_lt(b, a),
    decreases a.len(),
{
    if a.len() > 0 && b.len() > 0 && a[0] == b[0] {
        lemma_lex_asymmetric(a.drop_first(), b.drop_first());
    }
}

/// A filter of features listed by increasing alphabetical rank is listed by
/// increasing alphabetical rank.
proof fn lemma_filter_rank_increasing(s: Seq<DocumentFeature>, p: spec_fn(DocumentFeature) -> bool)
    requires
        forall|a: int, b: int| 0 <= a < b < s.len() ==> (#[trigger] s[a]).alpha_rank() < (#[trigger] s[b]).alpha_rank(),
    ensures
        forall|a: int, b: int|
            0 <= a < b < s.filter(p).len() ==> (#[trigger] s.filter(p)[a]).alpha_rank() < (
            #[trigger] s.filter(p)[b]).alpha_rank(),
    decreases s.len(),
{
    reveal_with_fuel(Seq::filter, 1);
    if s.len() > 0 {
        let rest = s.drop_last();
        lemma_filter_rank_increasing(rest, p);
        let fr = rest.filter(p);
        if p(s.last()) {
            assert forall|a: int| 0 <= a < fr.len() implies fr[a].alpha_rank() < s.last().alpha_rank() by {
                assert(fr.contains(fr[a]));
                rest.lemma_filter_contains_rev(p, fr[a]);
                let i = choose|i: int| 0 <= i < rest.len() && rest[i] == fr[a];
                assert(s[i] == rest[i]);
            }
            let f = s.filter(p);
            assert(f =~= fr.push(s.last()));
            assert forall|a: int, b: int| 0 <= a < b < f.len() implies (#[trigger] f[a]).alpha_rank() < (#[trigger] f[b]).alpha_rank() by {
                if b < fr.len() {
                    assert(f[a] == fr[a] && f[b] == fr[b]);
                } else {
                    assert(f[a] == fr[a] && f[b] == s.last());
                }
            }
        } else {
            assert(s.filter(p) =~= fr);
        }
    }
}

/// The features of a mask in alphabetical order have strictly increasing
/// labels, and so have their labels.
pub proof fn lemma_alpha_features_sorted(m: u64)
    ensures
        forall|a: int, b: int|
            0 <= a < b < alpha_mask_features(m).len() ==> lex_lt(
                label_of(#[trigger] alpha_mask_features(m)[a]),
                label_of(#[trigger] alpha_mask_features(m)[b]),
            ),
        forall|a: int, b: int|
            0 <= a < b < alpha_labels(m).len() ==> lex_lt(#[trigger] alpha_labels(m)[a], #[trigger] alpha_labels(m)[b]),
{
    let s = alphabetical_features();
    let p = |f: DocumentFeature| has_bit(m, f.ordinal());
    assert forall|a: int, b: int| 0 <= a < b < s.len() implies (#[trigger] s[a]).alpha_rank() < (#[trigger] s[b]).alpha_rank() by {
        assert(forall|i: int| 0 <= i < 11 ==> (#[trigger] s[i]).alpha_rank() == i);
    }
    lemma_filter_rank_increasing(s, p);
    lemma_alphabetical_sorted();
    let l = alpha_mask_features(m);
    assert forall|a: int, b: int| 0 <= a < b < l.len() implies lex_lt(label_of(#[trigger] l[a]), label_of(#[trigger] l[b])) by {
        lemma_alpha_position(l[a]);
        lemma_alpha_position(l[b]);
        assert(s[alpha_position(l[a])] == l[a]);
        assert(s[alpha_position(l[b])] == l[b]);
    }
}

/// The alphabetical order is sorted by label.
pub proof fn lemma_alphabetical_sorted()
    ensures
        forall|a: int, b: int|
            0 <= a < b < 11 ==> lex_lt(
                label_of(#[trigger] alphabetical_features()[a]),
                label_of(#[trigger] alphabetical_features()[b]),
            ),
{
    reveal_strlit("text");
    reveal_strlit("lists");
    reveal_strlit("nested_lists");
    reveal_strlit("tables");
    reveal_strlit("images");
    reveal_strlit("formulas");
    reveal_strlit("code_blocks");
    reveal_strlit("headers");
    reveal_strlit("footnotes");
    reveal_strlit("cross_references");
    reveal_strlit("bidirectional_text");
    let s = alphabetical_features();
    reveal_with_fuel(lex_lt, 4);
    assert(lex_lt(label_of(s[0]), label_of(s[1])));
    assert(lex_lt(label_of(s[1]), label_of(s[2])));
    assert(lex_lt(label_of(s[2]), label_of(s[3])));
    assert(lex_lt(label_of(s[3]), label_of(s[4])));
    assert(lex_lt(label_of(s[4]), label_of(s[5])));
    assert(lex_lt(label_of(s[5]), label_of(s[6])));
    assert(lex_lt(label_of(s[6]), label_of(s[7])));
    assert(lex_lt(label_of(s[7]), label_of(s[8])));
    assert(lex_lt(label_of(s[8]), label_of(s[9])));
    assert(lex_lt(label_of(s[9]), label_of(s[10])));
    assert forall|a: int, b: int| 0 <= a < b < 11 implies lex_lt(
        label_of(#[trigger] s[a]),
        label_of(#[trigger] s[b]),
    ) by {
        lemma_sorted_chain(s, a, b);
    }
}

proof fn lemma_sorted_chain(s: Seq<DocumentFeature>, a: int, b: int)
    requires
        s.len() == 11,
        0 <= a < b < 11,
        forall|i: int| 0 <= i < 10 ==> lex_lt(label_of(#[trigger] s[i]), label_of(s[i + 1])),
    ensures
        lex_lt(label_of(s[a]), label_of(s[b])),
    decreases b - a,
{
    if b > a + 1 {
        lemma_sorted_chain(s, a, b - 1);
        assert(lex_lt(label_of(s[b - 1]), label_of(s[b])));
        lemma_lex_trans(label_of(s[a]), label_of(s[b - 1]), label_of(s[b]));
    }
}

/// A nonempty space has one Betti number more than its dimensions, the
/// dimensions counted up to seven.
pub proof fn lemma_betti_count(space: DocumentFeatureSpace, b: Seq<usize>)
    requires
        space.wf(),
        space.active_mask() != 0,
        is_betti_sequence(space.doc_masks(), space.active_mask(), b),
    ensures
        b.len() == (if space.observed().len() < 7 {
            space.observed().len()
        } else {
            7
        }) + 1,
{
    lemma_count_bits_features(space.active_mask(), 11);
    assert(all_features().take(11) =~= all_features());
}

/// The ordinal of the feature at position `j` of the alphabetical order.
pub open spec fn alpha_ordinal(j: int) -> int {
    if j == 0 {
        10
    } else if j == 1 {
        6
    } else if j == 2 {
        9
    } else if j == 3 {
        8
    } else if j == 4 {
        5
    } else if j == 5 {
        7
    } else if j == 6 {
        4
    } else if j == 7 {
        1
    } else if j == 8 {
        2
    } else if j == 9 {
        3
    } else {
        0
    }
}

/// Number of the first `k` features in alphabetical order whose bit is set in `m`.
pub open spec fn alpha_count(m: u64, k: nat) -> nat
    decreases k,
{
    if k == 0 {
        0
    } else {
        alpha_count(m, (k - 1) as nat) + if has_bit(m, alpha_ordinal(k - 1)) {
            1nat
        } else {
            0nat
        }
    }
}

proof fn lemma_alpha_count_take(m: u64, k: nat)
    requires
        k <= 11,
    ensures
        alpha_count(m, k) == alphabetical_features().take(k as int).filter(
            |f: DocumentFeature| has_bit(m, f.ordinal()),
        ).len(),
    decreases k,
{
    reveal_with_fuel(Seq::filter, 1);
    if k > 0 {
        lemma_alpha_count_take(m, (k - 1) as nat);
        assert(alphabetical_features().take(k as int).drop_last() =~= alphabetical_features().take(k - 1));
        assert(alphabetical_features()[k - 1].ordinal() == alpha_ordinal(k - 1));
    } else {
        assert(alphabetical_features().take(0) =~= Seq::<DocumentFeature>::empty());
    }
}

proof fn lemma_alpha_sum(m: u64)
    ensures
        alpha_count(m, 11) == count_bits(m, 11),
{
    reveal_with_fuel(alpha_count, 12);
    reveal_with_fuel(count_bits, 12);
}

/// The features of a mask are as many in alphabetical order as in canonical
/// order: the number of its bits.
pub proof fn lemma_alpha_count(m: u64)
    ensures
        alpha_mask_features(m).len() == mask_features(m).len(),
        alpha_labels(m).len() == count_bits(m, 11),
{
    lemma_count_bits_features(m, 11);
    assert(all_features().take(11) =~= all_features());
    lemma_alpha_count_take(m, 11);
    assert(alphabetical_features().take(11) =~= alphabetical_features());
    lemma_alpha_sum(m);
}

/// A label is among the alphabetical labels of a mask exactly when it is the
/// label of one of the mask's features.
pub proof fn lemma_alpha_labels_contain(m: u64, f: DocumentFeature)
    ensures
        alpha_labels(m).contains(label_of(f)) <==> mask_features(m).contains(f),
{
    broadcast use vstd::seq_lib::group_filter_ensures;
    crate::feature::lemma_labels_distinct();
    lemma_in_mask_features(m, f);
    lemma_alpha_position(f);
    let p = |g: DocumentFeature| has_bit(m, g.ordinal());
    let fs = alpha_mask_features(m);
    let ls = alpha_labels(m);
    if ls.contains(label_of(f)) {
        let i = choose|i: int| 0 <= i < ls.len() && ls[i] == label_of(f);
        assert(label_of(fs[i]) == label_of(f));
        assert(fs[i] == f);
        assert(p(fs[i]));
    }
    if mask_features(m).contains(f) {
        assert(alphabetical_features()[alpha_position(f)] == f);
        assert(p(f));
        assert(fs.contains(f));
        let i = choose|i: int| 0 <= i < fs.len() && fs[i] == f;
        assert(ls[i] == label_of(f));
    }
}

/// The alphabetical labels of a mask are exactly the labels of its features: a
/// text is among them if and only if it is the label of a feature of the mask,
/// and there is one per feature.
pub proof fn lemma_alpha_labels_exact(m: u64)
    ensures
        forall|t: Seq<char>|
            #[trigger] alpha_labels(m).contains(t) <==> exists|f: DocumentFeature|
                mask_features(m).contains(f) && #[trigger] label_of(f) == t,
        alpha_labels(m).len() == mask_features(m).len(),
{
    broadcast use vstd::seq_lib::group_filter_ensures;
    assert forall|t: Seq<char>|
        #[trigger] alpha_labels(m).contains(t) <==> exists|f: DocumentFeature|
            mask_features(m).contains(f) && #[trigger] label_of(f) == t by {
        let ls = alpha_labels(m);
        let fs = alpha_mask_features(m);
        if ls.contains(t) {
            let i = choose|i: int| 0 <= i < ls.len() && ls[i] == t;
            let f = fs[i];
            assert(label_of(f) == t);
            assert(has_bit(m, f.ordinal()));
            lemma_in_mask_features(m, f);
        }
        if exists|f: DocumentFeature| mask_features(m).contains(f) && #[trigger] label_of(f) == t {
            let f = choose|f: DocumentFeature| mask_features(m).contains(f) && #[trigger] label_of(f) == t;
            lemma_alpha_labels_contain(m, f);
        }
    }
    lemma_alpha_count(m);
}

/// The Betti numbers depend only on the observed features and on the feature
/// sets of the documents: not on the documents' names, nor their order, nor
/// how often a feature set occurs.
pub proof fn lemma_betti_same_documents(s1: DocumentFeatureSpace, s2: DocumentFeatureSpace, b1: Seq<usize>, b2: Seq<usize>)
    requires
        s1.wf(),
        s2.wf(),
        s1.active_mask() == s2.active_mask(),
        forall|i: int| 0 <= i < s1.doc_masks().len() ==> s2.doc_masks().contains(#[trigger] s1.doc_masks()[i]),
        forall|j: int| 0 <= j < s2.doc_masks().len() ==> s1.doc_masks().contains(#[trigger] s2.doc_masks()[j]),
        s1.active_mask() == 0 ==> b1 == seq![0usize],
        s1.active_mask() != 0 ==> is_betti_sequence(s1.doc_masks(), s1.active_mask(), b1),
        s2.active_mask() == 0 ==> b2 == seq![0usize],
        s2.active_mask() != 0 ==> is_betti_sequence(s2.doc_masks(), s2.active_mask(), b2),
    ensures
        b1 == b2,
{
    let m1 = s1.doc_masks();
    let m2 = s2.doc_masks();
    if s1.active_mask() != 0 {
        if m1.len() > 0 {
            assert(m2.contains(m1[0]));
        }
        if m2.len() > 0 {
            assert(m1.contains(m2[0]));
        }
        if m1.len() > 0 {
            crate::complex::lemma_same_masks(m1, m2, s1.active_mask(), b2);
        } else {
            assert(m2 =~= m1);
        }
        crate::complex::lemma_betti_unique(m1, s1.active_mask(), b1, b2);
    }
}

/// `compute_simple_betti` on the feature masks of the documents that have
/// features, in any order, gives the Betti numbers of the space: both results
/// are Betti sequences of the same complex on the observed features.
pub proof fn lemma_simple_betti_agrees(space: DocumentFeatureSpace, ms: Seq<u64>, b1: Seq<usize>, b2: Seq<usize>)
    requires
        space.wf(),
        space.active_mask() != 0,
        ms.len() > 0,
        forall|i: int| 0 <= i < ms.len() ==> #[trigger] ms[i] != 0 && space.doc_masks().contains(ms[i]),
        forall|j: int|
            0 <= j < space.doc_masks().len() && space.doc_masks()[j] != 0 ==> ms.contains(
                #[trigger] space.doc_masks()[j],
            ),
        is_betti_sequence(space.doc_masks(), space.active_mask(), b1),
        is_betti_sequence(ms, space.active_mask(), b2),
    ensures
        b1 == b2,
{
    assert(ms[0] != 0 && space.doc_masks().contains(ms[0]));
    crate::complex::lemma_same_masks(space.doc_masks(), ms, space.active_mask(), b2);
    crate::complex::lemma_betti_unique(space.doc_masks(), space.active_mask(), b1, b2);
}

/// A nonempty space has between one connected component and one per observed
/// feature.
pub proof fn lemma_betti_zero_range(space: DocumentFeatureSpace, b: Seq<usize>)
    requires
        space.wf(),
        space.active_mask() != 0,
        is_betti_sequence(space.doc_masks(), space.active_mask(), b),
    ensures
        1 <= b[0] <= space.observed().len(),
{
    crate::complex::lemma_nonzero_mask(space.active_mask());
    crate::complex::lemma_betti_zero_bounds(space.doc_masks(), space.active_mask(), b);
    lemma_count_bits_features(space.active_mask(), 11);
    assert(all_features().take(11) =~= all_features());
}

/// In a nonempty space each Betti number is at most the number of ways to
/// choose one feature more than its dimension among the observed features.
pub proof fn lemma_betti_binomial_range(space: DocumentFeatureSpace, b: Seq<usize>)
    requires
        space.wf(),
        space.active_mask() != 0,
        is_betti_sequence(space.doc_masks(), space.active_mask(), b),
    ensures
        forall|k: int|
            0 <= k < b.len() ==> #[trigger] b[k] <= crate::subsets::binomial(space.observed().len(), (k + 1) as nat),
{
    crate::complex::lemma_nonzero_mask(space.active_mask());
    crate::complex::lemma_betti_binomial(space.doc_masks(), space.active_mask(), b);
    lemma_count_bits_features(space.active_mask(), 11);
    assert(all_features().take(11) =~= all_features());
}

/// Adding a document never removes an observed feature: every feature of the
/// mask `a` is a feature of `a | m`.
pub proof fn lemma_observed_grows(a: u64, m: u64)
    requires
        a < MASK_SPACE,
        m < MASK_SPACE,
    ensures
        forall|f: DocumentFeature| #[trigger] mask_features(a).contains(f) ==> mask_features(a | m).contains(f),
{
    lemma_or_facts(a, m);
    assert forall|f: DocumentFeature| #[trigger] mask_features(a).contains(f) implies mask_features(a | m).contains(f) by {
        lemma_in_mask_features(a, f);
        lemma_in_mask_features(a | m, f);
        lemma_submask_bit(a, a | m, f.ordinal());
    }
}

proof fn bv_or_absorb(a: u64, m: u64)
    by (bit_vector)
    requires
        m & a == m,
    ensures
        a | m == a,
{
}

/// Adding a document whose features all lie within those of a document already
/// there changes no Betti number.
pub proof fn lemma_betti_subsumed_document(
    s1: DocumentFeatureSpace,
    s2: DocumentFeatureSpace,
    m: u64,
    i: int,
    b1: Seq<usize>,
    b2: Seq<usize>,
)
    requires
        s1.wf(),
        s2.wf(),
        0 <= i < s1.doc_masks().len(),
        is_submask(m, s1.doc_masks()[i]),
        s2.doc_masks() == s1.doc_masks().push(m),
        s2.active_mask() == s1.active_mask() | m,
        s1.active_mask() == 0 ==> b1 == seq![0usize],
        s1.active_mask() != 0 ==> is_betti_sequence(s1.doc_masks(), s1.active_mask(), b1),
        s2.active_mask() == 0 ==> b2 == seq![0usize],
        s2.active_mask() != 0 ==> is_betti_sequence(s2.doc_masks(), s2.active_mask(), b2),
    ensures
        b1 == b2,
{
    assert(is_submask(s1.doc_masks()[i], s1.active_mask()));
    lemma_submask_trans(m, s1.doc_masks()[i], s1.active_mask());
    bv_or_absorb(s1.active_mask(), m);
    if s1.active_mask() != 0 {
        crate::complex::lemma_subsumed_mask(s1.doc_masks(), m, i, s1.active_mask(), b2);
        crate::complex::lemma_betti_unique(s1.doc_masks(), s1.active_mask(), b1, b2);
    }
}

/// `a | b` contains both.
pub open spec fn bv_or_submask(a: u64, b: u64) -> bool {
    is_submask(a, a | b) && is_submask(b, a | b)
}

proof fn bv_or(a: u64, b: u64)
    by (bit_vector)
    requires
        a < 2048,
        b < 2048,
    ensures
        a & (a | b) == a,
        b & (a | b) == b,
        b & (b | a) == b,
        (a | b) < 2048,
        (b | a) < 2048,
        b | a == a | b,
{
}

proof fn bv_trans(a: u64, b: u64, c: u64)
    by (bit_vector)
    requires
        a & b == a,
        b & c == b,
    ensures
        a & c == a,
{
}

/// Facts about the union of two feature masks.
pub proof fn lemma_or_facts(a: u64, b: u64)
    requires
        a < MASK_SPACE,
        b < MASK_SPACE,
    ensures
        bv_or_submask(a, b),
        is_submask(b, b | a),
        (a | b) < MASK_SPACE,
        (b | a) < MASK_SPACE,
        b | a == a | b,
{
    bv_or(a, b);
}

/// The sub-mask relation is transitive.
pub proof fn lemma_submask_trans(a: u64, b: u64, c: u64)
    requires
        is_submask(a, b),
        is_submask(b, c),
    ensures
        is_submask(a, c),
{
    bv_trans(a, b, c);
}

} // verus!
