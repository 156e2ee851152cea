//! Document signatures, and the probe that checks parsed output for forbidden
//! patterns.

use vstd::prelude::*;
use crate::feature::{DocumentFeature, FEATURE_COUNT, label_of, all_features, feature_at, features_where};
use crate::complex::{has_bit, mask_where, lemma_mask_where, lemma_set_bit, lemma_mask_ext, MASK_SPACE};
use crate::feature_space::strings_view;
use crate::rules::{ProbeRule, fires, rule_name, rule_named, rule_fires, lemma_rule_names_distinct};
use negative_space_testing::NegativeTest;

verus! {

/// A signature extracted from a parsed document, indicating which features it contains.
#[derive(Debug, Clone)]
pub struct DocumentSignature {
    pub has_text: bool,
    pub has_lists: bool,
    pub has_nested_lists: bool,
    pub has_tables: bool,
    pub has_images: bool,
    pub has_formulas: bool,
    pub has_code_blocks: bool,
    pub has_headers: bool,
    pub has_footnotes: bool,
    pub has_cross_references: bool,
    pub has_bidirectional_text: bool,
}

impl Default for DocumentSignature {
    fn default() -> (s: Self)
        ensures
            forall|f: DocumentFeature| !#[trigger] s.has(f),
    {
        DocumentSignature {
            has_text: false,
            has_lists: false,
            has_nested_lists: false,
            has_tables: false,
            has_images: false,
            has_formulas: false,
            has_code_blocks: false,
            has_headers: false,
            has_footnotes: false,
            has_cross_references: false,
            has_bidirectional_text: false,
        }
    }
}

impl DocumentSignature {
    /// The flag of the signature for a feature.
    pub open spec fn has(&self, f: DocumentFeature) -> bool {
        match f {
            DocumentFeature::Text => self.has_text,
            DocumentFeature::Lists => self.has_lists,
            DocumentFeature::NestedLists => self.has_nested_lists,
            DocumentFeature::Tables => self.has_tables,
            DocumentFeature::Images => self.has_images,
            DocumentFeature::Formulas => self.has_formulas,
            DocumentFeature::CodeBlocks => self.has_code_blocks,
            DocumentFeature::Headers => self.has_headers,
            DocumentFeature::Footnotes => self.has_footnotes,
            DocumentFeature::CrossReferences => self.has_cross_references,
            DocumentFeature::BidirectionalText => self.has_bidirectional_text,
        }
    }

    /// The features present in this signature, in canonical order.
    pub open spec fn present(&self) -> Seq<DocumentFeature> {
        features_where(|f: DocumentFeature| self.has(f))
    }

    /// The feature mask of this signature.
    pub open spec fn mask_spec(&self) -> u64 {
        mask_where(|i: int| self.has(feature_at(i)), 11)
    }

    /// Whether the signature has the feature.
    pub fn has_feature(&self, f: DocumentFeature) -> (b: bool)
        ensures
            b == self.has(f),
    {
        match f {
            DocumentFeature::Text => self.has_text,
            DocumentFeature::Lists => self.has_lists,
            DocumentFeature::NestedLists => self.has_nested_lists,
            DocumentFeature::Tables => self.has_tables,
            DocumentFeature::Images => self.has_images,
            DocumentFeature::Formulas => self.has_formulas,
            DocumentFeature::CodeBlocks => self.has_code_blocks,
            DocumentFeature::Headers => self.has_headers,
            DocumentFeature::Footnotes => self.has_footnotes,
            DocumentFeature::CrossReferences => self.has_cross_references,
            DocumentFeature::BidirectionalText => self.has_bidirectional_text,
        }
    }

    /// Marks the feature as present.
    pub fn set_feature(&mut self, f: DocumentFeature)
        ensures
            forall|g: DocumentFeature| #[trigger] final(self).has(g) == (old(self).has(g) || g == f),
    {
        match f {
            DocumentFeature::Text => self.has_text = true,
            DocumentFeature::Lists => self.has_lists = true,
            DocumentFeature::NestedLists => self.has_nested_lists = true,
            DocumentFeature::Tables => self.has_tables = true,
            DocumentFeature::Images => self.has_images = true,
            DocumentFeature::Formulas => self.has_formulas = true,
            DocumentFeature::CodeBlocks => self.has_code_blocks = true,
            DocumentFeature::Headers => self.has_headers = true,
            DocumentFeature::Footnotes => self.has_footnotes = true,
            DocumentFeature::CrossReferences => self.has_cross_references = true,
            DocumentFeature::BidirectionalText => self.has_bidirectional_text = true,
        }
    }

    /// Create a signature from a feature label set; unknown labels are ignored.
    pub fn from_labels(labels: &[&str]) -> (sig: Self)
        ensures
            forall|f: DocumentFeature| #[trigger] sig.has(f) <==> exists|j: int| 0 <= j < labels@.len() && #[trigger] labels@[j]@ == label_of(f),
    {
        let mut sig = DocumentSignature::default();
        let mut j: usize = 0;
        while j < labels.len()
            invariant
                j <= labels@.len(),
                forall|f: DocumentFeature| #[trigger] sig.has(f) <==> exists|t: int| 0 <= t < j && #[trigger] labels@[t]@ == label_of(f),
            decreases labels@.len() - j,
        {
            let label: &str = labels[j];
            match DocumentFeature::from_label(label) {
                Some(f) => {
                    sig.set_feature(f);
                },
                None => {},
            }
            proof {
                assert forall|f: DocumentFeature| #[trigger] sig.has(f) <==> exists|t: int| 0 <= t < j + 1 && #[trigger] labels@[t]@ == label_of(f) by {
                    crate::feature::lemma_labels_distinct();
                    if labels@[j as int]@ == label_of(f) {
                        assert(0 <= j < j + 1 && labels@[j as int]@ == label_of(f));
                    }
                    if exists|t: int| 0 <= t < j + 1 && #[trigger] labels@[t]@ == label_of(f) {
                        let t = choose|t: int| 0 <= t < j + 1 && #[trigger] labels@[t]@ == label_of(f);
                        if t < j {
                            assert(0 <= t < j && labels@[t]@ == label_of(f));
                        }
                    }
                }
            }
            j += 1;
        }
        sig
    }

    /// Number of features present in this signature.
    pub fn feature_count(&self) -> (n: usize)
        ensures
            n == self.present().len(),
    {
        let v = self.present_features();
        v.len()
    }

    /// The features present, in canonical order.
    pub fn present_features(&self) -> (v: Vec<DocumentFeature>)
        ensures
            v@ == self.present(),
    {
        let ghost p = |f: DocumentFeature| self.has(f);
        let mut v: Vec<DocumentFeature> = Vec::new();
        let mut i: usize = 0;
        proof {
            assert(all_features().take(0) =~= Seq::<DocumentFeature>::empty());
            reveal_with_fuel(Seq::filter, 1);
        }
        while i < FEATURE_COUNT
            invariant
                i <= FEATURE_COUNT,
                p == (|f: DocumentFeature| self.has(f)),
                v@ == all_features().take(i as int).filter(p),
            decreases FEATURE_COUNT - i,
        {
            let f = DocumentFeature::from_index(i);
            let keep = self.has_feature(f);
            if keep {
                v.push(f);
            }
            proof {
                reveal_with_fuel(Seq::filter, 1);
                assert(all_features().take(i + 1).drop_last() =~= all_features().take(i as int));
                assert(all_features().take(i + 1).last() == f);
            }
            i += 1;
        }
        assert(all_features().take(11) =~= all_features());
        v
    }

    /// Convert to a vector of feature labels, in canonical order.
    pub fn to_labels(&self) -> (labels: Vec<&'static str>)
        ensures
            labels@.len() == self.present().len(),
            forall|i: int| 0 <= i < labels@.len() ==> #[trigger] labels@[i]@ == label_of(self.present()[i]),
    {
        let fs = self.present_features();
        let mut labels: Vec<&'static str> = Vec::new();
        let mut i: usize = 0;
        while i < fs.len()
            invariant
                i <= fs@.len(),
                fs@ == self.present(),
                labels@.len() == i,
                forall|t: int| 0 <= t < i ==> #[trigger] labels@[t]@ == label_of(fs@[t]),
            decreases fs@.len() - i,
        {
            labels.push(fs[i].label());
            i += 1;
        }
        labels
    }

    /// The feature mask of this signature: bit `i` is set when the feature of
    /// ordinal `i` is present.
    pub fn mask(&self) -> (m: u64)
        ensures
            m == self.mask_spec(),
            m < MASK_SPACE,
            forall|i: int| 0 <= i < 64 ==> #[trigger] has_bit(m, i) == (i < 11 && self.has(feature_at(i))),
    {
        let mut m: u64 = 0;
        let mut i: usize = 0;
        proof {
            crate::complex::lemma_mask_where(|i: int| false, 0);
        }
        while i < FEATURE_COUNT
            invariant
                i <= FEATURE_COUNT,
                m < MASK_SPACE,
                forall|t: int| 0 <= t < 64 ==> #[trigger] has_bit(m, t) == (t < i && self.has(feature_at(t))),
            decreases FEATURE_COUNT - i,
        {
            let f = DocumentFeature::from_index(i);
            if self.has_feature(f) {
                proof {
                    lemma_set_bit(m, i as int);
                }
                m = m | (1u64 << (i as u64));
            }
            i += 1;
        }
        proof {
            lemma_mask_where(|i: int| self.has(feature_at(i)), 11);
            lemma_mask_ext(m, self.mask_spec());
        }
        m
    }
}

/// Each public flag of a signature stands for its own feature.
pub proof fn lemma_signature_fields(sig: DocumentSignature)
    ensures
        sig.has(DocumentFeature::Text) == sig.has_text,
        sig.has(DocumentFeature::Lists) == sig.has_lists,
        sig.has(DocumentFeature::NestedLists) == sig.has_nested_lists,
        sig.has(DocumentFeature::Tables) == sig.has_tables,
        sig.has(DocumentFeature::Images) == sig.has_images,
        sig.has(DocumentFeature::Formulas) == sig.has_formulas,
        sig.has(DocumentFeature::CodeBlocks) == sig.has_code_blocks,
        sig.has(DocumentFeature::Headers) == sig.has_headers,
        sig.has(DocumentFeature::Footnotes) == sig.has_footnotes,
        sig.has(DocumentFeature::CrossReferences) == sig.has_cross_references,
        sig.has(DocumentFeature::BidirectionalText) == sig.has_bidirectional_text,
{
}

/// Some label among `labels` is the text `t`.
pub open spec fn names_label(labels: Seq<&str>, t: Seq<char>) -> bool {
    exists|j: int| 0 <= j < labels.len() && #[trigger] labels[j]@ == t
}

/// A signature made from labels, as `from_labels` makes it, sets each flag
/// exactly when the labels hold the feature's own label.
pub proof fn lemma_from_labels_fields(sig: DocumentSignature, labels: Seq<&str>)
    requires
        forall|f: DocumentFeature|
            #[trigger] sig.has(f) <==> exists|j: int| 0 <= j < labels.len() && #[trigger] labels[j]@ == label_of(f),
    ensures
        sig.has_text <==> names_label(labels, "text"@),
        sig.has_lists <==> names_label(labels, "lists"@),
        sig.has_nested_lists <==> names_label(labels, "nested_lists"@),
        sig.has_tables <==> names_label(labels, "tables"@),
        sig.has_images <==> names_label(labels, "images"@),
        sig.has_formulas <==> names_label(labels, "formulas"@),
        sig.has_code_blocks <==> names_label(labels, "code_blocks"@),
        sig.has_headers <==> names_label(labels, "headers"@),
        sig.has_footnotes <==> names_label(labels, "footnotes"@),
        sig.has_cross_references <==> names_label(labels, "cross_references"@),
        sig.has_bidirectional_text <==> names_label(labels, "bidirectional_text"@),
{
    assert(sig.has(DocumentFeature::Text) == sig.has_text);
    assert(sig.has(DocumentFeature::Lists) == sig.has_lists);
    assert(sig.has(DocumentFeature::NestedLists) == sig.has_nested_lists);
    assert(sig.has(DocumentFeature::Tables) == sig.has_tables);
    assert(sig.has(DocumentFeature::Images) == sig.has_images);
    assert(sig.has(DocumentFeature::Formulas) == sig.has_formulas);
    assert(sig.has(DocumentFeature::CodeBlocks) == sig.has_code_blocks);
    assert(sig.has(DocumentFeature::Headers) == sig.has_headers);
    assert(sig.has(DocumentFeature::Footnotes) == sig.has_footnotes);
    assert(sig.has(DocumentFeature::CrossReferences) == sig.has_cross_references);
    assert(sig.has(DocumentFeature::BidirectionalText) == sig.has_bidirectional_text);
}

/// Reading a signature's labels back gives the same signature: a signature made
/// from the labels of `sig`'s features, in the order `to_labels` lists them,
/// has exactly the features of `sig`.
pub proof fn lemma_signature_roundtrip(sig: DocumentSignature)
    ensures
        forall|f: DocumentFeature|
            sig.has(f) <==> exists|j: int|
                0 <= j < sig.present().len() && #[trigger] label_of(sig.present()[j]) == label_of(f),
{
    crate::feature::lemma_labels_distinct();
    assert forall|f: DocumentFeature| sig.has(f) <==> exists|j: int|
        0 <= j < sig.present().len() && #[trigger] label_of(sig.present()[j]) == label_of(f) by {
        crate::feature::lemma_features_where(|g: DocumentFeature| sig.has(g), f);
        if sig.has(f) {
            let j = choose|j: int| 0 <= j < sig.present().len() && sig.present()[j] == f;
            assert(label_of(sig.present()[j]) == label_of(f));
        }
        if exists|j: int| 0 <= j < sig.present().len() && #[trigger] label_of(sig.present()[j]) == label_of(f) {
            let j = choose|j: int| 0 <= j < sig.present().len() && #[trigger] label_of(sig.present()[j]) == label_of(f);
            let g = sig.present()[j];
            assert(g == f);
            assert(sig.present().contains(g));
            crate::feature::lemma_features_where(|h: DocumentFeature| sig.has(h), g);
        }
    }
}

/// Declares the outside type `negative_space_testing::NegativeTest` to Verus,
/// as an opaque type.
#[verifier::external_type_specification]
#[verifier::external_body]
#[verifier::reject_recursive_types(T)]
pub struct ExNegativeTest<T>(negative_space_testing::NegativeTest<T>);

/// The forbidden behaviours a `NegativeTest` holds, in the order they were
/// added: each its description and the rule its predicate evaluates. Every
/// test this library holds is made by `new_negative_test` and `forbid_rule`,
/// whose predicates each evaluate one rule.
pub uninterp spec fn forbidden_rules(t: NegativeTest<String>) -> Seq<(Seq<char>, ProbeRule)>;

/// The descriptions of the rules that fire on `s`, in the order of `rules`.
pub open spec fn fired(rules: Seq<(Seq<char>, ProbeRule)>, s: Seq<char>) -> Seq<Seq<char>>
    decreases rules.len(),
{
    if rules.len() == 0 {
        Seq::empty()
    } else {
        fired(rules.drop_last(), s) + if fires(rules.last().1, s) {
            seq![rules.last().0]
        } else {
            Seq::empty()
        }
    }
}

/// The descriptions fired on each of `values` in turn, one list after the other.
pub open spec fn fired_all(rules: Seq<(Seq<char>, ProbeRule)>, values: Seq<Seq<char>>) -> Seq<Seq<char>>
    decreases values.len(),
{
    if values.len() == 0 {
        Seq::empty()
    } else {
        fired_all(rules, values.drop_last()) + fired(rules, values.last())
    }
}

/// Number of `values` on which no rule fires.
pub open spec fn clean_values(rules: Seq<(Seq<char>, ProbeRule)>, values: Seq<Seq<char>>) -> nat
    decreases values.len(),
{
    if values.len() == 0 {
        0
    } else {
        clean_values(rules, values.drop_last()) + if fired(rules, values.last()).len() == 0 {
            1nat
        } else {
            0nat
        }
    }
}

/// What checking parsed output gives: the descriptions of the forbidden
/// behaviours found, the number of values checked, and the number of values on
/// which none was found.
#[derive(Debug, Clone)]
pub struct ProbeResult {
    pub violations: Vec<String>,
    pub total_checked: usize,
    pub clean_count: usize,
}

impl ProbeResult {
    /// No forbidden behaviour was found.
    pub fn is_clean(&self) -> (r: bool)
        ensures
            r == (self.violations@.len() == 0),
    {
        self.violations.len() == 0
    }
}

/// Calls `NegativeTest::new`, which makes a test with no forbidden behaviour.
#[verifier::external_body]
fn new_negative_test() -> (t: NegativeTest<String>)
    ensures
        forbidden_rules(t) == Seq::<(Seq<char>, ProbeRule)>::empty(),
{
    NegativeTest::new()
}

/// Calls `NegativeTest::forbid` with a predicate that evaluates `rule`; the
/// crate pushes the new forbidden behaviour, described by `description`, after
/// those the test held.
#[verifier::external_body]
fn forbid_rule(t: NegativeTest<String>, description: &str, rule: ProbeRule) -> (r: NegativeTest<String>)
    ensures
        forbidden_rules(r) == forbidden_rules(t).push((description@, rule)),
{
    t.forbid(description, move |s: &String| rule_fires(rule, s))
}

/// Calls `NegativeTest::check` on one value and moves the fields of its
/// `NegativeResult` over: the crate lists the descriptions of the forbidden
/// behaviours whose predicates hold on the value, in order, counts one value
/// checked, and one clean value when the list is empty.
#[verifier::external_body]
fn check_one(t: &NegativeTest<String>, value: &String) -> (r: ProbeResult)
    ensures
        strings_view(r.violations@) == fired(forbidden_rules(*t), value@),
        r.total_checked == 1,
        r.clean_count == (if fired(forbidden_rules(*t), value@).len() == 0 {
            1usize
        } else {
            0usize
        }),
{
    let res = t.check(value);
    ProbeResult {
        violations: res.violations,
        total_checked: res.total_checked,
        clean_count: res.clean_count,
    }
}

/// Calls `NegativeTest::check_all` on the values and moves the fields of its
/// `NegativeResult` over: the crate concatenates, value by value, the
/// descriptions of the forbidden behaviours whose predicates hold, counts the
/// values, and counts those on which none holds.
#[verifier::external_body]
fn check_many(t: &NegativeTest<String>, values: &Vec<String>) -> (r: ProbeResult)
    ensures
        strings_view(r.violations@) == fired_all(forbidden_rules(*t), strings_view(values@)),
        r.total_checked == values@.len(),
        r.clean_count == clean_values(forbidden_rules(*t), strings_view(values@)),
{
    let res = t.check_all(values);
    ProbeResult {
        violations: res.violations,
        total_checked: res.total_checked,
        clean_count: res.clean_count,
    }
}

/// Checking many values finds nothing exactly when every value is clean.
pub proof fn lemma_check_all_clean(rules: Seq<(Seq<char>, ProbeRule)>, values: Seq<Seq<char>>)
    ensures
        clean_values(rules, values) <= values.len(),
        fired_all(rules, values).len() == 0 <==> clean_values(rules, values) == values.len(),
        fired_all(rules, values).len() == 0 <==> forall|i: int|
            0 <= i < values.len() ==> #[trigger] fired(rules, values[i]).len() == 0,
    decreases values.len(),
{
    if values.len() > 0 {
        let rest = values.drop_last();
        lemma_check_all_clean(rules, rest);
        if fired_all(rules, values).len() == 0 {
            assert forall|i: int| 0 <= i < values.len() implies #[trigger] fired(rules, values[i]).len() == 0 by {
                if i < values.len() - 1 {
                    assert(values[i] == rest[i]);
                }
            }
        }
        if forall|i: int| 0 <= i < values.len() ==> #[trigger] fired(rules, values[i]).len() == 0 {
            assert forall|i: int| 0 <= i < rest.len() implies #[trigger] fired(rules, rest[i]).len() == 0 by {
                assert(values[i] == rest[i]);
            }
            assert(fired(rules, values[values.len() - 1]).len() == 0);
        }
    }
}

/// A description is reported on `s` exactly when some rule under it fires.
proof fn lemma_fired_contains(rules: Seq<(Seq<char>, ProbeRule)>, s: Seq<char>, name: Seq<char>)
    ensures
        fired(rules, s).contains(name) <==> exists|i: int|
            0 <= i < rules.len() && #[trigger] rules[i].0 == name && fires(rules[i].1, s),
    decreases rules.len(),
{
    if rules.len() > 0 {
        let rest = rules.drop_last();
        lemma_fired_contains(rest, s, name);
        let last = rules.last();
        let tail = if fires(last.1, s) {
            seq![last.0]
        } else {
            Seq::<Seq<char>>::empty()
        };
        let f = fired(rules, s);
        assert(f == fired(rest, s) + tail);
        if f.contains(name) {
            let k = choose|k: int| 0 <= k < f.len() && f[k] == name;
            if k < fired(rest, s).len() {
                assert(fired(rest, s)[k] == name);
                let i = choose|i: int| 0 <= i < rest.len() && #[trigger] rest[i].0 == name && fires(rest[i].1, s);
                assert(rules[i] == rest[i]);
            } else {
                assert(rules[rules.len() - 1].0 == name);
            }
        }
        if exists|i: int| 0 <= i < rules.len() && #[trigger] rules[i].0 == name && fires(rules[i].1, s) {
            let i = choose|i: int| 0 <= i < rules.len() && #[trigger] rules[i].0 == name && fires(rules[i].1, s);
            if i < rules.len() - 1 {
                assert(rest[i] == rules[i]);
                assert(fired(rest, s).contains(name));
                let k = choose|k: int| 0 <= k < fired(rest, s).len() && fired(rest, s)[k] == name;
                assert(f[k] == name);
            } else {
                assert(f[f.len() - 1] == name);
            }
        }
    }
}

/// With the standard rules, a rule's name is among those reported on `s`
/// exactly when the rule fires on `s`.
pub proof fn lemma_standard_fired(s: Seq<char>)
    ensures
        forall|r: ProbeRule| #[trigger] fired(standard_rules(), s).contains(rule_name(r)) <==> fires(r, s),
{
    lemma_rule_names_distinct();
    let rules = standard_rules();
    assert(rules.len() == 5);
    assert(rules[0] == (rule_name(ProbeRule::EmptyOutput), ProbeRule::EmptyOutput));
    assert(rules[1] == (rule_name(ProbeRule::ParseErrorInOutput), ProbeRule::ParseErrorInOutput));
    assert(rules[2] == (rule_name(ProbeRule::GarbledTables), ProbeRule::GarbledTables));
    assert(rules[3] == (rule_name(ProbeRule::OcrFailureMarker), ProbeRule::OcrFailureMarker));
    assert(rules[4] == (rule_name(ProbeRule::NoTextExtracted), ProbeRule::NoTextExtracted));
    assert forall|j: int| 0 <= j < rules.len() implies #[trigger] rules[j].0 == rule_name(rules[j].1) by {}
    assert forall|r: ProbeRule| #[trigger] fired(rules, s).contains(rule_name(r)) <==> fires(r, s) by {
        lemma_fired_contains(rules, s, rule_name(r));
        let i: int = match r {
            ProbeRule::EmptyOutput => 0,
            ProbeRule::ParseErrorInOutput => 1,
            ProbeRule::GarbledTables => 2,
            ProbeRule::OcrFailureMarker => 3,
            ProbeRule::NoTextExtracted => 4,
        };
        assert(rules[i] == (rule_name(r), r));
        assert(0 <= i < rules.len());
        if fires(r, s) {
            assert(rules[i].0 == rule_name(r) && fires(rules[i].1, s));
            assert(fired(rules, s).contains(rule_name(r)));
        }
        if exists|j: int| 0 <= j < rules.len() && #[trigger] rules[j].0 == rule_name(r) && fires(rules[j].1, s) {
            let j = choose|j: int| 0 <= j < rules.len() && #[trigger] rules[j].0 == rule_name(r) && fires(rules[j].1, s);
            assert(rules[j].0 == rule_name(rules[j].1));
            assert(rules[j].1 == r);
            assert(fires(r, s));
        }
    }
}

/// A probe with the standard rules reports nothing but their names: each
/// violation on `s` is the name of a rule that fires on `s`, one of
/// `empty_output`, `parse_error_in_output`, `garbled_tables`,
/// `ocr_failure_marker` and `no_text_extracted`.
pub proof fn lemma_standard_violations(s: Seq<char>)
    ensures
        forall|k: int|
            0 <= k < fired(standard_rules(), s).len() ==> exists|r: ProbeRule|
                rule_name(r) == #[trigger] fired(standard_rules(), s)[k] && fires(r, s),
        forall|k: int|
            0 <= k < fired(standard_rules(), s).len() ==> {
                let v = #[trigger] fired(standard_rules(), s)[k];
                ||| v == "empty_output"@
                ||| v == "parse_error_in_output"@
                ||| v == "garbled_tables"@
                ||| v == "ocr_failure_marker"@
                ||| v == "no_text_extracted"@
            },
{
    let rules = standard_rules();
    let f = fired(rules, s);
    assert forall|k: int| 0 <= k < f.len() implies exists|r: ProbeRule| rule_name(r) == #[trigger] f[k] && fires(r, s) by {
        assert(f.contains(f[k]));
        lemma_fired_contains(rules, s, f[k]);
        let i = choose|i: int| 0 <= i < rules.len() && #[trigger] rules[i].0 == f[k] && fires(rules[i].1, s);
        assert(rules[i].0 == rule_name(rules[i].1));
    }
    assert forall|k: int| 0 <= k < f.len() implies {
        let v = #[trigger] f[k];
        ||| v == "empty_output"@
        ||| v == "parse_error_in_output"@
        ||| v == "garbled_tables"@
        ||| v == "ocr_failure_marker"@
        ||| v == "no_text_extracted"@
    } by {
        let r = choose|r: ProbeRule| rule_name(r) == f[k] && fires(r, s);
        match r {
            ProbeRule::EmptyOutput => {},
            ProbeRule::ParseErrorInOutput => {},
            ProbeRule::GarbledTables => {},
            ProbeRule::OcrFailureMarker => {},
            ProbeRule::NoTextExtracted => {},
        }
    }
}

/// Two probes with the same rules report the same on every text: in
/// particular a default probe and a new one.
pub proof fn lemma_same_rules_same_check(p1: CoverageProbe, p2: CoverageProbe, s: Seq<char>)
    requires
        p1.rules() == p2.rules(),
    ensures
        fired(p1.rules(), s) == fired(p2.rules(), s),
{
}

/// `pat` is found in `s` at some position.
pub open spec fn found_at_some(s: Seq<char>, pat: Seq<char>) -> bool {
    exists|i: int| 0 <= i && i + pat.len() <= s.len() && #[trigger] s.subrange(i, i + pat.len()) == pat
}

proof fn lemma_found_contains(s: Seq<char>, pat: Seq<char>)
    ensures
        found_at_some(s, pat) <==> crate::rules::contains_text(s, pat),
{
    if found_at_some(s, pat) {
        let i = choose|i: int| 0 <= i && i + pat.len() <= s.len() && #[trigger] s.subrange(i, i + pat.len()) == pat;
        assert(s.subrange(i, i + pat.len()) == pat);
    }
    if crate::rules::contains_text(s, pat) {
        let i = choose|i: int| 0 <= i <= s.len() - pat.len() && #[trigger] s.subrange(i, i + pat.len()) == pat;
        assert(s.subrange(i, i + pat.len()) == pat);
    }
}

/// What a probe with the standard rules reports on a text `s`:
/// `empty_output` when every character is white space; `parse_error_in_output`
/// when `ERROR` or `ParseError` occurs in it; `garbled_tables` when
/// `[GARBLED]` occurs; `ocr_failure_marker` when `[OCR_FAILED]` occurs; and,
/// `no_text_extracted` whenever the text is all white space or has fewer than
/// five bytes, and never when it has five or more characters that are not
/// white space.
pub proof fn lemma_standard_rules_on_text(s: Seq<char>)
    ensures
        fired(standard_rules(), s).contains("empty_output"@) <==> forall|i: int|
            0 <= i < s.len() ==> crate::rules::is_white_space(#[trigger] s[i]),
        fired(standard_rules(), s).contains("parse_error_in_output"@) <==> found_at_some(s, "ERROR"@)
            || found_at_some(s, "ParseError"@),
        fired(standard_rules(), s).contains("garbled_tables"@) <==> found_at_some(s, "[GARBLED]"@),
        fired(standard_rules(), s).contains("ocr_failure_marker"@) <==> found_at_some(s, "[OCR_FAILED]"@),
        (forall|i: int| 0 <= i < s.len() ==> crate::rules::is_white_space(#[trigger] s[i])) ==> fired(
            standard_rules(),
            s,
        ).contains("no_text_extracted"@),
        crate::rules::utf8_len(s) < 5 ==> fired(standard_rules(), s).contains("no_text_extracted"@),
        crate::rules::visible_count(s) >= 5 ==> !fired(standard_rules(), s).contains("no_text_extracted"@),
{
    crate::rules::lemma_trimmed_counts(s);
    lemma_standard_fired(s);
    assert(rule_name(ProbeRule::EmptyOutput) == "empty_output"@);
    assert(rule_name(ProbeRule::ParseErrorInOutput) == "parse_error_in_output"@);
    assert(rule_name(ProbeRule::GarbledTables) == "garbled_tables"@);
    assert(rule_name(ProbeRule::OcrFailureMarker) == "ocr_failure_marker"@);
    assert(rule_name(ProbeRule::NoTextExtracted) == "no_text_extracted"@);
    assert(fired(standard_rules(), s).contains(rule_name(ProbeRule::EmptyOutput)) <==> fires(ProbeRule::EmptyOutput, s));
    assert(fired(standard_rules(), s).contains(rule_name(ProbeRule::ParseErrorInOutput)) <==> fires(ProbeRule::ParseErrorInOutput, s));
    assert(fired(standard_rules(), s).contains(rule_name(ProbeRule::GarbledTables)) <==> fires(ProbeRule::GarbledTables, s));
    assert(fired(standard_rules(), s).contains(rule_name(ProbeRule::OcrFailureMarker)) <==> fires(ProbeRule::OcrFailureMarker, s));
    assert(fired(standard_rules(), s).contains(rule_name(ProbeRule::NoTextExtracted)) <==> fires(ProbeRule::NoTextExtracted, s));
    crate::rules::lemma_trimmed_empty(s);
    lemma_found_contains(s, "ERROR"@);
    lemma_found_contains(s, "ParseError"@);
    lemma_found_contains(s, "[GARBLED]"@);
    lemma_found_contains(s, "[OCR_FAILED]"@);
    if forall|i: int| 0 <= i < s.len() ==> crate::rules::is_white_space(#[trigger] s[i]) {
        assert(crate::rules::trimmed(s) =~= Seq::<char>::empty());
        assert(crate::rules::utf8_len(crate::rules::trimmed(s)) == 0);
    }
}

/// The rules named by `names`, in order; a name of no rule is skipped.
pub open spec fn named_rules(names: Seq<Seq<char>>) -> Seq<(Seq<char>, ProbeRule)>
    decreases names.len(),
{
    if names.len() == 0 {
        Seq::empty()
    } else {
        named_rules(names.drop_last()) + if exists|r: ProbeRule| rule_name(r) == names.last() {
            seq![(names.last(), choose|r: ProbeRule| rule_name(r) == names.last())]
        } else {
            Seq::empty()
        }
    }
}

/// The rules a new probe checks, in order, each under its name.
pub open spec fn standard_rules() -> Seq<(Seq<char>, ProbeRule)> {
    seq![
        (rule_name(ProbeRule::EmptyOutput), ProbeRule::EmptyOutput),
        (rule_name(ProbeRule::ParseErrorInOutput), ProbeRule::ParseErrorInOutput),
        (rule_name(ProbeRule::GarbledTables), ProbeRule::GarbledTables),
        (rule_name(ProbeRule::OcrFailureMarker), ProbeRule::OcrFailureMarker),
        (rule_name(ProbeRule::NoTextExtracted), ProbeRule::NoTextExtracted),
    ]
}

/// A probe that checks parsed documents for forbidden patterns, through a
/// `NegativeTest` built from its rules.
#[derive(Debug)]
pub struct CoverageProbe {
    forbidden_names: Vec<String>,
}

impl CoverageProbe {
    /// The rules the probe checks, in order, each with the name it reports.
    pub closed spec fn rules(&self) -> Seq<(Seq<char>, ProbeRule)> {
        named_rules(strings_view(self.forbidden_names@))
    }

    /// Create a new coverage probe with the standard rules.
    pub fn new() -> (p: Self)
        ensures
            p.rules() == standard_rules(),
    {
        let names: Vec<String> = vec![
            "empty_output".to_owned(),
            "parse_error_in_output".to_owned(),
            "garbled_tables".to_owned(),
            "ocr_failure_marker".to_owned(),
            "no_text_extracted".to_owned(),
        ];
        let p = CoverageProbe { forbidden_names: names };
        proof {
            lemma_rule_names_distinct();
            let v = strings_view(names@);
            assert(v[0] == rule_name(ProbeRule::EmptyOutput));
            assert(v[1] == rule_name(ProbeRule::ParseErrorInOutput));
            assert(v[2] == rule_name(ProbeRule::GarbledTables));
            assert(v[3] == rule_name(ProbeRule::OcrFailureMarker));
            assert(v[4] == rule_name(ProbeRule::NoTextExtracted));
            assert(v.drop_last().drop_last().drop_last().drop_last().drop_last() =~= Seq::<Seq<char>>::empty());
            reveal_with_fuel(named_rules, 6);
            assert(named_rules(v) =~= standard_rules());
        }
        p
    }

    /// The `NegativeTest` of the probe's rules.
    fn build_test(&self) -> (t: NegativeTest<String>)
        ensures
            forbidden_rules(t) == self.rules(),
    {
        let ghost names = strings_view(self.forbidden_names@);
        let mut test = new_negative_test();
        let mut i: usize = 0;
        proof {
            assert(names.take(0) =~= Seq::<Seq<char>>::empty());
        }
        while i < self.forbidden_names.len()
            invariant
                i <= self.forbidden_names@.len(),
                names == strings_view(self.forbidden_names@),
                forbidden_rules(test) == named_rules(names.take(i as int)),
            decreases self.forbidden_names@.len() - i,
        {
            let name = self.forbidden_names[i].as_str();
            let found = rule_named(name);
            proof {
                lemma_rule_names_distinct();
                assert(names.take(i + 1).drop_last() =~= names.take(i as int));
                assert(names.take(i + 1).last() == name@);
            }
            match found {
                Some(rule) => {
                    test = forbid_rule(test, name, rule);
                },
                None => {},
            }
            i += 1;
        }
        proof {
            assert(names.take(names.len() as int) =~= names);
        }
        test
    }

    /// Check a parsed document's text for forbidden patterns.
    pub fn check(&self, content: &str) -> (r: ProbeResult)
        ensures
            strings_view(r.violations@) == fired(self.rules(), content@),
            r.total_checked == 1,
            r.clean_count == (if fired(self.rules(), content@).len() == 0 {
                1usize
            } else {
                0usize
            }),
    {
        let test = self.build_test();
        let value = content.to_owned();
        check_one(&test, &value)
    }

    /// Check the texts of several parsed documents.
    pub fn check_all(&self, contents: &[&str]) -> (r: ProbeResult)
        ensures
            strings_view(r.violations@) == fired_all(self.rules(), contents@.map_values(|s: &str| s@)),
            r.total_checked == contents@.len(),
            r.clean_count == clean_values(self.rules(), contents@.map_values(|s: &str| s@)),
    {
        let mut values: Vec<String> = Vec::new();
        let mut i: usize = 0;
        while i < contents.len()
            invariant
                i <= contents@.len(),
                values@.len() == i,
                forall|t: int| 0 <= t < i ==> #[trigger] values@[t]@ == contents@[t]@,
            decreases contents@.len() - i,
        {
            values.push(contents[i].to_owned());
            i += 1;
        }
        proof {
            assert(strings_view(values@) =~= contents@.map_values(|s: &str| s@));
        }
        let test = self.build_test();
        check_many(&test, &values)
    }
}

impl Default for CoverageProbe {
    fn default() -> (p: Self)
        ensures
            p.rules() == standard_rules(),
    {
        Self::new()
    }
}

} // verus!
