//! The canonical set of document features and their labels.

use vstd::prelude::*;

verus! {

/// Number of document features the library knows.
pub const FEATURE_COUNT: usize = 11;

/// Canonical set of document features recognized by the parser.
///
/// The declaration order is the canonical order of the features; a feature's
/// position in it is its ordinal.
#[derive(Debug, Clone, Copy, PartialEq, Eq, Structural, Hash, PartialOrd, Ord)]
pub enum DocumentFeature {
    /// Plain text paragraphs
    Text,
    /// Markdown or table-of-contents-style lists
    Lists,
    /// Nested lists (lists within lists)
    NestedLists,
    /// Tabular data (HTML tables, markdown tables, PDF tables)
    Tables,
    /// Embedded images (PNG, JPEG, SVG in documents)
    Images,
    /// Mathematical formulas (LaTeX, MathML, OMML)
    Formulas,
    /// Code blocks (fenced code, inline code)
    CodeBlocks,
    /// Headers and headings (h1-h6)
    Headers,
    /// Footnotes or endnotes
    Footnotes,
    /// Cross-references (internal links, references)
    CrossReferences,
    /// Mixed-direction text (RTL + LTR)
    BidirectionalText,
}

/// The feature at a canonical position (positions 0 to 10).
pub open spec fn feature_at(i: int) -> DocumentFeature {
    if i == 0 {
        DocumentFeature::Text
    } else if i == 1 {
        DocumentFeature::Lists
    } else if i == 2 {
        DocumentFeature::NestedLists
    } else if i == 3 {
        DocumentFeature::Tables
    } else if i == 4 {
        DocumentFeature::Images
    } else if i == 5 {
        DocumentFeature::Formulas
    } else if i == 6 {
        DocumentFeature::CodeBlocks
    } else if i == 7 {
        DocumentFeature::Headers
    } else if i == 8 {
        DocumentFeature::Footnotes
    } else if i == 9 {
        DocumentFeature::CrossReferences
    } else {
        DocumentFeature::BidirectionalText
    }
}

/// The human-readable label of a feature.
pub open spec fn label_of(f: DocumentFeature) -> Seq<char> {
    match f {
        DocumentFeature::Text => "text"@,
        DocumentFeature::Lists => "lists"@,
        DocumentFeature::NestedLists => "nested_lists"@,
        DocumentFeature::Tables => "tables"@,
        DocumentFeature::Images => "images"@,
        DocumentFeature::Formulas => "formulas"@,
        DocumentFeature::CodeBlocks => "code_blocks"@,
        DocumentFeature::Headers => "headers"@,
        DocumentFeature::Footnotes => "footnotes"@,
        DocumentFeature::CrossReferences => "cross_references"@,
        DocumentFeature::BidirectionalText => "bidirectional_text"@,
    }
}

/// All features in canonical order.
pub open spec fn all_features() -> Seq<DocumentFeature> {
    Seq::new(FEATURE_COUNT as nat, |i: int| feature_at(i))
}

/// The features satisfying `p`, in canonical order.
pub open spec fn features_where(p: spec_fn(DocumentFeature) -> bool) -> Seq<DocumentFeature> {
    all_features().filter(p)
}

/// A feature is among the features satisfying `p` exactly when it satisfies `p`.
pub proof fn lemma_features_where(p: spec_fn(DocumentFeature) -> bool, f: DocumentFeature)
    ensures
        features_where(p).contains(f) <==> p(f),
{
    broadcast use vstd::seq_lib::group_filter_ensures;
    assert(all_features()[f.ordinal()] == f);
    if features_where(p).contains(f) {
        let i = choose|i: int| 0 <= i < features_where(p).len() && features_where(p)[i] == f;
        assert(p(features_where(p)[i]));
    }
}

/// Every feature sits at the position of its ordinal.
pub proof fn lemma_feature_at_ordinal(f: DocumentFeature)
    ensures
        feature_at(f.ordinal()) == f,
        0 <= f.ordinal() < 11,
{
}

/// Lexicographic order on character sequences (by code point).
pub open spec fn lex_lt(a: Seq<char>, b: Seq<char>) -> bool
    decreases a.len(),
{
    if a.len() == 0 {
        b.len() > 0
    } else if b.len() == 0 {
        false
    } else if a[0] != b[0] {
        (a[0] as u32) < (b[0] as u32)
    } else {
        lex_lt(a.drop_first(), b.drop_first())
    }
}

impl DocumentFeature {
    /// Position of the feature in the canonical order.
    pub open spec fn ordinal(self) -> int {
        match self {
            DocumentFeature::Text => 0,
            DocumentFeature::Lists => 1,
            DocumentFeature::NestedLists => 2,
            DocumentFeature::Tables => 3,
            DocumentFeature::Images => 4,
            DocumentFeature::Formulas => 5,
            DocumentFeature::CodeBlocks => 6,
            DocumentFeature::Headers => 7,
            DocumentFeature::Footnotes => 8,
            DocumentFeature::CrossReferences => 9,
            DocumentFeature::BidirectionalText => 10,
        }
    }

    /// Position of the feature in the alphabetical order of the labels.
    pub open spec fn alpha_rank(self) -> int {
        match self {
            DocumentFeature::BidirectionalText => 0,
            DocumentFeature::CodeBlocks => 1,
            DocumentFeature::CrossReferences => 2,
            DocumentFeature::Footnotes => 3,
            DocumentFeature::Formulas => 4,
            DocumentFeature::Headers => 5,
            DocumentFeature::Images => 6,
            DocumentFeature::Lists => 7,
            DocumentFeature::NestedLists => 8,
            DocumentFeature::Tables => 9,
            DocumentFeature::Text => 10,
        }
    }

    /// The ordinal of the feature.
    pub fn index(&self) -> (i: usize)
        ensures
            i == self.ordinal(),
            i < FEATURE_COUNT,
    {
        match self {
            DocumentFeature::Text => 0,
            DocumentFeature::Lists => 1,
            DocumentFeature::NestedLists => 2,
            DocumentFeature::Tables => 3,
            DocumentFeature::Images => 4,
            DocumentFeature::Formulas => 5,
            DocumentFeature::CodeBlocks => 6,
            DocumentFeature::Headers => 7,
            DocumentFeature::Footnotes => 8,
            DocumentFeature::CrossReferences => 9,
            DocumentFeature::BidirectionalText => 10,
        }
    }

    /// The feature at a canonical position.
    pub fn from_index(i: usize) -> (f: DocumentFeature)
        requires
            i < FEATURE_COUNT,
        ensures
            f == feature_at(i as int),
            f.ordinal() == i,
    {
        if i == 0 {
            DocumentFeature::Text
        } else if i == 1 {
            DocumentFeature::Lists
        } else if i == 2 {
            DocumentFeature::NestedLists
        } else if i == 3 {
            DocumentFeature::Tables
        } else if i == 4 {
            DocumentFeature::Images
        } else if i == 5 {
            DocumentFeature::Formulas
        } else if i == 6 {
            DocumentFeature::CodeBlocks
        } else if i == 7 {
            DocumentFeature::Headers
        } else if i == 8 {
            DocumentFeature::Footnotes
        } else if i == 9 {
            DocumentFeature::CrossReferences
        } else {
            DocumentFeature::BidirectionalText
        }
    }

    /// All known features, in canonical order.
    pub fn all() -> (v: Vec<DocumentFeature>)
        ensures
            v@ == all_features(),
    {
        let v = vec![
            DocumentFeature::Text,
            DocumentFeature::Lists,
            DocumentFeature::NestedLists,
            DocumentFeature::Tables,
            DocumentFeature::Images,
            DocumentFeature::Formulas,
            DocumentFeature::CodeBlocks,
            DocumentFeature::Headers,
            DocumentFeature::Footnotes,
            DocumentFeature::CrossReferences,
            DocumentFeature::BidirectionalText,
        ];
        assert(v@ =~= all_features());
        v
    }

    /// Human-readable label for this feature.
    pub fn label(&self) -> (s: &'static str)
        ensures
            s@ == label_of(*self),
    {
        match self {
            DocumentFeature::Text => "text",
            DocumentFeature::Lists => "lists",
            DocumentFeature::NestedLists => "nested_lists",
            DocumentFeature::Tables => "tables",
            DocumentFeature::Images => "images",
            DocumentFeature::Formulas => "formulas",
            DocumentFeature::CodeBlocks => "code_blocks",
            DocumentFeature::Headers => "headers",
            DocumentFeature::Footnotes => "footnotes",
            DocumentFeature::CrossReferences => "cross_references",
            DocumentFeature::BidirectionalText => "bidirectional_text",
        }
    }

    /// Parse a feature from its label.
    pub fn from_label(s: &str) -> (r: Option<DocumentFeature>)
        ensures
            r == feature_named(s@),
            r matches Some(f) ==> label_of(f) == s@,
            r is None <==> (forall|f: DocumentFeature| label_of(f) != s@),
    {
        proof {
            lemma_labels_distinct();
        }
        let mut i: usize = 0;
        while i < FEATURE_COUNT
            invariant
                i <= FEATURE_COUNT,
                forall|j: int| 0 <= j < i ==> label_of(#[trigger] feature_at(j)) != s@,
            decreases FEATURE_COUNT - i,
        {
            let f = DocumentFeature::from_index(i);
            if str_eq(f.label(), s) {
                proof {
                    lemma_labels_distinct();
                    assert(label_of(f) == s@);
                    let g = choose|g: DocumentFeature| label_of(g) == s@;
                    assert(label_of(g) == label_of(f));
                    assert(g == f);
                }
                return Some(f);
            }
            i += 1;
        }
        proof {
            assert forall|f: DocumentFeature| label_of(f) != s@ by {
                assert(feature_at(f.ordinal()) == f);
            }
        }
        None
    }
}

/// The feature whose label is `s`, if any.
pub open spec fn feature_named(s: Seq<char>) -> Option<DocumentFeature> {
    if exists|f: DocumentFeature| label_of(f) == s {
        Some(choose|f: DocumentFeature| label_of(f) == s)
    } else {
        None
    }
}

/// Reading a feature's label back gives the feature.
pub proof fn lemma_label_roundtrip(f: DocumentFeature)
    ensures
        feature_named(label_of(f)) == Some(f),
{
    lemma_labels_distinct();
    let g = choose|g: DocumentFeature| label_of(g) == label_of(f);
    assert(label_of(g) == label_of(f));
}

/// Parsing a label: every feature's label reads back as that feature, a text
/// read as a feature is that feature's label, and a text reads as no feature
/// exactly when it is no feature's label.
pub proof fn lemma_feature_named(s: Seq<char>)
    ensures
        forall|f: DocumentFeature| #[trigger] feature_named(label_of(f)) == Some(f),
        feature_named(s) matches Some(f) ==> label_of(f) == s,
        feature_named(s) is None <==> forall|f: DocumentFeature| label_of(f) != s,
{
    assert forall|f: DocumentFeature| #[trigger] feature_named(label_of(f)) == Some(f) by {
        lemma_label_roundtrip(f);
    }
    if exists|f: DocumentFeature| label_of(f) == s {
        let g = choose|f: DocumentFeature| label_of(f) == s;
        assert(feature_named(s) == Some(g));
    }
}

/// Equality of two string slices by their characters.
pub fn str_eq(a: &str, b: &str) -> (r: bool)
    ensures
        r == (a@ == b@),
{
    let x = a.to_owned();
    let y = b.to_owned();
    x == y
}

/// Distinct features have distinct labels.
pub proof fn lemma_labels_distinct()
    ensures
        forall|f: DocumentFeature, g: DocumentFeature|
            label_of(f) == label_of(g) ==> f == g,
{
    reveal_strlit("text");
    reveal_strlit("lists");
    reveal_strlit("nested_lists");
    reveal_strlit("tables");
    reveal_strlit("images");
    reveal_strlit("formulas");
    reveal_strlit("code_blocks");
    reveal_strlit("headers");
    reveal_strlit("footnotes");
    reveal_strlit("cross_references");
    reveal_strlit("bidirectional_text");
    assert forall|f: DocumentFeature, g: DocumentFeature|
        label_of(f) == label_of(g) implies f == g by {
        if f != g {
            assert(label_of(f).len() != label_of(g).len() || label_of(f)[0] != label_of(g)[0]
                || label_of(f)[1] != label_of(g)[1] || label_of(f)[2] != label_of(g)[2]);
        }
    }
}

} // verus!
