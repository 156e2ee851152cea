use liteparse_coverage::coverage::{CoverageProbe, DocumentSignature};
use liteparse_coverage::DocumentFeature;

#[test]
fn test_signature_from_labels() {
    let sig = DocumentSignature::from_labels(&["text", "tables", "images"]);
    assert!(sig.has_text);
    assert!(sig.has_tables);
    assert!(sig.has_images);
    assert!(!sig.has_code_blocks);
    assert_eq!(sig.feature_count(), 3);
}

#[test]
fn test_coverage_probe_clean() {
    let probe = CoverageProbe::new();
    let result = probe.check("This is a perfectly parsed document with some content.");
    assert!(result.is_clean());
}

#[test]
fn test_coverage_probe_violation() {
    let probe = CoverageProbe::new();
    let result = probe.check("");
    assert!(!result.is_clean());
    assert!(result.violations.iter().any(|v| v == "empty_output"));
}

#[test]
fn test_coverage_probe_parse_error() {
    let probe = CoverageProbe::new();
    let result = probe.check("Some content before ERROR: ParseError in table extraction");
    assert!(!result.is_clean());
    assert!(result.violations.iter().any(|v| v == "parse_error_in_output"));
}

#[test]
fn signature_ignores_unknown_and_repeated_labels() {
    let sig = DocumentSignature::from_labels(&["tables", "unknown", "tables", "", "footnotes"]);
    assert_eq!(sig.feature_count(), 2);
    assert_eq!(sig.to_labels(), vec!["tables", "footnotes"]);
}

#[test]
fn signature_labels_come_back_in_canonical_order() {
    let sig = DocumentSignature::from_labels(&["bidirectional_text", "text", "formulas", "lists"]);
    assert_eq!(sig.to_labels(), vec!["text", "lists", "formulas", "bidirectional_text"]);
}

#[test]
fn signature_roundtrip_keeps_every_flag() {
    let mut sig = DocumentSignature::default();
    sig.has_nested_lists = true;
    sig.has_headers = true;
    sig.has_cross_references = true;
    let labels = sig.to_labels();
    let back = DocumentSignature::from_labels(&labels);
    assert!(back.has_nested_lists && back.has_headers && back.has_cross_references);
    assert!(!back.has_text && !back.has_lists && !back.has_tables && !back.has_images);
    assert!(!back.has_formulas && !back.has_code_blocks && !back.has_footnotes);
    assert!(!back.has_bidirectional_text);
    assert_eq!(back.feature_count(), sig.feature_count());
}

#[test]
fn default_signature_is_empty() {
    let sig = DocumentSignature::default();
    assert_eq!(sig.feature_count(), 0);
    assert!(sig.to_labels().is_empty());
}

#[test]
fn signature_mask_sets_feature_bits() {
    let sig = DocumentSignature::from_labels(&["text", "tables", "bidirectional_text"]);
    assert_eq!(sig.mask(), 1 | 8 | 1024);
    assert!(sig.has_feature(DocumentFeature::Tables));
    assert!(!sig.has_feature(DocumentFeature::Images));
}

#[test]
fn probe_reports_short_text() {
    let probe = CoverageProbe::new();
    let result = probe.check("  ab  ");
    assert_eq!(result.violations, vec!["no_text_extracted".to_string()]);
    assert_eq!(result.total_checked, 1);
    assert_eq!(result.clean_count, 0);
}

#[test]
fn probe_reports_empty_output_and_short_text_in_order() {
    let probe = CoverageProbe::new();
    let result = probe.check(" \t\n ");
    assert_eq!(result.violations, vec!["empty_output".to_string(), "no_text_extracted".to_string()]);
}

#[test]
fn probe_finds_markers() {
    let probe = CoverageProbe::new();
    let garbled = probe.check("Table: [GARBLED] rows follow");
    assert_eq!(garbled.violations, vec!["garbled_tables".to_string()]);
    let ocr = probe.check("Page two [OCR_FAILED] here");
    assert_eq!(ocr.violations, vec!["ocr_failure_marker".to_string()]);
    let parse = probe.check("a ParseError was raised");
    assert_eq!(parse.violations, vec!["parse_error_in_output".to_string()]);
    let lower = probe.check("an error in lower case is fine");
    assert!(lower.is_clean());
    assert_eq!(lower.clean_count, 1);
}

#[test]
fn probe_counts_bytes_not_characters() {
    let probe = CoverageProbe::new();
    // two two-byte characters: four bytes, under five
    assert_eq!(probe.check("\u{e9}\u{e9}").violations, vec!["no_text_extracted".to_string()]);
    // three two-byte characters: six bytes
    assert!(probe.check("\u{e9}\u{e9}\u{e9}").is_clean());
}

#[test]
fn probe_trims_unicode_white_space() {
    let probe = CoverageProbe::new();
    let result = probe.check("\u{3000}abc\u{2003}");
    assert_eq!(result.violations, vec!["no_text_extracted".to_string()]);
    let empty = probe.check("\u{a0}\u{2028}");
    assert_eq!(empty.violations, vec!["empty_output".to_string(), "no_text_extracted".to_string()]);
}

#[test]
fn check_all_concatenates_and_counts() {
    let probe = CoverageProbe::default();
    let result = probe.check_all(&["", "A well parsed paragraph.", "x [GARBLED]"]);
    assert_eq!(
        result.violations,
        vec!["empty_output".to_string(), "no_text_extracted".to_string(), "garbled_tables".to_string()]
    );
    assert_eq!(result.total_checked, 3);
    assert_eq!(result.clean_count, 1);
    assert!(!result.is_clean());
}

#[test]
fn check_all_of_nothing_is_clean() {
    let probe = CoverageProbe::new();
    let result = probe.check_all(&[]);
    assert!(result.is_clean());
    assert_eq!(result.total_checked, 0);
    assert_eq!(result.clean_count, 0);
}

#[test]
fn probe_reports_only_rule_names() {
    let names = [
        "empty_output",
        "parse_error_in_output",
        "garbled_tables",
        "ocr_failure_marker",
        "no_text_extracted",
    ];
    let new = CoverageProbe::new();
    let default = CoverageProbe::default();
    for text in ["", "ok", "ERROR [GARBLED] [OCR_FAILED]", "  ParseError  ", "a long clean paragraph"] {
        let r = new.check(text);
        for v in &r.violations {
            assert!(names.contains(&v.as_str()));
        }
        assert_eq!(r.violations, default.check(text).violations);
        assert_eq!(r.clean_count, default.check(text).clean_count);
    }
}

#[test]
fn from_label_needs_an_exact_label() {
    assert_eq!(DocumentFeature::from_label("tables"), Some(DocumentFeature::Tables));
    assert_eq!(DocumentFeature::from_label("table"), None);
    assert_eq!(DocumentFeature::from_label("Text"), None);
    assert_eq!(DocumentFeature::from_label(""), None);
    for f in DocumentFeature::all() {
        assert_eq!(DocumentFeature::from_label(f.label()).map(|g| g.label()), Some(f.label()));
    }
}
