use liteparse_coverage::report::CoverageReport;
use liteparse_coverage::DocumentFeatureSpace;

#[test]
fn test_report_empty_space() {
    let space = DocumentFeatureSpace::new();
    let report = CoverageReport::new(&space);
    assert_eq!(report.total_documents(), 0);
}

#[test]
fn test_report_with_data() {
    let mut space = DocumentFeatureSpace::new();
    space.add_document("a", &["text", "tables"]);
    space.add_document("b", &["text", "images"]);
    let report = CoverageReport::new(&space);
    assert_eq!(report.total_documents(), 2);
    assert!(!report.missing_format_families().is_empty());
    assert!(report.missing_format_families().iter().any(|f| f.contains("tables") && f.contains("images")));
}

#[test]
fn test_summary_generation() {
    let mut space = DocumentFeatureSpace::new();
    space.add_document("basic", &["text"]);
    space.add_document("with_tables", &["text", "tables"]);
    let report = CoverageReport::new(&space);
    let summary = report.summary();
    assert!(summary.contains("Coverage Report"));
    assert!(summary.contains("Betti Numbers"));
}

#[test]
fn missing_pairs_then_triples() {
    let mut space = DocumentFeatureSpace::new();
    space.add_document("a", &["text", "tables"]);
    space.add_document("b", &["text", "images"]);
    let report = space.analyze();
    assert_eq!(
        report.missing_combinations().to_vec(),
        vec![
            vec!["images".to_string(), "tables".to_string()],
            vec!["images".to_string(), "tables".to_string(), "text".to_string()],
        ]
    );
    assert_eq!(
        report.missing_format_families().to_vec(),
        vec!["[images + tables]".to_string(), "[images + tables + text]".to_string()]
    );
    assert_eq!(
        report.known_combinations().to_vec(),
        vec![
            vec!["tables".to_string(), "text".to_string()],
            vec!["images".to_string(), "text".to_string()],
        ]
    );
    assert_eq!(report.feature_count(), 3);
    assert_eq!(report.feature_labels().to_vec(), vec!["images", "tables", "text"]);
    assert_eq!(report.betti_numbers().to_vec(), vec![1, 0, 0, 0]);
}

#[test]
fn fully_tested_space_has_no_missing_family() {
    let mut space = DocumentFeatureSpace::new();
    space.add_document("all", &["text", "tables", "images"]);
    let report = space.analyze();
    assert!(report.missing_combinations().is_empty());
    assert!(report.missing_format_families().is_empty());
}

#[test]
fn summary_text_is_exact() {
    let mut space = DocumentFeatureSpace::new();
    space.add_document("a", &["text"]);
    space.add_document("b", &["tables"]);
    let report = space.analyze();
    let parts = [
        "\u{1f4ca} Coverage Report\n",
        "==================\n\n",
        "Documents analyzed: 2\n",
        "Features tracked:   2\n",
        "Known combinations: 2\n",
        "Missing families:   1\n\n",
        "Betti Numbers (holes in coverage):\n",
        "  \u{3b2}0 = 2 \u{2014} connected components\n",
        "  \u{3b2}1 = 0 \u{2014} 1-dimensional holes (missing pairs)\n",
        "  \u{3b2}2 = 0 \u{2014} 2-dimensional holes (missing triples)\n",
        "\n\u{26a0}\u{fe0f}  Missing format families:\n",
        "   \u{274c} [tables + text]\n",
        "\n\u{1f534} HIGH Betti\u{2080}: Format features are tested in isolation.\n",
        "   Combine features that are currently disconnected!\n",
        "\n\u{1f4a1} Recommendation: Aim for \u{3b2}\u{2080} = 1, \u{3b2}\u{1d62} = 0 for i \u{2265} 1.\n",
    ];
    let expected: String = parts.concat();
    assert_eq!(report.summary(), expected);
}

#[test]
fn summary_names_high_dimensions() {
    let mut space = DocumentFeatureSpace::new();
    space.add_document("five", &["text", "lists", "tables", "images", "formulas"]);
    let summary = space.analyze().summary();
    assert!(summary.contains("  \u{3b2}3 = 0 \u{2014} 3-dimensional holes (missing quadruples)\n"));
    assert!(summary.contains("  \u{3b2}4 = 0 \u{2014} 4D holes\n"));
    assert!(summary.contains("  \u{3b2}5 = 0 \u{2014} 5D holes\n"));
    assert!(!summary.contains("HIGH"));
    assert!(!summary.contains("Missing format families:\n"));
}

#[test]
fn report_tracks_as_many_features_as_dimensions() {
    let mut space = DocumentFeatureSpace::new();
    space.add_document("a", &["text", "footnotes"]);
    space.add_document("b", &["headers"]);
    let report = space.analyze();
    assert_eq!(report.feature_count(), space.dimensions());
    assert_eq!(report.known_combinations().len(), report.total_documents());
    assert_eq!(report.missing_format_families().len(), report.missing_combinations().len());
}

#[test]
fn analysis_is_deterministic() {
    let mut space = DocumentFeatureSpace::new();
    space.add_document("a", &["text", "tables"]);
    space.add_document("b", &["tables", "images"]);
    space.add_document("c", &["images", "formulas"]);
    let r1 = space.analyze();
    let r2 = space.clone().analyze();
    assert_eq!(r1.summary(), r2.summary());
    assert_eq!(r1.missing_combinations(), r2.missing_combinations());
    assert_eq!(space.betti_numbers(), space.clone().betti_numbers());
    assert_eq!(space.persistent_homology(), space.clone().persistent_homology());
}

#[test]
fn missing_combinations_lie_within_no_document() {
    let mut space = DocumentFeatureSpace::new();
    space.add_document("a", &["text", "tables"]);
    space.add_document("b", &["tables", "images"]);
    space.add_document("c", &["formulas"]);
    let report = space.analyze();
    assert!(!report.missing_combinations().is_empty());
    for m in report.missing_combinations() {
        assert!(m.len() >= 2 && m.len() <= 3);
        for l in m {
            assert!(report.feature_labels().contains(l));
        }
        for k in report.known_combinations() {
            assert!(m.iter().any(|l| !k.contains(l)));
        }
    }
    assert_eq!(report.known_combinations().len(), report.total_documents());
}

#[test]
fn summary_warns_only_when_disconnected() {
    let mut apart = DocumentFeatureSpace::new();
    apart.add_document("a", &["text", "tables"]);
    apart.add_document("b", &["images"]);
    let report = apart.analyze();
    let out = report.summary();
    assert!(out.contains("HIGH Betti\u{2080}"));
    assert!(out.contains("Documents analyzed: 2\n"));
    assert!(out.contains("Features tracked:   3\n"));
    assert!(out.contains("  \u{3b2}0 = 2 \u{2014} "));
    for f in report.missing_format_families() {
        assert!(out.contains(&format!("   \u{274c} {}\n", f)));
    }
    let mut joined = DocumentFeatureSpace::new();
    joined.add_document("a", &["text", "tables"]);
    joined.add_document("b", &["tables", "images"]);
    let out = joined.analyze().summary();
    assert!(!out.contains("HIGH"));
    assert!(out.contains("  \u{3b2}0 = 1 \u{2014} "));
}

#[test]
fn missing_combinations_are_exactly_the_uncovered_label_sets() {
    let mut space = DocumentFeatureSpace::new();
    space.add_document("a", &["text", "tables"]);
    space.add_document("b", &["tables", "images", "formulas"]);
    let report = space.analyze();
    let labels: Vec<String> = report.feature_labels().to_vec();
    let known = report.known_combinations().to_vec();
    let covered = |t: &Vec<String>| known.iter().any(|k| t.iter().all(|l| k.contains(l)));
    let mut expected: Vec<Vec<String>> = Vec::new();
    let n = labels.len();
    for i in 0..n {
        for j in i + 1..n {
            let t = vec![labels[i].clone(), labels[j].clone()];
            if !covered(&t) {
                expected.push(t);
            }
        }
    }
    for i in 0..n {
        for j in i + 1..n {
            for k in j + 1..n {
                let t = vec![labels[i].clone(), labels[j].clone(), labels[k].clone()];
                if !covered(&t) {
                    expected.push(t);
                }
            }
        }
    }
    assert_eq!(report.missing_combinations().to_vec(), expected);
    for w in report.missing_combinations().windows(2) {
        assert!(w[0].len() < w[1].len() || (w[0].len() == w[1].len() && w[0] < w[1]));
    }
}
