use liteparse_coverage::probes::SpaceProbe;

#[test]
fn test_space_probe() {
    let mut probe = SpaceProbe::new();
    assert_eq!(probe.untested_features().len(), 11);
    probe.test_feature("text");
    probe.test_feature("tables");
    assert_eq!(probe.untested_features().len(), 9);
}

#[test]
fn space_probe_untested_in_order() {
    let mut probe = SpaceProbe::default();
    probe.test_feature("lists");
    probe.test_feature("lists");
    probe.test_feature("not_a_feature");
    assert_eq!(
        probe.untested_features(),
        vec![
            "text",
            "nested_lists",
            "tables",
            "images",
            "formulas",
            "code_blocks",
            "headers",
            "footnotes",
            "cross_references",
            "bidirectional_text",
        ]
    );
}

#[test]
fn space_map_tracks_forbidden_and_occupied() {
    let mut probe = SpaceProbe::new();
    assert_eq!(probe.space_map().forbidden_count(), 11);
    assert_eq!(probe.space_map().occupied_count(), 0);
    assert_eq!(probe.space_map().negative_space_ratio(), 1.0);
    probe.test_feature("text");
    probe.test_feature("tables");
    probe.test_feature("text");
    assert_eq!(probe.space_map().occupied_count(), 2);
    assert_eq!(probe.space_map().get(&"tables".to_string()), Some(&true));
    let ratio = probe.space_map().negative_space_ratio();
    assert!((ratio - (1.0 - 2.0 / 11.0)).abs() < 1e-12);
}

#[test]
fn space_probe_debug_lists_tested_then_forbidden() {
    let mut probe = SpaceProbe::new();
    probe.test_feature("tables");
    let text = format!("{:?}", probe);
    assert!(text.starts_with("SpaceProbe { tested: [\"tables\"], forbidden: [\"text\", \"lists\", "));
}
