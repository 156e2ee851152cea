use liteparse_coverage::feature_space::DocumentFeatureSpace;
use liteparse_coverage::coverage::DocumentSignature;
use liteparse_coverage::DocumentFeature;
use liteparse_coverage::complex::{compute_simple_betti, faces_of_size};

#[test]
fn test_empty_space() {
    let space = DocumentFeatureSpace::new();
    assert_eq!(space.feature_labels().len(), 0);
}

#[test]
fn test_single_document() {
    let mut space = DocumentFeatureSpace::new();
    space.add_document("simple", &["text"]);
    assert_eq!(space.simplex_count(), 1);
    assert_eq!(space.dimensions(), 1);
}

#[test]
fn test_betti_simple_line() {
    let mut space = DocumentFeatureSpace::new();
    space.add_document("a", &["text"]);
    space.add_document("b", &["text", "tables"]);
    space.add_document("c", &["text", "tables", "images"]);
    let betti = space.betti_numbers();
    assert_eq!(betti[0], 1, "Chain should have 1 component");
}

#[test]
fn test_betti_isolated_islands() {
    let mut space = DocumentFeatureSpace::new();
    space.add_document("a", &["text", "tables"]);
    space.add_document("b", &["images", "formulas"]);
    let betti = space.betti_numbers();
    assert_eq!(betti[0], 2, "Two disconnected islands should have 2 components");
}

#[test]
fn empty_space_has_betti_zero() {
    let space = DocumentFeatureSpace::default();
    assert_eq!(space.betti_numbers(), vec![0]);
    assert_eq!(space.dimensions(), 0);
    assert_eq!(space.simplex_count(), 0);
    assert!(space.persistent_homology().is_empty());
}

#[test]
fn filled_triangle_has_no_hole() {
    let mut space = DocumentFeatureSpace::new();
    space.add_document("all", &["text", "tables", "images"]);
    assert_eq!(space.betti_numbers(), vec![1, 0, 0, 0]);
}

#[test]
fn hollow_triangle_has_one_hole() {
    let mut space = DocumentFeatureSpace::new();
    space.add_document("a", &["text", "tables"]);
    space.add_document("b", &["tables", "images"]);
    space.add_document("c", &["images", "text"]);
    assert_eq!(space.betti_numbers(), vec![1, 1, 0, 0]);
}

#[test]
fn hollow_tetrahedron_has_a_two_dimensional_hole() {
    let mut space = DocumentFeatureSpace::new();
    space.add_document("a", &["text", "tables", "images"]);
    space.add_document("b", &["text", "tables", "formulas"]);
    space.add_document("c", &["text", "images", "formulas"]);
    space.add_document("d", &["tables", "images", "formulas"]);
    assert_eq!(space.betti_numbers(), vec![1, 0, 1, 0, 0]);
}

#[test]
fn betti_numbers_stop_at_dimension_seven() {
    let mut space = DocumentFeatureSpace::new();
    space.add_document(
        "everything",
        &["text", "lists", "nested_lists", "tables", "images", "formulas", "code_blocks", "headers", "footnotes"],
    );
    let betti = space.betti_numbers();
    assert_eq!(betti.len(), 8);
    assert_eq!(betti, vec![1, 0, 0, 0, 0, 0, 0, 0]);
}

#[test]
fn subsumed_document_changes_nothing() {
    let mut a = DocumentFeatureSpace::new();
    a.add_document("a", &["text", "tables"]);
    a.add_document("b", &["tables", "images"]);
    let mut b = a.clone();
    b.add_document("c", &["tables"]);
    assert_eq!(a.betti_numbers(), b.betti_numbers());
}

#[test]
fn unknown_labels_are_ignored() {
    let mut space = DocumentFeatureSpace::new();
    space.add_document("doc", &["text", "holograms", "tables"]);
    assert_eq!(space.dimensions(), 2);
    assert_eq!(space.feature_labels(), vec!["tables".to_string(), "text".to_string()]);
}

#[test]
fn same_name_replaces_document() {
    let mut space = DocumentFeatureSpace::new();
    space.add_document("doc", &["text"]);
    space.add_document("doc", &["images"]);
    assert_eq!(space.simplex_count(), 1);
    assert_eq!(space.simplices(), vec![vec![DocumentFeature::Images]]);
    // observed features only grow
    assert_eq!(space.dimensions(), 2);
    assert_eq!(space.active_features(), vec![DocumentFeature::Text, DocumentFeature::Images]);
}

#[test]
fn feature_labels_are_sorted() {
    let mut space = DocumentFeatureSpace::new();
    space.add_document("x", &["text", "code_blocks", "bidirectional_text", "lists", "nested_lists"]);
    assert_eq!(
        space.feature_labels(),
        vec![
            "bidirectional_text".to_string(),
            "code_blocks".to_string(),
            "lists".to_string(),
            "nested_lists".to_string(),
            "text".to_string(),
        ]
    );
}

#[test]
fn add_signature_matches_add_document() {
    let mut a = DocumentFeatureSpace::new();
    a.add_document("d", &["footnotes", "headers"]);
    let mut b = DocumentFeatureSpace::new();
    b.add_signature("d", &DocumentSignature::from_labels(&["headers", "footnotes"]));
    assert_eq!(a.simplices(), b.simplices());
    assert_eq!(a.feature_labels(), b.feature_labels());
    assert_eq!(b.simplex_names(), vec!["d"]);
}

#[test]
fn simplex_names_in_insertion_order() {
    let mut space = DocumentFeatureSpace::new();
    space.add_document("first", &["text"]);
    space.add_document("second", &["tables"]);
    space.add_document("first", &["lists"]);
    assert_eq!(space.simplex_names(), vec!["first", "second"]);
}

#[test]
fn persistence_records_components_rarest_first() {
    let mut space = DocumentFeatureSpace::new();
    space.add_document("a", &["text"]);
    space.add_document("b", &["tables"]);
    space.add_document("c", &["text", "images"]);
    // frequencies: tables 1, images 1, text 2; ties in canonical order
    let p = space.persistent_homology();
    assert_eq!(
        p,
        vec![
            (0, Some(DocumentFeature::Tables), None),
            (0, Some(DocumentFeature::Images), None),
            (0, Some(DocumentFeature::Text), None),
        ]
    );
}

#[test]
fn persistence_records_holes() {
    let mut space = DocumentFeatureSpace::new();
    space.add_document("a", &["text", "tables"]);
    space.add_document("b", &["tables", "images"]);
    space.add_document("c", &["images", "text"]);
    let p = space.persistent_homology();
    assert_eq!(
        p,
        vec![
            (0, Some(DocumentFeature::Tables), None),
            (0, Some(DocumentFeature::Images), None),
            (1, Some(DocumentFeature::Images), None),
        ]
    );
}

#[test]
fn feature_labels_round_trip() {
    for f in DocumentFeature::all() {
        assert_eq!(DocumentFeature::from_label(f.label()), Some(f));
    }
    assert_eq!(DocumentFeature::from_label("Text"), None);
    assert_eq!(DocumentFeature::all().len(), 11);
}

#[test]
fn euler_characteristic_of_a_hollow_tetrahedron() {
    let masks = vec![0b0111, 0b1011, 0b1101, 0b1110];
    let betti = compute_simple_betti(&masks, 0b1111);
    // vertices 4, edges 6, triangles 4, tetrahedra 0
    let faces: Vec<i64> = (2..=5).map(|k| faces_of_size(&masks, k).len() as i64).collect();
    let by_faces = 4 - faces[0] + faces[1] - faces[2] + faces[3];
    let by_betti: i64 = betti
        .iter()
        .enumerate()
        .map(|(k, &b)| if k % 2 == 0 { b as i64 } else { -(b as i64) })
        .sum();
    assert_eq!(betti, vec![1, 0, 1, 0, 0]);
    assert_eq!(by_faces, 2);
    assert_eq!(by_betti, by_faces);
}

#[test]
fn betti_ignores_names_and_document_order() {
    let mut a = DocumentFeatureSpace::new();
    a.add_document("a", &["text", "tables"]);
    a.add_document("b", &["tables", "images"]);
    a.add_document("c", &["images", "text"]);
    let mut b = DocumentFeatureSpace::new();
    b.add_document("z", &["text", "images"]);
    b.add_document("y", &["images", "tables"]);
    b.add_document("x", &["tables", "text"]);
    b.add_document("w", &["text", "tables"]);
    assert_eq!(a.betti_numbers(), vec![1, 1, 0, 0]);
    assert_eq!(a.betti_numbers(), b.betti_numbers());
}

#[test]
fn betti_zero_between_one_and_dimensions() {
    let mut space = DocumentFeatureSpace::new();
    space.add_document("a", &["text"]);
    space.add_document("b", &["tables"]);
    space.add_document("c", &["images", "formulas"]);
    let betti = space.betti_numbers();
    assert_eq!(betti[0], 3);
    assert!(betti[0] >= 1 && betti[0] <= space.dimensions());
}

#[test]
fn persistence_births_are_observed_and_rarest_first() {
    let mut space = DocumentFeatureSpace::new();
    let all = [
        "text", "lists", "nested_lists", "tables", "images", "formulas", "code_blocks", "headers",
    ];
    for (i, f) in all.iter().enumerate() {
        let name = format!("doc{}", i);
        space.add_document(&name, &[*f]);
    }
    space.add_document("extra", &["text", "lists"]);
    let p = space.persistent_homology();
    let observed = space.active_features();
    let freq = |f: DocumentFeature| {
        space.simplices().iter().filter(|t| t.contains(&f)).count()
    };
    let mut births: Vec<DocumentFeature> = Vec::new();
    for (d, b, e) in &p {
        assert!(*d <= 6);
        assert!(e.is_none());
        let f = b.expect("every entry has a birth");
        assert!(observed.contains(&f));
        if !births.contains(&f) {
            births.push(f);
        }
    }
    assert!(births.len() <= 6);
    for i in 1..p.len() {
        assert!(freq(p[i - 1].1.unwrap()) <= freq(p[i].1.unwrap()));
    }
}

#[test]
fn simple_betti_agrees_with_betti_numbers() {
    let mut space = DocumentFeatureSpace::new();
    space.add_document("a", &["text", "tables"]);
    space.add_document("b", &["tables", "images"]);
    space.add_document("c", &["images", "text"]);
    space.add_document("d", &["holograms"]);
    space.add_document("e", &["formulas", "text"]);
    let mut masks: Vec<u64> = space.masks_vec().into_iter().filter(|m| *m != 0).collect();
    masks.reverse();
    assert_eq!(compute_simple_betti(&masks, space.active_mask_exec()), space.betti_numbers());
    assert_eq!(space.betti_numbers(), vec![1, 1, 0, 0, 0]);
}

#[test]
fn betti_numbers_within_binomial_counts() {
    // the boundary of a tetrahedron on four features
    let mut space = DocumentFeatureSpace::new();
    space.add_document("a", &["text", "tables", "images"]);
    space.add_document("b", &["text", "tables", "formulas"]);
    space.add_document("c", &["text", "images", "formulas"]);
    space.add_document("d", &["tables", "images", "formulas"]);
    let betti = space.betti_numbers();
    assert_eq!(betti, vec![1, 0, 1, 0, 0]);
    let n = space.dimensions();
    let binomial = |n: usize, k: usize| -> usize {
        let mut c = 1usize;
        for i in 0..k {
            c = c * (n - i) / (i + 1);
        }
        c
    };
    for k in 0..betti.len() {
        assert!(betti[k] <= binomial(n, k + 1));
    }
}

#[test]
fn signature_and_its_labels_store_the_same_features() {
    let sig = DocumentSignature::from_labels(&["footnotes", "text", "images"]);
    let mut a = DocumentFeatureSpace::new();
    a.add_document("x", &["tables"]);
    let mut b = a.clone();
    a.add_signature("d", &sig);
    b.add_document("d", &sig.to_labels());
    assert_eq!(a.simplices(), b.simplices());
    assert_eq!(a.simplex_names(), b.simplex_names());
    assert_eq!(a.active_features(), b.active_features());
}
