use std::path::PathBuf;
use pdfspatial::corpus::{
    check_unique_block_texts, class_from_slug, evaluate_expectations, is_default_expected,
    pitfall_from_slug, root_cause_from_slug, CorpusError, ExpectedBehavior, ExpectedClass,
};
use pdfspatial::taxonomy::{class_slug, pitfall_slug, root_cause_slug, Pitfall, RegionClass, RootCause};

fn strings(v: &[&str]) -> Vec<String> {
    v.iter().map(|s| s.to_string()).collect()
}

#[test]
fn slugs_round_trip_and_unknown_slugs_are_errors() {
    assert_eq!(pitfall_from_slug(pitfall_slug(Pitfall::CrossPageContinuation)).unwrap(), Pitfall::CrossPageContinuation);
    assert_eq!(root_cause_from_slug(root_cause_slug(RootCause::ReadingOrder)).unwrap(), RootCause::ReadingOrder);
    assert_eq!(class_from_slug(class_slug(RegionClass::SectionHeader)).unwrap(), RegionClass::SectionHeader);
    assert_eq!(pitfall_slug(Pitfall::MultiColumn), "multi_column");
    assert!(matches!(pitfall_from_slug("multi-column"), Err(CorpusError::UnknownPitfall(s)) if s == "multi-column"));
    assert!(matches!(root_cause_from_slug("Geometric"), Err(CorpusError::UnknownRootCause(s)) if s == "Geometric"));
    assert!(matches!(class_from_slug("heading"), Err(CorpusError::UnknownClass(s)) if s == "heading"));
}

#[test]
fn default_expected_checks_nothing() {
    assert!(is_default_expected(&ExpectedBehavior::default()));
    let with_order = ExpectedBehavior { reading_order: Some(vec![]), ..Default::default() };
    assert!(!is_default_expected(&with_order));
    let with_flag = ExpectedBehavior { requires_extraction_fix: true, ..Default::default() };
    assert!(!is_default_expected(&with_flag));
}

#[test]
fn duplicate_block_text_is_rejected() {
    assert!(check_unique_block_texts(&strings(&["a", "b", "c"])).is_ok());
    match check_unique_block_texts(&strings(&["a", "b", "c", "b", "a"])) {
        Err(CorpusError::DuplicateBlockText(t)) => assert_eq!(t, "b"),
        other => panic!("unexpected {other:?}"),
    }
}

#[test]
fn evaluate_expectations_reports_mismatches_and_edit_distances() {
    let expected = ExpectedBehavior {
        reading_order: Some(strings(&["Left", "Right"])),
        classes: vec![
            ExpectedClass { block_text: "Left".to_string(), class: RegionClass::Title },
            ExpectedClass { block_text: "Missing".to_string(), class: RegionClass::Text },
            ExpectedClass { block_text: "Right".to_string(), class: RegionClass::Text },
        ],
        requires_extraction_fix: false,
    };
    let classified = vec![
        ("Right".to_string(), RegionClass::Text),
        ("Left".to_string(), RegionClass::Text),
    ];
    let outcome = evaluate_expectations(
        "case-1",
        &expected,
        &strings(&["Right", "Left"]),
        &strings(&["Right", "Left"]),
        &classified,
    );
    assert_eq!(outcome.case_id, "case-1");
    assert!(!outcome.passed);
    assert_eq!(
        outcome.mismatches,
        strings(&[
            "reading order mismatch: expected [\"Left\", \"Right\"], got [\"Right\", \"Left\"]",
            "class mismatch for block \"Left\": expected Title, got Text",
            "no block with text \"Missing\" found in document",
        ])
    );
    assert_eq!(outcome.reading_order_edit_distance, Some(2));
    assert_eq!(outcome.naive_reading_order_edit_distance, Some(2));
}

#[test]
fn evaluate_expectations_passes_when_everything_holds() {
    let expected = ExpectedBehavior {
        reading_order: Some(strings(&["A", "B"])),
        classes: vec![],
        requires_extraction_fix: false,
    };
    let outcome = evaluate_expectations("ok", &expected, &strings(&["A", "B"]), &strings(&["B", "A"]), &[]);
    assert!(outcome.passed);
    assert!(outcome.mismatches.is_empty());
    assert_eq!(outcome.reading_order_edit_distance, Some(0));
    assert_eq!(outcome.naive_reading_order_edit_distance, Some(2));
    let unordered = evaluate_expectations("none", &ExpectedBehavior::default(), &[], &[], &[]);
    assert!(unordered.passed);
    assert_eq!(unordered.reading_order_edit_distance, None);
}

#[test]
fn a_case_gives_exactly_one_of_page_or_pages() {
    let path = PathBuf::from("cases/x.json");
    assert_eq!(pdfspatial::corpus::case_pages(path.clone(), Some(1), None).unwrap(), vec![1]);
    assert_eq!(pdfspatial::corpus::case_pages(path.clone(), None::<i32>, Some(vec![1, 2])).unwrap(), vec![1, 2]);
    for (page, pages) in [(None, None), (Some(1), Some(vec![2]))] {
        match pdfspatial::corpus::case_pages(path.clone(), page, pages) {
            Err(pdfspatial::corpus::CorpusError::PageSpec { path: p }) => assert_eq!(p, path),
            other => panic!("expected a page-spec error, got {other:?}"),
        }
    }
}
