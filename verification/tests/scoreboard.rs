use pdfspatial::corpus::CaseOutcome;
use pdfspatial::scoreboard::{
    derived_status, render_blocker_table, render_checklist, render_coverage_tables, render_text,
    score_corpus, splice_block, status_marker, validate_registry, BlockedInfo, CaseTag,
    PitfallScore, Registry, RegistryEntry, Scoreboard, ScoreboardError,
};
use pdfspatial::taxonomy::{all_pitfalls, Pitfall, RootCause};

#[test]
fn splice_block_replaces_only_the_marked_region() {
    let doc = "a\n<!-- BEGIN GENERATED: x -->\nold\n<!-- END GENERATED: x -->\nb\n";
    let out = splice_block(doc, "x", "new").unwrap();
    assert_eq!(
        out,
        "a\n<!-- BEGIN GENERATED: x -->\nnew\n<!-- END GENERATED: x -->\nb\n"
    );
}

#[test]
fn splice_block_is_idempotent() {
    let doc = "a\n<!-- BEGIN GENERATED: x -->\nold\n<!-- END GENERATED: x -->\nb\n";
    let once = splice_block(doc, "x", "new").unwrap();
    let twice = splice_block(&once, "x", "new").unwrap();
    assert_eq!(once, twice);
}

#[test]
fn splice_block_errors_on_missing_marker() {
    let doc = "no markers here\n";
    assert!(matches!(
        splice_block(doc, "x", "new"),
        Err(ScoreboardError::MissingMarker { which: "BEGIN", .. })
    ));
}

#[test]
fn splice_block_errors_when_end_precedes_begin() {
    let doc = "<!-- END GENERATED: x -->\n<!-- BEGIN GENERATED: x -->\n";
    assert!(matches!(
        splice_block(doc, "x", "new"),
        Err(ScoreboardError::MarkerOrder(_))
    ));
}

fn clone_score(score: &PitfallScore) -> PitfallScore {
    PitfallScore {
        pitfall: score.pitfall,
        root_cause: score.root_cause,
        cases: score.cases.clone(),
        passing: score.passing,
        total: score.total,
    }
}

#[test]
fn derived_status_matches_pass_ratio_without_override() {
    let full = PitfallScore {
        pitfall: Pitfall::MultiColumn,
        root_cause: RootCause::ReadingOrder,
        cases: vec![],
        passing: 2,
        total: 2,
    };
    let partial = PitfallScore {
        passing: 1,
        ..clone_score(&full)
    };
    let open = PitfallScore {
        passing: 0,
        ..clone_score(&full)
    };
    assert_eq!(derived_status(&full, None), "fixed");
    assert_eq!(derived_status(&partial, None), "partial");
    assert_eq!(derived_status(&open, None), "open");
}

// --- further scenarios -----------------------------------------------------------------

fn entry(title: &str) -> RegistryEntry {
    RegistryEntry {
        title: title.to_string(),
        summary: format!("{title} summary"),
        note: None,
        status_override: None,
        blocked: None,
        pdf_backed_reason: None,
    }
}

fn outcome(id: &str, passed: bool) -> CaseOutcome {
    CaseOutcome {
        case_id: id.to_string(),
        passed,
        mismatches: if passed { vec![] } else { vec![format!("{id} mismatch")] },
        reading_order_edit_distance: None,
        naive_reading_order_edit_distance: None,
    }
}

fn tag(pitfall: Pitfall, draft: bool, pdf_backed: bool) -> CaseTag {
    CaseTag { pitfall, root_cause: RootCause::Classification, draft, pdf_backed }
}

#[test]
fn splice_block_reports_missing_end_marker_and_keeps_outside_text() {
    let doc = "pre <!-- BEGIN GENERATED: y --> body";
    match splice_block(doc, "y", "z") {
        Err(ScoreboardError::MissingMarker { name, which }) => {
            assert_eq!(name, "y");
            assert_eq!(which, "END");
        }
        other => panic!("unexpected {other:?}"),
    }
    let doc = "x<!-- BEGIN GENERATED: y -->OLD<!-- END GENERATED: y -->tail";
    assert_eq!(
        splice_block(doc, "y", "  fresh body \n\n").unwrap(),
        "x<!-- BEGIN GENERATED: y -->\n  fresh body\n<!-- END GENERATED: y -->tail"
    );
}

#[test]
fn splice_is_not_idempotent_when_the_body_spells_out_the_end_marker() {
    let doc = "<!-- BEGIN GENERATED: x -->old<!-- END GENERATED: x -->";
    let body = "a <!-- END GENERATED: x --> b";
    let once = splice_block(doc, "x", body).unwrap();
    let twice = splice_block(&once, "x", body).unwrap();
    assert_ne!(once, twice);
}

#[test]
fn derived_status_override_and_markers() {
    let score = PitfallScore {
        pitfall: Pitfall::Footnote,
        root_cause: RootCause::Classification,
        cases: vec![],
        passing: 2,
        total: 2,
    };
    let mut e = entry("Footnotes");
    e.status_override = Some("partial".to_string());
    assert_eq!(derived_status(&score, Some(&e)), "partial");
    e.status_override = Some("whatever".to_string());
    assert_eq!(derived_status(&score, Some(&e)), "open");
    let none = PitfallScore { passing: 0, total: 0, ..clone_score(&score) };
    assert_eq!(derived_status(&none, None), "open");
    assert_eq!(status_marker("fixed"), "[x]");
    assert_eq!(status_marker("partial"), "[~]");
    assert_eq!(status_marker("open"), "[ ]");
}

#[test]
fn score_corpus_groups_by_pitfall_and_skips_drafts() {
    let cases = vec![
        tag(Pitfall::Footnote, false, false),
        tag(Pitfall::MultiColumn, false, false),
        tag(Pitfall::Footnote, true, false),
        tag(Pitfall::Footnote, false, true),
    ];
    let outcomes = vec![
        outcome("f1", true),
        outcome("m1", false),
        outcome("draft", true),
        outcome("f2", false),
    ];
    let board = score_corpus(&cases, outcomes);
    assert_eq!(board.pitfalls.len(), 15);
    assert_eq!(board.total, 3);
    assert_eq!(board.passing, 1);
    let pitfalls: Vec<Pitfall> = board.pitfalls.iter().map(|p| p.pitfall).collect();
    assert_eq!(pitfalls, all_pitfalls());
    let footnote = &board.pitfalls[1];
    assert_eq!(footnote.total, 2);
    assert_eq!(footnote.passing, 1);
    assert_eq!(footnote.root_cause, RootCause::Classification);
    let ids: Vec<&str> = footnote.cases.iter().map(|c| c.case_id.as_str()).collect();
    assert_eq!(ids, vec!["f1", "f2"]);
    let empty = &board.pitfalls[14];
    assert_eq!((empty.total, empty.passing), (0, 0));
    assert_eq!(empty.root_cause, RootCause::Geometric);
}

#[test]
fn render_text_lists_failing_cases_and_summary() {
    let mut failing = outcome("case-a", false);
    failing.reading_order_edit_distance = Some(3);
    let board = Scoreboard {
        pitfalls: vec![PitfallScore {
            pitfall: Pitfall::MultiColumn,
            root_cause: RootCause::ReadingOrder,
            cases: vec![failing, outcome("case-b", true)],
            passing: 1,
            total: 2,
        }],
        passing: 1,
        total: 2,
    };
    assert_eq!(
        render_text(&board),
        "Stage 3 regression corpus scoreboard -- failing cases:\n  - case-a:\n      case-a mismatch\n      reading-order edit distance: 3 (naive input order: ?)\n\n1 / 2 cases failing.\n"
    );
}

#[test]
fn render_checklist_and_blocker_table_follow_the_registry() {
    let board = Scoreboard {
        pitfalls: vec![
            PitfallScore { pitfall: Pitfall::MultiColumn, root_cause: RootCause::ReadingOrder, cases: vec![], passing: 1, total: 1 },
            PitfallScore { pitfall: Pitfall::Footnote, root_cause: RootCause::Classification, cases: vec![], passing: 0, total: 2 },
            PitfallScore { pitfall: Pitfall::NestedFormula, root_cause: RootCause::Geometric, cases: vec![], passing: 0, total: 0 },
        ],
        passing: 1,
        total: 3,
    };
    let blocked = BlockedInfo { reason: "no model".to_string(), unblocked_by: "train it".to_string(), loop_refuses: true };
    let mut footnote = entry("Footnotes");
    footnote.note = Some("serializer arm missing".to_string());
    footnote.blocked = Some(blocked.clone());
    let mut formula = entry("Formulas");
    formula.blocked = Some(blocked);
    let registry = Registry {
        entries: vec![
            ("footnote".to_string(), footnote),
            ("multi_column".to_string(), entry("Columns")),
            ("nested_formula".to_string(), formula),
        ],
    };
    let checklist = render_checklist(&board, &registry);
    assert!(checklist.contains("(currently 1/3 cases passing)"));
    assert!(checklist.contains("- [x] **Columns** — Columns summary *(1 case, `ordering`; 1/1 passing)*\n"));
    assert!(checklist.contains("- [ ] **Footnotes** — Footnotes summary *(2 cases, `classification`; 0/2 passing — serializer arm missing)*\n"));
    assert_eq!(
        render_blocker_table(&board, &registry),
        "| Blocker | Pitfalls | Next step |\n|---|---|---|\n| no model | Footnotes, Formulas | train it |\n"
    );
}

#[test]
fn coverage_tables_split_synthetic_and_pdf_backed_pitfalls() {
    let board = Scoreboard {
        pitfalls: all_pitfalls()
            .into_iter()
            .map(|p| PitfallScore { pitfall: p, root_cause: RootCause::Geometric, cases: vec![], passing: 0, total: 0 })
            .collect(),
        passing: 0,
        total: 0,
    };
    let mut rotated = entry("Rotated text");
    rotated.pdf_backed_reason = Some("needs real glyph rotation".to_string());
    let registry = Registry { entries: vec![("rotated_text".to_string(), rotated), ("footnote".to_string(), entry("Footnotes"))] };
    let cases = vec![
        tag(Pitfall::RotatedText, false, true),
        tag(Pitfall::Footnote, false, false),
        tag(Pitfall::EmbeddedFont, true, true),
    ];
    let text = render_coverage_tables(&board, &registry, &cases);
    assert!(text.starts_with("All 15 `assemble::Pitfall` variants are seeded, 2 cases total:\n\n"));
    assert!(text.contains("| `footnote` (Footnotes) | `geometric` |\n"));
    assert!(text.contains("| `embedded_font` (embedded_font) | `geometric` |\n"));
    assert!(text.ends_with("|---|---|---|\n| `rotated_text` | `geometric` | needs real glyph rotation |\n"));
    assert!(!text.contains("| `rotated_text` ("));
}

#[test]
fn validate_registry_reports_the_first_unknown_slug() {
    let ok = Registry { entries: vec![("footnote".to_string(), entry("F"))] };
    assert!(validate_registry(&ok).is_ok());
    let bad = Registry {
        entries: vec![
            ("footnote".to_string(), entry("F")),
            ("not_a_pitfall".to_string(), entry("X")),
            ("also_bad".to_string(), entry("Y")),
        ],
    };
    match validate_registry(&bad) {
        Err(ScoreboardError::UnknownPitfall(slug)) => assert_eq!(slug, "not_a_pitfall"),
        other => panic!("unexpected {other:?}"),
    }
}

#[test]
fn registry_get_finds_entries_by_slug() {
    let registry = Registry { entries: vec![("footnote".to_string(), entry("F")), ("multi_column".to_string(), entry("M"))] };
    assert_eq!(registry.get("multi_column").map(|e| e.title.as_str()), Some("M"));
    assert!(registry.get("rotated_text").is_none());
}

#[test]
fn registry_insert_keeps_keys_sorted_and_replaces_repeats() {
    let mut registry = Registry::new();
    registry.insert("multi_column".to_string(), entry("M"));
    registry.insert("footnote".to_string(), entry("F"));
    registry.insert("rotated_text".to_string(), entry("R"));
    registry.insert("footnote".to_string(), entry("F2"));
    let keys: Vec<&str> = registry.entries.iter().map(|(k, _)| k.as_str()).collect();
    assert_eq!(keys, vec!["footnote", "multi_column", "rotated_text"]);
    assert_eq!(registry.get("footnote").map(|e| e.title.as_str()), Some("F2"));
    assert!(registry.get("header_footer").is_none());
}
