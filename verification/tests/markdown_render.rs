use pdfspatial::markdown::{
    footnote_marker, join_rendered_pages, render_classified_block, render_gfm_table,
    strip_list_marker, MarkdownOptions,
};
use pdfspatial::taxonomy::RegionClass;

#[test]
fn list_item_renders_as_markdown_bullet() {
    assert_eq!(
        render_classified_block(Some(RegionClass::ListItem), "- first point"),
        Some("- first point".to_string())
    );
}

#[test]
fn page_header_is_omitted_from_structured_output() {
    let pages = vec![
        [
            render_classified_block(Some(RegionClass::PageHeader), "Running Header"),
            render_classified_block(Some(RegionClass::Text), "Body text"),
        ]
        .into_iter()
        .flatten()
        .collect::<Vec<String>>()
        .join("\n\n"),
    ];
    assert_eq!(join_rendered_pages(&pages, MarkdownOptions::default()), "Body text");
}

#[test]
fn footnote_renders_with_marker_reference() {
    assert_eq!(
        render_classified_block(Some(RegionClass::Footnote), "1 See appendix A."),
        Some("[^1]: 1 See appendix A.".to_string())
    );
}

#[test]
fn empty_page_with_breaks_disabled_does_not_leave_a_blank_line_run() {
    let pages = vec!["Alpha".to_string(), String::new(), "Gamma".to_string()];
    let options = MarkdownOptions { page_breaks: false, ..Default::default() };
    let markdown = join_rendered_pages(&pages, options);
    assert_eq!(markdown, "Alpha\n\nGamma");
    assert!(!markdown.contains("\n\n\n"));
}

#[test]
fn empty_page_with_breaks_enabled_still_gets_its_own_separator() {
    let pages = vec!["Alpha".to_string(), String::new(), "Gamma".to_string()];
    let markdown = join_rendered_pages(&pages, MarkdownOptions::default());
    assert_eq!(markdown, "Alpha\n\n---\n\n\n\n---\n\nGamma");
}

#[test]
fn default_options_are_faithful() {
    assert_eq!(
        MarkdownOptions::default(),
        MarkdownOptions { page_breaks: true, image_placeholders: true }
    );
    let compact = MarkdownOptions { page_breaks: false, ..Default::default() };
    assert!(!compact.page_breaks);
    assert!(compact.image_placeholders);
}

#[test]
fn each_class_gets_its_markdown_shape() {
    assert_eq!(render_classified_block(Some(RegionClass::Title), "Intro"), Some("# Intro".to_string()));
    assert_eq!(render_classified_block(Some(RegionClass::SectionHeader), "Methods"), Some("## Methods".to_string()));
    assert_eq!(render_classified_block(Some(RegionClass::Caption), "Figure 1"), Some("*Figure 1*".to_string()));
    assert_eq!(render_classified_block(Some(RegionClass::PageFooter), "p. 3"), None);
    assert_eq!(render_classified_block(Some(RegionClass::Text), "plain"), Some("plain".to_string()));
    assert_eq!(render_classified_block(Some(RegionClass::Formula), "x = y"), Some("x = y".to_string()));
    assert_eq!(render_classified_block(None, "unmatched"), Some("unmatched".to_string()));
    assert_eq!(
        render_classified_block(Some(RegionClass::ListItem), "- one\r\n* two\n\u{2022} three\nfour\n"),
        Some("- one\n- two\n- three\n- four".to_string())
    );
    assert_eq!(
        render_classified_block(Some(RegionClass::Footnote), "Footnote without a short marker"),
        Some("[^Footnote without a short marker]: Footnote without a short marker".to_string())
    );
}

#[test]
fn footnote_marker_is_a_short_first_token() {
    assert_eq!(footnote_marker("  12 text"), Some("12"));
    assert_eq!(footnote_marker("† note"), Some("†"));
    assert_eq!(footnote_marker("††x note"), None);
    assert_eq!(footnote_marker("1234 text"), None);
    assert_eq!(footnote_marker("   "), None);
}

#[test]
fn list_markers_are_stripped_once() {
    assert_eq!(strip_list_marker("  - item"), "item");
    assert_eq!(strip_list_marker("* - item"), "- item");
    assert_eq!(strip_list_marker("• item"), "item");
    assert_eq!(strip_list_marker("-item"), "-item");
    assert_eq!(strip_list_marker("  plain"), "plain");
}

#[test]
fn gfm_table_escapes_cells_and_uses_the_first_row_as_header() {
    let rows = vec![
        vec!["Name".to_string(), "Value".to_string()],
        vec!["a|b".to_string(), "line1\nline2".to_string()],
        vec!["x".to_string(), "".to_string()],
    ];
    assert_eq!(
        render_gfm_table(&rows),
        "| Name | Value |\n| --- | --- |\n| a\\|b | line1<br>line2 |\n| x |  |"
    );
    assert_eq!(render_gfm_table(&[]), "");
    assert_eq!(render_gfm_table(&[vec!["only".to_string()]]), "| only |\n| --- |");
}
