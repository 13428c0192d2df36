use pdfspatial::assemble::{
    continues_sentence, ends_with_sentence_final_punct, join_with_dehyphenation,
    starts_with_lowercase_letter,
};
use pdfspatial::layout::{
    bold_char_counts, is_bold_font_name, mostly_bold, is_caption, is_list_item, normalize_running_text,
    starts_with_footnote_marker, strip_prefix_ignore_case,
};
use pdfspatial::text::{join_strings, trim_chars};

#[test]
fn sentence_final_punctuation_is_detected_after_trailing_whitespace() {
    assert!(ends_with_sentence_final_punct("The end.  \n"));
    assert!(ends_with_sentence_final_punct("he said “yes”"));
    assert!(ends_with_sentence_final_punct("(see above)"));
    assert!(!ends_with_sentence_final_punct("continues on the"));
    assert!(!ends_with_sentence_final_punct("   "));
    assert!(!ends_with_sentence_final_punct(""));
}

#[test]
fn lowercase_start_is_detected_after_leading_whitespace() {
    assert!(starts_with_lowercase_letter("  next part"));
    assert!(starts_with_lowercase_letter("élan"));
    assert!(!starts_with_lowercase_letter("Heading"));
    assert!(!starts_with_lowercase_letter("1. item"));
    assert!(!starts_with_lowercase_letter(""));
}

#[test]
fn continuation_needs_an_open_sentence_and_a_lowercase_start() {
    assert!(continues_sentence("the paragraph goes", "on here"));
    assert!(!continues_sentence("the paragraph ends.", "on here"));
    assert!(!continues_sentence("the paragraph goes", "On here"));
}

#[test]
fn hyphenated_line_break_is_joined_without_the_hyphen() {
    assert_eq!(join_with_dehyphenation("a long exam-", "ple of text"), "a long example of text");
    assert_eq!(join_with_dehyphenation("co\u{2010}", "operate"), "cooperate");
    assert_eq!(join_with_dehyphenation("word ", "  next"), "word next");
    assert_eq!(join_with_dehyphenation("page 2-", "3"), "page 2- 3");
    assert_eq!(join_with_dehyphenation("-", "x"), "- x");
}

#[test]
fn bold_font_names_match_weight_keywords_case_insensitively() {
    assert!(is_bold_font_name("Helvetica-Bold"));
    assert!(is_bold_font_name("ABCDEF+TimesNewRomanPS-BoldMT"));
    assert!(is_bold_font_name("Arial-BLACK"));
    assert!(is_bold_font_name("SourceSans-Heavy"));
    assert!(!is_bold_font_name("Helvetica"));
    assert!(!is_bold_font_name("Helvetica-Oblique"));
    assert_eq!(bold_char_counts(&["Helvetica-Bold", "Helvetica", "X-Black"]), (2, 3));
    assert_eq!(bold_char_counts(&[]), (0, 0));
}

#[test]
fn running_text_is_lowercased_collapsed_and_digit_masked() {
    assert_eq!(normalize_running_text("Page 12"), "page #");
    assert_eq!(normalize_running_text("  Chapter\t3 \n Intro  "), "chapter # intro");
    assert_eq!(normalize_running_text("Page 13"), normalize_running_text("page 7"));
    assert_eq!(normalize_running_text("v1.2"), "v#.#");
    // a digit run continues across the word boundary
    assert_eq!(normalize_running_text("12 34"), "# ");
    assert_eq!(normalize_running_text("   "), "");
}

#[test]
fn list_items_open_with_a_bullet_or_ordered_marker_and_whitespace() {
    assert!(is_list_item("- first point"));
    assert!(is_list_item("  • bullet"));
    assert!(is_list_item("* star"));
    assert!(is_list_item("12. twelfth"));
    assert!(is_list_item("3) third"));
    assert!(!is_list_item("-dash"));
    assert!(!is_list_item("12.5 percent"));
    assert!(!is_list_item("Intro"));
    assert!(!is_list_item("1."));
}

#[test]
fn captions_open_with_figure_or_table_and_a_number() {
    assert!(is_caption("Figure 3: results"));
    assert!(is_caption("  TABLE 2 summary"));
    assert!(is_caption("Fig. 7"));
    assert!(is_caption("figure12"));
    assert!(!is_caption("Figures show"));
    assert!(!is_caption("Table of contents"));
    assert!(!is_caption("Fig"));
}

#[test]
fn strip_prefix_ignore_case_splits_after_the_prefix_bytes() {
    assert_eq!(strip_prefix_ignore_case("FIGURE 1", "Figure"), Some(" 1"));
    assert_eq!(strip_prefix_ignore_case("Fig", "Figure"), None);
    assert_eq!(strip_prefix_ignore_case("éa", "abc"), None);
}

#[test]
fn footnote_markers_are_short_digit_runs_or_symbols() {
    assert!(starts_with_footnote_marker("1 See appendix A."));
    assert!(starts_with_footnote_marker("12. Note"));
    assert!(starts_with_footnote_marker("3) Note"));
    assert!(starts_with_footnote_marker("† Deceased"));
    assert!(starts_with_footnote_marker("*Corresponding author"));
    assert!(!starts_with_footnote_marker("\u{b9} superscript one is outside the range"));
    assert!(starts_with_footnote_marker("\u{2074} fourth"));
    assert!(!starts_with_footnote_marker("* bullet"));
    assert!(!starts_with_footnote_marker("- dash"));
    assert!(!starts_with_footnote_marker("1234 too long"));
    assert!(!starts_with_footnote_marker("1"));
    assert!(!starts_with_footnote_marker("Text"));
}

#[test]
fn joining_and_trimming_strings() {
    let parts = vec!["a".to_string(), "".to_string(), "c".to_string()];
    assert_eq!(join_strings(&parts, ", "), "a, , c");
    assert_eq!(join_strings(&[], ", "), "");
    let v: Vec<char> = " \u{3000}x y\t".chars().collect();
    assert_eq!(trim_chars(&v), vec!['x', ' ', 'y']);
}

#[test]
fn mostly_bold_needs_four_fifths_of_the_characters() {
    let bold = "Helvetica-Bold";
    let regular = "Helvetica";
    assert!(mostly_bold(&[bold, bold, bold, bold, regular]));
    assert!(!mostly_bold(&[bold, bold, bold, regular]));
    assert!(mostly_bold(&[bold]));
    assert!(!mostly_bold(&[]));
}
