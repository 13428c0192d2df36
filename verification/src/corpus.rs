//! Regression-corpus bookkeeping that does not touch page geometry: tag slugs,
//! expectation records, and the checks a loaded case must pass.
use vstd::prelude::*;
use std::path::PathBuf;
use crate::taxonomy::{
    Pitfall, RegionClass, RootCause, spec_class_slug, spec_pitfall_slug, spec_root_cause_slug,
    lemma_pitfall_slug_injective, lemma_root_cause_slug_injective, lemma_class_slug_injective,
};
use crate::text::{
    chars_eq, chars_of, chars_eq_str, debug_str, debug_string_list, push_str, spec_debug_str,
    spec_debug_string_list, string_from_str,
};
use crate::metrics::{edit_distance, reading_order_edit_distance};

verus! {

#[verifier::external_type_specification]
#[verifier::external_body]
pub struct ExPathBuf(PathBuf);

#[verifier::external_type_specification]
#[verifier::external_body]
pub struct ExIoError(std::io::Error);

#[verifier::external_type_specification]
#[verifier::external_body]
pub struct ExJsonError(serde_json::Error);

/// The desired post-fix behavior a regression case checks for.
#[derive(Debug, Clone, Default)]
pub struct ExpectedBehavior {
    /// The desired block-text sequence after reading-order assembly, if this case
    /// exercises reading-order behavior.
    pub reading_order: Option<Vec<String>>,
    /// The desired class for each named block, if this case exercises classification.
    pub classes: Vec<ExpectedClass>,
    /// `true` if this case's expectations name text that the current extractor doesn't
    /// yet produce.
    pub requires_extraction_fix: bool,
}

/// One block's desired classification, identified by its exact block text.
#[derive(Debug, Clone)]
pub struct ExpectedClass {
    /// The text of the block this expectation applies to.
    pub block_text: String,
    /// The class the classifier should assign this block once the pitfall is fixed.
    pub class: RegionClass,
}

/// The result of checking one regression case against the pipeline's actual behavior.
#[derive(Debug, Clone)]
pub struct CaseOutcome {
    /// The id of the case this outcome is for.
    pub case_id: String,
    /// `true` if every expectation in the case held.
    pub passed: bool,
    /// Human-readable descriptions of every mismatch found, empty if `passed`.
    pub mismatches: Vec<String>,
    /// Edit distance between the assembled order and the expected order, if the case
    /// has an expected reading order.
    pub reading_order_edit_distance: Option<usize>,
    /// Edit distance between the case's authored (naive) order and the expected order,
    /// if the case has an expected reading order.
    pub naive_reading_order_edit_distance: Option<usize>,
}

/// Errors returned while loading, checking or writing regression cases.
#[allow(inconsistent_fields)]
#[derive(Debug)]
pub enum CorpusError {
    /// Failed to read a file from disk.
    Io {
        /// The path that failed to read.
        path: PathBuf,
        /// The underlying I/O error.
        source: std::io::Error,
    },
    /// Failed to parse a file as JSON.
    Json {
        /// The path that failed to parse.
        path: PathBuf,
        /// The underlying JSON error.
        source: serde_json::Error,
    },
    /// A case's `pitfall` field didn't match any known [`Pitfall`] slug.
    UnknownPitfall(String),
    /// A case's `root_cause` field didn't match any known [`RootCause`] slug.
    UnknownRootCause(String),
    /// An expected class didn't match any known [`RegionClass`] slug.
    UnknownClass(String),
    /// Two blocks in the same case had identical text.
    DuplicateBlockText(String),
    /// Failed to serialize a draft case to JSON.
    Serialize(serde_json::Error),
    /// A draft case's target path already exists.
    DraftExists {
        /// The path that already existed.
        path: PathBuf,
    },
    /// A case didn't specify exactly one of `page` or `pages`.
    PageSpec {
        /// The file that specified zero or both.
        path: PathBuf,
    },
}

/// The Pitfall whose canonical slug is `s`, if any.
pub open spec fn spec_pitfall_from_slug(s: Seq<char>) -> Option<Pitfall> {
    if exists|x: Pitfall| spec_pitfall_slug(x) == s {
        Some(choose|x: Pitfall| spec_pitfall_slug(x) == s)
    } else {
        None
    }
}

/// Parses a pitfall slug (the inverse of [`crate::taxonomy::pitfall_slug`]).
pub fn pitfall_from_slug(slug: &str) -> (r: Result<Pitfall, CorpusError>)
    ensures
        r matches Ok(x) ==> spec_pitfall_from_slug(slug@) == Some(x) && spec_pitfall_slug(x) == slug@,
        r matches Err(e) ==> (spec_pitfall_from_slug(slug@) is None && (e matches CorpusError::UnknownPitfall(t) && t@ == slug@)),
        r is Ok <==> spec_pitfall_from_slug(slug@) is Some,
{
    let v = chars_of(slug);
    let found = 
        if chars_eq_str(&v, "multi_column") {
        Some(Pitfall::MultiColumn)
        } else if chars_eq_str(&v, "footnote") {
        Some(Pitfall::Footnote)
        } else if chars_eq_str(&v, "header_footer") {
        Some(Pitfall::HeaderFooter)
        } else if chars_eq_str(&v, "multi_line_table_cell") {
        Some(Pitfall::MultiLineTableCell)
        } else if chars_eq_str(&v, "merged_table_cell") {
        Some(Pitfall::MergedTableCell)
        } else if chars_eq_str(&v, "borderless_table") {
        Some(Pitfall::BorderlessTable)
        } else if chars_eq_str(&v, "nested_formula") {
        Some(Pitfall::NestedFormula)
        } else if chars_eq_str(&v, "super_subscript") {
        Some(Pitfall::SuperSubscript)
        } else if chars_eq_str(&v, "rotated_text") {
        Some(Pitfall::RotatedText)
        } else if chars_eq_str(&v, "figure_caption") {
        Some(Pitfall::FigureCaption)
        } else if chars_eq_str(&v, "list_nesting") {
        Some(Pitfall::ListNesting)
        } else if chars_eq_str(&v, "cross_page_continuation") {
        Some(Pitfall::CrossPageContinuation)
        } else if chars_eq_str(&v, "section_header_vs_bold") {
        Some(Pitfall::SectionHeaderVsBold)
        } else if chars_eq_str(&v, "embedded_font") {
        Some(Pitfall::EmbeddedFont)
        } else if chars_eq_str(&v, "overlapping_text") {
        Some(Pitfall::OverlappingText)
    } else {
        None
    };
    match found {
        Some(x) => {
            proof {
                assert(spec_pitfall_slug(x) == slug@);
                assert forall|y: Pitfall| spec_pitfall_slug(y) == slug@ implies y == x by {
                    lemma_pitfall_slug_injective(x, y);
                }
            }
            Ok(x)
        }
        None => {
            proof {
                assert forall|y: Pitfall| spec_pitfall_slug(y) != slug@ by {
                    match y {
                        Pitfall::MultiColumn => {}
                        Pitfall::Footnote => {}
                        Pitfall::HeaderFooter => {}
                        Pitfall::MultiLineTableCell => {}
                        Pitfall::MergedTableCell => {}
                        Pitfall::BorderlessTable => {}
                        Pitfall::NestedFormula => {}
                        Pitfall::SuperSubscript => {}
                        Pitfall::RotatedText => {}
                        Pitfall::FigureCaption => {}
                        Pitfall::ListNesting => {}
                        Pitfall::CrossPageContinuation => {}
                        Pitfall::SectionHeaderVsBold => {}
                        Pitfall::EmbeddedFont => {}
                        Pitfall::OverlappingText => {}
                    }
                }
            }
            Err(CorpusError::UnknownPitfall(string_from_str(slug)))
        }
    }
}
/// The RootCause whose canonical slug is `s`, if any.
pub open spec fn spec_root_cause_from_slug(s: Seq<char>) -> Option<RootCause> {
    if exists|x: RootCause| spec_root_cause_slug(x) == s {
        Some(choose|x: RootCause| spec_root_cause_slug(x) == s)
    } else {
        None
    }
}

/// Parses a root-cause slug (the inverse of [`crate::taxonomy::root_cause_slug`]).
pub fn root_cause_from_slug(slug: &str) -> (r: Result<RootCause, CorpusError>)
    ensures
        r matches Ok(x) ==> spec_root_cause_from_slug(slug@) == Some(x) && spec_root_cause_slug(x) == slug@,
        r matches Err(e) ==> (spec_root_cause_from_slug(slug@) is None && (e matches CorpusError::UnknownRootCause(t) && t@ == slug@)),
        r is Ok <==> spec_root_cause_from_slug(slug@) is Some,
{
    let v = chars_of(slug);
    let found = 
        if chars_eq_str(&v, "geometric") {
        Some(RootCause::Geometric)
        } else if chars_eq_str(&v, "classification") {
        Some(RootCause::Classification)
        } else if chars_eq_str(&v, "ordering") {
        Some(RootCause::ReadingOrder)
    } else {
        None
    };
    match found {
        Some(x) => {
            proof {
                assert(spec_root_cause_slug(x) == slug@);
                assert forall|y: RootCause| spec_root_cause_slug(y) == slug@ implies y == x by {
                    lemma_root_cause_slug_injective(x, y);
                }
            }
            Ok(x)
        }
        None => {
            proof {
                assert forall|y: RootCause| spec_root_cause_slug(y) != slug@ by {
                    match y {
                        RootCause::Geometric => {}
                        RootCause::Classification => {}
                        RootCause::ReadingOrder => {}
                    }
                }
            }
            Err(CorpusError::UnknownRootCause(string_from_str(slug)))
        }
    }
}
/// The RegionClass whose canonical slug is `s`, if any.
pub open spec fn spec_class_from_slug(s: Seq<char>) -> Option<RegionClass> {
    if exists|x: RegionClass| spec_class_slug(x) == s {
        Some(choose|x: RegionClass| spec_class_slug(x) == s)
    } else {
        None
    }
}

/// Parses a region-class slug (the inverse of [`crate::taxonomy::class_slug`]).
pub fn class_from_slug(slug: &str) -> (r: Result<RegionClass, CorpusError>)
    ensures
        r matches Ok(x) ==> spec_class_from_slug(slug@) == Some(x) && spec_class_slug(x) == slug@,
        r matches Err(e) ==> (spec_class_from_slug(slug@) is None && (e matches CorpusError::UnknownClass(t) && t@ == slug@)),
        r is Ok <==> spec_class_from_slug(slug@) is Some,
{
    let v = chars_of(slug);
    let found = 
        if chars_eq_str(&v, "caption") {
        Some(RegionClass::Caption)
        } else if chars_eq_str(&v, "footnote") {
        Some(RegionClass::Footnote)
        } else if chars_eq_str(&v, "formula") {
        Some(RegionClass::Formula)
        } else if chars_eq_str(&v, "list_item") {
        Some(RegionClass::ListItem)
        } else if chars_eq_str(&v, "page_footer") {
        Some(RegionClass::PageFooter)
        } else if chars_eq_str(&v, "page_header") {
        Some(RegionClass::PageHeader)
        } else if chars_eq_str(&v, "picture") {
        Some(RegionClass::Picture)
        } else if chars_eq_str(&v, "section_header") {
        Some(RegionClass::SectionHeader)
        } else if chars_eq_str(&v, "table") {
        Some(RegionClass::Table)
        } else if chars_eq_str(&v, "text") {
        Some(RegionClass::Text)
        } else if chars_eq_str(&v, "title") {
        Some(RegionClass::Title)
    } else {
        None
    };
    match found {
        Some(x) => {
            proof {
                assert(spec_class_slug(x) == slug@);
                assert forall|y: RegionClass| spec_class_slug(y) == slug@ implies y == x by {
                    lemma_class_slug_injective(x, y);
                }
            }
            Ok(x)
        }
        None => {
            proof {
                assert forall|y: RegionClass| spec_class_slug(y) != slug@ by {
                    match y {
                        RegionClass::Caption => {}
                        RegionClass::Footnote => {}
                        RegionClass::Formula => {}
                        RegionClass::ListItem => {}
                        RegionClass::PageFooter => {}
                        RegionClass::PageHeader => {}
                        RegionClass::Picture => {}
                        RegionClass::SectionHeader => {}
                        RegionClass::Table => {}
                        RegionClass::Text => {}
                        RegionClass::Title => {}
                    }
                }
            }
            Err(CorpusError::UnknownClass(string_from_str(slug)))
        }
    }
}


/// Slugs round-trip: parsing the slug of a pitfall, root cause or region class gives it
/// back, so each slug parser is the inverse of its slug function.
pub proof fn lemma_slug_roundtrip(p: Pitfall, r: RootCause, c: RegionClass)
    ensures
        spec_pitfall_from_slug(spec_pitfall_slug(p)) == Some(p),
        spec_root_cause_from_slug(spec_root_cause_slug(r)) == Some(r),
        spec_class_from_slug(spec_class_slug(c)) == Some(c),
{
    assert forall|y: Pitfall| spec_pitfall_slug(y) == spec_pitfall_slug(p) implies y == p by {
        lemma_pitfall_slug_injective(p, y);
    }
    assert forall|y: RootCause| spec_root_cause_slug(y) == spec_root_cause_slug(r) implies y == r by {
        lemma_root_cause_slug_injective(r, y);
    }
    assert forall|y: RegionClass| spec_class_slug(y) == spec_class_slug(c) implies y == c by {
        lemma_class_slug_injective(c, y);
    }
}


/// `expected` checks nothing: no reading order, no classes, no extraction-fix flag (the
/// shape a case file may leave out entirely).
pub open spec fn spec_is_default_expected(expected: ExpectedBehavior) -> bool {
    expected.reading_order is None && expected.classes@.len() == 0 && !expected.requires_extraction_fix
}

/// `true` if `expected` checks nothing, so a case file may omit its `expected` block.
pub fn is_default_expected(expected: &ExpectedBehavior) -> (b: bool)
    ensures
        b == spec_is_default_expected(*expected),
{
    expected.reading_order.is_none() && expected.classes.len() == 0 && !expected.requires_extraction_fix
}

/// `texts[j]` repeats an earlier text.
pub open spec fn repeats_earlier(texts: Seq<Seq<char>>, j: int) -> bool {
    exists|i: int| 0 <= i < j && texts[i] == texts[j]
}

/// Checks that no two blocks of a case share identical text (which would make the
/// case's block references ambiguous), reporting the first text that repeats.
pub fn check_unique_block_texts(texts: &[String]) -> (r: Result<(), CorpusError>)
    ensures
        r is Ok <==> forall|j: int| 0 <= j < texts@.len()
            ==> !#[trigger] repeats_earlier(strings_view(texts@), j),
        r is Err ==> exists|j: int| 0 <= j < texts@.len()
            && repeats_earlier(strings_view(texts@), j)
            && (forall|k: int| 0 <= k < j ==> !#[trigger] repeats_earlier(strings_view(texts@), k))
            && (r matches Err(CorpusError::DuplicateBlockText(t)) && t@ == texts@[j]@),
{
    let ghost views = strings_view(texts@);
    let mut seen: Vec<Vec<char>> = Vec::new();
    let mut j: usize = 0;
    while j < texts.len()
        invariant
            j <= texts@.len(),
            views == strings_view(texts@),
            seen@.len() == j,
            forall|i: int| 0 <= i < j ==> (#[trigger] seen@[i])@ == views[i],
            forall|k: int| 0 <= k < j ==> !#[trigger] repeats_earlier(views, k),
        decreases texts@.len() - j,
    {
        let cur = chars_of(texts[j].as_str());
        let mut i: usize = 0;
        while i < seen.len()
            invariant
                i <= seen@.len(),
                seen@.len() == j,
                j < texts@.len(),
                views == strings_view(texts@),
                cur@ == views[j as int],
                forall|m: int| 0 <= m < j ==> (#[trigger] seen@[m])@ == views[m],
                forall|m: int| 0 <= m < i ==> views[m] != views[j as int],
                forall|k: int| 0 <= k < j ==> !#[trigger] repeats_earlier(views, k),
            decreases seen@.len() - i,
        {
            if chars_eq(&seen[i], &cur) {
                assert(views[i as int] == views[j as int]);
                assert(repeats_earlier(strings_view(texts@), j as int));
                let dup = string_from_str(texts[j].as_str());
                assert(dup@ == texts@[j as int]@);
                let r = Err(CorpusError::DuplicateBlockText(dup));
                assert(r matches Err(CorpusError::DuplicateBlockText(t)) && t@ == texts@[j as int]@);
                return r;
            }
            i = i + 1;
        }
        seen.push(cur);
        j = j + 1;
    }
    Ok(())
}

/// The expected reading order as character sequences, if any.
pub open spec fn expected_order_view(expected: ExpectedBehavior) -> Option<Seq<Seq<char>>> {
    match expected.reading_order {
        Some(v) => Some(v@.map_values(|t: String| t@)),
        None => None,
    }
}

/// The mismatch reported for the reading order, if it differs from the expected one.
pub open spec fn order_mismatches(expected: Option<Seq<Seq<char>>>, actual: Seq<Seq<char>>) -> Seq<Seq<char>> {
    match expected {
        Some(e) => if actual != e {
            seq!["reading order mismatch: expected "@ + spec_debug_string_list(e) + ", got "@ + spec_debug_string_list(actual)]
        } else {
            Seq::empty()
        },
        None => Seq::empty(),
    }
}

/// The name `{:?}` gives a region class.
pub open spec fn spec_class_debug_name(c: RegionClass) -> Seq<char> {
    match c {
        RegionClass::Caption => "Caption"@,
        RegionClass::Footnote => "Footnote"@,
        RegionClass::Formula => "Formula"@,
        RegionClass::ListItem => "ListItem"@,
        RegionClass::PageFooter => "PageFooter"@,
        RegionClass::PageHeader => "PageHeader"@,
        RegionClass::Picture => "Picture"@,
        RegionClass::SectionHeader => "SectionHeader"@,
        RegionClass::Table => "Table"@,
        RegionClass::Text => "Text"@,
        RegionClass::Title => "Title"@,
    }
}

/// The name `{:?}` gives a region class (its variant name).
pub fn class_debug_name(class: RegionClass) -> (s: &'static str)
    ensures
        s@ == spec_class_debug_name(class),
{
    match class {
        RegionClass::Caption => "Caption",
        RegionClass::Footnote => "Footnote",
        RegionClass::Formula => "Formula",
        RegionClass::ListItem => "ListItem",
        RegionClass::PageFooter => "PageFooter",
        RegionClass::PageHeader => "PageHeader",
        RegionClass::Picture => "Picture",
        RegionClass::SectionHeader => "SectionHeader",
        RegionClass::Table => "Table",
        RegionClass::Text => "Text",
        RegionClass::Title => "Title",
    }
}

/// The class of the first block whose text is `text`, among `(block text, class)` pairs.
pub open spec fn class_of_block(pairs: Seq<(Seq<char>, RegionClass)>, text: Seq<char>) -> Option<RegionClass>
    decreases pairs.len(),
{
    if pairs.len() == 0 {
        None
    } else if pairs[0].0 == text {
        Some(pairs[0].1)
    } else {
        class_of_block(pairs.drop_first(), text)
    }
}

/// The mismatch reported for one expected class, if any.
pub open spec fn class_mismatch(pairs: Seq<(Seq<char>, RegionClass)>, text: Seq<char>, class: RegionClass) -> Seq<Seq<char>> {
    match class_of_block(pairs, text) {
        None => seq!["no block with text "@ + spec_debug_str(text) + " found in document"@],
        Some(actual) => if actual != class {
            seq![
                "class mismatch for block "@ + spec_debug_str(text) + ": expected "@ + spec_class_debug_name(class)
                    + ", got "@ + spec_class_debug_name(actual),
            ]
        } else {
            Seq::empty()
        },
    }
}

/// The mismatches reported for a run of expected classes, in order.
pub open spec fn class_mismatches(pairs: Seq<(Seq<char>, RegionClass)>, expected: Seq<ExpectedClass>) -> Seq<Seq<char>>
    decreases expected.len(),
{
    if expected.len() == 0 {
        Seq::empty()
    } else {
        class_mismatches(pairs, expected.drop_last()) + class_mismatch(
            pairs,
            expected.last().block_text@,
            expected.last().class,
        )
    }
}

/// The `(block text, class)` pairs as character sequences.
pub open spec fn pairs_view(pairs: Seq<(String, RegionClass)>) -> Seq<(Seq<char>, RegionClass)> {
    pairs.map_values(|p: (String, RegionClass)| (p.0@, p.1))
}

/// The strings as character sequences.
pub open spec fn strings_view(v: Seq<String>) -> Seq<Seq<char>> {
    v.map_values(|t: String| t@)
}

/// Every mismatch of a case: the reading-order one, then one per failed class
/// expectation.
pub open spec fn case_mismatches(
    expected: ExpectedBehavior,
    actual_order: Seq<Seq<char>>,
    classified: Seq<(Seq<char>, RegionClass)>,
) -> Seq<Seq<char>> {
    order_mismatches(expected_order_view(expected), actual_order) + class_mismatches(classified, expected.classes@)
}

/// The references of a run of `String`s.
fn str_refs(v: &[String]) -> (r: Vec<&str>)
    ensures
        r@.map_values(|s: &str| s@) == strings_view(v@),
        r@.len() == v@.len(),
{
    let mut r: Vec<&str> = Vec::new();
    let mut i: usize = 0;
    while i < v.len()
        invariant
            i <= v@.len(),
            r@.len() == i,
            r@.map_values(|s: &str| s@) == strings_view(v@.take(i as int)),
        decreases v@.len() - i,
    {
        let ghost before = r@;
        r.push(v[i].as_str());
        assert(r@.map_values(|s: &str| s@) =~= before.map_values(|s: &str| s@).push(v@[i as int]@));
        assert(strings_view(v@.take(i + 1)) =~= strings_view(v@.take(i as int)).push(v@[i as int]@));
        i = i + 1;
    }
    assert(v@.take(v@.len() as int) =~= v@);
    r
}

/// The class of the first pair whose text is `text` (exec form of [`class_of_block`]).
fn find_class(classified: &[(String, RegionClass)], text: &str) -> (r: Option<RegionClass>)
    ensures
        r == class_of_block(pairs_view(classified@), text@),
{
    let ghost pv = pairs_view(classified@);
    let t = chars_of(text);
    let mut i: usize = 0;
    assert(pv.skip(0) =~= pv);
    while i < classified.len()
        invariant
            i <= classified@.len(),
            pv == pairs_view(classified@),
            t@ == text@,
            class_of_block(pv, text@) == class_of_block(pv.skip(i as int), text@),
        decreases classified@.len() - i,
    {
        assert(pv.skip(i as int)[0] == pv[i as int]);
        assert(pv.skip(i as int).drop_first() =~= pv.skip(i + 1));
        if chars_eq_str(&t, classified[i].0.as_str()) {
            return Some(classified[i].1);
        }
        i = i + 1;
    }
    None
}

/// Compares a case's expectations with what the pipeline produced: `actual_order` is
/// the block texts after reading-order assembly, `naive_order` the block texts in their
/// authored order, and `classified` the `(block text, class)` pair of each block in
/// document order. Collects a human-readable mismatch for every expectation that did
/// not hold, and the reading-order edit distances (post-assembly and naive) when the
/// case has an expected order.
pub fn evaluate_expectations(
    case_id: &str,
    expected: &ExpectedBehavior,
    actual_order: &[String],
    naive_order: &[String],
    classified: &[(String, RegionClass)],
) -> (o: CaseOutcome)
    requires
        actual_order@.len() < usize::MAX,
        naive_order@.len() < usize::MAX,
        expected.reading_order matches Some(e) ==> e@.len() < usize::MAX,
    ensures
        o.case_id@ == case_id@,
        strings_view(o.mismatches@) == case_mismatches(*expected, strings_view(actual_order@), pairs_view(classified@)),
        o.passed == (o.mismatches@.len() == 0),
        o.reading_order_edit_distance == match expected_order_view(*expected) {
            Some(e) => Some(edit_distance(strings_view(actual_order@), e) as usize),
            None => None::<usize>,
        },
        o.naive_reading_order_edit_distance == match expected_order_view(*expected) {
            Some(e) => Some(edit_distance(strings_view(naive_order@), e) as usize),
            None => None::<usize>,
        },
{
    let mut mismatches: Vec<String> = Vec::new();
    let mut distance: Option<usize> = None;
    let mut naive_distance: Option<usize> = None;
    let ghost actual = strings_view(actual_order@);
    if let Some(expected_order) = &expected.reading_order {
        let expected_refs = str_refs(expected_order.as_slice());
        let actual_refs = str_refs(actual_order);
        let naive_refs = str_refs(naive_order);
        let mut same = expected_order.len() == actual_order.len();
        proof {
            if !same {
                assert(strings_view(actual_order@).len() != strings_view(expected_order@).len());
            }
        }
        let mut i: usize = 0;
        while same && i < actual_order.len()
            invariant
                i <= actual_order@.len(),
                same ==> expected_order@.len() == actual_order@.len(),
                same ==> forall|k: int| 0 <= k < i ==> actual_order@[k]@ == expected_order@[k]@,
                !same ==> strings_view(actual_order@) != strings_view(expected_order@),
            decreases actual_order@.len() - i,
        {
            let a = chars_of(actual_order[i].as_str());
            if !chars_eq_str(&a, expected_order[i].as_str()) {
                same = false;
                assert(strings_view(actual_order@)[i as int] != strings_view(expected_order@)[i as int]);
            }
            i = i + 1;
        }
        if same {
            assert(strings_view(actual_order@) =~= strings_view(expected_order@));
        } else {
            let mut msg = string_from_str("reading order mismatch: expected ");
            let e = debug_string_list(expected_order.as_slice());
            push_str(&mut msg, e.as_str());
            push_str(&mut msg, ", got ");
            let g = debug_string_list(actual_order);
            push_str(&mut msg, g.as_str());
            mismatches.push(msg);
        }
        assert(strings_view(mismatches@) =~= order_mismatches(expected_order_view(*expected), actual));
        distance = Some(reading_order_edit_distance(actual_refs.as_slice(), expected_refs.as_slice()));
        naive_distance = Some(reading_order_edit_distance(naive_refs.as_slice(), expected_refs.as_slice()));
    } else {
        assert(strings_view(mismatches@) =~= order_mismatches(expected_order_view(*expected), actual));
    }
    let ghost order_part = strings_view(mismatches@);
    let ghost pv = pairs_view(classified@);
    let mut k: usize = 0;
    while k < expected.classes.len()
        invariant
            k <= expected.classes@.len(),
            pv == pairs_view(classified@),
            order_part == order_mismatches(expected_order_view(*expected), actual),
            strings_view(mismatches@) == order_part + class_mismatches(pv, expected.classes@.take(k as int)),
        decreases expected.classes@.len() - k,
    {
        let ec = &expected.classes[k];
        let ghost before = strings_view(mismatches@);
        assert(expected.classes@.take(k + 1).drop_last() =~= expected.classes@.take(k as int));
        assert(expected.classes@.take(k + 1).last() == *ec);
        match find_class(classified, ec.block_text.as_str()) {
            None => {
                let mut msg = string_from_str("no block with text ");
                let d = debug_str(ec.block_text.as_str());
                push_str(&mut msg, d.as_str());
                push_str(&mut msg, " found in document");
                mismatches.push(msg);
                assert(strings_view(mismatches@) =~= before.push(msg@));
            },
            Some(actual_class) => {
                if actual_class != ec.class {
                    let mut msg = string_from_str("class mismatch for block ");
                    let d = debug_str(ec.block_text.as_str());
                    push_str(&mut msg, d.as_str());
                    push_str(&mut msg, ": expected ");
                    push_str(&mut msg, class_debug_name(ec.class));
                    push_str(&mut msg, ", got ");
                    push_str(&mut msg, class_debug_name(actual_class));
                    mismatches.push(msg);
                    assert(strings_view(mismatches@) =~= before.push(msg@));
                }
            },
        }
        assert(strings_view(mismatches@) =~= order_part + class_mismatches(pv, expected.classes@.take(k + 1)));
        k = k + 1;
    }
    assert(expected.classes@.take(expected.classes@.len() as int) =~= expected.classes@);
    let passed = mismatches.len() == 0;
    CaseOutcome {
        case_id: string_from_str(case_id),
        passed,
        mismatches,
        reading_order_edit_distance: distance,
        naive_reading_order_edit_distance: naive_distance,
    }
}


/// The pages of a case file, which gives them either as a single `page` or as a list
/// `pages`: exactly one of the two must be present, otherwise the case at `path` is
/// rejected with [`CorpusError::PageSpec`].
pub fn case_pages<T>(path: PathBuf, page: Option<T>, pages: Option<Vec<T>>) -> (r: Result<Vec<T>, CorpusError>)
    ensures
        match (page, pages) {
            (Some(p), None) => r matches Ok(v) && v@ == seq![p],
            (None, Some(ps)) => r matches Ok(v) && v@ == ps@,
            _ => r matches Err(CorpusError::PageSpec { path: q }) && q == path,
        },
{
    match (page, pages) {
        (Some(p), None) => {
            let mut v: Vec<T> = Vec::new();
            v.push(p);
            Ok(v)
        },
        (None, Some(ps)) => Ok(ps),
        _ => Err(CorpusError::PageSpec { path }),
    }
}

} // verus!
