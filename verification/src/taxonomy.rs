//! The failure-mode taxonomy of the regression corpus and the layout class schema:
//! [`RootCause`], [`Pitfall`] and [`RegionClass`], their canonical slugs, and the
//! DocLayNet category mappings.
use vstd::prelude::*;

verus! {

/// Root cause tag attached to each regression case.
///
/// Determines whether a fix is heuristic (`Geometric`, `ReadingOrder`) or requires
/// model retraining (`Classification`).
#[derive(Debug, Clone, Copy, PartialEq, Eq, Hash, Structural)]
pub enum RootCause {
    /// The underlying bounding box is wrong.
    Geometric,
    /// The region classifier assigned the wrong class.
    Classification,
    /// Reading-order assembly sequenced correctly-classified regions incorrectly.
    ReadingOrder,
}

/// A category of the document-structure pitfall checklist, one variant per checklist
/// item, in the checklist's listed order.
#[derive(Debug, Clone, Copy, PartialEq, Eq, Hash, PartialOrd, Ord, Structural)]
pub enum Pitfall {
    /// Text lines merged across column boundaries, or column order inverted (right
    /// column read before left).
    MultiColumn,
    /// Footnote text merged into body `Text` instead of classified as `Footnote`;
    /// footnote markers not linked to their note.
    Footnote,
    /// Header/footer text leaking into the body text stream; running headers
    /// misclassified as `Section-header`.
    HeaderFooter,
    /// Table cells spanning multiple visual lines merged incorrectly with adjacent
    /// rows; rowspan/colspan not detected.
    MultiLineTableCell,
    /// Merged table cells (rowspan/colspan) whose tree-topology mismatch TEDS-Struct
    /// penalizes most heavily.
    MergedTableCell,
    /// Borderless / whitespace-delimited tables with no ruling lines to key off;
    /// frequently misclassified as plain `Text`.
    BorderlessTable,
    /// Inline formulas embedded mid-sentence not separated from surrounding text;
    /// multi-line/stacked formulas fragmented into multiple bounding boxes.
    NestedFormula,
    /// Footnote markers, exponents, and chemical/math subscripts causing
    /// baseline-clustering errors in line grouping.
    SuperSubscript,
    /// Sidebar labels, rotated table headers, CJK vertical text.
    RotatedText,
    /// Captions not correctly linked to their parent `Picture`/`Table` region, or
    /// associated with the wrong figure when multiple figures share a page.
    FigureCaption,
    /// Multi-level bullet/numbered lists collapsed into flat `List-item` blocks,
    /// losing hierarchy.
    ListNesting,
    /// Tables or paragraphs split across a page boundary not stitched back together.
    CrossPageContinuation,
    /// `Section-header` misclassified as `Title` or emphasized `Text` when
    /// font-weight is the only visual cue.
    SectionHeaderVsBold,
    /// Embedded/CID-keyed fonts and ligatures causing character extraction to drop
    /// or garble glyphs from non-standard font encodings.
    EmbeddedFont,
    /// Watermarks, stamps, or redaction boxes overlapping real text and corrupting
    /// bbox clustering.
    OverlappingText,
}

/// DocLayNet's 11 region categories.
#[derive(Debug, Clone, Copy, PartialEq, Eq, Hash, PartialOrd, Ord, Structural)]
pub enum RegionClass {
    /// A caption associated with a `Picture` or `Table` region.
    Caption,
    /// Footnote text, distinct from body `Text`.
    Footnote,
    /// A mathematical formula, inline or block.
    Formula,
    /// A single item within a list.
    ListItem,
    /// A running page footer.
    PageFooter,
    /// A running page header.
    PageHeader,
    /// A figure, photo, chart, or other non-text graphic.
    Picture,
    /// A section heading.
    SectionHeader,
    /// A table.
    Table,
    /// Ordinary body text.
    Text,
    /// A document or chapter title.
    Title,
}

/// The canonical slug of a root cause.
pub open spec fn spec_root_cause_slug(r: RootCause) -> Seq<char> {
    match r {
        RootCause::Geometric => "geometric"@,
        RootCause::Classification => "classification"@,
        RootCause::ReadingOrder => "ordering"@,
    }
}

/// The canonical slug for a [`RootCause`].
pub fn root_cause_slug(root_cause: RootCause) -> (s: &'static str)
    ensures
        s@ == spec_root_cause_slug(root_cause),
{
    match root_cause {
        RootCause::Geometric => "geometric",
        RootCause::Classification => "classification",
        RootCause::ReadingOrder => "ordering",
    }
}

/// The canonical directory-name slug of a pitfall.
pub open spec fn spec_pitfall_slug(p: Pitfall) -> Seq<char> {
    match p {
        Pitfall::MultiColumn => "multi_column"@,
        Pitfall::Footnote => "footnote"@,
        Pitfall::HeaderFooter => "header_footer"@,
        Pitfall::MultiLineTableCell => "multi_line_table_cell"@,
        Pitfall::MergedTableCell => "merged_table_cell"@,
        Pitfall::BorderlessTable => "borderless_table"@,
        Pitfall::NestedFormula => "nested_formula"@,
        Pitfall::SuperSubscript => "super_subscript"@,
        Pitfall::RotatedText => "rotated_text"@,
        Pitfall::FigureCaption => "figure_caption"@,
        Pitfall::ListNesting => "list_nesting"@,
        Pitfall::CrossPageContinuation => "cross_page_continuation"@,
        Pitfall::SectionHeaderVsBold => "section_header_vs_bold"@,
        Pitfall::EmbeddedFont => "embedded_font"@,
        Pitfall::OverlappingText => "overlapping_text"@,
    }
}

/// The canonical directory-name slug for a [`Pitfall`].
pub fn pitfall_slug(pitfall: Pitfall) -> (s: &'static str)
    ensures
        s@ == spec_pitfall_slug(pitfall),
{
    match pitfall {
        Pitfall::MultiColumn => "multi_column",
        Pitfall::Footnote => "footnote",
        Pitfall::HeaderFooter => "header_footer",
        Pitfall::MultiLineTableCell => "multi_line_table_cell",
        Pitfall::MergedTableCell => "merged_table_cell",
        Pitfall::BorderlessTable => "borderless_table",
        Pitfall::NestedFormula => "nested_formula",
        Pitfall::SuperSubscript => "super_subscript",
        Pitfall::RotatedText => "rotated_text",
        Pitfall::FigureCaption => "figure_caption",
        Pitfall::ListNesting => "list_nesting",
        Pitfall::CrossPageContinuation => "cross_page_continuation",
        Pitfall::SectionHeaderVsBold => "section_header_vs_bold",
        Pitfall::EmbeddedFont => "embedded_font",
        Pitfall::OverlappingText => "overlapping_text",
    }
}

/// The canonical slug of a region class.
pub open spec fn spec_class_slug(c: RegionClass) -> Seq<char> {
    match c {
        RegionClass::Caption => "caption"@,
        RegionClass::Footnote => "footnote"@,
        RegionClass::Formula => "formula"@,
        RegionClass::ListItem => "list_item"@,
        RegionClass::PageFooter => "page_footer"@,
        RegionClass::PageHeader => "page_header"@,
        RegionClass::Picture => "picture"@,
        RegionClass::SectionHeader => "section_header"@,
        RegionClass::Table => "table"@,
        RegionClass::Text => "text"@,
        RegionClass::Title => "title"@,
    }
}

/// The canonical slug for a [`RegionClass`].
pub fn class_slug(class: RegionClass) -> (s: &'static str)
    ensures
        s@ == spec_class_slug(class),
{
    match class {
        RegionClass::Caption => "caption",
        RegionClass::Footnote => "footnote",
        RegionClass::Formula => "formula",
        RegionClass::ListItem => "list_item",
        RegionClass::PageFooter => "page_footer",
        RegionClass::PageHeader => "page_header",
        RegionClass::Picture => "picture",
        RegionClass::SectionHeader => "section_header",
        RegionClass::Table => "table",
        RegionClass::Text => "text",
        RegionClass::Title => "title",
    }
}

/// DocLayNet's category name for a region class.
pub open spec fn spec_category_name(c: RegionClass) -> Seq<char> {
    match c {
        RegionClass::Caption => "Caption"@,
        RegionClass::Footnote => "Footnote"@,
        RegionClass::Formula => "Formula"@,
        RegionClass::ListItem => "List-item"@,
        RegionClass::PageFooter => "Page-footer"@,
        RegionClass::PageHeader => "Page-header"@,
        RegionClass::Picture => "Picture"@,
        RegionClass::SectionHeader => "Section-header"@,
        RegionClass::Table => "Table"@,
        RegionClass::Text => "Text"@,
        RegionClass::Title => "Title"@,
    }
}

/// DocLayNet's numeric category id for a region class: `1..=11`, in the class
/// declaration order.
pub open spec fn spec_category_id(c: RegionClass) -> int {
    match c {
        RegionClass::Caption => 1,
        RegionClass::Footnote => 2,
        RegionClass::Formula => 3,
        RegionClass::ListItem => 4,
        RegionClass::PageFooter => 5,
        RegionClass::PageHeader => 6,
        RegionClass::Picture => 7,
        RegionClass::SectionHeader => 8,
        RegionClass::Table => 9,
        RegionClass::Text => 10,
        RegionClass::Title => 11,
    }
}

/// The class with DocLayNet category id `id`, if any.
pub open spec fn spec_category_to_class(id: int) -> Option<RegionClass> {
    if id == 1 {
        Some(RegionClass::Caption)
    } else if id == 2 {
        Some(RegionClass::Footnote)
    } else if id == 3 {
        Some(RegionClass::Formula)
    } else if id == 4 {
        Some(RegionClass::ListItem)
    } else if id == 5 {
        Some(RegionClass::PageFooter)
    } else if id == 6 {
        Some(RegionClass::PageHeader)
    } else if id == 7 {
        Some(RegionClass::Picture)
    } else if id == 8 {
        Some(RegionClass::SectionHeader)
    } else if id == 9 {
        Some(RegionClass::Table)
    } else if id == 10 {
        Some(RegionClass::Text)
    } else if id == 11 {
        Some(RegionClass::Title)
    } else {
        None
    }
}

/// Maps a DocLayNet COCO `category_id` to its [`RegionClass`], by DocLayNet's
/// documented id-to-name mapping (ids `1..=11`, in [`RegionClass`]'s declaration
/// order). Returns `None` for any other id.
pub fn category_to_class(category_id: i64) -> (r: Option<RegionClass>)
    ensures
        r == spec_category_to_class(category_id as int),
        r matches Some(c) ==> spec_category_id(c) == category_id,
{
    match category_id {
        1 => Some(RegionClass::Caption),
        2 => Some(RegionClass::Footnote),
        3 => Some(RegionClass::Formula),
        4 => Some(RegionClass::ListItem),
        5 => Some(RegionClass::PageFooter),
        6 => Some(RegionClass::PageHeader),
        7 => Some(RegionClass::Picture),
        8 => Some(RegionClass::SectionHeader),
        9 => Some(RegionClass::Table),
        10 => Some(RegionClass::Text),
        11 => Some(RegionClass::Title),
        _ => None,
    }
}

/// Stable ordering key for [`RegionClass`], used to enumerate classes
/// deterministically; not a meaningful ranking.
pub open spec fn spec_region_class_rank(c: RegionClass) -> u32 {
    match c {
        RegionClass::Caption => 0,
        RegionClass::Footnote => 1,
        RegionClass::Formula => 2,
        RegionClass::ListItem => 3,
        RegionClass::PageFooter => 4,
        RegionClass::PageHeader => 5,
        RegionClass::Picture => 6,
        RegionClass::SectionHeader => 7,
        RegionClass::Table => 8,
        RegionClass::Text => 9,
        RegionClass::Title => 10,
    }
}

/// Stable ordering key for [`RegionClass`] (see [`spec_region_class_rank`]).
pub fn region_class_rank(class: RegionClass) -> (r: u32)
    ensures
        r == spec_region_class_rank(class),
{
    match class {
        RegionClass::Caption => 0,
        RegionClass::Footnote => 1,
        RegionClass::Formula => 2,
        RegionClass::ListItem => 3,
        RegionClass::PageFooter => 4,
        RegionClass::PageHeader => 5,
        RegionClass::Picture => 6,
        RegionClass::SectionHeader => 7,
        RegionClass::Table => 8,
        RegionClass::Text => 9,
        RegionClass::Title => 10,
    }
}

/// Every [`Pitfall`] variant, in the checklist's listed order.
pub open spec fn spec_all_pitfalls() -> Seq<Pitfall> {
    seq![
        Pitfall::MultiColumn,
        Pitfall::Footnote,
        Pitfall::HeaderFooter,
        Pitfall::MultiLineTableCell,
        Pitfall::MergedTableCell,
        Pitfall::BorderlessTable,
        Pitfall::NestedFormula,
        Pitfall::SuperSubscript,
        Pitfall::RotatedText,
        Pitfall::FigureCaption,
        Pitfall::ListNesting,
        Pitfall::CrossPageContinuation,
        Pitfall::SectionHeaderVsBold,
        Pitfall::EmbeddedFont,
        Pitfall::OverlappingText,
    ]
}

/// Every [`Pitfall`] variant, in the checklist's listed order (which matches the
/// enum's own declaration order).
pub fn all_pitfalls() -> (v: Vec<Pitfall>)
    ensures
        v@ == spec_all_pitfalls(),
{
    let v = vec![
        Pitfall::MultiColumn,
        Pitfall::Footnote,
        Pitfall::HeaderFooter,
        Pitfall::MultiLineTableCell,
        Pitfall::MergedTableCell,
        Pitfall::BorderlessTable,
        Pitfall::NestedFormula,
        Pitfall::SuperSubscript,
        Pitfall::RotatedText,
        Pitfall::FigureCaption,
        Pitfall::ListNesting,
        Pitfall::CrossPageContinuation,
        Pitfall::SectionHeaderVsBold,
        Pitfall::EmbeddedFont,
        Pitfall::OverlappingText,
    ];
    assert(v@ =~= spec_all_pitfalls());
    v
}


/// The position of a pitfall in the checklist order.
pub open spec fn spec_pitfall_index(p: Pitfall) -> int {
    match p {
        Pitfall::MultiColumn => 0,
        Pitfall::Footnote => 1,
        Pitfall::HeaderFooter => 2,
        Pitfall::MultiLineTableCell => 3,
        Pitfall::MergedTableCell => 4,
        Pitfall::BorderlessTable => 5,
        Pitfall::NestedFormula => 6,
        Pitfall::SuperSubscript => 7,
        Pitfall::RotatedText => 8,
        Pitfall::FigureCaption => 9,
        Pitfall::ListNesting => 10,
        Pitfall::CrossPageContinuation => 11,
        Pitfall::SectionHeaderVsBold => 12,
        Pitfall::EmbeddedFont => 13,
        Pitfall::OverlappingText => 14,
    }
}

/// The position of `pitfall` in the checklist order of [`all_pitfalls`].
pub fn pitfall_index(pitfall: Pitfall) -> (i: usize)
    ensures
        i == spec_pitfall_index(pitfall),
        i < spec_all_pitfalls().len(),
        spec_all_pitfalls()[i as int] == pitfall,
{
    match pitfall {
        Pitfall::MultiColumn => 0,
        Pitfall::Footnote => 1,
        Pitfall::HeaderFooter => 2,
        Pitfall::MultiLineTableCell => 3,
        Pitfall::MergedTableCell => 4,
        Pitfall::BorderlessTable => 5,
        Pitfall::NestedFormula => 6,
        Pitfall::SuperSubscript => 7,
        Pitfall::RotatedText => 8,
        Pitfall::FigureCaption => 9,
        Pitfall::ListNesting => 10,
        Pitfall::CrossPageContinuation => 11,
        Pitfall::SectionHeaderVsBold => 12,
        Pitfall::EmbeddedFont => 13,
        Pitfall::OverlappingText => 14,
    }
}

/// The checklist lists every pitfall exactly once: each pitfall sits at its own index,
/// and no two positions hold the same pitfall.
pub proof fn lemma_all_pitfalls_exactly_once(p: Pitfall)
    ensures
        0 <= spec_pitfall_index(p) < spec_all_pitfalls().len(),
        spec_all_pitfalls()[spec_pitfall_index(p)] == p,
        forall|i: int| 0 <= i < spec_all_pitfalls().len() && #[trigger] spec_all_pitfalls()[i] == p
            ==> i == spec_pitfall_index(p),
{
}

/// Distinct pitfalls have distinct slugs, so a slug names at most one pitfall.
pub proof fn lemma_pitfall_slug_injective(a: Pitfall, b: Pitfall)
    ensures
        spec_pitfall_slug(a) == spec_pitfall_slug(b) ==> a == b,
{
    reveal_strlit("multi_column");
    reveal_strlit("footnote");
    reveal_strlit("header_footer");
    reveal_strlit("multi_line_table_cell");
    reveal_strlit("merged_table_cell");
    reveal_strlit("borderless_table");
    reveal_strlit("nested_formula");
    reveal_strlit("super_subscript");
    reveal_strlit("rotated_text");
    reveal_strlit("figure_caption");
    reveal_strlit("list_nesting");
    reveal_strlit("cross_page_continuation");
    reveal_strlit("section_header_vs_bold");
    reveal_strlit("embedded_font");
    reveal_strlit("overlapping_text");
    if spec_pitfall_slug(a) == spec_pitfall_slug(b) && a != b {
        let sa = spec_pitfall_slug(a);
        let sb = spec_pitfall_slug(b);
        assert(sa.len() == sb.len());
        assert(sa[0] == sb[0]);
        assert(sa[1] == sb[1]);
        assert(sa[2] == sb[2]);
        assert(sa[3] == sb[3]);
        assert(sa[4] == sb[4]);
        assert(sa[5] == sb[5]);
        assert(false);
    }
}

/// Distinct root causes have distinct slugs.
pub proof fn lemma_root_cause_slug_injective(a: RootCause, b: RootCause)
    ensures
        spec_root_cause_slug(a) == spec_root_cause_slug(b) ==> a == b,
{
    reveal_strlit("geometric");
    reveal_strlit("classification");
    reveal_strlit("ordering");
    if spec_root_cause_slug(a) == spec_root_cause_slug(b) && a != b {
        let sa = spec_root_cause_slug(a);
        let sb = spec_root_cause_slug(b);
        assert(sa.len() == sb.len());
        assert(sa[0] == sb[0]);
        assert(sa[1] == sb[1]);
        assert(sa[2] == sb[2]);
        assert(sa[3] == sb[3]);
        assert(sa[4] == sb[4]);
        assert(sa[5] == sb[5]);
        assert(false);
    }
}
/// Distinct region classes have distinct slugs.
pub proof fn lemma_class_slug_injective(a: RegionClass, b: RegionClass)
    ensures
        spec_class_slug(a) == spec_class_slug(b) ==> a == b,
{
    reveal_strlit("caption");
    reveal_strlit("footnote");
    reveal_strlit("formula");
    reveal_strlit("list_item");
    reveal_strlit("page_footer");
    reveal_strlit("page_header");
    reveal_strlit("picture");
    reveal_strlit("section_header");
    reveal_strlit("table");
    reveal_strlit("text");
    reveal_strlit("title");
    if spec_class_slug(a) == spec_class_slug(b) && a != b {
        let sa = spec_class_slug(a);
        let sb = spec_class_slug(b);
        assert(sa.len() == sb.len());
        assert(sa[0] == sb[0]);
        assert(sa[1] == sb[1]);
        assert(sa[2] == sb[2]);
        assert(sa[3] == sb[3]);
        assert(sa[4] == sb[4]);
        assert(sa[5] == sb[5]);
        assert(false);
    }
}


/// Distinct classes have distinct DocLayNet category names.
pub proof fn lemma_category_name_injective(a: RegionClass, b: RegionClass)
    ensures
        spec_category_name(a) == spec_category_name(b) ==> a == b,
{
    reveal_strlit("Caption");
    reveal_strlit("Footnote");
    reveal_strlit("Formula");
    reveal_strlit("List-item");
    reveal_strlit("Page-footer");
    reveal_strlit("Page-header");
    reveal_strlit("Picture");
    reveal_strlit("Section-header");
    reveal_strlit("Table");
    reveal_strlit("Text");
    reveal_strlit("Title");
    if spec_category_name(a) == spec_category_name(b) && a != b {
        let sa = spec_category_name(a);
        let sb = spec_category_name(b);
        assert(sa.len() == sb.len());
        assert(sa[0] == sb[0]);
        assert(sa[1] == sb[1]);
        assert(sa[2] == sb[2]);
        assert(sa[3] == sb[3]);
        assert(sa[4] == sb[4]);
        assert(sa[5] == sb[5]);
        assert(false);
    }
}

/// The class whose DocLayNet category name is `name`, if any.
pub open spec fn spec_category_name_to_class(name: Seq<char>) -> Option<RegionClass> {
    if exists|c: RegionClass| spec_category_name(c) == name {
        Some(choose|c: RegionClass| spec_category_name(c) == name)
    } else {
        None
    }
}

/// Maps a DocLayNet COCO category *name* (e.g. `"Section-header"`) to its
/// [`RegionClass`], for callers that only have the `categories` array's `name` field.
pub fn category_name_to_class(name: &str) -> (r: Option<RegionClass>)
    ensures
        r == spec_category_name_to_class(name@),
        r matches Some(c) ==> spec_category_name(c) == name@,
{
    let v = crate::text::chars_of(name);
    let found = if crate::text::chars_eq_str(&v, "Caption") {
        Some(RegionClass::Caption)
    } else if crate::text::chars_eq_str(&v, "Footnote") {
        Some(RegionClass::Footnote)
    } else if crate::text::chars_eq_str(&v, "Formula") {
        Some(RegionClass::Formula)
    } else if crate::text::chars_eq_str(&v, "List-item") {
        Some(RegionClass::ListItem)
    } else if crate::text::chars_eq_str(&v, "Page-footer") {
        Some(RegionClass::PageFooter)
    } else if crate::text::chars_eq_str(&v, "Page-header") {
        Some(RegionClass::PageHeader)
    } else if crate::text::chars_eq_str(&v, "Picture") {
        Some(RegionClass::Picture)
    } else if crate::text::chars_eq_str(&v, "Section-header") {
        Some(RegionClass::SectionHeader)
    } else if crate::text::chars_eq_str(&v, "Table") {
        Some(RegionClass::Table)
    } else if crate::text::chars_eq_str(&v, "Text") {
        Some(RegionClass::Text)
    } else if crate::text::chars_eq_str(&v, "Title") {
        Some(RegionClass::Title)
    } else {
        None
    };
    proof {
        match found {
            Some(x) => {
                assert(spec_category_name(x) == name@);
                assert forall|y: RegionClass| spec_category_name(y) == name@ implies y == x by {
                    lemma_category_name_injective(x, y);
                }
            },
            None => {
                assert forall|y: RegionClass| spec_category_name(y) != name@ by {
                    match y {
                        RegionClass::Caption => {},
                        RegionClass::Footnote => {},
                        RegionClass::Formula => {},
                        RegionClass::ListItem => {},
                        RegionClass::PageFooter => {},
                        RegionClass::PageHeader => {},
                        RegionClass::Picture => {},
                        RegionClass::SectionHeader => {},
                        RegionClass::Table => {},
                        RegionClass::Text => {},
                        RegionClass::Title => {},
                    }
                }
            },
        }
    }
    found
}

/// The DocLayNet id and name mappings agree: every class's id maps back to the class,
/// ids outside `1..=11` map to nothing, and every class's name maps back to the class
/// too, so looking a category up by id or by name gives the same class.
pub proof fn lemma_category_mappings_agree(c: RegionClass, id: int)
    ensures
        1 <= spec_category_id(c) <= 11,
        spec_category_to_class(spec_category_id(c)) == Some(c),
        spec_category_name_to_class(spec_category_name(c)) == Some(c),
        spec_category_to_class(id) is None <==> !(1 <= id <= 11),
        spec_category_to_class(id) matches Some(d) ==> spec_category_id(d) == id
            && spec_category_name_to_class(spec_category_name(d)) == Some(d),
{
    assert forall|y: RegionClass| spec_category_name(y) == spec_category_name(c) implies y == c by {
        lemma_category_name_injective(c, y);
    }
    if let Some(d) = spec_category_to_class(id) {
        assert forall|y: RegionClass| spec_category_name(y) == spec_category_name(d) implies y == d by {
            lemma_category_name_injective(d, y);
        }
    }
}

} // verus!
