//! Structural Markdown rendering of already-classified text: output options, GFM pipe
//! tables, list/footnote markers, per-class block rendering and page joining.
use vstd::prelude::*;
use crate::taxonomy::RegionClass;
use crate::text::{
    char_utf8_width, chars_of, has_prefix, is_whitespace, join, join_strings, lines_of, push_char,
    push_chars, push_str, spec_is_whitespace, spec_lines, string_from_str, trim_start,
    trim_start_len, utf8_len, utf8_width,
};

verus! {

/// Output-shape switches for structural Markdown rendering.
///
/// The default (both fields `true`) is faithful: every page break and every detected
/// picture is represented.
#[derive(Debug, Clone, Copy, PartialEq, Eq, Structural)]
pub struct MarkdownOptions {
    /// Separate pages with a Markdown thematic break (`---`). Default `true`.
    pub page_breaks: bool,
    /// Emit a `![]()` placeholder for each detected picture region. Default `true`.
    pub image_placeholders: bool,
}

impl Default for MarkdownOptions {
    fn default() -> (r: Self)
        ensures
            r.page_breaks,
            r.image_placeholders,
    {
        MarkdownOptions { page_breaks: true, image_placeholders: true }
    }
}


/// How one character of a table cell is written: `|` is escaped and a line break
/// becomes `<br>`.
pub open spec fn escape_char(c: char) -> Seq<char> {
    if c == '|' {
        "\\|"@
    } else if c == '\n' {
        "<br>"@
    } else {
        seq![c]
    }
}

/// A table cell's text with `|` escaped and line breaks written as `<br>`.
pub open spec fn escape_cell(s: Seq<char>) -> Seq<char>
    decreases s.len(),
{
    if s.len() == 0 {
        Seq::empty()
    } else {
        escape_cell(s.drop_last()) + escape_char(s.last())
    }
}

/// One GFM table row: the escaped cells between pipes.
pub open spec fn gfm_row(cells: Seq<Seq<char>>) -> Seq<char> {
    "| "@ + join(cells.map_values(|c: Seq<char>| escape_cell(c)), " | "@) + " |"@
}

/// The GFM header separator row for `n` columns.
pub open spec fn gfm_separator(n: nat) -> Seq<char> {
    "| "@ + join(Seq::new(n, |i: int| "---"@), " | "@) + " |"@
}

/// The cell texts of a grid of `String`s.
pub open spec fn grid_view(rows: Seq<Vec<String>>) -> Seq<Seq<Seq<char>>> {
    rows.map_values(|r: Vec<String>| r@.map_values(|c: String| c@))
}

/// A grid rendered as a GFM pipe table, its first row as the header row; empty for no
/// rows.
pub open spec fn spec_render_gfm_table(rows: Seq<Seq<Seq<char>>>) -> Seq<char> {
    if rows.len() == 0 {
        Seq::empty()
    } else {
        join(
            seq![gfm_row(rows[0]), gfm_separator(rows[0].len())] + rows.skip(1).map_values(
                |r: Seq<Seq<char>>| gfm_row(r),
            ),
            "\n"@,
        )
    }
}

/// Appends `cell` escaped for a table.
fn push_escaped(out: &mut String, cell: &str)
    ensures
        final(out)@ == old(out)@ + escape_cell(cell@),
{
    let v = chars_of(cell);
    let ghost start = out@;
    let mut i: usize = 0;
    while i < v.len()
        invariant
            i <= v@.len(),
            v@ == cell@,
            out@ == start + escape_cell(v@.take(i as int)),
        decreases v@.len() - i,
    {
        assert(v@.take(i + 1).drop_last() =~= v@.take(i as int));
        let c = v[i];
        let ghost before = out@;
        if c == '|' {
            push_str(out, "\\|");
        } else if c == '\n' {
            push_str(out, "<br>");
        } else {
            push_char(out, c);
        }
        assert(out@ =~= start + escape_cell(v@.take(i as int)) + escape_char(c));
        i = i + 1;
    }
    assert(v@.take(v@.len() as int) =~= v@);
}

/// One row of a GFM table.
fn render_row(row: &Vec<String>) -> (r: String)
    ensures
        r@ == gfm_row(row@.map_values(|c: String| c@)),
{
    let ghost cells = row@.map_values(|c: String| c@);
    let ghost escaped = cells.map_values(|c: Seq<char>| escape_cell(c));
    let mut out = string_from_str("| ");
    let ghost head = out@;
    let mut i: usize = 0;
    while i < row.len()
        invariant
            i <= row@.len(),
            cells == row@.map_values(|c: String| c@),
            escaped == cells.map_values(|c: Seq<char>| escape_cell(c)),
            head == "| "@,
            out@ == head + join(escaped.take(i as int), " | "@),
        decreases row@.len() - i,
    {
        proof {
            assert(escaped.take(i + 1).drop_last() =~= escaped.take(i as int));
            assert(escaped.take(i + 1).last() == escape_cell(row@[i as int]@));
        }
        if i > 0 {
            push_str(&mut out, " | ");
        } else {
            assert(escaped.take(1) =~= seq![escape_cell(row@[0]@)]);
            assert(escaped.take(0) =~= Seq::<Seq<char>>::empty());
        }
        push_escaped(&mut out, row[i].as_str());
        i = i + 1;
    }
    assert(escaped.take(row@.len() as int) =~= escaped);
    push_str(&mut out, " |");
    out
}

/// The separator row of a GFM table with `n` columns.
fn separator_row(n: usize) -> (r: String)
    ensures
        r@ == gfm_separator(n as nat),
{
    let ghost dashes = Seq::new(n as nat, |i: int| "---"@);
    let mut out = string_from_str("| ");
    let ghost head = out@;
    let mut i: usize = 0;
    while i < n
        invariant
            i <= n,
            dashes == Seq::new(n as nat, |i: int| "---"@),
            head == "| "@,
            out@ == head + join(dashes.take(i as int), " | "@),
        decreases n - i,
    {
        proof {
            assert(dashes.take(i + 1).drop_last() =~= dashes.take(i as int));
        }
        if i > 0 {
            push_str(&mut out, " | ");
        } else {
            assert(dashes.take(1) =~= seq!["---"@]);
            assert(dashes.take(0) =~= Seq::<Seq<char>>::empty());
        }
        push_str(&mut out, "---");
        i = i + 1;
    }
    assert(dashes.take(n as int) =~= dashes);
    push_str(&mut out, " |");
    out
}

/// Renders a rows-by-columns grid as a GFM pipe table. The first row is treated as the
/// header row (ruling-line geometry cannot tell a header row from a body row, so the
/// common case is assumed); cells have `|` escaped and line breaks written as `<br>`.
pub fn render_gfm_table(rows: &[Vec<String>]) -> (r: String)
    ensures
        r@ == spec_render_gfm_table(grid_view(rows@)),
{
    let ghost g = grid_view(rows@);
    if rows.len() == 0 {
        return String::new();
    }
    let mut lines: Vec<String> = Vec::new();
    lines.push(render_row(&rows[0]));
    lines.push(separator_row(rows[0].len()));
    let ghost first_two = seq![gfm_row(g[0]), gfm_separator(g[0].len())];
    assert(g[0] == rows@[0]@.map_values(|c: String| c@));
    let mut i: usize = 1;
    while i < rows.len()
        invariant
            1 <= i <= rows@.len(),
            g == grid_view(rows@),
            first_two == seq![gfm_row(g[0]), gfm_separator(g[0].len())],
            lines@.map_values(|t: String| t@) == first_two + g.skip(1).take(i - 1).map_values(
                |r: Seq<Seq<char>>| gfm_row(r),
            ),
        decreases rows@.len() - i,
    {
        let ghost before = lines@;
        lines.push(render_row(&rows[i]));
        assert(g[i as int] == rows@[i as int]@.map_values(|c: String| c@));
        assert(g.skip(1).take(i as int).map_values(|r: Seq<Seq<char>>| gfm_row(r)) =~= g.skip(1).take(
            i - 1,
        ).map_values(|r: Seq<Seq<char>>| gfm_row(r)).push(gfm_row(g[i as int])));
        assert(lines@.map_values(|t: String| t@) =~= before.map_values(|t: String| t@).push(gfm_row(g[i as int])));
        i = i + 1;
    }
    assert(g.skip(1).take(rows@.len() - 1) =~= g.skip(1));
    join_strings(lines.as_slice(), "\n")
}

/// The number of leading non-whitespace characters of `s`.
pub open spec fn leading_non_ws(s: Seq<char>) -> nat
    decreases s.len(),
{
    if s.len() > 0 && !spec_is_whitespace(s[0]) {
        1 + leading_non_ws(s.drop_first())
    } else {
        0
    }
}

/// The first whitespace-separated token of `text`, if it takes at most three bytes.
pub open spec fn spec_footnote_marker(text: Seq<char>) -> Option<Seq<char>> {
    let t = trim_start(text);
    let token = t.take(leading_non_ws(t) as int);
    if t.len() == 0 || utf8_len(token) > 3 {
        None
    } else {
        Some(token)
    }
}

/// Extracts a footnote block's leading marker (e.g. `"1"` from `"1 See appendix A."`)
/// for use as the footnote's Markdown reference id: the first whitespace-separated
/// token, if it is at most three bytes long.
pub fn footnote_marker(text: &str) -> (r: Option<&str>)
    ensures
        match r {
            Some(m) => spec_footnote_marker(text@) == Some(m@),
            None => spec_footnote_marker(text@) is None,
        },
{
    let v = chars_of(text);
    let k = trim_start_len(&v);
    if k == v.len() {
        return None;
    }
    let ghost t = v@.skip(k as int);
    let mut j: usize = k;
    assert(t.skip(0) =~= t);
    while j < v.len() && !is_whitespace(v[j])
        invariant
            k <= j <= v@.len(),
            t == v@.skip(k as int),
            leading_non_ws(t) == (j - k) + leading_non_ws(t.skip(j - k)),
        decreases v@.len() - j,
    {
        assert(t.skip(j - k).drop_first() =~= t.skip(j - k + 1));
        j = j + 1;
    }
    assert(leading_non_ws(t.skip(j - k)) == 0);
    let ghost token = t.take(j - k);
    assert(token =~= v@.subrange(k as int, j as int));
    // byte length of the token, stopping once it exceeds three
    let mut bytes: usize = 0;
    let mut i: usize = k;
    while i < j && bytes <= 3
        invariant
            k <= i <= j <= v@.len(),
            bytes == utf8_len(v@.subrange(k as int, i as int)),
            bytes <= 7,
        decreases j - i,
    {
        assert(v@.subrange(k as int, i + 1).drop_last() =~= v@.subrange(k as int, i as int));
        bytes = bytes + char_utf8_width(v[i]);
        i = i + 1;
    }
    if bytes > 3 {
        proof {
            assert(token =~= v@.subrange(k as int, j as int));
            assert(v@.subrange(k as int, j as int).take(i - k) =~= v@.subrange(k as int, i as int));
            crate::text::lemma_utf8_len_prefix(token, i - k, j - k);
            assert(token.take(j - k) =~= token);
        }
        return None;
    }
    assert(i == j);
    let m = text.substring_char(k, j);
    Some(m)
}

/// `s`, left-trimmed, with a leading `- `, `* ` or `• ` removed.
pub open spec fn spec_strip_list_marker(s: Seq<char>) -> Seq<char> {
    let t = trim_start(s);
    if has_prefix(t, "- "@) || has_prefix(t, "* "@) || has_prefix(t, "\u{2022} "@) {
        t.skip(2)
    } else {
        t
    }
}

/// Strips a leading bullet marker (`- `, `* ` or `• `, after leading whitespace) so a
/// rendered list item does not double it up with the Markdown `- ` it adds.
pub fn strip_list_marker(line: &str) -> (r: &str)
    ensures
        r@ == spec_strip_list_marker(line@),
{
    let v = chars_of(line);
    let k = trim_start_len(&v);
    proof {
        reveal_strlit("- ");
        reveal_strlit("* ");
        reveal_strlit("\u{2022} ");
    }
    let ghost t = trim_start(line@);
    if v.len() - k >= 2 && (v[k] == '-' || v[k] == '*' || v[k] == '\u{2022}') && v[k + 1] == ' ' {
        assert(t[0] == v@[k as int]);
        assert(t[1] == v@[k + 1]);
        assert("- "@ =~= seq!['-', ' ']);
        assert("* "@ =~= seq!['*', ' ']);
        assert("\u{2022} "@ =~= seq!['\u{2022}', ' ']);
        assert(t.take(2) =~= seq![v@[k as int], ' ']);
        assert(has_prefix(t, "- "@) || has_prefix(t, "* "@) || has_prefix(t, "\u{2022} "@));
        let r = line.substring_char(k + 2, v.len());
        assert(r@ =~= t.skip(2));
        r
    } else {
        proof {
            if has_prefix(t, "- "@) || has_prefix(t, "* "@) || has_prefix(t, "\u{2022} "@) {
                assert(t.take(2)[0] == t[0]);
                assert(t.take(2)[1] == t[1]);
            }
        }
        let r = line.substring_char(k, v.len());
        assert(r@ =~= t);
        r
    }
}

/// One rendered list item.
pub open spec fn item_view(l: Seq<char>) -> Seq<char> {
    "- "@ + spec_strip_list_marker(l)
}

/// The Markdown for a block of text whose region class is `class`.
pub open spec fn spec_render_classified_block(class: Option<RegionClass>, text: Seq<char>) -> Option<Seq<char>> {
    match class {
        Some(RegionClass::PageHeader) => None,
        Some(RegionClass::PageFooter) => None,
        Some(RegionClass::Title) => Some("# "@ + text),
        Some(RegionClass::SectionHeader) => Some("## "@ + text),
        Some(RegionClass::ListItem) => Some(
            join(spec_lines(text).map_values(|l: Seq<char>| "- "@ + spec_strip_list_marker(l)), "\n"@),
        ),
        Some(RegionClass::Caption) => Some("*"@ + text + "*"@),
        Some(RegionClass::Footnote) => {
            let m = match spec_footnote_marker(text) {
                Some(m) => m,
                None => text,
            };
            Some("[^"@ + m + "]: "@ + text)
        },
        _ => Some(text),
    }
}

/// Renders a block's text per its region class: `#`/`##` headings for a title/section
/// header, one `- ` item per line for a list item, an italicized caption, a `[^n]:`
/// footnote definition, and a plain paragraph otherwise; running page headers and
/// footers are dropped (`None`).
pub fn render_classified_block(class: Option<RegionClass>, text: &str) -> (r: Option<String>)
    ensures
        r matches Some(s) ==> spec_render_classified_block(class, text@) == Some(s@),
        r is None ==> spec_render_classified_block(class, text@) is None,
{
    match class {
        Some(RegionClass::PageHeader) | Some(RegionClass::PageFooter) => None,
        Some(RegionClass::Title) => {
            let mut out = string_from_str("# ");
            push_str(&mut out, text);
            Some(out)
        },
        Some(RegionClass::SectionHeader) => {
            let mut out = string_from_str("## ");
            push_str(&mut out, text);
            Some(out)
        },
        Some(RegionClass::ListItem) => {
            let lines = lines_of(&chars_of(text));
            let ghost views = lines@.map_values(|t: Vec<char>| t@);
            let mut items: Vec<String> = Vec::new();
            let mut i: usize = 0;
            while i < lines.len()
                invariant
                    i <= lines@.len(),
                    views == lines@.map_values(|t: Vec<char>| t@),
                    views == spec_lines(text@),
                    items@.map_values(|t: String| t@) == views.take(i as int).map_values(
                        |l: Seq<char>| "- "@ + spec_strip_list_marker(l),
                    ),
                decreases lines@.len() - i,
            {
                let line = crate::text::string_from_chars(&lines[i]);
                let mut item = string_from_str("- ");
                push_str(&mut item, strip_list_marker(line.as_str()));
                let ghost before = items@;
                assert(line@ == views[i as int]);
                assert(item@ == "- "@ + spec_strip_list_marker(views[i as int]));
                items.push(item);
                assert(views.take(i + 1) =~= views.take(i as int).push(views[i as int]));
                assert(items@.map_values(|t: String| t@) =~= before.map_values(|t: String| t@).push(item_view(views[i as int])));
                assert(views.take(i + 1).map_values(|l: Seq<char>| "- "@ + spec_strip_list_marker(l))
                    =~= views.take(i as int).map_values(|l: Seq<char>| "- "@ + spec_strip_list_marker(l)).push(
                    item_view(views[i as int]),
                ));
                assert(items@.map_values(|t: String| t@) =~= views.take(i + 1).map_values(
                    |l: Seq<char>| "- "@ + spec_strip_list_marker(l),
                ));
                i = i + 1;
            }
            assert(views.take(lines@.len() as int) =~= views);
            Some(join_strings(items.as_slice(), "\n"))
        },
        Some(RegionClass::Caption) => {
            let mut out = string_from_str("*");
            push_str(&mut out, text);
            push_str(&mut out, "*");
            Some(out)
        },
        Some(RegionClass::Footnote) => {
            let marker = match footnote_marker(text) {
                Some(m) => m,
                None => text,
            };
            let mut out = string_from_str("[^");
            push_str(&mut out, marker);
            push_str(&mut out, "]: ");
            push_str(&mut out, text);
            Some(out)
        },
        _ => Some(string_from_str(text)),
    }
}

/// The pages that are kept when joining: all of them with page breaks on, only the
/// non-empty ones with page breaks off.
pub open spec fn kept_pages(pages: Seq<Seq<char>>, page_breaks: bool) -> Seq<Seq<char>>
    decreases pages.len(),
{
    if pages.len() == 0 {
        Seq::empty()
    } else {
        let rest = kept_pages(pages.drop_last(), page_breaks);
        if page_breaks || pages.last().len() > 0 {
            rest.push(pages.last())
        } else {
            rest
        }
    }
}

/// The separator between rendered pages.
pub open spec fn page_separator(page_breaks: bool) -> Seq<char> {
    if page_breaks {
        "\n\n---\n\n"@
    } else {
        "\n\n"@
    }
}

/// Joins the Markdown of each page: with page breaks on, every page (even an empty
/// one) is separated by a thematic break `---`; with them off, pages are separated by a
/// blank line and empty pages are dropped, so no run of blank lines appears.
pub fn join_rendered_pages(pages: &[String], options: MarkdownOptions) -> (r: String)
    ensures
        r@ == join(kept_pages(pages@.map_values(|p: String| p@), options.page_breaks), page_separator(options.page_breaks)),
{
    let ghost views = pages@.map_values(|p: String| p@);
    let mut kept: Vec<String> = Vec::new();
    let mut i: usize = 0;
    while i < pages.len()
        invariant
            i <= pages@.len(),
            views == pages@.map_values(|p: String| p@),
            kept@.map_values(|p: String| p@) == kept_pages(views.take(i as int), options.page_breaks),
        decreases pages@.len() - i,
    {
        assert(views.take(i + 1).drop_last() =~= views.take(i as int));
        assert(views.take(i + 1).last() == pages@[i as int]@);
        let page = string_from_str(pages[i].as_str());
        let ghost before = kept@;
        if options.page_breaks || chars_of(pages[i].as_str()).len() > 0 {
            kept.push(page);
            assert(kept@.map_values(|p: String| p@) =~= before.map_values(|p: String| p@).push(pages@[i as int]@));
        }
        i = i + 1;
    }
    assert(views.take(pages@.len() as int) =~= views);
    let sep = if options.page_breaks { "\n\n---\n\n" } else { "\n\n" };
    join_strings(kept.as_slice(), sep)
}

/// With page breaks on every page is kept, even an empty one (its thematic break
/// still marks it); with them off, exactly the non-empty pages are kept, in order.
pub proof fn lemma_kept_pages(pages: Seq<Seq<char>>)
    ensures
        kept_pages(pages, true) == pages,
        kept_pages(pages, false) == pages.filter(|p: Seq<char>| p.len() > 0),
    decreases pages.len(),
{
    let pred = |p: Seq<char>| p.len() > 0;
    reveal(Seq::filter);
    if pages.len() > 0 {
        lemma_kept_pages(pages.drop_last());
        assert(pages.drop_last().push(pages.last()) =~= pages);
        assert(pages.filter(pred) == if pred(pages.last()) {
            pages.drop_last().filter(pred).push(pages.last())
        } else {
            pages.drop_last().filter(pred)
        });
    } else {
        assert(pages =~= Seq::<Seq<char>>::empty());
        assert(pages.filter(pred) == pages);
    }
}

} // verus!
