//! The text-only cues of region classification: list-item, caption and footnote
//! openers, bold font names, and the normalized form under which running headers and
//! footers are recognized across pages.
use vstd::prelude::*;
use crate::text::{
    lemma_trim_start_of_padded,
    ascii_lower, char_utf8_width, chars_of, contains_seq, find, is_ascii_digit, is_char_boundary_at,
    is_whitespace, leading_digits, leading_digits_len, lemma_utf8_len_prefix, push_char,
    spec_ascii_lower, spec_ascii_lower_seq, spec_is_ascii_digit, spec_is_whitespace, trim_start,
    trim_start_len, utf8_len, utf8_width,
};

verus! {

/// `name`, ASCII-lowercased, contains `bold`, `black` or `heavy`.
pub open spec fn spec_is_bold_font_name(name: Seq<char>) -> bool {
    let l = spec_ascii_lower_seq(name);
    contains_seq(l, "bold"@) || contains_seq(l, "black"@) || contains_seq(l, "heavy"@)
}

/// The characters of `v`, ASCII-lowercased.
fn ascii_lower_chars(v: &Vec<char>) -> (r: Vec<char>)
    ensures
        r@ == spec_ascii_lower_seq(v@),
{
    let mut r: Vec<char> = Vec::new();
    let mut i: usize = 0;
    while i < v.len()
        invariant
            i <= v@.len(),
            r@ == spec_ascii_lower_seq(v@.take(i as int)),
        decreases v@.len() - i,
    {
        r.push(ascii_lower(v[i]));
        assert(spec_ascii_lower_seq(v@.take(i + 1)) =~= spec_ascii_lower_seq(v@.take(i as int)).push(
            spec_ascii_lower(v@[i as int]),
        ));
        i = i + 1;
    }
    assert(v@.take(v@.len() as int) =~= v@);
    r
}

/// Returns `true` if `name` (a PDF font's own name, e.g. `"Helvetica-Bold"` or
/// `"ABCDEF+TimesNewRomanPS-BoldMT"`) looks like a bold weight: a case-insensitive
/// substring match against common weight keywords, the only weight signal a PDF font
/// name carries.
pub fn is_bold_font_name(name: &str) -> (b: bool)
    ensures
        b == spec_is_bold_font_name(name@),
{
    let lower = ascii_lower_chars(&chars_of(name));
    find(&lower, &chars_of("bold")).is_some() || find(&lower, &chars_of("black")).is_some()
        || find(&lower, &chars_of("heavy")).is_some()
}

/// The number of bold font names (see [`spec_is_bold_font_name`]) in `names`.
pub open spec fn count_bold(names: Seq<Seq<char>>) -> nat
    decreases names.len(),
{
    if names.len() == 0 {
        0
    } else {
        count_bold(names.drop_last()) + if spec_is_bold_font_name(names.last()) { 1nat } else { 0nat }
    }
}

/// The number of bold font names among `font_names` and the number of names, the two
/// counts a bold-character fraction is taken from.
pub fn bold_char_counts(font_names: &[&str]) -> (r: (usize, usize))
    ensures
        r.0 == count_bold(font_names@.map_values(|s: &str| s@)),
        r.1 == font_names@.len(),
        r.0 <= r.1,
{
    let ghost names = font_names@.map_values(|s: &str| s@);
    let mut bold: usize = 0;
    let mut i: usize = 0;
    while i < font_names.len()
        invariant
            i <= font_names@.len(),
            names == font_names@.map_values(|s: &str| s@),
            bold == count_bold(names.take(i as int)),
            bold <= i,
        decreases font_names@.len() - i,
    {
        assert(names.take(i + 1).drop_last() =~= names.take(i as int));
        assert(names.take(i + 1).last() == font_names@[i as int]@);
        if is_bold_font_name(font_names[i]) {
            bold = bold + 1;
        }
        i = i + 1;
    }
    assert(names.take(font_names@.len() as int) =~= names);
    (bold, font_names.len())
}

/// Whether at least four fifths of the characters whose font names are `font_names`
/// carry a bold font name (`false` when there are none): the test that makes a block a
/// bold candidate, and a page "set in bold throughout".
pub fn mostly_bold(font_names: &[&str]) -> (b: bool)
    ensures
        b == (font_names@.len() > 0
            && 5 * count_bold(font_names@.map_values(|s: &str| s@)) >= 4 * font_names@.len()),
{
    let (bold, total) = bold_char_counts(font_names);
    total > 0 && 5 * (bold as u128) >= 4 * (total as u128)
}

/// The state of the running-text normalizer after a prefix of its input.
pub struct NormState {
    /// The normalized text so far.
    pub out: Seq<char>,
    /// The last non-whitespace character read was an ASCII digit.
    pub prev_digit: bool,
    /// The last character read was not whitespace.
    pub in_word: bool,
}

/// One step of the normalizer: whitespace ends a word; the first character of a word
/// after the first word opens with one space; a run of ASCII digits (which continues
/// across word boundaries) becomes one `#`; anything else is ASCII-lowercased.
pub open spec fn norm_step(st: NormState, c: char) -> NormState {
    if spec_is_whitespace(c) {
        NormState { out: st.out, prev_digit: st.prev_digit, in_word: false }
    } else {
        let sep = if !st.in_word && st.out.len() > 0 { st.out.push(' ') } else { st.out };
        if spec_is_ascii_digit(c) {
            NormState { out: if st.prev_digit { sep } else { sep.push('#') }, prev_digit: true, in_word: true }
        } else {
            NormState { out: sep.push(spec_ascii_lower(c)), prev_digit: false, in_word: true }
        }
    }
}

/// The normalizer's state after reading all of `s`.
pub open spec fn norm_fold(s: Seq<char>) -> NormState
    decreases s.len(),
{
    if s.len() == 0 {
        NormState { out: Seq::empty(), prev_digit: false, in_word: false }
    } else {
        norm_step(norm_fold(s.drop_last()), s.last())
    }
}

/// Lowercased, whitespace-collapsed, digit-run-masked form of `text`, so e.g.
/// "Page 12" and "Page 13" normalize to the same string and are recognized as the
/// same running header/footer despite the per-page page-number digits.
pub fn normalize_running_text(text: &str) -> (r: String)
    ensures
        r@ == norm_fold(text@).out,
{
    let v = chars_of(text);
    let mut out = String::new();
    let mut nonempty = false;
    let mut prev_digit = false;
    let mut in_word = false;
    let mut i: usize = 0;
    while i < v.len()
        invariant
            i <= v@.len(),
            v@ == text@,
            out@ == norm_fold(v@.take(i as int)).out,
            prev_digit == norm_fold(v@.take(i as int)).prev_digit,
            in_word == norm_fold(v@.take(i as int)).in_word,
            nonempty == (out@.len() > 0),
        decreases v@.len() - i,
    {
        assert(v@.take(i + 1).drop_last() =~= v@.take(i as int));
        let c = v[i];
        if is_whitespace(c) {
            in_word = false;
        } else {
            if !in_word && nonempty {
                push_char(&mut out, ' ');
            }
            if is_ascii_digit(c) {
                if !prev_digit {
                    push_char(&mut out, '#');
                    nonempty = true;
                }
                prev_digit = true;
            } else {
                push_char(&mut out, ascii_lower(c));
                nonempty = true;
                prev_digit = false;
            }
            in_word = true;
        }
        i = i + 1;
    }
    assert(v@.take(v@.len() as int) =~= v@);
    out
}

/// A bullet glyph that opens a list item.
pub open spec fn is_bullet(c: char) -> bool {
    c == '-' || c == '*' || c == '\u{2022}'
}

/// `s`, left-trimmed, opens with a bullet or an ordered marker followed by whitespace.
pub open spec fn spec_is_list_item(s: Seq<char>) -> bool {
    let t = trim_start(s);
    if t.len() > 0 && is_bullet(t[0]) {
        t.len() > 1 && spec_is_whitespace(t[1])
    } else {
        let d = leading_digits(t);
        let rest = t.skip(d as int);
        d > 0 && rest.len() > 1 && (rest[0] == '.' || rest[0] == ')') && spec_is_whitespace(rest[1])
    }
}

/// The left-trimmed characters of `text`.
fn trimmed_chars(text: &str) -> (v: Vec<char>)
    ensures
        v@ == trim_start(text@),
{
    let all = chars_of(text);
    let k = trim_start_len(&all);
    crate::text::sub_chars(&all, k, all.len())
}

/// Returns `true` if `text` looks like a bulleted or ordered list item: starts with a
/// bullet glyph (`-`, `*`, `•`) or an ordered marker (`1.` / `1)`), each followed by
/// whitespace.
pub fn is_list_item(text: &str) -> (b: bool)
    ensures
        b == spec_is_list_item(text@),
{
    let t = trimmed_chars(text);
    assert(t@ =~= trim_start(text@));
    if t.len() > 0 && (t[0] == '-' || t[0] == '*' || t[0] == '\u{2022}') {
        return t.len() > 1 && is_whitespace(t[1]);
    }
    let d = leading_digits_len(&t);
    if d == 0 {
        return false;
    }
    assert(t@.skip(d as int).len() == t@.len() - d);
    if t.len() - d > 1 && (t[d] == '.' || t[d] == ')') {
        assert(t@.skip(d as int)[0] == t@[d as int]);
        assert(t@.skip(d as int)[1] == t@[d + 1]);
        is_whitespace(t[d + 1])
    } else {
        proof {
            if t@.len() - d > 1 {
                assert(t@.skip(d as int)[0] == t@[d as int]);
            }
        }
        false
    }
}

/// Splitting `text` after `prefix`'s byte length does not cut a character in two (or
/// `text` is shorter than `prefix`, so no split happens).
pub open spec fn splits_cleanly(text: Seq<char>, prefix: Seq<char>) -> bool {
    utf8_len(text) < utf8_len(prefix) || is_char_boundary_at(text, utf8_len(prefix))
}

/// What stripping `prefix` from `text`, ignoring ASCII case, leaves: `text` is split
/// after as many bytes as `prefix` has, and the head must equal `prefix` up to ASCII
/// case.
pub open spec fn spec_strip_prefix_ignore_case(text: Seq<char>, prefix: Seq<char>) -> Option<Seq<char>> {
    if utf8_len(text) < utf8_len(prefix) || !is_char_boundary_at(text, utf8_len(prefix)) {
        None
    } else {
        let k = choose|k: int| 0 <= k <= text.len() && utf8_len(text.take(k)) == utf8_len(prefix);
        if spec_ascii_lower_seq(text.take(k)) == spec_ascii_lower_seq(prefix) {
            Some(text.skip(k))
        } else {
            None
        }
    }
}

/// The byte length of `v`'s UTF-8 encoding.
fn utf8_len_chars(v: &Vec<char>) -> (n: usize)
    requires
        utf8_len(v@) <= usize::MAX,
    ensures
        n == utf8_len(v@),
{
    let mut n: usize = 0;
    let mut i: usize = 0;
    while i < v.len()
        invariant
            i <= v@.len(),
            n == utf8_len(v@.take(i as int)),
            utf8_len(v@) <= usize::MAX,
        decreases v@.len() - i,
    {
        proof {
            assert(v@.take(i + 1).drop_last() =~= v@.take(i as int));
            assert(v@.take(v@.len() as int) =~= v@);
            lemma_utf8_len_prefix(v@, i + 1, v@.len() as int);
        }
        n = n + char_utf8_width(v[i]);
        i = i + 1;
    }
    assert(v@.take(v@.len() as int) =~= v@);
    n
}

/// `a` and `b` are equal up to ASCII case.
fn eq_ignore_ascii_case_chars(a: &Vec<char>, b: &Vec<char>) -> (r: bool)
    ensures
        r == (spec_ascii_lower_seq(a@) == spec_ascii_lower_seq(b@)),
{
    if a.len() != b.len() {
        assert(spec_ascii_lower_seq(a@).len() != spec_ascii_lower_seq(b@).len());
        return false;
    }
    let mut i: usize = 0;
    while i < a.len()
        invariant
            a@.len() == b@.len(),
            i <= a@.len(),
            forall|j: int| 0 <= j < i ==> spec_ascii_lower(a@[j]) == spec_ascii_lower(b@[j]),
        decreases a@.len() - i,
    {
        if ascii_lower(a[i]) != ascii_lower(b[i]) {
            assert(spec_ascii_lower_seq(a@)[i as int] != spec_ascii_lower_seq(b@)[i as int]);
            return false;
        }
        i = i + 1;
    }
    assert(spec_ascii_lower_seq(a@) =~= spec_ascii_lower_seq(b@));
    true
}

/// `prefix` stripped from the front of `t` ignoring ASCII case, on character vectors:
/// the number of characters of `t` the prefix covers, if it matches.
fn strip_prefix_len(t: &Vec<char>, prefix: &Vec<char>) -> (r: Option<usize>)
    requires
        utf8_len(prefix@) <= usize::MAX,
        splits_cleanly(t@, prefix@),
    ensures
        match r {
            Some(k) => k <= t@.len() && spec_strip_prefix_ignore_case(t@, prefix@) == Some(t@.skip(k as int)),
            None => spec_strip_prefix_ignore_case(t@, prefix@) is None,
        },
{
    let n = utf8_len_chars(prefix);
    let mut acc: usize = 0;
    let mut k: usize = 0;
    while k < t.len() && acc < n
        invariant
            k <= t@.len(),
            acc == utf8_len(t@.take(k as int)),
            acc <= n,
            n == utf8_len(prefix@),
            splits_cleanly(t@, prefix@),
        decreases t@.len() - k,
    {
        let w = char_utf8_width(t[k]);
        proof {
            assert(t@.take(k + 1).drop_last() =~= t@.take(k as int));
        }
        if w > n - acc {
            proof {
                assert(t@.take(t@.len() as int) =~= t@);
                lemma_utf8_len_prefix(t@, k + 1, t@.len() as int);
                assert forall|j: int| 0 <= j <= t@.len() implies utf8_len(#[trigger] t@.take(j)) != n by {
                    if j <= k {
                        lemma_utf8_len_prefix(t@, j, k as int);
                    } else {
                        lemma_utf8_len_prefix(t@, k + 1, j);
                    }
                }
                assert(false);
            }
            return None;
        }
        acc = acc + w;
        k = k + 1;
    }
    if acc < n {
        assert(t@.take(t@.len() as int) =~= t@);
        return None;
    }
    proof {
        assert(t@.take(t@.len() as int) =~= t@);
        lemma_utf8_len_prefix(t@, k as int, t@.len() as int);
        assert(utf8_len(t@.take(k as int)) == n);
        assert(is_char_boundary_at(t@, n as nat));
        let c = choose|j: int| 0 <= j <= t@.len() && utf8_len(t@.take(j)) == n;
        if c < k {
            lemma_utf8_len_prefix(t@, c, k as int);
        } else if c > k {
            lemma_utf8_len_prefix(t@, k as int, c);
        }
        assert(c == k);
    }
    let head = crate::text::sub_chars(t, 0, k);
    assert(head@ =~= t@.take(k as int));
    if eq_ignore_ascii_case_chars(&head, prefix) {
        Some(k)
    } else {
        None
    }
}

/// `text` with `prefix` removed from its front, compared ignoring ASCII case; `text` is
/// split after as many bytes as `prefix` has. `None` if `text` is shorter or the head
/// does not match.
pub fn strip_prefix_ignore_case<'a>(text: &'a str, prefix: &str) -> (r: Option<&'a str>)
    requires
        utf8_len(prefix@) <= usize::MAX,
        splits_cleanly(text@, prefix@),
    ensures
        match r {
            Some(rest) => spec_strip_prefix_ignore_case(text@, prefix@) == Some(rest@),
            None => spec_strip_prefix_ignore_case(text@, prefix@) is None,
        },
{
    let t = chars_of(text);
    let p = chars_of(prefix);
    match strip_prefix_len(&t, &p) {
        Some(k) => {
            let rest = text.substring_char(k, t.len());
            assert(rest@ =~= text@.skip(k as int));
            Some(rest)
        },
        None => None,
    }
}

/// After stripping `prefix` (ignoring ASCII case), the left-trimmed rest starts with an
/// ASCII digit.
pub open spec fn caption_after(t: Seq<char>, prefix: Seq<char>) -> bool {
    match spec_strip_prefix_ignore_case(t, prefix) {
        Some(rest) => trim_start(rest).len() > 0 && spec_is_ascii_digit(trim_start(rest)[0]),
        None => false,
    }
}

/// `s`, left-trimmed, opens with `Figure`, `Table` or `Fig.` (any ASCII case) and a
/// number.
pub open spec fn spec_is_caption(s: Seq<char>) -> bool {
    let t = trim_start(s);
    caption_after(t, "Figure"@) || caption_after(t, "Table"@) || caption_after(t, "Fig."@)
}

/// The caption test never splits a character: each prefix tried (in order, until one
/// matches) splits the trimmed text cleanly.
pub open spec fn caption_test_splits_cleanly(s: Seq<char>) -> bool {
    let t = trim_start(s);
    &&& splits_cleanly(t, "Figure"@)
    &&& (caption_after(t, "Figure"@) || splits_cleanly(t, "Table"@))
    &&& (caption_after(t, "Figure"@) || caption_after(t, "Table"@) || splits_cleanly(t, "Fig."@))
}

/// Returns `true` if `text` looks like a figure/table caption: starts with `Figure`,
/// `Table` or `Fig.` followed by a number (case-insensitive).
pub fn is_caption(text: &str) -> (b: bool)
    requires
        caption_test_splits_cleanly(text@),
    ensures
        b == spec_is_caption(text@),
{
    let t = trimmed_chars(text);
    proof {
        reveal_strlit("Figure");
        reveal_strlit("Table");
        reveal_strlit("Fig.");
        crate::text::lemma_utf8_len_ascii("Figure"@);
        crate::text::lemma_utf8_len_ascii("Table"@);
        crate::text::lemma_utf8_len_ascii("Fig."@);
    }
    let prefixes = [chars_of("Figure"), chars_of("Table"), chars_of("Fig.")];
    let mut i: usize = 0;
    while i < 3
        invariant
            i <= 3,
            t@ == trim_start(text@),
            prefixes@.len() == 3,
            prefixes@[0]@ == "Figure"@,
            prefixes@[1]@ == "Table"@,
            prefixes@[2]@ == "Fig."@,
            utf8_len("Figure"@) == 6,
            utf8_len("Table"@) == 5,
            utf8_len("Fig."@) == 4,
            caption_test_splits_cleanly(text@),
            forall|j: int| 0 <= j < i ==> !caption_after(t@, (#[trigger] prefixes@[j])@),
        decreases 3 - i,
    {
        if let Some(k) = strip_prefix_len(&t, &prefixes[i]) {
            let rest = crate::text::sub_chars(&t, k, t.len());
            assert(rest@ =~= t@.skip(k as int));
            let j = trim_start_len(&rest);
            if j < rest.len() && is_ascii_digit(rest[j]) {
                assert(trim_start(rest@)[0] == rest@[j as int]);
                return true;
            }
        }
        i = i + 1;
    }
    false
}

/// A conventional footnote symbol: dagger, double dagger, section or pilcrow.
pub open spec fn is_footnote_symbol(c: char) -> bool {
    c == '\u{2020}' || c == '\u{2021}' || c == '\u{a7}' || c == '\u{b6}'
}

/// `s`, left-trimmed, opens with a footnote marker.
pub open spec fn spec_starts_with_footnote_marker(s: Seq<char>) -> bool {
    let t = trim_start(s);
    if t.len() > 0 && (is_footnote_symbol(t[0]) || (t[0] == '*' && !(t.len() > 1 && spec_is_whitespace(t[1])))
        || ('\u{2070}' <= t[0] && t[0] <= '\u{2079}')) {
        true
    } else {
        let d = leading_digits(t);
        let rest = t.skip(d as int);
        if d == 0 || d > 3 || rest.len() == 0 {
            false
        } else if rest[0] == '.' || rest[0] == ')' {
            rest.len() > 1 && spec_is_whitespace(rest[1])
        } else {
            spec_is_whitespace(rest[0])
        }
    }
}

/// Returns `true` if `text` opens with a recognized footnote marker: a short bare digit
/// run (at most three digits, optionally followed by `.` or `)`, then whitespace), a
/// conventional footnote symbol (`*` not followed by whitespace, `†`, `‡`, `§`, `¶`), or a
/// superscript digit (U+2070 to U+2079). Bullet glyphs are deliberately not markers.
pub fn starts_with_footnote_marker(text: &str) -> (b: bool)
    ensures
        b == spec_starts_with_footnote_marker(text@),
{
    let t = trimmed_chars(text);
    if t.len() > 0 {
        let first = t[0];
        if first == '\u{2020}' || first == '\u{2021}' || first == '\u{a7}' || first == '\u{b6}' {
            return true;
        }
        if first == '*' && !(t.len() > 1 && is_whitespace(t[1])) {
            return true;
        }
        if '\u{2070}' <= first && first <= '\u{2079}' {
            return true;
        }
    }
    let d = leading_digits_len(&t);
    if d == 0 || d > 3 || d == t.len() {
        return false;
    }
    assert(t@.skip(d as int)[0] == t@[d as int]);
    let c = t[d];
    if c == '.' || c == ')' {
        if t.len() - d > 1 {
            assert(t@.skip(d as int)[1] == t@[d + 1]);
            is_whitespace(t[d + 1])
        } else {
            false
        }
    } else {
        is_whitespace(c)
    }
}


/// Whether `t` splits cleanly after `prefix`'s byte length (exec form of
/// [`splits_cleanly`]).
fn splits_cleanly_chars(t: &Vec<char>, prefix: &Vec<char>) -> (b: bool)
    requires
        utf8_len(prefix@) <= usize::MAX,
    ensures
        b == splits_cleanly(t@, prefix@),
{
    let n = utf8_len_chars(prefix);
    let mut acc: usize = 0;
    let mut k: usize = 0;
    while k < t.len() && acc < n
        invariant
            k <= t@.len(),
            acc == utf8_len(t@.take(k as int)),
            acc <= n,
            n == utf8_len(prefix@),
        decreases t@.len() - k,
    {
        let w = char_utf8_width(t[k]);
        proof {
            assert(t@.take(k + 1).drop_last() =~= t@.take(k as int));
        }
        if w > n - acc {
            proof {
                assert(t@.take(t@.len() as int) =~= t@);
                lemma_utf8_len_prefix(t@, k + 1, t@.len() as int);
                assert forall|j: int| 0 <= j <= t@.len() implies utf8_len(#[trigger] t@.take(j)) != n by {
                    if j <= k {
                        lemma_utf8_len_prefix(t@, j, k as int);
                    } else {
                        lemma_utf8_len_prefix(t@, k + 1, j);
                    }
                }
            }
            return false;
        }
        acc = acc + w;
        k = k + 1;
    }
    if acc < n {
        assert(t@.take(t@.len() as int) =~= t@);
        return true;
    }
    assert(utf8_len(t@.take(k as int)) == n);
    true
}

/// Whether the caption test can run on `text` without splitting a character (see
/// [`caption_test_splits_cleanly`]); callers check this before [`is_caption`].
pub fn caption_test_is_safe(text: &str) -> (b: bool)
    ensures
        b == caption_test_splits_cleanly(text@),
{
    let t = trimmed_chars(text);
    proof {
        reveal_strlit("Figure");
        reveal_strlit("Table");
        reveal_strlit("Fig.");
        crate::text::lemma_utf8_len_ascii("Figure"@);
        crate::text::lemma_utf8_len_ascii("Table"@);
        crate::text::lemma_utf8_len_ascii("Fig."@);
    }
    let figure = chars_of("Figure");
    let table = chars_of("Table");
    let fig = chars_of("Fig.");
    if !splits_cleanly_chars(&t, &figure) {
        return false;
    }
    if caption_after_exec(&t, &figure) {
        return true;
    }
    if !splits_cleanly_chars(&t, &table) {
        return false;
    }
    if caption_after_exec(&t, &table) {
        return true;
    }
    splits_cleanly_chars(&t, &fig)
}

/// Exec form of [`caption_after`].
fn caption_after_exec(t: &Vec<char>, prefix: &Vec<char>) -> (b: bool)
    requires
        utf8_len(prefix@) <= usize::MAX,
        splits_cleanly(t@, prefix@),
    ensures
        b == caption_after(t@, prefix@),
{
    match strip_prefix_len(t, prefix) {
        Some(k) => {
            let rest = crate::text::sub_chars(t, k, t.len());
            assert(rest@ =~= t@.skip(k as int));
            let j = trim_start_len(&rest);
            if j < rest.len() {
                assert(trim_start(rest@)[0] == rest@[j as int]);
                is_ascii_digit(rest[j])
            } else {
                false
            }
        },
        None => false,
    }
}


/// A text whose first non-whitespace character is one of the footnote symbols `†`,
/// `‡`, `§` or `¶` opens with a footnote marker, whatever follows it.
pub proof fn lemma_footnote_symbol_opens_marker(leading: Seq<char>, c: char, rest: Seq<char>)
    requires
        forall|i: int| 0 <= i < leading.len() ==> spec_is_whitespace(#[trigger] leading[i]),
        c == '\u{2020}' || c == '\u{2021}' || c == '\u{a7}' || c == '\u{b6}',
    ensures
        spec_starts_with_footnote_marker(leading + seq![c] + rest),
{
    lemma_trim_start_of_padded(leading, c, rest);
    assert((seq![c] + rest)[0] == c);
}

} // verus!
