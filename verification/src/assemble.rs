//! The text-side signals of cross-page paragraph stitching: whether a page's last line
//! reads as a finished sentence, whether the next page's first line reads as a
//! continuation, and how the two lines are joined (undoing end-of-line hyphenation).
use vstd::prelude::*;
use crate::text::{
    lemma_trim_end_of_padded, spec_is_whitespace,
    chars_of, is_alphabetic, is_lowercase, push_chars, push_str, spec_is_alphabetic, spec_is_lowercase,
    string_from_chars, trim_end, trim_end_chars, trim_end_len, trim_start, trim_start_chars,
    trim_start_len,
};

verus! {

/// A character that plausibly closes a sentence, or a quotation or parenthetical that
/// follows one.
pub open spec fn is_sentence_terminator(c: char) -> bool {
    ||| c == '.'
    ||| c == '!'
    ||| c == '?'
    ||| c == ':'
    ||| c == ';'
    ||| c == '"'
    ||| c == '\''
    ||| c == ')'
    ||| c == '\u{bb}'
    ||| c == '\u{201d}'
}

/// `s`, right-trimmed, ends in a sentence terminator.
pub open spec fn spec_ends_with_sentence_final_punct(s: Seq<char>) -> bool {
    let t = trim_end(s);
    t.len() > 0 && is_sentence_terminator(t.last())
}

/// `true` if `text`, right-trimmed, ends in a character that plausibly closes a
/// sentence (or a quotation/parenthetical following one): the guard against stitching
/// a finished paragraph into whatever starts the next page.
pub fn ends_with_sentence_final_punct(text: &str) -> (b: bool)
    ensures
        b == spec_ends_with_sentence_final_punct(text@),
{
    let v = chars_of(text);
    let k = trim_end_len(&v);
    if k == 0 {
        return false;
    }
    let c = v[k - 1];
    assert(trim_end(text@).last() == c);
    c == '.' || c == '!' || c == '?' || c == ':' || c == ';' || c == '"' || c == '\'' || c == ')'
        || c == '\u{bb}' || c == '\u{201d}'
}

/// `s`, left-trimmed, starts with a lowercase letter.
pub open spec fn spec_starts_with_lowercase_letter(s: Seq<char>) -> bool {
    let t = trim_start(s);
    t.len() > 0 && spec_is_lowercase(t[0])
}

/// `true` if `text`, left-trimmed, starts with a lowercase letter: the
/// incomplete-sentence signal that a stitch candidate is a continuation rather than a
/// new heading, running header, or list item.
pub fn starts_with_lowercase_letter(text: &str) -> (b: bool)
    ensures
        b == spec_starts_with_lowercase_letter(text@),
{
    let v = chars_of(text);
    let k = trim_start_len(&v);
    if k == v.len() {
        return false;
    }
    assert(trim_start(text@)[0] == v@[k as int]);
    is_lowercase(v[k])
}

/// The line pair reads as one sentence broken by the page boundary: the earlier line
/// does not end a sentence and the later one starts in lowercase.
pub open spec fn spec_continues_sentence(tail_line: Seq<char>, head_line: Seq<char>) -> bool {
    !spec_ends_with_sentence_final_punct(tail_line) && spec_starts_with_lowercase_letter(head_line)
}

/// The incomplete-sentence test of stitching: `tail_line` (the last line before a page
/// break) does not end in sentence-final punctuation and `head_line` (the first line
/// after it) starts with a lowercase letter.
pub fn continues_sentence(tail_line: &str, head_line: &str) -> (b: bool)
    ensures
        b == spec_continues_sentence(tail_line@, head_line@),
{
    !ends_with_sentence_final_punct(tail_line) && starts_with_lowercase_letter(head_line)
}

/// `s` with one trailing hyphen (`'-'` or U+2010) removed, if it ends in one.
pub open spec fn strip_hyphen(s: Seq<char>) -> Option<Seq<char>> {
    if s.len() > 0 && (s.last() == '-' || s.last() == '\u{2010}') {
        Some(s.drop_last())
    } else {
        None
    }
}

/// The joined text of two lines split by a page break.
pub open spec fn spec_join_with_dehyphenation(tail: Seq<char>, head: Seq<char>) -> Seq<char> {
    let t = trim_end(tail);
    let h = trim_start(head);
    match strip_hyphen(t) {
        Some(stripped) if stripped.len() > 0 && spec_is_alphabetic(stripped.last()) => stripped + h,
        _ => t + " "@ + h,
    }
}

/// Joins `tail_text` and `head_text` (trimmed at the seam) with a single space, unless
/// `tail_text` ends in a hyphen immediately preceded by a letter, in which case the
/// hyphen is dropped and the two are joined directly: end-of-line hyphenation reversal.
pub fn join_with_dehyphenation(tail_text: &str, head_text: &str) -> (r: String)
    ensures
        r@ == spec_join_with_dehyphenation(tail_text@, head_text@),
{
    let tv = chars_of(tail_text);
    let t = trim_end_chars(&tv);
    let hv = chars_of(head_text);
    let h = trim_start_chars(&hv);
    let n = t.len();
    if n > 0 && (t[n - 1] == '-' || t[n - 1] == '\u{2010}') {
        if n > 1 && is_alphabetic(t[n - 2]) {
            let mut stripped = t;
            stripped.pop();
            let mut out = string_from_chars(&stripped);
            push_chars(&mut out, &h);
            assert(stripped@ =~= trim_end(tail_text@).drop_last());
            return out;
        }
    }
    let mut out = string_from_chars(&t);
    push_str(&mut out, " ");
    push_chars(&mut out, &h);
    out
}


/// A text whose last non-whitespace character is `.`, `!`, `?`, `:`, `;`, a closing
/// quote (`"`, `'`, `»`, `”`) or `)` ends a sentence, so it never continues onto the next
/// page, whatever the next page starts with; one that ends in any other character does
/// not end a sentence.
pub proof fn lemma_sentence_end_by_last_character(body: Seq<char>, c: char, trailing: Seq<char>, head: Seq<char>)
    requires
        !spec_is_whitespace(c),
        forall|i: int| 0 <= i < trailing.len() ==> spec_is_whitespace(#[trigger] trailing[i]),
    ensures
        spec_ends_with_sentence_final_punct(body + seq![c] + trailing) <==> (c == '.' || c == '!' || c == '?'
            || c == ':' || c == ';' || c == '"' || c == '\'' || c == ')' || c == '\u{bb}' || c == '\u{201d}'),
        (c == '.' || c == '!' || c == '?' || c == ':' || c == ';' || c == '"' || c == '\'' || c == ')'
            || c == '\u{bb}' || c == '\u{201d}') ==> !spec_continues_sentence(body + seq![c] + trailing, head),
{
    lemma_trim_end_of_padded(body, c, trailing);
    assert((body + seq![c]).last() == c);
}

} // verus!
