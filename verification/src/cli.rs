//! Command-line argument parsing for the `pdfspatial` binary: a hand-rolled,
//! left-to-right flag grammar accepting both `--flag VALUE` and `--flag=VALUE`.
use vstd::prelude::*;
use crate::markdown::MarkdownOptions;
use crate::text::{
    chars_eq_str, chars_of, debug_str, find_char, first_char_at, has_prefix,
    lemma_first_char_unique, push_str, spec_debug_str, spec_is_ascii_digit, starts_with,
    string_from_chars, string_from_str, sub_chars,
};

verus! {

/// What [`parse`] decided the process should do.
#[derive(Debug)]
pub enum ParseOutcome {
    /// Print the usage text and exit successfully (`--help`, or no arguments at all).
    Help,
    /// Print the crate version and exit successfully.
    Version,
    /// Convert the given inputs under the given configuration.
    Run(Config),
}

/// A fully validated set of options for one `pdfspatial` invocation.
#[derive(Debug, Clone, PartialEq)]
pub struct Config {
    /// Files and/or directories given on the command line, in the order given.
    pub inputs: Vec<String>,
    /// `--out DIR`. `None` means "write the single input's Markdown to stdout".
    pub out: Option<String>,
    /// The options derived from `--no-page-breaks` / `--no-image-placeholders`.
    pub markdown: MarkdownOptions,
    /// `--jobs N`. `None` lets the thread pool pick its own default.
    pub jobs: Option<usize>,
    /// `--quiet`: suppress per-file progress lines.
    pub quiet: bool,
}

/// The parser's accumulated settings, as plain values.
pub struct ArgsState {
    pub inputs: Seq<Seq<char>>,
    pub out: Option<Seq<char>>,
    pub page_breaks: bool,
    pub image_placeholders: bool,
    pub jobs: Option<usize>,
    pub quiet: bool,
}

/// The meaning of a parse result, as plain values.
pub enum ParseView {
    Help,
    Version,
    Run(ArgsState),
    Failed(Seq<char>),
}

/// The settings before any argument has been read.
pub open spec fn initial_state() -> ArgsState {
    ArgsState {
        inputs: Seq::empty(),
        out: None,
        page_breaks: true,
        image_placeholders: true,
        jobs: None,
        quiet: false,
    }
}

/// The position of the first `=` in `arg`, if any.
pub open spec fn eq_pos(arg: Seq<char>) -> Option<int> {
    if exists|k: int| first_char_at(arg, '=', k) {
        Some(choose|k: int| first_char_at(arg, '=', k))
    } else {
        None
    }
}

/// An argument split into its flag part and its inline `=VALUE`, if it has one: only
/// `--name=value` splits; anything else is its own flag with no inline value.
pub open spec fn split_flag(arg: Seq<char>) -> (Seq<char>, Option<Seq<char>>) {
    match eq_pos(arg) {
        Some(k) => if has_prefix(arg.take(k), "--"@) {
            (arg.take(k), Some(arg.skip(k + 1)))
        } else {
            (arg, None)
        },
        None => (arg, None),
    }
}

/// The value of a run of decimal digits.
pub open spec fn digits_value(s: Seq<char>) -> nat
    decreases s.len(),
{
    if s.len() == 0 {
        0
    } else {
        digits_value(s.drop_last()) * 10 + ((s.last() as nat) - ('0' as nat)) as nat
    }
}

/// `s` is made only of ASCII digits.
pub open spec fn all_digits(s: Seq<char>) -> bool {
    forall|i: int| 0 <= i < s.len() ==> spec_is_ascii_digit(#[trigger] s[i])
}

/// What `str::parse::<usize>` accepts: an optional leading `+`, then one or more ASCII
/// digits whose value fits in `usize`.
pub open spec fn spec_parse_usize(s: Seq<char>) -> Option<usize> {
    let d = if s.len() > 0 && s[0] == '+' { s.drop_first() } else { s };
    if d.len() > 0 && all_digits(d) && digits_value(d) <= usize::MAX {
        Some(digits_value(d) as usize)
    } else {
        None
    }
}

/// The thread count a `--jobs` value asks for, or the message rejecting it.
pub open spec fn jobs_value(v: Seq<char>) -> Result<usize, Seq<char>> {
    match spec_parse_usize(v) {
        None => Err("--jobs value must be a positive integer, got "@ + spec_debug_str(v)),
        Some(n) => if n == 0 {
            Err("--jobs value must be at least 1"@)
        } else {
            Ok(n)
        },
    }
}

/// Parses the remaining arguments `rest` on top of the settings `st`.
pub open spec fn parse_rest(rest: Seq<Seq<char>>, st: ArgsState) -> ParseView
    decreases rest.len(),
{
    if rest.len() == 0 {
        if st.inputs.len() == 0 {
            ParseView::Failed("no input PDFs or directories given"@)
        } else {
            ParseView::Run(st)
        }
    } else {
        let arg = rest[0];
        let flag = split_flag(arg).0;
        let inline = split_flag(arg).1;
        if flag == "--help"@ || flag == "-h"@ {
            ParseView::Help
        } else if flag == "--version"@ || flag == "-V"@ {
            ParseView::Version
        } else if flag == "--out"@ {
            match inline {
                Some(v) => parse_rest(rest.drop_first(), ArgsState { out: Some(v), ..st }),
                None => if rest.len() >= 2 {
                    parse_rest(rest.skip(2), ArgsState { out: Some(rest[1]), ..st })
                } else {
                    ParseView::Failed("--out requires a value"@)
                },
            }
        } else if flag == "--no-page-breaks"@ {
            parse_rest(rest.drop_first(), ArgsState { page_breaks: false, ..st })
        } else if flag == "--no-image-placeholders"@ {
            parse_rest(rest.drop_first(), ArgsState { image_placeholders: false, ..st })
        } else if flag == "--jobs"@ {
            match inline {
                Some(v) => match jobs_value(v) {
                    Ok(n) => parse_rest(rest.drop_first(), ArgsState { jobs: Some(n), ..st }),
                    Err(m) => ParseView::Failed(m),
                },
                None => if rest.len() >= 2 {
                    match jobs_value(rest[1]) {
                        Ok(n) => parse_rest(rest.skip(2), ArgsState { jobs: Some(n), ..st }),
                        Err(m) => ParseView::Failed(m),
                    }
                } else {
                    ParseView::Failed("--jobs requires a value"@)
                },
            }
        } else if flag == "--quiet"@ {
            parse_rest(rest.drop_first(), ArgsState { quiet: true, ..st })
        } else if flag.len() > 0 && flag[0] == '-' && flag != "-"@ {
            ParseView::Failed("unknown flag: "@ + flag)
        } else {
            parse_rest(rest.drop_first(), ArgsState { inputs: st.inputs.push(arg), ..st })
        }
    }
}

/// The meaning of an argument list (already stripped of the program name).
pub open spec fn spec_parse(args: Seq<Seq<char>>) -> ParseView {
    if args.len() == 0 {
        ParseView::Help
    } else {
        parse_rest(args, initial_state())
    }
}

/// The plain-value meaning of a [`parse`] result.
pub open spec fn outcome_view(r: Result<ParseOutcome, String>) -> ParseView {
    match r {
        Ok(ParseOutcome::Help) => ParseView::Help,
        Ok(ParseOutcome::Version) => ParseView::Version,
        Ok(ParseOutcome::Run(c)) => ParseView::Run(
            ArgsState {
                inputs: c.inputs@.map_values(|s: String| s@),
                out: match c.out {
                    Some(o) => Some(o@),
                    None => None,
                },
                page_breaks: c.markdown.page_breaks,
                image_placeholders: c.markdown.image_placeholders,
                jobs: c.jobs,
                quiet: c.quiet,
            },
        ),
        Err(e) => ParseView::Failed(e@),
    }
}

/// The settings held by the parser's local variables.
pub open spec fn state_of(
    inputs: Seq<String>,
    out: Option<String>,
    page_breaks: bool,
    image_placeholders: bool,
    jobs: Option<usize>,
    quiet: bool,
) -> ArgsState {
    ArgsState {
        inputs: inputs.map_values(|s: String| s@),
        out: match out {
            Some(o) => Some(o@),
            None => None,
        },
        page_breaks,
        image_placeholders,
        jobs,
        quiet,
    }
}

/// A run of digits is worth at least as much as any of its prefixes.
proof fn lemma_digits_value_prefix(s: Seq<char>, j: int)
    requires
        all_digits(s),
        0 <= j <= s.len(),
    ensures
        digits_value(s) >= digits_value(s.take(j)),
    decreases s.len(),
{
    if j < s.len() {
        assert(all_digits(s.drop_last())) by {
            assert forall|i: int| 0 <= i < s.drop_last().len() implies spec_is_ascii_digit(
                #[trigger] s.drop_last()[i],
            ) by {
                assert(s.drop_last()[i] == s[i]);
            }
        }
        lemma_digits_value_prefix(s.drop_last(), j);
        assert(s.drop_last().take(j) =~= s.take(j));
    } else {
        assert(s.take(j) =~= s);
    }
}

/// `str::parse::<usize>` on the characters `s`.
pub fn parse_usize_chars(s: &Vec<char>) -> (r: Option<usize>)
    ensures
        r == spec_parse_usize(s@),
{
    let start: usize = if s.len() > 0 && s[0] == '+' { 1 } else { 0 };
    let ghost d = if s@.len() > 0 && s@[0] == '+' { s@.drop_first() } else { s@ };
    assert(d =~= s@.skip(start as int));
    if start >= s.len() {
        return None;
    }
    let mut value: usize = 0;
    let mut i: usize = start;
    assert(s@.subrange(start as int, start as int) =~= Seq::<char>::empty());
    while i < s.len()
        invariant
            start <= i <= s.len(),
            start < s.len(),
            d == s@.skip(start as int),
            d == (if s@.len() > 0 && s@[0] == '+' { s@.drop_first() } else { s@ }),
            value == digits_value(s@.subrange(start as int, i as int)),
            all_digits(s@.subrange(start as int, i as int)),
        decreases s.len() - i,
    {
        let c = s[i];
        let ghost pre = s@.subrange(start as int, i as int);
        let ghost next = s@.subrange(start as int, i + 1);
        assert(next.drop_last() =~= pre);
        assert(next.last() == c);
        assert(d[i - start] == c);
        if !('0' <= c && c <= '9') {
            assert(!spec_is_ascii_digit(d[i - start]));
            assert(!all_digits(d));
            assert(spec_parse_usize(s@) is None);
            return None;
        }
        assert(all_digits(next)) by {
            assert forall|k: int| 0 <= k < next.len() implies spec_is_ascii_digit(
                #[trigger] next[k],
            ) by {
                if k < pre.len() {
                    assert(next[k] == pre[k]);
                }
            }
        }
        let digit: usize = ((c as u32) - 48) as usize;
        assert(digits_value(next) == digits_value(pre) * 10 + digit);
        proof {
            assert(d.take(i + 1 - start) =~= next);
        }
        match value.checked_mul(10) {
            None => {
                proof {
                    assert(value * 10 > usize::MAX);
                    assert(digits_value(next) > usize::MAX);
                    if all_digits(d) {
                        lemma_digits_value_prefix(d, i + 1 - start);
                        assert(digits_value(d) > usize::MAX);
                    }
                }
                return None;
            },
            Some(v10) => match v10.checked_add(digit) {
                None => {
                    proof {
                        if all_digits(d) {
                            lemma_digits_value_prefix(d, i + 1 - start);
                        }
                    }
                    return None;
                },
                Some(v) => {
                    value = v;
                },
            },
        }
        i = i + 1;
    }
    assert(s@.subrange(start as int, s.len() as int) =~= d);
    Some(value)
}

/// An argument's flag part and inline value (see [`split_flag`]).
fn split_flag_chars(arg: &Vec<char>) -> (r: (Vec<char>, Option<Vec<char>>))
    ensures
        r.0@ == split_flag(arg@).0,
        match r.1 {
            Some(v) => split_flag(arg@).1 == Some(v@),
            None => split_flag(arg@).1 is None,
        },
{
    match find_char(arg, '=') {
        Some(k) => {
            proof {
                let c = choose|c: int| first_char_at(arg@, '=', c);
                lemma_first_char_unique(arg@, '=', k as int, c);
                assert(eq_pos(arg@) == Some(k as int));
            }
            let head = sub_chars(arg, 0, k);
            assert(head@ =~= arg@.take(k as int));
            let dash = chars_of("--");
            if starts_with(&head, &dash) {
                let tail = sub_chars(arg, k + 1, arg.len());
                assert(tail@ =~= arg@.skip(k + 1));
                (head, Some(tail))
            } else {
                let whole = sub_chars(arg, 0, arg.len());
                assert(whole@ =~= arg@);
                (whole, None)
            }
        },
        None => {
            assert(!exists|k: int| first_char_at(arg@, '=', k));
            let whole = sub_chars(arg, 0, arg.len());
            assert(whole@ =~= arg@);
            (whole, None)
        },
    }
}

/// The thread count a `--jobs` value asks for, or the message rejecting it.
fn jobs_value_exec(v: &Vec<char>) -> (r: Result<usize, String>)
    ensures
        match r {
            Ok(n) => jobs_value(v@) == Ok::<usize, Seq<char>>(n),
            Err(m) => jobs_value(v@) == Err::<usize, Seq<char>>(m@),
        },
{
    match parse_usize_chars(v) {
        None => {
            let mut m = string_from_str("--jobs value must be a positive integer, got ");
            let text = string_from_chars(v);
            let shown = debug_str(text.as_str());
            push_str(&mut m, shown.as_str());
            Err(m)
        },
        Some(n) => if n == 0 {
            Err(string_from_str("--jobs value must be at least 1"))
        } else {
            Ok(n)
        },
    }
}

/// Parses `args` (already stripped of the program name).
///
/// Returns `Err(message)` for any malformed flag or missing value; the caller prints
/// `message` (and the usage text) and exits with a failure code.
pub fn parse(args: &[String]) -> (r: Result<ParseOutcome, String>)
    ensures
        outcome_view(r) == spec_parse(args@.map_values(|s: String| s@)),
{
    let ghost all = args@.map_values(|s: String| s@);
    if args.len() == 0 {
        return Ok(ParseOutcome::Help);
    }
    let mut inputs: Vec<String> = Vec::new();
    let mut out: Option<String> = None;
    let mut page_breaks = true;
    let mut image_placeholders = true;
    let mut jobs: Option<usize> = None;
    let mut quiet = false;
    let mut i: usize = 0;
    assert(all.skip(0) =~= all);
    assert(inputs@.map_values(|s: String| s@) =~= Seq::<Seq<char>>::empty());
    while i < args.len()
        invariant
            i <= args@.len(),
            args@.len() > 0,
            all == args@.map_values(|s: String| s@),
            spec_parse(all) == parse_rest(
                all.skip(i as int),
                state_of(inputs@, out, page_breaks, image_placeholders, jobs, quiet),
            ),
        decreases args.len() - i,
    {
        let ghost rest = all.skip(i as int);
        let ghost st = state_of(inputs@, out, page_breaks, image_placeholders, jobs, quiet);
        assert(rest[0] == args@[i as int]@);
        assert(rest.drop_first() =~= all.skip(i + 1));
        let arg = chars_of(args[i].as_str());
        let (flag, inline) = split_flag_chars(&arg);
        if chars_eq_str(&flag, "--help") || chars_eq_str(&flag, "-h") {
            return Ok(ParseOutcome::Help);
        } else if chars_eq_str(&flag, "--version") || chars_eq_str(&flag, "-V") {
            return Ok(ParseOutcome::Version);
        } else if chars_eq_str(&flag, "--out") {
            match inline {
                Some(v) => {
                    out = Some(string_from_chars(&v));
                    i = i + 1;
                },
                None => {
                    if i + 1 < args.len() {
                        assert(rest[1] == args@[i + 1]@);
                        assert(rest.skip(2) =~= all.skip(i + 2));
                        out = Some(args[i + 1].clone());
                        i = i + 2;
                    } else {
                        return Err(string_from_str("--out requires a value"));
                    }
                },
            }
        } else if chars_eq_str(&flag, "--no-page-breaks") {
            page_breaks = false;
            i = i + 1;
        } else if chars_eq_str(&flag, "--no-image-placeholders") {
            image_placeholders = false;
            i = i + 1;
        } else if chars_eq_str(&flag, "--jobs") {
            match inline {
                Some(v) => {
                    match jobs_value_exec(&v) {
                        Ok(n) => {
                            jobs = Some(n);
                            i = i + 1;
                        },
                        Err(m) => {
                            return Err(m);
                        },
                    }
                },
                None => {
                    if i + 1 < args.len() {
                        assert(rest[1] == args@[i + 1]@);
                        assert(rest.skip(2) =~= all.skip(i + 2));
                        let value = chars_of(args[i + 1].as_str());
                        match jobs_value_exec(&value) {
                            Ok(n) => {
                                jobs = Some(n);
                                i = i + 2;
                            },
                            Err(m) => {
                                return Err(m);
                            },
                        }
                    } else {
                        return Err(string_from_str("--jobs requires a value"));
                    }
                },
            }
        } else if chars_eq_str(&flag, "--quiet") {
            quiet = true;
            i = i + 1;
        } else if flag.len() > 0 && flag[0] == '-' && !chars_eq_str(&flag, "-") {
            let mut m = string_from_str("unknown flag: ");
            let shown = string_from_chars(&flag);
            push_str(&mut m, shown.as_str());
            return Err(m);
        } else {
            let ghost before = inputs@;
            inputs.push(args[i].clone());
            assert(inputs@.map_values(|s: String| s@) =~= before.map_values(|s: String| s@).push(
                args@[i as int]@,
            ));
            i = i + 1;
        }
    }
    assert(all.skip(i as int).len() == 0);
    if inputs.len() == 0 {
        return Err(string_from_str("no input PDFs or directories given"));
    }
    Ok(
        ParseOutcome::Run(
            Config {
                inputs,
                out,
                markdown: MarkdownOptions { page_breaks, image_placeholders },
                jobs,
                quiet,
            },
        ),
    )
}


/// An argument without `=` splits into itself and no inline value.
proof fn lemma_split_plain(arg: Seq<char>)
    requires
        forall|i: int| 0 <= i < arg.len() ==> arg[i] != '=',
    ensures
        split_flag(arg) == (arg, None::<Seq<char>>),
{
}

/// `flag=value`, for a `--` flag without `=`, splits into the flag and the value.
proof fn lemma_split_inline(flag: Seq<char>, value: Seq<char>)
    requires
        has_prefix(flag, "--"@),
        forall|i: int| 0 <= i < flag.len() ==> flag[i] != '=',
    ensures
        split_flag(flag + "="@ + value) == (flag, Some(value)),
{
    let arg = flag + "="@ + value;
    assert("="@ =~= seq!['=']) by {
        reveal_strlit("=");
    }
    assert(first_char_at(arg, '=', flag.len() as int));
    assert forall|k: int| first_char_at(arg, '=', k) implies k == flag.len() by {
        lemma_first_char_unique(arg, '=', k, flag.len() as int);
    }
    assert(arg.take(flag.len() as int) =~= flag);
    assert(arg.skip(flag.len() as int + 1) =~= value);
}

/// A flag that takes a value reads it the same from the next argument (`--out DIR`,
/// `--jobs N`) as from the same argument after `=` (`--out=DIR`, `--jobs=N`), whatever
/// was parsed before and whatever follows.
pub proof fn lemma_flag_value_forms_agree(flag: Seq<char>, value: Seq<char>, tail: Seq<Seq<char>>, st: ArgsState)
    requires
        flag == "--out"@ || flag == "--jobs"@,
    ensures
        parse_rest(seq![flag, value] + tail, st) == parse_rest(seq![flag + "="@ + value] + tail, st),
{
    reveal_strlit("--out");
    reveal_strlit("--jobs");
    reveal_strlit("--");
    reveal_strlit("--help");
    reveal_strlit("-h");
    reveal_strlit("--version");
    reveal_strlit("-V");
    reveal_strlit("--no-page-breaks");
    reveal_strlit("--no-image-placeholders");
    reveal_strlit("--quiet");
    lemma_split_plain(flag);
    assert(has_prefix(flag, "--"@)) by {
        assert(flag.take(2) =~= "--"@);
    }
    lemma_split_inline(flag, value);
    let separate = seq![flag, value] + tail;
    let joined = seq![flag + "="@ + value] + tail;
    assert(separate[0] == flag);
    assert(separate[1] == value);
    assert(joined[0] == flag + "="@ + value);
    assert(separate.skip(2) =~= tail);
    assert(joined.drop_first() =~= tail);
}

} // verus!
