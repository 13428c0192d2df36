//! The restricted table-HTML dialect scored by the TEDS metrics: `<table>`, `<thead>`,
//! `<tbody>`, `<tr>`, `<td>` and `<th>` tags with `colspan`, `rowspan` and `bbox`
//! attributes, parsed into a tree of cells (held as an arena of nodes), and the
//! keyroots the tree edit distance recurses on.
use vstd::prelude::*;
use crate::cli::{parse_usize_chars, spec_parse_usize};
use crate::text::{
    chars_of, find_char, first_char_at, is_whitespace, lemma_first_char_unique, push_chars,
    spec_is_whitespace, string_from_chars, sub_chars, trim, trim_chars, trim_start,
    trim_start_len,
};

verus! {

/// `str::parse::<u32>` on the characters `s`.
pub open spec fn spec_parse_u32(s: Seq<char>) -> Option<u32> {
    match spec_parse_usize(s) {
        Some(n) => if n <= u32::MAX { Some(n as u32) } else { None },
        None => None,
    }
}

/// `str::parse::<u32>` on the characters `v`.
fn parse_u32_chars(v: &Vec<char>) -> (r: Option<u32>)
    ensures
        r == spec_parse_u32(v@),
{
    match parse_usize_chars(v) {
        Some(n) => if n <= 0xffff_ffffusize {
            Some(n as u32)
        } else {
            None
        },
        None => None,
    }
}

/// The length of the word at the start of `s`: it runs up to the first whitespace
/// character outside double quotes, `quoted` saying whether a quote is open at `s[0]`.
pub open spec fn run_len_from(s: Seq<char>, quoted: bool) -> nat
    decreases s.len(),
{
    if s.len() > 0 && (quoted || !spec_is_whitespace(s[0])) {
        1 + run_len_from(s.drop_first(), if s[0] == '"' { !quoted } else { quoted })
    } else {
        0
    }
}

/// The length of the word at the start of `s` (no quote open yet).
pub open spec fn run_len(s: Seq<char>) -> nat {
    run_len_from(s, false)
}

pub proof fn lemma_trim_start_shape(s: Seq<char>)
    ensures
        trim_start(s).len() <= s.len(),
        trim_start(s).len() > 0 ==> !spec_is_whitespace(trim_start(s)[0]),
    decreases s.len(),
{
    if s.len() > 0 && spec_is_whitespace(s[0]) {
        lemma_trim_start_shape(s.drop_first());
    }
}

pub proof fn lemma_run_len_bound(s: Seq<char>, quoted: bool)
    ensures
        run_len_from(s, quoted) <= s.len(),
    decreases s.len(),
{
    if s.len() > 0 && (quoted || !spec_is_whitespace(s[0])) {
        lemma_run_len_bound(s.drop_first(), if s[0] == '"' { !quoted } else { quoted });
    }
}

/// The whitespace-separated words of `s`, where whitespace between double quotes does
/// not separate (so `bbox="1 2 3 4"` is one word).
pub open spec fn words(s: Seq<char>) -> Seq<Seq<char>>
    decreases s.len(),
{
    let t = trim_start(s);
    if t.len() == 0 {
        Seq::empty()
    } else {
        proof {
            lemma_trim_start_shape(s);
            lemma_run_len_bound(t, false);
        }
        seq![t.take(run_len(t) as int)] + words(t.skip(run_len(t) as int))
    }
}

/// `s` with every leading and trailing `"` removed (`str::trim_matches('"')`).
pub open spec fn trim_quotes(s: Seq<char>) -> Seq<char>
    decreases s.len(),
{
    if s.len() > 0 && s[0] == '"' {
        trim_quotes(s.drop_first())
    } else if s.len() > 0 && s.last() == '"' {
        trim_quotes(s.drop_last())
    } else {
        s
    }
}

/// A cell's attributes: column span, row span, and the raw `bbox` value.
pub struct AttrView {
    pub colspan: u32,
    pub rowspan: u32,
    pub bbox: Option<Seq<char>>,
}

/// The attributes set by the `key=value` words `attrs`, later words overriding earlier
/// ones: an unparsable span counts as `1`, words without `=` and unknown keys are
/// ignored.
pub open spec fn attrs_of(attrs: Seq<Seq<char>>) -> AttrView
    decreases attrs.len(),
{
    if attrs.len() == 0 {
        AttrView { colspan: 1, rowspan: 1, bbox: None }
    } else {
        let st = attrs_of(attrs.drop_last());
        let a = attrs.last();
        if exists|e: int| first_char_at(a, '=', e) {
            let e = choose|e: int| first_char_at(a, '=', e);
            let key = a.take(e);
            let val = trim_quotes(a.skip(e + 1));
            let n = match spec_parse_u32(val) {
                Some(n) => n,
                None => 1u32,
            };
            if key == "colspan"@ {
                AttrView { colspan: n, rowspan: st.rowspan, bbox: st.bbox }
            } else if key == "rowspan"@ {
                AttrView { colspan: st.colspan, rowspan: n, bbox: st.bbox }
            } else if key == "bbox"@ {
                AttrView { colspan: st.colspan, rowspan: st.rowspan, bbox: Some(val) }
            } else {
                st
            }
        } else {
            st
        }
    }
}

/// One parsed table node; `children` are indices into the tree's node arena.
pub struct TableNodeView {
    pub tag: Seq<char>,
    pub colspan: u32,
    pub rowspan: u32,
    pub text: Seq<char>,
    pub bbox: Option<Seq<char>>,
    pub children: Seq<int>,
}

/// The parser's state: the node arena, the stack of open nodes, and the last closed
/// top-level node.
pub struct ParseState {
    pub nodes: Seq<TableNodeView>,
    pub stack: Seq<int>,
    pub root: Option<int>,
}

/// Appends text to the innermost open node (text outside any open node is dropped).
pub open spec fn append_text(st: ParseState, t: Seq<char>) -> ParseState {
    if st.stack.len() == 0 {
        st
    } else {
        let k = st.stack.last();
        let n = st.nodes[k];
        ParseState {
            nodes: st.nodes.update(k, TableNodeView {
                tag: n.tag,
                colspan: n.colspan,
                rowspan: n.rowspan,
                text: n.text + t,
                bbox: n.bbox,
                children: n.children,
            }),
            stack: st.stack,
            root: st.root,
        }
    }
}

/// A closing tag: the innermost open node is closed, its text trimmed, and it becomes
/// the last child of the node around it, or the root if none is open (a closing tag
/// with nothing open is ignored).
pub open spec fn close_tag(st: ParseState) -> ParseState {
    if st.stack.len() == 0 {
        st
    } else {
        let k = st.stack.last();
        let n = st.nodes[k];
        let nodes = st.nodes.update(k, TableNodeView {
            tag: n.tag,
            colspan: n.colspan,
            rowspan: n.rowspan,
            text: trim(n.text),
            bbox: n.bbox,
            children: n.children,
        });
        let stack = st.stack.drop_last();
        if stack.len() > 0 {
            let p = stack.last();
            let pn = nodes[p];
            ParseState {
                nodes: nodes.update(p, TableNodeView {
                    tag: pn.tag,
                    colspan: pn.colspan,
                    rowspan: pn.rowspan,
                    text: pn.text,
                    bbox: pn.bbox,
                    children: pn.children.push(k),
                }),
                stack,
                root: st.root,
            }
        } else {
            ParseState { nodes, stack, root: Some(k) }
        }
    }
}

/// An opening tag: a new node named by the tag's first word (empty if none), with the
/// attributes of the following words, becomes the innermost open node.
pub open spec fn open_tag(st: ParseState, tag_src: Seq<char>) -> ParseState {
    let parts = words(tag_src);
    let name = if parts.len() > 0 { parts[0] } else { Seq::empty() };
    let a = attrs_of(if parts.len() > 0 { parts.drop_first() } else { parts });
    ParseState {
        nodes: st.nodes.push(TableNodeView {
            tag: name,
            colspan: a.colspan,
            rowspan: a.rowspan,
            text: Seq::empty(),
            bbox: a.bbox,
            children: Seq::empty(),
        }),
        stack: st.stack.push(st.nodes.len() as int),
        root: st.root,
    }
}

/// The text between `<` and `>` is a closing tag if it starts with `/`.
pub open spec fn apply_tag(st: ParseState, tag_src: Seq<char>) -> ParseState {
    if tag_src.len() > 0 && tag_src[0] == '/' {
        close_tag(st)
    } else {
        open_tag(st, tag_src)
    }
}

/// The first position at or after `from` holding `c`, if any.
pub open spec fn first_from(s: Seq<char>, c: char, from: int) -> Option<int> {
    if exists|i: int| first_char_at(s.skip(from), c, i) {
        Some(from + choose|i: int| first_char_at(s.skip(from), c, i))
    } else {
        None
    }
}

/// Parses `s` from `cursor` on: text up to the next `<` goes to the innermost open node
/// (all remaining text, if there is no `<`), and the text from `<` to the next `>` (or
/// the end) is a tag.
pub open spec fn parse_from(s: Seq<char>, cursor: int, st: ParseState) -> ParseState
    decreases s.len() + 1 - cursor,
{
    if cursor < 0 || cursor >= s.len() {
        st
    } else {
        match first_from(s, '<', cursor) {
            None => append_text(st, s.subrange(cursor, s.len() as int)),
            Some(lt) => {
                let st1 = if lt > cursor { append_text(st, s.subrange(cursor, lt)) } else { st };
                let gt = match first_from(s, '>', lt) {
                    Some(g) => g,
                    None => s.len() as int,
                };
                if lt < cursor || gt < lt || gt > s.len() || lt + 1 > gt {
                    st1
                } else {
                    parse_from(s, gt + 1, apply_tag(st1, s.subrange(lt + 1, gt)))
                }
            },
        }
    }
}

/// The state before any input.
pub open spec fn initial_parse_state() -> ParseState {
    ParseState { nodes: Seq::empty(), stack: Seq::empty(), root: None }
}


/// The first position at or after `p` that is not whitespace (or the end).
fn skip_ws(v: &Vec<char>, p: usize) -> (q: usize)
    requires
        p <= v@.len(),
    ensures
        p <= q <= v@.len(),
        v@.skip(q as int) == trim_start(v@.skip(p as int)),
{
    let mut q = p;
    while q < v.len() && is_whitespace(v[q])
        invariant
            p <= q <= v@.len(),
            trim_start(v@.skip(p as int)) == trim_start(v@.skip(q as int)),
        decreases v@.len() - q,
    {
        assert(v@.skip(q as int).drop_first() =~= v@.skip(q + 1));
        q = q + 1;
    }
    q
}

/// The end of the word starting at `q`.
fn run_end(v: &Vec<char>, q: usize) -> (e: usize)
    requires
        q <= v@.len(),
    ensures
        q <= e <= v@.len(),
        e - q == run_len(v@.skip(q as int)),
{
    let mut e = q;
    let mut quoted = false;
    assert(v@.skip(q as int).skip(0) =~= v@.skip(q as int));
    while e < v.len() && (quoted || !is_whitespace(v[e]))
        invariant
            q <= e <= v@.len(),
            run_len(v@.skip(q as int)) == (e - q) + run_len_from(v@.skip(e as int), quoted),
        decreases v@.len() - e,
    {
        assert(v@.skip(e as int).drop_first() =~= v@.skip(e + 1));
        if v[e] == '"' {
            quoted = !quoted;
        }
        e = e + 1;
    }
    e
}

/// The words of `v`, as [`words`] splits them.
fn words_of(v: &Vec<char>) -> (r: Vec<Vec<char>>)
    ensures
        r@.map_values(|w: Vec<char>| w@) == words(v@),
{
    let mut r: Vec<Vec<char>> = Vec::new();
    let mut p: usize = 0;
    assert(v@.skip(0) =~= v@);
    assert(r@.map_values(|w: Vec<char>| w@) + words(v@) =~= words(v@));
    while p < v.len()
        invariant
            p <= v@.len(),
            r@.map_values(|w: Vec<char>| w@) + words(v@.skip(p as int)) == words(v@),
        decreases v@.len() - p,
    {
        let q = skip_ws(v, p);
        let ghost t = v@.skip(q as int);
        if q == v.len() {
            assert(t.len() == 0);
            assert(words(v@.skip(p as int)) == Seq::<Seq<char>>::empty());
            p = q;
        } else {
            let e = run_end(v, q);
            let w = sub_chars(v, q, e);
            assert(w@ =~= t.take(run_len(t) as int));
            assert(t.skip(run_len(t) as int) =~= v@.skip(e as int));
            let ghost before = r@;
            r.push(w);
            assert(r@.map_values(|w: Vec<char>| w@) =~= before.map_values(|w: Vec<char>| w@).push(w@));
            assert(words(v@.skip(p as int)) == seq![w@] + words(v@.skip(e as int)));
            assert(before.map_values(|w: Vec<char>| w@).push(w@) + words(v@.skip(e as int))
                =~= before.map_values(|w: Vec<char>| w@) + (seq![w@] + words(v@.skip(e as int))));
            proof {
                lemma_trim_start_shape(v@.skip(p as int));
            }
            assert(e > p) by {
                assert(!spec_is_whitespace(t[0]));
            }
            p = e;
        }
    }
    assert(v@.skip(p as int) =~= Seq::<char>::empty());
    assert(r@.map_values(|w: Vec<char>| w@) + Seq::<Seq<char>>::empty() =~= r@.map_values(|w: Vec<char>| w@));
    r
}

/// `v` with leading and trailing `"` removed.
fn trim_quotes_chars(v: &Vec<char>) -> (r: Vec<char>)
    ensures
        r@ == trim_quotes(v@),
{
    let mut a: usize = 0;
    let mut b: usize = v.len();
    assert(v@.subrange(0, v@.len() as int) =~= v@);
    while a < b && v[a] == '"'
        invariant
            a <= b == v@.len(),
            trim_quotes(v@) == trim_quotes(v@.subrange(a as int, b as int)),
        decreases b - a,
    {
        assert(v@.subrange(a as int, b as int).drop_first() =~= v@.subrange(a + 1, b as int));
        a = a + 1;
    }
    while a < b && v[b - 1] == '"'
        invariant
            a <= b <= v@.len(),
            a < b ==> v@[a as int] != '"',
            trim_quotes(v@) == trim_quotes(v@.subrange(a as int, b as int)),
        decreases b - a,
    {
        assert(v@.subrange(a as int, b as int).drop_last() =~= v@.subrange(a as int, b - 1));
        b = b - 1;
    }
    sub_chars(v, a, b)
}

/// The attributes set by the words `parts[from..]`.
fn attrs_exec(parts: &Vec<Vec<char>>, from: usize) -> (r: (u32, u32, Option<Vec<char>>))
    requires
        from <= parts@.len(),
    ensures
        ({
            let a = attrs_of(parts@.map_values(|w: Vec<char>| w@).skip(from as int));
            &&& r.0 == a.colspan
            &&& r.1 == a.rowspan
            &&& match r.2 {
                Some(b) => a.bbox == Some(b@),
                None => a.bbox is None,
            }
        }),
{
    let ghost views = parts@.map_values(|w: Vec<char>| w@);
    let mut colspan: u32 = 1;
    let mut rowspan: u32 = 1;
    let mut bbox: Option<Vec<char>> = None;
    let mut i: usize = from;
    assert(views.subrange(from as int, from as int) =~= Seq::<Seq<char>>::empty());
    while i < parts.len()
        invariant
            from <= i <= parts@.len(),
            views == parts@.map_values(|w: Vec<char>| w@),
            ({
                let a = attrs_of(views.subrange(from as int, i as int));
                &&& colspan == a.colspan
                &&& rowspan == a.rowspan
                &&& match bbox {
                    Some(b) => a.bbox == Some(b@),
                    None => a.bbox is None,
                }
            }),
        decreases parts@.len() - i,
    {
        let a = &parts[i];
        assert(views.subrange(from as int, i + 1).drop_last() =~= views.subrange(from as int, i as int));
        assert(views.subrange(from as int, i + 1).last() == a@);
        match find_char(a, '=') {
            None => {},
            Some(e) => {
                proof {
                    let c = choose|c: int| first_char_at(a@, '=', c);
                    lemma_first_char_unique(a@, '=', e as int, c);
                }
                let alen = a.len();
                assert(e < alen);
                let key = sub_chars(a, 0, e);
                let raw = sub_chars(a, e + 1, alen);
                assert(key@ =~= a@.take(e as int));
                assert(raw@ =~= a@.skip(e + 1));
                let val = trim_quotes_chars(&raw);
                let n = match parse_u32_chars(&val) {
                    Some(n) => n,
                    None => 1u32,
                };
                if crate::text::chars_eq_str(&key, "colspan") {
                    colspan = n;
                } else if crate::text::chars_eq_str(&key, "rowspan") {
                    rowspan = n;
                } else if crate::text::chars_eq_str(&key, "bbox") {
                    bbox = Some(val);
                }
            },
        }
        i = i + 1;
    }
    assert(views.subrange(from as int, parts@.len() as int) =~= views.skip(from as int));
    (colspan, rowspan, bbox)
}


/// One parsed table node; `children` are indices into [`TableTree::nodes`].
#[derive(Debug, Clone, PartialEq, Eq)]
pub struct TableNode {
    /// The tag name (`table`, `tr`, `td`, ...).
    pub tag: String,
    /// The `colspan` attribute (default `1`).
    pub colspan: u32,
    /// The `rowspan` attribute (default `1`).
    pub rowspan: u32,
    /// The text between the node's open and close tags, outside its children, trimmed.
    pub text: String,
    /// The raw `bbox` attribute value (`"left bottom right top"`), if present.
    pub bbox: Option<String>,
    /// The node's children, in document order, as indices into the node arena.
    pub children: Vec<usize>,
}

/// A parsed table: an arena of nodes and the index of the root.
#[derive(Debug, Clone)]
pub struct TableTree {
    /// Every node opened while parsing; the tree is what `root` reaches.
    pub nodes: Vec<TableNode>,
    /// The root node's index.
    pub root: usize,
}

/// A node as plain values.
pub open spec fn node_view(n: TableNode) -> TableNodeView {
    TableNodeView {
        tag: n.tag@,
        colspan: n.colspan,
        rowspan: n.rowspan,
        text: n.text@,
        bbox: match n.bbox {
            Some(b) => Some(b@),
            None => None,
        },
        children: n.children@.map_values(|i: usize| i as int),
    }
}

/// The node arena as plain values.
pub open spec fn nodes_view(ns: Seq<TableNode>) -> Seq<TableNodeView> {
    ns.map_values(|n: TableNode| node_view(n))
}

/// The node standing in for a table when the input closes no top-level node: an empty
/// `table`.
pub open spec fn default_table_node() -> TableNodeView {
    TableNodeView { tag: "table"@, colspan: 1, rowspan: 1, text: Seq::empty(), bbox: None, children: Seq::empty() }
}

/// The parse of `html`: the node arena and the root's index (the last top-level node
/// closed, or an appended empty `table` if there is none).
pub open spec fn spec_parse_table(html: Seq<char>) -> (Seq<TableNodeView>, int) {
    let st = parse_from(html, 0, initial_parse_state());
    match st.root {
        Some(r) => (st.nodes, r),
        None => (st.nodes.push(default_table_node()), st.nodes.len() as int),
    }
}

/// The arena is a forest: every child index is greater than its parent's and inside
/// the arena, the open-node stack is strictly increasing and inside the arena, and so is
/// the root.
pub open spec fn parse_state_wf(st: ParseState) -> bool {
    &&& forall|i: int, j: int| 0 <= i < st.nodes.len() && 0 <= j < st.nodes[i].children.len()
        ==> i < #[trigger] st.nodes[i].children[j] < st.nodes.len()
    &&& forall|i: int| 0 <= i < st.stack.len() ==> 0 <= #[trigger] st.stack[i] < st.nodes.len()
    &&& forall|i: int, j: int| 0 <= i < j < st.stack.len() ==> st.stack[i] < st.stack[j]
    &&& st.root matches Some(r) ==> 0 <= r < st.nodes.len()
}

/// The exec parser state as plain values.
pub open spec fn state_view(nodes: Seq<TableNode>, stack: Seq<usize>, root: Option<usize>) -> ParseState {
    ParseState {
        nodes: nodes_view(nodes),
        stack: stack.map_values(|i: usize| i as int),
        root: match root {
            Some(r) => Some(r as int),
            None => None,
        },
    }
}

/// The first position at or after `from` holding `c` (exec form of [`first_from`]).
fn find_from(v: &Vec<char>, c: char, from: usize) -> (r: Option<usize>)
    requires
        from <= v@.len(),
    ensures
        match r {
            Some(i) => first_from(v@, c, from as int) == Some(i as int) && from <= i < v@.len() && v@[i as int] == c,
            None => first_from(v@, c, from as int) is None,
        },
{
    let mut i = from;
    while i < v.len()
        invariant
            from <= i <= v@.len(),
            forall|j: int| from <= j < i ==> v@[j] != c,
        decreases v@.len() - i,
    {
        if v[i] == c {
            proof {
                let t = v@.skip(from as int);
                assert(first_char_at(t, c, i - from));
                let k = choose|k: int| first_char_at(t, c, k);
                lemma_first_char_unique(t, c, i - from, k);
            }
            return Some(i);
        }
        i = i + 1;
    }
    proof {
        let t = v@.skip(from as int);
        assert forall|k: int| !first_char_at(t, c, k) by {
            if first_char_at(t, c, k) {
                assert(v@[from + k] == c);
            }
        }
    }
    None
}

/// An empty placeholder node.
fn blank_node() -> (n: TableNode)
    ensures
        n.tag@ == Seq::<char>::empty(),
        n.colspan == 1,
        n.rowspan == 1,
        n.text@ == Seq::<char>::empty(),
        n.bbox is None,
        n.children@ == Seq::<usize>::empty(),
{
    TableNode { tag: String::new(), colspan: 1, rowspan: 1, text: String::new(), bbox: None, children: Vec::new() }
}

/// Takes node `k` out of the arena, leaving a blank node in its place.
fn take_node(nodes: &mut Vec<TableNode>, k: usize) -> (n: TableNode)
    requires
        k < old(nodes)@.len(),
    ensures
        n == old(nodes)@[k as int],
        final(nodes)@.len() == old(nodes)@.len(),
        forall|i: int| 0 <= i < final(nodes)@.len() && i != k ==> final(nodes)@[i] == old(nodes)@[i],
{
    let mut n = blank_node();
    std::mem::swap(&mut n, &mut nodes[k]);
    n
}

/// Exec form of [`append_text`].
fn append_text_exec(nodes: &mut Vec<TableNode>, stack: &Vec<usize>, root: Option<usize>, t: &Vec<char>)
    requires
        parse_state_wf(state_view(old(nodes)@, stack@, root)),
    ensures
        state_view(final(nodes)@, stack@, root) == append_text(state_view(old(nodes)@, stack@, root), t@),
        parse_state_wf(state_view(final(nodes)@, stack@, root)),
{
    let ghost st = state_view(nodes@, stack@, root);
    if stack.len() > 0 {
        let k = stack[stack.len() - 1];
        assert(st.stack.last() == k as int);
        assert(0 <= st.stack[st.stack.len() - 1] < st.nodes.len());
        let mut node = take_node(nodes, k);
        push_chars(&mut node.text, t);
        let ghost old_nodes = nodes@;
        nodes.set(k, node);
        proof {
            assert(nodes_view(nodes@) =~= st.nodes.update(k as int, node_view(node)));
            assert forall|i: int, j: int| 0 <= i < nodes_view(nodes@).len() && 0 <= j < nodes_view(nodes@)[i].children.len()
                implies i < #[trigger] nodes_view(nodes@)[i].children[j] < nodes_view(nodes@).len() by {
                assert(st.nodes[i].children.len() == nodes_view(nodes@)[i].children.len());
                assert(st.nodes[i].children[j] == nodes_view(nodes@)[i].children[j]);
            }
        }
    }
}


/// Exec form of [`close_tag`].
fn close_tag_exec(nodes: &mut Vec<TableNode>, stack: &mut Vec<usize>, root: &mut Option<usize>)
    requires
        parse_state_wf(state_view(old(nodes)@, old(stack)@, *old(root))),
    ensures
        state_view(final(nodes)@, final(stack)@, *final(root)) == close_tag(state_view(old(nodes)@, old(stack)@, *old(root))),
        parse_state_wf(state_view(final(nodes)@, final(stack)@, *final(root))),
{
    let ghost st = state_view(nodes@, stack@, *root);
    if stack.len() == 0 {
        return;
    }
    let k = stack.pop().unwrap();
    assert(st.stack.last() == k as int);
    assert(0 <= st.stack[st.stack.len() - 1] < st.nodes.len());
    let mut node = take_node(nodes, k);
    let trimmed = trim_chars(&chars_of(node.text.as_str()));
    node.text = string_from_chars(&trimmed);
    nodes.set(k, node);
    let ghost nodes1 = st.nodes.update(k as int, node_view(node));
    assert(nodes_view(nodes@) =~= nodes1);
    assert(stack@.map_values(|i: usize| i as int) =~= st.stack.drop_last());
    if stack.len() > 0 {
        let p = stack[stack.len() - 1];
        assert(st.stack[st.stack.len() - 2] == p as int);
        assert(p < k);
        let mut parent = take_node(nodes, p);
        let ghost pv = node_view(parent);
        parent.children.push(k);
        assert(node_view(parent).children =~= pv.children.push(k as int));
        nodes.set(p, parent);
        proof {
            let n2 = nodes1.update(p as int, node_view(parent));
            assert(nodes_view(nodes@) =~= n2);
            assert forall|i: int, j: int| 0 <= i < n2.len() && 0 <= j < n2[i].children.len()
                implies i < #[trigger] n2[i].children[j] < n2.len() by {
                if i == p {
                    if j < pv.children.len() {
                        assert(n2[i].children[j] == st.nodes[i].children[j]);
                    }
                } else {
                    assert(n2[i].children[j] == st.nodes[i].children[j]);
                }
            }
        }
    } else {
        *root = Some(k);
        proof {
            assert forall|i: int, j: int| 0 <= i < nodes1.len() && 0 <= j < nodes1[i].children.len()
                implies i < #[trigger] nodes1[i].children[j] < nodes1.len() by {
                assert(nodes1[i].children[j] == st.nodes[i].children[j]);
            }
        }
    }
}

/// Exec form of [`open_tag`].
fn open_tag_exec(nodes: &mut Vec<TableNode>, stack: &mut Vec<usize>, root: Option<usize>, tag_src: &Vec<char>)
    requires
        parse_state_wf(state_view(old(nodes)@, old(stack)@, root)),
        old(nodes)@.len() < usize::MAX,
    ensures
        state_view(final(nodes)@, final(stack)@, root) == open_tag(state_view(old(nodes)@, old(stack)@, root), tag_src@),
        parse_state_wf(state_view(final(nodes)@, final(stack)@, root)),
        final(nodes)@.len() == old(nodes)@.len() + 1,
{
    let ghost st = state_view(nodes@, stack@, root);
    let parts = words_of(tag_src);
    let ghost pv = parts@.map_values(|w: Vec<char>| w@);
    let name = if parts.len() > 0 { string_from_chars(&parts[0]) } else { String::new() };
    let from: usize = if parts.len() > 0 { 1 } else { 0 };
    let (colspan, rowspan, bbox_chars) = attrs_exec(&parts, from);
    assert(pv.skip(from as int) =~= (if pv.len() > 0 { pv.drop_first() } else { pv }));
    let bbox = match bbox_chars {
        Some(b) => Some(string_from_chars(&b)),
        None => None,
    };
    let idx = nodes.len();
    let node = TableNode { tag: name, colspan, rowspan, text: String::new(), bbox, children: Vec::new() };
    assert(node_view(node).children =~= Seq::<int>::empty());
    nodes.push(node);
    stack.push(idx);
    proof {
        let ns = st.nodes.push(node_view(node));
        assert(nodes_view(nodes@) =~= ns);
        assert(stack@.map_values(|i: usize| i as int) =~= st.stack.push(idx as int));
        assert forall|i: int, j: int| 0 <= i < ns.len() && 0 <= j < ns[i].children.len()
            implies i < #[trigger] ns[i].children[j] < ns.len() by {
            assert(ns[i].children[j] == st.nodes[i].children[j]);
        }
    }
}

/// Parses `html`, a table in the restricted table-HTML dialect, into a tree of cells:
/// text up to the next `<` goes to the innermost open node, `<...>` is a closing tag
/// (starting with `/`, which closes the innermost open node, trims its text and makes it
/// the last child of the node around it, or the root) or an opening tag (a new node
/// named by its first word, with `colspan`/`rowspan` integers defaulting to `1` and the
/// raw `bbox` value, e.g. `bbox="left bottom right top"`; a double-quoted value may hold
/// spaces). A closing tag's name is not checked against the node it closes.
/// Input that closes no top-level node yields an empty `table`.
pub fn parse_table(html: &str) -> (t: TableTree)
    ensures
        nodes_view(t.nodes@) == spec_parse_table(html@).0,
        t.root as int == spec_parse_table(html@).1,
        t.root < t.nodes@.len(),
        forall|i: int, j: int| 0 <= i < t.nodes@.len() && 0 <= j < t.nodes@[i].children@.len()
            ==> i < #[trigger] t.nodes@[i].children@[j] < t.nodes@.len(),
{
    let s = chars_of(html);
    let mut nodes: Vec<TableNode> = Vec::new();
    let mut stack: Vec<usize> = Vec::new();
    let mut root: Option<usize> = None;
    let mut cursor: usize = 0;
    assert(nodes_view(nodes@) =~= Seq::<TableNodeView>::empty());
    assert(stack@.map_values(|i: usize| i as int) =~= Seq::<int>::empty());
    while cursor < s.len()
        invariant
            cursor <= s@.len(),
            s@ == html@,
            nodes@.len() <= cursor,
            parse_state_wf(state_view(nodes@, stack@, root)),
            parse_from(s@, 0, initial_parse_state()) == parse_from(s@, cursor as int, state_view(nodes@, stack@, root)),
        decreases s@.len() - cursor,
    {
        let ghost st = state_view(nodes@, stack@, root);
        match find_from(&s, '<', cursor) {
            None => {
                let rest = sub_chars(&s, cursor, s.len());
                append_text_exec(&mut nodes, &stack, root, &rest);
                proof {
                    assert(parse_from(s@, s@.len() as int, state_view(nodes@, stack@, root)) == state_view(nodes@, stack@, root));
                }
                cursor = s.len();
            },
            Some(lt) => {
                if lt > cursor {
                    let text = sub_chars(&s, cursor, lt);
                    append_text_exec(&mut nodes, &stack, root, &text);
                }
                let ghost st1 = state_view(nodes@, stack@, root);
                let gt = match find_from(&s, '>', lt) {
                    Some(g) => g,
                    None => s.len(),
                };
                let tag_src = sub_chars(&s, lt + 1, gt);
                if tag_src.len() > 0 && tag_src[0] == '/' {
                    close_tag_exec(&mut nodes, &mut stack, &mut root);
                } else {
                    open_tag_exec(&mut nodes, &mut stack, root, &tag_src);
                }
                proof {
                    assert(state_view(nodes@, stack@, root) == apply_tag(st1, s@.subrange(lt + 1, gt as int)));
                }
                if gt == s.len() {
                    proof {
                        assert(parse_from(s@, gt + 1, state_view(nodes@, stack@, root)) == state_view(nodes@, stack@, root));
                        assert(parse_from(s@, s@.len() as int, state_view(nodes@, stack@, root)) == state_view(nodes@, stack@, root));
                    }
                    cursor = s.len();
                } else {
                    cursor = gt + 1;
                }
            },
        }
    }
    let ghost fin = state_view(nodes@, stack@, root);
    assert(parse_from(s@, cursor as int, fin) == fin);
    assert forall|i: int, j: int| 0 <= i < nodes@.len() && 0 <= j < nodes@[i].children@.len()
        implies i < #[trigger] nodes@[i].children@[j] < nodes@.len() by {
        assert(fin.nodes[i].children[j] == nodes@[i].children@[j] as int);
    }
    match root {
        Some(r) => TableTree { nodes, root: r },
        None => {
            let idx = nodes.len();
            let ghost before = nodes@;
            nodes.push(TableNode {
                tag: string_from_chars(&chars_of("table")),
                colspan: 1,
                rowspan: 1,
                text: String::new(),
                bbox: None,
                children: Vec::new(),
            });
            proof {
                let d = nodes@[idx as int];
                assert(node_view(d).children =~= Seq::<int>::empty());
                assert(node_view(d) == default_table_node());
                assert(nodes_view(nodes@) =~= fin.nodes.push(default_table_node()));
                assert forall|i: int, j: int| 0 <= i < nodes@.len() && 0 <= j < nodes@[i].children@.len()
                    implies i < #[trigger] nodes@[i].children@[j] < nodes@.len() by {
                    assert(nodes@[i] == before[i]);
                }
            }
            TableTree { nodes, root: idx }
        },
    }
}


/// The word `a` is a `key=value` attribute with this key.
pub open spec fn word_has_key(a: Seq<char>, key: Seq<char>) -> bool {
    exists|e: int| first_char_at(a, '=', e) && a.take(e) == key
}

/// Each attribute comes only from its own words: a tag with no `colspan` word has
/// colspan 1 whatever else it carries, one with no `rowspan` word has rowspan 1, and
/// one with no `bbox` word has no bbox.
pub proof fn lemma_attributes_come_from_their_own_words(attrs: Seq<Seq<char>>)
    ensures
        (forall|i: int| 0 <= i < attrs.len() ==> !word_has_key(#[trigger] attrs[i], "colspan"@))
            ==> attrs_of(attrs).colspan == 1,
        (forall|i: int| 0 <= i < attrs.len() ==> !word_has_key(#[trigger] attrs[i], "rowspan"@))
            ==> attrs_of(attrs).rowspan == 1,
        (forall|i: int| 0 <= i < attrs.len() ==> !word_has_key(#[trigger] attrs[i], "bbox"@))
            ==> attrs_of(attrs).bbox is None,
    decreases attrs.len(),
{
    if attrs.len() > 0 {
        let prev = attrs.drop_last();
        lemma_attributes_come_from_their_own_words(prev);
        let a = attrs.last();
        assert(a == attrs[attrs.len() - 1]);
        assert forall|i: int| 0 <= i < prev.len() implies #[trigger] prev[i] == attrs[i] by {}
        if exists|e: int| first_char_at(a, '=', e) {
            let e = choose|e: int| first_char_at(a, '=', e);
            let key = a.take(e);
            if key == "colspan"@ {
                assert(word_has_key(a, "colspan"@));
            }
            if key == "rowspan"@ {
                assert(word_has_key(a, "rowspan"@));
            }
            if key == "bbox"@ {
                assert(word_has_key(a, "bbox"@));
            }
        }
    }
}

} // verus!
