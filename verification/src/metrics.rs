//! Integer-valued validation metrics: the reading-order (Levenshtein) edit distance,
//! and the counts behind character recall, line-grouping accuracy and region F1.
use vstd::prelude::*;
use crate::text::chars_of;
use crate::text::chars_eq;
use crate::text::{trim, trim_chars};
use crate::text::{is_whitespace, spec_is_whitespace};
use std::collections::HashMap;
use vstd::math::min;
use vstd::multiset::Multiset;
use crate::taxonomy::{region_class_rank, spec_region_class_rank, RegionClass};

verus! {

/// Levenshtein distance between two sequences (unit-cost insertion, deletion and
/// substitution), by the standard recurrence on their last elements.
pub open spec fn edit_distance<T>(a: Seq<T>, b: Seq<T>) -> nat
    decreases a.len() + b.len(),
{
    if a.len() == 0 {
        b.len()
    } else if b.len() == 0 {
        a.len()
    } else if a.last() == b.last() {
        edit_distance(a.drop_last(), b.drop_last())
    } else {
        1 + min3(
            edit_distance(a.drop_last(), b.drop_last()),
            edit_distance(a.drop_last(), b),
            edit_distance(a, b.drop_last()),
        )
    }
}

/// The least of three naturals.
pub open spec fn min3(x: nat, y: nat, z: nat) -> nat {
    if x <= y && x <= z {
        x
    } else if y <= z {
        y
    } else {
        z
    }
}

/// The edit distance never exceeds the longer sequence's length, and is at least the
/// difference of the lengths.
proof fn lemma_edit_distance_bound<T>(a: Seq<T>, b: Seq<T>)
    ensures
        edit_distance(a, b) <= if a.len() >= b.len() { a.len() } else { b.len() },
        edit_distance(a, b) >= if a.len() >= b.len() { a.len() - b.len() } else { b.len() - a.len() },
    decreases a.len() + b.len(),
{
    if a.len() > 0 && b.len() > 0 {
        lemma_edit_distance_bound(a.drop_last(), b.drop_last());
        lemma_edit_distance_bound(a.drop_last(), b);
        lemma_edit_distance_bound(a, b.drop_last());
    }
}

proof fn lemma_edit_distance_symmetric<T>(a: Seq<T>, b: Seq<T>)
    ensures
        edit_distance(a, b) == edit_distance(b, a),
    decreases a.len() + b.len(),
{
    if a.len() > 0 && b.len() > 0 {
        lemma_edit_distance_symmetric(a.drop_last(), b.drop_last());
        lemma_edit_distance_symmetric(a.drop_last(), b);
        lemma_edit_distance_symmetric(a, b.drop_last());
    }
}

proof fn lemma_edit_distance_zero<T>(a: Seq<T>, b: Seq<T>)
    ensures
        edit_distance(a, b) == 0 <==> a == b,
    decreases a.len() + b.len(),
{
    if a.len() > 0 && b.len() > 0 {
        lemma_edit_distance_zero(a.drop_last(), b.drop_last());
        if a.last() == b.last() && edit_distance(a.drop_last(), b.drop_last()) == 0 {
            assert(a.drop_last().push(a.last()) =~= a);
            assert(b.drop_last().push(b.last()) =~= b);
        }
        if a == b {
            assert(a.drop_last() =~= b.drop_last());
        }
    } else if a.len() == 0 && b.len() == 0 {
        assert(a =~= b);
    }
}

/// One step of an edit script.
pub enum EditOp<T> {
    /// Keep the next element.
    Keep,
    /// Delete the next element.
    Delete,
    /// Insert an element.
    Insert(T),
    /// Replace the next element by another.
    Substitute(T),
}

/// `ops` turns `a` into `b`. Read from the front, `Keep` copies the next element of `a`,
/// `Substitute(x)` consumes it and writes `x`, `Delete` consumes it and writes nothing,
/// `Insert(x)` writes `x`; every element of `a` is consumed and the writes spell `b`.
/// (The definition checks the script from its last step.)
pub open spec fn transforms<T>(ops: Seq<EditOp<T>>, a: Seq<T>, b: Seq<T>) -> bool
    decreases ops.len(),
{
    if ops.len() == 0 {
        a.len() == 0 && b.len() == 0
    } else {
        let rest = ops.drop_last();
        match ops.last() {
            EditOp::Keep => a.len() > 0 && b.len() > 0 && a.last() == b.last()
                && transforms(rest, a.drop_last(), b.drop_last()),
            EditOp::Delete => a.len() > 0 && transforms(rest, a.drop_last(), b),
            EditOp::Insert(x) => b.len() > 0 && b.last() == x && transforms(rest, a, b.drop_last()),
            EditOp::Substitute(x) => a.len() > 0 && b.len() > 0 && b.last() == x
                && transforms(rest, a.drop_last(), b.drop_last()),
        }
    }
}

/// The number of insertions, deletions and substitutions in `ops`.
pub open spec fn script_cost<T>(ops: Seq<EditOp<T>>) -> nat
    decreases ops.len(),
{
    if ops.len() == 0 {
        0
    } else {
        script_cost(ops.drop_last()) + if ops.last() is Keep { 0nat } else { 1nat }
    }
}

/// A cheapest script turning `a` into `b`, built along the recurrence.
pub open spec fn cheapest_script<T>(a: Seq<T>, b: Seq<T>) -> Seq<EditOp<T>>
    decreases a.len() + b.len(),
{
    if a.len() == 0 && b.len() == 0 {
        Seq::empty()
    } else if a.len() == 0 {
        cheapest_script(a, b.drop_last()).push(EditOp::Insert(b.last()))
    } else if b.len() == 0 {
        cheapest_script(a.drop_last(), b).push(EditOp::Delete)
    } else if a.last() == b.last() {
        cheapest_script(a.drop_last(), b.drop_last()).push(EditOp::Keep)
    } else {
        let sub = edit_distance(a.drop_last(), b.drop_last());
        let del = edit_distance(a.drop_last(), b);
        let ins = edit_distance(a, b.drop_last());
        if sub <= del && sub <= ins {
            cheapest_script(a.drop_last(), b.drop_last()).push(EditOp::Substitute(b.last()))
        } else if del <= ins {
            cheapest_script(a.drop_last(), b).push(EditOp::Delete)
        } else {
            cheapest_script(a, b.drop_last()).push(EditOp::Insert(b.last()))
        }
    }
}

proof fn lemma_cheapest_script<T>(a: Seq<T>, b: Seq<T>)
    ensures
        transforms(cheapest_script(a, b), a, b),
        script_cost(cheapest_script(a, b)) == edit_distance(a, b),
    decreases a.len() + b.len(),
{
    let s = cheapest_script(a, b);
    if a.len() == 0 && b.len() == 0 {
    } else if a.len() == 0 {
        lemma_cheapest_script(a, b.drop_last());
        assert(s.drop_last() =~= cheapest_script(a, b.drop_last()));
    } else if b.len() == 0 {
        lemma_cheapest_script(a.drop_last(), b);
        assert(s.drop_last() =~= cheapest_script(a.drop_last(), b));
    } else if a.last() == b.last() {
        lemma_cheapest_script(a.drop_last(), b.drop_last());
        assert(s.drop_last() =~= cheapest_script(a.drop_last(), b.drop_last()));
    } else {
        let sub = edit_distance(a.drop_last(), b.drop_last());
        let del = edit_distance(a.drop_last(), b);
        let ins = edit_distance(a, b.drop_last());
        if sub <= del && sub <= ins {
            lemma_cheapest_script(a.drop_last(), b.drop_last());
            assert(s.drop_last() =~= cheapest_script(a.drop_last(), b.drop_last()));
        } else if del <= ins {
            lemma_cheapest_script(a.drop_last(), b);
            assert(s.drop_last() =~= cheapest_script(a.drop_last(), b));
        } else {
            lemma_cheapest_script(a, b.drop_last());
            assert(s.drop_last() =~= cheapest_script(a, b.drop_last()));
        }
    }
}

/// Dropping the last element of `x` changes the edit distance by at most one.
proof fn lemma_edit_distance_drop_last<T>(x: Seq<T>, y: Seq<T>)
    requires
        x.len() > 0,
    ensures
        edit_distance(x, y) <= edit_distance(x.drop_last(), y) + 1,
        edit_distance(x.drop_last(), y) <= edit_distance(x, y) + 1,
    decreases x.len() + y.len(),
{
    let a = x.drop_last();
    if y.len() == 0 {
    } else if a.len() == 0 {
        lemma_edit_distance_bound(x, y);
    } else {
        lemma_edit_distance_drop_last(y, a);
        lemma_edit_distance_symmetric(y, a);
        lemma_edit_distance_symmetric(y.drop_last(), a);
        if x.last() != y.last() {
            lemma_edit_distance_drop_last(x, y.drop_last());
        }
    }
}

proof fn lemma_no_cheaper_script<T>(ops: Seq<EditOp<T>>, a: Seq<T>, b: Seq<T>)
    requires
        transforms(ops, a, b),
    ensures
        script_cost(ops) >= edit_distance(a, b),
    decreases ops.len(),
{
    if ops.len() > 0 {
        let rest = ops.drop_last();
        match ops.last() {
            EditOp::Keep => {
                lemma_no_cheaper_script(rest, a.drop_last(), b.drop_last());
            },
            EditOp::Delete => {
                lemma_no_cheaper_script(rest, a.drop_last(), b);
                lemma_edit_distance_drop_last(a, b);
            },
            EditOp::Insert(x) => {
                lemma_no_cheaper_script(rest, a, b.drop_last());
                lemma_edit_distance_drop_last(b, a);
                lemma_edit_distance_symmetric(a, b);
                lemma_edit_distance_symmetric(a, b.drop_last());
            },
            EditOp::Substitute(x) => {
                lemma_no_cheaper_script(rest, a.drop_last(), b.drop_last());
            },
        }
    }
}

/// The edit distance is the length of a shortest edit script: some script of that many
/// insertions, deletions and substitutions turns `a` into `b`, and none with fewer does.
pub proof fn lemma_edit_distance_is_shortest_script<T>(a: Seq<T>, b: Seq<T>)
    ensures
        transforms(cheapest_script(a, b), a, b),
        script_cost(cheapest_script(a, b)) == edit_distance(a, b),
        forall|ops: Seq<EditOp<T>>| #[trigger] transforms(ops, a, b) ==> script_cost(ops) >= edit_distance(a, b),
{
    lemma_cheapest_script(a, b);
    assert forall|ops: Seq<EditOp<T>>| #[trigger] transforms(ops, a, b) implies script_cost(ops) >= edit_distance(a, b) by {
        lemma_no_cheaper_script(ops, a, b);
    }
}

/// The edit distance is a distance on sequences: zero exactly between equal sequences,
/// symmetric, at least the difference of the lengths and at most the longer length.
pub proof fn lemma_edit_distance_laws<T>(a: Seq<T>, b: Seq<T>)
    ensures
        edit_distance(a, a) == 0,
        edit_distance(a, b) == 0 <==> a == b,
        edit_distance(a, b) == edit_distance(b, a),
        edit_distance(a, b) <= if a.len() >= b.len() { a.len() } else { b.len() },
        edit_distance(a, b) >= if a.len() >= b.len() { a.len() - b.len() } else { b.len() - a.len() },
{
    lemma_edit_distance_zero(a, a);
    lemma_edit_distance_zero(a, b);
    lemma_edit_distance_symmetric(a, b);
    lemma_edit_distance_bound(a, b);
}

/// Levenshtein distance over an equality table: `eq[i][j]` tells whether `a[i]` and
/// `b[j]` are equal. Computed row by row.
fn edit_distance_table<T>(eq: &Vec<Vec<bool>>, n: usize, m: usize, Ghost(a): Ghost<Seq<T>>, Ghost(b): Ghost<Seq<T>>) -> (d: usize)
    requires
        a.len() == n,
        b.len() == m,
        m < usize::MAX,
        n < usize::MAX,
        eq@.len() == n,
        forall|i: int| 0 <= i < n ==> #[trigger] eq@[i]@.len() == m,
        forall|i: int, j: int| 0 <= i < n && 0 <= j < m ==> (#[trigger] eq@[i]@[j] == (a[i] == b[j])),
    ensures
        d == edit_distance(a, b),
{
    let mut prev: Vec<usize> = Vec::new();
    let mut j: usize = 0;
    while j <= m
        invariant
            j <= m + 1,
            m < usize::MAX,
            b.len() == m,
            prev@.len() == j,
            forall|k: int| 0 <= k < j ==> #[trigger] prev@[k] == edit_distance(a.take(0), b.take(k)),
        decreases m + 1 - j,
    {
        prev.push(j);
        proof {
            assert(a.take(0).len() == 0);
            assert(b.take(j as int).len() == j);
            assert(edit_distance(a.take(0), b.take(j as int)) == j);
        }
        j = j + 1;
    }
    let mut i: usize = 1;
    while i <= n
        invariant
            1 <= i <= n + 1,
            m < usize::MAX,
            n < usize::MAX,
            a.len() == n,
            b.len() == m,
            eq@.len() == n,
            forall|r: int| 0 <= r < n ==> #[trigger] eq@[r]@.len() == m,
            forall|r: int, c: int| 0 <= r < n && 0 <= c < m ==> (#[trigger] eq@[r]@[c] == (a[r] == b[c])),
            prev@.len() == m + 1,
            forall|k: int| 0 <= k <= m ==> #[trigger] prev@[k] == edit_distance(a.take(i - 1), b.take(k)),
        decreases n + 1 - i,
    {
        let mut cur: Vec<usize> = Vec::new();
        proof {
            lemma_edit_distance_bound(a.take(i as int), b.take(0));
            assert(b.take(0).len() == 0);
        }
        cur.push(i);
        let mut j: usize = 1;
        while j <= m
            invariant
                1 <= i <= n,
                1 <= j <= m + 1,
                m < usize::MAX,
                a.len() == n,
                b.len() == m,
                eq@.len() == n,
                forall|r: int| 0 <= r < n ==> #[trigger] eq@[r]@.len() == m,
                forall|r: int, c: int| 0 <= r < n && 0 <= c < m ==> (#[trigger] eq@[r]@[c] == (a[r] == b[c])),
                prev@.len() == m + 1,
                forall|k: int| 0 <= k <= m ==> #[trigger] prev@[k] == edit_distance(a.take(i - 1), b.take(k)),
                cur@.len() == j,
                forall|k: int| 0 <= k < j ==> #[trigger] cur@[k] == edit_distance(a.take(i as int), b.take(k)),
            decreases m + 1 - j,
        {
            let ghost ai = a.take(i as int);
            let ghost bj = b.take(j as int);
            proof {
                assert(ai.drop_last() =~= a.take(i - 1));
                assert(bj.drop_last() =~= b.take(j - 1));
                assert(ai.last() == a[i - 1]);
                assert(bj.last() == b[j - 1]);
                lemma_edit_distance_bound(ai, bj);
            }
            let value = if eq[i - 1][j - 1] {
                prev[j - 1]
            } else {
                let x = prev[j - 1];
                let y = prev[j];
                let z = cur[j - 1];
                let mut best = x;
                if y < best {
                    best = y;
                }
                if z < best {
                    best = z;
                }
                proof {
                    lemma_edit_distance_bound(a.take(i - 1), b.take(j - 1));
                }
                1 + best
            };
            cur.push(value);
            j = j + 1;
        }
        prev = cur;
        i = i + 1;
    }
    proof {
        assert(a.take(n as int) =~= a);
        assert(b.take(m as int) =~= b);
    }
    prev[m]
}

/// Reading-order edit distance: the raw Levenshtein distance between the extracted
/// token sequence and the ground-truth token sequence (word-level, unnormalized).
pub fn reading_order_edit_distance(extracted: &[&str], ground_truth: &[&str]) -> (d: usize)
    requires
        extracted@.len() < usize::MAX,
        ground_truth@.len() < usize::MAX,
    ensures
        d == edit_distance(
            extracted@.map_values(|s: &str| s@),
            ground_truth@.map_values(|s: &str| s@),
        ),
{
    let ghost a = extracted@.map_values(|s: &str| s@);
    let ghost b = ground_truth@.map_values(|s: &str| s@);
    let mut xs: Vec<Vec<char>> = Vec::new();
    let mut i: usize = 0;
    while i < extracted.len()
        invariant
            i <= extracted@.len(),
            a == extracted@.map_values(|s: &str| s@),
            xs@.len() == i,
            forall|k: int| 0 <= k < i ==> #[trigger] xs@[k]@ == a[k],
        decreases extracted.len() - i,
    {
        xs.push(chars_of(extracted[i]));
        i = i + 1;
    }
    let mut ys: Vec<Vec<char>> = Vec::new();
    let mut j: usize = 0;
    while j < ground_truth.len()
        invariant
            j <= ground_truth@.len(),
            b == ground_truth@.map_values(|s: &str| s@),
            ys@.len() == j,
            forall|k: int| 0 <= k < j ==> #[trigger] ys@[k]@ == b[k],
        decreases ground_truth.len() - j,
    {
        ys.push(chars_of(ground_truth[j]));
        j = j + 1;
    }
    let eq = equality_table(&xs, &ys, Ghost(a), Ghost(b));
    edit_distance_table::<Seq<char>>(&eq, xs.len(), ys.len(), Ghost(a), Ghost(b))
}

/// `eq[i][j] == (xs[i] == ys[j])`, by character content.
fn equality_table(xs: &Vec<Vec<char>>, ys: &Vec<Vec<char>>, Ghost(a): Ghost<Seq<Seq<char>>>, Ghost(b): Ghost<Seq<Seq<char>>>) -> (eq: Vec<Vec<bool>>)
    requires
        xs@.len() == a.len(),
        ys@.len() == b.len(),
        forall|k: int| 0 <= k < a.len() ==> #[trigger] xs@[k]@ == a[k],
        forall|k: int| 0 <= k < b.len() ==> #[trigger] ys@[k]@ == b[k],
    ensures
        eq@.len() == a.len(),
        forall|i: int| 0 <= i < a.len() ==> #[trigger] eq@[i]@.len() == b.len(),
        forall|i: int, j: int| 0 <= i < a.len() && 0 <= j < b.len() ==> (#[trigger] eq@[i]@[j] == (a[i] == b[j])),
{
    let mut eq: Vec<Vec<bool>> = Vec::new();
    let mut i: usize = 0;
    while i < xs.len()
        invariant
            i <= xs@.len(),
            xs@.len() == a.len(),
            ys@.len() == b.len(),
            forall|k: int| 0 <= k < a.len() ==> #[trigger] xs@[k]@ == a[k],
            forall|k: int| 0 <= k < b.len() ==> #[trigger] ys@[k]@ == b[k],
            eq@.len() == i,
            forall|r: int| 0 <= r < i ==> #[trigger] eq@[r]@.len() == b.len(),
            forall|r: int, c: int| 0 <= r < i && 0 <= c < b.len() ==> (#[trigger] eq@[r]@[c] == (a[r] == b[c])),
        decreases xs.len() - i,
    {
        let mut row: Vec<bool> = Vec::new();
        let mut j: usize = 0;
        while j < ys.len()
            invariant
                i < xs@.len(),
                j <= ys@.len(),
                xs@.len() == a.len(),
                ys@.len() == b.len(),
                forall|k: int| 0 <= k < a.len() ==> #[trigger] xs@[k]@ == a[k],
                forall|k: int| 0 <= k < b.len() ==> #[trigger] ys@[k]@ == b[k],
                row@.len() == j,
                forall|c: int| 0 <= c < j ==> #[trigger] row@[c] == (a[i as int] == b[c]),
            decreases ys.len() - j,
        {
            let e = chars_eq(&xs[i], &ys[j]);
            proof {
                assert(xs@[i as int]@ == a[i as int]);
                assert(ys@[j as int]@ == b[j as int]);
            }
            row.push(e);
            j = j + 1;
        }
        eq.push(row);
        i = i + 1;
    }
    eq
}


/// Node `i` is a keyroot of a postorder-numbered tree whose leftmost-leaf table is
/// `leftmost`: no later node shares its leftmost leaf (it is the highest node of its
/// leftmost path).
pub open spec fn is_keyroot(leftmost: Seq<usize>, i: int) -> bool {
    0 <= i < leftmost.len() && forall|j: int| i < j < leftmost.len() ==> leftmost[j] != leftmost[i]
}

/// The keyroots among nodes `k..`, in ascending order.
pub open spec fn keyroots_from(leftmost: Seq<usize>, k: int) -> Seq<usize>
    decreases leftmost.len() - k,
{
    if k < 0 || k >= leftmost.len() {
        Seq::empty()
    } else if is_keyroot(leftmost, k) {
        seq![k as usize] + keyroots_from(leftmost, k + 1)
    } else {
        keyroots_from(leftmost, k + 1)
    }
}

/// The keyroots of a tree (Zhang-Shasha), in ascending node order: the nodes that no
/// later node shares a leftmost leaf with. `leftmost[i]` is node `i`'s leftmost leaf
/// descendant, itself a node index.
pub fn keyroots(leftmost: &[usize]) -> (roots: Vec<usize>)
    requires
        forall|i: int| 0 <= i < leftmost@.len() ==> (#[trigger] leftmost@[i]) < leftmost@.len(),
    ensures
        roots@ == keyroots_from(leftmost@, 0),
{
    let n = leftmost.len();
    let mut seen: Vec<bool> = Vec::new();
    while seen.len() < n
        invariant
            seen@.len() <= n,
            forall|v: int| 0 <= v < seen@.len() ==> !(#[trigger] seen@[v]),
        decreases n - seen@.len(),
    {
        seen.push(false);
    }
    // `desc` holds the keyroots among nodes `i..`, in descending order.
    let mut desc: Vec<usize> = Vec::new();
    let mut i: usize = n;
    while i > 0
        invariant
            i <= n,
            n == leftmost@.len(),
            seen@.len() == n,
            forall|k: int| 0 <= k < n ==> (#[trigger] leftmost@[k]) < n,
            forall|v: int| 0 <= v < n ==> #[trigger] seen@[v] == exists|j: int| i <= j < n && leftmost@[j] == v,
            desc@.reverse() == keyroots_from(leftmost@, i as int),
        decreases i,
    {
        i = i - 1;
        let l = leftmost[i];
        let ghost before = desc@;
        let ghost seen_before = seen@;
        if !seen[l] {
            assert(is_keyroot(leftmost@, i as int)) by {
                assert forall|j: int| i < j < n implies leftmost@[j] != leftmost@[i as int] by {
                    if leftmost@[j] == leftmost@[i as int] {
                        assert(seen_before[l as int]);
                    }
                }
            }
            desc.push(i);
            seen.set(l, true);
            assert(desc@.reverse() =~= seq![i] + before.reverse());
        } else {
            assert(!is_keyroot(leftmost@, i as int));
        }
        assert forall|v: int| 0 <= v < n implies #[trigger] seen@[v] == exists|j: int| i <= j < n && leftmost@[j] == v by {
            if v == l {
                assert(leftmost@[i as int] == v);
            } else {
                assert(seen@[v] == seen_before[v]);
                if exists|j: int| i <= j < n && leftmost@[j] == v {
                    let j = choose|j: int| i <= j < n && leftmost@[j] == v;
                    assert(j != i);
                }
            }
        }
    }
    let mut roots: Vec<usize> = Vec::new();
    let mut k: usize = desc.len();
    while k > 0
        invariant
            k <= desc@.len(),
            roots@ == desc@.subrange(k as int, desc@.len() as int).reverse(),
        decreases k,
    {
        k = k - 1;
        let ghost before = roots@;
        roots.push(desc[k]);
        assert(desc@.subrange(k as int, desc@.len() as int).reverse() =~= before.push(desc@[k as int]));
    }
    assert(desc@.subrange(0, desc@.len() as int) =~= desc@);
    roots
}


/// Ground-truth line `g` is reproduced by one of `extracted`, both trimmed.
pub open spec fn line_reproduced(extracted: Seq<Seq<char>>, g: Seq<char>) -> bool {
    exists|j: int| 0 <= j < extracted.len() && trim(extracted[j]) == trim(g)
}

/// The number of ground-truth lines reproduced by the extraction.
pub open spec fn count_reproduced(extracted: Seq<Seq<char>>, ground_truth: Seq<Seq<char>>) -> nat
    decreases ground_truth.len(),
{
    if ground_truth.len() == 0 {
        0
    } else {
        count_reproduced(extracted, ground_truth.drop_last()) + if line_reproduced(extracted, ground_truth.last()) {
            1nat
        } else {
            0nat
        }
    }
}

/// The number of ground-truth lines that the extracted lines reproduce exactly (after
/// trimming surrounding whitespace): the numerator of line-grouping accuracy.
pub fn line_grouping_matches(extracted_lines: &[String], ground_truth_lines: &[String]) -> (n: usize)
    ensures
        n == count_reproduced(
            extracted_lines@.map_values(|t: String| t@),
            ground_truth_lines@.map_values(|t: String| t@),
        ),
        n <= ground_truth_lines@.len(),
{
    let ghost ext = extracted_lines@.map_values(|t: String| t@);
    let ghost gt = ground_truth_lines@.map_values(|t: String| t@);
    let mut trimmed: Vec<Vec<char>> = Vec::new();
    let mut j: usize = 0;
    while j < extracted_lines.len()
        invariant
            j <= extracted_lines@.len(),
            ext == extracted_lines@.map_values(|t: String| t@),
            trimmed@.len() == j,
            forall|k: int| 0 <= k < j ==> (#[trigger] trimmed@[k])@ == trim(ext[k]),
        decreases extracted_lines@.len() - j,
    {
        trimmed.push(trim_chars(&chars_of(extracted_lines[j].as_str())));
        j = j + 1;
    }
    let mut n: usize = 0;
    let mut i: usize = 0;
    while i < ground_truth_lines.len()
        invariant
            i <= ground_truth_lines@.len(),
            ext == extracted_lines@.map_values(|t: String| t@),
            gt == ground_truth_lines@.map_values(|t: String| t@),
            trimmed@.len() == ext.len(),
            forall|k: int| 0 <= k < ext.len() ==> (#[trigger] trimmed@[k])@ == trim(ext[k]),
            n == count_reproduced(ext, gt.take(i as int)),
            n <= i,
        decreases ground_truth_lines@.len() - i,
    {
        assert(gt.take(i + 1).drop_last() =~= gt.take(i as int));
        assert(gt.take(i + 1).last() == gt[i as int]);
        let g = trim_chars(&chars_of(ground_truth_lines[i].as_str()));
        let mut found = false;
        let mut k: usize = 0;
        while k < trimmed.len() && !found
            invariant
                k <= trimmed@.len(),
                trimmed@.len() == ext.len(),
                forall|m: int| 0 <= m < ext.len() ==> (#[trigger] trimmed@[m])@ == trim(ext[m]),
                g@ == trim(gt[i as int]),
                found ==> line_reproduced(ext, gt[i as int]),
                !found ==> forall|m: int| 0 <= m < k ==> trim(ext[m]) != trim(gt[i as int]),
            decreases trimmed@.len() - k,
        {
            if chars_eq(&trimmed[k], &g) {
                found = true;
            }
            k = k + 1;
        }
        if found {
            n = n + 1;
        }
        i = i + 1;
    }
    assert(gt.take(ground_truth_lines@.len() as int) =~= gt);
    n
}


/// Confusion counts and matched `(predicted_index, ground_truth_index)` pairs for one
/// region class.
#[derive(Debug, Clone, PartialEq, Eq)]
pub struct ClassMatch {
    /// Predictions matched to a ground-truth region of the same class.
    pub true_positives: usize,
    /// Predictions left unmatched.
    pub false_positives: usize,
    /// Ground-truth regions left unmatched.
    pub false_negatives: usize,
    /// `(predicted_index, ground_truth_index)` pairs, in the order they were matched.
    pub matches: Vec<(usize, usize)>,
}

impl ClassMatch {
    /// The confusion counts of one class from its matching: every match is a true
    /// positive, the other predictions are false positives and the other ground-truth
    /// regions false negatives.
    pub fn from_matches(predicted: usize, ground_truth: usize, matches: Vec<(usize, usize)>) -> (m: ClassMatch)
        requires
            matches@.len() <= predicted,
            matches@.len() <= ground_truth,
        ensures
            m.true_positives == matches@.len(),
            m.false_positives == predicted - matches@.len(),
            m.false_negatives == ground_truth - matches@.len(),
            m.matches@ == matches@,
    {
        let tp = matches.len();
        ClassMatch {
            true_positives: tp,
            false_positives: predicted - tp,
            false_negatives: ground_truth - tp,
            matches,
        }
    }
}


/// The character-level Levenshtein distance between `a` and `b`.
pub fn char_edit_distance(a: &str, b: &str) -> (d: usize)
    requires
        a@.len() < usize::MAX,
        b@.len() < usize::MAX,
    ensures
        d == edit_distance(a@, b@),
{
    let xs = chars_of(a);
    let ys = chars_of(b);
    let mut eq: Vec<Vec<bool>> = Vec::new();
    let mut i: usize = 0;
    while i < xs.len()
        invariant
            i <= xs@.len(),
            eq@.len() == i,
            forall|k: int| 0 <= k < i ==> (#[trigger] eq@[k])@.len() == ys@.len(),
            forall|k: int, l: int| 0 <= k < i && 0 <= l < ys@.len() ==> (#[trigger] eq@[k]@[l]) == (xs@[k] == ys@[l]),
        decreases xs@.len() - i,
    {
        let mut row: Vec<bool> = Vec::new();
        let mut j: usize = 0;
        while j < ys.len()
            invariant
                i < xs@.len(),
                j <= ys@.len(),
                row@.len() == j,
                forall|l: int| 0 <= l < j ==> (#[trigger] row@[l]) == (xs@[i as int] == ys@[l]),
            decreases ys@.len() - j,
        {
            row.push(xs[i] == ys[j]);
            j = j + 1;
        }
        eq.push(row);
        i = i + 1;
    }
    edit_distance_table::<char>(&eq, xs.len(), ys.len(), Ghost(a@), Ghost(b@))
}


/// Distinct characters have distinct code points.
proof fn lemma_code_point_injective(c: char, d: char)
    ensures
        c != d ==> c as u32 != d as u32,
{
    assert((c as u32) as int == c as int);
    assert((d as u32) as int == d as int);
}

/// Pushing `c` onto `s` adds one copy of `c` to its multiset and leaves the rest.
proof fn lemma_push_count(s: Seq<char>, c: char, d: char)
    ensures
        s.push(c).to_multiset().count(d) == s.to_multiset().count(d) + if d == c { 1int } else { 0 },
{
    vstd::seq_lib::to_multiset_build(s, c);
    vstd::multiset::lemma_insert_increases_count_by_1(s.to_multiset(), c);
    vstd::multiset::lemma_insert_other_elements_unchanged(s.to_multiset(), c, d);
}

/// The non-whitespace characters of `s`, in order.
pub open spec fn non_whitespace(s: Seq<char>) -> Seq<char>
    decreases s.len(),
{
    if s.len() == 0 {
        Seq::empty()
    } else if spec_is_whitespace(s.last()) {
        non_whitespace(s.drop_last())
    } else {
        non_whitespace(s.drop_last()).push(s.last())
    }
}

/// The ground-truth characters an extraction recovered: the multiset intersection of
/// the two texts' non-whitespace characters.
pub open spec fn recovered_chars(extracted: Seq<char>, ground_truth: Seq<char>) -> Multiset<char> {
    non_whitespace(ground_truth).to_multiset().intersection_with(non_whitespace(extracted).to_multiset())
}

/// Adding one ground-truth character `c` to `g` adds `c` to its intersection with
/// `available` exactly when `available` still has a copy of `c` not matched in `g`.
proof fn lemma_intersection_push(g: Seq<char>, c: char, available: Multiset<char>)
    ensures
        g.to_multiset().count(c) < available.count(c) ==> g.push(c).to_multiset().intersection_with(available)
            =~= g.to_multiset().intersection_with(available).insert(c),
        g.to_multiset().count(c) >= available.count(c) ==> g.push(c).to_multiset().intersection_with(available)
            =~= g.to_multiset().intersection_with(available),
{
    broadcast use vstd::seq_lib::group_to_multiset_ensures;
    broadcast use vstd::multiset::group_multiset_axioms;
    broadcast use vstd::multiset::group_multiset_properties;
    let before = g.to_multiset().intersection_with(available);
    let after = g.push(c).to_multiset().intersection_with(available);
    assert forall|x: char| #[trigger] after.count(x) == if x == c && g.to_multiset().count(c) < available.count(c) {
        before.count(x) + 1
    } else {
        before.count(x)
    } by {
        vstd::multiset::lemma_intersection_count(g.to_multiset(), available, x);
        vstd::multiset::lemma_intersection_count(g.push(c).to_multiset(), available, x);
    }
    if g.to_multiset().count(c) < available.count(c) {
        assert forall|x: char| after.count(x) == #[trigger] before.insert(c).count(x) by {}
    }
}

/// Every recovered character is a ground-truth character, so recall never exceeds one.
pub proof fn lemma_recovered_at_most_ground_truth(extracted: Seq<char>, ground_truth: Seq<char>)
    ensures
        recovered_chars(extracted, ground_truth).len() <= non_whitespace(ground_truth).len(),
    decreases ground_truth.len(),
{
    broadcast use vstd::seq_lib::group_to_multiset_ensures;
    broadcast use vstd::multiset::group_multiset_axioms;
    broadcast use vstd::multiset::group_multiset_properties;
    let g = non_whitespace(ground_truth);
    let e = non_whitespace(extracted).to_multiset();
    if ground_truth.len() == 0 {
        assert(g.to_multiset() =~= Multiset::empty());
        assert(g.to_multiset().intersection_with(e) =~= Multiset::empty()) by {
            assert forall|x: char| #[trigger] g.to_multiset().intersection_with(e).count(x) == 0 by {
                vstd::multiset::lemma_intersection_count(g.to_multiset(), e, x);
            }
        }
    } else {
        lemma_recovered_at_most_ground_truth(extracted, ground_truth.drop_last());
        let c = ground_truth.last();
        if !spec_is_whitespace(c) {
            lemma_intersection_push(non_whitespace(ground_truth.drop_last()), c, e);
        }
    }
}

/// An extraction that reproduces the ground truth recovers every one of its
/// non-whitespace characters (recall one).
pub proof fn lemma_identical_text_recovers_everything(text: Seq<char>)
    ensures
        recovered_chars(text, text).len() == non_whitespace(text).len(),
{
    broadcast use vstd::seq_lib::group_to_multiset_ensures;
    broadcast use vstd::multiset::group_multiset_axioms;
    let m = non_whitespace(text).to_multiset();
    assert(m.intersection_with(m) =~= m) by {
        assert forall|x: char| #[trigger] m.intersection_with(m).count(x) == m.count(x) by {
            vstd::multiset::lemma_intersection_count(m, m, x);
        }
    }
}

/// The two counts behind character-extraction recall: how many of the ground truth's
/// non-whitespace characters the extraction recovered (their multiset intersection),
/// and how many there are. Recall is the first over the second (`1` when the second
/// is zero).
pub fn char_recall_counts(extracted: &str, ground_truth: &str) -> (r: (usize, usize))
    ensures
        r.0 == recovered_chars(extracted@, ground_truth@).len(),
        r.1 == non_whitespace(ground_truth@).len(),
        r.0 <= r.1,
{
    broadcast use vstd::std_specs::hash::group_hash_axioms;
    broadcast use vstd::seq_lib::group_to_multiset_ensures;
    broadcast use vstd::multiset::group_multiset_axioms;
    broadcast use vstd::multiset::group_multiset_properties;
    let xs = chars_of(extracted);
    let ys = chars_of(ground_truth);
    // How many copies of each extracted character are still unmatched.
    let mut available: HashMap<u32, usize> = HashMap::new();
    let mut i: usize = 0;
    assert(xs@.take(0) =~= Seq::<char>::empty());
    while i < xs.len()
        invariant
            i <= xs@.len(),
            xs@ == extracted@,
            forall|c: char| #![trigger non_whitespace(xs@.take(i as int)).to_multiset().count(c)]
                available@.contains_key(c as u32)
                    ==> available@[c as u32] == non_whitespace(xs@.take(i as int)).to_multiset().count(c),
            forall|c: char| #![trigger non_whitespace(xs@.take(i as int)).to_multiset().count(c)]
                !available@.contains_key(c as u32)
                    ==> non_whitespace(xs@.take(i as int)).to_multiset().count(c) == 0,
            forall|c: char| #![trigger non_whitespace(xs@.take(i as int)).to_multiset().count(c)]
                non_whitespace(xs@.take(i as int)).to_multiset().count(c) <= i,
        decreases xs@.len() - i,
    {
        let c = xs[i];
        let ghost before = non_whitespace(xs@.take(i as int));
        assert(xs@.take(i + 1).drop_last() =~= xs@.take(i as int));
        if !is_whitespace(c) {
            let now: usize = match available.get(&(c as u32)) {
                Some(n) => *n,
                None => 0,
            };
            assert(now == before.to_multiset().count(c));
            available.insert(c as u32, now + 1);
            assert(non_whitespace(xs@.take(i + 1)) == before.push(c));
            assert forall|d: char| #![trigger non_whitespace(xs@.take(i + 1)).to_multiset().count(d)]
                available@.contains_key(d as u32)
                    ==> available@[d as u32] == non_whitespace(xs@.take(i + 1)).to_multiset().count(d) by {
                lemma_push_count(before, c, d);
                lemma_code_point_injective(c, d);
            }
            assert forall|d: char| #![trigger non_whitespace(xs@.take(i + 1)).to_multiset().count(d)]
                !available@.contains_key(d as u32)
                    ==> non_whitespace(xs@.take(i + 1)).to_multiset().count(d) == 0 by {
                lemma_push_count(before, c, d);
            }
            assert forall|d: char| #![trigger non_whitespace(xs@.take(i + 1)).to_multiset().count(d)]
                non_whitespace(xs@.take(i + 1)).to_multiset().count(d) <= i + 1 by {
                lemma_push_count(before, c, d);
            }
        } else {
            assert(non_whitespace(xs@.take(i + 1)) == before);
        }
        i = i + 1;
    }
    assert(xs@.take(xs@.len() as int) =~= xs@);
    let ghost em = non_whitespace(extracted@).to_multiset();

    // Each ground-truth character is recovered while an unmatched copy remains.
    let mut recovered: usize = 0;
    let mut total: usize = 0;
    let mut j: usize = 0;
    assert(ys@.take(0) =~= Seq::<char>::empty());
    assert(Seq::<char>::empty().to_multiset().intersection_with(em) =~= Multiset::empty()) by {
        assert forall|x: char| #[trigger] Seq::<char>::empty().to_multiset().intersection_with(em).count(x) == 0 by {
            vstd::multiset::lemma_intersection_count(Seq::<char>::empty().to_multiset(), em, x);
        }
    }
    while j < ys.len()
        invariant
            j <= ys@.len(),
            ys@ == ground_truth@,
            em == non_whitespace(extracted@).to_multiset(),
            total == non_whitespace(ys@.take(j as int)).len(),
            recovered == non_whitespace(ys@.take(j as int)).to_multiset().intersection_with(em).len(),
            recovered <= total <= j,
            forall|c: char| #![trigger em.count(c)]
                available@.contains_key(c as u32)
                    ==> available@[c as u32] + min(non_whitespace(ys@.take(j as int)).to_multiset().count(c) as int, em.count(c) as int) == em.count(c),
            forall|c: char| #![trigger em.count(c)]
                !available@.contains_key(c as u32) ==> em.count(c) == 0,
        decreases ys@.len() - j,
    {
        let c = ys[j];
        let ghost gp = non_whitespace(ys@.take(j as int));
        assert(ys@.take(j + 1).drop_last() =~= ys@.take(j as int));
        if !is_whitespace(c) {
            assert(non_whitespace(ys@.take(j + 1)) == gp.push(c));
            proof {
                lemma_intersection_push(gp, c, em);
            }
            let left: usize = match available.get(&(c as u32)) {
                Some(n) => *n,
                None => 0,
            };
            assert(left == em.count(c) - min(gp.to_multiset().count(c) as int, em.count(c) as int));
            if left > 0 {
                available.insert(c as u32, left - 1);
                recovered = recovered + 1;
            }
            total = total + 1;
            assert forall|d: char| #![trigger em.count(d)]
                available@.contains_key(d as u32)
                    ==> available@[d as u32] + min(gp.push(c).to_multiset().count(d) as int, em.count(d) as int) == em.count(d) by {
                lemma_push_count(gp, c, d);
                lemma_code_point_injective(c, d);
            }
        } else {
            assert(non_whitespace(ys@.take(j + 1)) == gp);
        }
        j = j + 1;
    }
    assert(ys@.take(ys@.len() as int) =~= ys@);
    (recovered, total)
}


/// One class's detection counts, pooled over pages.
#[derive(Debug, Clone, Copy, PartialEq, Eq, Structural)]
pub struct PooledCounts {
    /// Matched predictions.
    pub true_positives: usize,
    /// Unmatched predictions.
    pub false_positives: usize,
    /// Unmatched ground-truth regions.
    pub false_negatives: usize,
}

/// Some page's matching produced counts for class `c`.
pub open spec fn class_matched(ms: Seq<(RegionClass, ClassMatch)>, c: RegionClass) -> bool {
    exists|i: int| 0 <= i < ms.len() && (#[trigger] ms[i]).0 == c
}

/// The true positives of class `c`, summed over the per-page matchings `ms`.
pub open spec fn pooled_true_positives(ms: Seq<(RegionClass, ClassMatch)>, c: RegionClass) -> nat
    decreases ms.len(),
{
    if ms.len() == 0 {
        0
    } else {
        pooled_true_positives(ms.drop_last(), c) + if ms.last().0 == c { ms.last().1.true_positives as nat } else { 0 }
    }
}

/// The false positives of class `c`, summed over the per-page matchings `ms`.
pub open spec fn pooled_false_positives(ms: Seq<(RegionClass, ClassMatch)>, c: RegionClass) -> nat
    decreases ms.len(),
{
    if ms.len() == 0 {
        0
    } else {
        pooled_false_positives(ms.drop_last(), c) + if ms.last().0 == c { ms.last().1.false_positives as nat } else { 0 }
    }
}

/// The false negatives of class `c`, summed over the per-page matchings `ms`.
pub open spec fn pooled_false_negatives(ms: Seq<(RegionClass, ClassMatch)>, c: RegionClass) -> nat
    decreases ms.len(),
{
    if ms.len() == 0 {
        0
    } else {
        pooled_false_negatives(ms.drop_last(), c) + if ms.last().0 == c { ms.last().1.false_negatives as nat } else { 0 }
    }
}

/// The pooled sums of a prefix of the matchings never exceed those of all of them.
proof fn lemma_pooled_prefix(ms: Seq<(RegionClass, ClassMatch)>, j: int, c: RegionClass)
    requires
        0 <= j <= ms.len(),
    ensures
        pooled_true_positives(ms.take(j), c) <= pooled_true_positives(ms, c),
        pooled_false_positives(ms.take(j), c) <= pooled_false_positives(ms, c),
        pooled_false_negatives(ms.take(j), c) <= pooled_false_negatives(ms, c),
    decreases ms.len() - j,
{
    if j < ms.len() {
        lemma_pooled_prefix(ms, j + 1, c);
        assert(ms.take(j + 1).drop_last() =~= ms.take(j));
    } else {
        assert(ms.take(j) =~= ms);
    }
}

/// Every region class, in rank order.
fn classes_by_rank() -> (v: Vec<RegionClass>)
    ensures
        v@.len() == 11,
        forall|c: RegionClass| v@[spec_region_class_rank(c) as int] == c,
        forall|i: int| 0 <= i < 11 ==> spec_region_class_rank(#[trigger] v@[i]) == i,
{
    vec![
        RegionClass::Caption,
        RegionClass::Footnote,
        RegionClass::Formula,
        RegionClass::ListItem,
        RegionClass::PageFooter,
        RegionClass::PageHeader,
        RegionClass::Picture,
        RegionClass::SectionHeader,
        RegionClass::Table,
        RegionClass::Text,
        RegionClass::Title,
    ]
}

/// Pools per-page class matchings across pages: one slot per region class, in rank
/// order, holding the class's summed counts, or `None` if no page's matching has the
/// class. `matches` lists every page's `(class, matching)` pairs.
pub fn pool_class_counts(matches: &[(RegionClass, ClassMatch)]) -> (r: Vec<(RegionClass, Option<PooledCounts>)>)
    requires
        forall|c: RegionClass| pooled_true_positives(matches@, c) <= usize::MAX
            && pooled_false_positives(matches@, c) <= usize::MAX
            && pooled_false_negatives(matches@, c) <= usize::MAX,
    ensures
        r@.len() == 11,
        forall|c: RegionClass| #![trigger spec_region_class_rank(c)] {
            let slot = r@[spec_region_class_rank(c) as int];
            &&& slot.0 == c
            &&& (slot.1 is Some <==> class_matched(matches@, c))
            &&& (slot.1 matches Some(p) ==> p.true_positives == pooled_true_positives(matches@, c)
                && p.false_positives == pooled_false_positives(matches@, c)
                && p.false_negatives == pooled_false_negatives(matches@, c))
        },
{
    let classes = classes_by_rank();
    let mut slots: Vec<(RegionClass, Option<PooledCounts>)> = Vec::new();
    let mut k: usize = 0;
    while k < 11
        invariant
            k <= 11,
            classes@.len() == 11,
            forall|i: int| 0 <= i < 11 ==> spec_region_class_rank(#[trigger] classes@[i]) == i,
            slots@.len() == k,
            forall|i: int| 0 <= i < k ==> (#[trigger] slots@[i]) == (classes@[i], None::<PooledCounts>),
        decreases 11 - k,
    {
        slots.push((classes[k], None));
        k = k + 1;
    }
    let mut j: usize = 0;
    assert(matches@.take(0) =~= Seq::<(RegionClass, ClassMatch)>::empty());
    while j < matches.len()
        invariant
            j <= matches@.len(),
            slots@.len() == 11,
            forall|c: RegionClass| pooled_true_positives(matches@, c) <= usize::MAX
                && pooled_false_positives(matches@, c) <= usize::MAX
                && pooled_false_negatives(matches@, c) <= usize::MAX,
            forall|c: RegionClass| #![trigger spec_region_class_rank(c)] {
                let slot = slots@[spec_region_class_rank(c) as int];
                &&& slot.0 == c
                &&& (slot.1 is Some <==> class_matched(matches@.take(j as int), c))
                &&& (slot.1 matches Some(p) ==> p.true_positives == pooled_true_positives(matches@.take(j as int), c)
                    && p.false_positives == pooled_false_positives(matches@.take(j as int), c)
                    && p.false_negatives == pooled_false_negatives(matches@.take(j as int), c))
                &&& (slot.1 is None ==> pooled_true_positives(matches@.take(j as int), c) == 0
                    && pooled_false_positives(matches@.take(j as int), c) == 0
                    && pooled_false_negatives(matches@.take(j as int), c) == 0)
            },
        decreases matches@.len() - j,
    {
        let ghost before = matches@.take(j as int);
        let ghost after = matches@.take(j + 1);
        assert(after.drop_last() =~= before);
        let class = matches[j].0;
        let m = &matches[j].1;
        let slot_index = region_class_rank(class) as usize;
        proof {
            lemma_pooled_prefix(matches@, j + 1, class);
        }
        let (tp, fp, fn_) = match slots[slot_index].1 {
            Some(p) => (p.true_positives, p.false_positives, p.false_negatives),
            None => (0, 0, 0),
        };
        let updated = PooledCounts {
            true_positives: tp + m.true_positives,
            false_positives: fp + m.false_positives,
            false_negatives: fn_ + m.false_negatives,
        };
        slots.set(slot_index, (class, Some(updated)));
        assert forall|c: RegionClass| #![trigger spec_region_class_rank(c)]
            class_matched(after, c) == (class_matched(before, c) || c == class) by {
            if class_matched(after, c) && !class_matched(before, c) {
                let i = choose|i: int| 0 <= i < after.len() && (#[trigger] after[i]).0 == c;
                if i < j {
                    assert(before[i] == after[i]);
                }
            }
            if class_matched(before, c) {
                let i = choose|i: int| 0 <= i < before.len() && (#[trigger] before[i]).0 == c;
                assert(after[i] == before[i]);
            }
            if c == class {
                assert(after[j as int].0 == c);
            }
        }
        assert forall|c: RegionClass| c != class implies spec_region_class_rank(c) != spec_region_class_rank(class) by {}
        j = j + 1;
    }
    assert(matches@.take(matches@.len() as int) =~= matches@);
    slots
}

/// The number of regions of class `c` in `classes`.
pub open spec fn class_count(classes: Seq<RegionClass>, c: RegionClass) -> nat
    decreases classes.len(),
{
    if classes.len() == 0 {
        0
    } else {
        class_count(classes.drop_last(), c) + if classes.last() == c { 1nat } else { 0 }
    }
}

proof fn lemma_class_count_bound(classes: Seq<RegionClass>, c: RegionClass)
    ensures
        class_count(classes, c) <= classes.len(),
    decreases classes.len(),
{
    if classes.len() > 0 {
        lemma_class_count_bound(classes.drop_last(), c);
    }
}

/// The support of each region class, one slot per class in rank order: how many of
/// the ground-truth regions' `classes` it has.
pub fn class_support(classes: &[RegionClass]) -> (r: Vec<(RegionClass, usize)>)
    ensures
        r@.len() == 11,
        forall|c: RegionClass| #![trigger spec_region_class_rank(c)]
            r@[spec_region_class_rank(c) as int] == (c, class_count(classes@, c) as usize),
{
    let order = classes_by_rank();
    let mut slots: Vec<(RegionClass, usize)> = Vec::new();
    let mut k: usize = 0;
    while k < 11
        invariant
            k <= 11,
            order@.len() == 11,
            forall|i: int| 0 <= i < 11 ==> spec_region_class_rank(#[trigger] order@[i]) == i,
            slots@.len() == k,
            forall|i: int| 0 <= i < k ==> (#[trigger] slots@[i]) == (order@[i], 0usize),
        decreases 11 - k,
    {
        slots.push((order[k], 0));
        k = k + 1;
    }
    let mut j: usize = 0;
    assert(classes@.take(0) =~= Seq::<RegionClass>::empty());
    while j < classes.len()
        invariant
            j <= classes@.len(),
            slots@.len() == 11,
            forall|c: RegionClass| #![trigger spec_region_class_rank(c)]
                slots@[spec_region_class_rank(c) as int] == (c, class_count(classes@.take(j as int), c) as usize),
        decreases classes@.len() - j,
    {
        let ghost before = classes@.take(j as int);
        assert(classes@.take(j + 1).drop_last() =~= before);
        let class = classes[j];
        let slot_index = region_class_rank(class) as usize;
        proof {
            lemma_class_count_bound(before, class);
        }
        let n = slots[slot_index].1;
        slots.set(slot_index, (class, n + 1));
        assert forall|c: RegionClass| c != class implies spec_region_class_rank(c) != spec_region_class_rank(class) by {}
        j = j + 1;
    }
    assert(classes@.take(classes@.len() as int) =~= classes@);
    slots
}


/// A ground-truth line counts whenever some extracted line equals it after trimming, at
/// any position: when every ground-truth line has such a match the count is the number
/// of ground-truth lines, and when none has one it is zero.
pub proof fn lemma_line_grouping_counts_matches_anywhere(extracted: Seq<Seq<char>>, ground_truth: Seq<Seq<char>>)
    ensures
        (forall|i: int| 0 <= i < ground_truth.len() ==> exists|j: int| 0 <= j < extracted.len()
            && #[trigger] trim(extracted[j]) == trim(#[trigger] ground_truth[i]))
            ==> count_reproduced(extracted, ground_truth) == ground_truth.len(),
        (forall|i: int, j: int| 0 <= i < ground_truth.len() && 0 <= j < extracted.len()
            ==> trim(#[trigger] extracted[j]) != trim(#[trigger] ground_truth[i]))
            ==> count_reproduced(extracted, ground_truth) == 0,
    decreases ground_truth.len(),
{
    if ground_truth.len() > 0 {
        let prev = ground_truth.drop_last();
        lemma_line_grouping_counts_matches_anywhere(extracted, prev);
        let n = ground_truth.len() - 1;
        if forall|i: int| 0 <= i < ground_truth.len() ==> exists|j: int| 0 <= j < extracted.len()
            && #[trigger] trim(extracted[j]) == trim(#[trigger] ground_truth[i]) {
            assert forall|i: int| 0 <= i < prev.len() implies exists|j: int| 0 <= j < extracted.len()
                && #[trigger] trim(extracted[j]) == trim(#[trigger] prev[i]) by {
                assert(prev[i] == ground_truth[i]);
            }
            assert(ground_truth[n] == ground_truth.last());
        }
        if forall|i: int, j: int| 0 <= i < ground_truth.len() && 0 <= j < extracted.len()
            ==> trim(#[trigger] extracted[j]) != trim(#[trigger] ground_truth[i]) {
            assert forall|i: int, j: int| 0 <= i < prev.len() && 0 <= j < extracted.len()
                implies trim(#[trigger] extracted[j]) != trim(#[trigger] prev[i]) by {
                assert(prev[i] == ground_truth[i]);
            }
            assert forall|j: int| 0 <= j < extracted.len() implies trim(extracted[j]) != trim(ground_truth.last()) by {
                assert(ground_truth[n] == ground_truth.last());
            }
        }
    }
}

/// Reordering the extracted lines does not change the count: it depends only on which
/// lines were extracted, not on where.
pub proof fn lemma_line_grouping_ignores_order(e1: Seq<Seq<char>>, e2: Seq<Seq<char>>, ground_truth: Seq<Seq<char>>)
    requires
        e1.to_multiset() == e2.to_multiset(),
    ensures
        count_reproduced(e1, ground_truth) == count_reproduced(e2, ground_truth),
    decreases ground_truth.len(),
{
    broadcast use vstd::seq_lib::group_to_multiset_ensures;
    if ground_truth.len() > 0 {
        lemma_line_grouping_ignores_order(e1, e2, ground_truth.drop_last());
        let g = ground_truth.last();
        if line_reproduced(e1, g) {
            let j = choose|j: int| 0 <= j < e1.len() && trim(e1[j]) == trim(g);
            assert(e1.contains(e1[j]));
            vstd::seq_lib::to_multiset_contains(e1, e1[j]);
            vstd::seq_lib::to_multiset_contains(e2, e1[j]);
            assert(e2.contains(e1[j]));
            let k = choose|k: int| 0 <= k < e2.len() && e2[k] == e1[j];
            assert(trim(e2[k]) == trim(g));
        }
        if line_reproduced(e2, g) {
            let j = choose|j: int| 0 <= j < e2.len() && trim(e2[j]) == trim(g);
            assert(e2.contains(e2[j]));
            vstd::seq_lib::to_multiset_contains(e2, e2[j]);
            vstd::seq_lib::to_multiset_contains(e1, e2[j]);
            assert(e1.contains(e2[j]));
            let k = choose|k: int| 0 <= k < e1.len() && e1[k] == e2[j];
            assert(trim(e1[k]) == trim(g));
        }
    }
}

} // verus!
