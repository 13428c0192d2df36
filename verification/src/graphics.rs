//! Grouping of ruling lines into table grids: the connected components of the
//! "lines touch" relation, found by repeatedly merging the groups of touching lines.
use vstd::prelude::*;

verus! {

/// Every label equal to `from` becomes `to`.
pub open spec fn relabel(roots: Seq<int>, from: int, to: int) -> Seq<int> {
    Seq::new(roots.len(), |x: int| if roots[x] == from { to } else { roots[x] })
}

/// Merging the groups of lines `i` and `j`: `i`'s group takes `j`'s label.
pub open spec fn union_step(roots: Seq<int>, i: int, j: int) -> Seq<int> {
    if roots[i] == roots[j] {
        roots
    } else {
        relabel(roots, roots[i], roots[j])
    }
}

/// The labels after merging line `i` with each later line `j < j_end` it touches, in
/// increasing `j`.
pub open spec fn row_unions(touches: Seq<Seq<bool>>, roots: Seq<int>, i: int, j_end: int) -> Seq<int>
    decreases j_end - i,
{
    if j_end <= i + 1 {
        roots
    } else {
        let r = row_unions(touches, roots, i, j_end - 1);
        if touches[i][j_end - 1] {
            union_step(r, i, j_end - 1)
        } else {
            r
        }
    }
}

/// The labels after merging every touching pair `i < j` with `i < i_end`, each line
/// starting in a group of its own labelled by its index.
pub open spec fn all_unions(touches: Seq<Seq<bool>>, n: int, i_end: int) -> Seq<int>
    decreases i_end,
{
    if i_end <= 0 {
        Seq::new(n as nat, |x: int| x)
    } else {
        row_unions(touches, all_unions(touches, n, i_end - 1), i_end - 1, n)
    }
}

/// The lines labelled `r`, in increasing order.
pub open spec fn members(roots: Seq<int>, r: int, upto: int) -> Seq<usize>
    decreases upto,
{
    if upto <= 0 {
        Seq::empty()
    } else if roots[upto - 1] == r {
        members(roots, r, upto - 1).push((upto - 1) as usize)
    } else {
        members(roots, r, upto - 1)
    }
}

/// The non-empty groups with labels below `r_end`, in increasing label order.
pub open spec fn groups(roots: Seq<int>, r_end: int) -> Seq<Seq<usize>>
    decreases r_end,
{
    if r_end <= 0 {
        Seq::empty()
    } else {
        let m = members(roots, r_end - 1, roots.len() as int);
        if m.len() > 0 {
            groups(roots, r_end - 1).push(m)
        } else {
            groups(roots, r_end - 1)
        }
    }
}

/// The connected components of `n` lines under `touches`, as `cluster_lines` returns
/// them.
pub open spec fn spec_cluster_lines(touches: Seq<Seq<bool>>, n: int) -> Seq<Seq<usize>> {
    groups(all_unions(touches, n, n), n)
}

/// Labels stay inside `0..n`.
pub open spec fn labels_in_range(roots: Seq<int>, n: int) -> bool {
    roots.len() == n && forall|x: int| 0 <= x < n ==> 0 <= #[trigger] roots[x] < n
}

/// Groups `n` ruling lines into connected components, where `touches[i][j]` (read for
/// `i < j`) says whether lines `i` and `j` lie within the grid tolerance of touching or
/// overlapping. Each component lists its line indices in increasing order; components
/// are ordered by the index that labels them after the merges (each merge relabels
/// line `i`'s group with line `j`'s label, pairs taken in increasing `(i, j)` order).
pub fn cluster_lines(touches: &[Vec<bool>]) -> (components: Vec<Vec<usize>>)
    requires
        forall|i: int| 0 <= i < touches@.len() ==> (#[trigger] touches@[i])@.len() == touches@.len(),
    ensures
        components@.map_values(|c: Vec<usize>| c@) == spec_cluster_lines(
            touches@.map_values(|r: Vec<bool>| r@),
            touches@.len() as int,
        ),
{
    let n = touches.len();
    let ghost t = touches@.map_values(|r: Vec<bool>| r@);
    let mut roots: Vec<usize> = Vec::new();
    while roots.len() < n
        invariant
            roots@.len() <= n,
            forall|x: int| 0 <= x < roots@.len() ==> #[trigger] roots@[x] == x,
        decreases n - roots@.len(),
    {
        let x = roots.len();
        roots.push(x);
    }
    assert(roots@.map_values(|r: usize| r as int) =~= all_unions(t, n as int, 0));
    let mut i: usize = 0;
    while i < n
        invariant
            n == touches@.len(),
            t == touches@.map_values(|r: Vec<bool>| r@),
            forall|k: int| 0 <= k < n ==> (#[trigger] touches@[k])@.len() == n,
            i <= n,
            roots@.len() == n,
            roots@.map_values(|r: usize| r as int) == all_unions(t, n as int, i as int),
            labels_in_range(roots@.map_values(|r: usize| r as int), n as int),
        decreases n - i,
    {
        let ghost start = roots@.map_values(|r: usize| r as int);
        let mut j: usize = i + 1;
        assert(row_unions(t, start, i as int, j as int) == start);
        while j < n
            invariant
                n == touches@.len(),
                t == touches@.map_values(|r: Vec<bool>| r@),
                forall|k: int| 0 <= k < n ==> (#[trigger] touches@[k])@.len() == n,
                i < n,
                i + 1 <= j <= n,
                roots@.len() == n,
                roots@.map_values(|r: usize| r as int) == row_unions(t, start, i as int, j as int),
                labels_in_range(roots@.map_values(|r: usize| r as int), n as int),
            decreases n - j,
        {
            let ghost before = roots@.map_values(|r: usize| r as int);
            assert(t[i as int][j as int] == touches@[i as int]@[j as int]);
            if touches[i][j] {
                let ri = roots[i];
                let rj = roots[j];
                if ri != rj {
                    let mut x: usize = 0;
                    while x < n
                        invariant
                            roots@.len() == n,
                            x <= n,
                            i < n,
                            j < n,
                            before.len() == n,
                            ri as int == before[i as int],
                            rj as int == before[j as int],
                            labels_in_range(before, n as int),
                            forall|y: int| 0 <= y < x ==> #[trigger] roots@[y] as int == relabel(before, ri as int, rj as int)[y],
                            forall|y: int| x <= y < n ==> #[trigger] roots@[y] as int == before[y],
                        decreases n - x,
                    {
                        if roots[x] == ri {
                            roots.set(x, rj);
                        }
                        x = x + 1;
                    }
                    assert(roots@.map_values(|r: usize| r as int) =~= relabel(before, ri as int, rj as int));
                } else {
                    assert(roots@.map_values(|r: usize| r as int) =~= before);
                }
            }
            j = j + 1;
        }
        i = i + 1;
    }
    let ghost fin = roots@.map_values(|r: usize| r as int);
    let mut components: Vec<Vec<usize>> = Vec::new();
    let mut r: usize = 0;
    while r < n
        invariant
            r <= n,
            roots@.len() == n,
            fin == roots@.map_values(|r: usize| r as int),
            components@.map_values(|c: Vec<usize>| c@) == groups(fin, r as int),
        decreases n - r,
    {
        let mut m: Vec<usize> = Vec::new();
        let mut x: usize = 0;
        while x < n
            invariant
                x <= n,
                roots@.len() == n,
                fin == roots@.map_values(|r: usize| r as int),
                m@ == members(fin, r as int, x as int),
            decreases n - x,
        {
            if roots[x] == r {
                m.push(x);
            }
            x = x + 1;
        }
        let ghost before = components@.map_values(|c: Vec<usize>| c@);
        if m.len() > 0 {
            components.push(m);
            assert(components@.map_values(|c: Vec<usize>| c@) =~= before.push(m@));
        }
        r = r + 1;
    }
    components
}


proof fn lemma_row_unions(touches: Seq<Seq<bool>>, roots: Seq<int>, i: int, j_end: int, a: int, b: int, j: int)
    requires
        0 <= i < roots.len(),
        j_end <= roots.len(),
        0 <= a < roots.len(),
        0 <= b < roots.len(),
    ensures
        row_unions(touches, roots, i, j_end).len() == roots.len(),
        roots[a] == roots[b] ==> row_unions(touches, roots, i, j_end)[a] == row_unions(touches, roots, i, j_end)[b],
        i < j < j_end && touches[i][j] ==> row_unions(touches, roots, i, j_end)[i] == row_unions(touches, roots, i, j_end)[j],
    decreases j_end - i,
{
    if j_end > i + 1 {
        lemma_row_unions(touches, roots, i, j_end - 1, a, b, j);
        let r = row_unions(touches, roots, i, j_end - 1);
        if i < j < j_end && touches[i][j] {
            lemma_row_unions(touches, roots, i, j_end - 1, i, j, j);
            if j < j_end - 1 {
                assert(r[i] == r[j]);
            } else {
                assert(r.len() == roots.len());
            }
        }
    }
}

proof fn lemma_all_unions(touches: Seq<Seq<bool>>, n: int, i_end: int, a: int, b: int, i: int, j: int)
    requires
        0 <= i_end <= n,
        0 <= a < n,
        0 <= b < n,
    ensures
        all_unions(touches, n, i_end).len() == n,
        (a == b || (all_unions(touches, n, 0)[a] == all_unions(touches, n, 0)[b])) ==> all_unions(touches, n, i_end)[a] == all_unions(touches, n, i_end)[b],
        0 <= i < j < n && i < i_end && touches[i][j] ==> all_unions(touches, n, i_end)[i] == all_unions(touches, n, i_end)[j],
    decreases i_end,
{
    if i_end > 0 {
        lemma_all_unions(touches, n, i_end - 1, a, b, i, j);
        let prev = all_unions(touches, n, i_end - 1);
        lemma_row_unions(touches, prev, i_end - 1, n, a, b, j);
        if 0 <= i < j < n && i < i_end && touches[i][j] {
            if i < i_end - 1 {
                lemma_all_unions(touches, n, i_end - 1, i, j, i, j);
                lemma_row_unions(touches, prev, i_end - 1, n, i, j, j);
            } else {
                lemma_row_unions(touches, prev, i_end - 1, n, i, j, j);
            }
        }
    }
}

/// Touching lines are grouped together: whenever `touches[i][j]` holds for `i < j`,
/// lines `i` and `j` end up with the same label, so they fall in the same component.
pub proof fn lemma_touching_lines_share_a_component(touches: Seq<Seq<bool>>, n: int, i: int, j: int)
    requires
        0 <= i < j < n,
        touches[i][j],
    ensures
        all_unions(touches, n, n)[i] == all_unions(touches, n, n)[j],
{
    lemma_all_unions(touches, n, n, i, j, i, j);
}


/// Lines `x` and `y` touch (`touches` is read above its diagonal).
pub open spec fn lines_touch(touches: Seq<Seq<bool>>, x: int, y: int) -> bool {
    (x < y && touches[x][y]) || (y < x && touches[y][x])
}

/// `p` is a chain of lines among `0..n`, each touching the next.
pub open spec fn is_touch_chain(touches: Seq<Seq<bool>>, n: int, p: Seq<int>) -> bool {
    &&& p.len() > 0
    &&& forall|k: int| 0 <= k < p.len() ==> 0 <= #[trigger] p[k] < n
    &&& forall|k: int| 0 <= k < p.len() - 1 ==> lines_touch(touches, #[trigger] p[k], p[k + 1])
}

/// A chain of touching lines links `a` to `b`.
pub open spec fn linked(touches: Seq<Seq<bool>>, n: int, a: int, b: int) -> bool {
    exists|p: Seq<int>| #[trigger] is_touch_chain(touches, n, p) && p[0] == a && p.last() == b
}

proof fn lemma_linked_self(touches: Seq<Seq<bool>>, n: int, a: int)
    requires
        0 <= a < n,
    ensures
        linked(touches, n, a, a),
{
    let p = seq![a];
    assert(is_touch_chain(touches, n, p));
}

proof fn lemma_linked_trans(touches: Seq<Seq<bool>>, n: int, a: int, b: int, c: int)
    requires
        linked(touches, n, a, b),
        linked(touches, n, b, c),
    ensures
        linked(touches, n, a, c),
{
    let p = choose|p: Seq<int>| #[trigger] is_touch_chain(touches, n, p) && p[0] == a && p.last() == b;
    let q = choose|q: Seq<int>| #[trigger] is_touch_chain(touches, n, q) && q[0] == b && q.last() == c;
    let r = p + q.drop_first();
    assert forall|k: int| 0 <= k < r.len() implies 0 <= #[trigger] r[k] < n by {
        if k >= p.len() {
            assert(r[k] == q[k - p.len() + 1]);
        }
    }
    assert forall|k: int| 0 <= k < r.len() - 1 implies lines_touch(touches, #[trigger] r[k], r[k + 1]) by {
        if k < p.len() - 1 {
            assert(r[k] == p[k] && r[k + 1] == p[k + 1]);
        } else if k == p.len() - 1 {
            assert(r[k] == q[0] && r[k + 1] == q[1]);
        } else {
            assert(r[k] == q[k - p.len() + 1] && r[k + 1] == q[k - p.len() + 2]);
        }
    }
    assert(is_touch_chain(touches, n, r));
    if q.len() == 1 {
        assert(r =~= p);
    } else {
        assert(r.last() == q.last());
    }
}

proof fn lemma_linked_edge(touches: Seq<Seq<bool>>, n: int, a: int, b: int)
    requires
        0 <= a < n,
        0 <= b < n,
        lines_touch(touches, a, b),
    ensures
        linked(touches, n, a, b),
{
    let p = seq![a, b];
    assert(is_touch_chain(touches, n, p));
}

/// Lines with the same label are linked.
pub open spec fn labels_linked(touches: Seq<Seq<bool>>, n: int, roots: Seq<int>) -> bool {
    &&& roots.len() == n
    &&& forall|a: int, b: int| 0 <= a < n && 0 <= b < n && #[trigger] roots[a] == #[trigger] roots[b]
        ==> linked(touches, n, a, b)
}

proof fn lemma_union_keeps_linked(touches: Seq<Seq<bool>>, n: int, roots: Seq<int>, i: int, j: int)
    requires
        labels_linked(touches, n, roots),
        0 <= i < j < n,
        touches[i][j],
    ensures
        labels_linked(touches, n, union_step(roots, i, j)),
{
    if roots[i] != roots[j] {
        let r = union_step(roots, i, j);
        lemma_linked_edge(touches, n, i, j);
        lemma_linked_edge(touches, n, j, i);
        assert forall|a: int, b: int| 0 <= a < n && 0 <= b < n && #[trigger] r[a] == #[trigger] r[b]
            implies linked(touches, n, a, b) by {
            if roots[a] == roots[i] && roots[b] != roots[i] {
                assert(roots[j] == roots[b]);
                assert(linked(touches, n, a, i));
                assert(linked(touches, n, j, b));
                lemma_linked_trans(touches, n, a, i, j);
                lemma_linked_trans(touches, n, a, j, b);
            } else if roots[a] != roots[i] && roots[b] == roots[i] {
                assert(roots[a] == roots[j]);
                assert(linked(touches, n, a, j));
                assert(linked(touches, n, i, b));
                lemma_linked_trans(touches, n, a, j, i);
                lemma_linked_trans(touches, n, a, i, b);
            } else {
                assert(roots[a] == roots[b]);
            }
        }
    }
}

proof fn lemma_row_unions_linked(touches: Seq<Seq<bool>>, n: int, roots: Seq<int>, i: int, j_end: int)
    requires
        labels_linked(touches, n, roots),
        0 <= i < n,
        j_end <= n,
    ensures
        labels_linked(touches, n, row_unions(touches, roots, i, j_end)),
    decreases j_end - i,
{
    if j_end > i + 1 {
        lemma_row_unions_linked(touches, n, roots, i, j_end - 1);
        let r = row_unions(touches, roots, i, j_end - 1);
        if touches[i][j_end - 1] {
            lemma_union_keeps_linked(touches, n, r, i, j_end - 1);
        }
    }
}

proof fn lemma_all_unions_linked(touches: Seq<Seq<bool>>, n: int, i_end: int)
    requires
        0 <= i_end <= n,
    ensures
        labels_linked(touches, n, all_unions(touches, n, i_end)),
    decreases i_end,
{
    if i_end <= 0 {
        let r = all_unions(touches, n, i_end);
        assert forall|a: int, b: int| 0 <= a < n && 0 <= b < n && #[trigger] r[a] == #[trigger] r[b]
            implies linked(touches, n, a, b) by {
            lemma_linked_self(touches, n, a);
        }
    } else {
        lemma_all_unions_linked(touches, n, i_end - 1);
        lemma_row_unions_linked(touches, n, all_unions(touches, n, i_end - 1), i_end - 1, n);
    }
}

proof fn lemma_members_labelled(roots: Seq<int>, r: int, upto: int)
    requires
        0 <= upto <= roots.len() <= usize::MAX,
    ensures
        forall|k: int| 0 <= k < members(roots, r, upto).len() ==> 0 <= #[trigger] members(roots, r, upto)[k] < upto
            && roots[members(roots, r, upto)[k] as int] == r,
    decreases upto,
{
    if upto > 0 {
        lemma_members_labelled(roots, r, upto - 1);
        let prev = members(roots, r, upto - 1);
        if roots[upto - 1] == r {
            assert forall|k: int| 0 <= k < members(roots, r, upto).len() implies 0 <= #[trigger] members(roots, r, upto)[k] < upto
                && roots[members(roots, r, upto)[k] as int] == r by {
                if k < prev.len() {
                    assert(members(roots, r, upto)[k] == prev[k]);
                } else {
                    assert(members(roots, r, upto)[k] == (upto - 1) as usize);
                }
            }
        }
    }
}

proof fn lemma_groups_are_members(roots: Seq<int>, r_end: int)
    ensures
        forall|c: int| 0 <= c < groups(roots, r_end).len() ==> exists|r: int|
            #[trigger] groups(roots, r_end)[c] == members(roots, r, roots.len() as int),
    decreases r_end,
{
    if r_end > 0 {
        lemma_groups_are_members(roots, r_end - 1);
        let g = groups(roots, r_end - 1);
        let m = members(roots, r_end - 1, roots.len() as int);
        if m.len() > 0 {
            assert forall|c: int| 0 <= c < groups(roots, r_end).len() implies exists|r: int|
                #[trigger] groups(roots, r_end)[c] == members(roots, r, roots.len() as int) by {
                if c < g.len() {
                    assert(groups(roots, r_end)[c] == g[c]);
                } else {
                    assert(groups(roots, r_end)[c] == members(roots, r_end - 1, roots.len() as int));
                }
            }
        }
    }
}

/// Two lines share a component only if a chain of touching pairs links them: lines that
/// no such chain links (for instance when no pair touches at all) end up in different
/// components. (With [`lemma_touching_lines_share_a_component`], the components are
/// exactly the connected groups of touching lines.)
pub proof fn lemma_components_are_linked(touches: Seq<Seq<bool>>, n: int, c: int, k1: int, k2: int)
    requires
        0 <= n <= usize::MAX,
        0 <= c < spec_cluster_lines(touches, n).len(),
        0 <= k1 < spec_cluster_lines(touches, n)[c].len(),
        0 <= k2 < spec_cluster_lines(touches, n)[c].len(),
    ensures
        linked(touches, n, spec_cluster_lines(touches, n)[c][k1] as int, spec_cluster_lines(touches, n)[c][k2] as int),
{
    let roots = all_unions(touches, n, n);
    lemma_all_unions_linked(touches, n, n);
    lemma_groups_are_members(roots, n);
    let r = choose|r: int| #[trigger] groups(roots, n)[c] == members(roots, r, roots.len() as int);
    lemma_members_labelled(roots, r, roots.len() as int);
    let m = members(roots, r, roots.len() as int);
    assert(roots[m[k1] as int] == roots[m[k2] as int]);
}

} // verus!
