//! Page prioritization for mining regression cases: how far reading-order assembly
//! reorders each page's blocks, and the most-reordered-first ranking of pages.
use vstd::prelude::*;
use crate::metrics::{edit_distance, reading_order_edit_distance};
use crate::text::{chars_eq, chars_of};

verus! {

/// One page's reading-order reordering severity: how far the assembled block order
/// diverges from the naive, as-extracted order it started from.
#[derive(Debug, Clone, PartialEq, Eq, Structural)]
pub struct PageReorderRank {
    /// The page's index.
    pub page_index: usize,
    /// Number of blocks on the page.
    pub block_count: usize,
    /// Edit distance between the page's naive block order and the assembled order,
    /// each block identified by its text.
    pub reorder_edit_distance: usize,
}

/// One DocLayNet page's mining rank, with the identifiers needed to locate the page.
#[derive(Debug, Clone)]
pub struct MinedPage {
    /// The page's DocLayNet COCO `image_id`.
    pub image_id: i64,
    /// The page's rendered-image file name.
    pub file_name: String,
    /// The reordering-severity rank for this page.
    pub rank: PageReorderRank,
}

/// One page's block texts in their naive (as-extracted) order and after reading-order
/// assembly.
#[derive(Debug, Clone)]
pub struct PageOrders {
    /// The page's index.
    pub page_index: usize,
    /// Block texts in the as-extracted order.
    pub naive: Vec<String>,
    /// Block texts in the assembled order.
    pub assembled: Vec<String>,
}

/// A type whose values are ranked by a total preorder.
pub trait Ranked: Sized {
    /// `self` may come before `other` in a ranking (ties allowed).
    spec fn ranks_no_later(&self, other: &Self) -> bool;

    /// Exec form of [`Ranked::ranks_no_later`].
    fn no_later_than(&self, other: &Self) -> (b: bool)
        ensures
            b == self.ranks_no_later(other),
    ;

    /// Any two values can be ranked.
    proof fn lemma_ranking_total(a: &Self, b: &Self)
        ensures
            a.ranks_no_later(b) || b.ranks_no_later(a),
    ;

    /// The ranking is transitive.
    proof fn lemma_ranking_transitive(a: &Self, b: &Self, c: &Self)
        requires
            a.ranks_no_later(b),
            b.ranks_no_later(c),
        ensures
            a.ranks_no_later(c),
    ;
}

impl Ranked for PageReorderRank {
    /// More reordered first; ties by ascending page index.
    open spec fn ranks_no_later(&self, other: &Self) -> bool {
        self.reorder_edit_distance > other.reorder_edit_distance || (self.reorder_edit_distance
            == other.reorder_edit_distance && self.page_index <= other.page_index)
    }

    fn no_later_than(&self, other: &Self) -> (b: bool) {
        self.reorder_edit_distance > other.reorder_edit_distance || (self.reorder_edit_distance
            == other.reorder_edit_distance && self.page_index <= other.page_index)
    }

    proof fn lemma_ranking_total(a: &Self, b: &Self) {
    }

    proof fn lemma_ranking_transitive(a: &Self, b: &Self, c: &Self) {
    }
}

impl Ranked for MinedPage {
    /// More reordered first; ties by ascending image id.
    open spec fn ranks_no_later(&self, other: &Self) -> bool {
        self.rank.reorder_edit_distance > other.rank.reorder_edit_distance || (
        self.rank.reorder_edit_distance == other.rank.reorder_edit_distance && self.image_id
            <= other.image_id)
    }

    fn no_later_than(&self, other: &Self) -> (b: bool) {
        self.rank.reorder_edit_distance > other.rank.reorder_edit_distance || (
        self.rank.reorder_edit_distance == other.rank.reorder_edit_distance && self.image_id
            <= other.image_id)
    }

    proof fn lemma_ranking_total(a: &Self, b: &Self) {
    }

    proof fn lemma_ranking_transitive(a: &Self, b: &Self, c: &Self) {
    }
}

/// `x` inserted into `s` after every element it does not rank before, scanning from
/// the back (stable insertion).
pub open spec fn insert_ranked<T: Ranked>(s: Seq<T>, x: T) -> Seq<T>
    decreases s.len(),
{
    if s.len() == 0 || s.last().ranks_no_later(&x) {
        s.push(x)
    } else {
        insert_ranked(s.drop_last(), x).push(s.last())
    }
}

/// The stable sort of `s` by rank (insertion sort).
pub open spec fn sort_ranked<T: Ranked>(s: Seq<T>) -> Seq<T>
    decreases s.len(),
{
    if s.len() == 0 {
        s
    } else {
        insert_ranked(sort_ranked(s.drop_last()), s.last())
    }
}

/// `s` is ordered by rank.
pub open spec fn is_ranked<T: Ranked>(s: Seq<T>) -> bool {
    forall|i: int, j: int| #![trigger s[i], s[j]] 0 <= i < j < s.len() ==> s[i].ranks_no_later(&s[j])
}

proof fn lemma_insert_bounded<T: Ranked>(s: Seq<T>, x: T, b: T)
    requires
        forall|i: int| 0 <= i < s.len() ==> (#[trigger] s[i]).ranks_no_later(&b),
        x.ranks_no_later(&b),
    ensures
        insert_ranked(s, x).len() == s.len() + 1,
        forall|i: int| 0 <= i < insert_ranked(s, x).len() ==> (#[trigger] insert_ranked(s, x)[i]).ranks_no_later(&b),
    decreases s.len(),
{
    if s.len() > 0 && !s.last().ranks_no_later(&x) {
        lemma_insert_bounded(s.drop_last(), x, b);
    }
}

proof fn lemma_insert_keeps_ranked<T: Ranked>(s: Seq<T>, x: T)
    requires
        is_ranked(s),
    ensures
        is_ranked(insert_ranked(s, x)),
        insert_ranked(s, x).to_multiset() == s.to_multiset().insert(x),
    decreases s.len(),
{
    broadcast use vstd::seq_lib::group_to_multiset_ensures;
    if s.len() == 0 || s.last().ranks_no_later(&x) {
        assert forall|i: int, j: int| #![trigger s.push(x)[i], s.push(x)[j]] 0 <= i < j < s.len() + 1 implies s.push(x)[i].ranks_no_later(&s.push(x)[j]) by {
            if j == s.len() {
                if i < s.len() - 1 {
                    T::lemma_ranking_transitive(&s[i], &s.last(), &x);
                }
            } else {
                assert(s.push(x)[i] == s[i] && s.push(x)[j] == s[j]);
            }
        }
    } else {
        let l = s.last();
        let s2 = s.drop_last();
        assert(is_ranked(s2)) by {
            assert forall|i: int, j: int| #![trigger s2[i], s2[j]] 0 <= i < j < s2.len() implies s2[i].ranks_no_later(&s2[j]) by {
                assert(s2[i] == s[i] && s2[j] == s[j]);
            }
        }
        lemma_insert_keeps_ranked(s2, x);
        T::lemma_ranking_total(&l, &x);
        assert forall|i: int| 0 <= i < s2.len() implies (#[trigger] s2[i]).ranks_no_later(&l) by {
            assert(s[i] == s2[i]);
            assert(s[s.len() - 1] == l);
        }
        lemma_insert_bounded(s2, x, l);
        let t = insert_ranked(s2, x);
        assert forall|i: int, j: int| #![trigger t.push(l)[i], t.push(l)[j]] 0 <= i < j < t.len() + 1 implies t.push(l)[i].ranks_no_later(&t.push(l)[j]) by {
            if j == t.len() {
                assert(t.push(l)[i] == t[i]);
            } else {
                assert(t.push(l)[i] == t[i] && t.push(l)[j] == t[j]);
            }
        }
        assert(s2.push(l) =~= s);
        assert(t.push(l).to_multiset() =~= s.to_multiset().insert(x));
    }
}

/// Sorting by rank orders the items (each no later than every item after it) and keeps
/// exactly the items it was given, each as often as it occurred.
pub proof fn lemma_sort_ranked<T: Ranked>(s: Seq<T>)
    ensures
        is_ranked(sort_ranked(s)),
        sort_ranked(s).to_multiset() == s.to_multiset(),
        sort_ranked(s).len() == s.len(),
    decreases s.len(),
{
    broadcast use vstd::seq_lib::group_to_multiset_ensures;
    if s.len() > 0 {
        lemma_sort_ranked(s.drop_last());
        lemma_insert_keeps_ranked(sort_ranked(s.drop_last()), s.last());
        assert(s.drop_last().push(s.last()) =~= s);
    }
    assert(sort_ranked(s).to_multiset().len() == sort_ranked(s).len());
    assert(s.to_multiset().len() == s.len());
}

proof fn lemma_insert_at<T: Ranked>(s: Seq<T>, x: T, j: int)
    requires
        0 <= j <= s.len(),
        j == 0 || s[j - 1].ranks_no_later(&x),
        forall|m: int| j <= m < s.len() ==> !(#[trigger] s[m]).ranks_no_later(&x),
    ensures
        insert_ranked(s, x) == s.insert(j, x),
    decreases s.len(),
{
    if s.len() == j {
        assert(s.insert(j, x) =~= s.push(x));
    } else {
        assert(!s.last().ranks_no_later(&x));
        lemma_insert_at(s.drop_last(), x, j);
        assert(s.drop_last().insert(j, x).push(s.last()) =~= s.insert(j, x));
    }
}

/// Sorts `items` by rank, stably (equal-ranked items keep their order).
fn sort_by_rank<T: Ranked>(items: Vec<T>) -> (r: Vec<T>)
    ensures
        r@ == sort_ranked(items@),
{
    let ghost orig = items@;
    let mut rest = items;
    let mut out: Vec<T> = Vec::new();
    let mut i: usize = 0;
    let n = rest.len();
    while i < n
        invariant
            n == orig.len(),
            i <= n,
            rest@ == orig.skip(i as int),
            out@ == sort_ranked(orig.take(i as int)),
        decreases n - i,
    {
        assert(rest@[0] == orig[i as int]);
        let x = rest.remove(0);
        assert(rest@ =~= orig.skip(i + 1));
        let mut j: usize = out.len();
        while j > 0 && !out[j - 1].no_later_than(&x)
            invariant
                j <= out@.len(),
                forall|m: int| j <= m < out@.len() ==> !(#[trigger] out@[m]).ranks_no_later(&x),
            decreases j,
        {
            j = j - 1;
        }
        proof {
            lemma_insert_at(out@, x, j as int);
            assert(orig.take(i + 1).drop_last() =~= orig.take(i as int));
            assert(orig.take(i + 1).last() == x);
        }
        out.insert(j, x);
        i = i + 1;
    }
    assert(orig.take(n as int) =~= orig);
    out
}

/// The rank of one page: its index, block count, and the edit distance between its
/// assembled and naive block orders.
pub open spec fn page_rank(p: PageOrders) -> PageReorderRank {
    PageReorderRank {
        page_index: p.page_index,
        block_count: p.naive@.len() as usize,
        reorder_edit_distance: edit_distance(
            p.assembled@.map_values(|t: String| t@),
            p.naive@.map_values(|t: String| t@),
        ) as usize,
    }
}

/// The references of a run of `String`s.
fn refs(v: &Vec<String>) -> (r: Vec<&str>)
    ensures
        r@.map_values(|s: &str| s@) == v@.map_values(|t: String| t@),
        r@.len() == v@.len(),
{
    let mut r: Vec<&str> = Vec::new();
    let mut i: usize = 0;
    while i < v.len()
        invariant
            i <= v@.len(),
            r@.len() == i,
            r@.map_values(|s: &str| s@) == v@.take(i as int).map_values(|t: String| t@),
        decreases v@.len() - i,
    {
        let ghost before = r@;
        r.push(v[i].as_str());
        assert(r@.map_values(|s: &str| s@) =~= before.map_values(|s: &str| s@).push(v@[i as int]@));
        assert(v@.take(i + 1).map_values(|t: String| t@) =~= v@.take(i as int).map_values(|t: String| t@).push(
            v@[i as int]@,
        ));
        i = i + 1;
    }
    assert(v@.take(v@.len() as int) =~= v@);
    r
}

/// Ranks pages by reading-order reordering severity, most-reordered first (ties broken
/// by ascending page index; equal ranks keep their input order). Each page's distance
/// is the edit distance between its assembled and naive block-text orders.
pub fn rank_pages_by_reorder(pages: &[PageOrders]) -> (r: Vec<PageReorderRank>)
    requires
        forall|i: int| 0 <= i < pages@.len() ==> (#[trigger] pages@[i]).naive@.len() < usize::MAX
            && pages@[i].assembled@.len() < usize::MAX,
    ensures
        r@ == sort_ranked(pages@.map_values(|p: PageOrders| page_rank(p))),
{
    let ghost ranks_view = pages@.map_values(|p: PageOrders| page_rank(p));
    let mut ranks: Vec<PageReorderRank> = Vec::new();
    let mut i: usize = 0;
    while i < pages.len()
        invariant
            i <= pages@.len(),
            ranks_view == pages@.map_values(|p: PageOrders| page_rank(p)),
            forall|k: int| 0 <= k < pages@.len() ==> (#[trigger] pages@[k]).naive@.len() < usize::MAX
                && pages@[k].assembled@.len() < usize::MAX,
            ranks@ == ranks_view.take(i as int),
        decreases pages@.len() - i,
    {
        let page = &pages[i];
        let naive = refs(&page.naive);
        let assembled = refs(&page.assembled);
        let d = reading_order_edit_distance(assembled.as_slice(), naive.as_slice());
        let rank = PageReorderRank {
            page_index: page.page_index,
            block_count: page.naive.len(),
            reorder_edit_distance: d,
        };
        assert(rank == page_rank(pages@[i as int]));
        ranks.push(rank);
        assert(ranks@ =~= ranks_view.take(i + 1));
        i = i + 1;
    }
    assert(ranks_view.take(pages@.len() as int) =~= ranks_view);
    sort_by_rank(ranks)
}

/// Orders mined pages most-reordered first (ties by ascending image id; equal ranks
/// keep their input order).
pub fn rank_mined_pages(mined: Vec<MinedPage>) -> (r: Vec<MinedPage>)
    ensures
        r@ == sort_ranked(mined@),
{
    sort_by_rank(mined)
}


/// The positions `i < upto` whose text does not occur at an earlier position, in order.
pub open spec fn first_occurrences(texts: Seq<Seq<char>>, upto: int) -> Seq<usize>
    decreases upto,
{
    if upto <= 0 {
        Seq::empty()
    } else {
        let rest = first_occurrences(texts, upto - 1);
        if exists|j: int| 0 <= j < upto - 1 && #[trigger] texts[j] == texts[upto - 1] {
            rest
        } else {
            rest.push((upto - 1) as usize)
        }
    }
}

/// The positions of the first block with each distinct text, in block order: the
/// deduplication a minimized repro starts from (block text is the identity the
/// reordering signal uses, so repeated texts are ambiguous).
pub fn first_of_each_text(texts: &[String]) -> (keep: Vec<usize>)
    ensures
        keep@ == first_occurrences(texts@.map_values(|t: String| t@), texts@.len() as int),
{
    let ghost views = texts@.map_values(|t: String| t@);
    let mut keep: Vec<usize> = Vec::new();
    let mut i: usize = 0;
    while i < texts.len()
        invariant
            i <= texts@.len(),
            views == texts@.map_values(|t: String| t@),
            keep@ == first_occurrences(views, i as int),
        decreases texts@.len() - i,
    {
        let cur = chars_of(texts[i].as_str());
        let mut j: usize = 0;
        let mut seen = false;
        while j < i && !seen
            invariant
                j <= i < texts@.len(),
                views == texts@.map_values(|t: String| t@),
                cur@ == views[i as int],
                seen ==> exists|k: int| 0 <= k < i && views[k] == views[i as int],
                !seen ==> forall|k: int| 0 <= k < j ==> views[k] != views[i as int],
            decreases i - j,
        {
            let other = chars_of(texts[j].as_str());
            if chars_eq(&other, &cur) {
                assert(views[j as int] == views[i as int]);
                seen = true;
            }
            j = j + 1;
        }
        if !seen {
            keep.push(i);
        }
        i = i + 1;
    }
    keep
}

/// A greedy shrink of a reordering repro in progress: `kept` are the block positions
/// still in the repro, and the first `next` of them have not been tried yet (positions
/// are tried from the last to the first, each dropped if the rest still reorders).
#[derive(Debug, Clone)]
pub struct ReproShrink {
    /// Block positions still in the repro, in block order.
    pub kept: Vec<usize>,
    /// How many of `kept` (from the front) are still to be tried.
    pub next: usize,
}

impl ReproShrink {
    /// Starts shrinking `kept`, with every position still to be tried.
    pub fn start(kept: Vec<usize>) -> (s: ReproShrink)
        ensures
            s.kept@ == kept@,
            s.next == kept@.len(),
    {
        let next = kept.len();
        ReproShrink { kept, next }
    }

    /// The next repro to test, without the last untried position; `None` once every
    /// position has been tried.
    pub fn candidate(&self) -> (c: Option<Vec<usize>>)
        requires
            self.next <= self.kept@.len(),
        ensures
            self.next == 0 ==> c is None,
            self.next > 0 ==> (c matches Some(v) && v@ == self.kept@.remove(self.next - 1)),
    {
        if self.next == 0 {
            return None;
        }
        let mut v: Vec<usize> = Vec::new();
        let mut k: usize = 0;
        let skip = self.next - 1;
        while k < self.kept.len()
            invariant
                k <= self.kept@.len(),
                skip < self.kept@.len(),
                v@ == (if k <= skip { self.kept@.take(k as int) } else { self.kept@.remove(skip as int).take(k - 1) }),
            decreases self.kept@.len() - k,
        {
            if k != skip {
                let ghost before = v@;
                v.push(self.kept[k]);
                if k < skip {
                    assert(v@ =~= self.kept@.take(k + 1));
                } else {
                    assert(v@ =~= self.kept@.remove(skip as int).take(k as int));
                }
            } else {
                assert(v@ =~= self.kept@.remove(skip as int).take(k as int));
            }
            k = k + 1;
        }
        assert(self.kept@.remove(skip as int).take(self.kept@.len() - 1) =~= self.kept@.remove(skip as int));
        Some(v)
    }

    /// Records the test of [`ReproShrink::candidate`]: the tried position is dropped if
    /// the candidate still reorders, kept otherwise.
    pub fn step(self, candidate_reorders: bool) -> (s: ReproShrink)
        requires
            0 < self.next <= self.kept@.len(),
        ensures
            s.next == self.next - 1,
            s.kept@ == if candidate_reorders { self.kept@.remove(self.next - 1) } else { self.kept@ },
            s.next <= s.kept@.len(),
    {
        let mut kept = self.kept;
        let index = self.next - 1;
        if candidate_reorders {
            kept.remove(index);
        }
        ReproShrink { kept, next: index }
    }
}

} // verus!
