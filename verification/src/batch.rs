//! The end-of-batch summary of a multi-file conversion: failures, page and character
//! totals, and the slowest file.
use vstd::prelude::*;

verus! {

/// What converting one file reported.
#[derive(Debug, Clone, Copy)]
pub struct FileReport {
    /// Pages extracted (0 when the conversion failed).
    pub pages: usize,
    /// Characters extracted (0 when the conversion failed).
    pub chars: usize,
    /// Wall time spent on the file, in nanoseconds.
    pub elapsed_nanos: u128,
    /// Whether the Markdown was produced and written.
    pub ok: bool,
}

/// The totals over a batch; file positions index the batch's reports.
#[derive(Debug, Clone)]
pub struct BatchSummary {
    /// How many files failed.
    pub failed: usize,
    /// Pages over all files.
    pub total_pages: usize,
    /// Characters over all files.
    pub total_chars: usize,
    /// The slowest file (the last of equally slow ones), if there is any file.
    pub slowest: Option<usize>,
    /// The failed files, in batch order.
    pub failed_files: Vec<usize>,
}

/// The number of failed reports.
pub open spec fn count_failed(rs: Seq<FileReport>) -> nat
    decreases rs.len(),
{
    if rs.len() == 0 {
        0
    } else {
        count_failed(rs.drop_last()) + if rs.last().ok { 0nat } else { 1nat }
    }
}

/// The pages over all reports.
pub open spec fn sum_pages(rs: Seq<FileReport>) -> nat
    decreases rs.len(),
{
    if rs.len() == 0 {
        0
    } else {
        sum_pages(rs.drop_last()) + rs.last().pages as nat
    }
}

/// The characters over all reports.
pub open spec fn sum_chars(rs: Seq<FileReport>) -> nat
    decreases rs.len(),
{
    if rs.len() == 0 {
        0
    } else {
        sum_chars(rs.drop_last()) + rs.last().chars as nat
    }
}

/// The position of the slowest report, the last one among equally slow reports (as
/// `Iterator::max_by_key` picks it); `None` for no reports.
pub open spec fn slowest_index(rs: Seq<FileReport>) -> Option<int>
    decreases rs.len(),
{
    if rs.len() == 0 {
        None
    } else {
        match slowest_index(rs.drop_last()) {
            None => Some(rs.len() - 1),
            Some(i) => if rs.last().elapsed_nanos >= rs[i].elapsed_nanos {
                Some(rs.len() - 1)
            } else {
                Some(i)
            },
        }
    }
}

/// The positions of the failed reports, in order.
pub open spec fn failed_positions(rs: Seq<FileReport>) -> Seq<usize>
    decreases rs.len(),
{
    if rs.len() == 0 {
        Seq::empty()
    } else if rs.last().ok {
        failed_positions(rs.drop_last())
    } else {
        failed_positions(rs.drop_last()).push((rs.len() - 1) as usize)
    }
}

proof fn lemma_slowest_in_range(rs: Seq<FileReport>)
    ensures
        match slowest_index(rs) {
            None => rs.len() == 0,
            Some(i) => 0 <= i < rs.len(),
        },
    decreases rs.len(),
{
    if rs.len() > 0 {
        lemma_slowest_in_range(rs.drop_last());
    }
}

proof fn lemma_sums_grow(rs: Seq<FileReport>, k: int)
    requires
        0 <= k <= rs.len(),
    ensures
        sum_pages(rs.take(k)) <= sum_pages(rs),
        sum_chars(rs.take(k)) <= sum_chars(rs),
        count_failed(rs.take(k)) <= k,
    decreases rs.len() - k,
{
    lemma_failed_at_most(rs.take(k));
    if k < rs.len() {
        lemma_sums_grow(rs, k + 1);
        assert(rs.take(k + 1).drop_last() =~= rs.take(k));
    } else {
        assert(rs.take(k) =~= rs);
    }
}

proof fn lemma_failed_at_most(rs: Seq<FileReport>)
    ensures
        count_failed(rs) <= rs.len(),
    decreases rs.len(),
{
    if rs.len() > 0 {
        lemma_failed_at_most(rs.drop_last());
    }
}

/// Every failed file is listed once: the failure count is the number of failed positions.
pub proof fn lemma_failed_count_matches_positions(rs: Seq<FileReport>)
    ensures
        count_failed(rs) == failed_positions(rs).len(),
    decreases rs.len(),
{
    if rs.len() > 0 {
        lemma_failed_count_matches_positions(rs.drop_last());
    }
}

/// The slowest report is at least as slow as every report.
pub proof fn lemma_slowest_is_slowest(rs: Seq<FileReport>, k: int)
    requires
        0 <= k < rs.len(),
    ensures
        slowest_index(rs) matches Some(i) && rs[i].elapsed_nanos >= rs[k].elapsed_nanos,
    decreases rs.len(),
{
    lemma_slowest_in_range(rs.drop_last());
    if k < rs.len() - 1 {
        lemma_slowest_is_slowest(rs.drop_last(), k);
    }
}

/// Sums up a batch's reports: the failures (count and positions), the page and
/// character totals, and the slowest file.
pub fn summarize_batch(reports: &[FileReport]) -> (s: BatchSummary)
    requires
        sum_pages(reports@) <= usize::MAX,
        sum_chars(reports@) <= usize::MAX,
    ensures
        s.failed == count_failed(reports@),
        s.total_pages == sum_pages(reports@),
        s.total_chars == sum_chars(reports@),
        s.failed_files@ == failed_positions(reports@),
        match slowest_index(reports@) {
            Some(i) => s.slowest == Some(i as usize),
            None => s.slowest is None,
        },
{
    let mut failed: usize = 0;
    let mut total_pages: usize = 0;
    let mut total_chars: usize = 0;
    let mut slowest: Option<usize> = None;
    let mut failed_files: Vec<usize> = Vec::new();
    let mut i: usize = 0;
    assert(reports@.take(0) =~= Seq::<FileReport>::empty());
    while i < reports.len()
        invariant
            i <= reports@.len(),
            sum_pages(reports@) <= usize::MAX,
            sum_chars(reports@) <= usize::MAX,
            failed == count_failed(reports@.take(i as int)),
            total_pages == sum_pages(reports@.take(i as int)),
            total_chars == sum_chars(reports@.take(i as int)),
            failed_files@ == failed_positions(reports@.take(i as int)),
            match slowest_index(reports@.take(i as int)) {
                Some(k) => slowest == Some(k as usize),
                None => slowest is None,
            },
        decreases reports@.len() - i,
    {
        let r = reports[i];
        let ghost prefix = reports@.take(i + 1);
        assert(prefix.drop_last() =~= reports@.take(i as int));
        proof {
            lemma_sums_grow(reports@, i + 1);
            lemma_slowest_in_range(reports@.take(i as int));
        }
        total_pages = total_pages + r.pages;
        total_chars = total_chars + r.chars;
        if !r.ok {
            failed = failed + 1;
            failed_files.push(i);
        }
        slowest = match slowest {
            None => Some(i),
            Some(k) => if r.elapsed_nanos >= reports[k].elapsed_nanos {
                Some(i)
            } else {
                Some(k)
            },
        };
        i = i + 1;
    }
    assert(reports@.take(reports@.len() as int) =~= reports@);
    BatchSummary { failed, total_pages, total_chars, slowest, failed_files }
}

} // verus!
