use pdfspatial::batch::{summarize_batch, FileReport};

fn report(pages: usize, chars: usize, elapsed_nanos: u128, ok: bool) -> FileReport {
    FileReport { pages, chars, elapsed_nanos, ok }
}

#[test]
fn batch_summary_totals_failures_and_slowest() {
    let reports = vec![
        report(3, 120, 50, true),
        report(0, 0, 90, false),
        report(5, 300, 70, true),
        report(0, 0, 10, false),
    ];
    let summary = summarize_batch(&reports);
    assert_eq!(summary.failed, 2);
    assert_eq!(summary.total_pages, 8);
    assert_eq!(summary.total_chars, 420);
    assert_eq!(summary.slowest, Some(1));
    assert_eq!(summary.failed_files, vec![1, 3]);
}

#[test]
fn batch_summary_picks_the_last_of_equally_slow_files() {
    let reports = vec![report(1, 1, 40, true), report(1, 1, 40, true), report(1, 1, 20, true)];
    assert_eq!(summarize_batch(&reports).slowest, Some(1));
}

#[test]
fn empty_batch_has_no_slowest_file() {
    let summary = summarize_batch(&[]);
    assert_eq!(summary.slowest, None);
    assert_eq!((summary.failed, summary.total_pages, summary.total_chars), (0, 0, 0));
    assert!(summary.failed_files.is_empty());
}
