use pdfspatial::taxonomy::RegionClass;
use pdfspatial::eval::{rank_mined_pages, rank_pages_by_reorder, MinedPage, PageOrders, PageReorderRank};
use pdfspatial::metrics::{char_recall_counts, class_support, pool_class_counts, PooledCounts, keyroots, line_grouping_matches, reading_order_edit_distance, ClassMatch};

fn strings(v: &[&str]) -> Vec<String> {
    v.iter().map(|s| s.to_string()).collect()
}

#[test]
fn rank_pages_by_reorder_ranks_multi_column_page_above_single_column() {
    // Two columns authored interleaved; assembly recovers column-major order.
    let multi_column = PageOrders {
        page_index: 0,
        naive: strings(&["Right one", "Left one", "Right two", "Left two"]),
        assembled: strings(&["Left one", "Left two", "Right one", "Right two"]),
    };
    // Already top-to-bottom, single column: assembly leaves it untouched.
    let single_column = PageOrders {
        page_index: 1,
        naive: strings(&["First", "Second"]),
        assembled: strings(&["First", "Second"]),
    };
    let ranked = rank_pages_by_reorder(&[multi_column, single_column]);

    assert_eq!(ranked.len(), 2);
    assert_eq!(ranked[0].page_index, 0);
    assert_eq!(ranked[0].block_count, 4);
    assert!(ranked[0].reorder_edit_distance > 0);
    assert_eq!(ranked[1].page_index, 1);
    assert_eq!(ranked[1].block_count, 2);
    assert_eq!(ranked[1].reorder_edit_distance, 0);
}

#[test]
fn rank_pages_by_reorder_breaks_ties_by_ascending_page_index() {
    let page = |index: usize| PageOrders {
        page_index: index,
        naive: strings(&["Only block"]),
        assembled: strings(&["Only block"]),
    };
    let ranked = rank_pages_by_reorder(&[page(1), page(0)]);
    assert_eq!(ranked[0].page_index, 0);
    assert_eq!(ranked[1].page_index, 1);
}

#[test]
fn mined_pages_are_ordered_most_reordered_first_then_by_image_id() {
    let mined = |id: i64, d: usize| MinedPage {
        image_id: id,
        file_name: format!("page_{id}.png"),
        rank: PageReorderRank { page_index: 0, block_count: 3, reorder_edit_distance: d },
    };
    let ranked = rank_mined_pages(vec![mined(5, 1), mined(2, 4), mined(9, 1), mined(1, 0), mined(3, 4)]);
    let ids: Vec<i64> = ranked.iter().map(|m| m.image_id).collect();
    assert_eq!(ids, vec![2, 3, 5, 9, 1]);
    assert_eq!(ranked[0].file_name, "page_2.png");
}

#[test]
fn reading_order_edit_distance_matches_the_documented_examples() {
    let extracted = ["the", "quick", "fox"];
    let ground_truth = ["the", "quick", "brown", "fox"];
    assert_eq!(reading_order_edit_distance(&extracted, &ground_truth), 1);
    assert_eq!(reading_order_edit_distance(&extracted, &extracted), 0);
    assert_eq!(reading_order_edit_distance(&ground_truth, &extracted), 1);
    assert_eq!(reading_order_edit_distance(&[], &ground_truth), 4);
    assert_eq!(reading_order_edit_distance(&["a", "b", "c"], &["c", "b", "a"]), 2);
}

#[test]
fn keyroots_are_the_last_node_of_each_leftmost_path() {
    // table(tr(td, td)): postorder td0, td1, tr, table; leftmost leaves 0, 1, 0, 0.
    assert_eq!(keyroots(&[0, 1, 0, 0]), vec![1, 3]);
    assert_eq!(keyroots(&[0]), vec![0]);
    assert_eq!(keyroots(&[]), Vec::<usize>::new());
    assert_eq!(keyroots(&[0, 1, 2, 0]), vec![1, 2, 3]);
}

#[test]
fn line_grouping_counts_trimmed_exact_matches() {
    let extracted = strings(&["Hello world  ", "second line"]);
    let ground_truth = strings(&[" Hello world", "second line", "third line"]);
    assert_eq!(line_grouping_matches(&extracted, &ground_truth), 2);
    assert_eq!(line_grouping_matches(&[], &ground_truth), 0);
}

#[test]
fn class_match_counts_follow_the_matching() {
    let m = ClassMatch::from_matches(3, 2, vec![(0, 1), (2, 0)]);
    assert_eq!((m.true_positives, m.false_positives, m.false_negatives), (2, 1, 0));
    assert_eq!(m.matches, vec![(0, 1), (2, 0)]);
}

#[test]
fn char_recall_counts_a_dropped_letter() {
    assert_eq!(char_recall_counts("Helo world", "Hello world"), (9, 10));
}

#[test]
fn char_recall_counts_identical_text_as_fully_recovered() {
    assert_eq!(char_recall_counts("Hello world", "Hello world"), (10, 10));
}

#[test]
fn char_recall_counts_ignore_whitespace_and_order() {
    assert_eq!(char_recall_counts("dlrow\u{a0}olleh", "hello\t world\n"), (10, 10));
    assert_eq!(char_recall_counts("", "  \n"), (0, 0));
    assert_eq!(char_recall_counts("aaa", "ab"), (1, 2));
    assert_eq!(char_recall_counts("ab", "aaa"), (1, 3));
}

#[test]
fn class_counts_are_pooled_across_pages() {
    let page_one = vec![
        (RegionClass::Text, ClassMatch::from_matches(3, 2, vec![(0, 0), (2, 1)])),
        (RegionClass::Title, ClassMatch::from_matches(1, 0, vec![])),
    ];
    let page_two = vec![(RegionClass::Text, ClassMatch::from_matches(1, 4, vec![(0, 3)]))];
    let all: Vec<(RegionClass, ClassMatch)> = page_one.into_iter().chain(page_two).collect();
    let pooled = pool_class_counts(&all);
    assert_eq!(pooled.len(), 11);
    assert_eq!(pooled[0], (RegionClass::Caption, None));
    assert_eq!(
        pooled[9],
        (
            RegionClass::Text,
            Some(PooledCounts { true_positives: 3, false_positives: 1, false_negatives: 3 })
        )
    );
    assert_eq!(
        pooled[10],
        (
            RegionClass::Title,
            Some(PooledCounts { true_positives: 0, false_positives: 1, false_negatives: 0 })
        )
    );
}

#[test]
fn class_support_counts_ground_truth_regions_per_class() {
    let support = class_support(&[RegionClass::Text, RegionClass::Footnote, RegionClass::Text]);
    assert_eq!(support.len(), 11);
    assert_eq!(support[1], (RegionClass::Footnote, 1));
    assert_eq!(support[9], (RegionClass::Text, 2));
    assert_eq!(support[10], (RegionClass::Title, 0));
}
