use storage_search::file_group::{FileKey, FileMeta};
use storage_search::index_filter::{
    build_bitmap, dispatch_groups, exceeds_skip_threshold, file_in_range, merge_histograms,
    select_collector, summarize_file_search, take_round, Collector, FileAction, FileIndexResult,
    FilterProgress, IndexError, OptimizeRule,
};
use storage_search::index_filter::start_index_filter;

fn file(key: &str, min_ts: i64, max_ts: i64) -> FileKey {
    FileKey {
        key: key.to_string(),
        meta: FileMeta {
            min_ts,
            max_ts,
            records: 100,
            index_size: 10,
            ..Default::default()
        },
        ..Default::default()
    }
}

#[test]
fn collector_depends_on_range_and_rule() {
    assert_eq!(select_collector(false, Some(OptimizeRule::SimpleCount)), Collector::DocSet);
    assert_eq!(select_collector(true, None), Collector::DocSet);
    assert_eq!(
        select_collector(true, Some(OptimizeRule::SimpleSelect(10, true))),
        Collector::TopDocs(10, true)
    );
    assert_eq!(select_collector(true, Some(OptimizeRule::SimpleCount)), Collector::Count);
    assert_eq!(
        select_collector(true, Some(OptimizeRule::SimpleHistogram(0, 10, 4))),
        Collector::Histogram(0, 10, 4)
    );
}

#[test]
fn file_range_is_half_open() {
    let f = file("a", 10, 19);
    assert!(file_in_range(&f.meta, 10, 20));
    assert!(!file_in_range(&f.meta, 11, 20));
    assert!(!file_in_range(&f.meta, 10, 19));
}

#[test]
fn skip_threshold_zero_is_disabled() {
    assert!(!exceeds_skip_threshold(100, 100, 0, None));
}

#[test]
fn skip_threshold_percentage() {
    assert!(exceeds_skip_threshold(51, 100, 50, None));
    assert!(!exceeds_skip_threshold(50, 100, 50, None));
    assert!(!exceeds_skip_threshold(90, 100, 50, Some(OptimizeRule::SimpleCount)));
    assert!(exceeds_skip_threshold(76, 150, 50, Some(OptimizeRule::SimpleSelect(5, false))));
}

#[test]
fn bitmap_marks_matching_rows() {
    let b = build_bitmap(&vec![0, 3], 5).unwrap();
    assert_eq!(b, vec![true, false, false, true, false]);
    assert_eq!(build_bitmap(&vec![1, 5], 5), Err(IndexError::DocIdOutOfRange(5)));
    assert_eq!(build_bitmap(&vec![], 0), Ok(vec![]));
}

#[test]
fn summarize_covers_each_outcome() {
    assert_eq!(
        summarize_file_search(&vec![], 7, vec![], 100, 50, Some(OptimizeRule::SimpleCount), 1),
        Ok(FileIndexResult::Counted(7, vec![]))
    );
    assert_eq!(
        summarize_file_search(&vec![], 0, vec![1, 2], 100, 50, None, 1),
        Ok(FileIndexResult::Counted(0, vec![1, 2]))
    );
    assert_eq!(summarize_file_search(&vec![], 0, vec![], 100, 50, None, 1), Ok(FileIndexResult::NoMatch));
    let many: Vec<u32> = (0..60).collect();
    assert_eq!(summarize_file_search(&many, 0, vec![], 100, 50, None, 1), Ok(FileIndexResult::Skipped));
    assert_eq!(
        summarize_file_search(&vec![1, 2], 0, vec![], 100, 50, None, 2),
        Err(IndexError::MultipleSegments)
    );
    assert_eq!(
        summarize_file_search(&vec![1, 200], 0, vec![], 100, 50, None, 1),
        Err(IndexError::DocIdOutOfRange(200))
    );
    match summarize_file_search(&vec![1, 2], 0, vec![], 4, 0, None, 1) {
        Ok(FileIndexResult::Matched(bitmap, hits)) => {
            assert_eq!(hits, 2);
            assert_eq!(bitmap, vec![false, true, true, false]);
        }
        other => panic!("unexpected {other:?}"),
    }
}

#[test]
fn histograms_add_up_bucketwise() {
    let merged = merge_histograms(&vec![vec![1, 0, 2, 0], vec![0, 3, 0, 1]]);
    assert_eq!(merged, Some(vec![1, 3, 2, 1]));
}

#[test]
fn histograms_with_no_buckets_merge_to_empty() {
    assert_eq!(merge_histograms(&vec![]), Some(vec![]));
    assert_eq!(merge_histograms(&vec![vec![], vec![]]), Some(vec![]));
}

#[test]
fn histogram_overflow_is_reported() {
    assert_eq!(merge_histograms(&vec![vec![u64::MAX, 1], vec![1, 1]]), None);
    assert_eq!(merge_histograms(&vec![vec![u64::MAX], vec![]]), Some(vec![u64::MAX]));
}

#[test]
fn shorter_histograms_count_as_zero_buckets() {
    assert_eq!(merge_histograms(&vec![vec![1, 2, 3], vec![4]]), Some(vec![5, 2, 3]));
}

#[test]
fn histogram_aggregation_over_two_files() {
    let mut progress = FilterProgress::new(false);
    let a = progress.record(Ok(FileIndexResult::Counted(0, vec![1, 0, 2, 0])));
    let b = progress.record(Ok(FileIndexResult::Counted(0, vec![0, 3, 0, 1])));
    assert_eq!(a, FileAction::Drop);
    assert_eq!(b, FileAction::Drop);
    assert_eq!(progress.total_hits, 0);
    assert_eq!(merge_histograms(&progress.histograms), Some(vec![1, 3, 2, 1]));
}

#[test]
fn index_hits_with_all_files_cached() {
    let mut progress = FilterProgress::new(false);
    let rows: Vec<u32> = vec![0, 2, 4, 6, 8];
    let mut actions = vec![];
    for docs in [rows.clone(), vec![], rows.clone()] {
        let result = summarize_file_search(&docs, 0, vec![], 10, 0, None, 1);
        actions.push(progress.record(result));
    }
    progress.end_round(0);
    let attached: Vec<usize> = actions
        .iter()
        .filter_map(|a| match a {
            FileAction::Attach(b) => Some(b.iter().filter(|x| **x).count()),
            _ => None,
        })
        .collect();
    assert_eq!(attached, vec![5, 5]);
    assert_eq!(actions[1], FileAction::Drop);
    assert_eq!(progress.total_hits, 10);
    assert!(!progress.add_filter_back);
    assert!(!progress.no_more_files);
}

#[test]
fn index_missing_on_one_file() {
    let files = vec![file("a", 0, 9), file("b", 10, 19), FileKey { meta: FileMeta { index_size: 0, ..file("c", 20, 29).meta }, ..file("c", 20, 29) }];
    let indexed = files.iter().filter(|f| f.meta.index_size > 0).count();
    let mut progress = FilterProgress::new(indexed != files.len());
    let keep = progress.record(Err(IndexError::MultipleSegments));
    let skipped = progress.record(Ok(FileIndexResult::Skipped));
    assert_eq!(keep, FileAction::Keep);
    assert_eq!(skipped, FileAction::Keep);
    assert!(progress.add_filter_back);
}

#[test]
fn select_limit_stops_search() {
    let mut progress = FilterProgress::new(false);
    progress.record(Ok(FileIndexResult::Matched(vec![true; 3], 3)));
    progress.end_round(5);
    assert!(!progress.no_more_files);
    progress.record(Ok(FileIndexResult::Matched(vec![true; 3], 3)));
    progress.end_round(5);
    assert!(progress.no_more_files);
}

#[test]
fn zero_limit_never_stops() {
    let mut progress = FilterProgress::new(false);
    progress.record(Ok(FileIndexResult::Matched(vec![true; 1000], 1000)));
    progress.end_round(0);
    assert!(!progress.no_more_files);
}

#[test]
fn dispatch_without_limit_makes_single_file_groups() {
    let files = vec![file("a", 0, 9), file("b", 5, 15), file("c", 20, 29)];
    let (groups, limit) = dispatch_groups(files.clone(), Some(OptimizeRule::SimpleSelect(0, true)), 2);
    assert_eq!(limit, 0);
    assert_eq!(groups.len(), 3);
    assert!(groups.iter().all(|g| g.len() == 1));
    let (groups, limit) = dispatch_groups(files.clone(), None, 2);
    assert_eq!(limit, 0);
    assert_eq!(groups.len(), 3);
    let (groups, limit) = dispatch_groups(files, Some(OptimizeRule::SimpleSelect(10, true)), 2);
    assert_eq!(limit, 10);
    assert_eq!(groups.len(), 2);
}

#[test]
fn rounds_take_last_file_of_each_group() {
    let mut groups = vec![vec![file("a", 0, 1), file("b", 2, 3)], vec![], vec![file("c", 4, 5)]];
    let round = take_round(&mut groups);
    let keys: Vec<&str> = round.iter().map(|f| f.key.as_str()).collect();
    assert_eq!(keys, vec!["b", "c"]);
    assert_eq!(groups[0].len(), 1);
    assert!(groups[2].is_empty());
    let round = take_round(&mut groups);
    assert_eq!(round.len(), 1);
    assert_eq!(round[0].key, "a");
    assert!(take_round(&mut groups).is_empty());
}

#[test]
fn select_without_limit_collects_every_match() {
    assert_eq!(select_collector(true, Some(OptimizeRule::SimpleSelect(0, true))), Collector::DocSet);
    assert_eq!(
        select_collector(true, Some(OptimizeRule::SimpleSelect(0, false))),
        select_collector(true, None)
    );
}

#[test]
fn files_without_index_are_kept_and_filtered_again() {
    let mut c = file("c", 20, 29);
    c.meta.index_size = 0;
    let files = vec![file("a", 0, 9), c, file("b", 10, 19)];
    let (indexed, plain, progress) = start_index_filter(files);
    let keys: Vec<&str> = indexed.iter().map(|f| f.key.as_str()).collect();
    assert_eq!(keys, vec!["a", "b"]);
    assert_eq!(plain.len(), 1);
    assert_eq!(plain[0].key, "c");
    assert!(progress.add_filter_back);
    let (_, plain, progress) = start_index_filter(vec![file("a", 0, 9)]);
    assert!(plain.is_empty());
    assert!(!progress.add_filter_back);
}
