use storage_search::cache_plan::ScanStats;
use storage_search::file_group::{FileKey, FileMeta};
use storage_search::scan_plan::{
    accumulate_scan_stats, group_by_schema_version, plan_scan, residual_filter,
    schema_version_for, SearchError, VersionWindow,
};

fn file(key: &str, min_ts: i64, records: i64, size: i64) -> FileKey {
    FileKey {
        key: key.to_string(),
        meta: FileMeta {
            min_ts,
            max_ts: min_ts + 5,
            records,
            original_size: size * 2,
            compressed_size: size,
            index_size: 1,
        },
        ..Default::default()
    }
}

fn windows() -> Vec<VersionWindow> {
    vec![
        VersionWindow { start_dt: 0, end_dt: 100 },
        VersionWindow { start_dt: 100, end_dt: 200 },
        VersionWindow { start_dt: 200, end_dt: i64::MAX },
    ]
}

#[test]
fn schema_version_lookup_by_window() {
    let w = windows();
    assert_eq!(schema_version_for(&w, 0), 0);
    assert_eq!(schema_version_for(&w, 99), 0);
    assert_eq!(schema_version_for(&w, 100), 1);
    assert_eq!(schema_version_for(&w, 5000), 2);
}

#[test]
fn schema_version_lookup_falls_back_to_latest() {
    let w = vec![
        VersionWindow { start_dt: 10, end_dt: 20 },
        VersionWindow { start_dt: 20, end_dt: 30 },
    ];
    assert_eq!(schema_version_for(&w, 5), 1);
    assert_eq!(schema_version_for(&w, 30), 1);
}

#[test]
fn files_grouped_by_version_in_order() {
    let files = vec![file("a", 5, 1, 1), file("b", 150, 1, 1), file("c", 50, 1, 1), file("d", -7, 1, 1)];
    let groups = group_by_schema_version(files, &windows());
    assert_eq!(groups.len(), 3);
    let keys: Vec<Vec<&str>> = groups
        .iter()
        .map(|g| g.iter().map(|f| f.key.as_str()).collect())
        .collect();
    assert_eq!(keys, vec![vec!["a", "c"], vec!["b"], vec!["d"]]);
}

#[test]
fn stats_sum_file_statistics() {
    let files = vec![file("a", 5, 10, 100), file("b", 150, 20, 300)];
    let s = accumulate_scan_stats(&files);
    assert_eq!(s.files, 2);
    assert_eq!(s.records, 30);
    assert_eq!(s.compressed_size, 400);
    assert_eq!(s.original_size, 800);
    assert_eq!(s.idx_scan_size, 2);
    assert_eq!(s.querier_files, 0);
}

#[test]
fn missing_versions_mean_stream_not_found() {
    let r = plan_scan("logs1", None, vec![file("a", 5, 1, 1)]);
    assert_eq!(r.unwrap_err(), SearchError::SearchStreamNotFound("logs1".to_string()));
}

#[test]
fn empty_version_set_gives_empty_plan() {
    let plan = plan_scan("logs1", Some(vec![]), vec![file("a", 5, 1, 1)]).unwrap();
    assert!(plan.groups.is_empty());
    assert_eq!(plan.stats, ScanStats::new());
}

#[test]
fn empty_file_list_gives_empty_plan() {
    let plan = plan_scan("logs1", Some(windows()), vec![]).unwrap();
    assert!(plan.groups.is_empty());
    assert_eq!(plan.stats, ScanStats::new());
}

#[test]
fn plan_groups_and_counts() {
    let files = vec![file("a", 5, 10, 100), file("b", 150, 20, 300), file("c", 7, 1, 1)];
    let plan = plan_scan("logs1", Some(windows()), files).unwrap();
    assert_eq!(plan.groups.len(), 3);
    assert_eq!(plan.groups[0].len(), 2);
    assert_eq!(plan.groups[1].len(), 1);
    assert!(plan.groups[2].is_empty());
    assert_eq!(plan.stats.files, 3);
    assert_eq!(plan.stats.records, 31);
}

#[test]
fn plan_counts_files_for_the_querier() {
    let files = vec![file("a", 5, 10, 100), file("b", 150, 20, 300)];
    let plan = plan_scan("logs1", Some(windows()), files).unwrap();
    assert_eq!(plan.stats.querier_files, 2);
    assert_eq!(plan.stats.files, 2);
}

#[test]
fn negative_sizes_are_summed() {
    let files = vec![file("a", 5, -3, 10), file("b", 6, 5, -4)];
    let s = accumulate_scan_stats(&files);
    assert_eq!(s.records, 2);
    assert_eq!(s.compressed_size, 6);
}

#[test]
fn residual_filter_kept_only_when_added_back() {
    let fields = vec!["f".to_string()];
    assert_eq!(
        residual_filter(true, Some("x = 1"), fields.clone()),
        (Some("x = 1"), fields.clone())
    );
    assert_eq!(residual_filter(false, Some("x = 1"), fields), (None, vec![]));
}
