use storage_search::file_group::{
    find_max_group_index, group_disjoint, group_files_by_time_range, repartition_sorted_groups,
    sort_by_max_ts, split_by_parity, FileKey, FileMeta,
};

fn create_file_key(min_ts: i64, max_ts: i64) -> FileKey {
    FileKey {
        key: format!("file_{min_ts}_{max_ts}"),
        meta: FileMeta {
            min_ts,
            max_ts,
            ..Default::default()
        },
        ..Default::default()
    }
}

fn assert_non_overlapping(groups: &[Vec<FileKey>]) {
    for group in groups {
        assert!(!group.is_empty());
        for pair in group.windows(2) {
            assert!(pair[1].meta.min_ts > pair[0].meta.max_ts);
        }
    }
}

#[test]
fn test_group_files_by_time_range() {
    let files = vec![
        create_file_key(1, 10),
        create_file_key(11, 20),
        create_file_key(21, 30),
        create_file_key(31, 40),
        create_file_key(41, 50),
    ];
    let partition_num = 3;
    let groups = group_files_by_time_range(files, partition_num);
    assert_eq!(groups.len(), 3);
    assert_non_overlapping(&groups);
}

#[test]
fn test_group_files_by_time_range_with_overlap() {
    let files = vec![
        create_file_key(1, 10),
        create_file_key(5, 15),
        create_file_key(11, 20),
        create_file_key(18, 30),
        create_file_key(31, 40),
        create_file_key(41, 50),
    ];
    let partition_num = 2;
    let groups = group_files_by_time_range(files, partition_num);
    assert_eq!(groups.len(), 2);
    assert_non_overlapping(&groups);
}

#[test]
fn test_group_files_by_time_range_with_less_partitions() {
    let files = vec![create_file_key(1, 10), create_file_key(11, 20)];
    let partition_num = 3;
    let groups = group_files_by_time_range(files, partition_num);
    assert_eq!(groups.len(), 2);
}

#[test]
fn test_repartition_sorted_groups() {
    let groups = vec![
        vec![create_file_key(1, 10), create_file_key(11, 20)],
        vec![create_file_key(21, 30), create_file_key(31, 40)],
    ];
    let partition_num = 4;
    let repartitioned_groups = repartition_sorted_groups(groups, partition_num);
    assert_eq!(repartitioned_groups.len(), 4);
}

#[test]
fn test_repartition_sorted_groups_with_large_group() {
    let groups = vec![vec![
        create_file_key(1, 10),
        create_file_key(11, 20),
        create_file_key(21, 30),
        create_file_key(31, 40),
        create_file_key(41, 50),
    ]];
    let partition_num = 3;
    let repartitioned_groups = repartition_sorted_groups(groups, partition_num);
    assert_eq!(repartitioned_groups.len(), 3);
}

#[test]
fn test_find_max_group_index() {
    let groups = vec![
        vec![create_file_key(1, 10)],
        vec![create_file_key(11, 20), create_file_key(21, 30)],
        vec![create_file_key(31, 40)],
    ];
    let max_index = find_max_group_index(&groups);
    assert_eq!(max_index, 1);
}

#[test]
fn grouping_empty_file_list_gives_no_groups() {
    let groups = group_files_by_time_range(vec![], 4);
    assert!(groups.is_empty());
    assert_eq!(find_max_group_index(&groups), 0);
}

#[test]
fn grouping_five_disjoint_files_into_three_partitions() {
    let files = vec![
        create_file_key(41, 50),
        create_file_key(1, 10),
        create_file_key(31, 40),
        create_file_key(11, 20),
        create_file_key(21, 30),
    ];
    let groups = group_files_by_time_range(files, 3);
    assert_eq!(groups.len(), 3);
    assert_non_overlapping(&groups);
    let total: usize = groups.iter().map(|g| g.len()).sum();
    assert_eq!(total, 5);
    let mut keys: Vec<String> = groups.iter().flatten().map(|f| f.key.clone()).collect();
    keys.sort();
    assert_eq!(
        keys,
        vec!["file_11_20", "file_1_10", "file_21_30", "file_31_40", "file_41_50"]
    );
}

#[test]
fn overlapping_files_go_to_separate_groups() {
    let files = vec![create_file_key(1, 10), create_file_key(5, 15)];
    let groups = group_files_by_time_range(files, 1);
    assert_eq!(groups.len(), 2);
    assert_non_overlapping(&groups);
}

#[test]
fn repartition_stops_at_single_files() {
    let groups = vec![vec![create_file_key(1, 10), create_file_key(11, 20)]];
    let out = repartition_sorted_groups(groups, 10);
    assert_eq!(out.len(), 2);
    assert!(out.iter().all(|g| g.len() == 1));
}

#[test]
fn split_by_parity_takes_alternate_files() {
    let group = vec![
        create_file_key(1, 10),
        create_file_key(11, 20),
        create_file_key(21, 30),
    ];
    let (odd, even) = split_by_parity(group);
    assert_eq!(odd.len(), 1);
    assert_eq!(odd[0].meta.min_ts, 11);
    assert_eq!(even.len(), 2);
    assert_eq!(even[0].meta.min_ts, 1);
    assert_eq!(even[1].meta.min_ts, 21);
}

#[test]
fn group_disjoint_places_each_file_in_first_fitting_group() {
    let files = vec![
        create_file_key(1, 10),
        create_file_key(5, 15),
        create_file_key(11, 20),
        create_file_key(18, 30),
        create_file_key(31, 40),
    ];
    let groups = group_disjoint(files);
    let keys: Vec<Vec<&str>> = groups
        .iter()
        .map(|g| g.iter().map(|f| f.key.as_str()).collect())
        .collect();
    assert_eq!(
        keys,
        vec![
            vec!["file_1_10", "file_11_20", "file_31_40"],
            vec!["file_5_15", "file_18_30"],
        ]
    );
}

#[test]
fn sort_by_max_ts_orders_files() {
    let files = vec![create_file_key(20, 30), create_file_key(1, 10), create_file_key(5, 15)];
    let sorted = sort_by_max_ts(files);
    let max: Vec<i64> = sorted.iter().map(|f| f.meta.max_ts).collect();
    assert_eq!(max, vec![10, 15, 30]);
}

#[test]
fn repartition_of_touching_files_gives_parity_groups() {
    let files = vec![
        create_file_key(1, 10),
        create_file_key(11, 20),
        create_file_key(21, 30),
        create_file_key(31, 40),
        create_file_key(41, 50),
    ];
    let groups = group_files_by_time_range(files, 3);
    let ranges: Vec<Vec<(i64, i64)>> = groups
        .iter()
        .map(|g| g.iter().map(|f| (f.meta.min_ts, f.meta.max_ts)).collect())
        .collect();
    assert_eq!(
        ranges,
        vec![vec![(11, 20), (31, 40)], vec![(21, 30)], vec![(1, 10), (41, 50)]]
    );
}
