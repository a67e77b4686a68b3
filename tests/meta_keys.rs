use storage_search::meta_keys::{
    delete_scope, filter_keys_by_start_dt, greatest_key_with_prefix, join_key, list_filter,
    keys_by_start_dt, parse_key, plan_update, row_in_scope, row_listed, start_dt_of_key,
    DeleteScope, ListFilter, MetaWrite,
};

fn s(v: &str) -> String {
    v.to_string()
}

#[test]
fn start_dt_is_last_segment() {
    assert_eq!(start_dt_of_key("/schema/o1/logs/s1/1700000000000000"), 1_700_000_000_000_000);
    assert_eq!(start_dt_of_key("/schema/o1/logs/s1"), 0);
    assert_eq!(start_dt_of_key("42"), 42);
}

#[test]
fn keys_filtered_by_start_dt_range() {
    let keys = vec![s("a/b/10"), s("a/b/20"), s("a/b/x"), s("a/b/30")];
    assert_eq!(filter_keys_by_start_dt(keys.clone(), 10, 20), vec![s("a/b/10"), s("a/b/20")]);
    assert_eq!(filter_keys_by_start_dt(keys.clone(), 0, 0), vec![s("a/b/x")]);
    assert!(filter_keys_by_start_dt(keys, 31, 40).is_empty());
}

#[test]
fn lookup_falls_back_to_greatest_key_under_prefix() {
    let keys = vec![s("o1/logs/a/10"), s("o1/logs/a/30"), s("o1/logs/b"), s("o1/logs/a/20")];
    assert_eq!(greatest_key_with_prefix(&keys, "o1/logs/a"), Some(1));
    assert_eq!(greatest_key_with_prefix(&keys, "o1/logs/"), Some(2));
    assert_eq!(greatest_key_with_prefix(&keys, "o2"), None);
    assert_eq!(greatest_key_with_prefix(&vec![], ""), None);
}

#[test]
fn parse_key_splits_columns() {
    assert_eq!(parse_key("/schema/o1/logs/s1"), (s("schema"), s("o1"), s("logs/s1")));
    assert_eq!(parse_key("/schema/o1/logs/"), (s("schema"), s("o1"), s("logs")));
    assert_eq!(parse_key("schema/o1"), (s("schema"), s("o1"), s("")));
    assert_eq!(parse_key("/schema"), (s("schema"), s(""), s("")));
    assert_eq!(parse_key(""), (s(""), s(""), s("")));
    assert_eq!(parse_key("/a/b/c/d/e"), (s("a"), s("b"), s("c/d/e")));
}

#[test]
fn update_without_change_writes_nothing() {
    let plan = plan_update("/schema/o1/logs/s1", Some(7), None, true, None);
    assert!(plan.writes.is_empty());
    assert_eq!(plan.notice, None);
}

#[test]
fn update_in_place_of_existing_row() {
    let plan = plan_update("/schema/o1/logs/s1", Some(7), None, true, Some((Some(vec![1]), None)));
    assert_eq!(plan.writes, vec![MetaWrite::Update(7, vec![1])]);
    assert_eq!(plan.notice, Some(None));
}

#[test]
fn update_inserts_missing_row_at_its_coordinates() {
    let plan = plan_update("/schema/o1/logs/s1", None, Some(5), false, Some((Some(vec![2]), None)));
    assert_eq!(
        plan.writes,
        vec![MetaWrite::Insert(s("schema"), s("o1"), s("logs/s1"), 5, vec![2])]
    );
    assert_eq!(plan.notice, None);
}

#[test]
fn update_plus_insert_of_new_row() {
    let request = (Some(vec![1]), Some((s("/schema/o1/logs/s1"), vec![3], Some(1700))));
    let plan = plan_update("/schema/o1/logs/s1", Some(7), None, true, Some(request));
    assert_eq!(
        plan.writes,
        vec![
            MetaWrite::Update(7, vec![1]),
            MetaWrite::Insert(s("schema"), s("o1"), s("logs/s1"), 1700, vec![3]),
        ]
    );
    assert_eq!(plan.notice, Some(Some(1700)));
}

#[test]
fn delete_scope_follows_most_specific_column() {
    assert_eq!(delete_scope("/schema", true), DeleteScope::Module(s("schema")));
    assert_eq!(delete_scope("/schema/o1", true), DeleteScope::Key1(s("schema"), s("o1")));
    assert_eq!(
        delete_scope("/schema/o1/logs", true),
        DeleteScope::Key2Tree(s("schema"), s("o1"), s("logs"))
    );
    assert_eq!(
        delete_scope("/schema/o1/logs", false),
        DeleteScope::Exact(s("schema"), s("o1"), s("logs"))
    );
}

#[test]
fn rows_in_delete_scope() {
    let tree = delete_scope("/schema/o1/logs", true);
    assert!(row_in_scope(&tree, "schema", "o1", "logs"));
    assert!(row_in_scope(&tree, "schema", "o1", "logs/s1"));
    assert!(!row_in_scope(&tree, "schema", "o1", "logs2"));
    assert!(!row_in_scope(&tree, "schema", "o2", "logs"));
    let exact = delete_scope("/schema/o1/logs", false);
    assert!(row_in_scope(&exact, "schema", "o1", "logs"));
    assert!(!row_in_scope(&exact, "schema", "o1", "logs/s1"));
    let module = delete_scope("/schema", true);
    assert!(row_in_scope(&module, "schema", "x", "y"));
    assert!(!row_in_scope(&module, "user", "x", "y"));
}

#[test]
fn join_key_round_trips_through_parse_key() {
    assert_eq!(join_key("schema", "o1", "logs/s1"), "/schema/o1/logs/s1");
    for (m, k1, k2) in [("schema", "o1", "logs/s1"), ("a", "", "x"), ("a", "b", ""), ("", "", "")] {
        let key = join_key(m, k1, k2);
        assert_eq!(parse_key(&key), (s(m), s(k1), s(k2)));
    }
}

#[test]
fn list_filter_constrains_non_empty_columns() {
    assert_eq!(
        list_filter("/schema/o1"),
        ListFilter { module: Some(s("schema")), key1: Some(s("o1")), key2: None }
    );
    assert_eq!(list_filter(""), ListFilter { module: None, key1: None, key2: None });
    let f = list_filter("/schema/o1/logs");
    assert!(row_listed(&f, "schema", "o1", "logs"));
    assert!(row_listed(&f, "schema", "o1", "logs/s1"));
    assert!(!row_listed(&f, "schema", "o1", "logsx"));
    assert!(!row_listed(&f, "user", "o1", "logs"));
    let all = list_filter("/");
    assert!(row_listed(&all, "any", "thing", "here"));
}

#[test]
fn listing_by_time_range_is_ascending() {
    let keys = vec![s("a/b/30"), s("a/b/10"), s("a/b/x"), s("a/b/20"), s("a/b/50")];
    assert_eq!(keys_by_start_dt(keys, 10, 30), vec![s("a/b/10"), s("a/b/20"), s("a/b/30")]);
    assert!(keys_by_start_dt(vec![], 0, 10).is_empty());
}
