use storage_search::schema_source::{InMemorySchemaDS, SchemaEntry};

fn entry(num_fields: usize, start_dt: Option<&str>, end_dt: Option<&str>) -> SchemaEntry {
    SchemaEntry {
        num_fields,
        start_dt: start_dt.map(|s| s.to_string()),
        end_dt: end_dt.map(|s| s.to_string()),
    }
}

#[test]
fn load_lists_every_version_of_valid_streams() {
    let streams = vec![
        (
            "o1/logs/app".to_string(),
            vec![entry(3, Some("100"), Some("200")), entry(5, Some("200"), None)],
        ),
        ("nokey".to_string(), vec![entry(1, None, None)]),
        ("o1/metrics".to_string(), vec![entry(1, None, None)]),
        ("o2/traces/svc/extra".to_string(), vec![entry(7, Some("x"), Some("-5"))]),
    ];
    let ds = InMemorySchemaDS::load(&streams, 1234);
    assert_eq!(ds.last_updated, 1234);
    assert_eq!(ds.data.len(), 3);
    assert_eq!(ds.data[0].org, "o1");
    assert_eq!(ds.data[0].stream_type, "logs");
    assert_eq!(ds.data[0].stream_name, "app");
    assert_eq!(ds.data[0].num_fields, 3);
    assert_eq!((ds.data[0].start_dt, ds.data[0].end_dt, ds.data[0].timestamp), (100, 200, 100));
    assert_eq!((ds.data[1].start_dt, ds.data[1].end_dt), (200, 0));
    assert_eq!(ds.data[2].org, "o2");
    assert_eq!(ds.data[2].stream_name, "svc");
    assert_eq!((ds.data[2].start_dt, ds.data[2].end_dt), (0, -5));
}

#[test]
fn load_of_nothing_is_empty() {
    let ds = InMemorySchemaDS::load(&vec![], 0);
    assert!(ds.data.is_empty());
}

#[test]
fn refresh_after_interval() {
    let ds = InMemorySchemaDS::load(&vec![], 100);
    assert!(!ds.needs_refresh(160, 60));
    assert!(ds.needs_refresh(161, 60));
}
