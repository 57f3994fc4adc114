use memwatch::sql::{SQLChange, SQLOperation, SQLTracker};

fn change(table: &str, column: &str, op: SQLOperation) -> SQLChange {
    SQLChange {
        timestamp_ns: 1200,
        table_name: table.to_string(),
        column_name: column.to_string(),
        operation: op,
        old_value: None,
        new_value: Some("7".to_string()),
        rows_affected: 1,
        database: None,
        full_query: "UPDATE t SET c = 7".to_string(),
    }
}

#[test]
fn test_operation_to_string() {
    assert_eq!(SQLOperation::Insert.as_str(), "INSERT");
    assert_eq!(SQLOperation::Update.as_str(), "UPDATE");
    assert_eq!(SQLOperation::Delete.as_str(), "DELETE");
    assert_eq!(SQLOperation::Select.as_str(), "SELECT");
}

#[test]
fn unknown_operation_to_string() {
    assert_eq!(SQLOperation::Unknown.as_str(), "UNKNOWN");
}

#[test]
fn to_dict_all_fields() {
    let c = SQLChange {
        timestamp_ns: 987654321,
        table_name: "users".to_string(),
        column_name: "email".to_string(),
        operation: SQLOperation::Update,
        old_value: Some("a@x".to_string()),
        new_value: Some("b@x".to_string()),
        rows_affected: -3,
        database: Some("main".to_string()),
        full_query: "UPDATE users SET email = 'b@x'".to_string(),
    };
    let d = c.to_dict();
    let expected = vec![
        ("timestamp_ns", "987654321"),
        ("table_name", "users"),
        ("column_name", "email"),
        ("operation", "UPDATE"),
        ("old_value", "a@x"),
        ("new_value", "b@x"),
        ("rows_affected", "-3"),
        ("database", "main"),
        ("full_query", "UPDATE users SET email = 'b@x'"),
    ];
    assert_eq!(d.len(), expected.len());
    for (got, want) in d.iter().zip(expected.iter()) {
        assert_eq!(got.0, want.0);
        assert_eq!(got.1, want.1);
    }
}

#[test]
fn to_dict_skips_absent_fields() {
    let c = SQLChange {
        timestamp_ns: 0,
        table_name: "t".to_string(),
        column_name: "c".to_string(),
        operation: SQLOperation::Insert,
        old_value: None,
        new_value: None,
        rows_affected: 1,
        database: None,
        full_query: "INSERT INTO t (c) VALUES (1)".to_string(),
    };
    let d = c.to_dict();
    let keys: Vec<&str> = d.iter().map(|p| p.0.as_str()).collect();
    assert_eq!(
        keys,
        vec!["timestamp_ns", "table_name", "column_name", "operation", "rows_affected", "full_query"]
    );
    assert_eq!(d[0].1, "0");
    assert_eq!(d[4].1, "1");
}

#[test]
fn get_changes_filters() {
    let mut t = SQLTracker::new(None);
    t.record_change(change("users", "email", SQLOperation::Update));
    t.record_change(change("users", "name", SQLOperation::Update));
    t.record_change(change("orders", "total", SQLOperation::Insert));

    assert_eq!(t.get_changes(None, None, None).len(), 3);
    assert_eq!(t.get_changes(Some("users"), None, None).len(), 2);
    assert_eq!(t.get_changes(Some("users"), Some("name"), None).len(), 1);
    assert_eq!(t.get_changes(None, None, Some("INSERT")).len(), 1);
    assert_eq!(t.get_changes(Some("orders"), None, Some("UPDATE")).len(), 0);
    let kept = t.get_changes(Some("users"), Some("email"), Some("UPDATE"));
    assert_eq!(kept.len(), 1);
    assert_eq!(kept[0].column_name, "email");
}

#[test]
fn all_changes_keeps_order() {
    let mut t = SQLTracker::new(Some("/tmp/changes.jsonl"));
    t.record_change(change("a", "x", SQLOperation::Insert));
    t.record_change(change("b", "y", SQLOperation::Delete));
    let all = t.all_changes();
    assert_eq!(all.len(), 2);
    assert_eq!(all[0].table_name, "a");
    assert_eq!(all[1].table_name, "b");
}

#[test]
fn summary_counts() {
    let mut t = SQLTracker::new(None);
    t.record_change(change("users", "email", SQLOperation::Update));
    t.record_change(change("users", "email", SQLOperation::Update));
    t.record_change(change("users", "name", SQLOperation::Insert));
    t.record_change(change("orders", "total", SQLOperation::Delete));
    t.record_change(change("orders", "total", SQLOperation::Select));
    t.record_change(change("logs", "msg", SQLOperation::Unknown));

    let s = t.summary();
    assert_eq!(s.total_changes, 6);
    assert_eq!(s.insert_count, 1);
    assert_eq!(s.update_count, 2);
    assert_eq!(s.delete_count, 1);
    assert_eq!(s.select_count, 1);

    assert_eq!(s.tables.len(), 3);
    let users = s.tables.iter().find(|p| p.0 == "users").unwrap();
    assert_eq!(users.1, 3);
    let orders = s.tables.iter().find(|p| p.0 == "orders").unwrap();
    assert_eq!(orders.1, 2);

    let mut cols = s.columns.clone();
    cols.sort();
    assert_eq!(cols, vec!["logs.msg", "orders.total", "users.email", "users.name"]);
}

#[test]
fn duplicate_is_exact() {
    let c = change("users", "email", SQLOperation::Update);
    let d = c.duplicate();
    assert_eq!(d.table_name, c.table_name);
    assert_eq!(d.column_name, c.column_name);
    assert_eq!(d.new_value, c.new_value);
    assert_eq!(d.rows_affected, c.rows_affected);
    assert_eq!(d.full_query, c.full_query);
}
