use minidb::schema::{Row, Table};
use minidb::storage_engine::{FileSystem, StorageEngine};

fn row(pairs: &[(&str, &str)]) -> Row {
    Row {
        data: pairs
            .iter()
            .map(|(k, v)| (k.to_string(), v.to_string()))
            .collect(),
    }
}

#[test]
fn serialize_round_trip() {
    let mut engine = StorageEngine::new();
    engine.create_table("users", vec!["id".to_string(), "name".to_string()]);
    engine.insert_row("users", row(&[("id", "1"), ("name", "ada")]));
    engine.insert_row("users", row(&[("id", "2"), ("name", "bob")]));
    engine.create_table("empty", vec![]);
    let mut buffer = Vec::new();
    engine.serialize(&mut buffer);
    let back = StorageEngine::deserialize(&buffer).unwrap();
    assert_eq!(back, engine);
}

#[test]
fn serialize_round_trip_empty_store() {
    let engine = StorageEngine::new();
    let mut buffer = Vec::new();
    engine.serialize(&mut buffer);
    let back = StorageEngine::deserialize(&buffer).unwrap();
    assert_eq!(back, engine);
}

#[test]
fn serialize_round_trip_large_ids() {
    // Row ids past one byte exercise the little-endian integer encoding.
    let mut engine = StorageEngine::new();
    engine.create_table("t", vec!["v".to_string()]);
    for i in 0..300 {
        engine.insert_row("t", row(&[("v", &i.to_string())]));
    }
    let mut buffer = Vec::new();
    engine.serialize(&mut buffer);
    let back = StorageEngine::deserialize(&buffer).unwrap();
    assert_eq!(back, engine);
    assert_eq!(back.tables[0].1.rows[299].0, 299);
}

#[test]
fn deserialize_garbage_fails() {
    assert!(StorageEngine::deserialize(&[1, 2, 3]).is_err());
}

#[test]
fn deserialize_truncated_snapshot_fails() {
    let mut engine = StorageEngine::new();
    engine.create_table("users", vec!["id".to_string()]);
    let mut buffer = Vec::new();
    engine.serialize(&mut buffer);
    buffer.pop();
    assert!(StorageEngine::deserialize(&buffer).is_err());
}

#[test]
fn deserialize_trailing_bytes_fail() {
    let engine = StorageEngine::new();
    let mut buffer = Vec::new();
    engine.serialize(&mut buffer);
    buffer.push(0);
    assert!(StorageEngine::deserialize(&buffer).is_err());
}

#[test]
fn deserialize_rejects_malformed_store() {
    // A snapshot whose row ids do not match their positions decodes but is
    // not a well-formed store.
    let bad = StorageEngine {
        tables: vec![(
            "t".to_string(),
            Table {
                columns: vec!["v".to_string()],
                rows: vec![(7, row(&[("v", "x")]))],
                next_row_id: 1,
            },
        )],
    };
    let mut buffer = Vec::new();
    bad.serialize(&mut buffer);
    assert!(StorageEngine::deserialize(&buffer).is_err());
}

#[test]
fn deserialize_rejects_duplicate_table_names() {
    let bad = StorageEngine {
        tables: vec![
            ("t".to_string(), Table { columns: vec![], rows: vec![], next_row_id: 0 }),
            ("t".to_string(), Table { columns: vec![], rows: vec![], next_row_id: 0 }),
        ],
    };
    let mut buffer = Vec::new();
    bad.serialize(&mut buffer);
    assert!(StorageEngine::deserialize(&buffer).is_err());
}

#[test]
fn create_table_overwrites_existing() {
    let mut engine = StorageEngine::new();
    engine.create_table("t", vec!["a".to_string()]);
    engine.insert_row("t", row(&[("a", "1")]));
    engine.create_table("t", vec!["b".to_string()]);
    assert_eq!(engine.tables.len(), 1);
    assert_eq!(engine.tables[0].1.columns, vec!["b".to_string()]);
    assert_eq!(engine.tables[0].1.rows.len(), 0);
    assert_eq!(engine.tables[0].1.next_row_id, 0);
}

#[test]
fn insert_into_missing_table_is_a_no_op() {
    let mut engine = StorageEngine::new();
    engine.create_table("t", vec!["a".to_string()]);
    let before = engine.clone();
    engine.insert_row("ghost", row(&[("a", "1")]));
    assert_eq!(engine, before);
}

#[test]
fn persistence_restores_contents() {
    let mut fs = FileSystem::new("db.snapshot", None);
    fs.create_table("users", vec!["id".to_string(), "name".to_string()]);
    let snapshot = fs.insert_row("users", row(&[("id", "1"), ("name", "ada")]));
    // A restart against the same path reads the snapshot back.
    let reopened = FileSystem::new("db.snapshot", Some(snapshot));
    assert_eq!(reopened.storage_engine, fs.storage_engine);
    assert_eq!(reopened.storage_engine.tables[0].1.rows.len(), 1);
}

#[test]
fn load_failure_falls_back_to_empty_store() {
    let fs = FileSystem::new("db.snapshot", Some(vec![9, 9, 9]));
    assert_eq!(fs.storage_engine, StorageEngine::new());
    let fresh = FileSystem::new("db.snapshot", None);
    assert_eq!(fresh.storage_engine, StorageEngine::new());
}

#[test]
fn unicode_values_round_trip() {
    let mut engine = StorageEngine::new();
    engine.create_table("t", vec!["v".to_string()]);
    engine.insert_row("t", row(&[("v", "héllo \u{1F600} wörld")]));
    let mut buffer = Vec::new();
    engine.serialize(&mut buffer);
    let back = StorageEngine::deserialize(&buffer).unwrap();
    assert_eq!(back, engine);
}
