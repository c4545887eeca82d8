//! The storage engine.

use probedb::double::Double;
use probedb::storage::ColumnInfo;
use probedb::storage::StorageEngine;
use probedb::storage::TableSchema;
use probedb::types::DataType;
use probedb::types::Value;

fn doubles(v: &[f64]) -> Vec<Double> {
    v.iter().map(|x| Double::from_bits(x.to_bits())).collect()
}

fn create_test_schema() -> TableSchema {
    TableSchema {
        name: "users".to_string(),
        columns: vec![
            ColumnInfo { name: "id".to_string(), data_type: DataType::Integer, index: 0 },
            ColumnInfo { name: "name".to_string(), data_type: DataType::Text, index: 1 },
            ColumnInfo { name: "age".to_string(), data_type: DataType::Integer, index: 2 },
        ],
    }
}

#[test]
fn test_create_and_insert() {
    let mut engine = StorageEngine::new();
    engine.create_table(create_test_schema()).unwrap();

    let id = engine.insert("users", vec![
        Value::Integer(1),
        Value::Text("alice".to_string()),
        Value::Integer(30),
    ]).unwrap();
    assert_eq!(id, 1);

    let rows = engine.scan_table("users").unwrap();
    assert_eq!(rows.len(), 1);
}

#[test]
fn test_type_mismatch() {
    let mut engine = StorageEngine::new();
    engine.create_table(create_test_schema()).unwrap();

    let result = engine.insert("users", vec![
        Value::Integer(1),
        Value::Integer(2), // name 列应该是 Text
        Value::Integer(30),
    ]);
    assert!(result.is_err());
}

#[test]
fn test_duplicate_table() {
    let mut engine = StorageEngine::new();
    engine.create_table(create_test_schema()).unwrap();
    let result = engine.create_table(create_test_schema());
    assert!(result.is_err());
}

#[test]
fn test_vector_storage() {
    let mut engine = StorageEngine::new();
    let schema = TableSchema {
        name: "items".to_string(),
        columns: vec![
            ColumnInfo { name: "id".to_string(), data_type: DataType::Integer, index: 0 },
            ColumnInfo { name: "embedding".to_string(), data_type: DataType::Vector(3), index: 1 },
        ],
    };
    engine.create_table(schema).unwrap();

    engine.insert("items", vec![
        Value::Integer(1),
        Value::Vector(doubles(&[0.1, 0.2, 0.3])),
    ]).unwrap();

    let rows = engine.scan_table("items").unwrap();
    assert_eq!(rows.len(), 1);
    if let Value::Vector(v) = &rows[0].values[1] {
        assert_eq!(v.len(), 3);
    } else {
        panic!("Expected Vector value");
    }
}
