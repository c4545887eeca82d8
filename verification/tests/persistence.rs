//! Snapshots: export, import, and the checks on loading.

use probedb::double::Double;
use probedb::persistence::load::load;
use probedb::persistence::validate_checksum;
use probedb::persistence::validate_header;
use probedb::storage::ColumnInfo;
use probedb::storage::StorageEngine;
use probedb::storage::TableSchema;
use probedb::types::DataType;
use probedb::types::Value;

fn double(x: f64) -> Double {
    Double::from_bits(x.to_bits())
}

fn doubles(v: &[f64]) -> Vec<Double> {
    v.iter().map(|x| double(*x)).collect()
}

fn build_engine() -> StorageEngine {
    let mut engine = StorageEngine::new();
    engine.create_table(TableSchema {
        name: "users".to_string(),
        columns: vec![
            ColumnInfo { name: "id".to_string(), data_type: DataType::Integer, index: 0 },
            ColumnInfo { name: "name".to_string(), data_type: DataType::Text, index: 1 },
        ],
    }).unwrap();
    engine.insert("users", vec![
        Value::Integer(1),
        Value::Text("alice".to_string()),
    ]).unwrap();
    engine.insert("users", vec![
        Value::Integer(2),
        Value::Text("bob|smith".to_string()), // 含分隔符，考验转义
    ]).unwrap();
    engine
}

#[test]
fn test_save_load_roundtrip() {
    let engine = build_engine();
    let saved = engine.export_state();

    let loaded = load(&saved).unwrap();
    assert_eq!(loaded.table_names(), vec!["users".to_string()]);
    let rows = loaded.scan_table("users").unwrap();
    assert_eq!(rows.len(), 2);
    // Text 含 | 无损还原
    assert_eq!(rows[1].values[1], Value::Text("bob|smith".to_string()));
    // id 保留
    assert_eq!(rows[0].id, 1);
    assert_eq!(rows[1].id, 2);
    // next_id 恢复（原引擎插了2条，next_id 应为3）
    assert_eq!(loaded.next_id(), 3);
}

#[test]
fn test_save_overwrites_previous_state() {
    // 第一次保存：2行
    let saved = build_engine().export_state();

    // 第二次保存：1行（模拟新状态覆盖旧状态）
    let mut engine = StorageEngine::new();
    engine.create_table(TableSchema {
        name: "users".to_string(),
        columns: vec![ColumnInfo { name: "id".to_string(), data_type: DataType::Integer, index: 0 }],
    }).unwrap();
    engine.insert("users", vec![Value::Integer(99)]).unwrap();
    let saved = engine.export_state();

    let loaded = load(&saved).unwrap();
    let rows = loaded.scan_table("users").unwrap();
    assert_eq!(rows.len(), 1);
    assert_eq!(rows[0].values[0], Value::Integer(99));
}

#[test]
fn test_export_import_with_vector() {
    let mut engine = StorageEngine::new();
    engine.create_table(TableSchema {
        name: "items".to_string(),
        columns: vec![
            ColumnInfo { name: "id".to_string(), data_type: DataType::Integer, index: 0 },
            ColumnInfo { name: "emb".to_string(), data_type: DataType::Vector(3), index: 1 },
            ColumnInfo { name: "score".to_string(), data_type: DataType::Float, index: 2 },
        ],
    }).unwrap();
    engine.insert("items", vec![
        Value::Integer(1),
        Value::Vector(doubles(&[0.1, 0.2, 0.3])),
        Value::Float(double(0.95)),
    ]).unwrap();

    let state = engine.export_state();
    let mut engine2 = StorageEngine::new();
    engine2.import_state(&state).unwrap();

    let rows = engine2.scan_table("items").unwrap();
    assert_eq!(rows.len(), 1);
    assert_eq!(rows[0].values[1], Value::Vector(doubles(&[0.1, 0.2, 0.3])));
    assert_eq!(rows[0].values[2], Value::Float(double(0.95)));
}

#[test]
fn test_import_after_use_replaces_state() {
    // import_state 应清空旧状态，而不是叠加

    let mut engine = StorageEngine::new();
    engine.create_table(TableSchema {
        name: "old".to_string(),
        columns: vec![ColumnInfo { name: "id".to_string(), data_type: DataType::Integer, index: 0 }],
    }).unwrap();

    let state = build_engine().export_state();
    engine.import_state(&state).unwrap();

    assert_eq!(engine.table_names(), vec!["users".to_string()]);
    assert_eq!(engine.scan_table("users").unwrap().len(), 2);
}

#[test]
fn test_validate_header_ok() {
    // 正常快照头部应通过校验
    let state = build_engine().export_state();
    assert!(validate_header(&state).is_ok());
}

#[test]
fn test_validate_header_empty_file() {
    // 空文件 → 明确报错
    let e = validate_header("").unwrap_err();
    assert!(e.contains("空"), "空文件应报'空'错误, got: {}", e);
}

#[test]
fn test_validate_header_not_probedb_format() {
    // 任意文本（非ProbeDB格式）→ 明确报错
    let e = validate_header("hello world, this is not a database").unwrap_err();
    assert!(e.contains("无效"), "非ProbeDB格式应报'无效', got: {}", e);
}

#[test]
fn test_validate_header_version_mismatch() {
    // 未来版本（v2）→ 版本不匹配报错，防止旧版误读新版数据
    let e = validate_header("# ProbeDB state v2\nSCHEMA|t|id:INTEGER").unwrap_err();
    assert!(e.contains("版本不匹配"), "v2应报版本不匹配, got: {}", e);
}

#[test]
fn test_load_corrupted_file_errors() {
    // 损坏的数据库文件（非ProbeDB格式）→ load 明确报错
    let saved = "this is garbage data, not a probedb snapshot";

    let r = load(saved);
    assert!(r.is_err(), "损坏文件应加载失败");
}

#[test]
fn test_load_empty_file_errors() {
    // 空数据库文件 → load 明确报错（而非静默当空库）
    let saved = "";

    let r = load(saved);
    assert!(r.is_err(), "空文件应加载失败");
}

#[test]
fn test_save_load_empty_database() {
    // 空库（只有表结构，无数据）保存→加载→表结构完整

    let mut engine = StorageEngine::new();
    engine.create_table(TableSchema {
        name: "empty".to_string(),
        columns: vec![
            ColumnInfo { name: "id".to_string(), data_type: DataType::Integer, index: 0 },
            ColumnInfo { name: "emb".to_string(), data_type: DataType::Vector(2), index: 1 },
        ],
    }).unwrap();
    let saved = engine.export_state();

    let loaded = load(&saved).unwrap();
    assert_eq!(loaded.table_names(), vec!["empty".to_string()]);
    assert_eq!(loaded.scan_table("empty").unwrap().len(), 0, "空表加载后仍为空");
}

#[test]
fn test_export_state_has_checksum_line() {
    // 新格式导出必须带校验行（损坏检测的依据）
    let state = build_engine().export_state();
    let last = state.lines().rev().next().unwrap_or("");
    assert!(
        last.starts_with("# checksum "),
        "导出的快照应以校验行结尾, got last line: '{}'",
        last
    );
}

#[test]
fn test_validate_checksum_ok() {
    // 自身导出的快照 → 校验通过
    let state = build_engine().export_state();
    assert!(validate_checksum(&state).is_ok());
}

#[test]
fn test_validate_checksum_detects_tampering() {
    // 篡改数据行（改名字）但保留合法头部 → 校验和不匹配，必须报错
    let state = build_engine().export_state();
    let tampered = state.replace("TEXT:alice", "TEXT:evil");
    assert_ne!(state, tampered, "篡改必须改变内容");
    let e = validate_checksum(&tampered).unwrap_err();
    assert!(
        e.contains("校验和不匹配"),
        "篡改应报校验和不匹配, got: {}",
        e
    );
}

#[test]
fn test_validate_checksum_legacy_no_checksum_ok() {
    // 向后兼容：v1 早期无校验行的快照 → 跳过校验，正常接受
    let legacy = "# ProbeDB state v1\nSCHEMA|users|id:INTEGER|name:TEXT\nNEXTID|1\n";
    assert!(validate_checksum(legacy).is_ok());
}

#[test]
fn test_load_detects_tampered_file() {
    // 篡改落盘文件（改数据但保留头部+旧校验行）→ load 必须失败

    let saved = build_engine().export_state();
    // 读文件、篡改数据、写回
    let tampered = saved.replace("TEXT:alice", "TEXT:hacked");
    let r = load(&tampered);
    assert!(r.is_err(), "篡改文件应加载失败");
}
