//! What is refused, and with which message.

use probedb::persistence::load::load;
use probedb::persistence::validate_checksum;
use probedb::persistence::validate_header;
use probedb::persistence::wal::replay;
use probedb::storage::fnv1a64;
use probedb::storage::ColumnInfo;
use probedb::storage::StorageEngine;
use probedb::storage::TableSchema;
use probedb::types::normalize_date;
use probedb::types::normalize_time;
use probedb::types::DataType;
use probedb::types::Value;
use probedb::ProbeDB;

fn database() -> ProbeDB {
    let mut db = ProbeDB::new();
    db.execute("CREATE TABLE t (id INTEGER, name TEXT, x FLOAT, b BOOLEAN, d DATE, at TIME, v VECTOR(2))")
        .unwrap();
    db.execute("INSERT INTO t (id, name, x, b, d, at, v) VALUES (1, 'a', 1.5, true, '2026-01-02', '03:04', '[1,2]')")
        .unwrap();
    db.execute("CREATE TABLE u (id INTEGER, t_id INTEGER)").unwrap();
    db
}

fn error(sql: &str) -> String {
    let mut db = database();
    let before = db.executor.engine.export_state();
    let e = db.execute(sql).unwrap_err();
    assert_eq!(db.executor.engine.export_state(), before, "{} changed something", sql);
    e
}

#[test]
fn statements_that_cannot_be_read() {
    assert_eq!(error(""), "SQL语句为空");
    assert_eq!(error(" \n "), "SQL语句为空");
    assert_eq!(database().execute(" ; ").unwrap(), "");
    assert_eq!(error("EXPLAIN x"), "不支持的SQL语句: EXPLAIN x");
    assert_eq!(error("CREATE TABLE w"), "缺少列定义左括号");
    assert_eq!(error("CREATE TABLE w (id INTEGER"), "缺少列定义右括号");
    assert_eq!(error("CREATE TABLE w (id)"), "列定义不完整: id");
    assert_eq!(error("CREATE TABLE w (id BLOB)"), "不支持的数据类型: BLOB");
    assert_eq!(error("INSERT INTO t VALUES (1)"), "缺少列名括号");
    assert_eq!(error("INSERT INTO t (id) (1)"), "缺少VALUES子句");
    assert_eq!(error("INSERT INTO t (id VALUES"), "括号不匹配");
    assert_eq!(database().execute("INSERT INTO t (id) VALUES (1").unwrap(), "插入 0 行数据");
    assert_eq!(error("CREATE TABLE"), "语法错误: 期望标识符");
    assert_eq!(error("Create Table w (id INTEGER)"), "无法解析CREATE TABLE");
    assert_eq!(error("Insert Into w (id) VALUES (1)"), "无法解析INSERT INTO");
    assert_eq!(error("Select * FROM t"), "无法解析SELECT");
    assert_eq!(error("Delete From t"), "无法解析DELETE FROM");
    assert_eq!(error("Update t SET id = 1"), "无法解析UPDATE");
    assert_eq!(error("Drop Table t"), "无法解析DROP TABLE");
    assert_eq!(error("DELETE FROM t x"), "DELETE语法错误: DELETE FROM t x");
    assert_eq!(error("SELECT 1"), "缺少FROM子句");
    assert_eq!(error("UPDATE t x = 1"), "UPDATE缺少SET子句");
    assert_eq!(error("UPDATE t SET x"), "UPDATE赋值语法错误: x");
    assert_eq!(error("SELECT * FROM t JOIN u"), "JOIN缺少ON子句");
    assert_eq!(error("SELECT * FROM t JOIN u ON t.id"), "JOIN的ON条件缺少等号: t.id");
}

#[test]
fn statements_on_what_is_not_there() {
    assert_eq!(error("SELECT * FROM ghost"), "表 'ghost' 不存在");
    assert_eq!(error("DELETE FROM ghost"), "表 'ghost' 不存在");
    assert_eq!(error("UPDATE ghost SET x = 1"), "表 'ghost' 不存在");
    assert_eq!(error("INSERT INTO ghost (id) VALUES (1)"), "表 'ghost' 不存在");
    assert_eq!(error("DROP TABLE ghost"), "表 'ghost' 不存在");
    assert_eq!(error("CREATE TABLE t (id INTEGER)"), "表 't' 已存在");
    assert_eq!(error("SELECT y FROM t"), "列 'y' 不存在");
    assert_eq!(error("SELECT SUM(y) FROM t"), "列 'y' 不存在");
    assert_eq!(error("SELECT id FROM t ORDER BY y"), "排序列 'y' 不存在");
    assert_eq!(error("UPDATE t SET y = 1"), "列 'y' 不存在");
    assert_eq!(error("SELECT y, COUNT(*) FROM t GROUP BY y"), "GROUP BY 列 'y' 不存在");
    assert_eq!(
        error("SELECT name, COUNT(*) FROM t GROUP BY id"),
        "列 'name' 不在 GROUP BY 中（非聚合列必须出现在 GROUP BY 子句中）"
    );
    assert_eq!(error("SELECT * FROM t JOIN ghost ON t.id = ghost.id"), "表 'ghost' 不存在");
    assert_eq!(error("SELECT * FROM t JOIN u ON t.y = u.id"), "JOIN 左表列 'y' 不存在");
    assert_eq!(error("SELECT * FROM t JOIN u ON t.id = u.y"), "JOIN 右表列 'y' 不存在");
}

#[test]
fn values_that_cannot_be_read() {
    let row = |column: &str, value: &str| {
        let mut values = ["1", "'a'", "1.5", "true", "'2026-01-02'", "'03:04'", "'[1,2]'"];
        let names = ["id", "name", "x", "b", "d", "at", "v"];
        let i = names.iter().position(|n| *n == column).unwrap();
        values[i] = value;
        error(&format!("INSERT INTO t (id, name, x, b, d, at, v) VALUES ({})", values.join(", ")))
    };
    assert_eq!(row("id", "x1"), "无法解析列 'id' 的值 'x1': 无法解析为整数: x1");
    assert_eq!(row("x", "'one'"), "无法解析列 'x' 的值 'one': 无法解析为浮点数: one");
    assert_eq!(row("b", "maybe"), "无法解析列 'b' 的值 'maybe': 无法解析为布尔值: maybe");
    assert_eq!(row("d", "'2026/01/02'"), "无法解析列 'd' 的值 '2026/01/02': 日期格式应为 YYYY-MM-DD: 2026/01/02");
    assert_eq!(row("v", "'[1,x]'"), "无法解析列 'v' 的值 '[1,x]': 无法解析为向量: [1,x]");
    assert_eq!(row("v", "'[1,2,3]'"), "列 'v' 类型不匹配: 期望 Vector(2), 得到 Vector([1.0, 2.0, 3.0])");
    assert_eq!(error("INSERT INTO u (id) VALUES (1)"), "列数不匹配: 需要 2 列, 提供了 1 列");
    assert_eq!(error("UPDATE t SET id = 'x'"), "解析更新值 ''x'' 失败: 无法解析为整数: 'x'");
    assert_eq!(normalize_date("0000-01-01").unwrap_err(), "日期年份超出范围(1-9999): 0000-01-01");
    assert_eq!(normalize_date("2026-13-01").unwrap_err(), "日期月份超出范围(1-12): 2026-13-01");
    assert_eq!(normalize_date("2026-02-29").unwrap_err(), "日期 2026-02-29 的日超出范围(1-28): 2026-02-29");
    assert_eq!(normalize_time("24:00").unwrap_err(), "时间小时超出范围(0-23): 24:00");
    assert_eq!(normalize_time("23:60").unwrap_err(), "时间分钟超出范围(0-59): 23:60");
    assert_eq!(normalize_time("23:59:60").unwrap_err(), "时间秒超出范围(0-59): 23:59:60");
    assert!(normalize_time("noon").unwrap_err().starts_with("时间格式应为 HH"));
}

fn engine() -> StorageEngine {
    let mut engine = StorageEngine::new();
    engine
        .create_table(TableSchema {
            name: "t".to_string(),
            columns: vec![
                ColumnInfo { name: "id".to_string(), data_type: DataType::Integer, index: 0 },
                ColumnInfo { name: "name".to_string(), data_type: DataType::Text, index: 1 },
            ],
        })
        .unwrap();
    engine
}

#[test]
fn rows_that_do_not_fit() {
    let mut e = engine();
    assert_eq!(
        e.insert("t", vec![Value::Text("a \"b\"\n".to_string()), Value::Integer(2)]).unwrap_err(),
        "列 'id' 类型不匹配: 期望 Integer, 得到 Text(\"a \\\"b\\\"\\n\")"
    );
    assert_eq!(
        e.insert_row_with_id("t", 7, vec![Value::Integer(1), Value::Date("2026-01-01".to_string())]).unwrap_err(),
        "列 'name' 类型不匹配: 期望 Text, 得到 Date(\"2026-01-01\")"
    );
    assert_eq!(e.insert_row_with_id("ghost", 7, vec![]).unwrap_err(), "表 'ghost' 不存在");
    assert_eq!(e.delete_by_ids("ghost", &vec![1]).unwrap_err(), "表 'ghost' 不存在");
    assert_eq!(e.update_by_ids("ghost", &vec![1], 0, Value::Integer(1)).unwrap_err(), "表 'ghost' 不存在");
    assert_eq!(e.table_data_mut("ghost").unwrap_err(), "表 'ghost' 不存在");
    e.set_next_id(u64::MAX);
    assert_eq!(
        e.insert("t", vec![Value::Integer(1), Value::Text("a".to_string())]).unwrap_err(),
        "行ID已用尽"
    );
    assert_eq!(e.next_id(), u64::MAX);
    assert!(e.scan_table("t").unwrap().is_empty());
}

#[test]
fn snapshots_that_are_refused() {
    let import = |lines: &str| {
        let mut e = StorageEngine::new();
        e.import_state(&format!("# ProbeDB state v1\n{}", lines)).unwrap_err()
    };
    assert_eq!(import("SCHEMA|t"), "第2行 SCHEMA 字段不足");
    assert_eq!(import("SCHEMA|t|id"), "第2行 SCHEMA 列格式错误: id");
    assert_eq!(import("SCHEMA|t|id:BLOB"), "未知数据类型: BLOB");
    assert_eq!(import("SCHEMA|t|v:VECTOR:x"), "VECTOR维度解析失败: VECTOR:x");
    assert_eq!(import("ROW|t|1"), "第2行 ROW 字段不足");
    assert_eq!(import("ROW|t|x|INT:1"), "第2行 ROW id 解析失败: x");
    assert_eq!(import("ROW|t|1|INT:1"), "表 't' 不存在");
    assert_eq!(import("SCHEMA|t|id:INTEGER\nROW|t|1|INT:x"), "整数解析失败: INT:x");
    assert_eq!(import("SCHEMA|t|id:FLOAT\nROW|t|1|FLOAT:x"), "浮点解析失败: FLOAT:x");
    assert_eq!(import("SCHEMA|t|id:BOOLEAN\nROW|t|1|BOOL:x"), "布尔解析失败: BOOL:x");
    assert_eq!(import("SCHEMA|t|v:VECTOR:2\nROW|t|1|VEC:2"), "向量编码格式错误: VEC:2");
    assert_eq!(import("SCHEMA|t|v:VECTOR:2\nROW|t|1|VEC:x:1,2"), "向量长度解析失败: VEC:x:1,2");
    assert_eq!(import("SCHEMA|t|v:VECTOR:2\nROW|t|1|VEC:2:1,x"), "向量元素解析失败: VEC:2:1,x");
    assert_eq!(import("SCHEMA|t|id:INTEGER\nROW|t|1|1"), "未知值编码: 1");
    assert_eq!(import("NEXTID"), "第2行 NEXTID 字段不足");
    assert_eq!(import("NEXTID|x"), "第2行 NEXTID 解析失败: x");
    assert_eq!(import("WHAT|x"), "第2行未知记录类型: WHAT");
    assert_eq!(validate_header("\n").unwrap_err(), "数据库文件为空");
    assert_eq!(validate_header("x").unwrap_err(), "数据库文件头无效（不是ProbeDB快照或已损坏）: 'x'");
    assert_eq!(
        validate_header("# ProbeDB state v3").unwrap_err(),
        "数据库版本不匹配: 期望 '# ProbeDB state v1'，实际 '# ProbeDB state v3'"
    );
    assert_eq!(
        validate_checksum("# ProbeDB state v1\n# checksum xyz\n").unwrap_err(),
        "校验和格式无效: '# checksum xyz'"
    );
    assert_eq!(
        validate_checksum("# ProbeDB state v1\n# checksum 0000000000000001\n").unwrap_err(),
        format!(
            "数据库文件校验和不匹配 (期望 0000000000000001, 实际 {:016x})——文件已损坏或被篡改",
            fnv1a64("# ProbeDB state v1\n".as_bytes())
        )
    );
    assert_eq!(load("").unwrap_err(), "数据库文件为空");
    assert_eq!(load("# ProbeDB state v1\nWHAT|x\n").unwrap_err(), "第2行未知记录类型: WHAT");
}

#[test]
fn log_records_that_are_passed_over() {
    let mut e = engine();
    let log = "# ProbeDB WAL v1\n\nT|x\nT|x|id\nI|t|1\nI|t|x|INT:1|TEXT:a\nI|t|1|INT:1|WHAT\nI|ghost|1|INT:1\n\
               D|t\nD|t|x\nD|ghost|1\nU|t|1|0\nU|t|x|0|INT:1\nU|t|1|x|INT:1\nU|t|1|0|WHAT\nU|ghost|1|0|INT:1\nDROP\nX|y\n";
    let done = replay(log, &mut e);
    assert_eq!(done.replayed, 0);
    let errors: Vec<(usize, &str)> = done.skipped.iter().map(|s| (s.number, s.error.as_str())).collect();
    assert_eq!(
        errors,
        vec![
            (3, "字段不足"),
            (4, "列格式错误: id"),
            (5, "字段不足"),
            (6, "id解析失败: x"),
            (7, "未知值编码: WHAT"),
            (8, "表 'ghost' 不存在"),
            (9, "字段不足"),
            (10, "id解析失败: x"),
            (11, "表 'ghost' 不存在"),
            (12, "字段不足"),
            (13, "id解析失败: x"),
            (14, "col_index解析失败: x"),
            (15, "未知值编码: WHAT"),
            (16, "表 'ghost' 不存在"),
            (17, "字段不足"),
            (18, "未知WAL操作码: X"),
        ]
    );
    assert_eq!(done.skipped[0].line, "T|x");
    assert_eq!(e.export_state(), engine().export_state());
}

#[test]
fn a_database_in_memory_cannot_be_saved() {
    let mut db = database();
    assert_eq!(
        db.persist().err(),
        Some("未绑定数据库文件，请使用 ProbeDB::open(path) 打开或创建数据库".to_string())
    );
    let damaged = Some("not a snapshot".to_string());
    assert!(ProbeDB::open("x.pdb", &damaged, &None).is_err());
    assert!(ProbeDB::open("x.pdb", &damaged, &Some("# ProbeDB WAL v1\n".to_string())).is_err());
}
