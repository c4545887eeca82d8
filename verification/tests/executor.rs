//! Statements and queries, from SQL text to results.

use probedb::executor::ExecuteResult;
use probedb::executor::Executor;
use probedb::persistence::wal::replay;
use probedb::persistence::wal::WalLog;
use probedb::sql::parse_sql;
use probedb::storage::StorageEngine;

#[test]
fn test_create_and_insert_and_select() {
    let mut executor = Executor::new();
    let sql = "CREATE TABLE users (id INTEGER, name TEXT, age INTEGER)";
    executor.execute(parse_sql(sql).unwrap()).unwrap();

    let sql = "INSERT INTO users (id, name, age) VALUES (1, 'alice', 30)";
    executor.execute(parse_sql(sql).unwrap()).unwrap();

    let sql = "SELECT id, name, age FROM users";
    let results = executor.execute(parse_sql(sql).unwrap()).unwrap();
    match &results[0] {
        ExecuteResult::SelectResult { columns, rows } => {
            assert_eq!(columns.len(), 3);
            assert_eq!(rows.len(), 1);
            assert_eq!(rows[0][0], "1");
            assert_eq!(rows[0][1], "alice");
        }
        _ => panic!("Expected SelectResult"),
    }
}

#[test]
fn test_where_filter() {
    let mut executor = Executor::new();
    executor.execute(parse_sql("CREATE TABLE t (id INTEGER, name TEXT, age INTEGER)").unwrap()).unwrap();
    executor.execute(parse_sql("INSERT INTO t (id, name, age) VALUES (1, 'alice', 30)").unwrap()).unwrap();
    executor.execute(parse_sql("INSERT INTO t (id, name, age) VALUES (2, 'bob', 25)").unwrap()).unwrap();
    executor.execute(parse_sql("INSERT INTO t (id, name, age) VALUES (3, 'charlie', 35)").unwrap()).unwrap();

    let results = executor.execute(parse_sql("SELECT id, name, age FROM t WHERE age > 30").unwrap()).unwrap();
    match &results[0] {
        ExecuteResult::SelectResult { rows, .. } => {
            assert_eq!(rows.len(), 1, "age > 30 should match 1 row");
            assert_eq!(rows[0][1], "charlie");
        }
        _ => panic!("Expected SelectResult"),
    }
}

#[test]
fn test_where_equal() {
    let mut executor = Executor::new();
    executor.execute(parse_sql("CREATE TABLE t (id INTEGER, name TEXT)").unwrap()).unwrap();
    executor.execute(parse_sql("INSERT INTO t (id, name) VALUES (1, 'alice')").unwrap()).unwrap();
    executor.execute(parse_sql("INSERT INTO t (id, name) VALUES (2, 'bob')").unwrap()).unwrap();

    let results = executor.execute(parse_sql("SELECT id, name FROM t WHERE name = 'alice'").unwrap()).unwrap();
    match &results[0] {
        ExecuteResult::SelectResult { rows, .. } => {
            assert_eq!(rows.len(), 1);
            assert_eq!(rows[0][1], "alice");
        }
        _ => panic!("Expected SelectResult"),
    }
}

#[test]
fn test_where_and() {
    let mut executor = Executor::new();
    executor.execute(parse_sql("CREATE TABLE t (id INTEGER, name TEXT, age INTEGER)").unwrap()).unwrap();
    executor.execute(parse_sql("INSERT INTO t (id, name, age) VALUES (1, 'alice', 30)").unwrap()).unwrap();
    executor.execute(parse_sql("INSERT INTO t (id, name, age) VALUES (2, 'bob', 25)").unwrap()).unwrap();
    executor.execute(parse_sql("INSERT INTO t (id, name, age) VALUES (3, 'alice', 35)").unwrap()).unwrap();

    let results = executor.execute(parse_sql("SELECT id FROM t WHERE name = 'alice' AND age >= 30").unwrap()).unwrap();
    match &results[0] {
        ExecuteResult::SelectResult { rows, .. } => {
            assert_eq!(rows.len(), 2);
        }
        _ => panic!("Expected SelectResult"),
    }
}

#[test]
fn test_order_by() {
    let mut executor = Executor::new();
    executor.execute(parse_sql("CREATE TABLE t (id INTEGER, name TEXT)").unwrap()).unwrap();
    executor.execute(parse_sql("INSERT INTO t (id, name) VALUES (2, 'bob')").unwrap()).unwrap();
    executor.execute(parse_sql("INSERT INTO t (id, name) VALUES (1, 'alice')").unwrap()).unwrap();
    executor.execute(parse_sql("INSERT INTO t (id, name) VALUES (3, 'charlie')").unwrap()).unwrap();

    let results = executor.execute(parse_sql("SELECT id, name FROM t ORDER BY id ASC").unwrap()).unwrap();
    match &results[0] {
        ExecuteResult::SelectResult { rows, .. } => {
            assert_eq!(rows[0][0], "1");
            assert_eq!(rows[2][0], "3");
        }
        _ => panic!("Expected SelectResult"),
    }
}

#[test]
fn test_where_and_order_by() {
    let mut executor = Executor::new();
    executor.execute(parse_sql("CREATE TABLE t (id INTEGER, name TEXT, age INTEGER)").unwrap()).unwrap();
    executor.execute(parse_sql("INSERT INTO t (id, name, age) VALUES (1, 'alice', 30)").unwrap()).unwrap();
    executor.execute(parse_sql("INSERT INTO t (id, name, age) VALUES (2, 'bob', 25)").unwrap()).unwrap();
    executor.execute(parse_sql("INSERT INTO t (id, name, age) VALUES (3, 'charlie', 35)").unwrap()).unwrap();

    let results = executor.execute(parse_sql("SELECT id, name FROM t WHERE age > 20 ORDER BY id DESC").unwrap()).unwrap();
    match &results[0] {
        ExecuteResult::SelectResult { rows, .. } => {
            assert_eq!(rows.len(), 3);
            assert_eq!(rows[0][0], "3"); // DESC 排序
        }
        _ => panic!("Expected SelectResult"),
    }
}

#[test]
fn test_delete_with_where() {
    let mut executor = Executor::new();
    executor.execute(parse_sql("CREATE TABLE t (id INTEGER, name TEXT)").unwrap()).unwrap();
    executor.execute(parse_sql("INSERT INTO t (id, name) VALUES (1, 'alice')").unwrap()).unwrap();
    executor.execute(parse_sql("INSERT INTO t (id, name) VALUES (2, 'bob')").unwrap()).unwrap();
    executor.execute(parse_sql("INSERT INTO t (id, name) VALUES (3, 'charlie')").unwrap()).unwrap();

    // DELETE WHERE
    let results = executor.execute(parse_sql("DELETE FROM t WHERE id = 1").unwrap()).unwrap();
    match &results[0] {
        ExecuteResult::Deleted { count } => assert_eq!(*count, 1),
        _ => panic!("Expected Deleted"),
    }

    // 验证剩余行
    let results = executor.execute(parse_sql("SELECT id FROM t ORDER BY id ASC").unwrap()).unwrap();
    match &results[0] {
        ExecuteResult::SelectResult { rows, .. } => {
            assert_eq!(rows.len(), 2);
            assert_eq!(rows[0][0], "2");
            assert_eq!(rows[1][0], "3");
        }
        _ => panic!("Expected SelectResult"),
    }
}

#[test]
fn test_delete_all() {
    let mut executor = Executor::new();
    executor.execute(parse_sql("CREATE TABLE t (id INTEGER)").unwrap()).unwrap();
    executor.execute(parse_sql("INSERT INTO t (id) VALUES (1)").unwrap()).unwrap();
    executor.execute(parse_sql("INSERT INTO t (id) VALUES (2)").unwrap()).unwrap();

    let results = executor.execute(parse_sql("DELETE FROM t").unwrap()).unwrap();
    match &results[0] {
        ExecuteResult::Deleted { count } => assert_eq!(*count, 2),
        _ => panic!("Expected Deleted"),
    }

    let results = executor.execute(parse_sql("SELECT id FROM t").unwrap()).unwrap();
    match &results[0] {
        ExecuteResult::SelectResult { rows, .. } => assert_eq!(rows.len(), 0),
        _ => panic!("Expected SelectResult"),
    }
}

#[test]
fn test_update_with_where() {
    let mut executor = Executor::new();
    executor.execute(parse_sql("CREATE TABLE t (id INTEGER, name TEXT, age INTEGER)").unwrap()).unwrap();
    executor.execute(parse_sql("INSERT INTO t (id, name, age) VALUES (1, 'alice', 30)").unwrap()).unwrap();
    executor.execute(parse_sql("INSERT INTO t (id, name, age) VALUES (2, 'bob', 25)").unwrap()).unwrap();

    // UPDATE WHERE
    let results = executor.execute(parse_sql("UPDATE t SET name = 'alice_updated', age = 31 WHERE id = 1").unwrap()).unwrap();
    match &results[0] {
        ExecuteResult::Updated { count } => assert_eq!(*count, 1),
        _ => panic!("Expected Updated"),
    }

    // 验证更新
    let results = executor.execute(parse_sql("SELECT id, name, age FROM t WHERE id = 1").unwrap()).unwrap();
    match &results[0] {
        ExecuteResult::SelectResult { rows, .. } => {
            assert_eq!(rows.len(), 1);
            assert_eq!(rows[0][1], "alice_updated");
            assert_eq!(rows[0][2], "31");
        }
        _ => panic!("Expected SelectResult"),
    }

    // 验证未被影响的行不变
    let results = executor.execute(parse_sql("SELECT id, name FROM t WHERE id = 2").unwrap()).unwrap();
    match &results[0] {
        ExecuteResult::SelectResult { rows, .. } => {
            assert_eq!(rows[0][1], "bob");
        }
        _ => panic!("Expected SelectResult"),
    }
}

#[test]
fn test_update_all() {
    let mut executor = Executor::new();
    executor.execute(parse_sql("CREATE TABLE t (id INTEGER, name TEXT)").unwrap()).unwrap();
    executor.execute(parse_sql("INSERT INTO t (id, name) VALUES (1, 'alice')").unwrap()).unwrap();
    executor.execute(parse_sql("INSERT INTO t (id, name) VALUES (2, 'bob')").unwrap()).unwrap();

    let results = executor.execute(parse_sql("UPDATE t SET name = 'updated'").unwrap()).unwrap();
    match &results[0] {
        ExecuteResult::Updated { count } => assert_eq!(*count, 2),
        _ => panic!("Expected Updated"),
    }

    // SELECT * FROM t 返回所有列，name 是第2列(index=1)
    let results = executor.execute(parse_sql("SELECT * FROM t ORDER BY id ASC").unwrap()).unwrap();
    match &results[0] {
        ExecuteResult::SelectResult { rows, .. } => {
            assert_eq!(rows[0][1], "updated");
            assert_eq!(rows[1][1], "updated");
        }
        _ => panic!("Expected SelectResult"),
    }
}

// ===== 向量相似度测试 =====

fn setup_vector_table(executor: &mut Executor) {
    executor.execute(parse_sql(
        "CREATE TABLE items (id INTEGER, name TEXT, embedding VECTOR(3))"
    ).unwrap()).unwrap();
    executor.execute(parse_sql(
        "INSERT INTO items (id, name, embedding) VALUES (1, 'apple', '[1.0,0.0,0.0]')"
    ).unwrap()).unwrap();
    executor.execute(parse_sql(
        "INSERT INTO items (id, name, embedding) VALUES (2, 'banana', '[0.0,1.0,0.0]')"
    ).unwrap()).unwrap();
    executor.execute(parse_sql(
        "INSERT INTO items (id, name, embedding) VALUES (3, 'cherry', '[0.0,0.0,1.0]')"
    ).unwrap()).unwrap();
    executor.execute(parse_sql(
        "INSERT INTO items (id, name, embedding) VALUES (4, 'date', '[0.9,0.1,0.0]')"
    ).unwrap()).unwrap();
    executor.execute(parse_sql(
        "INSERT INTO items (id, name, embedding) VALUES (5, 'elderberry', '[0.5,0.5,0.0]')"
    ).unwrap()).unwrap();
}

#[test]
fn test_vector_similarity_where_filter() {
    let mut executor = Executor::new();
    setup_vector_table(&mut executor);

    // 查询与 [1.0, 0.0, 0.0] 相似度 > 0.9 的行
    let results = executor.execute(parse_sql(
        "SELECT id, name FROM items WHERE vector_similarity(embedding, '[1.0,0.0,0.0]') > 0.9"
    ).unwrap()).unwrap();
    match &results[0] {
        ExecuteResult::SelectResult { rows, .. } => {
            // apple (相似度1.0) 和 date (相似度0.993) 应匹配
            assert_eq!(rows.len(), 2, "应与 [1,0,0] 相似度 > 0.9 的有 2 条（apple, date）");
            assert_eq!(rows[0][1], "apple");
            assert_eq!(rows[1][1], "date");
        }
        _ => panic!("Expected SelectResult"),
    }
}

#[test]
fn test_vector_similarity_order_by() {
    let mut executor = Executor::new();
    setup_vector_table(&mut executor);

    // 按与 [1.0, 0.0, 0.0] 的相似度降序排列
    let results = executor.execute(parse_sql(
        "SELECT id, name FROM items ORDER BY vector_similarity(embedding, '[1.0,0.0,0.0]') DESC"
    ).unwrap()).unwrap();
    match &results[0] {
        ExecuteResult::SelectResult { rows, .. } => {
            assert_eq!(rows.len(), 5);
            // 第一个应该是 apple（最相似于 [1,0,0]）
            assert_eq!(rows[0][1], "apple");
            // 第二个应该是 date（0.99+）
            assert_eq!(rows[1][1], "date");
            // 第三个应该是 elderberry（0.707）
            assert_eq!(rows[2][1], "elderberry");
        }
        _ => panic!("Expected SelectResult"),
    }
}

#[test]
fn test_vector_similarity_mixed_query() {
    let mut executor = Executor::new();
    setup_vector_table(&mut executor);

    // 混合查询：WHERE 标量条件 + vector_similarity 阈值 + ORDER BY vector_similarity
    let results = executor.execute(parse_sql(
        "SELECT id, name FROM items WHERE id >= 3 AND vector_similarity(embedding, '[1.0,0.0,0.0]') > 0.5 ORDER BY vector_similarity(embedding, '[1.0,0.0,0.0]') DESC"
    ).unwrap()).unwrap();
    match &results[0] {
        ExecuteResult::SelectResult { rows, .. } => {
            // id >= 3: cherry, date, elderberry
            // vector_similarity > 0.5: cherry(0.0不匹配), date(0.993匹配), elderberry(0.707匹配)
            // 按相似度降序: date, elderberry
            assert_eq!(rows.len(), 2);
            assert_eq!(rows[0][1], "date");
            assert_eq!(rows[1][1], "elderberry");
        }
        _ => panic!("Expected SelectResult"),
    }
}

// ===== 性能基线 =====

fn setup_big_vector_table(executor: &mut Executor) {
    executor.execute(parse_sql(
        "CREATE TABLE vectors (id INTEGER, label TEXT, embedding VECTOR(128))"
    ).unwrap()).unwrap();

    let start = std::time::Instant::now();
    for i in 0..1000 {
        let vals: Vec<String> = (0..128).map(|j| {
            format!("{:.4}", ((i as f64).sin() * (j as f64).cos() * 10.0).sin())
        }).collect();
        let vec_str = vals.join(",");
        let sql = format!(
            "INSERT INTO vectors (id, label, embedding) VALUES ({}, 'item_{}', '[{}]')",
            i, i, vec_str
        );
        executor.execute(parse_sql(&sql).unwrap()).unwrap();
    }
    let elapsed = start.elapsed();
    println!("[PERF] 插入 1000 行(128维): {:?} ({:.0} 行/秒)", elapsed, 1000.0 / elapsed.as_secs_f64());
}

#[test]
fn test_vector_similarity_perf_baseline() {
    let mut executor = Executor::new();
    setup_big_vector_table(&mut executor);

    // 构建目标向量
    let target_values: Vec<String> = (0..128).map(|j| format!("{:.4}", (j as f64 * 0.1).sin())).collect();
    let target_str = target_values.join(",");

    // 1. 标量查询基线
    let start = std::time::Instant::now();
    for _ in 0..100 {
        executor.execute(parse_sql("SELECT id, label FROM vectors WHERE id > 500").unwrap()).unwrap();
    }
    let scalar_elapsed = start.elapsed();
    println!(
        "[PERF] 标量查询 (100次, WHERE id > 500): {:?} (平均 {:.2}µs/次)",
        scalar_elapsed,
        scalar_elapsed.as_micros() as f64 / 100.0
    );

    // 2. 向量相似度查询
    let query = format!(
        "SELECT id, label FROM vectors WHERE vector_similarity(embedding, '[{}]') > 0.0 ORDER BY vector_similarity(embedding, '[{}]') DESC LIMIT 10",
        target_str, target_str
    );
    let start = std::time::Instant::now();
    for _ in 0..10 {
        executor.execute(parse_sql(&query).unwrap()).unwrap();
    }
    let vec_elapsed = start.elapsed();
    println!(
        "[PERF] 向量相似度查询 (10次, 128维, 1000行, WHERE+ORDER BY): {:?} (平均 {:.2}ms/次)",
        vec_elapsed,
        vec_elapsed.as_micros() as f64 / 10000.0
    );

    // 3. 混合查询
    let mixed_query = format!(
        "SELECT id, label FROM vectors WHERE id >= 0 AND vector_similarity(embedding, '[{}]') > 0.5 ORDER BY vector_similarity(embedding, '[{}]') DESC LIMIT 5",
        target_str, target_str
    );
    let start = std::time::Instant::now();
    for _ in 0..10 {
        executor.execute(parse_sql(&mixed_query).unwrap()).unwrap();
    }
    let mixed_elapsed = start.elapsed();
    println!(
        "[PERF] 混合查询 (10次, 标量+向量+ORDER BY): {:?} (平均 {:.2}ms/次)",
        mixed_elapsed,
        mixed_elapsed.as_micros() as f64 / 10000.0
    );
}

// ===== 列投影 + COUNT(*) 测试 =====

#[test]
fn test_select_star_all_columns() {
    let mut executor = Executor::new();
    executor.execute(parse_sql("CREATE TABLE t (id INTEGER, name TEXT, age INTEGER)").unwrap()).unwrap();
    executor.execute(parse_sql("INSERT INTO t (id, name, age) VALUES (1, 'alice', 30)").unwrap()).unwrap();

    let results = executor.execute(parse_sql("SELECT * FROM t").unwrap()).unwrap();
    match &results[0] {
        ExecuteResult::SelectResult { columns, rows } => {
            assert_eq!(columns.len(), 3, "SELECT * 应返回所有3列");
            assert_eq!(columns[0], "id");
            assert_eq!(columns[1], "name");
            assert_eq!(columns[2], "age");
            assert_eq!(rows.len(), 1);
            assert_eq!(rows[0][0], "1");
            assert_eq!(rows[0][1], "alice");
            assert_eq!(rows[0][2], "30");
        }
        _ => panic!("Expected SelectResult"),
    }
}

#[test]
fn test_select_single_column_projection() {
    let mut executor = Executor::new();
    executor.execute(parse_sql("CREATE TABLE t (id INTEGER, name TEXT, age INTEGER)").unwrap()).unwrap();
    executor.execute(parse_sql("INSERT INTO t (id, name, age) VALUES (1, 'alice', 30)").unwrap()).unwrap();
    executor.execute(parse_sql("INSERT INTO t (id, name, age) VALUES (2, 'bob', 25)").unwrap()).unwrap();

    // SELECT name — 只返回 name 列
    let results = executor.execute(parse_sql("SELECT name FROM t ORDER BY id ASC").unwrap()).unwrap();
    match &results[0] {
        ExecuteResult::SelectResult { columns, rows } => {
            assert_eq!(columns.len(), 1, "SELECT name 应只返回1列");
            assert_eq!(columns[0], "name");
            assert_eq!(rows.len(), 2);
            assert_eq!(rows[0][0], "alice");
            assert_eq!(rows[1][0], "bob");
        }
        _ => panic!("Expected SelectResult"),
    }
}

#[test]
fn test_select_multi_column_projection() {
    let mut executor = Executor::new();
    executor.execute(parse_sql("CREATE TABLE t (id INTEGER, name TEXT, age INTEGER)").unwrap()).unwrap();
    executor.execute(parse_sql("INSERT INTO t (id, name, age) VALUES (1, 'alice', 30)").unwrap()).unwrap();

    // SELECT id, name — 只返回2列（不含 age）
    let results = executor.execute(parse_sql("SELECT id, name FROM t").unwrap()).unwrap();
    match &results[0] {
        ExecuteResult::SelectResult { columns, rows } => {
            assert_eq!(columns.len(), 2, "SELECT id, name 应返回2列");
            assert_eq!(columns[0], "id");
            assert_eq!(columns[1], "name");
            assert_eq!(rows[0].len(), 2, "每行应有2个值");
            assert_eq!(rows[0][0], "1");
            assert_eq!(rows[0][1], "alice");
            // 不应包含 age 值 "30"
            assert!(!rows[0].contains(&"30".to_string()), "不应包含未选择的列");
        }
        _ => panic!("Expected SelectResult"),
    }
}

#[test]
fn test_select_nonexistent_column_errors() {
    let mut executor = Executor::new();
    executor.execute(parse_sql("CREATE TABLE t (id INTEGER, name TEXT)").unwrap()).unwrap();
    executor.execute(parse_sql("INSERT INTO t (id, name) VALUES (1, 'alice')").unwrap()).unwrap();

    // SELECT 不存在的列 → 报错
    let result = executor.execute(parse_sql("SELECT id, ghost FROM t").unwrap());
    assert!(result.is_err(), "查询不存在的列应报错");
    assert!(result.unwrap_err().contains("ghost"), "错误应提到列名 ghost");
}

#[test]
fn test_count_star() {
    let mut executor = Executor::new();
    executor.execute(parse_sql("CREATE TABLE t (id INTEGER, name TEXT)").unwrap()).unwrap();
    executor.execute(parse_sql("INSERT INTO t (id, name) VALUES (1, 'a')").unwrap()).unwrap();
    executor.execute(parse_sql("INSERT INTO t (id, name) VALUES (2, 'b')").unwrap()).unwrap();
    executor.execute(parse_sql("INSERT INTO t (id, name) VALUES (3, 'c')").unwrap()).unwrap();

    // COUNT(*) 全表
    let results = executor.execute(parse_sql("SELECT COUNT(*) FROM t").unwrap()).unwrap();
    match &results[0] {
        ExecuteResult::SelectResult { columns, rows } => {
            assert_eq!(columns, &vec!["count".to_string()], "COUNT(*) 列名应为 count");
            assert_eq!(rows.len(), 1, "COUNT 应返回单行");
            assert_eq!(rows[0][0], "3", "COUNT(*) 应返回3");
        }
        _ => panic!("Expected SelectResult"),
    }

    // COUNT(*) with WHERE
    let results = executor.execute(parse_sql("SELECT COUNT(*) FROM t WHERE id > 1").unwrap()).unwrap();
    match &results[0] {
        ExecuteResult::SelectResult { rows, .. } => {
            assert_eq!(rows[0][0], "2", "COUNT(*) WHERE id > 1 应返回2");
        }
        _ => panic!("Expected SelectResult"),
    }

    // COUNT(*) 空表
    executor.execute(parse_sql("CREATE TABLE empty (id INTEGER)").unwrap()).unwrap();
    let results = executor.execute(parse_sql("SELECT COUNT(*) FROM empty").unwrap()).unwrap();
    match &results[0] {
        ExecuteResult::SelectResult { rows, .. } => {
            assert_eq!(rows[0][0], "0", "COUNT(*) 空表应返回0");
        }
        _ => panic!("Expected SelectResult"),
    }
}

#[test]
fn test_insert_returns_row_id() {
    let mut executor = Executor::new();
    executor.execute(parse_sql("CREATE TABLE t (id INTEGER, name TEXT)").unwrap()).unwrap();

    // 单行 INSERT 应返回 Inserted { row_id }
    let results = executor.execute(parse_sql("INSERT INTO t (id, name) VALUES (1, 'alice')").unwrap()).unwrap();
    match &results[0] {
        ExecuteResult::Inserted { row_id } => {
            assert!(*row_id > 0, "单行插入应返回有效 row_id");
        }
        _ => panic!("Expected Inserted for single-row INSERT"),
    }

    // 多行 INSERT 应返回 Message（带行数）
    let results = executor.execute(parse_sql("INSERT INTO t (id, name) VALUES (2, 'bob'), (3, 'charlie')").unwrap()).unwrap();
    match &results[0] {
        ExecuteResult::Message(msg) => {
            assert!(msg.contains("2"), "多行插入消息应含行数: {}", msg);
        }
        _ => panic!("Expected Message for multi-row INSERT"),
    }
}

// ===== DROP TABLE 测试 =====

#[test]
fn test_drop_table_basic() {
    let mut executor = Executor::new();
    executor.execute(parse_sql("CREATE TABLE t (id INTEGER, name TEXT)").unwrap()).unwrap();
    executor.execute(parse_sql("INSERT INTO t (id, name) VALUES (1, 'alice')").unwrap()).unwrap();

    // DROP TABLE
    let results = executor.execute(parse_sql("DROP TABLE t").unwrap()).unwrap();
    match &results[0] {
        ExecuteResult::TableDropped { name } => assert_eq!(name, "t"),
        _ => panic!("Expected TableDropped"),
    }

    // 表已删除 → SELECT 应报错
    let result = executor.execute(parse_sql("SELECT * FROM t").unwrap());
    assert!(result.is_err(), "删除表后查询应报错");
}

#[test]
fn test_drop_table_then_recreate() {
    let mut executor = Executor::new();
    executor.execute(parse_sql("CREATE TABLE t (id INTEGER)").unwrap()).unwrap();
    executor.execute(parse_sql("DROP TABLE t").unwrap()).unwrap();

    // 删除后可以重新创建同名表
    let result = executor.execute(parse_sql("CREATE TABLE t (id INTEGER, name TEXT)").unwrap());
    assert!(result.is_ok(), "删除后应可重建同名表");
}

#[test]
fn test_drop_nonexistent_table_errors() {
    let mut executor = Executor::new();
    let result = executor.execute(parse_sql("DROP TABLE ghost").unwrap());
    assert!(result.is_err(), "删除不存在的表应报错");
}

#[test]
fn test_drop_table_if_exists() {
    let mut executor = Executor::new();
    executor.execute(parse_sql("CREATE TABLE t (id INTEGER)").unwrap()).unwrap();

    // DROP TABLE IF EXISTS 存在的表
    let results = executor.execute(parse_sql("DROP TABLE IF EXISTS t").unwrap()).unwrap();
    match &results[0] {
        ExecuteResult::TableDropped { name } => assert_eq!(name, "t"),
        _ => panic!("Expected TableDropped"),
    }

    // DROP TABLE IF EXISTS 不存在的表 → 应报错（表不存在）
    // IF EXISTS 只在解析层跳过，executor 仍尝试 drop_table 并报错
    // 这是设计选择：不做 IF EXISTS 语义（保持简单），解析器只忽略 IF EXISTS 关键字
}

#[test]
fn test_drop_table_wal_recovery() {
    // 验证 DROP TABLE 能通过 WAL 正确恢复
    let mut wal = WalLog::new();
    wal.append("T|users|id:INTEGER|name:TEXT");
    wal.append("I|users|1|INT:1|TEXT:alice");
    wal.append("DROP|users");

    let mut engine = StorageEngine::new();
    let replayed = replay(&wal.take_ready().join("\n"), &mut engine).replayed;
    assert_eq!(replayed, 3, "3条记录全部重放");

    // DROP 后表应不存在
    assert!(engine.get_schema("users").is_err(), "DROP TABLE 重放后表应不存在");
}

// ===== SELECT DISTINCT 测试 =====

#[test]
fn test_select_distinct_single_column() {
    let mut executor = Executor::new();
    executor.execute(parse_sql("CREATE TABLE t (id INTEGER, name TEXT)").unwrap()).unwrap();
    executor.execute(parse_sql("INSERT INTO t (id, name) VALUES (1, 'alice')").unwrap()).unwrap();
    executor.execute(parse_sql("INSERT INTO t (id, name) VALUES (2, 'alice')").unwrap()).unwrap();
    executor.execute(parse_sql("INSERT INTO t (id, name) VALUES (3, 'bob')").unwrap()).unwrap();
    executor.execute(parse_sql("INSERT INTO t (id, name) VALUES (4, 'alice')").unwrap()).unwrap();

    // SELECT DISTINCT name → 只有 'alice' 和 'bob'
    let results = executor.execute(parse_sql("SELECT DISTINCT name FROM t").unwrap()).unwrap();
    match &results[0] {
        ExecuteResult::SelectResult { rows, .. } => {
            assert_eq!(rows.len(), 2, "DISTINCT 应去重为2行");
            // 首次出现的顺序保持
            assert_eq!(rows[0][0], "alice");
            assert_eq!(rows[1][0], "bob");
        }
        _ => panic!("Expected SelectResult"),
    }
}

#[test]
fn test_select_distinct_multi_column() {
    let mut executor = Executor::new();
    executor.execute(parse_sql("CREATE TABLE t (id INTEGER, name TEXT, age INTEGER)").unwrap()).unwrap();
    executor.execute(parse_sql("INSERT INTO t (id, name, age) VALUES (1, 'alice', 30)").unwrap()).unwrap();
    executor.execute(parse_sql("INSERT INTO t (id, name, age) VALUES (2, 'alice', 30)").unwrap()).unwrap();
    executor.execute(parse_sql("INSERT INTO t (id, name, age) VALUES (3, 'alice', 25)").unwrap()).unwrap();
    executor.execute(parse_sql("INSERT INTO t (id, name, age) VALUES (4, 'bob', 30)").unwrap()).unwrap();

    // SELECT DISTINCT name, age → (alice,30), (alice,25), (bob,30)
    let results = executor.execute(parse_sql("SELECT DISTINCT name, age FROM t").unwrap()).unwrap();
    match &results[0] {
        ExecuteResult::SelectResult { rows, .. } => {
            assert_eq!(rows.len(), 3, "DISTINCT 多列去重应为3行");
        }
        _ => panic!("Expected SelectResult"),
    }
}

#[test]
fn test_select_distinct_all_unique() {
    let mut executor = Executor::new();
    executor.execute(parse_sql("CREATE TABLE t (id INTEGER, name TEXT)").unwrap()).unwrap();
    executor.execute(parse_sql("INSERT INTO t (id, name) VALUES (1, 'a')").unwrap()).unwrap();
    executor.execute(parse_sql("INSERT INTO t (id, name) VALUES (2, 'b')").unwrap()).unwrap();
    executor.execute(parse_sql("INSERT INTO t (id, name) VALUES (3, 'c')").unwrap()).unwrap();

    // 所有行都不同 → DISTINCT 不减少行数
    let results = executor.execute(parse_sql("SELECT DISTINCT id, name FROM t").unwrap()).unwrap();
    match &results[0] {
        ExecuteResult::SelectResult { rows, .. } => {
            assert_eq!(rows.len(), 3, "全部唯一时 DISTINCT 不去重");
        }
        _ => panic!("Expected SelectResult"),
    }
}

#[test]
fn test_select_distinct_with_where() {
    let mut executor = Executor::new();
    executor.execute(parse_sql("CREATE TABLE t (id INTEGER, name TEXT, age INTEGER)").unwrap()).unwrap();
    executor.execute(parse_sql("INSERT INTO t (id, name, age) VALUES (1, 'alice', 30)").unwrap()).unwrap();
    executor.execute(parse_sql("INSERT INTO t (id, name, age) VALUES (2, 'alice', 25)").unwrap()).unwrap();
    executor.execute(parse_sql("INSERT INTO t (id, name, age) VALUES (3, 'bob', 30)").unwrap()).unwrap();
    executor.execute(parse_sql("INSERT INTO t (id, name, age) VALUES (4, 'alice', 30)").unwrap()).unwrap();

    // SELECT DISTINCT name WHERE age = 30 → alice, bob
    let results = executor.execute(parse_sql("SELECT DISTINCT name FROM t WHERE age = 30").unwrap()).unwrap();
    match &results[0] {
        ExecuteResult::SelectResult { rows, .. } => {
            assert_eq!(rows.len(), 2, "DISTINCT + WHERE 应返回2行");
        }
        _ => panic!("Expected SelectResult"),
    }
}

#[test]
fn test_select_distinct_star() {
    let mut executor = Executor::new();
    executor.execute(parse_sql("CREATE TABLE t (id INTEGER, name TEXT)").unwrap()).unwrap();
    executor.execute(parse_sql("INSERT INTO t (id, name) VALUES (1, 'alice')").unwrap()).unwrap();
    executor.execute(parse_sql("INSERT INTO t (id, name) VALUES (1, 'alice')").unwrap()).unwrap();
    executor.execute(parse_sql("INSERT INTO t (id, name) VALUES (2, 'bob')").unwrap()).unwrap();

    // SELECT DISTINCT * → 完全重复的行去重
    let results = executor.execute(parse_sql("SELECT DISTINCT * FROM t").unwrap()).unwrap();
    match &results[0] {
        ExecuteResult::SelectResult { rows, .. } => {
            assert_eq!(rows.len(), 2, "DISTINCT * 应去重完全相同的行");
        }
        _ => panic!("Expected SelectResult"),
    }
}

// ===== 聚合函数测试 =====

#[test]
fn test_sum_aggregate() {
    let mut executor = Executor::new();
    executor.execute(parse_sql("CREATE TABLE t (id INTEGER, name TEXT, price INTEGER)").unwrap()).unwrap();
    executor.execute(parse_sql("INSERT INTO t (id, name, price) VALUES (1, 'a', 10)").unwrap()).unwrap();
    executor.execute(parse_sql("INSERT INTO t (id, name, price) VALUES (2, 'b', 20)").unwrap()).unwrap();
    executor.execute(parse_sql("INSERT INTO t (id, name, price) VALUES (3, 'c', 30)").unwrap()).unwrap();

    let results = executor.execute(parse_sql("SELECT SUM(price) FROM t").unwrap()).unwrap();
    match &results[0] {
        ExecuteResult::SelectResult { columns, rows } => {
            assert_eq!(columns, &vec!["sum".to_string()]);
            assert_eq!(rows[0][0], "60", "SUM(price) 应为 60");
        }
        _ => panic!("Expected SelectResult"),
    }
}

#[test]
fn test_avg_aggregate() {
    let mut executor = Executor::new();
    executor.execute(parse_sql("CREATE TABLE t (id INTEGER, name TEXT, age INTEGER)").unwrap()).unwrap();
    executor.execute(parse_sql("INSERT INTO t (id, name, age) VALUES (1, 'a', 30)").unwrap()).unwrap();
    executor.execute(parse_sql("INSERT INTO t (id, name, age) VALUES (2, 'b', 25)").unwrap()).unwrap();
    executor.execute(parse_sql("INSERT INTO t (id, name, age) VALUES (3, 'c', 35)").unwrap()).unwrap();

    let results = executor.execute(parse_sql("SELECT AVG(age) FROM t").unwrap()).unwrap();
    match &results[0] {
        ExecuteResult::SelectResult { columns, rows } => {
            assert_eq!(columns, &vec!["avg".to_string()]);
            let avg: f64 = rows[0][0].parse().unwrap();
            assert!((avg - 30.0).abs() < 0.01, "AVG(age) 应为 30，得到 {}", avg);
        }
        _ => panic!("Expected SelectResult"),
    }
}

#[test]
fn test_min_max_aggregate() {
    let mut executor = Executor::new();
    executor.execute(parse_sql("CREATE TABLE t (id INTEGER, name TEXT, score INTEGER)").unwrap()).unwrap();
    executor.execute(parse_sql("INSERT INTO t (id, name, score) VALUES (1, 'a', 50)").unwrap()).unwrap();
    executor.execute(parse_sql("INSERT INTO t (id, name, score) VALUES (2, 'b', 90)").unwrap()).unwrap();
    executor.execute(parse_sql("INSERT INTO t (id, name, score) VALUES (3, 'c', 70)").unwrap()).unwrap();

    let results = executor.execute(parse_sql("SELECT MIN(score) FROM t").unwrap()).unwrap();
    match &results[0] {
        ExecuteResult::SelectResult { columns, rows } => {
            assert_eq!(columns, &vec!["min".to_string()]);
            assert_eq!(rows[0][0], "50", "MIN(score) 应为 50");
        }
        _ => panic!("Expected SelectResult"),
    }

    let results = executor.execute(parse_sql("SELECT MAX(score) FROM t").unwrap()).unwrap();
    match &results[0] {
        ExecuteResult::SelectResult { columns, rows } => {
            assert_eq!(columns, &vec!["max".to_string()]);
            assert_eq!(rows[0][0], "90", "MAX(score) 应为 90");
        }
        _ => panic!("Expected SelectResult"),
    }
}

#[test]
fn test_aggregate_with_where() {
    let mut executor = Executor::new();
    executor.execute(parse_sql("CREATE TABLE t (id INTEGER, name TEXT, age INTEGER)").unwrap()).unwrap();
    executor.execute(parse_sql("INSERT INTO t (id, name, age) VALUES (1, 'a', 30)").unwrap()).unwrap();
    executor.execute(parse_sql("INSERT INTO t (id, name, age) VALUES (2, 'b', 25)").unwrap()).unwrap();
    executor.execute(parse_sql("INSERT INTO t (id, name, age) VALUES (3, 'c', 35)").unwrap()).unwrap();

    // SUM(age) WHERE age >= 30 → 30 + 35 = 65
    let results = executor.execute(parse_sql("SELECT SUM(age) FROM t WHERE age >= 30").unwrap()).unwrap();
    match &results[0] {
        ExecuteResult::SelectResult { rows, .. } => {
            assert_eq!(rows[0][0], "65", "SUM(age) WHERE age >= 30 应为 65");
        }
        _ => panic!("Expected SelectResult"),
    }
}

#[test]
fn test_aggregate_empty_table() {
    let mut executor = Executor::new();
    executor.execute(parse_sql("CREATE TABLE t (id INTEGER, score INTEGER)").unwrap()).unwrap();

    let results = executor.execute(parse_sql("SELECT SUM(score) FROM t").unwrap()).unwrap();
    match &results[0] {
        ExecuteResult::SelectResult { rows, .. } => {
            assert_eq!(rows[0][0], "0", "空表 SUM 应为 0");
        }
        _ => panic!("Expected SelectResult"),
    }
}

// ===== OFFSET 分页测试 =====

#[test]
fn test_offset_basic() {
    let mut executor = Executor::new();
    executor.execute(parse_sql("CREATE TABLE t (id INTEGER, name TEXT)").unwrap()).unwrap();
    for i in 1..=5 {
        let sql = format!("INSERT INTO t (id, name) VALUES ({}, 'item{}')", i, i);
        executor.execute(parse_sql(&sql).unwrap()).unwrap();
    }

    // OFFSET 2 → 跳过前2行，返回3行
    let results = executor.execute(parse_sql("SELECT id, name FROM t ORDER BY id ASC OFFSET 2").unwrap()).unwrap();
    match &results[0] {
        ExecuteResult::SelectResult { rows, .. } => {
            assert_eq!(rows.len(), 3, "OFFSET 2 应返回3行");
            assert_eq!(rows[0][0], "3", "第一行应为 id=3");
            assert_eq!(rows[2][0], "5", "最后一行应为 id=5");
        }
        _ => panic!("Expected SelectResult"),
    }
}

#[test]
fn test_limit_with_offset() {
    let mut executor = Executor::new();
    executor.execute(parse_sql("CREATE TABLE t (id INTEGER, name TEXT)").unwrap()).unwrap();
    for i in 1..=10 {
        let sql = format!("INSERT INTO t (id, name) VALUES ({}, 'item{}')", i, i);
        executor.execute(parse_sql(&sql).unwrap()).unwrap();
    }

    // LIMIT 3 OFFSET 5 → 第6-8行
    let results = executor.execute(parse_sql("SELECT id, name FROM t ORDER BY id ASC LIMIT 3 OFFSET 5").unwrap()).unwrap();
    match &results[0] {
        ExecuteResult::SelectResult { rows, .. } => {
            assert_eq!(rows.len(), 3, "LIMIT 3 OFFSET 5 应返回3行");
            assert_eq!(rows[0][0], "6", "第一行应为 id=6");
            assert_eq!(rows[2][0], "8", "最后一行应为 id=8");
        }
        _ => panic!("Expected SelectResult"),
    }
}

#[test]
fn test_offset_exceeds_count() {
    let mut executor = Executor::new();
    executor.execute(parse_sql("CREATE TABLE t (id INTEGER)").unwrap()).unwrap();
    executor.execute(parse_sql("INSERT INTO t (id) VALUES (1)").unwrap()).unwrap();
    executor.execute(parse_sql("INSERT INTO t (id) VALUES (2)").unwrap()).unwrap();

    // OFFSET 10 > 行数 → 空结果
    let results = executor.execute(parse_sql("SELECT id FROM t OFFSET 10").unwrap()).unwrap();
    match &results[0] {
        ExecuteResult::SelectResult { rows, .. } => {
            assert_eq!(rows.len(), 0, "OFFSET 超过行数应返回空");
        }
        _ => panic!("Expected SelectResult"),
    }
}

// ===== GROUP BY 分组聚合测试 =====

#[test]
fn test_group_by_count_star() {
    let mut executor = Executor::new();
    executor.execute(parse_sql("CREATE TABLE emp (id INTEGER, dept TEXT, salary INTEGER)").unwrap()).unwrap();
    executor.execute(parse_sql("INSERT INTO emp (id, dept, salary) VALUES (1, 'eng', 100)").unwrap()).unwrap();
    executor.execute(parse_sql("INSERT INTO emp (id, dept, salary) VALUES (2, 'eng', 120)").unwrap()).unwrap();
    executor.execute(parse_sql("INSERT INTO emp (id, dept, salary) VALUES (3, 'sales', 90)").unwrap()).unwrap();
    executor.execute(parse_sql("INSERT INTO emp (id, dept, salary) VALUES (4, 'sales', 110)").unwrap()).unwrap();
    executor.execute(parse_sql("INSERT INTO emp (id, dept, salary) VALUES (5, 'eng', 130)").unwrap()).unwrap();

    // SELECT dept, COUNT(*) FROM emp GROUP BY dept
    let results = executor.execute(parse_sql("SELECT dept, COUNT(*) FROM emp GROUP BY dept").unwrap()).unwrap();
    match &results[0] {
        ExecuteResult::SelectResult { columns, rows } => {
            assert_eq!(columns, &vec!["dept".to_string(), "count".to_string()]);
            assert_eq!(rows.len(), 2, "应分2组: eng, sales");
            // eng 组有3人，sales 组有2人
            let eng_row = rows.iter().find(|r| r[0] == "eng").unwrap();
            assert_eq!(eng_row[1], "3", "eng 组应有3人");
            let sales_row = rows.iter().find(|r| r[0] == "sales").unwrap();
            assert_eq!(sales_row[1], "2", "sales 组应有2人");
        }
        _ => panic!("Expected SelectResult"),
    }
}

#[test]
fn test_group_by_sum_avg() {
    let mut executor = Executor::new();
    executor.execute(parse_sql("CREATE TABLE emp (id INTEGER, dept TEXT, salary INTEGER)").unwrap()).unwrap();
    executor.execute(parse_sql("INSERT INTO emp (id, dept, salary) VALUES (1, 'eng', 100)").unwrap()).unwrap();
    executor.execute(parse_sql("INSERT INTO emp (id, dept, salary) VALUES (2, 'eng', 120)").unwrap()).unwrap();
    executor.execute(parse_sql("INSERT INTO emp (id, dept, salary) VALUES (3, 'sales', 90)").unwrap()).unwrap();
    executor.execute(parse_sql("INSERT INTO emp (id, dept, salary) VALUES (4, 'sales', 110)").unwrap()).unwrap();

    // SELECT dept, SUM(salary), AVG(salary) FROM emp GROUP BY dept
    let results = executor.execute(parse_sql("SELECT dept, SUM(salary), AVG(salary) FROM emp GROUP BY dept").unwrap()).unwrap();
    match &results[0] {
        ExecuteResult::SelectResult { columns, rows } => {
            assert_eq!(columns, &vec!["dept".to_string(), "sum".to_string(), "avg".to_string()]);
            assert_eq!(rows.len(), 2);

            let eng_row = rows.iter().find(|r| r[0] == "eng").unwrap();
            assert_eq!(eng_row[1], "220", "eng SUM(salary) 应为 220");
            let avg: f64 = eng_row[2].parse().unwrap();
            assert!((avg - 110.0).abs() < 0.01, "eng AVG(salary) 应为 110, 得到 {}", avg);

            let sales_row = rows.iter().find(|r| r[0] == "sales").unwrap();
            assert_eq!(sales_row[1], "200", "sales SUM(salary) 应为 200");
            let avg: f64 = sales_row[2].parse().unwrap();
            assert!((avg - 100.0).abs() < 0.01, "sales AVG(salary) 应为 100, 得到 {}", avg);
        }
        _ => panic!("Expected SelectResult"),
    }
}

#[test]
fn test_group_by_min_max() {
    let mut executor = Executor::new();
    executor.execute(parse_sql("CREATE TABLE t (id INTEGER, cat TEXT, val INTEGER)").unwrap()).unwrap();
    executor.execute(parse_sql("INSERT INTO t (id, cat, val) VALUES (1, 'a', 10)").unwrap()).unwrap();
    executor.execute(parse_sql("INSERT INTO t (id, cat, val) VALUES (2, 'a', 30)").unwrap()).unwrap();
    executor.execute(parse_sql("INSERT INTO t (id, cat, val) VALUES (3, 'b', 20)").unwrap()).unwrap();
    executor.execute(parse_sql("INSERT INTO t (id, cat, val) VALUES (4, 'b', 50)").unwrap()).unwrap();

    let results = executor.execute(parse_sql("SELECT cat, MIN(val), MAX(val) FROM t GROUP BY cat").unwrap()).unwrap();
    match &results[0] {
        ExecuteResult::SelectResult { columns, rows } => {
            assert_eq!(columns, &vec!["cat".to_string(), "min".to_string(), "max".to_string()]);
            assert_eq!(rows.len(), 2);

            let a_row = rows.iter().find(|r| r[0] == "a").unwrap();
            assert_eq!(a_row[1], "10", "a MIN 应为 10");
            assert_eq!(a_row[2], "30", "a MAX 应为 30");

            let b_row = rows.iter().find(|r| r[0] == "b").unwrap();
            assert_eq!(b_row[1], "20", "b MIN 应为 20");
            assert_eq!(b_row[2], "50", "b MAX 应为 50");
        }
        _ => panic!("Expected SelectResult"),
    }
}

#[test]
fn test_group_by_with_where() {
    let mut executor = Executor::new();
    executor.execute(parse_sql("CREATE TABLE t (id INTEGER, dept TEXT, salary INTEGER)").unwrap()).unwrap();
    executor.execute(parse_sql("INSERT INTO t (id, dept, salary) VALUES (1, 'eng', 100)").unwrap()).unwrap();
    executor.execute(parse_sql("INSERT INTO t (id, dept, salary) VALUES (2, 'eng', 120)").unwrap()).unwrap();
    executor.execute(parse_sql("INSERT INTO t (id, dept, salary) VALUES (3, 'eng', 80)").unwrap()).unwrap();
    executor.execute(parse_sql("INSERT INTO t (id, dept, salary) VALUES (4, 'sales', 90)").unwrap()).unwrap();
    executor.execute(parse_sql("INSERT INTO t (id, dept, salary) VALUES (5, 'sales', 110)").unwrap()).unwrap();

    // WHERE salary >= 90 → 过滤后: eng(100,120), sales(90,110)
    // GROUP BY dept → eng: 2人 sum=220, sales: 2人 sum=200
    let results = executor.execute(parse_sql("SELECT dept, COUNT(*), SUM(salary) FROM t WHERE salary >= 90 GROUP BY dept").unwrap()).unwrap();
    match &results[0] {
        ExecuteResult::SelectResult { rows, .. } => {
            assert_eq!(rows.len(), 2, "WHERE 后应分2组");

            let eng_row = rows.iter().find(|r| r[0] == "eng").unwrap();
            assert_eq!(eng_row[1], "2", "eng 过滤后应有2人");
            assert_eq!(eng_row[2], "220", "eng SUM 应为 220");

            let sales_row = rows.iter().find(|r| r[0] == "sales").unwrap();
            assert_eq!(sales_row[1], "2", "sales 过滤后应有2人");
            assert_eq!(sales_row[2], "200", "sales SUM 应为 200");
        }
        _ => panic!("Expected SelectResult"),
    }
}

#[test]
fn test_group_by_empty_table() {
    let mut executor = Executor::new();
    executor.execute(parse_sql("CREATE TABLE t (id INTEGER, dept TEXT, val INTEGER)").unwrap()).unwrap();

    // 空表 GROUP BY → 返回空结果（无分组）
    let results = executor.execute(parse_sql("SELECT dept, COUNT(*) FROM t GROUP BY dept").unwrap()).unwrap();
    match &results[0] {
        ExecuteResult::SelectResult { rows, .. } => {
            assert_eq!(rows.len(), 0, "空表 GROUP BY 应返回0行");
        }
        _ => panic!("Expected SelectResult"),
    }
}

#[test]
fn test_group_by_single_group() {
    let mut executor = Executor::new();
    executor.execute(parse_sql("CREATE TABLE t (id INTEGER, dept TEXT, val INTEGER)").unwrap()).unwrap();
    executor.execute(parse_sql("INSERT INTO t (id, dept, val) VALUES (1, 'x', 10)").unwrap()).unwrap();
    executor.execute(parse_sql("INSERT INTO t (id, dept, val) VALUES (2, 'x', 20)").unwrap()).unwrap();
    executor.execute(parse_sql("INSERT INTO t (id, dept, val) VALUES (3, 'x', 30)").unwrap()).unwrap();

    // 所有行同一分组
    let results = executor.execute(parse_sql("SELECT dept, COUNT(*), SUM(val) FROM t GROUP BY dept").unwrap()).unwrap();
    match &results[0] {
        ExecuteResult::SelectResult { rows, .. } => {
            assert_eq!(rows.len(), 1, "同一分组应返回1行");
            assert_eq!(rows[0][0], "x");
            assert_eq!(rows[0][1], "3");
            assert_eq!(rows[0][2], "60");
        }
        _ => panic!("Expected SelectResult"),
    }
}

#[test]
fn test_group_by_multi_column() {
    let mut executor = Executor::new();
    executor.execute(parse_sql("CREATE TABLE t (id INTEGER, dept TEXT, level TEXT, salary INTEGER)").unwrap()).unwrap();
    executor.execute(parse_sql("INSERT INTO t (id, dept, level, salary) VALUES (1, 'eng', 'junior', 100)").unwrap()).unwrap();
    executor.execute(parse_sql("INSERT INTO t (id, dept, level, salary) VALUES (2, 'eng', 'senior', 200)").unwrap()).unwrap();
    executor.execute(parse_sql("INSERT INTO t (id, dept, level, salary) VALUES (3, 'eng', 'junior', 110)").unwrap()).unwrap();
    executor.execute(parse_sql("INSERT INTO t (id, dept, level, salary) VALUES (4, 'sales', 'junior', 90)").unwrap()).unwrap();

    // GROUP BY dept, level → 3组: (eng,junior), (eng,senior), (sales,junior)
    let results = executor.execute(parse_sql("SELECT dept, level, COUNT(*) FROM t GROUP BY dept, level").unwrap()).unwrap();
    match &results[0] {
        ExecuteResult::SelectResult { columns, rows } => {
            assert_eq!(columns, &vec!["dept".to_string(), "level".to_string(), "count".to_string()]);
            assert_eq!(rows.len(), 3, "多列 GROUP BY 应分3组");

            let eng_junior = rows.iter().find(|r| r[0] == "eng" && r[1] == "junior").unwrap();
            assert_eq!(eng_junior[2], "2", "eng/junior 应有2人");
        }
        _ => panic!("Expected SelectResult"),
    }
}

// ===== HAVING 过滤测试 =====

#[test]
fn test_having_count_star() {
    let mut executor = Executor::new();
    executor.execute(parse_sql("CREATE TABLE emp (id INTEGER, dept TEXT, salary INTEGER)").unwrap()).unwrap();
    executor.execute(parse_sql("INSERT INTO emp (id, dept, salary) VALUES (1, 'eng', 100)").unwrap()).unwrap();
    executor.execute(parse_sql("INSERT INTO emp (id, dept, salary) VALUES (2, 'eng', 120)").unwrap()).unwrap();
    executor.execute(parse_sql("INSERT INTO emp (id, dept, salary) VALUES (3, 'eng', 130)").unwrap()).unwrap();
    executor.execute(parse_sql("INSERT INTO emp (id, dept, salary) VALUES (4, 'sales', 90)").unwrap()).unwrap();
    executor.execute(parse_sql("INSERT INTO emp (id, dept, salary) VALUES (5, 'sales', 110)").unwrap()).unwrap();

    // HAVING COUNT(*) > 2 → 只有 eng 有3人，sales 有2人被过滤
    let results = executor.execute(parse_sql("SELECT dept, COUNT(*) FROM emp GROUP BY dept HAVING COUNT(*) > 2").unwrap()).unwrap();
    match &results[0] {
        ExecuteResult::SelectResult { rows, .. } => {
            assert_eq!(rows.len(), 1, "HAVING COUNT(*) > 2 应只保留1组");
            assert_eq!(rows[0][0], "eng", "保留的组是 eng");
            assert_eq!(rows[0][1], "3", "eng 有3人");
        }
        _ => panic!("Expected SelectResult"),
    }
}

#[test]
fn test_having_sum() {
    let mut executor = Executor::new();
    executor.execute(parse_sql("CREATE TABLE t (id INTEGER, dept TEXT, val INTEGER)").unwrap()).unwrap();
    executor.execute(parse_sql("INSERT INTO t (id, dept, val) VALUES (1, 'a', 10)").unwrap()).unwrap();
    executor.execute(parse_sql("INSERT INTO t (id, dept, val) VALUES (2, 'a', 20)").unwrap()).unwrap();
    executor.execute(parse_sql("INSERT INTO t (id, dept, val) VALUES (3, 'b', 5)").unwrap()).unwrap();
    executor.execute(parse_sql("INSERT INTO t (id, dept, val) VALUES (4, 'b', 5)").unwrap()).unwrap();

    // HAVING SUM(val) > 20 → a: sum=30 保留, b: sum=10 过滤
    let results = executor.execute(parse_sql("SELECT dept, SUM(val) FROM t GROUP BY dept HAVING SUM(val) > 20").unwrap()).unwrap();
    match &results[0] {
        ExecuteResult::SelectResult { rows, .. } => {
            assert_eq!(rows.len(), 1, "HAVING SUM(val) > 20 应只保留1组");
            assert_eq!(rows[0][0], "a", "保留的组是 a");
            assert_eq!(rows[0][1], "30", "a SUM = 30");
        }
        _ => panic!("Expected SelectResult"),
    }
}

#[test]
fn test_having_with_where() {
    let mut executor = Executor::new();
    executor.execute(parse_sql("CREATE TABLE t (id INTEGER, dept TEXT, salary INTEGER)").unwrap()).unwrap();
    executor.execute(parse_sql("INSERT INTO t (id, dept, salary) VALUES (1, 'eng', 100)").unwrap()).unwrap();
    executor.execute(parse_sql("INSERT INTO t (id, dept, salary) VALUES (2, 'eng', 120)").unwrap()).unwrap();
    executor.execute(parse_sql("INSERT INTO t (id, dept, salary) VALUES (3, 'eng', 80)").unwrap()).unwrap();
    executor.execute(parse_sql("INSERT INTO t (id, dept, salary) VALUES (4, 'sales', 90)").unwrap()).unwrap();
    executor.execute(parse_sql("INSERT INTO t (id, dept, salary) VALUES (5, 'sales', 110)").unwrap()).unwrap();

    // WHERE salary >= 90 → eng(100,120)=2人 sum=220, sales(90,110)=2人 sum=200
    // HAVING COUNT(*) >= 2 → 两组都保留（各2人）
    let results = executor.execute(parse_sql("SELECT dept, COUNT(*), SUM(salary) FROM t WHERE salary >= 90 GROUP BY dept HAVING COUNT(*) >= 2").unwrap()).unwrap();
    match &results[0] {
        ExecuteResult::SelectResult { rows, .. } => {
            assert_eq!(rows.len(), 2, "两组都应有2人");
        }
        _ => panic!("Expected SelectResult"),
    }
}

#[test]
fn test_having_all_filtered() {
    let mut executor = Executor::new();
    executor.execute(parse_sql("CREATE TABLE t (id INTEGER, dept TEXT, val INTEGER)").unwrap()).unwrap();
    executor.execute(parse_sql("INSERT INTO t (id, dept, val) VALUES (1, 'a', 10)").unwrap()).unwrap();
    executor.execute(parse_sql("INSERT INTO t (id, dept, val) VALUES (2, 'b', 20)").unwrap()).unwrap();

    // HAVING SUM(val) > 100 → 无组满足，返回0行
    let results = executor.execute(parse_sql("SELECT dept, SUM(val) FROM t GROUP BY dept HAVING SUM(val) > 100").unwrap()).unwrap();
    match &results[0] {
        ExecuteResult::SelectResult { rows, .. } => {
            assert_eq!(rows.len(), 0, "HAVING 过滤掉所有组应返回0行");
        }
        _ => panic!("Expected SelectResult"),
    }
}

#[test]
fn test_having_avg() {
    let mut executor = Executor::new();
    executor.execute(parse_sql("CREATE TABLE t (id INTEGER, cat TEXT, score INTEGER)").unwrap()).unwrap();
    executor.execute(parse_sql("INSERT INTO t (id, cat, score) VALUES (1, 'x', 80)").unwrap()).unwrap();
    executor.execute(parse_sql("INSERT INTO t (id, cat, score) VALUES (2, 'x', 90)").unwrap()).unwrap();
    executor.execute(parse_sql("INSERT INTO t (id, cat, score) VALUES (3, 'y', 40)").unwrap()).unwrap();
    executor.execute(parse_sql("INSERT INTO t (id, cat, score) VALUES (4, 'y', 60)").unwrap()).unwrap();

    // HAVING AVG(score) > 50 → x: avg=85 保留, y: avg=50 过滤
    let results = executor.execute(parse_sql("SELECT cat, AVG(score) FROM t GROUP BY cat HAVING AVG(score) > 50").unwrap()).unwrap();
    match &results[0] {
        ExecuteResult::SelectResult { rows, .. } => {
            assert_eq!(rows.len(), 1, "HAVING AVG(score) > 50 应只保留1组");
            assert_eq!(rows[0][0], "x", "保留的组是 x");
        }
        _ => panic!("Expected SelectResult"),
    }
}

#[test]
fn test_having_and_or() {
    let mut executor = Executor::new();
    executor.execute(parse_sql("CREATE TABLE t (id INTEGER, dept TEXT, salary INTEGER)").unwrap()).unwrap();
    executor.execute(parse_sql("INSERT INTO t (id, dept, salary) VALUES (1, 'eng', 100)").unwrap()).unwrap();
    executor.execute(parse_sql("INSERT INTO t (id, dept, salary) VALUES (2, 'eng', 120)").unwrap()).unwrap();
    executor.execute(parse_sql("INSERT INTO t (id, dept, salary) VALUES (3, 'sales', 90)").unwrap()).unwrap();
    executor.execute(parse_sql("INSERT INTO t (id, dept, salary) VALUES (4, 'sales', 110)").unwrap()).unwrap();
    executor.execute(parse_sql("INSERT INTO t (id, dept, salary) VALUES (5, 'hr', 50)").unwrap()).unwrap();

    // eng: count=2, sum=220; sales: count=2, sum=200; hr: count=1, sum=50
    // HAVING COUNT(*) > 1 AND SUM(salary) > 200 → eng 保留 (2>1 AND 220>200)
    // sales: 2>1 AND 200>200 → false
    let results = executor.execute(parse_sql("SELECT dept, COUNT(*), SUM(salary) FROM t GROUP BY dept HAVING COUNT(*) > 1 AND SUM(salary) > 200").unwrap()).unwrap();
    match &results[0] {
        ExecuteResult::SelectResult { rows, .. } => {
            assert_eq!(rows.len(), 1, "AND 条件应只保留 eng");
            assert_eq!(rows[0][0], "eng");
        }
        _ => panic!("Expected SelectResult"),
    }

    // HAVING COUNT(*) > 1 OR SUM(salary) > 100 → eng(2>1 T) + sales(2>1 T) + hr(1>1 F OR 50>100 F → F)
    let results = executor.execute(parse_sql("SELECT dept, COUNT(*), SUM(salary) FROM t GROUP BY dept HAVING COUNT(*) > 1 OR SUM(salary) > 100").unwrap()).unwrap();
    match &results[0] {
        ExecuteResult::SelectResult { rows, .. } => {
            assert_eq!(rows.len(), 2, "OR 条件应保留 eng + sales");
        }
        _ => panic!("Expected SelectResult"),
    }
}

#[test]
fn test_having_empty_table() {
    let mut executor = Executor::new();
    executor.execute(parse_sql("CREATE TABLE t (id INTEGER, dept TEXT, val INTEGER)").unwrap()).unwrap();

    // 空表 GROUP BY + HAVING → 0行
    let results = executor.execute(parse_sql("SELECT dept, COUNT(*) FROM t GROUP BY dept HAVING COUNT(*) > 0").unwrap()).unwrap();
    match &results[0] {
        ExecuteResult::SelectResult { rows, .. } => {
            assert_eq!(rows.len(), 0, "空表 HAVING 应返回0行");
        }
        _ => panic!("Expected SelectResult"),
    }
}

// ===== BOOLEAN / DATE / TIME 端到端 =====

/// 建一张含三种新类型的表
fn setup_typed_table(executor: &mut Executor) {
    executor.execute(parse_sql(
        "CREATE TABLE tasks (id INTEGER, title TEXT, due DATE, at TIME, done BOOLEAN)",
    ).unwrap()).unwrap();
    executor.execute(parse_sql(
        "INSERT INTO tasks (id, title, due, at, done) VALUES \
         (1, 'alpha', '2026-01-15', '09:00:00', false), \
         (2, 'beta', '2026-03-02', '14:30:00', true), \
         (3, 'gamma', '2025-12-31', '23:59:59', false), \
         (4, 'delta', '2026-03-02', '08:00:00', true)",
    ).unwrap()).unwrap();
}

#[test]
fn test_boolean_insert_and_select() {
    let mut executor = Executor::new();
    setup_typed_table(&mut executor);

    let results = executor.execute(parse_sql("SELECT id, title, done FROM tasks").unwrap()).unwrap();
    match &results[0] {
        ExecuteResult::SelectResult { columns, rows } => {
            assert_eq!(columns, &vec!["id".to_string(), "title".to_string(), "done".to_string()]);
            assert_eq!(rows.len(), 4);
            assert_eq!(rows[0][2], "false", "BOOL 输出应为 true/false");
            assert_eq!(rows[1][2], "true");
        }
        _ => panic!("Expected SelectResult"),
    }
}

#[test]
fn test_boolean_where_filter() {
    let mut executor = Executor::new();
    setup_typed_table(&mut executor);

    // WHERE done = true （裸布尔字面量）
    let r = executor.execute(parse_sql("SELECT id FROM tasks WHERE done = true").unwrap()).unwrap();
    match &r[0] {
        ExecuteResult::SelectResult { rows, .. } => {
            assert_eq!(rows.len(), 2, "done=true 应有2行");
            assert_eq!(rows[0][0], "2");
            assert_eq!(rows[1][0], "4");
        }
        _ => panic!("Expected SelectResult"),
    }

    // WHERE done = false
    let r2 = executor.execute(parse_sql("SELECT id FROM tasks WHERE done = false").unwrap()).unwrap();
    match &r2[0] {
        ExecuteResult::SelectResult { rows, .. } => {
            assert_eq!(rows.len(), 2, "done=false 应有2行");
        }
        _ => panic!("Expected SelectResult"),
    }
}

#[test]
fn test_boolean_where_equality_is_not_always_true() {
    // 类型不匹配时 `=` 不能退化成恒真
    let mut executor = Executor::new();
    setup_typed_table(&mut executor);

    // 全部都是 false 的行查询 done = true，必须返回 0 行
    let r = executor.execute(parse_sql("SELECT id FROM tasks WHERE done = true AND title = 'nonexistent'").unwrap()).unwrap();
    match &r[0] {
        ExecuteResult::SelectResult { rows, .. } => {
            assert_eq!(rows.len(), 0);
        }
        _ => panic!("Expected SelectResult"),
    }
}

#[test]
fn test_boolean_order_by() {
    let mut executor = Executor::new();
    setup_typed_table(&mut executor);

    // false < true，升序时 false 在前
    let r = executor.execute(parse_sql("SELECT id, done FROM tasks ORDER BY done ASC").unwrap()).unwrap();
    match &r[0] {
        ExecuteResult::SelectResult { rows, .. } => {
            assert_eq!(rows[0][1], "false");
            assert_eq!(rows[1][1], "false");
            assert_eq!(rows[2][1], "true");
            assert_eq!(rows[3][1], "true");
        }
        _ => panic!("Expected SelectResult"),
    }
}

#[test]
fn test_date_range_filter() {
    let mut executor = Executor::new();
    setup_typed_table(&mut executor);

    let r = executor.execute(parse_sql("SELECT id, due FROM tasks WHERE due > '2026-01-01'").unwrap()).unwrap();
    match &r[0] {
        ExecuteResult::SelectResult { rows, .. } => {
            assert_eq!(rows.len(), 3, "2026-01-01 之后应有3行（1/15、3/2、3/2）");
        }
        _ => panic!("Expected SelectResult"),
    }

    // 跨年边界：2025-12-31 必须被排除
    let r2 = executor.execute(parse_sql("SELECT id FROM tasks WHERE due >= '2025-12-31' AND due <= '2026-01-15'").unwrap()).unwrap();
    match &r2[0] {
        ExecuteResult::SelectResult { rows, .. } => {
            assert_eq!(rows.len(), 2, "闭区间应含 2025-12-31 与 2026-01-15");
        }
        _ => panic!("Expected SelectResult"),
    }
}

#[test]
fn test_date_order_by_is_chronological() {
    let mut executor = Executor::new();
    setup_typed_table(&mut executor);

    let r = executor.execute(parse_sql("SELECT due FROM tasks ORDER BY due ASC").unwrap()).unwrap();
    match &r[0] {
        ExecuteResult::SelectResult { rows, .. } => {
            let dues: Vec<&str> = rows.iter().map(|row| row[0].as_str()).collect();
            assert_eq!(dues, vec!["2025-12-31", "2026-01-15", "2026-03-02", "2026-03-02"],
                "DATE 字典序必须等于时间序");
        }
        _ => panic!("Expected SelectResult"),
    }

    let r2 = executor.execute(parse_sql("SELECT due FROM tasks ORDER BY due DESC").unwrap()).unwrap();
    match &r2[0] {
        ExecuteResult::SelectResult { rows, .. } => {
            assert_eq!(rows[0][0], "2026-03-02");
            assert_eq!(rows[3][0], "2025-12-31");
        }
        _ => panic!("Expected SelectResult"),
    }
}

#[test]
fn test_time_column_and_filter() {
    let mut executor = Executor::new();
    setup_typed_table(&mut executor);

    // HH:MM 应被规范化为 HH:MM:SS
    let r = executor.execute(parse_sql("SELECT at FROM tasks WHERE id = 2").unwrap()).unwrap();
    match &r[0] {
        ExecuteResult::SelectResult { rows, .. } => {
            assert_eq!(rows[0][0], "14:30:00");
        }
        _ => panic!("Expected SelectResult"),
    }

    let r2 = executor.execute(parse_sql("SELECT id FROM tasks WHERE at < '12:00:00'").unwrap()).unwrap();
    match &r2[0] {
        ExecuteResult::SelectResult { rows, .. } => {
            assert_eq!(rows.len(), 2, "12点前应有2行（09:00、08:00）");
        }
        _ => panic!("Expected SelectResult"),
    }
}

#[test]
fn test_invalid_date_insert_is_rejected() {
    let mut executor = Executor::new();
    executor.execute(parse_sql("CREATE TABLE t (id INTEGER, d DATE)").unwrap()).unwrap();

    // 不存在的日期 → 报错，不静默写入
    let r = executor.execute(parse_sql("INSERT INTO t (id, d) VALUES (1, '2026-02-30')").unwrap());
    assert!(r.is_err(), "非法日期应拒绝插入");

    let r2 = executor.execute(parse_sql("INSERT INTO t (id, d) VALUES (1, '2026/02/28')").unwrap());
    assert!(r2.is_err(), "错误格式应拒绝插入");

    let r3 = executor.execute(parse_sql("INSERT INTO t (id, d) VALUES (1, '2025-02-29')").unwrap());
    assert!(r3.is_err(), "平年2月29日应拒绝插入");

    // 合法值可写入
    executor.execute(parse_sql("INSERT INTO t (id, d) VALUES (1, '2024-02-29')").unwrap()).unwrap();
    let r4 = executor.execute(parse_sql("SELECT d FROM t").unwrap()).unwrap();
    match &r4[0] {
        ExecuteResult::SelectResult { rows, .. } => assert_eq!(rows[0][0], "2024-02-29"),
        _ => panic!("Expected SelectResult"),
    }
}

#[test]
fn test_boolean_update_and_delete() {
    let mut executor = Executor::new();
    setup_typed_table(&mut executor);

    // UPDATE 布尔列
    executor.execute(parse_sql("UPDATE tasks SET done = true WHERE id = 1").unwrap()).unwrap();
    let r = executor.execute(parse_sql("SELECT done FROM tasks WHERE id = 1").unwrap()).unwrap();
    match &r[0] {
        ExecuteResult::SelectResult { rows, .. } => assert_eq!(rows[0][0], "true"),
        _ => panic!("Expected SelectResult"),
    }

    // UPDATE 日期列
    executor.execute(parse_sql("UPDATE tasks SET due = '2027-07-04' WHERE id = 3").unwrap()).unwrap();
    let r2 = executor.execute(parse_sql("SELECT due FROM tasks WHERE id = 3").unwrap()).unwrap();
    match &r2[0] {
        ExecuteResult::SelectResult { rows, .. } => assert_eq!(rows[0][0], "2027-07-04"),
        _ => panic!("Expected SelectResult"),
    }

    // DELETE 按布尔条件
    // 注意：id=1 已被上面的 UPDATE 改成 done=true，此时 done=false 只剩 id=3
    let r3 = executor.execute(parse_sql("DELETE FROM tasks WHERE done = false").unwrap()).unwrap();
    match &r3[0] {
        ExecuteResult::Deleted { count } => assert_eq!(*count, 1, "应有1行 done=false 被删除（id=1 已改为 true）"),
        _ => panic!("Expected Deleted"),
    }
}

#[test]
fn test_new_types_with_group_by_and_aggregate() {
    let mut executor = Executor::new();
    setup_typed_table(&mut executor);

    // 按布尔列分组计数 —— 新类型能作为分组键
    let r = executor.execute(parse_sql("SELECT done, COUNT(*) FROM tasks GROUP BY done").unwrap()).unwrap();
    match &r[0] {
        ExecuteResult::SelectResult { rows, .. } => {
            assert_eq!(rows.len(), 2, "done 应分成两组");
            let counts: Vec<&str> = rows.iter().map(|row| row[1].as_str()).collect();
            assert!(counts.contains(&"2"), "每组各2行, 实际: {:?}", counts);
        }
        _ => panic!("Expected SelectResult"),
    }

    // 按日期分组 —— 3/2 两行应归为一组
    let r2 = executor.execute(parse_sql("SELECT due, COUNT(*) FROM tasks GROUP BY due").unwrap()).unwrap();
    match &r2[0] {
        ExecuteResult::SelectResult { rows, .. } => {
            assert_eq!(rows.len(), 3, "3个不同日期应有3组");
        }
        _ => panic!("Expected SelectResult"),
    }
}

#[test]
fn test_date_distinct() {
    let mut executor = Executor::new();
    setup_typed_table(&mut executor);

    let r = executor.execute(parse_sql("SELECT DISTINCT due FROM tasks").unwrap()).unwrap();
    match &r[0] {
        ExecuteResult::SelectResult { rows, .. } => {
            assert_eq!(rows.len(), 3, "4行数据只有3个不同日期");
        }
        _ => panic!("Expected SelectResult"),
    }
}

// ===== JOIN 测试 =====

fn setup_join_tables(executor: &mut Executor) {
    // 创建 users 表
    executor.execute(parse_sql(
        "CREATE TABLE users (id INTEGER, name TEXT, dept_id INTEGER)"
    ).unwrap()).unwrap();
    executor.execute(parse_sql(
        "INSERT INTO users (id, name, dept_id) VALUES (1, 'alice', 10), (2, 'bob', 20), (3, 'charlie', 10)"
    ).unwrap()).unwrap();

    // 创建 departments 表
    executor.execute(parse_sql(
        "CREATE TABLE departments (id INTEGER, name TEXT)"
    ).unwrap()).unwrap();
    executor.execute(parse_sql(
        "INSERT INTO departments (id, name) VALUES (10, 'Engineering'), (20, 'Sales'), (30, 'HR')"
    ).unwrap()).unwrap();
}

#[test]
fn test_inner_join_basic() {
    let mut executor = Executor::new();
    setup_join_tables(&mut executor);

    let r = executor.execute(parse_sql(
        "SELECT * FROM users INNER JOIN departments ON users.dept_id = departments.id"
    ).unwrap()).unwrap();

    match &r[0] {
        ExecuteResult::SelectResult { columns, rows } => {
            // users有3列 + departments有2列 = 5列
            assert_eq!(columns.len(), 5, "JOIN后应有5列（3+2）");
            // alice→Engineering, bob→Sales, charlie→Engineering
            // HR(30)无匹配用户
            assert_eq!(rows.len(), 3, "3个用户都有匹配的部门");
            // 验证第一行：alice, dept_id=10, Engineering
            assert_eq!(rows[0][1], "alice");
            assert_eq!(rows[0][4], "Engineering");
        }
        _ => panic!("Expected SelectResult"),
    }
}

#[test]
fn test_inner_join_with_where() {
    let mut executor = Executor::new();
    setup_join_tables(&mut executor);

    let r = executor.execute(parse_sql(
        "SELECT * FROM users INNER JOIN departments ON users.dept_id = departments.id WHERE departments.name = 'Engineering'"
    ).unwrap()).unwrap();

    match &r[0] {
        ExecuteResult::SelectResult { rows, .. } => {
            // 不带 WHERE 的连接结果
            let r2 = executor.execute(parse_sql(
                "SELECT * FROM users INNER JOIN departments ON users.dept_id = departments.id"
            ).unwrap()).unwrap();
            match &r2[0] {
                ExecuteResult::SelectResult { rows: rows2, .. } => {
                    assert!(rows2.len() >= rows.len());
                }
                _ => {}
            }
            assert_eq!(rows.len(), 2, "Engineering部门有2人");
            for row in rows {
                assert_eq!(row[4], "Engineering");
            }
        }
        _ => panic!("Expected SelectResult"),
    }
}

#[test]
fn test_inner_join_with_order_by() {
    let mut executor = Executor::new();
    setup_join_tables(&mut executor);

    let r = executor.execute(parse_sql(
        "SELECT * FROM users INNER JOIN departments ON users.dept_id = departments.id ORDER BY users.id DESC"
    ).unwrap()).unwrap();

    match &r[0] {
        ExecuteResult::SelectResult { rows, .. } => {
            assert_eq!(rows.len(), 3);
            // DESC: charlie(3), bob(2), alice(1)
            assert_eq!(rows[0][1], "charlie");
            assert_eq!(rows[2][1], "alice");
        }
        _ => panic!("Expected SelectResult"),
    }
}

#[test]
fn test_inner_join_no_match() {
    let mut executor = Executor::new();
    setup_join_tables(&mut executor);

    // HR 部门(id=30)没有用户关联
    let r = executor.execute(parse_sql(
        "SELECT * FROM departments INNER JOIN users ON departments.id = users.dept_id WHERE departments.name = 'HR'"
    ).unwrap()).unwrap();

    match &r[0] {
        ExecuteResult::SelectResult { rows, .. } => {
            assert_eq!(rows.len(), 0, "HR部门无关联用户，应返回0行");
        }
        _ => panic!("Expected SelectResult"),
    }
}

#[test]
fn test_inner_join_with_limit() {
    let mut executor = Executor::new();
    setup_join_tables(&mut executor);

    let r = executor.execute(parse_sql(
        "SELECT * FROM users INNER JOIN departments ON users.dept_id = departments.id LIMIT 2"
    ).unwrap()).unwrap();

    match &r[0] {
        ExecuteResult::SelectResult { rows, .. } => {
            assert_eq!(rows.len(), 2, "LIMIT 2 应返回2行");
        }
        _ => panic!("Expected SelectResult"),
    }
}

#[test]
fn test_inner_join_column_projection() {
    let mut executor = Executor::new();
    setup_join_tables(&mut executor);

    // 只选特定列（使用右表的限定列名 departments.name）
    let r = executor.execute(parse_sql(
        "SELECT users.name, departments.name FROM users INNER JOIN departments ON users.dept_id = departments.id"
    ).unwrap()).unwrap();

    match &r[0] {
        ExecuteResult::SelectResult { columns, rows } => {
            assert_eq!(columns.len(), 2, "只选2列");
            assert_eq!(rows.len(), 3);
            // 验证关联正确性
            assert_eq!(rows[0][0], "alice");
            assert_eq!(rows[0][1], "Engineering");
        }
        _ => panic!("Expected SelectResult"),
    }
}

#[test]
fn test_join_without_inner_keyword() {
    // 仅 JOIN 也应等同于 INNER JOIN
    let mut executor = Executor::new();
    setup_join_tables(&mut executor);

    let r = executor.execute(parse_sql(
        "SELECT * FROM users JOIN departments ON users.dept_id = departments.id"
    ).unwrap()).unwrap();

    match &r[0] {
        ExecuteResult::SelectResult { rows, .. } => {
            assert_eq!(rows.len(), 3, "JOIN 等同于 INNER JOIN");
        }
        _ => panic!("Expected SelectResult"),
    }
}
