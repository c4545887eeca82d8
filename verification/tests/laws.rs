//! What holds of the database as a whole, on concrete values.

use probedb::double::Double;
use probedb::executor::compare::compare_values;
use probedb::executor::compare::Comparison;
use probedb::executor::like::like_match;
use probedb::executor::Executor;
use probedb::persistence::load::load;
use probedb::persistence::load::recover;
use probedb::persistence::wal::replay;
use probedb::persistence::wal::WalLog;
use probedb::sql::parse_sql;
use probedb::storage::codec::decode_type;
use probedb::storage::codec::decode_value;
use probedb::storage::codec::encode_type;
use probedb::storage::codec::encode_value;
use probedb::storage::codec::escape_text;
use probedb::storage::codec::split_pipe_aware;
use probedb::storage::codec::unescape_text;
use probedb::storage::fnv1a64;
use probedb::storage::StorageEngine;
use probedb::text::chars_of;
use probedb::text::string_of;
use probedb::types::cosine_similarity;
use probedb::types::euclidean_similarity;
use probedb::types::normalize_date;
use probedb::types::normalize_time;
use probedb::types::DataType;
use probedb::types::Value;
use probedb::ProbeDB;

fn d(x: f64) -> Double {
    Double::from_bits(x.to_bits())
}

fn number(x: Double) -> f64 {
    f64::from_bits(x.bits)
}

const SETUP: &str = "CREATE TABLE t (id INTEGER, name TEXT, x FLOAT); \
    INSERT INTO t (id, name, x) VALUES (1, 'b', 2.5), (2, 'a', 1.5), (3, 'b', -1), (4, 'c', 2.5), (5, 'a|b', 0)";

fn database() -> ProbeDB {
    let mut db = ProbeDB::new();
    db.execute(SETUP).unwrap();
    db
}

/// The rows of a query, without its head.
fn rows(db: &mut ProbeDB, sql: &str) -> Vec<String> {
    db.execute(sql).unwrap().lines().skip(3).map(|l| l.to_string()).collect()
}

fn logged() -> Executor {
    let mut e = Executor::new();
    e.wal = Some(WalLog::new());
    e
}

fn run(e: &mut Executor, sql: &str) {
    let _ = e.execute(parse_sql(sql).unwrap());
}

#[test]
fn a_saved_database_is_loaded_as_it_was() {
    let mut db = database();
    db.execute("CREATE TABLE all_types (b BOOLEAN, d DATE, at TIME, v VECTOR(2), f FLOAT)").unwrap();
    db.execute(
        "INSERT INTO all_types (b, d, at, v, f) VALUES (true, '2024-02-29', '23:59', '[0.1,-2e-9]', nan), \
         (false, '0001-01-01', '00:00:00', '[inf,1e300]', -0)",
    )
    .unwrap();
    db.execute("UPDATE t SET name = 'line' WHERE id = 2").unwrap();
    db.execute("DELETE FROM t WHERE id = 3").unwrap();
    let state = db.executor.engine.export_state();
    let again = load(&state).unwrap();
    assert_eq!(again.export_state(), state);
    assert_eq!(again.table_names(), vec!["t".to_string(), "all_types".to_string()]);
    assert_eq!(again.next_id(), db.executor.engine.next_id());
}

#[test]
fn a_log_gives_back_the_tables() {
    let mut e = logged();
    run(&mut e, "CREATE TABLE keep (id INTEGER, note TEXT)");
    run(&mut e, "INSERT INTO keep (id, note) VALUES (1, 'one'), (2, 'two')");
    e.wal.as_mut().unwrap().take_ready();
    let snapshot = e.engine.export_state();
    run(&mut e, SETUP);
    run(&mut e, "UPDATE t SET name = 'z', x = 9 WHERE x > 1");
    run(&mut e, "DELETE FROM t WHERE name = 'z' AND id > 3");
    run(&mut e, "CREATE TABLE t (id INTEGER)");
    run(&mut e, "INSERT INTO keep (id, note) VALUES (3, 'x|y\\z'), (4)");
    run(&mut e, "UPDATE keep SET note = 'new', id = 'bad' WHERE id = 1");
    run(&mut e, "DROP TABLE t");
    run(&mut e, "CREATE TABLE t (v VECTOR(2))");
    run(&mut e, "INSERT INTO t (v) VALUES ('[1,2]')");
    let mut log = "# ProbeDB WAL v1\n".to_string();
    for line in e.wal.as_mut().unwrap().take_ready() {
        log.push_str(&line);
        log.push('\n');
    }
    let (mut back, done) = recover(&snapshot, &log).unwrap();
    assert_eq!(done.skipped.len(), 1);
    assert_eq!(done.skipped[0].error, "列数不匹配: 需要 2 列, 提供了 1 列");
    assert_eq!(back.next_id(), 3);
    back.set_next_id(e.engine.next_id());
    assert_eq!(back.export_state(), e.engine.export_state());
    // Replaying it once more changes no table.
    replay(&log, &mut back);
    assert_eq!(back.export_state(), e.engine.export_state());
}

fn log_text(e: &mut Executor) -> String {
    let mut log = "# ProbeDB WAL v1\n".to_string();
    for line in e.wal.as_mut().unwrap().take_ready() {
        log.push_str(&line);
        log.push('\n');
    }
    log
}

/// A database whose next id is stale: its last rows were recovered from a log.
fn stale() -> Executor {
    let mut e = logged();
    run(&mut e, "CREATE TABLE t (id INTEGER, name TEXT)");
    run(&mut e, "INSERT INTO t (id, name) VALUES (1, 'a'), (2, 'b')");
    log_text(&mut e);
    let snapshot = e.engine.export_state();
    run(&mut e, "INSERT INTO t (id, name) VALUES (3, 'c'), (4, 'd')");
    let log = log_text(&mut e);
    let (engine, _) = recover(&snapshot, &log).unwrap();
    assert_eq!(engine.next_id(), 3);
    let mut again = logged();
    again.engine = engine;
    again
}

#[test]
fn a_recovered_database_is_recovered_again() {
    let mut e = stale();
    let snapshot = e.engine.export_state();
    run(&mut e, "UPDATE t SET name = 'z' WHERE id >= 3");
    run(&mut e, "DELETE FROM t WHERE id = 2");
    run(&mut e, "CREATE TABLE w (x FLOAT)");
    run(&mut e, "INSERT INTO w (x) VALUES (1.5)");
    let log = log_text(&mut e);
    let (back, done) = recover(&snapshot, &log).unwrap();
    assert!(done.skipped.is_empty());
    let mut expected = e.engine.export_state();
    assert_ne!(back.export_state(), expected);
    e.engine.set_next_id(back.next_id());
    expected = e.engine.export_state();
    assert_eq!(back.export_state(), expected);
    // Saved at once, with an empty log, it is the same again.
    let (again, done) = recover(&back.export_state(), "# ProbeDB WAL v1\n").unwrap();
    assert_eq!(done.replayed, 0);
    assert_eq!(again.export_state(), expected);
}

#[test]
fn a_log_with_ids_given_twice_keeps_rows_but_not_their_order() {
    let log = "D|t|5\nI|t|5|INT:50\nI|t|6|INT:60\n";
    let mut e = StorageEngine::new();
    replay("T|t|id:INTEGER\nI|t|5|INT:5\n", &mut e);
    replay(log, &mut e);
    let ids = |e: &StorageEngine| e.scan_table("t").unwrap().iter().map(|r| r.id).collect::<Vec<_>>();
    assert_eq!(ids(&e), vec![5, 6]);
    replay(log, &mut e);
    assert_eq!(ids(&e), vec![6, 5]);
    let rows = e.scan_table("t").unwrap();
    assert_eq!(rows[0].values, vec![Value::Integer(60)]);
    assert_eq!(rows[1].values, vec![Value::Integer(50)]);
}

#[test]
fn each_record_can_be_replayed_twice() {
    let log = "T|t|id:INTEGER\nI|t|1|INT:1\nI|t|2|INT:2\nU|t|1|0|INT:7\nD|t|2\nT|u|id:TEXT\nDROP|u\n";
    let mut once = StorageEngine::new();
    let mut twice = StorageEngine::new();
    for line in log.lines() {
        replay(line, &mut once);
        replay(line, &mut twice);
        replay(line, &mut twice);
        assert_eq!(once.export_state(), twice.export_state(), "{}", line);
    }
    assert_eq!(once.scan_table("t").unwrap().len(), 1);
}

#[test]
fn batch_mode_loses_nothing() {
    let mut wal = WalLog::new();
    wal.append("a");
    wal.set_batch(true);
    wal.append("b");
    wal.append("c");
    assert_eq!(wal.pending_count(), 2);
    assert_eq!(wal.take_ready(), vec!["a".to_string()]);
    wal.set_batch(false);
    wal.append("d");
    assert_eq!(wal.pending_count(), 0);
    assert_eq!(wal.take_ready(), vec!["b".to_string(), "c".to_string(), "d".to_string()]);
    assert!(wal.take_ready().is_empty());
}

#[test]
fn codes_are_read_back() {
    for t in [
        DataType::Integer,
        DataType::Float,
        DataType::Text,
        DataType::Boolean,
        DataType::Date,
        DataType::Time,
        DataType::Vector(0),
        DataType::Vector(768),
    ] {
        assert_eq!(decode_type(&encode_type(&t)), Ok(t));
    }
    for v in [
        Value::Integer(i64::MIN),
        Value::Float(d(0.1)),
        Value::Float(d(f64::NEG_INFINITY)),
        Value::Text("a|b\\c\nd\re".to_string()),
        Value::Text(String::new()),
        Value::Boolean(true),
        Value::Boolean(false),
        Value::Date("2026-09-16".to_string()),
        Value::Time("14:00:00".to_string()),
        Value::Vector(vec![d(0.5), d(-1e-7)]),
    ] {
        let code = encode_value(&v);
        assert_eq!(decode_value(&code), Ok(v));
        let mut line = chars_of("I|t|1|");
        line.extend(&code);
        line.extend(chars_of("|end"));
        let parts = split_pipe_aware(&line);
        assert_eq!(parts.len(), 5);
        assert_eq!(parts[3], code);
    }
    for t in ["", "|", "\\", "\\n", "a|b", "line\nline", "\r"] {
        assert_eq!(string_of(&unescape_text(&escape_text(&chars_of(t)))), t);
    }
    assert_eq!(string_of(&escape_text(&chars_of("a|b"))), "a\\|b");
}

#[test]
fn checksums_have_known_values() {
    assert_eq!(fnv1a64(b""), 0xcbf29ce484222325);
    assert_eq!(fnv1a64(b"a"), 0xaf63dc4c8601ec8c);
    assert_eq!(fnv1a64(b"foobar"), 0x85944171f73967e8);
}

#[test]
fn a_condition_selects_the_rows_that_meet_it() {
    let mut db = database();
    assert_eq!(rows(&mut db, "SELECT id FROM t WHERE x > 0 AND name = 'b' OR id >= 4 OR id = 1"), ["1", "4", "5"]);
    assert_eq!(rows(&mut db, "SELECT id FROM t WHERE name = 'b' OR name = 'b'"), ["1", "3"]);
    assert_eq!(rows(&mut db, "SELECT id FROM t WHERE name > 5"), Vec::<String>::new());
    assert_eq!(db.execute("DELETE FROM t WHERE x = 2.5 OR id = 5").unwrap(), "删除成功，共 3 行");
    assert_eq!(rows(&mut db, "SELECT id FROM t WHERE x = 2.5 OR id = 5"), Vec::<String>::new());
    assert_eq!(rows(&mut db, "SELECT id FROM t"), ["2", "3"]);
}

#[test]
fn a_condition_selects_rows_in_any_order_of_ids() {
    let mut db = ProbeDB::new();
    db.execute("CREATE TABLE t (id INTEGER)").unwrap();
    for id in [9u64, 2, 7, 4] {
        db.executor.engine.insert_row_with_id("t", id, vec![Value::Integer(id as i64)]).unwrap();
    }
    assert_eq!(rows(&mut db, "SELECT id FROM t WHERE id > 3 OR id = 9"), ["4", "7", "9"]);
    assert_eq!(db.execute("DELETE FROM t WHERE id > 3").unwrap(), "删除成功，共 3 行");
    assert_eq!(rows(&mut db, "SELECT id FROM t"), ["2"]);
}

#[test]
fn the_character_before_an_operator_is_found_by_bytes() {
    let mut db = ProbeDB::new();
    db.execute("CREATE TABLE 人 (名 TEXT, 年龄 INTEGER)").unwrap();
    db.execute("INSERT INTO 人 (名, 年龄) VALUES ('ab', 30), ('cd', 40), ('ab', 50)").unwrap();
    // Four bytes stand before the operator; the character at place 3 is a space.
    assert_eq!(rows(&mut db, "SELECT 年龄 FROM 人 WHERE 名 = 'ab'"), ["30", "50"]);
    assert_eq!(rows(&mut db, "SELECT 名, COUNT(*) FROM 人 GROUP BY 名 HAVING 名 = 'ab'"), ["ab | 2"]);
    // Seven bytes stand before the operator; the character at place 6 is a digit.
    assert_eq!(rows(&mut db, "SELECT 名 FROM 人 WHERE 年龄 >= 40"), Vec::<String>::new());
}

#[test]
fn values_without_an_order_are_neither_equal_nor_unequal() {
    let mut db = database();
    let all = ["1", "2", "3", "4", "5"];
    let none: [&str; 0] = [];
    assert_eq!(rows(&mut db, "SELECT id FROM t WHERE id = 'high'"), none);
    assert_eq!(rows(&mut db, "SELECT id FROM t WHERE id != 'high'"), none);
    assert_eq!(rows(&mut db, "SELECT id FROM t WHERE id > 'high'"), none);
    assert_eq!(rows(&mut db, "SELECT id FROM t WHERE id < 'high'"), none);
    assert_eq!(rows(&mut db, "SELECT id FROM t WHERE id >= 'high'"), all);
    assert_eq!(rows(&mut db, "SELECT id FROM t WHERE id <= 'high'"), all);
    assert_eq!(
        rows(&mut db, "SELECT name, COUNT(*) FROM t GROUP BY name HAVING name >= 5"),
        ["b | 2", "a | 1", "c | 1", "a|b | 1"]
    );
    assert_eq!(rows(&mut db, "SELECT name, COUNT(*) FROM t GROUP BY name HAVING name = 5"), none);
}

#[test]
fn scripts_are_read_in_turn() {
    let a = " CREATE TABLE t (id INTEGER) ;; ";
    let b = "\n INSERT INTO t (id) VALUES (1); SELECT id FROM t ; ";
    let both = format!("{};{}", a, b);
    let shown = |s: &str| parse_sql(s).unwrap().iter().map(|x| format!("{:?}", x)).collect::<Vec<_>>();
    let mut expected = shown(a);
    expected.extend(shown(b));
    assert_eq!(shown(&both), expected);
    assert_eq!(expected.len(), 3);
    assert_eq!(parse_sql("SELECT 1; BAD").unwrap_err(), parse_sql("SELECT 1").unwrap_err());
}

#[test]
fn sums_keep_the_sign_of_zero() {
    let mut db = ProbeDB::new();
    db.execute("CREATE TABLE t (x FLOAT)").unwrap();
    assert_eq!(rows(&mut db, "SELECT SUM(x) FROM t"), ["0"]);
    db.execute("INSERT INTO t (x) VALUES (-0.0), (-0.0)").unwrap();
    assert_eq!(rows(&mut db, "SELECT SUM(x) FROM t"), ["-0"]);
    assert_eq!(rows(&mut db, "SELECT AVG(x) FROM t"), ["-0"]);
    db.execute("INSERT INTO t (x) VALUES (0.0)").unwrap();
    assert_eq!(rows(&mut db, "SELECT SUM(x) FROM t"), ["0"]);
    let a = vec![d(-1.0), d(0.0)];
    let b = vec![d(0.0), d(-1.0)];
    assert_eq!(cosine_similarity(&a, &b).bits, (-0.0f64).to_bits());
    let c = vec![d(0.0), d(1.0)];
    assert_eq!(cosine_similarity(&a, &c).bits, 0.0f64.to_bits());
}

#[test]
fn sorting_is_stable() {
    let mut db = database();
    assert_eq!(rows(&mut db, "SELECT id FROM t ORDER BY x DESC"), ["1", "4", "2", "5", "3"]);
    assert_eq!(rows(&mut db, "SELECT id FROM t ORDER BY x ASC"), ["3", "5", "2", "1", "4"]);
    assert_eq!(rows(&mut db, "SELECT id FROM t ORDER BY name"), ["2", "5", "1", "3", "4"]);
}

#[test]
fn distinct_offset_and_limit_cut_the_rows() {
    let mut db = database();
    assert_eq!(rows(&mut db, "SELECT DISTINCT name FROM t"), ["b", "a", "c", "a|b"]);
    assert_eq!(rows(&mut db, "SELECT DISTINCT name FROM t LIMIT 2 OFFSET 1"), ["a", "c"]);
    assert_eq!(rows(&mut db, "SELECT id FROM t LIMIT 9 OFFSET 4"), ["5"]);
    assert_eq!(rows(&mut db, "SELECT id FROM t OFFSET 5"), Vec::<String>::new());
    assert_eq!(rows(&mut db, "SELECT id FROM t LIMIT 0"), Vec::<String>::new());
}

#[test]
fn groups_hold_every_row_once() {
    let mut db = database();
    assert_eq!(
        rows(&mut db, "SELECT name, COUNT(*), SUM(x), AVG(x), MIN(x), MAX(x) FROM t GROUP BY name"),
        [
            "b | 2 | 1.5 | 0.75 | -1 | 2.5",
            "a | 1 | 1.5 | 1.5 | 1.5 | 1.5",
            "c | 1 | 2.5 | 2.5 | 2.5 | 2.5",
            "a|b | 1 | 0 | 0 | 0 | 0"
        ]
    );
    assert_eq!(rows(&mut db, "SELECT name, COUNT(*) FROM t GROUP BY name HAVING COUNT(*) > 1"), ["b | 2"]);
}

#[test]
fn a_join_gives_the_pairs_that_agree() {
    let mut db = database();
    db.execute("CREATE TABLE u (t_id INTEGER, tag TEXT)").unwrap();
    db.execute("INSERT INTO u (t_id, tag) VALUES (2, 'p'), (1, 'q'), (2, 'r'), (9, 's')").unwrap();
    assert_eq!(
        rows(&mut db, "SELECT id, u.tag FROM t JOIN u ON t.id = u.t_id"),
        ["1 | q", "2 | p", "2 | r"]
    );
}

#[test]
fn an_update_changes_its_column_and_nothing_else() {
    let mut db = database();
    db.execute("CREATE TABLE other (id INTEGER)").unwrap();
    db.execute("INSERT INTO other (id) VALUES (1)").unwrap();
    assert_eq!(db.execute("UPDATE t SET name = 'n', x = 7 WHERE id <= 2").unwrap(), "更新成功，共 2 行");
    assert_eq!(
        rows(&mut db, "SELECT * FROM t"),
        ["1 | n | 7", "2 | n | 7", "3 | b | -1", "4 | c | 2.5", "5 | a|b | 0"]
    );
    assert_eq!(rows(&mut db, "SELECT * FROM other"), ["1"]);
    // The first assignment is made before the second fails.
    assert!(db.execute("UPDATE t SET name = 'm', ghost = 1 WHERE id = 3").is_err());
    assert_eq!(rows(&mut db, "SELECT name FROM t WHERE id = 3"), ["m"]);
}

#[test]
fn an_update_does_not_look_at_dimensions() {
    let mut db = ProbeDB::new();
    db.execute("CREATE TABLE w (v VECTOR(2)); INSERT INTO w (v) VALUES ('[1,2]')").unwrap();
    assert!(db.execute("INSERT INTO w (v) VALUES ('[1]')").is_err());
    assert_eq!(db.execute("UPDATE w SET v = 7").unwrap(), "更新成功，共 1 行");
    assert_eq!(rows(&mut db, "SELECT v FROM w"), ["[7]"]);
    assert_eq!(
        load(&db.executor.engine.export_state()).unwrap_err(),
        "列 'v' 类型不匹配: 期望 Vector(2), 得到 Vector([7.0])"
    );
}

#[test]
fn dropping_a_table_undoes_its_creation() {
    let mut db = database();
    let before = db.executor.engine.export_state();
    assert_eq!(db.execute("CREATE TABLE w (id INTEGER)").unwrap(), "表 'w' 创建成功");
    assert_eq!(db.execute("DROP TABLE w").unwrap(), "表 'w' 已删除");
    assert_eq!(db.executor.engine.export_state(), before);
    assert!(db.execute("CREATE TABLE w (id INTEGER)").is_ok());
}

#[test]
fn ids_are_not_used_again() {
    let mut db = database();
    db.execute("DELETE FROM t").unwrap();
    assert_eq!(db.execute("INSERT INTO t (id, name, x) VALUES (9, 'n', 1)").unwrap(), "插入成功，行ID: 6");
    assert_eq!(
        db.execute("INSERT INTO t (id, name, x) VALUES (9, 'n', 1), (9, 'n', 1)").unwrap(),
        "插入 2 行数据"
    );
    let rows = db.executor.engine.scan_table("t").unwrap();
    assert_eq!(rows.iter().map(|r| r.id).collect::<Vec<_>>(), vec![6, 7, 8]);
    assert_eq!(db.executor.engine.next_id(), 9);
}

#[test]
fn rows_can_be_changed_in_place() {
    let mut db = database();
    db.executor.engine.table_data_mut("t").unwrap().remove(0);
    assert_eq!(db.executor.engine.scan_table("t").unwrap().len(), 4);
    assert_eq!(db.executor.engine.scan_table("t").unwrap()[0].id, 2);
}

#[test]
fn comparisons_turn() {
    let values = [
        Value::Integer(1),
        Value::Integer(2),
        Value::Float(d(1.0)),
        Value::Float(d(f64::NAN)),
        Value::Text("true".to_string()),
        Value::Text("2026-01-01".to_string()),
        Value::Boolean(true),
        Value::Boolean(false),
        Value::Date("2026-01-01".to_string()),
        Value::Time("00:00:00".to_string()),
        Value::Vector(vec![d(1.0)]),
    ];
    let turn = |c: Option<Comparison>| match c {
        Some(Comparison::Less) => 1,
        Some(Comparison::Greater) => -1,
        Some(Comparison::Equal) => 0,
        None => 9,
    };
    let sign = |c: Option<Comparison>| match c {
        Some(Comparison::Less) => -1,
        Some(Comparison::Greater) => 1,
        Some(Comparison::Equal) => 0,
        None => 9,
    };
    for a in &values {
        for b in &values {
            assert_eq!(turn(compare_values(a, b)), sign(compare_values(b, a)), "{:?} {:?}", a, b);
        }
    }
    assert_eq!(sign(compare_values(&values[0], &values[1])), -1);
    assert_eq!(sign(compare_values(&values[0], &values[2])), 0);
    assert_eq!(sign(compare_values(&values[6], &values[4])), 0);
    assert_eq!(sign(compare_values(&values[8], &values[9])), 9);
}

#[test]
fn patterns_match_as_wildcards() {
    let like = |t: &str, p: &str| like_match(&chars_of(t), &chars_of(p));
    assert!(like("Apple", "aPPle"));
    assert!(!like("apple", "appl"));
    assert!(like("", "%"));
    assert!(like("apple", "%"));
    assert!(like("apple", "a%e"));
    assert!(like("apple", "_pp__"));
    assert!(!like("apple", "_pp_"));
    assert!(like("abcabc", "%bc%bc"));
    assert!(like("世界", "世_"));
    assert!(!like("世界", "世"));
    assert!(like("banana", "%an%a"));
    assert!(!like("banana", "%x%"));
}

#[test]
fn dates_and_times_are_normal_and_in_order() {
    for t in ["2024-02-29", " '1999-12-31' "] {
        let once = normalize_date(t).unwrap();
        assert_eq!(normalize_date(&once).unwrap(), once);
    }
    for t in ["14:05", "'00:00:01'"] {
        let once = normalize_time(t).unwrap();
        assert_eq!(normalize_time(&once).unwrap(), once);
    }
    assert!(normalize_date("0999-12-31").unwrap() < normalize_date("1000-01-01").unwrap());
    assert!(normalize_time("09:59").unwrap() < normalize_time("10:00").unwrap());
}

#[test]
fn similarities_have_exact_values() {
    let a = vec![d(3.0), d(4.0)];
    let b = vec![d(4.0), d(3.0)];
    assert_eq!(number(cosine_similarity(&a, &b)), 0.96);
    assert_eq!(number(cosine_similarity(&b, &a)), 0.96);
    assert_eq!(number(cosine_similarity(&a, &vec![d(0.0), d(0.0)])), 0.0);
    assert_eq!(number(cosine_similarity(&a, &vec![d(1.0)])), 0.0);
    assert_eq!(number(euclidean_similarity(&a, &a)), 1.0);
    assert_eq!(number(euclidean_similarity(&a, &vec![d(0.0), d(0.0)])), 1.0 / 6.0);
}

#[test]
fn results_are_shown_as_text() {
    let mut db = database();
    assert_eq!(
        db.execute("SELECT id, name FROM t WHERE id <= 2; DELETE FROM t WHERE id = 1; UPDATE t SET x = 0").unwrap(),
        "查询结果 (2 行):\nid | name\n--- | ---\n1 | b\n2 | a\n删除成功，共 1 行\n更新成功，共 4 行"
    );
    assert_eq!(db.execute("SELECT COUNT(*) FROM t").unwrap(), "查询结果 (1 行):\ncount\n---\n4");
    assert_eq!(db.execute("SELECT SUM(id) FROM t").unwrap(), "查询结果 (1 行):\nsum\n---\n14");
    assert_eq!(db.execute("SELECT AVG(id) FROM t").unwrap(), "查询结果 (1 行):\navg\n---\n3.5");
    assert_eq!(db.execute("SELECT SUM(x) FROM t WHERE id > 99").unwrap(), "查询结果 (1 行):\nsum\n---\n0");
}
