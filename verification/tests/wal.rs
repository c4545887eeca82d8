//! The write-ahead log, with its file kept as a text.

use probedb::persistence::wal::entry_count;
use probedb::persistence::wal::replay;
use probedb::persistence::wal::WalLog;
use probedb::storage::ColumnInfo;
use probedb::storage::StorageEngine;
use probedb::storage::TableSchema;
use probedb::types::DataType;
use probedb::types::Value;

struct LogFile {
    log: WalLog,
    text: String,
}

impl LogFile {
    fn new() -> Self {
        LogFile { log: WalLog::new(), text: "# ProbeDB WAL v1\n".to_string() }
    }

    fn reopen(self) -> Self {
        LogFile { log: WalLog::new(), text: self.text }
    }

    fn write(&mut self) {
        for line in self.log.take_ready() {
            self.text.push_str(&line);
            self.text.push('\n');
        }
    }

    fn append(&mut self, entry: &str) {
        self.log.append(entry);
        self.write();
    }

    fn set_batch(&mut self, enabled: bool) {
        self.log.set_batch(enabled);
        self.write();
    }

    fn flush(&mut self) {
        self.log.flush();
        self.write();
    }

    fn is_batch(&self) -> bool {
        self.log.is_batch()
    }

    fn set_auto_flush_threshold(&mut self, n: usize) {
        self.log.set_auto_flush_threshold(n);
    }

    fn pending_count(&self) -> usize {
        self.log.pending_count()
    }

    fn entry_count(&self) -> usize {
        entry_count(&self.text)
    }

    fn replay(&self, engine: &mut StorageEngine) -> usize {
        replay(&self.text, engine).replayed
    }
}

fn build_engine() -> StorageEngine {
    let mut engine = StorageEngine::new();
    engine
        .create_table(TableSchema {
            name: "users".to_string(),
            columns: vec![
                ColumnInfo {
                    name: "id".to_string(),
                    data_type: DataType::Integer,
                    index: 0,
                },
                ColumnInfo {
                    name: "name".to_string(),
                    data_type: DataType::Text,
                    index: 1,
                },
            ],
        })
        .unwrap();
    engine
        .insert(
            "users",
            vec![Value::Integer(1), Value::Text("alice".to_string())],
        )
        .unwrap();
    engine
}

#[test]
fn test_wal_append_and_count() {
    let mut wal = LogFile::new();
    assert_eq!(wal.entry_count(), 0);

    wal.append("I|users|1|INT:1|TEXT:alice");
    wal.append("D|users|1");
    wal.append("U|users|1|1|TEXT:bob");
    assert_eq!(wal.entry_count(), 3);

    // 追加模式：重新 open 不清空已有记录
    let wal2 = wal.reopen();
    assert_eq!(wal2.entry_count(), 3);
}

#[test]
fn test_wal_replay_restores_operations() {
    let mut wal = LogFile::new();
    // CREATE TABLE + INSERT
    wal.append("T|users|id:INTEGER|name:TEXT");
    wal.append("I|users|1|INT:1|TEXT:alice");
    wal.append("I|users|2|INT:2|TEXT:bob\\|smith"); // 含 | 转义
    // UPDATE id=1 name → alice2
    wal.append("U|users|1|1|TEXT:alice2");
    // DELETE id=2
    wal.append("D|users|2");

    let mut engine = StorageEngine::new();
    let replayed = wal.replay(&mut engine);
    assert_eq!(replayed, 5, "5条记录应全部重放");

    let rows = engine.scan_table("users").unwrap();
    assert_eq!(rows.len(), 1, "DELETE后应剩1行");
    assert_eq!(rows[0].id, 1);
    assert_eq!(rows[0].values[1], Value::Text("alice2".to_string()), "UPDATE应生效");
    assert_eq!(engine.next_id(), 1, "重放不应消耗自增ID");
}

#[test]
fn test_wal_replay_idempotent() {
    let mut wal = LogFile::new();
    wal.append("T|users|id:INTEGER|name:TEXT");
    wal.append("I|users|1|INT:1|TEXT:alice");

    // 场景：persist 成功后 WAL 未 truncate 就崩溃 → 下次 open 时
    // 快照里已有这些数据，WAL 重放必须幂等（不重复插行）
    let mut engine = build_engine(); // 快照恢复后的引擎：已含 users 表 + alice(id=1)
    let replayed = wal.replay(&mut engine);
    assert_eq!(replayed, 2, "记录全部重放（幂等跳过）");

    let rows = engine.scan_table("users").unwrap();
    assert_eq!(rows.len(), 1, "重复重放不得产生重复行");
    assert_eq!(rows[0].values[1], Value::Text("alice".to_string()));
}

#[test]
fn test_wal_corrupt_line_skipped() {
    let mut wal = LogFile::new();
    wal.append("T|users|id:INTEGER|name:TEXT");
    wal.append("GARBAGE|no|format"); // 未知操作码
    wal.append("I|users|1|INT:1|TEXT:alice");
    wal.append("I|users|2|NOT_A_VALUE"); // 损坏值

    let mut engine = StorageEngine::new();
    let replayed = wal.replay(&mut engine);
    assert_eq!(replayed, 2, "损坏行跳过，其余正常重放");

    let rows = engine.scan_table("users").unwrap();
    assert_eq!(rows.len(), 1, "alice 恢复，损坏行不影响");
}

#[test]
fn test_wal_batch_accumulates_then_flushes() {
    let mut wal = LogFile::new();
    wal.set_batch(true);
    assert!(wal.is_batch());

    // 批量模式下 append 只进缓冲，不落盘
    wal.append("T|users|id:INTEGER|name:TEXT");
    wal.append("I|users|1|INT:1|TEXT:alice");
    wal.append("I|users|2|INT:2|TEXT:bob");
    assert_eq!(wal.pending_count(), 3, "3条记录应在内存缓冲");
    assert_eq!(wal.entry_count(), 0, "尚未落盘");

    // flush 一次合并写盘
    wal.flush();
    assert_eq!(wal.pending_count(), 0, "flush后缓冲清空");
    assert_eq!(wal.entry_count(), 3, "3条记录一次落盘");

    // 新引擎重放：数据完整
    let mut engine = StorageEngine::new();
    let replayed = wal.replay(&mut engine);
    assert_eq!(replayed, 3);
    let rows = engine.scan_table("users").unwrap();
    assert_eq!(rows.len(), 2, "批量写入后重放应恢复2行");
}

#[test]
fn test_wal_batch_set_batch_false_flushes() {
    let mut wal = LogFile::new();
    wal.set_batch(true);
    wal.append("I|users|1|INT:1|TEXT:alice");
    wal.append("I|users|2|INT:2|TEXT:bob");
    assert_eq!(wal.pending_count(), 2);

    // 关闭批量模式 → 自动 flush 剩余 pending
    wal.set_batch(false);
    assert!(!wal.is_batch());
    assert_eq!(wal.pending_count(), 0, "关闭批量模式应自动落盘");
    assert_eq!(wal.entry_count(), 2);

    // 同步模式继续追加：立即落盘
    wal.append("I|users|3|INT:3|TEXT:carol");
    assert_eq!(wal.entry_count(), 3, "同步模式应立即落盘");
}

#[test]
fn test_wal_batch_auto_flush_threshold() {
    let mut wal = LogFile::new();
    wal.set_batch(true);
    wal.set_auto_flush_threshold(2);

    wal.append("I|users|1|INT:1|TEXT:alice");
    assert_eq!(wal.pending_count(), 1, "未达阈值，仍在缓冲");

    wal.append("I|users|2|INT:2|TEXT:bob");
    assert_eq!(wal.pending_count(), 0, "达到阈值自动flush");
    assert_eq!(wal.entry_count(), 2, "自动落盘2条");

    wal.append("I|users|3|INT:3|TEXT:carol");
    assert_eq!(wal.pending_count(), 1, "新一轮累积");
    wal.flush();
    assert_eq!(wal.entry_count(), 3);
}

#[test]
fn test_wal_batch_order_preserved() {
    // 混合操作批量累积后，重放顺序必须与 append 顺序一致
    let mut wal = LogFile::new();
    wal.set_batch(true);
    wal.append("T|t|id:INTEGER|name:TEXT");
    wal.append("I|t|1|INT:1|TEXT:a");
    wal.append("I|t|2|INT:2|TEXT:b");
    wal.append("U|t|1|1|TEXT:a2");
    wal.append("D|t|2");
    wal.flush();

    let mut engine = StorageEngine::new();
    let replayed = wal.replay(&mut engine);
    assert_eq!(replayed, 5, "5条记录按序重放");

    let rows = engine.scan_table("t").unwrap();
    assert_eq!(rows.len(), 1, "U和D应按序生效");
    assert_eq!(rows[0].values[1], Value::Text("a2".to_string()));
}
