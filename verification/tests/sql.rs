//! The SQL parser.

use probedb::sql::parse_sql;
use probedb::sql::SQLStatement;
use probedb::types::DataType;

#[test]
fn test_parse_create_table() {
    let stmts = parse_sql("CREATE TABLE users (id INTEGER, name TEXT, age INTEGER)").unwrap();
    match &stmts[0] {
        SQLStatement::CreateTable { name, columns } => {
            assert_eq!(name, "users");
            assert_eq!(columns.len(), 3);
            assert_eq!(columns[0].data_type, DataType::Integer);
            assert_eq!(columns[1].data_type, DataType::Text);
        }
        _ => panic!("Expected CreateTable"),
    }
}

#[test]
fn test_parse_create_table_with_vector() {
    let stmts = parse_sql("CREATE TABLE items (id INTEGER, embedding VECTOR(3))").unwrap();
    match &stmts[0] {
        SQLStatement::CreateTable { columns, .. } => {
            assert_eq!(columns[1].data_type, DataType::Vector(3));
        }
        _ => panic!("Expected CreateTable"),
    }
}

#[test]
fn test_parse_insert() {
    let stmts = parse_sql("INSERT INTO users (id, name) VALUES (1, 'alice')").unwrap();
    match &stmts[0] {
        SQLStatement::Insert { table_name, columns, values } => {
            assert_eq!(table_name, "users");
            assert_eq!(columns.len(), 2);
            assert_eq!(values.len(), 1);
            assert_eq!(values[0][0], "1");
            assert_eq!(values[0][1], "'alice'");
        }
        _ => panic!("Expected Insert"),
    }
}

#[test]
fn test_parse_insert_multi_row() {
    let stmts = parse_sql("INSERT INTO t (id, name) VALUES (1, 'a'), (2, 'b')").unwrap();
    match &stmts[0] {
        SQLStatement::Insert { values, .. } => {
            assert_eq!(values.len(), 2);
        }
        _ => panic!("Expected Insert"),
    }
}

#[test]
fn test_parse_select() {
    let stmts = parse_sql("SELECT id, name FROM users WHERE age > 30").unwrap();
    match &stmts[0] {
        SQLStatement::Select { table_name, columns, where_clause, .. } => {
            assert_eq!(table_name, "users");
            assert_eq!(columns.len(), 2);
            assert!(where_clause.is_some());
            assert!(where_clause.as_ref().unwrap().contains("age > 30"));
        }
        _ => panic!("Expected Select"),
    }
}

#[test]
fn test_parse_select_limit() {
    let stmts = parse_sql("SELECT * FROM users LIMIT 10").unwrap();
    match &stmts[0] {
        SQLStatement::Select { limit, .. } => {
            assert_eq!(limit.unwrap(), 10);
        }
        _ => panic!("Expected Select"),
    }
}

#[test]
fn test_multiple_statements() {
    let sql = "CREATE TABLE t (id INTEGER); INSERT INTO t (id) VALUES (1); SELECT id FROM t";
    let stmts = parse_sql(sql).unwrap();
    assert_eq!(stmts.len(), 3);
}

#[test]
fn test_vector_insert() {
    let stmts = parse_sql("INSERT INTO items (id, emb) VALUES (1, '[0.1,0.2,0.3]')").unwrap();
    match &stmts[0] {
        SQLStatement::Insert { values, .. } => {
            assert_eq!(values[0][1], "'[0.1,0.2,0.3]'");
        }
        _ => panic!("Expected Insert"),
    }
}

#[test]
fn test_parse_delete() {
    let stmts = parse_sql("DELETE FROM users WHERE id = 1").unwrap();
    match &stmts[0] {
        SQLStatement::Delete { table_name, where_clause } => {
            assert_eq!(table_name, "users");
            assert!(where_clause.is_some());
            assert!(where_clause.as_ref().unwrap().contains("id = 1"));
        }
        _ => panic!("Expected Delete"),
    }
}

#[test]
fn test_parse_delete_all() {
    let stmts = parse_sql("DELETE FROM users").unwrap();
    match &stmts[0] {
        SQLStatement::Delete { table_name, where_clause } => {
            assert_eq!(table_name, "users");
            assert!(where_clause.is_none());
        }
        _ => panic!("Expected Delete"),
    }
}

#[test]
fn test_parse_update() {
    let stmts = parse_sql("UPDATE users SET name = 'bob' WHERE id = 1").unwrap();
    match &stmts[0] {
        SQLStatement::Update { table_name, assignments, where_clause } => {
            assert_eq!(table_name, "users");
            assert_eq!(assignments.len(), 1);
            assert_eq!(assignments[0].0, "name");
            assert!(where_clause.is_some());
        }
        _ => panic!("Expected Update"),
    }
}

#[test]
fn test_parse_update_multi_assign() {
    let stmts = parse_sql("UPDATE users SET name = 'bob', age = 30 WHERE id = 1").unwrap();
    match &stmts[0] {
        SQLStatement::Update { assignments, .. } => {
            assert_eq!(assignments.len(), 2);
            assert_eq!(assignments[0].0, "name");
            assert_eq!(assignments[1].0, "age");
        }
        _ => panic!("Expected Update"),
    }
}
