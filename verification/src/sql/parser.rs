//! The parser: from the text of a script to its statements.

use vstd::prelude::*;

use super::list::close_index;
use super::list::closing;
use super::list::items_of;
use super::list::lemma_close_index;
use super::list::list_items;
use super::list::ListKind;
use super::statement::assignment_views;
use super::statement::column_views;
use super::statement::opt_text;
use super::statement::statement_views;
use super::statement::text_rows;
use super::statement::ColumnDef;
use super::statement::Join;
use super::statement::JoinClause;
use super::statement::Query;
use super::statement::SQLStatement;
use super::statement::Statement;
use crate::number::parse_u64;
use crate::number::parse_usize;
use crate::number::read_nat;
use crate::text::after_bytes;
use crate::text::chars_of;
use crate::text::copy_chars;
use crate::text::find_keyword;
use crate::text::first_bytes;
use crate::text::has_char;
use crate::text::has_keyword;
use crate::text::has_prefix;
use crate::text::index_of;
use crate::text::join;
use crate::text::join2;
use crate::text::joined;
use crate::text::lemma_trim_len;
use crate::text::lower;
use crate::text::pieces;
use crate::text::position_of;
use crate::text::position_of_space;
use crate::text::search_keyword;
use crate::text::skip_bytes;
use crate::text::slice;
use crate::text::space_index;
use crate::text::split;
use crate::text::starts_with;
use crate::text::starts_with_keyword;
use crate::text::string_of;
use crate::text::string_texts;
use crate::text::take_bytes;
use crate::text::texts;
use crate::text::to_lower;
use crate::text::to_upper;
use crate::text::trim;
use crate::text::trim_char;
use crate::text::trimmed;
use crate::text::trimmed_of;
use crate::text::upper;
use crate::text::words;
use crate::text::words_of;
use crate::types::DataType;

verus! {

// ---------------------------------------------------------------------------
// What a statement means
// ---------------------------------------------------------------------------

/// The first word of `s` and what follows it.
pub open spec fn first_word(s: Seq<char>) -> Result<(Seq<char>, Seq<char>), Seq<char>> {
    let t = trim(s);
    let end = space_index(t);
    if end == 0 {
        Err("语法错误: 期望标识符"@)
    } else {
        Ok((t.take(end), trim(t.skip(end))))
    }
}

/// What follows the words that a statement starts with, which are all in upper or
/// all in lower case.
pub open spec fn after_words(s: Seq<char>, up: Seq<char>, low: Seq<char>) -> Option<Seq<char>> {
    let t = trim(s);
    if starts_with(t, up) {
        Some(trim(t.skip(up.len() as int)))
    } else if starts_with(t, low) {
        Some(trim(t.skip(low.len() as int)))
    } else {
        None
    }
}

/// The dimension in the parentheses of a vector type; 0 where there is none.
pub open spec fn dimension_of(t: Seq<char>) -> nat {
    let i = index_of(t, '(');
    let inner = t.skip(i + 1);
    let j = index_of(inner, ')');
    if i < t.len() && j < inner.len() {
        match read_nat(trim(inner.take(j)), usize::MAX as nat) {
            Some(n) => n,
            None => 0,
        }
    } else {
        0
    }
}

/// The type that a type name in upper case stands for.
pub open spec fn type_named(t: Seq<char>) -> Result<DataType, Seq<char>> {
    if starts_with(t, "INT"@) {
        Ok(DataType::Integer)
    } else if starts_with(t, "FLOAT"@) || starts_with(t, "DOUBLE"@) || starts_with(t, "REAL"@) {
        Ok(DataType::Float)
    } else if starts_with(t, "TEXT"@) || starts_with(t, "VARCHAR"@) || starts_with(t, "CHAR"@)
        || starts_with(t, "STRING"@) {
        Ok(DataType::Text)
    } else if starts_with(t, "BOOL"@) {
        Ok(DataType::Boolean)
    } else if starts_with(t, "DATE"@) {
        Ok(DataType::Date)
    } else if starts_with(t, "TIME"@) {
        Ok(DataType::Time)
    } else if starts_with(t, "VECTOR"@) {
        Ok(DataType::Vector(dimension_of(t) as usize))
    } else {
        Err("不支持的数据类型: "@ + t)
    }
}

/// A column definition: a name and a type.
pub open spec fn column_of(s: Seq<char>) -> Result<(Seq<char>, DataType), Seq<char>> {
    let w = words(s);
    if w.len() < 2 {
        Err("列定义不完整: "@ + s)
    } else {
        match type_named(upper(join(w.skip(1), " "@))) {
            Ok(t) => Ok((lower(w[0]), t)),
            Err(e) => Err(e),
        }
    }
}

/// Column definitions, up to the first that is wrong.
pub open spec fn columns_of(s: Seq<Seq<char>>) -> Result<Seq<(Seq<char>, DataType)>, Seq<char>>
    decreases s.len(),
{
    if s.len() == 0 {
        Ok(Seq::empty())
    } else {
        match columns_of(s.drop_last()) {
            Err(e) => Err(e),
            Ok(v) => match column_of(trim(s.last())) {
                Err(e) => Err(e),
                Ok(c) => Ok(v.push(c)),
            },
        }
    }
}

/// `CREATE TABLE name (column type, ...)`
pub open spec fn create_table_of(s: Seq<char>) -> Result<Statement, Seq<char>> {
    match after_words(s, "CREATE TABLE"@, "create table"@) {
        None => Err("无法解析CREATE TABLE"@),
        Some(rest) => match first_word(rest) {
            Err(e) => Err(e),
            Ok((name, rest)) => {
                let r = trim(rest);
                if r.len() == 0 || r[0] != '(' {
                    Err("缺少列定义左括号"@)
                } else {
                    match close_index(r, 1, 0) {
                        None => Err("缺少列定义右括号"@),
                        Some(end) => match columns_of(
                            list_items(r.subrange(1, end), ListKind::Columns),
                        ) {
                            Err(e) => Err(e),
                            Ok(columns) => Ok(
                                Statement::CreateTable { name: lower(name), columns },
                            ),
                        },
                    }
                }
            },
        },
    }
}

/// `DROP TABLE name`, with or without `IF EXISTS` before the name.
pub open spec fn drop_table_of(s: Seq<char>) -> Result<Statement, Seq<char>> {
    match after_words(s, "DROP TABLE"@, "drop table"@) {
        None => Err("无法解析DROP TABLE"@),
        Some(rest) => {
            let r = if starts_with_keyword(rest, "IF EXISTS "@) {
                trim(skip_bytes(rest, 10))
            } else {
                rest
            };
            match first_word(r) {
                Err(e) => Err(e),
                Ok((name, _)) => Ok(Statement::DropTable { table: lower(name) }),
            }
        },
    }
}

/// The rows of values of an `INSERT`, as far as they can be read.
pub open spec fn value_rows(s: Seq<char>) -> Seq<Seq<Seq<char>>>
    decreases s.len(),
    via value_rows_end
{
    let t = trim(s);
    if t.len() == 0 || t[0] != '(' {
        Seq::empty()
    } else {
        match close_index(t, 1, 0) {
            None => Seq::empty(),
            Some(end) => {
                let row = list_items(t.subrange(1, end), ListKind::Values);
                let rest = trim(t.skip(end + 1));
                if rest.len() > 0 && rest[0] == ',' {
                    seq![row] + value_rows(trim(rest.skip(1)))
                } else {
                    seq![row]
                }
            },
        }
    }
}

#[via_fn]
proof fn value_rows_end(s: Seq<char>) {
    let t = trim(s);
    lemma_trim_len(s);
    if t.len() > 0 {
        lemma_close_index(t, 1, 0);
        match close_index(t, 1, 0) {
            Some(end) => {
                let rest = trim(t.skip(end + 1));
                lemma_trim_len(t.skip(end + 1));
                if rest.len() > 0 {
                    lemma_trim_len(rest.skip(1));
                }
            },
            None => {},
        }
    }
}

/// The name of a column of an `INSERT`.
pub open spec fn insert_column(s: Seq<char>) -> Seq<char> {
    lower(trim_char(trim(s), '`'))
}

/// `INSERT INTO table (column, ...) VALUES (value, ...), ...`
pub open spec fn insert_of(s: Seq<char>) -> Result<Statement, Seq<char>> {
    match after_words(s, "INSERT INTO"@, "insert into"@) {
        None => Err("无法解析INSERT INTO"@),
        Some(rest) => match first_word(rest) {
            Err(e) => Err(e),
            Ok((name, rest)) => {
                let r = trim(rest);
                if r.len() == 0 || r[0] != '(' {
                    Err("缺少列名括号"@)
                } else {
                    match close_index(r, 1, 0) {
                        None => Err("括号不匹配"@),
                        Some(end) => {
                            let tail = trim(r.skip(end + 1));
                            if !starts_with_keyword(tail, "VALUES"@) {
                                Err("缺少VALUES子句"@)
                            } else {
                                Ok(
                                    Statement::Insert {
                                        table: lower(name),
                                        columns: split(r.subrange(1, end), ',').map_values(
                                            |x: Seq<char>| insert_column(x),
                                        ),
                                        values: value_rows(trim(skip_bytes(tail, 6))),
                                    },
                                )
                            }
                        },
                    }
                }
            },
        },
    }
}

/// The place of the first of the keywords that stands in `s`; the earlier a keyword
/// in the list, the sooner it is looked for.
pub open spec fn first_found(s: Seq<char>, keywords: Seq<Seq<char>>) -> Option<int>
    decreases keywords.len(),
{
    if keywords.len() == 0 {
        None
    } else {
        match find_keyword(s, keywords[0]) {
            Some(n) => Some(n),
            None => first_found(s, keywords.skip(1)),
        }
    }
}

/// `s` parted at the byte `n`; all of it before, where there is no such place.
pub open spec fn cut(s: Seq<char>, n: Option<int>) -> (Seq<char>, Seq<char>) {
    match n {
        Some(n) => (take_bytes(s, n), skip_bytes(s, n)),
        None => (s, Seq::empty()),
    }
}

/// The keywords that end a condition.
pub open spec fn after_condition() -> Seq<Seq<char>> {
    seq![" GROUP BY "@, " ORDER BY "@, " LIMIT "@, " OFFSET "@]
}

/// The keywords that end the columns of `GROUP BY` or the condition of `HAVING`.
pub open spec fn after_group() -> Seq<Seq<char>> {
    seq![" ORDER BY "@, " LIMIT "@, " OFFSET "@]
}

/// The keywords that end the column of `ORDER BY`.
pub open spec fn after_order() -> Seq<Seq<char>> {
    seq![" LIMIT"@, " OFFSET"@]
}

/// The keywords that end the condition of `ON`.
pub open spec fn after_on() -> Seq<Seq<char>> {
    seq![" WHERE "@, " GROUP BY "@, " ORDER BY "@, " LIMIT "@, " OFFSET "@]
}

/// The `JOIN` part behind the table of a query, and what follows it.
pub open spec fn join_part(s: Seq<char>) -> Result<(Option<Join>, Seq<char>), Seq<char>> {
    let inner = starts_with_keyword(s, "INNER JOIN "@);
    if !inner && !starts_with_keyword(s, "JOIN "@) {
        Ok((None, s))
    } else {
        match first_word(
            skip_bytes(
                s,
                if inner {
                    11
                } else {
                    5
                },
            ),
        ) {
            Err(e) => Err(e),
            Ok((table, rest)) => if !starts_with_keyword(rest, "ON "@) {
                Err("JOIN缺少ON子句"@)
            } else {
                let c = trim(skip_bytes(rest, 3));
                let (on, tail) = cut(c, first_found(c, after_on()));
                let i = index_of(on, '=');
                if i >= on.len() {
                    Err("JOIN的ON条件缺少等号: "@ + on)
                } else {
                    Ok(
                        (
                            Some(
                                Join {
                                    table: lower(table),
                                    left: lower(trim(on.take(i))),
                                    right: lower(trim(on.skip(i + 1))),
                                },
                            ),
                            trim(tail),
                        ),
                    )
                }
            },
        }
    }
}

/// The condition of `WHERE`, and what follows it.
pub open spec fn where_part(s: Seq<char>) -> (Option<Seq<char>>, Seq<char>) {
    if starts_with_keyword(s, "WHERE "@) || starts_with_keyword(s, "WHERE\n"@) {
        let c = trim(skip_bytes(s, 6));
        let (condition, tail) = cut(c, first_found(c, after_condition()));
        (Some(trim(condition)), tail)
    } else {
        match find_keyword(s, " WHERE "@) {
            Some(n) => {
                let c = trim(skip_bytes(s, n + 7));
                (Some(c), c)
            },
            None => (None, s),
        }
    }
}

/// What stands behind a keyword: at the start of `s`, or inside it.
pub open spec fn behind(s: Seq<char>, start: Seq<char>, inside: Seq<char>) -> Option<Seq<char>> {
    if starts_with_keyword(s, start) {
        Some(trim(skip_bytes(s, start.len() as int)))
    } else {
        match find_keyword(s, inside) {
            Some(n) => Some(trim(skip_bytes(s, n + inside.len()))),
            None => None,
        }
    }
}

/// The columns of `GROUP BY`, the condition of `HAVING`, and what follows them.
pub open spec fn group_part(s: Seq<char>) -> (Option<Seq<char>>, Option<Seq<char>>, Seq<char>) {
    match behind(s, "GROUP BY "@, " GROUP BY "@) {
        None => (None, None, s),
        Some(g) => match find_keyword(g, " HAVING "@) {
            Some(n) => {
                let h = trim(skip_bytes(g, n + 8));
                let (having, tail) = cut(h, first_found(h, after_group()));
                (Some(trim(take_bytes(g, n))), Some(trim(having)), tail)
            },
            None => {
                let (columns, tail) = cut(g, first_found(g, after_group()));
                (Some(trim(columns)), None, tail)
            },
        },
    }
}

/// The column of `ORDER BY`, and what is left to read.
pub open spec fn order_part(s: Seq<char>) -> (Option<Seq<char>>, Seq<char>) {
    match behind(s, "ORDER BY "@, " ORDER BY "@) {
        None => (None, s),
        Some(o) => {
            let end = first_found(o, after_order());
            let (column, tail) = cut(o, end);
            (
                Some(trim(column)),
                if starts_with_keyword(s, "ORDER BY "@) && end is Some {
                    tail
                } else {
                    s
                },
            )
        },
    }
}

/// The number behind a keyword.
pub open spec fn number_part(s: Seq<char>, start: Seq<char>, inside: Seq<char>) -> Option<u64> {
    match behind(s, start, inside) {
        None => None,
        Some(b) => {
            let w = words(b);
            match read_nat(
                if w.len() > 0 {
                    w[0]
                } else {
                    "0"@
                },
                u64::MAX as nat,
            ) {
                Some(n) => Some(n as u64),
                None => None,
            }
        },
    }
}

/// The columns of a query, as they are written.
pub open spec fn select_columns(s: Seq<char>) -> Seq<Seq<char>> {
    split(s, ',').map_values(|x: Seq<char>| lower(trim(x)))
}

/// `SELECT [DISTINCT] column, ... FROM table [JOIN table ON column = column]
/// [WHERE condition] [GROUP BY column, ... [HAVING condition]] [ORDER BY column]
/// [LIMIT number] [OFFSET number]`
pub open spec fn select_of(s: Seq<char>) -> Result<Statement, Seq<char>> {
    match after_words(s, "SELECT"@, "select"@) {
        None => Err("无法解析SELECT"@),
        Some(all) => {
            let distinct = starts_with_keyword(all, "DISTINCT "@);
            let rest = if distinct {
                trim(skip_bytes(all, 9))
            } else {
                all
            };
            match find_keyword(rest, " FROM "@) {
                None => Err("缺少FROM子句"@),
                Some(from) => match first_word(trim(skip_bytes(rest, from + 6))) {
                    Err(e) => Err(e),
                    Ok((table, tail)) => match join_part(trim(tail)) {
                        Err(e) => Err(e),
                        Ok((join, r0)) => {
                            let (condition, r1) = where_part(r0);
                            let (group_by, having, r2) = group_part(r1);
                            let (order_by, r3) = order_part(r2);
                            Ok(
                                Statement::Select(
                                    Query {
                                        table: lower(table),
                                        columns: select_columns(take_bytes(rest, from)),
                                        condition,
                                        order_by,
                                        group_by,
                                        having,
                                        limit: number_part(r3, "LIMIT "@, " LIMIT "@),
                                        offset: number_part(r3, "OFFSET "@, " OFFSET "@),
                                        distinct,
                                        join,
                                    },
                                ),
                            )
                        },
                    },
                },
            }
        },
    }
}

/// `DELETE FROM table [WHERE condition]`
pub open spec fn delete_of(s: Seq<char>) -> Result<Statement, Seq<char>> {
    match after_words(s, "DELETE FROM"@, "delete from"@) {
        None => Err("无法解析DELETE FROM"@),
        Some(rest) => match first_word(rest) {
            Err(e) => Err(e),
            Ok((name, rest)) => {
                let r = trim(rest);
                if starts_with_keyword(r, "WHERE "@) || starts_with_keyword(r, "WHERE\n"@) {
                    Ok(
                        Statement::Delete {
                            table: lower(name),
                            condition: Some(trim(skip_bytes(r, 6))),
                        },
                    )
                } else {
                    match find_keyword(r, " WHERE "@) {
                        Some(n) => Ok(
                            Statement::Delete {
                                table: lower(name),
                                condition: Some(trim(skip_bytes(r, n + 7))),
                            },
                        ),
                        None => if r.len() > 0 {
                            Err("DELETE语法错误: "@ + s)
                        } else {
                            Ok(Statement::Delete { table: lower(name), condition: None })
                        },
                    }
                }
            },
        },
    }
}

/// `column = value`
pub open spec fn assignment_of(s: Seq<char>) -> Result<(Seq<char>, Seq<char>), Seq<char>> {
    let t = trim(s);
    let i = index_of(t, '=');
    if i >= t.len() {
        Err("UPDATE赋值语法错误: "@ + t)
    } else {
        Ok((lower(trim(t.take(i))), trim(t.skip(i + 1))))
    }
}

/// Assignments, up to the first that is wrong.
pub open spec fn assignments_of(s: Seq<Seq<char>>) -> Result<
    Seq<(Seq<char>, Seq<char>)>,
    Seq<char>,
>
    decreases s.len(),
{
    if s.len() == 0 {
        Ok(Seq::empty())
    } else {
        match assignments_of(s.drop_last()) {
            Err(e) => Err(e),
            Ok(v) => match assignment_of(s.last()) {
                Err(e) => Err(e),
                Ok(a) => Ok(v.push(a)),
            },
        }
    }
}

/// `UPDATE table SET column = value, ... [WHERE condition]`
pub open spec fn update_of(s: Seq<char>) -> Result<Statement, Seq<char>> {
    match after_words(s, "UPDATE"@, "update"@) {
        None => Err("无法解析UPDATE"@),
        Some(rest) => match first_word(rest) {
            Err(e) => Err(e),
            Ok((name, rest)) => {
                let r = trim(rest);
                if !starts_with_keyword(r, "SET "@) {
                    Err("UPDATE缺少SET子句"@)
                } else {
                    let a = trim(skip_bytes(r, 4));
                    let place = find_keyword(a, " WHERE "@);
                    match assignments_of(split(trim(cut(a, place).0), ',')) {
                        Err(e) => Err(e),
                        Ok(assignments) => Ok(
                            Statement::Update {
                                table: lower(name),
                                assignments,
                                condition: match place {
                                    Some(n) => Some(trim(skip_bytes(a, n + 7))),
                                    None => None,
                                },
                            },
                        ),
                    }
                }
            },
        },
    }
}

/// The statement that a text stands for, or what is wrong with it.
pub open spec fn statement_of(s: Seq<char>) -> Result<Statement, Seq<char>> {
    let u = upper(trim(s));
    if starts_with(u, "CREATE TABLE"@) {
        create_table_of(s)
    } else if starts_with(u, "DROP TABLE"@) {
        drop_table_of(s)
    } else if starts_with(u, "INSERT INTO"@) {
        insert_of(s)
    } else if starts_with(u, "SELECT"@) {
        select_of(s)
    } else if starts_with(u, "DELETE FROM"@) {
        delete_of(s)
    } else if starts_with(u, "UPDATE "@) {
        update_of(s)
    } else {
        Err("不支持的SQL语句: "@ + s)
    }
}

/// Statements, up to the first that is wrong.
pub open spec fn statements_of(s: Seq<Seq<char>>) -> Result<Seq<Statement>, Seq<char>>
    decreases s.len(),
{
    if s.len() == 0 {
        Ok(Seq::empty())
    } else {
        match statements_of(s.drop_last()) {
            Err(e) => Err(e),
            Ok(v) => match statement_of(s.last()) {
                Err(e) => Err(e),
                Ok(x) => Ok(v.push(x)),
            },
        }
    }
}

/// The texts that hold more than white space, trimmed.
pub open spec fn nonblank(s: Seq<Seq<char>>) -> Seq<Seq<char>>
    decreases s.len(),
{
    if s.len() == 0 {
        Seq::empty()
    } else {
        let rest = nonblank(s.drop_last());
        if trim(s.last()).len() > 0 {
            rest.push(trim(s.last()))
        } else {
            rest
        }
    }
}

/// The texts of the statements of a script.
pub open spec fn script_texts(s: Seq<char>) -> Seq<Seq<char>> {
    let t = trim(s);
    if t.contains(';') {
        nonblank(split(t, ';'))
    } else {
        seq![t]
    }
}

/// The statements of a script, or what is wrong with it.
pub open spec fn script_of(s: Seq<char>) -> Result<Seq<Statement>, Seq<char>> {
    if trim(s).len() == 0 {
        Err("SQL语句为空"@)
    } else {
        statements_of(script_texts(s))
    }
}

/// A parsed statement or an error, by its view.
pub open spec fn statement_result(r: Result<SQLStatement, String>) -> Result<
    Statement,
    Seq<char>,
> {
    match r {
        Ok(s) => Ok(s@),
        Err(e) => Err(e@),
    }
}

/// Parsed statements or an error, by their view.
pub open spec fn script_result(r: Result<Vec<SQLStatement>, String>) -> Result<
    Seq<Statement>,
    Seq<char>,
> {
    match r {
        Ok(v) => Ok(statement_views(v@)),
        Err(e) => Err(e@),
    }
}

// ---------------------------------------------------------------------------
// The parser
// ---------------------------------------------------------------------------

/// The statements of a script: `;` parts them.
pub fn parse_sql(sql: &str) -> (r: Result<Vec<SQLStatement>, String>)
    ensures
        script_result(r) == script_of(sql@),
{
    let t = trimmed(&chars_of(sql));
    if t.len() == 0 {
        return Err("SQL语句为空".to_owned());
    }
    let parts: Vec<Vec<char>> = if has_char(&t, ';') {
        nonblank_of(&pieces(&t, ';'))
    } else {
        let mut v: Vec<Vec<char>> = Vec::new();
        v.push(copy_chars(&t));
        assert(texts(v@) =~= seq![t@]);
        v
    };
    let mut result: Vec<SQLStatement> = Vec::new();
    assert(statement_views(result@) =~= Seq::empty());
    let mut i: usize = 0;
    assert(texts(parts@).take(0) =~= Seq::empty());
    while i < parts.len()
        invariant
            i <= parts.len(),
            statements_of(texts(parts@).take(i as int)) == Ok::<Seq<Statement>, Seq<char>>(
                statement_views(result@),
            ),
            script_of(sql@) == statements_of(texts(parts@)),
        decreases parts.len() - i,
    {
        proof {
            let p = texts(parts@);
            assert(p.take(i + 1).drop_last() =~= p.take(i as int));
            assert(p.take(i + 1).last() == parts@[i as int]@);
        }
        match parse_one(&parts[i]) {
            Ok(s) => {
                let ghost before = result@;
                result.push(s);
                assert(statement_views(result@) =~= statement_views(before).push(s@));
            },
            Err(e) => {
                proof {
                    lemma_statements_error(texts(parts@), i + 1);
                }
                return Err(e);
            },
        }
        i += 1;
    }
    assert(texts(parts@).take(parts@.len() as int) =~= texts(parts@));
    Ok(result)
}

proof fn lemma_statements_error(s: Seq<Seq<char>>, k: int)
    requires
        0 <= k <= s.len(),
        statements_of(s.take(k)) is Err,
    ensures
        statements_of(s) == statements_of(s.take(k)),
    decreases s.len() - k,
{
    if k == s.len() {
        assert(s.take(k) =~= s);
    } else {
        assert(s.take(k + 1).drop_last() =~= s.take(k));
        lemma_statements_error(s, k + 1);
    }
}

fn nonblank_of(s: &Vec<Vec<char>>) -> (r: Vec<Vec<char>>)
    ensures
        texts(r@) == nonblank(texts(s@)),
{
    let mut r: Vec<Vec<char>> = Vec::new();
    let mut i: usize = 0;
    assert(texts(s@).take(0) =~= Seq::empty());
    assert(texts(r@) =~= Seq::empty());
    while i < s.len()
        invariant
            i <= s.len(),
            texts(r@) == nonblank(texts(s@).take(i as int)),
        decreases s.len() - i,
    {
        let t = trimmed(&s[i]);
        proof {
            let p = texts(s@);
            assert(p.take(i + 1).drop_last() =~= p.take(i as int));
            assert(p.take(i + 1).last() == s@[i as int]@);
        }
        if t.len() > 0 {
            let ghost before = r@;
            r.push(t);
            assert(texts(r@) =~= texts(before).push(t@));
        }
        i += 1;
    }
    assert(texts(s@).take(s@.len() as int) =~= texts(s@));
    r
}

/// One statement.
fn parse_one(s: &Vec<char>) -> (r: Result<SQLStatement, String>)
    ensures
        statement_result(r) == statement_of(s@),
{
    let u = to_upper(&trimmed(s));
    if has_prefix(&u, "CREATE TABLE") {
        parse_create_table(s)
    } else if has_prefix(&u, "DROP TABLE") {
        parse_drop_table(s)
    } else if has_prefix(&u, "INSERT INTO") {
        parse_insert(s)
    } else if has_prefix(&u, "SELECT") {
        parse_select(s)
    } else if has_prefix(&u, "DELETE FROM") {
        parse_delete(s)
    } else if has_prefix(&u, "UPDATE ") {
        parse_update(s)
    } else {
        Err(join2("不支持的SQL语句: ", string_of(s).as_str()))
    }
}

fn strip_words(s: &Vec<char>, up: &str, low: &str) -> (r: Option<Vec<char>>)
    ensures
        match r {
            Some(t) => after_words(s@, up@, low@) == Some(t@),
            None => after_words(s@, up@, low@) is None,
        },
{
    let t = trimmed(s);
    let word = if has_prefix(&t, up) {
        chars_of(up)
    } else if has_prefix(&t, low) {
        chars_of(low)
    } else {
        return None;
    };
    assert(t@.skip(word@.len() as int) =~= t@.subrange(word@.len() as int, t@.len() as int));
    Some(trimmed(&slice(&t, word.len(), t.len())))
}

/// The first word of `s` and what follows it.
fn split_first_word(s: &Vec<char>) -> (r: Result<(Vec<char>, Vec<char>), String>)
    ensures
        match r {
            Ok((w, t)) => first_word(s@) == Ok::<(Seq<char>, Seq<char>), Seq<char>>((w@, t@)),
            Err(e) => first_word(s@) == Err::<(Seq<char>, Seq<char>), Seq<char>>(e@),
        },
{
    let t = trimmed(s);
    let end: usize = position_of_space(&t);
    if end == 0 {
        return Err("语法错误: 期望标识符".to_owned());
    }
    proof {
        assert(t@.take(end as int) =~= t@.subrange(0, end as int));
        assert(t@.skip(end as int) =~= t@.subrange(end as int, t@.len() as int));
    }
    Ok((slice(&t, 0, end), trimmed(&slice(&t, end, t.len()))))
}

fn parse_create_table(s: &Vec<char>) -> (r: Result<SQLStatement, String>)
    ensures
        statement_result(r) == create_table_of(s@),
{
    let rest = match strip_words(s, "CREATE TABLE", "create table") {
        Some(rest) => rest,
        None => {
            return Err("无法解析CREATE TABLE".to_owned());
        },
    };
    let (name, rest) = match split_first_word(&rest) {
        Ok(p) => p,
        Err(e) => {
            return Err(e);
        },
    };
    let body = trimmed(&rest);
    if body.len() == 0 || body[0] != '(' {
        return Err("缺少列定义左括号".to_owned());
    }
    let end: usize = match closing(&body, 1) {
        Some(end) => end,
        None => {
            return Err("缺少列定义右括号".to_owned());
        },
    };
    let items = items_of(&slice(&body, 1, end), ListKind::Columns);
    match parse_columns(&items) {
        Ok(columns) => Ok(
            SQLStatement::CreateTable { name: string_of(&to_lower(&name)), columns },
        ),
        Err(e) => Err(e),
    }
}

fn parse_columns(items: &Vec<Vec<char>>) -> (r: Result<Vec<ColumnDef>, String>)
    ensures
        match r {
            Ok(v) => columns_of(texts(items@)) == Ok::<Seq<(Seq<char>, DataType)>, Seq<char>>(
                column_views(v@),
            ),
            Err(e) => columns_of(texts(items@)) == Err::<Seq<(Seq<char>, DataType)>, Seq<char>>(
                e@,
            ),
        },
{
    let mut columns: Vec<ColumnDef> = Vec::new();
    let mut i: usize = 0;
    assert(texts(items@).take(0) =~= Seq::empty());
    assert(column_views(columns@) =~= Seq::empty());
    while i < items.len()
        invariant
            i <= items.len(),
            columns_of(texts(items@).take(i as int)) == Ok::<
                Seq<(Seq<char>, DataType)>,
                Seq<char>,
            >(column_views(columns@)),
        decreases items.len() - i,
    {
        proof {
            let p = texts(items@);
            assert(p.take(i + 1).drop_last() =~= p.take(i as int));
            assert(p.take(i + 1).last() == items@[i as int]@);
        }
        match parse_column_def(&trimmed(&items[i])) {
            Ok(c) => {
                let ghost before = columns@;
                columns.push(c);
                assert(column_views(columns@) =~= column_views(before).push(
                    (c.name@, c.data_type),
                ));
            },
            Err(e) => {
                proof {
                    lemma_columns_error(texts(items@), i + 1);
                }
                return Err(e);
            },
        }
        i += 1;
    }
    assert(texts(items@).take(items@.len() as int) =~= texts(items@));
    Ok(columns)
}

proof fn lemma_columns_error(s: Seq<Seq<char>>, k: int)
    requires
        0 <= k <= s.len(),
        columns_of(s.take(k)) is Err,
    ensures
        columns_of(s) == columns_of(s.take(k)),
    decreases s.len() - k,
{
    if k == s.len() {
        assert(s.take(k) =~= s);
    } else {
        assert(s.take(k + 1).drop_last() =~= s.take(k));
        lemma_columns_error(s, k + 1);
    }
}

fn parse_column_def(s: &Vec<char>) -> (r: Result<ColumnDef, String>)
    ensures
        match r {
            Ok(c) => column_of(s@) == Ok::<(Seq<char>, DataType), Seq<char>>(
                (c.name@, c.data_type),
            ),
            Err(e) => column_of(s@) == Err::<(Seq<char>, DataType), Seq<char>>(e@),
        },
{
    let mut w = words_of(s);
    assert(texts(w@).len() == w@.len());
    if w.len() < 2 {
        return Err(join2("列定义不完整: ", string_of(s).as_str()));
    }
    let ghost all = w@;
    let first = w.remove(0);
    proof {
        assert(texts(all)[0] == first@);
        assert(texts(w@) =~= texts(all).skip(1));
    }
    let t = to_upper(&joined(&w, " "));
    match parse_type(&t) {
        Ok(data_type) => Ok(ColumnDef { name: string_of(&to_lower(&first)), data_type }),
        Err(e) => Err(e),
    }
}

fn parse_type(t: &Vec<char>) -> (r: Result<DataType, String>)
    ensures
        match r {
            Ok(d) => type_named(t@) == Ok::<DataType, Seq<char>>(d),
            Err(e) => type_named(t@) == Err::<DataType, Seq<char>>(e@),
        },
{
    if has_prefix(t, "INT") {
        Ok(DataType::Integer)
    } else if has_prefix(t, "FLOAT") || has_prefix(t, "DOUBLE") || has_prefix(t, "REAL") {
        Ok(DataType::Float)
    } else if has_prefix(t, "TEXT") || has_prefix(t, "VARCHAR") || has_prefix(t, "CHAR")
        || has_prefix(t, "STRING") {
        Ok(DataType::Text)
    } else if has_prefix(t, "BOOL") {
        Ok(DataType::Boolean)
    } else if has_prefix(t, "DATE") {
        Ok(DataType::Date)
    } else if has_prefix(t, "TIME") {
        Ok(DataType::Time)
    } else if has_prefix(t, "VECTOR") {
        Ok(DataType::Vector(parse_dimension(t)))
    } else {
        Err(join2("不支持的数据类型: ", string_of(t).as_str()))
    }
}

fn parse_dimension(t: &Vec<char>) -> (r: usize)
    ensures
        r == dimension_of(t@),
{
    let i: usize = position_of(t, '(');
    if i == t.len() {
        return 0;
    }
    let inner = slice(t, i + 1, t.len());
    let j: usize = position_of(&inner, ')');
    proof {
        assert(inner@ =~= t@.skip(i + 1));
    }
    if j == inner.len() {
        return 0;
    }
    assert(inner@.take(j as int) =~= inner@.subrange(0, j as int));
    match parse_usize(&trimmed(&slice(&inner, 0, j))) {
        Some(n) => n,
        None => 0,
    }
}

fn parse_drop_table(s: &Vec<char>) -> (r: Result<SQLStatement, String>)
    ensures
        statement_result(r) == drop_table_of(s@),
{
    let rest = match strip_words(s, "DROP TABLE", "drop table") {
        Some(rest) => rest,
        None => {
            return Err("无法解析DROP TABLE".to_owned());
        },
    };
    let rest = if has_keyword(&rest, "IF EXISTS ") {
        trimmed(&after_bytes(&rest, 10))
    } else {
        rest
    };
    match split_first_word(&rest) {
        Ok((name, _)) => Ok(SQLStatement::DropTable { table_name: string_of(&to_lower(&name)) }),
        Err(e) => Err(e),
    }
}

fn strings_of(v: &Vec<Vec<char>>) -> (r: Vec<String>)
    ensures
        string_texts(r@) == texts(v@),
{
    let mut r: Vec<String> = Vec::new();
    let mut i: usize = 0;
    while i < v.len()
        invariant
            i <= v.len(),
            string_texts(r@) == texts(v@).take(i as int),
        decreases v.len() - i,
    {
        let ghost before = r@;
        let t = string_of(&v[i]);
        r.push(t);
        assert(string_texts(r@) =~= string_texts(before).push(t@));
        assert(texts(v@).take(i + 1) =~= texts(v@).take(i as int).push(v@[i as int]@));
        i += 1;
    }
    assert(texts(v@).take(v@.len() as int) =~= texts(v@));
    r
}

fn parse_insert(s: &Vec<char>) -> (r: Result<SQLStatement, String>)
    ensures
        statement_result(r) == insert_of(s@),
{
    let rest = match strip_words(s, "INSERT INTO", "insert into") {
        Some(rest) => rest,
        None => {
            return Err("无法解析INSERT INTO".to_owned());
        },
    };
    let (name, rest) = match split_first_word(&rest) {
        Ok(p) => p,
        Err(e) => {
            return Err(e);
        },
    };
    let body = trimmed(&rest);
    if body.len() == 0 || body[0] != '(' {
        return Err("缺少列名括号".to_owned());
    }
    let end: usize = match closing(&body, 1) {
        Some(end) => end,
        None => {
            return Err("括号不匹配".to_owned());
        },
    };
    assert(body@.skip(end + 1) =~= body@.subrange(end + 1, body@.len() as int));
    let tail = trimmed(&slice(&body, end + 1, body.len()));
    if !has_keyword(&tail, "VALUES") {
        return Err("缺少VALUES子句".to_owned());
    }
    let names = pieces(&slice(&body, 1, end), ',');
    let mut columns: Vec<String> = Vec::new();
    let mut i: usize = 0;
    while i < names.len()
        invariant
            i <= names.len(),
            string_texts(columns@) == texts(names@).take(i as int).map_values(
                |x: Seq<char>| insert_column(x),
            ),
        decreases names.len() - i,
    {
        let ghost before = columns@;
        let t = string_of(&to_lower(&trimmed_of(&trimmed(&names[i]), '`')));
        columns.push(t);
        proof {
            assert(string_texts(columns@) =~= string_texts(before).push(t@));
            assert(texts(names@).take(i + 1).map_values(|x: Seq<char>| insert_column(x))
                =~= texts(names@).take(i as int).map_values(
                |x: Seq<char>| insert_column(x),
            ).push(insert_column(names@[i as int]@)));
        }
        i += 1;
    }
    assert(texts(names@).take(names@.len() as int) =~= texts(names@));
    let values = parse_rows(&trimmed(&after_bytes(&tail, 6)));
    Ok(SQLStatement::Insert { table_name: string_of(&to_lower(&name)), columns, values })
}

/// The rows of values of an `INSERT`.
fn parse_rows(s: &Vec<char>) -> (r: Vec<Vec<String>>)
    ensures
        text_rows(r@) == value_rows(s@),
{
    let mut rows: Vec<Vec<String>> = Vec::new();
    let mut rest = copy_chars(s);
    let mut done: bool = false;
    assert(text_rows(rows@) + value_rows(s@) =~= value_rows(s@));
    while !done
        invariant
            !done ==> text_rows(rows@) + value_rows(rest@) == value_rows(s@),
            done ==> text_rows(rows@) == value_rows(s@),
        decreases (if done { 0int } else { 1int }) + rest@.len(),
    {
        let t = trimmed(&rest);
        proof {
            lemma_trim_len(rest@);
            assert(text_rows(rows@) + Seq::<Seq<Seq<char>>>::empty() =~= text_rows(rows@));
        }
        if t.len() == 0 || t[0] != '(' {
            done = true;
        } else {
            match closing(&t, 1) {
                None => {
                    done = true;
                },
                Some(end) => {
                    let items = items_of(&slice(&t, 1, end), ListKind::Values);
                    let row = strings_of(&items);
                    let ghost before = rows@;
                    rows.push(row);
                    proof {
                        assert(t@.skip(end + 1) =~= t@.subrange(end + 1, t@.len() as int));
                        assert(text_rows(rows@) =~= text_rows(before).push(string_texts(row@)));
                        lemma_trim_len(t@.skip(end + 1));
                    }
                    let after = trimmed(&slice(&t, end + 1, t.len()));
                    if after.len() > 0 && after[0] == ',' {
                        assert(after@.skip(1) =~= after@.subrange(1, after@.len() as int));
                        let next = trimmed(&slice(&after, 1, after.len()));
                        proof {
                            lemma_trim_len(after@.skip(1));
                            assert(text_rows(rows@) + value_rows(next@) =~= text_rows(before) + (
                            seq![string_texts(row@)] + value_rows(next@)));
                        }
                        rest = next;
                    } else {
                        done = true;
                        assert(text_rows(rows@) =~= text_rows(before) + seq![string_texts(row@)]);
                    }
                },
            }
        }
    }
    rows
}

/// The place of the first of the keywords that stands in `s`.
fn search_first(s: &Vec<char>, keywords: &Vec<&str>) -> (r: Option<u128>)
    ensures
        match r {
            Some(n) => first_found(s@, keywords@.map_values(|k: &str| k@)) == Some(n as int),
            None => first_found(s@, keywords@.map_values(|k: &str| k@)) is None,
        },
{
    let ghost all = keywords@.map_values(|k: &str| k@);
    let mut i: usize = 0;
    assert(all.skip(0) =~= all);
    while i < keywords.len()
        invariant
            i <= keywords.len(),
            all == keywords@.map_values(|k: &str| k@),
            first_found(s@, all) == first_found(s@, all.skip(i as int)),
        decreases keywords.len() - i,
    {
        proof {
            assert(all.skip(i as int)[0] == keywords@[i as int]@);
            assert(all.skip(i as int).skip(1) =~= all.skip(i + 1));
        }
        match search_keyword(s, keywords[i]) {
            Some(n) => {
                return Some(n);
            },
            None => {},
        }
        i += 1;
    }
    None
}

fn cut_at(s: &Vec<char>, n: Option<u128>) -> (r: (Vec<char>, Vec<char>))
    ensures
        (r.0@, r.1@) == cut(
            s@,
            match n {
                Some(n) => Some(n as int),
                None => None,
            },
        ),
{
    match n {
        Some(n) => (first_bytes(s, n), after_bytes(s, n)),
        None => {
            let empty: Vec<char> = Vec::new();
            assert(empty@ =~= Seq::empty());
            (copy_chars(s), empty)
        },
    }
}

fn parse_join(s: &Vec<char>) -> (r: Result<(Option<JoinClause>, Vec<char>), String>)
    ensures
        match r {
            Ok((j, t)) => join_part(s@) == Ok::<(Option<Join>, Seq<char>), Seq<char>>(
                (super::statement::opt_join(j), t@),
            ),
            Err(e) => join_part(s@) == Err::<(Option<Join>, Seq<char>), Seq<char>>(e@),
        },
{
    let inner: bool = has_keyword(s, "INNER JOIN ");
    if !inner && !has_keyword(s, "JOIN ") {
        return Ok((None, copy_chars(s)));
    }
    let skip: u128 = if inner {
        11
    } else {
        5
    };
    let (table, rest) = match split_first_word(&after_bytes(s, skip)) {
        Ok(p) => p,
        Err(e) => {
            return Err(e);
        },
    };
    if !has_keyword(&rest, "ON ") {
        return Err("JOIN缺少ON子句".to_owned());
    }
    let c = trimmed(&after_bytes(&rest, 3));
    let keywords: Vec<&str> = vec![" WHERE ", " GROUP BY ", " ORDER BY ", " LIMIT ", " OFFSET "];
    assert(keywords@.map_values(|k: &str| k@) =~= after_on());
    let (on, tail) = cut_at(&c, search_first(&c, &keywords));
    let i: usize = position_of(&on, '=');
    if i == on.len() {
        return Err(join2("JOIN的ON条件缺少等号: ", string_of(&on).as_str()));
    }
    proof {
        assert(on@.take(i as int) =~= on@.subrange(0, i as int));
        assert(on@.skip(i + 1) =~= on@.subrange(i + 1, on@.len() as int));
    }
    let clause = JoinClause {
        table: string_of(&to_lower(&table)),
        left_col: string_of(&to_lower(&trimmed(&slice(&on, 0, i)))),
        right_col: string_of(&to_lower(&trimmed(&slice(&on, i + 1, on.len())))),
    };
    Ok((Some(clause), trimmed(&tail)))
}

fn parse_where(s: &Vec<char>) -> (r: (Option<String>, Vec<char>))
    ensures
        (opt_text(r.0), r.1@) == where_part(s@),
{
    if has_keyword(s, "WHERE ") || has_keyword(s, "WHERE\n") {
        let c = trimmed(&after_bytes(s, 6));
        let keywords: Vec<&str> = vec![" GROUP BY ", " ORDER BY ", " LIMIT ", " OFFSET "];
        assert(keywords@.map_values(|k: &str| k@) =~= after_condition());
        let (condition, tail) = cut_at(&c, search_first(&c, &keywords));
        return (Some(string_of(&trimmed(&condition))), tail);
    }
    match search_keyword(s, " WHERE ") {
        Some(n) => {
            let c = trimmed(&after_bytes(s, n + 7));
            (Some(string_of(&c)), c)
        },
        None => (None, copy_chars(s)),
    }
}

fn text_behind(s: &Vec<char>, start: &str, inside: &str) -> (r: Option<Vec<char>>)
    ensures
        match r {
            Some(t) => behind(s@, start@, inside@) == Some(t@),
            None => behind(s@, start@, inside@) is None,
        },
{
    let a = chars_of(start);
    let b = chars_of(inside);
    if has_keyword(s, start) {
        return Some(trimmed(&after_bytes(s, a.len() as u128)));
    }
    match search_keyword(s, inside) {
        Some(n) => Some(trimmed(&after_bytes(s, n + b.len() as u128))),
        None => None,
    }
}

fn parse_group(s: &Vec<char>) -> (r: (Option<String>, Option<String>, Vec<char>))
    ensures
        (opt_text(r.0), opt_text(r.1), r.2@) == group_part(s@),
{
    let g = match text_behind(s, "GROUP BY ", " GROUP BY ") {
        Some(g) => g,
        None => {
            return (None, None, copy_chars(s));
        },
    };
    proof {
        reveal_strlit("GROUP BY ");
        reveal_strlit(" GROUP BY ");
    }
    let keywords: Vec<&str> = vec![" ORDER BY ", " LIMIT ", " OFFSET "];
    assert(keywords@.map_values(|k: &str| k@) =~= after_group());
    match search_keyword(&g, " HAVING ") {
        Some(n) => {
            let h = trimmed(&after_bytes(&g, n + 8));
            let (having, tail) = cut_at(&h, search_first(&h, &keywords));
            (
                Some(string_of(&trimmed(&first_bytes(&g, n)))),
                Some(string_of(&trimmed(&having))),
                tail,
            )
        },
        None => {
            let (columns, tail) = cut_at(&g, search_first(&g, &keywords));
            (Some(string_of(&trimmed(&columns))), None, tail)
        },
    }
}

fn parse_order(s: &Vec<char>) -> (r: (Option<String>, Vec<char>))
    ensures
        (opt_text(r.0), r.1@) == order_part(s@),
{
    let o = match text_behind(s, "ORDER BY ", " ORDER BY ") {
        Some(o) => o,
        None => {
            return (None, copy_chars(s));
        },
    };
    let keywords: Vec<&str> = vec![" LIMIT", " OFFSET"];
    assert(keywords@.map_values(|k: &str| k@) =~= after_order());
    let end = search_first(&o, &keywords);
    let (column, tail) = cut_at(&o, end);
    let rest = if has_keyword(s, "ORDER BY ") && end.is_some() {
        tail
    } else {
        copy_chars(s)
    };
    (Some(string_of(&trimmed(&column))), rest)
}

fn parse_number(s: &Vec<char>, start: &str, inside: &str) -> (r: Option<u64>)
    ensures
        r == number_part(s@, start@, inside@),
{
    let b = match text_behind(s, start, inside) {
        Some(b) => b,
        None => {
            return None;
        },
    };
    let w = words_of(&b);
    assert(texts(w@).len() == w@.len());
    if w.len() > 0 {
        assert(texts(w@)[0] == w@[0]@);
        parse_u64(&w[0])
    } else {
        parse_u64(&chars_of("0"))
    }
}

fn parse_select(s: &Vec<char>) -> (r: Result<SQLStatement, String>)
    ensures
        statement_result(r) == select_of(s@),
{
    let all = match strip_words(s, "SELECT", "select") {
        Some(rest) => rest,
        None => {
            return Err("无法解析SELECT".to_owned());
        },
    };
    let distinct: bool = has_keyword(&all, "DISTINCT ");
    let rest = if distinct {
        trimmed(&after_bytes(&all, 9))
    } else {
        all
    };
    let from: u128 = match search_keyword(&rest, " FROM ") {
        Some(n) => n,
        None => {
            return Err("缺少FROM子句".to_owned());
        },
    };
    let names = pieces(&first_bytes(&rest, from), ',');
    let mut columns: Vec<String> = Vec::new();
    let mut i: usize = 0;
    while i < names.len()
        invariant
            i <= names.len(),
            string_texts(columns@) == texts(names@).take(i as int).map_values(
                |x: Seq<char>| lower(trim(x)),
            ),
        decreases names.len() - i,
    {
        let ghost before = columns@;
        let t = string_of(&to_lower(&trimmed(&names[i])));
        columns.push(t);
        proof {
            assert(string_texts(columns@) =~= string_texts(before).push(t@));
            assert(texts(names@).take(i + 1).map_values(|x: Seq<char>| lower(trim(x))) =~= texts(
                names@,
            ).take(i as int).map_values(|x: Seq<char>| lower(trim(x))).push(
                lower(trim(names@[i as int]@)),
            ));
        }
        i += 1;
    }
    assert(texts(names@).take(names@.len() as int) =~= texts(names@));
    let (table, tail) = match split_first_word(&trimmed(&after_bytes(&rest, from + 6))) {
        Ok(p) => p,
        Err(e) => {
            return Err(e);
        },
    };
    let (join, r0) = match parse_join(&trimmed(&tail)) {
        Ok(p) => p,
        Err(e) => {
            return Err(e);
        },
    };
    let (where_clause, r1) = parse_where(&r0);
    let (group_by, having, r2) = parse_group(&r1);
    let (order_by, r3) = parse_order(&r2);
    let limit = parse_number(&r3, "LIMIT ", " LIMIT ");
    let offset = parse_number(&r3, "OFFSET ", " OFFSET ");
    Ok(
        SQLStatement::Select {
            table_name: string_of(&to_lower(&table)),
            columns,
            where_clause,
            order_by,
            group_by,
            having,
            limit,
            offset,
            distinct,
            join,
        },
    )
}

fn parse_delete(s: &Vec<char>) -> (r: Result<SQLStatement, String>)
    ensures
        statement_result(r) == delete_of(s@),
{
    let rest = match strip_words(s, "DELETE FROM", "delete from") {
        Some(rest) => rest,
        None => {
            return Err("无法解析DELETE FROM".to_owned());
        },
    };
    let (name, rest) = match split_first_word(&rest) {
        Ok(p) => p,
        Err(e) => {
            return Err(e);
        },
    };
    let table_name = string_of(&to_lower(&name));
    let body = trimmed(&rest);
    let where_clause: Option<String> = if has_keyword(&body, "WHERE ") || has_keyword(
        &body,
        "WHERE\n",
    ) {
        Some(string_of(&trimmed(&after_bytes(&body, 6))))
    } else {
        match search_keyword(&body, " WHERE ") {
            Some(n) => Some(string_of(&trimmed(&after_bytes(&body, n + 7)))),
            None => {
                if body.len() > 0 {
                    return Err(join2("DELETE语法错误: ", string_of(s).as_str()));
                }
                None
            },
        }
    };
    Ok(SQLStatement::Delete { table_name, where_clause })
}

fn parse_update(s: &Vec<char>) -> (r: Result<SQLStatement, String>)
    ensures
        statement_result(r) == update_of(s@),
{
    let rest = match strip_words(s, "UPDATE", "update") {
        Some(rest) => rest,
        None => {
            return Err("无法解析UPDATE".to_owned());
        },
    };
    let (name, rest) = match split_first_word(&rest) {
        Ok(p) => p,
        Err(e) => {
            return Err(e);
        },
    };
    let body = trimmed(&rest);
    if !has_keyword(&body, "SET ") {
        return Err("UPDATE缺少SET子句".to_owned());
    }
    let a = trimmed(&after_bytes(&body, 4));
    let place = search_keyword(&a, " WHERE ");
    let (before, _) = cut_at(&a, place);
    let assignments = match parse_assignments(&pieces(&trimmed(&before), ',')) {
        Ok(v) => v,
        Err(e) => {
            return Err(e);
        },
    };
    let where_clause: Option<String> = match place {
        Some(n) => Some(string_of(&trimmed(&after_bytes(&a, n + 7)))),
        None => None,
    };
    Ok(
        SQLStatement::Update {
            table_name: string_of(&to_lower(&name)),
            assignments,
            where_clause,
        },
    )
}

fn parse_assignments(parts: &Vec<Vec<char>>) -> (r: Result<Vec<(String, String)>, String>)
    ensures
        match r {
            Ok(v) => assignments_of(texts(parts@)) == Ok::<
                Seq<(Seq<char>, Seq<char>)>,
                Seq<char>,
            >(assignment_views(v@)),
            Err(e) => assignments_of(texts(parts@)) == Err::<
                Seq<(Seq<char>, Seq<char>)>,
                Seq<char>,
            >(e@),
        },
{
    let mut v: Vec<(String, String)> = Vec::new();
    let mut i: usize = 0;
    assert(texts(parts@).take(0) =~= Seq::empty());
    assert(assignment_views(v@) =~= Seq::empty());
    while i < parts.len()
        invariant
            i <= parts.len(),
            assignments_of(texts(parts@).take(i as int)) == Ok::<
                Seq<(Seq<char>, Seq<char>)>,
                Seq<char>,
            >(assignment_views(v@)),
        decreases parts.len() - i,
    {
        proof {
            let p = texts(parts@);
            assert(p.take(i + 1).drop_last() =~= p.take(i as int));
            assert(p.take(i + 1).last() == parts@[i as int]@);
        }
        let t = trimmed(&parts[i]);
        let eq: usize = position_of(&t, '=');
        if eq == t.len() {
            proof {
                lemma_assignments_error(texts(parts@), i + 1);
            }
            return Err(join2("UPDATE赋值语法错误: ", string_of(&t).as_str()));
        }
        proof {
            assert(t@.take(eq as int) =~= t@.subrange(0, eq as int));
            assert(t@.skip(eq + 1) =~= t@.subrange(eq + 1, t@.len() as int));
        }
        let column = string_of(&to_lower(&trimmed(&slice(&t, 0, eq))));
        let value = string_of(&trimmed(&slice(&t, eq + 1, t.len())));
        let ghost before = v@;
        v.push((column, value));
        assert(assignment_views(v@) =~= assignment_views(before).push((column@, value@)));
        i += 1;
    }
    assert(texts(parts@).take(parts@.len() as int) =~= texts(parts@));
    Ok(v)
}

proof fn lemma_assignments_error(s: Seq<Seq<char>>, k: int)
    requires
        0 <= k <= s.len(),
        assignments_of(s.take(k)) is Err,
    ensures
        assignments_of(s) == assignments_of(s.take(k)),
    decreases s.len() - k,
{
    if k == s.len() {
        assert(s.take(k) =~= s);
    } else {
        assert(s.take(k + 1).drop_last() =~= s.take(k));
        lemma_assignments_error(s, k + 1);
    }
}

} // verus!
