//! What is read from statements as they are written.

use vstd::prelude::*;

use crate::executor::clauses::is_name;
use crate::executor::clauses::is_name_char;
use crate::executor::clauses::lemma_ascii_concat;
use crate::executor::clauses::lemma_name;
use crate::executor::clauses::lemma_name_char;
use crate::sql::parser::after_words;
use crate::sql::parser::assignment_of;
use crate::sql::parser::assignments_of;
use crate::sql::parser::first_word;
use crate::sql::parser::statement_of;
use crate::sql::statement::Statement;
use crate::text::find_keyword;
use crate::text::is_ascii_text;
use crate::text::is_space;
use crate::text::lemma_ascii_bytes;
use crate::text::lemma_index_of_is;
use crate::text::lemma_space_index;
use crate::text::lower;
use crate::text::skip_bytes;
use crate::text::split;
use crate::text::starts_with;
use crate::text::starts_with_keyword;
use crate::text::trim;
use crate::text::upper;
use crate::text::words;
use crate::texts::law_case;
use crate::texts::law_find_keyword;
use crate::texts::law_same_case;
use crate::texts::law_trim;
use crate::texts::law_trim_none;
use crate::texts::same_but_case;
use crate::texts::stands_at;
use crate::values::lemma_no_prefix;
use crate::values::lemma_prefix;

verus! {

// ---------------------------------------------------------------------------
// Words
// ---------------------------------------------------------------------------

/// An ASCII text that neither begins nor ends with white space.
pub open spec fn is_clean(s: Seq<char>) -> bool {
    s.len() > 0 && is_ascii_text(s) && !is_space(s[0]) && !is_space(s.last())
}

/// Two texts with a space between them.
pub open spec fn spaced(a: Seq<char>, b: Seq<char>) -> Seq<char> {
    a + seq![' '] + b
}

/// A word of capital letters.
pub open spec fn is_capital(w: Seq<char>) -> bool {
    w.len() > 0 && forall|i: int| 0 <= i < w.len() ==> 'A' <= #[trigger] w[i] && w[i] <= 'Z'
}

pub proof fn lemma_clean_name(name: Seq<char>)
    requires
        is_name(name),
    ensures
        is_clean(name),
{
    lemma_name(name);
    lemma_name_char(name[0]);
    lemma_name_char(name[name.len() - 1]);
}

pub proof fn lemma_spaced(a: Seq<char>, b: Seq<char>)
    requires
        is_clean(a),
        is_clean(b),
    ensures
        is_clean(spaced(a, b)),
        trim(spaced(a, b)) == spaced(a, b),
        upper(spaced(a, b)) == spaced(upper(a), upper(b)),
{
    let s = spaced(a, b);
    let x = seq![' '];
    assert(is_ascii_text(x));
    assert(upper(x) =~= x);
    lemma_ascii_concat(a, x);
    lemma_ascii_concat(a + x, b);
    assert(s[0] == a[0]);
    assert(s.last() == b.last());
    law_trim_none(s);
}

/// A text behind white space is the text.
pub proof fn lemma_after_space(b: Seq<char>)
    requires
        b.len() > 0,
        !is_space(b[0]),
        !is_space(b.last()),
    ensures
        trim(seq![' '] + b) == b,
        trim(b) == b,
{
    let e = Seq::<char>::empty();
    law_trim(seq![' '], b, e);
    assert(seq![' '] + b + e =~= seq![' '] + b);
    law_trim_none(b);
}

/// A word in capital letters is its own upper case, and that of the word in other letters.
pub proof fn lemma_capital(w: Seq<char>, big: Seq<char>)
    requires
        is_capital(big),
        same_but_case(w, big),
    ensures
        upper(w) == big,
        is_clean(w),
        w.len() == big.len(),
{
    law_same_case(w, big);
    law_case(big);
    assert forall|i: int| 0 <= i < big.len() implies upper(big)[i] == big[i] by {
        assert('A' <= big[i] && big[i] <= 'Z');
        assert(upper(big)[i] as u32 == big[i] as u32);
    }
    assert(upper(big) =~= big);
    let n = w.len() - 1;
    assert('A' <= big[0] && big[0] <= 'Z');
    assert('A' <= big[n] && big[n] <= 'Z');
    assert(w[0] == big[0] || w[0] != big[0]);
    assert(w[n] == big[n] || w[n] != big[n]);
}

/// A keyword at the start of a text is found, and what follows it.
pub proof fn lemma_keyword(w: Seq<char>, big: Seq<char>, rest: Seq<char>)
    requires
        is_capital(big),
        same_but_case(w, big),
        is_clean(rest),
    ensures
        starts_with_keyword(spaced(w, rest), big + seq![' ']),
        starts_with_keyword(spaced(w, rest), big),
        skip_bytes(spaced(w, rest), big.len() as int + 1) == rest,
        trim(skip_bytes(spaced(w, rest), big.len() as int)) == rest,
{
    lemma_capital(w, big);
    lemma_spaced(w, rest);
    let s = spaced(w, rest);
    let n = big.len() as int;
    assert(upper(s).subrange(0, n + 1) =~= big + seq![' ']);
    assert(upper(s).subrange(0, n) =~= big);
    lemma_ascii_bytes(s, n + 1);
    lemma_ascii_bytes(s, n);
    assert(s.skip(n + 1) =~= rest);
    assert(s.skip(n) =~= seq![' '] + rest);
    lemma_after_space(rest);
}

/// A text that differs from a keyword does not start with it.
pub proof fn lemma_not_keyword(s: Seq<char>, word: Seq<char>, i: int)
    requires
        is_ascii_text(s),
        0 <= i < word.len(),
        i < s.len() ==> upper(s)[i] != word[i],
    ensures
        !starts_with_keyword(s, word),
{
    law_case(s);
    let u = upper(s);
    if starts_with(u, word) {
        assert(u.subrange(0, word.len() as int)[i] == u[i]);
    }
}

/// The first word of a text is what stands before its first space.
pub proof fn lemma_first(name: Seq<char>, rest: Seq<char>)
    requires
        is_name(name),
        is_clean(rest),
    ensures
        first_word(spaced(name, rest)) == Ok::<(Seq<char>, Seq<char>), Seq<char>>((name, rest)),
{
    lemma_clean_name(name);
    lemma_spaced(name, rest);
    let s = spaced(name, rest);
    let n = name.len() as int;
    assert forall|j: int| 0 <= j < n implies !is_space(#[trigger] s[j]) by {
        assert(s[j] == name[j]);
        assert(is_name_char(name[j]));
        lemma_name_char(name[j]);
    }
    assert(s[n] == ' ');
    lemma_space_index(s, n);
    assert(s.take(n) =~= name);
    assert(s.skip(n) =~= seq![' '] + rest);
    lemma_after_space(rest);
}

/// A name alone is its first word.
pub proof fn lemma_only(name: Seq<char>)
    requires
        is_name(name),
    ensures
        first_word(name) == Ok::<(Seq<char>, Seq<char>), Seq<char>>((name, Seq::empty())),
{
    lemma_name(name);
    let n = name.len() as int;
    assert forall|j: int| 0 <= j < n implies !is_space(#[trigger] name[j]) by {
        assert(is_name_char(name[j]));
        lemma_name_char(name[j]);
    }
    lemma_space_index(name, n);
    assert(name.take(n) =~= name);
    let e = Seq::<char>::empty();
    assert(name.skip(n) =~= e);
    law_trim_none(e);
}

/// The words at the head of a statement, all in upper or all in lower case.
pub open spec fn is_head(head: Seq<char>, up: Seq<char>, low: Seq<char>) -> bool {
    head == up || head == low
}

pub proof fn lemma_head(head: Seq<char>, up: Seq<char>, low: Seq<char>, rest: Seq<char>)
    requires
        is_head(head, up, low),
        is_clean(up),
        is_clean(low),
        up[0] != low[0],
        is_clean(rest),
    ensures
        after_words(spaced(head, rest), up, low) == Some(rest),
{
    let s = spaced(head, rest);
    lemma_spaced(head, rest);
    assert(s =~= head + (seq![' '] + rest));
    lemma_prefix(head, seq![' '] + rest);
    assert(s.skip(head.len() as int) =~= seq![' '] + rest);
    lemma_after_space(rest);
    if head == low && low != up {
        lemma_no_prefix(low, seq![' '] + rest, up, 0);
    }
}

pub proof fn lemma_heads()
    ensures
        is_clean("CREATE TABLE"@) && is_clean("create table"@),
        is_clean("DROP TABLE"@) && is_clean("drop table"@),
        is_clean("INSERT INTO"@) && is_clean("insert into"@),
        is_clean("DELETE FROM"@) && is_clean("delete from"@),
        is_clean("UPDATE"@) && is_clean("update"@),
        is_clean("SELECT"@) && is_clean("select"@),
        "CREATE TABLE"@[0] == 'C' && "create table"@[0] == 'c',
        "DROP TABLE"@[0] == 'D' && "drop table"@[0] == 'd',
        "INSERT INTO"@[0] == 'I' && "insert into"@[0] == 'i',
        "DELETE FROM"@[0] == 'D' && "delete from"@[0] == 'd',
        "UPDATE"@[0] == 'U' && "update"@[0] == 'u',
        "SELECT"@[0] == 'S' && "select"@[0] == 's',
        "DROP TABLE"@[1] == 'R' && "DELETE FROM"@[1] == 'E',
        "DROP TABLE"@.len() > 1 && "DELETE FROM"@.len() > 1,
        "UPDATE "@ == "UPDATE"@ + seq![' '],
{
    reveal_strlit("CREATE TABLE");
    reveal_strlit("create table");
    reveal_strlit("DROP TABLE");
    reveal_strlit("drop table");
    reveal_strlit("INSERT INTO");
    reveal_strlit("insert into");
    reveal_strlit("DELETE FROM");
    reveal_strlit("delete from");
    reveal_strlit("UPDATE");
    reveal_strlit("update");
    reveal_strlit("UPDATE ");
    reveal_strlit("SELECT");
    reveal_strlit("select");
    assert("UPDATE "@ =~= "UPDATE"@ + seq![' ']);
}

/// The upper case of a head in either case is the head in upper case.
pub proof fn lemma_head_upper(head: Seq<char>)
    ensures
        is_head(head, "CREATE TABLE"@, "create table"@) ==> upper(head) == "CREATE TABLE"@,
        is_head(head, "DROP TABLE"@, "drop table"@) ==> upper(head) == "DROP TABLE"@,
        is_head(head, "INSERT INTO"@, "insert into"@) ==> upper(head) == "INSERT INTO"@,
        is_head(head, "DELETE FROM"@, "delete from"@) ==> upper(head) == "DELETE FROM"@,
        is_head(head, "UPDATE"@, "update"@) ==> upper(head) == "UPDATE"@,
        is_head(head, "SELECT"@, "select"@) ==> upper(head) == "SELECT"@,
{
    reveal_strlit("CREATE TABLE");
    reveal_strlit("create table");
    reveal_strlit("DROP TABLE");
    reveal_strlit("drop table");
    reveal_strlit("INSERT INTO");
    reveal_strlit("insert into");
    reveal_strlit("DELETE FROM");
    reveal_strlit("delete from");
    reveal_strlit("UPDATE");
    reveal_strlit("update");
    reveal_strlit("SELECT");
    reveal_strlit("select");
    if is_head(head, "CREATE TABLE"@, "create table"@) {
        lemma_upper_is(head, "CREATE TABLE"@);
    }
    if is_head(head, "DROP TABLE"@, "drop table"@) {
        lemma_upper_is(head, "DROP TABLE"@);
    }
    if is_head(head, "INSERT INTO"@, "insert into"@) {
        lemma_upper_is(head, "INSERT INTO"@);
    }
    if is_head(head, "DELETE FROM"@, "delete from"@) {
        lemma_upper_is(head, "DELETE FROM"@);
    }
    if is_head(head, "UPDATE"@, "update"@) {
        lemma_upper_is(head, "UPDATE"@);
    }
    if is_head(head, "SELECT"@, "select"@) {
        lemma_upper_is(head, "SELECT"@);
    }
}

proof fn lemma_upper_is(s: Seq<char>, big: Seq<char>)
    requires
        same_but_case(s, big),
        forall|i: int| 0 <= i < big.len() ==> !('a' <= #[trigger] big[i] && big[i] <= 'z'),
    ensures
        upper(s) == big,
{
    law_same_case(s, big);
    law_case(big);
    assert forall|i: int| 0 <= i < big.len() implies upper(big)[i] == big[i] by {
        assert(upper(big)[i] as u32 == big[i] as u32);
    }
    assert(upper(big) =~= big);
}

// ---------------------------------------------------------------------------
// DROP TABLE and DELETE
// ---------------------------------------------------------------------------

/// `DROP TABLE name`, with or without `IF EXISTS`, drops the table of that name in lower
/// case.
pub proof fn law_read_drop(head: Seq<char>, name: Seq<char>, exists_: Seq<char>)
    requires
        is_head(head, "DROP TABLE"@, "drop table"@),
        is_name(name),
        same_but_case(exists_, "IF EXISTS"@),
    ensures
        statement_of(spaced(head, name)) == Ok::<Statement, Seq<char>>(
            Statement::DropTable { table: lower(name) },
        ),
        statement_of(spaced(head, spaced(exists_, name))) == Ok::<Statement, Seq<char>>(
            Statement::DropTable { table: lower(name) },
        ),
{
    reveal_strlit("IF EXISTS");
    reveal_strlit("IF EXISTS ");
    lemma_clean_name(name);
    lemma_dispatch_drop(head, name);
    lemma_name(name);
    assert(!starts_with_keyword(name, "IF EXISTS "@)) by {
        let u = upper(name);
        if starts_with(u, "IF EXISTS "@) {
            assert(u.subrange(0, 10)[2] == u[2]);
            assert(is_name_char(u[2]));
        }
    }
    lemma_only(name);
    let w = "IF EXISTS"@;
    lemma_upper_is(exists_, w);
    assert(is_clean(exists_)) by {
        assert(exists_[0] == w[0] || exists_[0] != w[0]);
        assert(exists_[8] == w[8] || exists_[8] != w[8]);
        assert(exists_.last() == exists_[8]);
    }
    lemma_spaced(exists_, name);
    let r = spaced(exists_, name);
    lemma_dispatch_drop(head, r);
    assert(upper(r).subrange(0, 10) =~= "IF EXISTS "@);
    lemma_ascii_bytes(r, 10);
    assert(r.skip(10) =~= name);
}

proof fn lemma_dispatch_drop(head: Seq<char>, rest: Seq<char>)
    requires
        is_head(head, "DROP TABLE"@, "drop table"@),
        is_clean(rest),
    ensures
        statement_of(spaced(head, rest)) == crate::sql::parser::drop_table_of(spaced(head, rest)),
        after_words(spaced(head, rest), "DROP TABLE"@, "drop table"@) == Some(rest),
{
    lemma_heads();
    lemma_head_upper(head);
    lemma_spaced(head, rest);
    lemma_head(head, "DROP TABLE"@, "drop table"@, rest);
    let u = upper(spaced(head, rest));
    let tail = seq![' '] + upper(rest);
    assert(u =~= "DROP TABLE"@ + tail);
    lemma_prefix("DROP TABLE"@, tail);
    lemma_no_prefix("DROP TABLE"@, tail, "CREATE TABLE"@, 0);
}

proof fn lemma_dispatch_delete(head: Seq<char>, rest: Seq<char>)
    requires
        is_head(head, "DELETE FROM"@, "delete from"@),
        is_clean(rest),
    ensures
        statement_of(spaced(head, rest)) == crate::sql::parser::delete_of(spaced(head, rest)),
        after_words(spaced(head, rest), "DELETE FROM"@, "delete from"@) == Some(rest),
{
    lemma_heads();
    lemma_head_upper(head);
    lemma_spaced(head, rest);
    lemma_head(head, "DELETE FROM"@, "delete from"@, rest);
    let u = upper(spaced(head, rest));
    let tail = seq![' '] + upper(rest);
    let w = "DELETE FROM"@;
    assert(u =~= w + tail);
    lemma_prefix(w, tail);
    lemma_no_prefix(w, tail, "CREATE TABLE"@, 0);
    lemma_no_prefix(w, tail, "DROP TABLE"@, 1);
    lemma_no_prefix(w, tail, "INSERT INTO"@, 0);
    lemma_no_prefix(w, tail, "SELECT"@, 0);
}

/// `DELETE FROM name` is about all rows of the table, `DELETE FROM name WHERE condition`
/// about those that meet the condition, which is kept as it is written.
pub proof fn law_read_delete(
    head: Seq<char>,
    name: Seq<char>,
    where_: Seq<char>,
    condition: Seq<char>,
)
    requires
        is_head(head, "DELETE FROM"@, "delete from"@),
        is_name(name),
        same_but_case(where_, "WHERE"@),
        is_clean(condition),
    ensures
        statement_of(spaced(head, name)) == Ok::<Statement, Seq<char>>(
            Statement::Delete { table: lower(name), condition: None },
        ),
        statement_of(spaced(head, spaced(name, spaced(where_, condition)))) == Ok::<
            Statement,
            Seq<char>,
        >(Statement::Delete { table: lower(name), condition: Some(condition) }),
{
    reveal_strlit("WHERE");
    reveal_strlit("WHERE ");
    reveal_strlit("WHERE\n");
    reveal_strlit(" WHERE ");
    lemma_clean_name(name);
    lemma_dispatch_delete(head, name);
    lemma_only(name);
    let e = Seq::<char>::empty();
    law_trim_none(e);
    assert(is_ascii_text(e));
    lemma_not_keyword(e, "WHERE "@, 0);
    lemma_not_keyword(e, "WHERE\n"@, 0);
    law_find_keyword(e, " WHERE "@);
    assert(find_keyword(e, " WHERE "@) is None) by {
        law_case(e);
    }
    lemma_capital(where_, "WHERE"@);
    assert("WHERE "@ =~= "WHERE"@ + seq![' ']);
    lemma_spaced(where_, condition);
    let c = spaced(where_, condition);
    lemma_spaced(name, c);
    lemma_dispatch_delete(head, spaced(name, c));
    lemma_first(name, c);
    lemma_keyword(where_, "WHERE"@, condition);
    law_trim_none(condition);
}

// ---------------------------------------------------------------------------
// UPDATE
// ---------------------------------------------------------------------------

/// Behind a text in which it does not stand, a keyword is found where it stands.
pub proof fn lemma_find_word(a: Seq<char>, w: Seq<char>, big: Seq<char>, rest: Seq<char>)
    requires
        is_clean(a),
        is_capital(big),
        same_but_case(w, big),
        is_clean(rest),
        forall|i: int| !#[trigger] stands_at(upper(a), big, i),
    ensures
        ({
            let s = spaced(a, spaced(w, rest));
            let key = seq![' '] + big + seq![' '];
            &&& find_keyword(s, key) == Some(a.len() as int)
            &&& crate::text::take_bytes(s, a.len() as int) == a
            &&& skip_bytes(s, a.len() as int + key.len()) == rest
        }),
{
    let s = spaced(a, spaced(w, rest));
    let key = seq![' '] + big + seq![' '];
    lemma_capital(w, big);
    lemma_spaced(w, rest);
    lemma_spaced(a, spaced(w, rest));
    let u = upper(s);
    let n = a.len() as int;
    law_case(a);
    law_find_keyword(s, key);
    assert(u =~= upper(a) + seq![' '] + (big + seq![' '] + upper(rest)));
    assert(u.subrange(n, n + key.len()) =~= key);
    assert(stands_at(u, key, n));
    let f = find_keyword(s, key)->0;
    if f < n {
        lemma_not_before(upper(a), big, big + seq![' '] + upper(rest), f);
    }
    assert(s.take(n) =~= a);
    assert(s.skip(n + key.len()) =~= rest);
}

/// A word between spaces does not stand across the end of a text that does not hold it.
proof fn lemma_not_before(a: Seq<char>, big: Seq<char>, rest: Seq<char>, f: int)
    requires
        is_capital(big),
        forall|i: int| !#[trigger] stands_at(a, big, i),
        f < a.len(),
    ensures
        !stands_at(spaced(a, rest), seq![' '] + big + seq![' '], f),
{
    let u = spaced(a, rest);
    let key = seq![' '] + big + seq![' '];
    if stands_at(u, key, f) {
        let x = u.subrange(f, f + key.len());
        let n = a.len() as int;
        if f + 1 + big.len() <= n {
            assert forall|j: int| 0 <= j < big.len() implies a[f + 1 + j] == big[j] by {
                assert(x[j + 1] == u[f + 1 + j]);
            }
            assert(a.subrange(f + 1, f + 1 + big.len()) =~= big);
            assert(stands_at(a, big, f + 1));
        } else {
            let j = n - f;
            assert(x[j] == u[n] && u[n] == ' ');
            assert(key[j] == big[j - 1]);
            assert('A' <= big[j - 1]);
        }
    }
}

/// A keyword that does not stand in a text is not found in it.
pub proof fn lemma_no_word(a: Seq<char>, big: Seq<char>)
    requires
        is_ascii_text(a),
        forall|i: int| !#[trigger] stands_at(upper(a), big, i),
    ensures
        find_keyword(a, seq![' '] + big + seq![' ']) is None,
{
    let key = seq![' '] + big + seq![' '];
    let u = upper(a);
    law_find_keyword(a, key);
    assert forall|i: int| !#[trigger] stands_at(u, key, i) by {
        if stands_at(u, key, i) {
            let x = u.subrange(i, i + key.len());
            assert forall|j: int| 0 <= j < big.len() implies u[i + 1 + j] == big[j] by {
                assert(x[j + 1] == u[i + 1 + j]);
            }
            assert(u.subrange(i + 1, i + 1 + big.len()) =~= big);
            assert(stands_at(u, big, i + 1));
        }
    }
}

proof fn lemma_dispatch_update(head: Seq<char>, rest: Seq<char>)
    requires
        is_head(head, "UPDATE"@, "update"@),
        is_clean(rest),
    ensures
        statement_of(spaced(head, rest)) == crate::sql::parser::update_of(spaced(head, rest)),
        after_words(spaced(head, rest), "UPDATE"@, "update"@) == Some(rest),
{
    lemma_heads();
    lemma_head_upper(head);
    lemma_spaced(head, rest);
    lemma_head(head, "UPDATE"@, "update"@, rest);
    let u = upper(spaced(head, rest));
    let w = "UPDATE "@;
    assert(u =~= w + upper(rest));
    lemma_prefix(w, upper(rest));
    lemma_no_prefix(w, upper(rest), "CREATE TABLE"@, 0);
    lemma_no_prefix(w, upper(rest), "DROP TABLE"@, 0);
    lemma_no_prefix(w, upper(rest), "INSERT INTO"@, 0);
    lemma_no_prefix(w, upper(rest), "SELECT"@, 0);
    lemma_no_prefix(w, upper(rest), "DELETE FROM"@, 0);
}

/// An assignment is read as the column, in lower case, and the text behind the first equals
/// sign, with spaces around the sign or without.
pub proof fn law_read_assignment(column: Seq<char>, value: Seq<char>)
    requires
        is_name(column),
        value.len() > 0,
        !is_space(value[0]),
        !is_space(value.last()),
    ensures
        assignment_of(column + seq!['='] + value) == Ok::<(Seq<char>, Seq<char>), Seq<char>>(
            (lower(column), value),
        ),
        assignment_of(spaced(column, spaced(seq!['='], value))) == Ok::<
            (Seq<char>, Seq<char>),
            Seq<char>,
        >((lower(column), value)),
        assignment_of(seq![' '] + spaced(column, spaced(seq!['='], value))) == Ok::<
            (Seq<char>, Seq<char>),
            Seq<char>,
        >((lower(column), value)),
{
    let n = column.len() as int;
    lemma_name(column);
    lemma_clean_name(column);
    let s = column + seq!['='] + value;
    assert(s[0] == column[0] && s.last() == value.last());
    law_trim_none(s);
    assert forall|j: int| 0 <= j < n implies s[j] != '=' by {
        assert(s[j] == column[j]);
        assert(is_name_char(column[j]));
    }
    lemma_index_of_is(s, '=', n);
    assert(s.take(n) =~= column);
    assert(s.skip(n + 1) =~= value);
    law_trim_none(value);
    let t = spaced(column, spaced(seq!['='], value));
    assert(t[0] == column[0] && t.last() == value.last());
    law_trim_none(t);
    lemma_after_space(t);
    assert forall|j: int| 0 <= j < n + 1 implies t[j] != '=' by {
        if j < n {
            assert(t[j] == column[j]);
            assert(is_name_char(column[j]));
        }
    }
    lemma_index_of_is(t, '=', n + 1);
    let e = Seq::<char>::empty();
    assert(t.take(n + 1) =~= e + column + seq![' ']);
    law_trim(e, column, seq![' ']);
    assert(t.skip(n + 2) =~= seq![' '] + value);
    lemma_after_space(value);
}

/// Assignments are read one by one.
pub proof fn law_read_assignments(p: Seq<Seq<char>>, a: Seq<(Seq<char>, Seq<char>)>)
    requires
        p.len() == a.len(),
        forall|i: int|
            0 <= i < p.len() ==> assignment_of(#[trigger] p[i]) == Ok::<
                (Seq<char>, Seq<char>),
                Seq<char>,
            >(a[i]),
    ensures
        assignments_of(p) == Ok::<Seq<(Seq<char>, Seq<char>)>, Seq<char>>(a),
    decreases p.len(),
{
    if p.len() == 0 {
        assert(a =~= Seq::empty());
    } else {
        let (q, b) = (p.drop_last(), a.drop_last());
        assert forall|i: int| 0 <= i < q.len() implies assignment_of(#[trigger] q[i]) == Ok::<
            (Seq<char>, Seq<char>),
            Seq<char>,
        >(b[i]) by {
            assert(q[i] == p[i]);
        }
        law_read_assignments(q, b);
        let n = p.len() - 1;
        assert(assignment_of(p[n]) == Ok::<(Seq<char>, Seq<char>), Seq<char>>(a[n]));
        assert(b.push(a[n]) =~= a);
    }
}

/// `UPDATE name SET assignments`, with or without a condition, sets what its assignments,
/// between commas, say in the rows that meet the condition, or in all.
pub proof fn law_read_update(
    head: Seq<char>,
    name: Seq<char>,
    set_: Seq<char>,
    text: Seq<char>,
    where_: Seq<char>,
    condition: Seq<char>,
    a: Seq<(Seq<char>, Seq<char>)>,
)
    requires
        is_head(head, "UPDATE"@, "update"@),
        is_name(name),
        same_but_case(set_, "SET"@),
        same_but_case(where_, "WHERE"@),
        is_clean(text),
        is_clean(condition),
        forall|i: int| !#[trigger] stands_at(upper(text), "WHERE"@, i),
        assignments_of(split(text, ',')) == Ok::<Seq<(Seq<char>, Seq<char>)>, Seq<char>>(a),
    ensures
        statement_of(spaced(head, spaced(name, spaced(set_, text)))) == Ok::<Statement, Seq<char>>(
            Statement::Update { table: lower(name), assignments: a, condition: None },
        ),
        statement_of(
            spaced(head, spaced(name, spaced(set_, spaced(text, spaced(where_, condition))))),
        ) == Ok::<Statement, Seq<char>>(
            Statement::Update { table: lower(name), assignments: a, condition: Some(condition) },
        ),
{
    reveal_strlit("SET");
    reveal_strlit("SET ");
    reveal_strlit("WHERE");
    reveal_strlit(" WHERE ");
    assert("SET "@ =~= "SET"@ + seq![' ']);
    assert(" WHERE "@ =~= seq![' '] + "WHERE"@ + seq![' ']);
    lemma_clean_name(name);
    lemma_capital(set_, "SET"@);
    lemma_capital(where_, "WHERE"@);
    lemma_spaced(set_, text);
    lemma_spaced(name, spaced(set_, text));
    lemma_dispatch_update(head, spaced(name, spaced(set_, text)));
    lemma_first(name, spaced(set_, text));
    lemma_keyword(set_, "SET"@, text);
    law_trim_none(text);
    lemma_no_word(text, "WHERE"@);
    lemma_spaced(where_, condition);
    let full = spaced(text, spaced(where_, condition));
    lemma_spaced(text, spaced(where_, condition));
    lemma_spaced(set_, full);
    lemma_spaced(name, spaced(set_, full));
    lemma_dispatch_update(head, spaced(name, spaced(set_, full)));
    lemma_first(name, spaced(set_, full));
    lemma_keyword(set_, "SET"@, full);
    lemma_find_word(text, where_, "WHERE"@, condition);
    law_trim_none(condition);
}

// ---------------------------------------------------------------------------
// What is no statement
// ---------------------------------------------------------------------------

/// A text that begins with none of the words that statements begin with is no statement, and
/// a blank text is no script.
pub proof fn law_no_statement(s: Seq<char>)
    ensures
        !starts_with_keyword(trim(s), "CREATE TABLE"@) && !starts_with_keyword(
            trim(s),
            "DROP TABLE"@,
        ) && !starts_with_keyword(trim(s), "INSERT INTO"@) && !starts_with_keyword(
            trim(s),
            "SELECT"@,
        ) && !starts_with_keyword(trim(s), "DELETE FROM"@) && !starts_with_keyword(
            trim(s),
            "UPDATE "@,
        ) ==> statement_of(s) is Err,
        trim(s).len() == 0 ==> crate::sql::parser::script_of(s) is Err,
{
}

/// What stands between the table of a `DELETE` and its `WHERE` is passed over; without a
/// `WHERE` it is refused.
pub proof fn law_read_delete_inside(
    head: Seq<char>,
    name: Seq<char>,
    x: Seq<char>,
    where_: Seq<char>,
    condition: Seq<char>,
)
    requires
        is_head(head, "DELETE FROM"@, "delete from"@),
        is_name(name),
        is_clean(x),
        forall|i: int| !#[trigger] stands_at(upper(x), "WHERE"@, i),
        same_but_case(where_, "WHERE"@),
        is_clean(condition),
    ensures
        statement_of(
            spaced(head, spaced(name, spaced(x, spaced(where_, condition)))),
        ) == Ok::<Statement, Seq<char>>(
            Statement::Delete { table: lower(name), condition: Some(condition) },
        ),
        statement_of(spaced(head, spaced(name, x))) is Err,
{
    reveal_strlit("WHERE");
    reveal_strlit("WHERE ");
    reveal_strlit("WHERE\n");
    reveal_strlit(" WHERE ");
    assert(" WHERE "@ =~= seq![' '] + "WHERE"@ + seq![' ']);
    lemma_clean_name(name);
    lemma_spaced(name, x);
    lemma_dispatch_delete(head, spaced(name, x));
    lemma_first(name, x);
    law_trim_none(x);
    lemma_no_word(x, "WHERE"@);
    lemma_not_where(x, Seq::empty());
    assert(x + Seq::<char>::empty() =~= x);
    lemma_capital(where_, "WHERE"@);
    let t = spaced(where_, condition);
    lemma_spaced(where_, condition);
    let r = spaced(x, t);
    lemma_spaced(x, t);
    lemma_spaced(name, r);
    lemma_dispatch_delete(head, spaced(name, r));
    lemma_first(name, r);
    lemma_find_word(x, where_, "WHERE"@, condition);
    law_trim_none(condition);
    lemma_not_where(x, seq![' '] + t);
    assert(r =~= x + (seq![' '] + t));
}

/// A text that does not hold `WHERE` does not begin with it, whatever follows behind a space.
pub proof fn lemma_not_where(x: Seq<char>, rest: Seq<char>)
    requires
        is_clean(x),
        is_ascii_text(x + rest),
        rest.len() > 0 ==> rest[0] == ' ',
        forall|i: int| !#[trigger] stands_at(upper(x), "WHERE"@, i),
    ensures
        !starts_with_keyword(x + rest, "WHERE "@),
        !starts_with_keyword(x + rest, "WHERE\n"@),
{
    reveal_strlit("WHERE");
    reveal_strlit("WHERE ");
    reveal_strlit("WHERE\n");
    let s = x + rest;
    law_case(s);
    law_case(x);
    let u = upper(s);
    if starts_with(u, "WHERE "@) || starts_with(u, "WHERE\n"@) {
        let z = u.subrange(0, 6);
        let n = x.len() as int;
        assert forall|i: int| 0 <= i < 5 implies u[i] == "WHERE"@[i] by {
            assert(z[i] == u[i]);
        }
        if n >= 5 {
            assert forall|i: int| 0 <= i < 5 implies upper(x)[i] == "WHERE"@[i] by {
                assert(s[i] == x[i]);
                assert(u[i] as u32 == upper(x)[i] as u32);
            }
            assert(upper(x).subrange(0, 5) =~= "WHERE"@);
            assert(stands_at(upper(x), "WHERE"@, 0));
        } else {
            assert(s[n] == rest[0]);
            assert(u[n] as u32 == ' ' as u32);
            assert("WHERE"@[n] != ' ');
        }
    }
}

} // verus!
