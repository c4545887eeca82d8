//! What is read from the lists of statements: the columns of a new table, and the rows of
//! values that are inserted.

use vstd::prelude::*;

use crate::executor::clauses::is_name;
use crate::executor::clauses::is_name_char;
use crate::executor::clauses::lemma_name_char;
use crate::sql::list::close_index;
use crate::sql::list::is_outermost;
use crate::sql::list::list_items;
use crate::sql::list::nest_after;
use crate::sql::list::outermost;
use crate::sql::list::pieces_from;
use crate::sql::list::ListKind;
use crate::sql::list::Nest;
use crate::sql::parser::after_words;
use crate::sql::parser::column_of;
use crate::sql::parser::columns_of;
use crate::sql::parser::insert_column;
use crate::sql::parser::statement_of;
use crate::sql::parser::type_named;
use crate::sql::parser::value_rows;
use crate::sql::reading::is_clean;
use crate::sql::reading::is_head;
use crate::sql::reading::lemma_after_space;
use crate::sql::reading::lemma_capital;
use crate::sql::reading::lemma_clean_name;
use crate::sql::reading::lemma_first;
use crate::sql::reading::lemma_head;
use crate::sql::reading::lemma_head_upper;
use crate::sql::reading::lemma_heads;
use crate::sql::reading::lemma_keyword;
use crate::sql::reading::lemma_spaced;
use crate::sql::reading::spaced;
use crate::sql::script::lemma_trim_again;
use crate::sql::statement::Statement;
use crate::text::is_ascii_char;
use crate::text::is_ascii_text;
use crate::text::is_space;
use crate::text::join;
use crate::text::lemma_space_index;
use crate::text::lower;
use crate::text::split;
use crate::text::trim;
use crate::text::trim_start_kind;
use crate::text::upper;
use crate::text::words;
use crate::text::CharKind;
use crate::texts::law_trim;
use crate::texts::law_trim_char;
use crate::texts::law_trim_none;
use crate::texts::same_but_case;
use crate::types::DataType;
use crate::values::lemma_no_prefix;
use crate::values::lemma_prefix;

verus! {

// ---------------------------------------------------------------------------
// Parentheses
// ---------------------------------------------------------------------------

/// How many parentheses are open behind the first `k` characters.
pub open spec fn nesting(s: Seq<char>, k: int) -> int
    decreases k,
{
    if k <= 0 {
        0
    } else {
        nesting(s, k - 1) + if s[k - 1] == '(' {
            1int
        } else if s[k - 1] == ')' {
            -1
        } else {
            0
        }
    }
}

/// Every parenthesis that is closed was open, and in the end none is open.
pub open spec fn is_balanced(s: Seq<char>) -> bool {
    &&& forall|k: int| 0 <= k <= s.len() ==> #[trigger] nesting(s, k) >= 0
    &&& nesting(s, s.len() as int) == 0
}

/// A text with parentheses around it.
pub open spec fn enclosed(s: Seq<char>) -> Seq<char> {
    seq!['('] + s + seq![')']
}

proof fn lemma_close(s: Seq<char>, inner: Seq<char>, k: int)
    requires
        is_balanced(inner),
        inner.len() + 2 <= s.len(),
        s.subrange(1, inner.len() as int + 1) == inner,
        s[inner.len() as int + 1] == ')',
        0 <= k <= inner.len(),
    ensures
        close_index(s, k + 1, nesting(inner, k) as nat) == Some(inner.len() as int + 1),
    decreases inner.len() - k,
{
    assert(nesting(inner, k) >= 0);
    if k < inner.len() {
        assert(s.subrange(1, inner.len() as int + 1)[k] == s[k + 1]);
        assert(nesting(inner, k + 1) >= 0);
        lemma_close(s, inner, k + 1);
    }
}

/// The parenthesis that closes a balanced text is the one behind it.
pub proof fn law_close(inner: Seq<char>, rest: Seq<char>)
    requires
        is_balanced(inner),
    ensures
        close_index(enclosed(inner) + rest, 1, 0) == Some(inner.len() as int + 1),
{
    let s = enclosed(inner) + rest;
    assert(s.subrange(1, inner.len() as int + 1) =~= inner);
    lemma_close(s, inner, 0);
}

// ---------------------------------------------------------------------------
// Lists
// ---------------------------------------------------------------------------

/// The list goes on from a place as the text from there on does.
proof fn lemma_pieces_shift(s: Seq<char>, kind: ListKind, k: int, start: int, i: int, n: Nest)
    requires
        0 <= k <= s.len(),
        0 <= start <= i <= s.len() - k,
    ensures
        pieces_from(s, kind, start + k, i + k, n) == pieces_from(s.skip(k), kind, start, i, n),
        pieces_from(s.skip(k), kind, start, i, n).len() > 0,
    decreases s.len() - k - i,
{
    let t = s.skip(k);
    if i >= t.len() {
        assert(s.subrange(start + k, s.len() as int) =~= t.subrange(start, t.len() as int));
    } else {
        assert(s[i + k] == t[i]);
        if t[i] == ',' && is_outermost(n) {
            lemma_pieces_shift(s, kind, k, i + 1, i + 1, n);
            assert(s.subrange(start + k, i + k) =~= t.subrange(start, i));
        } else {
            lemma_pieces_shift(s, kind, k, start, i + 1, nest_after(kind, n, t[i]));
        }
    }
}

/// How deep the place behind the first `k` characters lies.
spec fn nest_at(kind: ListKind, p: Seq<char>, k: int) -> Nest
    decreases k,
{
    if k <= 0 {
        outermost()
    } else {
        nest_after(kind, nest_at(kind, p, k - 1), p[k - 1])
    }
}

/// A text that no comma parts, and that ends at the outermost level.
spec fn is_piece(kind: ListKind, p: Seq<char>) -> bool {
    &&& nest_at(kind, p, p.len() as int) == outermost()
    &&& forall|k: int| 0 <= k < p.len() && p[k] == ',' ==> !is_outermost(#[trigger] nest_at(kind, p, k))
}

proof fn lemma_piece(s: Seq<char>, kind: ListKind, p: Seq<char>, k: int)
    requires
        is_piece(kind, p),
        p.len() <= s.len(),
        s.take(p.len() as int) == p,
        0 <= k <= p.len(),
    ensures
        pieces_from(s, kind, 0, k, nest_at(kind, p, k)) == pieces_from(
            s,
            kind,
            0,
            p.len() as int,
            outermost(),
        ),
    decreases p.len() - k,
{
    if k < p.len() {
        assert(s.take(p.len() as int)[k] == s[k]);
        assert(p[k] == ',' ==> !is_outermost(nest_at(kind, p, k)));
        lemma_piece(s, kind, p, k + 1);
    }
}

/// A list is its first piece, and behind the comma the rest of the list.
proof fn lemma_list(kind: ListKind, p: Seq<char>, rest: Seq<char>)
    requires
        is_piece(kind, p),
        trim(p).len() > 0,
    ensures
        list_items(p, kind) == seq![trim(p)],
        list_items(p + seq![','] + rest, kind) == seq![trim(p)] + list_items(rest, kind),
{
    let n = p.len() as int;
    assert(p.take(n) =~= p);
    lemma_piece(p, kind, p, 0);
    assert(p.subrange(0, n) =~= p);
    let one = pieces_from(p, kind, 0, 0, outermost());
    assert(one == seq![p]);
    assert(one.map_values(|x: Seq<char>| trim(x)) =~= seq![trim(p)]);
    let s = p + seq![','] + rest;
    assert(s.take(n) =~= p);
    lemma_piece(s, kind, p, 0);
    assert(s[n] == ',');
    assert(s.subrange(0, n) =~= p);
    lemma_pieces_shift(s, kind, n + 1, 0, 0, outermost());
    assert(s.skip(n + 1) =~= rest);
    let all = pieces_from(s, kind, 0, 0, outermost());
    let more = pieces_from(rest, kind, 0, 0, outermost());
    assert(all == seq![p] + more);
    let (x, y) = (
        all.map_values(|x: Seq<char>| trim(x)),
        more.map_values(|x: Seq<char>| trim(x)),
    );
    assert(x =~= seq![trim(p)] + y);
    assert(x.last() == y.last());
    if y.last().len() == 0 {
        assert(x.drop_last() =~= seq![trim(p)] + y.drop_last());
    }
}

/// A text of white space.
pub open spec fn is_blank(s: Seq<char>) -> bool {
    forall|i: int| 0 <= i < s.len() ==> is_space(#[trigger] s[i])
}

/// A value as it stands in a list: a text in quotes without a quote inside, which may hold
/// commas, or anything without commas and quotes.
pub open spec fn is_item(s: Seq<char>) -> bool {
    ||| s.len() > 0 && !is_space(s[0]) && !is_space(s.last()) && !s.contains(',') && !s.contains(
        '\'',
    )
    ||| exists|t: Seq<char>|
        s == #[trigger] (seq!['\''] + t + seq!['\'']) && !t.contains('\'')
}

/// Outside of quotes nothing but a quote changes the level.
proof fn lemma_values_plain(p: Seq<char>, i: int, to: int)
    requires
        0 <= i <= to <= p.len(),
        forall|k: int| i <= k < to ==> #[trigger] p[k] != '\'',
    ensures
        nest_at(ListKind::Values, p, to) == nest_at(ListKind::Values, p, i),
        forall|k: int|
            i <= k <= to ==> #[trigger] nest_at(ListKind::Values, p, k) == nest_at(
                ListKind::Values,
                p,
                i,
            ),
    decreases to - i,
{
    if i < to {
        lemma_values_plain(p, i, to - 1);
        assert(p[to - 1] != '\'');
    }
}

proof fn lemma_item(a: Seq<char>, item: Seq<char>, b: Seq<char>)
    requires
        is_blank(a),
        is_blank(b),
        is_item(item),
    ensures
        is_piece(ListKind::Values, a + item + b),
        trim(a + item + b) == item,
        item.len() > 0,
{
    let kind = ListKind::Values;
    let p = a + item + b;
    let (n, m) = (a.len() as int, (a.len() + item.len()) as int);
    assert forall|k: int| 0 <= k < n implies #[trigger] p[k] != '\'' && p[k] != ',' by {
        assert(p[k] == a[k]);
        assert(is_space(a[k]));
    }
    assert forall|k: int| m <= k < p.len() implies #[trigger] p[k] != '\'' && p[k] != ',' by {
        assert(p[k] == b[k - m]);
        assert(is_space(b[k - m]));
    }
    if exists|t: Seq<char>| item == #[trigger] (seq!['\''] + t + seq!['\'']) && !t.contains('\'') {
        let t = choose|t: Seq<char>|
            item == #[trigger] (seq!['\''] + t + seq!['\'']) && !t.contains('\'');
        law_trim(a, item, b);
        lemma_values_plain(p, 0, n);
        assert(p[n] == item[0] && item[0] == '\'');
        let inside = Nest { quote: true, ..outermost() };
        assert(nest_at(kind, p, n + 1) == inside);
        assert forall|k: int| n + 1 <= k < m - 1 implies #[trigger] p[k] != '\'' by {
            assert(p[k] == t[k - n - 1]);
            assert(t.contains(t[k - n - 1]));
        }
        lemma_values_plain(p, n + 1, m - 1);
        assert(p[m - 1] == item.last() && item.last() == '\'');
        assert(nest_at(kind, p, m) == outermost());
        lemma_values_plain(p, m, p.len() as int);
        assert forall|k: int| 0 <= k < p.len() && p[k] == ',' implies !is_outermost(
            #[trigger] nest_at(kind, p, k),
        ) by {
            assert(n < k < m - 1);
        }
    } else {
        law_trim(a, item, b);
        assert forall|k: int| 0 <= k < p.len() implies #[trigger] p[k] != '\'' && p[k] != ',' by {
            if n <= k < m {
                assert(p[k] == item[k - n]);
                assert(item.contains(item[k - n]));
            }
        }
        lemma_values_plain(p, 0, p.len() as int);
    }
}

/// The values of a row are read between commas, without the white space around them; a
/// comma inside quotes does not part them.
pub proof fn law_value_items(a: Seq<char>, item: Seq<char>, b: Seq<char>, rest: Seq<char>)
    requires
        is_blank(a),
        is_blank(b),
        is_item(item),
    ensures
        list_items(a + item + b, ListKind::Values) == seq![item],
        list_items(a + item + b + seq![','] + rest, ListKind::Values) == seq![item] + list_items(
            rest,
            ListKind::Values,
        ),
{
    lemma_item(a, item, b);
    lemma_list(ListKind::Values, a + item + b, rest);
}

// ---------------------------------------------------------------------------
// INSERT
// ---------------------------------------------------------------------------

/// Rows of values are read one behind the other, each between parentheses, with commas
/// between them.
pub proof fn law_value_rows(inner: Seq<char>, b: Seq<char>, rest: Seq<char>)
    requires
        is_balanced(inner),
        is_blank(b),
        rest.len() > 0,
        !is_space(rest.last()),
    ensures
        value_rows(enclosed(inner)) == seq![list_items(inner, ListKind::Values)],
        value_rows(enclosed(inner) + (b + (seq![','] + rest))) == seq![
            list_items(inner, ListKind::Values),
        ] + value_rows(rest),
{
    let e = Seq::<char>::empty();
    let one = enclosed(inner);
    let n = inner.len() as int;
    law_close(inner, e);
    assert(one + e =~= one);
    law_trim_none(one);
    assert(one.subrange(1, n + 1) =~= inner);
    assert(one.skip(n + 2) =~= e);
    law_trim_none(e);
    let c = seq![','] + rest;
    let s = one + (b + c);
    assert(s[0] == '(');
    assert(s.last() == rest.last());
    law_trim_none(s);
    law_close(inner, b + c);
    assert(s.subrange(1, n + 1) =~= inner);
    assert(s.skip(n + 2) =~= b + c + e);
    assert(c.last() == rest.last());
    law_trim(b, c, e);
    assert(c.skip(1) =~= rest);
    lemma_rows_trim(rest);
}

proof fn lemma_rows_trim(s: Seq<char>)
    ensures
        value_rows(trim(s)) == value_rows(s),
{
    lemma_trim_again(s);
}

/// The columns of an `INSERT` are read in lower case, without the white space and the
/// backquotes around them.
pub proof fn law_insert_column(a: Seq<char>, name: Seq<char>, b: Seq<char>)
    requires
        is_blank(a),
        is_blank(b),
        is_name(name),
    ensures
        insert_column(a + name + b) == lower(name),
        insert_column(a + (seq!['`'] + name + seq!['`']) + b) == lower(name),
{
    lemma_clean_name(name);
    let e = Seq::<char>::empty();
    let q = seq!['`'];
    law_trim(a, name, b);
    assert(is_name_char(name[0]) && is_name_char(name[name.len() - 1]));
    law_trim_char(e, name, e, '`');
    assert(e + name + e =~= name);
    law_trim(a, q + name + q, b);
    law_trim_char(q, name, q, '`');
}

/// `INSERT INTO name (columns) VALUES rows` inserts the rows into the table of that name in
/// lower case.
pub proof fn law_read_insert(
    head: Seq<char>,
    name: Seq<char>,
    columns: Seq<char>,
    values_: Seq<char>,
    rows: Seq<char>,
)
    requires
        is_head(head, "INSERT INTO"@, "insert into"@),
        is_name(name),
        is_balanced(columns),
        is_ascii_text(columns),
        same_but_case(values_, "VALUES"@),
        is_clean(rows),
    ensures
        statement_of(
            spaced(head, spaced(name, spaced(enclosed(columns), spaced(values_, rows)))),
        ) == Ok::<Statement, Seq<char>>(
            Statement::Insert {
                table: lower(name),
                columns: split(columns, ',').map_values(|x: Seq<char>| insert_column(x)),
                values: value_rows(rows),
            },
        ),
{
    reveal_strlit("VALUES");
    lemma_capital(values_, "VALUES"@);
    let v = spaced(values_, rows);
    lemma_spaced(values_, rows);
    let o = enclosed(columns);
    lemma_enclosed(columns);
    let r = spaced(o, v);
    lemma_spaced(o, v);
    lemma_clean_name(name);
    lemma_spaced(name, r);
    lemma_dispatch_insert(head, spaced(name, r));
    lemma_first(name, r);
    lemma_insert_parts(columns, v);
    lemma_keyword(values_, "VALUES"@, rows);
}

/// What stands in the parentheses, and what stands behind them.
proof fn lemma_insert_parts(columns: Seq<char>, v: Seq<char>)
    requires
        is_balanced(columns),
        is_clean(v),
    ensures
        ({
            let r = spaced(enclosed(columns), v);
            let n = columns.len() as int;
            &&& r.len() > 0
            &&& r[0] == '('
            &&& trim(r) == r
            &&& close_index(r, 1, 0) == Some(n + 1)
            &&& r.subrange(1, n + 1) == columns
            &&& trim(r.skip(n + 2)) == v
        }),
{
    let r = spaced(enclosed(columns), v);
    let n = columns.len() as int;
    assert(r =~= enclosed(columns) + (seq![' '] + v));
    law_close(columns, seq![' '] + v);
    assert(r.subrange(1, n + 1) =~= columns);
    assert(r.skip(n + 2) =~= seq![' '] + v);
    assert(r[0] == '(');
    assert(r.last() == v.last());
    law_trim_none(r);
    lemma_after_space(v);
}

proof fn lemma_dispatch_insert(head: Seq<char>, rest: Seq<char>)
    requires
        is_head(head, "INSERT INTO"@, "insert into"@),
        is_clean(rest),
    ensures
        statement_of(spaced(head, rest)) == crate::sql::parser::insert_of(spaced(head, rest)),
        after_words(spaced(head, rest), "INSERT INTO"@, "insert into"@) == Some(rest),
{
    lemma_heads();
    lemma_head_upper(head);
    lemma_spaced(head, rest);
    lemma_head(head, "INSERT INTO"@, "insert into"@, rest);
    let u = upper(spaced(head, rest));
    let tail = seq![' '] + upper(rest);
    let w = "INSERT INTO"@;
    assert(u =~= w + tail);
    lemma_prefix(w, tail);
    lemma_no_prefix(w, tail, "CREATE TABLE"@, 0);
    lemma_no_prefix(w, tail, "DROP TABLE"@, 0);
}

proof fn lemma_enclosed(s: Seq<char>)
    requires
        is_ascii_text(s),
    ensures
        is_clean(enclosed(s)),
{
    let o = enclosed(s);
    assert forall|i: int| 0 <= i < o.len() implies is_ascii_char(#[trigger] o[i]) by {
        if 0 < i < o.len() - 1 {
            assert(o[i] == s[i - 1]);
        }
    }
}

// ---------------------------------------------------------------------------
// CREATE TABLE
// ---------------------------------------------------------------------------

/// In a list of columns the level is that of the parentheses.
proof fn lemma_columns_level(p: Seq<char>, k: int)
    requires
        0 <= k <= p.len() <= usize::MAX,
    ensures
        nest_at(ListKind::Columns, p, k) == (Nest { paren: nesting(p, k) as i128, ..outermost() }),
        -k <= nesting(p, k) <= k,
    decreases k,
{
    if k > 0 {
        lemma_columns_level(p, k - 1);
    }
}

/// The definitions of columns are read between commas, without the white space around them;
/// a comma inside parentheses does not part them.
pub proof fn law_column_items(p: Seq<char>, rest: Seq<char>)
    requires
        is_balanced(p),
        p.len() <= usize::MAX,
        trim(p).len() > 0,
        forall|k: int| 0 <= k < p.len() && p[k] == ',' ==> #[trigger] nesting(p, k) > 0,
    ensures
        list_items(p, ListKind::Columns) == seq![trim(p)],
        list_items(p + seq![','] + rest, ListKind::Columns) == seq![trim(p)] + list_items(
            rest,
            ListKind::Columns,
        ),
{
    let kind = ListKind::Columns;
    lemma_columns_level(p, p.len() as int);
    assert forall|k: int| 0 <= k < p.len() && p[k] == ',' implies !is_outermost(
        #[trigger] nest_at(kind, p, k),
    ) by {
        lemma_columns_level(p, k);
        assert(nesting(p, k) > 0);
    }
    lemma_list(kind, p, rest);
}

/// Two words with a space between them are these words.
proof fn lemma_two_words(a: Seq<char>, b: Seq<char>)
    requires
        a.len() > 0,
        b.len() > 0,
        forall|i: int| 0 <= i < a.len() ==> !is_space(#[trigger] a[i]),
        forall|i: int| 0 <= i < b.len() ==> !is_space(#[trigger] b[i]),
    ensures
        words(spaced(a, b)) == seq![a, b],
{
    let s = spaced(a, b);
    let n = a.len() as int;
    assert(!is_space(a[0]) && !is_space(b[0]));
    assert(s[0] == a[0]);
    assert(trim_start_kind(s, CharKind::Space) == s);
    assert forall|j: int| 0 <= j < n implies !is_space(#[trigger] s[j]) by {
        assert(s[j] == a[j]);
    }
    assert(s[n] == ' ');
    lemma_space_index(s, n);
    assert(s.take(n) =~= a);
    let t = s.skip(n);
    assert(t =~= seq![' '] + b);
    assert(t[0] == ' ');
    assert(t.skip(1) =~= b);
    assert(trim_start_kind(b, CharKind::Space) == b);
    assert(trim_start_kind(t, CharKind::Space) == b);
    lemma_space_index(b, b.len() as int);
    assert(b.take(b.len() as int) =~= b);
    let e = b.skip(b.len() as int);
    assert(e =~= Seq::<char>::empty());
    assert(trim_start_kind(e, CharKind::Space) == e);
    assert(words(e) == Seq::<Seq<char>>::empty());
    assert(words(t) == seq![b] + words(e));
    assert(words(t) =~= seq![b]);
    assert(words(s) =~= seq![a, b]);
}

/// A column is defined by its name, which is read in lower case, and the name of its type.
pub proof fn law_read_column(name: Seq<char>, t: Seq<char>)
    requires
        is_name(name),
        t.len() > 0,
        forall|i: int| 0 <= i < t.len() ==> !is_space(#[trigger] t[i]),
    ensures
        type_named(upper(t)) matches Ok(x) ==> column_of(spaced(name, t)) == Ok::<
            (Seq<char>, DataType),
            Seq<char>,
        >((lower(name), x)),
        type_named(upper(t)) is Err ==> column_of(spaced(name, t)) is Err,
{
    assert forall|i: int| 0 <= i < name.len() implies !is_space(#[trigger] name[i]) by {
        assert(is_name_char(name[i]));
        lemma_name_char(name[i]);
    }
    lemma_two_words(name, t);
    let w = words(spaced(name, t));
    assert(w.skip(1) =~= seq![t]);
    reveal_with_fuel(join, 2);
    assert(join(seq![t], " "@) == t);
    assert(w[0] == name);
}

/// Columns are read one by one.
pub proof fn law_read_columns(p: Seq<Seq<char>>, c: Seq<(Seq<char>, DataType)>)
    requires
        p.len() == c.len(),
        forall|i: int|
            0 <= i < p.len() ==> column_of(trim(#[trigger] p[i])) == Ok::<
                (Seq<char>, DataType),
                Seq<char>,
            >(c[i]),
    ensures
        columns_of(p) == Ok::<Seq<(Seq<char>, DataType)>, Seq<char>>(c),
    decreases p.len(),
{
    if p.len() == 0 {
        assert(c =~= Seq::empty());
    } else {
        let (q, d) = (p.drop_last(), c.drop_last());
        assert forall|i: int| 0 <= i < q.len() implies column_of(trim(#[trigger] q[i])) == Ok::<
            (Seq<char>, DataType),
            Seq<char>,
        >(d[i]) by {
            assert(q[i] == p[i]);
        }
        law_read_columns(q, d);
        let n = p.len() - 1;
        assert(column_of(trim(p[n])) == Ok::<(Seq<char>, DataType), Seq<char>>(c[n]));
        assert(d.push(c[n]) =~= c);
    }
}

/// `CREATE TABLE name (columns)` makes a table of that name in lower case, with the columns
/// that are defined.
pub proof fn law_read_create(
    head: Seq<char>,
    name: Seq<char>,
    columns: Seq<char>,
    c: Seq<(Seq<char>, DataType)>,
)
    requires
        is_head(head, "CREATE TABLE"@, "create table"@),
        is_name(name),
        is_balanced(columns),
        is_ascii_text(columns),
        columns_of(list_items(columns, ListKind::Columns)) == Ok::<
            Seq<(Seq<char>, DataType)>,
            Seq<char>,
        >(c),
    ensures
        statement_of(spaced(head, spaced(name, enclosed(columns)))) == Ok::<Statement, Seq<char>>(
            Statement::CreateTable { name: lower(name), columns: c },
        ),
{
    let o = enclosed(columns);
    lemma_enclosed(columns);
    lemma_clean_name(name);
    lemma_spaced(name, o);
    let rest = spaced(name, o);
    lemma_heads();
    lemma_head_upper(head);
    lemma_spaced(head, rest);
    lemma_head(head, "CREATE TABLE"@, "create table"@, rest);
    let u = upper(spaced(head, rest));
    let tail = seq![' '] + upper(rest);
    let w = "CREATE TABLE"@;
    assert(u =~= w + tail);
    lemma_prefix(w, tail);
    lemma_first(name, o);
    law_trim_none(o);
    let e = Seq::<char>::empty();
    law_close(columns, e);
    assert(o + e =~= o);
    assert(o.subrange(1, columns.len() as int + 1) =~= columns);
}

} // verus!
