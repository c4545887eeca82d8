//! What is read from a query as it is written.

use vstd::prelude::*;

use crate::executor::clauses::is_name;
use crate::executor::clauses::is_name_char;
use crate::executor::clauses::lemma_ascii_concat;
use crate::number::is_digit;
use crate::number::law_read_shown_nat;
use crate::number::lemma_show_nat;
use crate::number::show_nat;
use crate::sql::parser::after_condition;
use crate::sql::parser::after_group;
use crate::sql::parser::after_on;
use crate::sql::parser::after_order;
use crate::sql::parser::after_words;
use crate::sql::parser::behind;
use crate::sql::parser::cut;
use crate::sql::parser::first_found;
use crate::sql::parser::first_word;
use crate::sql::parser::group_part;
use crate::sql::parser::join_part;
use crate::sql::parser::number_part;
use crate::sql::parser::order_part;
use crate::sql::parser::select_columns;
use crate::sql::parser::select_of;
use crate::sql::parser::statement_of;
use crate::sql::parser::where_part;
use crate::sql::reading::is_capital;
use crate::sql::reading::is_clean;
use crate::sql::reading::is_head;
use crate::sql::reading::lemma_after_space;
use crate::sql::reading::lemma_clean_name;
use crate::sql::reading::lemma_first;
use crate::sql::reading::lemma_head;
use crate::sql::reading::lemma_head_upper;
use crate::sql::reading::lemma_heads;
use crate::sql::reading::lemma_only;
use crate::sql::reading::lemma_spaced;
use crate::sql::reading::spaced;
use crate::sql::statement::Join;
use crate::sql::statement::Query;
use crate::sql::statement::Statement;
use crate::text::find_keyword;
use crate::text::index_of;
use crate::text::is_ascii_char;
use crate::text::is_ascii_text;
use crate::text::is_space;
use crate::text::lemma_ascii_bytes;
use crate::text::lemma_index_of_is;
use crate::text::lemma_space_index;
use crate::text::lower;
use crate::text::skip_bytes;
use crate::text::starts_with;
use crate::text::starts_with_keyword;
use crate::text::take_bytes;
use crate::text::trim;
use crate::text::trim_start_kind;
use crate::text::upper;
use crate::text::words;
use crate::text::CharKind;
use crate::texts::law_case;
use crate::texts::law_find_keyword;
use crate::texts::law_same_case;
use crate::texts::law_trim;
use crate::texts::law_trim_none;
use crate::texts::same_but_case;
use crate::texts::stands_at;
use crate::values::lemma_no_prefix;
use crate::values::lemma_prefix;

verus! {

// ---------------------------------------------------------------------------
// Texts without a word
// ---------------------------------------------------------------------------

/// A word, in whatever case, stands nowhere in a text.
pub open spec fn is_free(s: Seq<char>, word: Seq<char>) -> bool {
    forall|i: int| !#[trigger] stands_at(upper(s), word, i)
}

/// A text without one of a word's letters is free of the word.
proof fn lemma_free_by(s: Seq<char>, word: Seq<char>, j: int)
    requires
        0 <= j < word.len(),
        forall|i: int| 0 <= i < upper(s).len() ==> #[trigger] upper(s)[i] != word[j],
    ensures
        is_free(s, word),
{
    let u = upper(s);
    assert forall|i: int| !#[trigger] stands_at(u, word, i) by {
        if stands_at(u, word, i) {
            assert(u.subrange(i, i + word.len())[j] == u[i + j]);
        }
    }
}

/// Texts that are free of a word are free of it with a space between them.
proof fn lemma_free_spaced(a: Seq<char>, b: Seq<char>, word: Seq<char>)
    requires
        is_ascii_text(a),
        is_ascii_text(b),
        is_free(a, word),
        is_free(b, word),
        is_capital(word),
    ensures
        is_free(spaced(a, b), word),
        is_ascii_text(spaced(a, b)),
        upper(spaced(a, b)) == spaced(upper(a), upper(b)),
{
    let x = seq![' '];
    assert(is_ascii_text(x));
    assert(upper(x) =~= x);
    lemma_ascii_concat(a, x);
    lemma_ascii_concat(a + x, b);
    let (p, q) = (upper(a), upper(b));
    let u = spaced(p, q);
    assert(upper(spaced(a, b)) == u);
    let n = p.len() as int;
    assert forall|i: int| !#[trigger] stands_at(u, word, i) by {
        if stands_at(u, word, i) {
            let w = u.subrange(i, i + word.len());
            if i + word.len() <= n {
                assert(p.subrange(i, i + word.len()) =~= w);
                assert(stands_at(p, word, i));
            } else if i > n {
                let k = i - n - 1;
                assert(q.subrange(k, k + word.len()) =~= w);
                assert(stands_at(q, word, k));
            } else {
                assert(w[n - i] == u[n] && u[n] == ' ');
                assert('A' <= word[n - i]);
            }
        }
    }
}

/// A keyword that begins with a word is not found in a text that is free of the word.
proof fn lemma_absent(s: Seq<char>, word: Seq<char>, more: Seq<char>)
    requires
        is_ascii_text(s),
        is_free(s, word),
    ensures
        find_keyword(s, seq![' '] + word + more) is None,
        !starts_with_keyword(s, word + more),
{
    let u = upper(s);
    let key = seq![' '] + word + more;
    law_find_keyword(s, key);
    assert forall|i: int| !#[trigger] stands_at(u, key, i) by {
        if stands_at(u, key, i) {
            let x = u.subrange(i, i + key.len());
            assert(u.subrange(i + 1, i + 1 + word.len()) =~= x.subrange(1, 1 + word.len() as int));
            assert(x.subrange(1, 1 + word.len() as int) =~= word);
            assert(stands_at(u, word, i + 1));
        }
    }
    let w = word + more;
    if starts_with(u, w) {
        let x = u.subrange(0, w.len() as int);
        assert(u.subrange(0, word.len() as int) =~= x.subrange(0, word.len() as int));
        assert(x.subrange(0, word.len() as int) =~= word);
        assert(stands_at(u, word, 0));
    }
}

/// Behind a text that is free of a word, and a space, a keyword that begins with the word is
/// found where it stands.
proof fn lemma_present(x: Seq<char>, y: Seq<char>, word: Seq<char>, more: Seq<char>)
    requires
        is_ascii_text(x),
        is_ascii_text(y),
        is_free(x, word),
        is_capital(word),
        starts_with(upper(y), word + more),
    ensures
        ({
            let s = spaced(x, y);
            let key = seq![' '] + word + more;
            &&& find_keyword(s, key) == Some(x.len() as int)
            &&& take_bytes(s, x.len() as int) == x
            &&& skip_bytes(s, x.len() as int) == seq![' '] + y
            &&& skip_bytes(s, x.len() as int + key.len()) == y.skip(key.len() - 1)
        }),
{
    let s = spaced(x, y);
    let key = seq![' '] + word + more;
    let b = seq![' '];
    assert(is_ascii_text(b));
    assert(upper(b) =~= b);
    lemma_ascii_concat(x, b);
    lemma_ascii_concat(x + b, y);
    let (p, q) = (upper(x), upper(y));
    let u = upper(s);
    law_case(x);
    law_case(y);
    let n = x.len() as int;
    let w = word + more;
    assert(q.subrange(0, w.len() as int) == w);
    assert(u.subrange(n, n + key.len()) =~= key) by {
        assert forall|j: int| 0 <= j < key.len() implies u[n + j] == key[j] by {
            if j > 0 {
                assert(q.subrange(0, w.len() as int)[j - 1] == q[j - 1]);
            }
        }
    }
    assert(stands_at(u, key, n));
    law_find_keyword(s, key);
    let f = find_keyword(s, key)->0;
    if f < n {
        let z = u.subrange(f, f + key.len());
        if f + 1 + word.len() <= n {
            assert(p.subrange(f + 1, f + 1 + word.len()) =~= z.subrange(1, 1 + word.len() as int));
            assert(z.subrange(1, 1 + word.len() as int) =~= word);
            assert(stands_at(p, word, f + 1));
        } else {
            let j = n - f;
            assert(z[j] == u[n] && u[n] == ' ');
            assert(key[j] == word[j - 1]);
            assert('A' <= word[j - 1]);
        }
    }
    lemma_ascii_bytes(s, n);
    lemma_ascii_bytes(s, n + key.len());
    assert(s.take(n) =~= x);
    assert(s.skip(n) =~= b + y);
    assert(s.skip(n + key.len()) =~= y.skip(key.len() - 1));
}

// ---------------------------------------------------------------------------
// Clauses
// ---------------------------------------------------------------------------

/// A clause with what follows it; what follows alone where there is no clause.
pub open spec fn clause(key: Seq<char>, body: Option<Seq<char>>, rest: Seq<char>) -> Seq<char> {
    match body {
        None => rest,
        Some(b) => spaced(key, followed(b, rest)),
    }
}

/// A text with what follows it, if anything does.
pub open spec fn followed(b: Seq<char>, rest: Seq<char>) -> Seq<char> {
    if rest.len() == 0 {
        b
    } else {
        spaced(b, rest)
    }
}

/// Nothing, or a clean text.
pub open spec fn is_rest(s: Seq<char>) -> bool {
    s.len() == 0 || is_clean(s)
}

/// The text `r` is `t`, or `t` behind a space.
pub open spec fn is_tail(r: Seq<char>, t: Seq<char>) -> bool {
    r == t || (t.len() > 0 && r == seq![' '] + t)
}

proof fn lemma_followed(b: Seq<char>, rest: Seq<char>)
    requires
        is_clean(b),
        is_rest(rest),
    ensures
        is_clean(followed(b, rest)),
        trim(followed(b, rest)) == followed(b, rest),
{
    law_trim_none(b);
    if rest.len() > 0 {
        lemma_spaced(b, rest);
    }
}

/// What is behind a keyword at the start of a text, or at the start but for a space.
proof fn lemma_behind(r: Seq<char>, key: Seq<char>, word: Seq<char>, more: Seq<char>, x: Seq<char>)
    requires
        is_clean(x),
        is_clean(key),
        upper(key) + seq![' '] == word + more,
        is_capital(word),
        is_tail(r, spaced(key, x)),
    ensures
        behind(r, word + more, seq![' '] + word + more) == Some(x),
        r == spaced(key, x) <==> starts_with_keyword(r, word + more),
{
    let t = spaced(key, x);
    let w = word + more;
    law_case(key);
    assert(w.len() == key.len() + 1);
    lemma_spaced(key, x);
    let u = upper(t);
    assert(u.subrange(0, w.len() as int) =~= w);
    assert(starts_with(u, w));
    law_case(t);
    lemma_ascii_bytes(t, w.len() as int);
    assert(t.skip(w.len() as int) =~= x);
    law_trim_none(x);
    if r != t {
        let e = Seq::<char>::empty();
        assert(is_ascii_text(e));
        assert(upper(e) =~= e);
        assert(is_free(e, word)) by {
            assert forall|i: int| !#[trigger] stands_at(upper(e), word, i) by {}
        }
        lemma_present(e, t, word, more);
        assert(spaced(e, t) =~= seq![' '] + t);
        assert(r == spaced(e, t));
        assert(!starts_with_keyword(r, w)) by {
            let b = seq![' '];
            assert(is_ascii_text(b));
            assert(upper(b) =~= b);
            lemma_ascii_concat(b, t);
            if starts_with(upper(r), w) {
                assert(upper(r).subrange(0, w.len() as int)[0] == upper(r)[0]);
                assert(upper(r)[0] == ' ');
                assert(w[0] == word[0]);
                assert('A' <= word[0]);
            }
        }
        assert((seq![' '] + word + more).len() == w.len() + 1);
    }
}

/// What is behind a keyword inside a text.
proof fn lemma_behind_inside(
    p: Seq<char>,
    key: Seq<char>,
    word: Seq<char>,
    more: Seq<char>,
    x: Seq<char>,
)
    requires
        is_ascii_text(p),
        is_free(p, word),
        p.len() > 0,
        is_clean(x),
        is_clean(key),
        upper(key) + seq![' '] == word + more,
        is_capital(word),
    ensures
        behind(spaced(p, spaced(key, x)), word + more, seq![' '] + word + more) == Some(x),
{
    let t = spaced(key, x);
    let w = word + more;
    law_case(key);
    assert(w.len() == key.len() + 1);
    lemma_spaced(key, x);
    let u = upper(t);
    assert(u.subrange(0, w.len() as int) =~= w);
    assert(starts_with(u, w));
    law_case(t);
    lemma_present(p, t, word, more);
    assert(t.skip(w.len() as int) =~= x);
    assert((seq![' '] + word + more).len() == w.len() + 1);
    law_trim_none(x);
    let r = spaced(p, t);
    let b = seq![' '];
    assert(is_ascii_text(b));
    assert(upper(b) =~= b);
    lemma_ascii_concat(p, b);
    lemma_ascii_concat(p + b, t);
    law_case(p);
    assert(!starts_with_keyword(r, w)) by {
        let v = upper(r);
        if starts_with(v, w) {
            let z = v.subrange(0, w.len() as int);
            let n = p.len() as int;
            if word.len() <= n {
                assert(upper(p).subrange(0, word.len() as int) =~= z.subrange(
                    0,
                    word.len() as int,
                ));
                assert(z.subrange(0, word.len() as int) =~= word);
                assert(stands_at(upper(p), word, 0));
            } else {
                assert(z[n] == v[n] && v[n] == ' ');
                assert(w[n] == word[n]);
                assert('A' <= word[n]);
            }
        }
    }
}

proof fn lemma_not_behind(r: Seq<char>, word: Seq<char>, more: Seq<char>)
    requires
        is_ascii_text(r),
        is_free(r, word),
    ensures
        behind(r, word + more, seq![' '] + word + more) is None,
        !starts_with_keyword(r, word + more),
{
    lemma_absent(r, word, more);
}

/// A text behind a space is free of the words that it is free of.
proof fn lemma_free_tail(r: Seq<char>, t: Seq<char>, word: Seq<char>)
    requires
        is_ascii_text(t),
        is_tail(r, t),
        is_free(t, word),
        is_capital(word),
    ensures
        is_free(r, word),
        is_ascii_text(r),
{
    if r != t {
        let e = Seq::<char>::empty();
        assert(is_ascii_text(e));
        assert(upper(e) =~= e);
        assert(is_free(e, word)) by {
            assert forall|i: int| !#[trigger] stands_at(upper(e), word, i) by {}
        }
        lemma_free_spaced(e, t, word);
        assert(spaced(e, t) =~= seq![' '] + t);
    }
}

/// A clause begins with its keyword.
proof fn lemma_clause_starts(key: Seq<char>, b: Seq<char>, rest: Seq<char>, w: Seq<char>)
    requires
        is_clean(key),
        is_clean(b),
        is_rest(rest),
        w == upper(key) + seq![' '] || w == upper(key),
    ensures
        is_clean(clause(key, Some(b), rest)),
        starts_with(upper(clause(key, Some(b), rest)), w),
{
    lemma_followed(b, rest);
    law_case(key);
    lemma_spaced(key, followed(b, rest));
    let u = upper(clause(key, Some(b), rest));
    assert(u.subrange(0, w.len() as int) =~= w);
}

/// A clause is free of the words that its parts are free of.
proof fn lemma_free_clause(key: Seq<char>, body: Option<Seq<char>>, rest: Seq<char>, word: Seq<char>)
    requires
        is_clean(key),
        body is Some ==> is_clean(body->0) && is_free(body->0, word),
        is_rest(rest),
        is_ascii_text(rest),
        is_capital(word),
        is_free(key, word),
        is_free(rest, word),
    ensures
        is_free(clause(key, body, rest), word),
        is_ascii_text(clause(key, body, rest)),
{
    match body {
        None => {},
        Some(b) => {
            lemma_free_followed(b, rest, word);
            lemma_followed(b, rest);
            lemma_free_spaced(key, followed(b, rest), word);
        },
    }
}

proof fn lemma_free_followed(b: Seq<char>, rest: Seq<char>, word: Seq<char>)
    requires
        is_ascii_text(b),
        is_free(b, word),
        is_ascii_text(rest),
        is_free(rest, word),
        is_capital(word),
    ensures
        is_free(followed(b, rest), word),
        is_ascii_text(followed(b, rest)),
{
    if rest.len() > 0 {
        lemma_free_spaced(b, rest, word);
    }
}

/// Keywords, each a space, a word and more, as the search has them.
spec fn are_keys(keys: Seq<Seq<char>>, w: Seq<Seq<char>>, more: Seq<Seq<char>>) -> bool {
    &&& keys.len() == w.len()
    &&& keys.len() == more.len()
    &&& forall|i: int|
        0 <= i < keys.len() ==> #[trigger] keys[i] == seq![' '] + w[i] + more[i] && is_capital(w[i])
}

proof fn lemma_none_found(
    s: Seq<char>,
    keys: Seq<Seq<char>>,
    w: Seq<Seq<char>>,
    more: Seq<Seq<char>>,
)
    requires
        is_ascii_text(s),
        are_keys(keys, w, more),
        forall|i: int| 0 <= i < w.len() ==> is_free(s, #[trigger] w[i]),
    ensures
        first_found(s, keys) is None,
    decreases keys.len(),
{
    if keys.len() > 0 {
        assert(keys[0] == seq![' '] + w[0] + more[0]);
        assert(is_free(s, w[0]));
        lemma_absent(s, w[0], more[0]);
        let (k, v, m) = (keys.skip(1), w.skip(1), more.skip(1));
        assert forall|i: int| 0 <= i < k.len() implies #[trigger] k[i] == seq![' '] + v[i] + m[i]
            && is_capital(v[i]) by {
            assert(k[i] == keys[i + 1]);
        }
        assert forall|i: int| 0 <= i < v.len() implies is_free(s, #[trigger] v[i]) by {
            assert(v[i] == w[i + 1]);
        }
        lemma_none_found(s, k, v, m);
    }
}

/// The keyword that stands behind a text is found there, where the keywords that are looked
/// for before it stand nowhere.
proof fn lemma_found_behind(
    b: Seq<char>,
    rest: Seq<char>,
    keys: Seq<Seq<char>>,
    w: Seq<Seq<char>>,
    more: Seq<Seq<char>>,
    j: int,
)
    requires
        is_ascii_text(b),
        is_ascii_text(rest),
        are_keys(keys, w, more),
        0 <= j < keys.len(),
        starts_with(upper(rest), w[j] + more[j]),
        is_free(b, w[j]),
        forall|i: int| 0 <= i < j ==> is_free(b, #[trigger] w[i]) && is_free(rest, w[i]),
    ensures
        first_found(spaced(b, rest), keys) == Some(b.len() as int),
        cut(spaced(b, rest), Some(b.len() as int)) == (b, seq![' '] + rest),
    decreases keys.len(),
{
    let s = spaced(b, rest);
    assert(keys[0] == seq![' '] + w[0] + more[0]);
    assert(keys[j] == seq![' '] + w[j] + more[j]);
    if j == 0 {
        lemma_present(b, rest, w[0], more[0]);
    } else {
        assert(is_free(b, w[0]) && is_free(rest, w[0]));
        lemma_free_spaced(b, rest, w[0]);
        lemma_absent(s, w[0], more[0]);
        let (k, v, m) = (keys.skip(1), w.skip(1), more.skip(1));
        assert forall|i: int| 0 <= i < k.len() implies #[trigger] k[i] == seq![' '] + v[i] + m[i]
            && is_capital(v[i]) by {
            assert(k[i] == keys[i + 1]);
        }
        assert forall|i: int| 0 <= i < j - 1 implies is_free(b, #[trigger] v[i]) && is_free(
            rest,
            v[i],
        ) by {
            assert(v[i] == w[i + 1]);
        }
        lemma_found_behind(b, rest, k, v, m, j - 1);
    }
}

// ---------------------------------------------------------------------------
// The keywords
// ---------------------------------------------------------------------------

proof fn lemma_words()
    ensures
        is_capital("WHERE"@),
        is_capital("GROUP"@),
        is_capital("HAVING"@),
        is_capital("ORDER"@),
        is_capital("LIMIT"@),
        is_capital("OFFSET"@),
        is_capital("FROM"@),
        "WHERE "@ == "WHERE"@ + " "@,
        " WHERE "@ == seq![' '] + "WHERE"@ + " "@,
        " HAVING "@ == seq![' '] + "HAVING"@ + " "@,
        "GROUP BY "@ == "GROUP"@ + " BY "@,
        " GROUP BY "@ == seq![' '] + "GROUP"@ + " BY "@,
        "ORDER BY "@ == "ORDER"@ + " BY "@,
        " ORDER BY "@ == seq![' '] + "ORDER"@ + " BY "@,
        "LIMIT "@ == "LIMIT"@ + " "@,
        " LIMIT "@ == seq![' '] + "LIMIT"@ + " "@,
        " LIMIT"@ == seq![' '] + "LIMIT"@ + ""@,
        "OFFSET "@ == "OFFSET"@ + " "@,
        " OFFSET "@ == seq![' '] + "OFFSET"@ + " "@,
        " OFFSET"@ == seq![' '] + "OFFSET"@ + ""@,
        " FROM "@ == seq![' '] + "FROM"@ + " "@,
        "GROUP BY"@ + seq![' '] == "GROUP"@ + " BY "@,
        "ORDER BY"@ + seq![' '] == "ORDER"@ + " BY "@,
        "LIMIT"@ + seq![' '] == "LIMIT"@ + " "@,
        "OFFSET"@ + seq![' '] == "OFFSET"@ + " "@,
        "WHERE"@ + seq![' '] == "WHERE"@ + " "@,
        "HAVING"@ + seq![' '] == "HAVING"@ + " "@,
        "FROM"@ + seq![' '] == "FROM"@ + " "@,
        " "@ == seq![' '],
        ""@ == Seq::<char>::empty(),
{
    reveal_strlit("WHERE");
    reveal_strlit("WHERE ");
    reveal_strlit(" WHERE ");
    reveal_strlit("HAVING");
    reveal_strlit(" HAVING ");
    reveal_strlit("GROUP");
    reveal_strlit("GROUP BY");
    reveal_strlit("GROUP BY ");
    reveal_strlit(" GROUP BY ");
    reveal_strlit("ORDER");
    reveal_strlit("ORDER BY");
    reveal_strlit("ORDER BY ");
    reveal_strlit(" ORDER BY ");
    reveal_strlit(" BY ");
    reveal_strlit("LIMIT");
    reveal_strlit("LIMIT ");
    reveal_strlit(" LIMIT ");
    reveal_strlit(" LIMIT");
    reveal_strlit("OFFSET");
    reveal_strlit("OFFSET ");
    reveal_strlit(" OFFSET ");
    reveal_strlit(" OFFSET");
    reveal_strlit("FROM");
    reveal_strlit(" FROM ");
    reveal_strlit(" ");
    reveal_strlit("");
    assert("WHERE "@ =~= "WHERE"@ + " "@);
    assert(" WHERE "@ =~= seq![' '] + "WHERE"@ + " "@);
    assert(" HAVING "@ =~= seq![' '] + "HAVING"@ + " "@);
    assert("GROUP BY "@ =~= "GROUP"@ + " BY "@);
    assert(" GROUP BY "@ =~= seq![' '] + "GROUP"@ + " BY "@);
    assert("ORDER BY "@ =~= "ORDER"@ + " BY "@);
    assert(" ORDER BY "@ =~= seq![' '] + "ORDER"@ + " BY "@);
    assert("LIMIT "@ =~= "LIMIT"@ + " "@);
    assert(" LIMIT "@ =~= seq![' '] + "LIMIT"@ + " "@);
    assert(" LIMIT"@ =~= seq![' '] + "LIMIT"@ + ""@);
    assert("OFFSET "@ =~= "OFFSET"@ + " "@);
    assert(" OFFSET "@ =~= seq![' '] + "OFFSET"@ + " "@);
    assert(" OFFSET"@ =~= seq![' '] + "OFFSET"@ + ""@);
    assert(" FROM "@ =~= seq![' '] + "FROM"@ + " "@);
    assert("GROUP BY"@ + seq![' '] =~= "GROUP"@ + " BY "@);
    assert("ORDER BY"@ + seq![' '] =~= "ORDER"@ + " BY "@);
    assert("LIMIT"@ + seq![' '] =~= "LIMIT"@ + " "@);
    assert("OFFSET"@ + seq![' '] =~= "OFFSET"@ + " "@);
    assert("WHERE"@ + seq![' '] =~= "WHERE"@ + " "@);
    assert("HAVING"@ + seq![' '] =~= "HAVING"@ + " "@);
    assert("FROM"@ + seq![' '] =~= "FROM"@ + " "@);
    assert(" "@ =~= seq![' ']);
    assert(""@ =~= Seq::<char>::empty());
}

/// The keywords of a query, each in letters of either case.
pub struct Keys {
    pub distinct: Seq<char>,
    pub from: Seq<char>,
    pub join: Seq<char>,
    pub on: Seq<char>,
    pub condition: Seq<char>,
    pub group_by: Seq<char>,
    pub having: Seq<char>,
    pub order_by: Seq<char>,
    pub limit: Seq<char>,
    pub offset: Seq<char>,
}

/// The keywords are what they are in upper case.
pub open spec fn are_keywords(kw: Keys) -> bool {
    &&& same_but_case(kw.distinct, "DISTINCT"@)
    &&& same_but_case(kw.from, "FROM"@)
    &&& same_but_case(kw.join, "JOIN"@)
    &&& same_but_case(kw.on, "ON"@)
    &&& same_but_case(kw.condition, "WHERE"@)
    &&& same_but_case(kw.group_by, "GROUP BY"@)
    &&& same_but_case(kw.having, "HAVING"@)
    &&& same_but_case(kw.order_by, "ORDER BY"@)
    &&& same_but_case(kw.limit, "LIMIT"@)
    &&& same_but_case(kw.offset, "OFFSET"@)
}

/// A keyword, whatever the case of its letters, is clean.
proof fn lemma_key(s: Seq<char>, k: Seq<char>)
    requires
        k == "WHERE"@ || k == "GROUP BY"@ || k == "HAVING"@ || k == "ORDER BY"@ || k == "LIMIT"@
            || k == "OFFSET"@ || k == "FROM"@ || k == "JOIN"@ || k == "ON"@ || k == "DISTINCT"@,
        same_but_case(s, k),
    ensures
        is_clean(s),
        upper(s) == k,
        s.len() == k.len(),
{
    reveal_strlit("WHERE");
    reveal_strlit("GROUP BY");
    reveal_strlit("HAVING");
    reveal_strlit("ORDER BY");
    reveal_strlit("LIMIT");
    reveal_strlit("OFFSET");
    reveal_strlit("FROM");
    reveal_strlit("JOIN");
    reveal_strlit("ON");
    reveal_strlit("DISTINCT");
    law_same_case(s, k);
    law_case(k);
    assert forall|i: int| 0 <= i < k.len() implies upper(k)[i] == k[i] by {
        assert(upper(k)[i] as u32 == k[i] as u32);
    }
    assert(upper(k) =~= k);
    let n = k.len() - 1;
    assert(!is_space(k[0]) && !is_space(k[n]));
    assert(s[0] == k[0] || s[0] != k[0]);
    assert(s[n] == k[n] || s[n] != k[n]);
}

/// The words of the keywords that end the clauses of a query.
spec fn is_word(w: Seq<char>) -> bool {
    w == "WHERE"@ || w == "GROUP"@ || w == "HAVING"@ || w == "ORDER"@ || w == "LIMIT"@ || w
        == "OFFSET"@
}

/// A keyword is free of the words of the others.
proof fn lemma_key_free(s: Seq<char>, k: Seq<char>, w: Seq<char>)
    requires
        is_word(w),
        same_but_case(s, k),
        k == "WHERE"@ || k == "GROUP BY"@ || k == "HAVING"@ || k == "ORDER BY"@ || k == "LIMIT"@
            || k == "OFFSET"@ || k == "JOIN"@ || k == "ON"@,
        k != w,
        k != "GROUP BY"@ || w != "GROUP"@,
        k != "ORDER BY"@ || w != "ORDER"@,
    ensures
        is_free(s, w),
{
    reveal_strlit("WHERE");
    reveal_strlit("GROUP BY");
    reveal_strlit("HAVING");
    reveal_strlit("ORDER BY");
    reveal_strlit("LIMIT");
    reveal_strlit("OFFSET");
    reveal_strlit("GROUP");
    reveal_strlit("ORDER");
    reveal_strlit("JOIN");
    reveal_strlit("ON");
    lemma_key(s, k);
    if w == "WHERE"@ {
        if k == "HAVING"@ {
            lemma_free_by(s, w, 0);
        } else {
            lemma_free_by(s, w, 1);
        }
    } else if w == "GROUP"@ {
        lemma_free_by(s, w, 4);
    } else if w == "HAVING"@ {
        lemma_free_by(s, w, 2);
    } else if w == "ORDER"@ {
        lemma_free_by(s, w, 2);
    } else if w == "LIMIT"@ {
        lemma_free_by(s, w, 2);
    } else {
        lemma_free_by(s, w, 2);
    }
}

/// A number is free of words.
proof fn lemma_number_free(n: u64, w: Seq<char>)
    requires
        is_word(w),
    ensures
        is_free(show_nat(n as nat), w),
        is_clean(show_nat(n as nat)),
{
    lemma_words();
    let s = show_nat(n as nat);
    lemma_show_nat(n as nat);
    assert forall|i: int| 0 <= i < s.len() implies is_ascii_char(#[trigger] s[i]) by {
        assert(is_digit(s[i]));
    }
    law_case(s);
    assert(is_digit(s[0]) && is_digit(s[s.len() - 1]));
    assert forall|i: int| 0 <= i < upper(s).len() implies #[trigger] upper(s)[i] != w[0] by {
        assert(is_digit(s[i]));
        assert(upper(s)[i] as u32 == s[i] as u32);
        assert('A' <= w[0]);
    }
    lemma_free_by(s, w, 0);
}

// ---------------------------------------------------------------------------
// The clauses of a query
// ---------------------------------------------------------------------------

/// A text of a clause: clean, and without the words of the keywords that end clauses.
pub open spec fn is_quiet(s: Seq<char>) -> bool {
    &&& is_clean(s)
    &&& is_free(s, "WHERE"@)
    &&& is_free(s, "GROUP"@)
    &&& is_free(s, "HAVING"@)
    &&& is_free(s, "ORDER"@)
    &&& is_free(s, "LIMIT"@)
    &&& is_free(s, "OFFSET"@)
}

/// The text of an optional number.
pub open spec fn number_text(n: Option<u64>) -> Option<Seq<char>> {
    match n {
        Some(k) => Some(show_nat(k as nat)),
        None => None,
    }
}

/// The clauses of a query behind its condition, from `OFFSET` backwards.
pub open spec fn offset_text(kw: Keys, q: Query) -> Seq<char> {
    clause(kw.offset, number_text(q.offset), Seq::empty())
}

pub open spec fn limit_text(kw: Keys, q: Query) -> Seq<char> {
    clause(kw.limit, number_text(q.limit), offset_text(kw, q))
}

pub open spec fn order_text(kw: Keys, q: Query) -> Seq<char> {
    clause(kw.order_by, q.order_by, limit_text(kw, q))
}

pub open spec fn having_text(kw: Keys, q: Query) -> Seq<char> {
    clause(kw.having, q.having, order_text(kw, q))
}

pub open spec fn group_text(kw: Keys, q: Query) -> Seq<char> {
    clause(kw.group_by, q.group_by, having_text(kw, q))
}

pub open spec fn where_text(kw: Keys, q: Query) -> Seq<char> {
    clause(kw.condition, q.condition, group_text(kw, q))
}

/// The clauses of a query can be told apart: none holds a word that ends a clause, and there
/// is a `HAVING` only behind a `GROUP BY`.
pub open spec fn is_plain_query(q: Query) -> bool {
    &&& q.condition matches Some(c) ==> is_quiet(c)
    &&& q.group_by matches Some(g) ==> is_quiet(g)
    &&& q.having matches Some(h) ==> is_quiet(h) && q.group_by is Some
    &&& q.order_by matches Some(o) ==> is_quiet(o)
}

proof fn lemma_offset(kw: Keys, q: Query, w: Seq<char>)
    requires
        are_keywords(kw),
        is_word(w),
    ensures
        is_rest(offset_text(kw, q)),
        is_ascii_text(offset_text(kw, q)),
        w != "OFFSET"@ || q.offset is None ==> is_free(offset_text(kw, q), w),
        q.offset is Some ==> offset_text(kw, q).len() > 0 && starts_with(
            upper(offset_text(kw, q)),
            "OFFSET"@ + " "@,
        ) && starts_with(upper(offset_text(kw, q)), "OFFSET"@ + ""@),
{
    lemma_words();
    lemma_distinct_words();
    lemma_key(kw.offset, "OFFSET"@);
    let e = Seq::<char>::empty();
    lemma_empty_free(w);
    match q.offset {
        Some(k) => {
            lemma_number_free(k, w);
            lemma_clause_starts(kw.offset, show_nat(k as nat), e, "OFFSET"@ + seq![' ']);
            lemma_clause_starts(kw.offset, show_nat(k as nat), e, "OFFSET"@);
            assert("OFFSET"@ + ""@ =~= "OFFSET"@);
            if w != "OFFSET"@ {
                lemma_key_free(kw.offset, "OFFSET"@, w);
                lemma_free_clause(kw.offset, number_text(q.offset), e, w);
            }
        },
        None => {},
    }
}

proof fn lemma_empty_free(w: Seq<char>)
    requires
        is_word(w),
    ensures
        is_free(Seq::empty(), w),
        is_ascii_text(Seq::empty()),
{
    lemma_words();
    let e = Seq::<char>::empty();
    assert(upper(e) =~= e);
    assert forall|i: int| !#[trigger] stands_at(upper(e), w, i) by {}
}

proof fn lemma_limit(kw: Keys, q: Query, w: Seq<char>)
    requires
        are_keywords(kw),
        is_word(w),
    ensures
        is_rest(limit_text(kw, q)),
        is_ascii_text(limit_text(kw, q)),
        (w != "OFFSET"@ || q.offset is None) && (w != "LIMIT"@ || q.limit is None) ==> is_free(
            limit_text(kw, q),
            w,
        ),
        q.limit is Some ==> limit_text(kw, q).len() > 0 && starts_with(
            upper(limit_text(kw, q)),
            "LIMIT"@ + " "@,
        ) && starts_with(upper(limit_text(kw, q)), "LIMIT"@ + ""@),
{
    lemma_words();
    lemma_distinct_words();
    lemma_key(kw.limit, "LIMIT"@);
    lemma_offset(kw, q, w);
    let t = offset_text(kw, q);
    match q.limit {
        Some(k) => {
            lemma_number_free(k, w);
            lemma_clause_starts(kw.limit, show_nat(k as nat), t, "LIMIT"@ + seq![' ']);
            lemma_clause_starts(kw.limit, show_nat(k as nat), t, "LIMIT"@);
            assert("LIMIT"@ + ""@ =~= "LIMIT"@);
            if w != "LIMIT"@ && (w != "OFFSET"@ || q.offset is None) {
                lemma_key_free(kw.limit, "LIMIT"@, w);
                lemma_free_clause(kw.limit, number_text(q.limit), t, w);
            }
        },
        None => {},
    }
}

/// A quiet text is free of every word that ends a clause.
proof fn lemma_quiet(s: Seq<char>, w: Seq<char>)
    requires
        is_quiet(s),
        is_word(w),
    ensures
        is_free(s, w),
{
}

proof fn lemma_order(kw: Keys, q: Query, w: Seq<char>)
    requires
        are_keywords(kw),
        is_word(w),
        is_plain_query(q),
    ensures
        is_rest(order_text(kw, q)),
        is_ascii_text(order_text(kw, q)),
        w == "WHERE"@ || w == "GROUP"@ || w == "HAVING"@ ==> is_free(order_text(kw, q), w),
        w == "ORDER"@ && q.order_by is None ==> is_free(order_text(kw, q), w),
        w == "LIMIT"@ && q.limit is None ==> is_free(order_text(kw, q), w),
        w == "OFFSET"@ && q.offset is None ==> is_free(order_text(kw, q), w),
        q.order_by is Some ==> order_text(kw, q).len() > 0 && starts_with(
            upper(order_text(kw, q)),
            "ORDER"@ + " BY "@,
        ),
{
    lemma_words();
    lemma_distinct_words();
    lemma_key(kw.order_by, "ORDER BY"@);
    lemma_limit(kw, q, w);
    let t = limit_text(kw, q);
    match q.order_by {
        Some(o) => {
            lemma_quiet(o, w);
            lemma_clause_starts(kw.order_by, o, t, "ORDER BY"@ + seq![' ']);
            if w != "ORDER"@ && (w != "LIMIT"@ || q.limit is None) && (w != "OFFSET"@ || q.offset
                is None) {
                lemma_key_free(kw.order_by, "ORDER BY"@, w);
                lemma_free_clause(kw.order_by, q.order_by, t, w);
            }
        },
        None => {},
    }
}

/// The words are different words.
proof fn lemma_distinct_words()
    ensures
        "WHERE"@ != "GROUP"@ && "WHERE"@ != "HAVING"@ && "WHERE"@ != "ORDER"@ && "WHERE"@
            != "LIMIT"@ && "WHERE"@ != "OFFSET"@,
        "GROUP"@ != "HAVING"@ && "GROUP"@ != "ORDER"@ && "GROUP"@ != "LIMIT"@ && "GROUP"@
            != "OFFSET"@,
        "HAVING"@ != "ORDER"@ && "HAVING"@ != "LIMIT"@ && "HAVING"@ != "OFFSET"@,
        "ORDER"@ != "LIMIT"@ && "ORDER"@ != "OFFSET"@,
        "LIMIT"@ != "OFFSET"@,
        "GROUP BY"@ != "ORDER BY"@,
        "GROUP BY"@.len() == 8 && "ORDER BY"@.len() == 8,
        "WHERE"@.len() == 5 && "GROUP"@.len() == 5 && "HAVING"@.len() == 6 && "ORDER"@.len() == 5
            && "LIMIT"@.len() == 5 && "OFFSET"@.len() == 6,
{
    reveal_strlit("WHERE");
    reveal_strlit("GROUP");
    reveal_strlit("HAVING");
    reveal_strlit("ORDER");
    reveal_strlit("LIMIT");
    reveal_strlit("OFFSET");
    reveal_strlit("GROUP BY");
    reveal_strlit("ORDER BY");
    assert("WHERE"@[0] == 'W' && "GROUP"@[0] == 'G' && "HAVING"@[0] == 'H' && "ORDER"@[0] == 'O'
        && "LIMIT"@[0] == 'L' && "OFFSET"@[0] == 'O');
    assert("ORDER"@[1] == 'R' && "OFFSET"@[1] == 'F');
    assert("GROUP BY"@[0] == 'G' && "ORDER BY"@[0] == 'O');
}

proof fn lemma_group(kw: Keys, q: Query, w: Seq<char>)
    requires
        are_keywords(kw),
        is_word(w),
        is_plain_query(q),
    ensures
        is_rest(having_text(kw, q)),
        is_ascii_text(having_text(kw, q)),
        is_rest(group_text(kw, q)),
        is_ascii_text(group_text(kw, q)),
        w == "WHERE"@ ==> is_free(group_text(kw, q), w),
        w == "HAVING"@ && q.having is None ==> is_free(having_text(kw, q), w),
        q.having is Some ==> having_text(kw, q).len() > 0 && starts_with(
            upper(having_text(kw, q)),
            "HAVING"@ + " "@,
        ),
        q.group_by is Some ==> group_text(kw, q).len() > 0 && starts_with(
            upper(group_text(kw, q)),
            "GROUP"@ + " BY "@,
        ),
{
    lemma_words();
    lemma_distinct_words();
    lemma_key(kw.having, "HAVING"@);
    lemma_key(kw.group_by, "GROUP BY"@);
    lemma_order(kw, q, w);
    let t = order_text(kw, q);
    match q.having {
        Some(h) => {
            lemma_quiet(h, w);
            lemma_clause_starts(kw.having, h, t, "HAVING"@ + seq![' ']);
            if w == "WHERE"@ {
                lemma_key_free(kw.having, "HAVING"@, w);
                lemma_free_clause(kw.having, q.having, t, w);
            }
        },
        None => {},
    }
    let u = having_text(kw, q);
    match q.group_by {
        Some(g) => {
            lemma_quiet(g, w);
            lemma_clause_starts(kw.group_by, g, u, "GROUP BY"@ + seq![' ']);
            if w == "WHERE"@ {
                lemma_key_free(kw.group_by, "GROUP BY"@, w);
                lemma_free_clause(kw.group_by, q.group_by, u, w);
            }
        },
        None => {},
    }
}

proof fn lemma_keys()
    ensures
        are_keys(
            after_condition(),
            seq!["GROUP"@, "ORDER"@, "LIMIT"@, "OFFSET"@],
            seq![" BY "@, " BY "@, " "@, " "@],
        ),
        are_keys(
            after_group(),
            seq!["ORDER"@, "LIMIT"@, "OFFSET"@],
            seq![" BY "@, " "@, " "@],
        ),
        are_keys(after_order(), seq!["LIMIT"@, "OFFSET"@], seq![""@, ""@]),
        are_keys(
            after_on(),
            seq!["WHERE"@, "GROUP"@, "ORDER"@, "LIMIT"@, "OFFSET"@],
            seq![" "@, " BY "@, " BY "@, " "@, " "@],
        ),
{
    lemma_words();
}

/// A text is parted from the clauses behind it where these begin, by the keywords from
/// `ORDER BY` on.
proof fn lemma_cut_order(kw: Keys, b: Seq<char>, q: Query)
    requires
        are_keywords(kw),
        is_quiet(b),
        is_plain_query(q),
    ensures
        ({
            let x = followed(b, order_text(kw, q));
            let (y, tail) = cut(x, first_found(x, after_group()));
            y == b && is_tail(tail, order_text(kw, q))
        }),
{
    lemma_words();
    lemma_distinct_words();
    lemma_keys();
    let w = seq!["ORDER"@, "LIMIT"@, "OFFSET"@];
    let more = seq![" BY "@, " "@, " "@];
    let t = order_text(kw, q);
    lemma_order(kw, q, "ORDER"@);
    lemma_order(kw, q, "LIMIT"@);
    lemma_order(kw, q, "OFFSET"@);
    lemma_limit(kw, q, "LIMIT"@);
    lemma_offset(kw, q, "OFFSET"@);
    if q.order_by is Some {
        lemma_found_behind(b, t, after_group(), w, more, 0);
    } else if q.limit is Some {
        lemma_found_behind(b, t, after_group(), w, more, 1);
    } else if q.offset is Some {
        lemma_found_behind(b, t, after_group(), w, more, 2);
    } else {
        lemma_none_found(b, after_group(), w, more);
    }
}

proof fn lemma_cut_group(kw: Keys, b: Seq<char>, q: Query)
    requires
        are_keywords(kw),
        is_quiet(b),
        is_plain_query(q),
    ensures
        ({
            let x = followed(b, group_text(kw, q));
            let (y, tail) = cut(x, first_found(x, after_condition()));
            y == b && is_tail(tail, group_text(kw, q))
        }),
{
    lemma_words();
    lemma_distinct_words();
    lemma_keys();
    let w = seq!["GROUP"@, "ORDER"@, "LIMIT"@, "OFFSET"@];
    let more = seq![" BY "@, " BY "@, " "@, " "@];
    let t = group_text(kw, q);
    lemma_group(kw, q, "GROUP"@);
    lemma_order(kw, q, "GROUP"@);
    lemma_order(kw, q, "ORDER"@);
    lemma_order(kw, q, "LIMIT"@);
    lemma_order(kw, q, "OFFSET"@);
    lemma_limit(kw, q, "LIMIT"@);
    lemma_offset(kw, q, "OFFSET"@);
    if q.group_by is Some {
        lemma_found_behind(b, t, after_condition(), w, more, 0);
    } else if q.order_by is Some {
        lemma_found_behind(b, t, after_condition(), w, more, 1);
    } else if q.limit is Some {
        lemma_found_behind(b, t, after_condition(), w, more, 2);
    } else if q.offset is Some {
        lemma_found_behind(b, t, after_condition(), w, more, 3);
    } else {
        lemma_none_found(b, after_condition(), w, more);
    }
}

proof fn lemma_cut_limit(kw: Keys, b: Seq<char>, q: Query)
    requires
        are_keywords(kw),
        is_quiet(b),
    ensures
        ({
            let x = followed(b, limit_text(kw, q));
            let (y, tail) = cut(x, first_found(x, after_order()));
            &&& y == b
            &&& is_tail(tail, limit_text(kw, q))
            &&& first_found(x, after_order()) is Some <==> limit_text(kw, q).len() > 0
        }),
{
    lemma_words();
    lemma_distinct_words();
    lemma_keys();
    let w = seq!["LIMIT"@, "OFFSET"@];
    let more = seq![""@, ""@];
    let t = limit_text(kw, q);
    lemma_limit(kw, q, "LIMIT"@);
    lemma_limit(kw, q, "OFFSET"@);
    lemma_offset(kw, q, "OFFSET"@);
    if q.limit is Some {
        lemma_found_behind(b, t, after_order(), w, more, 0);
    } else if q.offset is Some {
        lemma_found_behind(b, t, after_order(), w, more, 1);
    } else {
        lemma_none_found(b, after_order(), w, more);
    }
}

/// The condition is read, and the clauses behind it are left.
proof fn lemma_where(kw: Keys, q: Query)
    requires
        are_keywords(kw),
        is_plain_query(q),
    ensures
        where_part(where_text(kw, q)).0 == q.condition,
        is_tail(where_part(where_text(kw, q)).1, group_text(kw, q)),
        is_rest(where_text(kw, q)),
        is_ascii_text(where_text(kw, q)),
{
    lemma_words();
    reveal_strlit("WHERE\n");
    let s = where_text(kw, q);
    lemma_group(kw, q, "WHERE"@);
    match q.condition {
        None => {
            lemma_absent(s, "WHERE"@, " "@);
            lemma_absent(s, "WHERE"@, seq!['\n']);
            assert("WHERE\n"@ =~= "WHERE"@ + seq!['\n']) by {
                reveal_strlit("WHERE");
            }
        },
        Some(c) => {
            lemma_key(kw.condition, "WHERE"@);
            let x = followed(c, group_text(kw, q));
            lemma_followed(c, group_text(kw, q));
            lemma_spaced(kw.condition, x);
            lemma_clause_starts(kw.condition, c, group_text(kw, q), "WHERE"@ + seq![' ']);
            reveal_strlit("WHERE ");
            lemma_ascii_bytes(s, 6);
            assert(s.skip(6) =~= x) by {
                reveal_strlit("WHERE");
            }
            lemma_cut_group(kw, c, q);
            law_trim_none(c);
        },
    }
}

/// The columns of `GROUP BY` and the condition of `HAVING` are read, and the clauses behind
/// them are left.
proof fn lemma_grouping(kw: Keys, q: Query, r: Seq<char>)
    requires
        are_keywords(kw),
        is_plain_query(q),
        is_tail(r, group_text(kw, q)),
    ensures
        group_part(r).0 == q.group_by,
        group_part(r).1 == q.having,
        is_tail(group_part(r).2, order_text(kw, q)),
{
    lemma_words();
    lemma_distinct_words();
    lemma_group(kw, q, "HAVING"@);
    lemma_order(kw, q, "GROUP"@);
    lemma_order(kw, q, "HAVING"@);
    match q.group_by {
        None => {
            lemma_free_tail(r, group_text(kw, q), "GROUP"@);
            lemma_not_behind(r, "GROUP"@, " BY "@);
        },
        Some(g) => {
            lemma_key(kw.group_by, "GROUP BY"@);
            let x = followed(g, having_text(kw, q));
            lemma_followed(g, having_text(kw, q));
            lemma_behind(r, kw.group_by, "GROUP"@, " BY "@, x);
            law_trim_none(g);
            match q.having {
                None => {
                    lemma_free_followed(g, having_text(kw, q), "HAVING"@);
                    lemma_absent(x, "HAVING"@, " "@);
                    lemma_cut_order(kw, g, q);
                },
                Some(h) => {
                    lemma_key(kw.having, "HAVING"@);
                    let t = having_text(kw, q);
                    lemma_present(g, t, "HAVING"@, " "@);
                    let y = followed(h, order_text(kw, q));
                    lemma_followed(h, order_text(kw, q));
                    assert(t.skip(7) =~= y) by {
                        reveal_strlit("HAVING");
                    }
                    assert((seq![' '] + "HAVING"@ + " "@).len() == 8) by {
                        reveal_strlit("HAVING");
                    }
                    lemma_cut_order(kw, h, q);
                    law_trim_none(h);
                },
            }
        },
    }
}

/// The column of `ORDER BY` is read; what is left holds the clauses behind it.
proof fn lemma_ordering(kw: Keys, q: Query, r: Seq<char>)
    requires
        are_keywords(kw),
        is_plain_query(q),
        is_tail(r, order_text(kw, q)),
    ensures
        order_part(r).0 == q.order_by,
        is_tail(order_part(r).1, limit_text(kw, q)) || (q.order_by is Some && is_tail(
            order_part(r).1,
            order_text(kw, q),
        ) && (limit_text(kw, q).len() == 0 || order_part(r).1 != order_text(kw, q))),
{
    lemma_words();
    lemma_distinct_words();
    lemma_limit(kw, q, "ORDER"@);
    match q.order_by {
        None => {
            lemma_free_tail(r, order_text(kw, q), "ORDER"@);
            lemma_not_behind(r, "ORDER"@, " BY "@);
        },
        Some(o) => {
            lemma_key(kw.order_by, "ORDER BY"@);
            let x = followed(o, limit_text(kw, q));
            lemma_followed(o, limit_text(kw, q));
            lemma_behind(r, kw.order_by, "ORDER"@, " BY "@, x);
            lemma_cut_limit(kw, o, q);
            law_trim_none(o);
        },
    }
}

/// The first word of a number with what follows it is the number.
proof fn lemma_number_word(n: u64, rest: Seq<char>)
    requires
        is_rest(rest),
    ensures
        words(followed(show_nat(n as nat), rest)).len() > 0,
        words(followed(show_nat(n as nat), rest))[0] == show_nat(n as nat),
{
    let d = show_nat(n as nat);
    let s = followed(d, rest);
    lemma_show_nat(n as nat);
    assert forall|j: int| 0 <= j < d.len() implies !is_space(#[trigger] s[j]) by {
        assert(s[j] == d[j]);
        assert(is_digit(d[j]));
    }
    assert(!is_space(s[0]));
    assert(trim_start_kind(s, CharKind::Space) == s);
    let k = d.len() as int;
    if rest.len() > 0 {
        assert(s[k] == ' ');
    }
    lemma_space_index(s, k);
    assert(s.take(k) =~= d);
}

/// A number is read behind its keyword.
proof fn lemma_number(r: Seq<char>, n: u64, rest: Seq<char>, start: Seq<char>, inside: Seq<char>)
    requires
        is_rest(rest),
        behind(r, start, inside) == Some(followed(show_nat(n as nat), rest)),
    ensures
        number_part(r, start, inside) == Some(n),
{
    lemma_number_word(n, rest);
    law_read_shown_nat(n as nat, u64::MAX as nat);
}

/// The text with a clause before it, behind a space, is the clause and then the text.
proof fn lemma_order_split(kw: Keys, q: Query)
    requires
        are_keywords(kw),
        q.order_by is Some,
        limit_text(kw, q).len() > 0,
    ensures
        seq![' '] + order_text(kw, q) == spaced(
            seq![' '] + spaced(kw.order_by, q.order_by->0),
            limit_text(kw, q),
        ),
{
    assert(seq![' '] + order_text(kw, q) =~= spaced(
        seq![' '] + spaced(kw.order_by, q.order_by->0),
        limit_text(kw, q),
    ));
}

/// An `ORDER BY` with its column is free of the words of the clauses behind it.
proof fn lemma_order_free(kw: Keys, q: Query, w: Seq<char>)
    requires
        are_keywords(kw),
        is_plain_query(q),
        q.order_by is Some,
        w == "LIMIT"@ || w == "OFFSET"@,
    ensures
        is_free(seq![' '] + spaced(kw.order_by, q.order_by->0), w),
        is_ascii_text(seq![' '] + spaced(kw.order_by, q.order_by->0)),
        is_free(spaced(kw.order_by, q.order_by->0), w),
        is_ascii_text(spaced(kw.order_by, q.order_by->0)),
{
    lemma_words();
    lemma_distinct_words();
    lemma_key(kw.order_by, "ORDER BY"@);
    let o = q.order_by->0;
    lemma_key_free(kw.order_by, "ORDER BY"@, w);
    lemma_free_spaced(kw.order_by, o, w);
    let t = spaced(kw.order_by, o);
    lemma_free_tail(seq![' '] + t, t, w);
}

/// `LIMIT` is read from what is left.
proof fn lemma_limit_read(kw: Keys, q: Query, r: Seq<char>)
    requires
        are_keywords(kw),
        is_plain_query(q),
        is_tail(r, limit_text(kw, q)) || (q.order_by is Some && is_tail(r, order_text(kw, q)) && (
        limit_text(kw, q).len() == 0 || r != order_text(kw, q))),
    ensures
        number_part(r, "LIMIT "@, " LIMIT "@) == q.limit,
{
    lemma_words();
    lemma_distinct_words();
    lemma_limit(kw, q, "LIMIT"@);
    lemma_offset(kw, q, "OFFSET"@);
    lemma_order(kw, q, "LIMIT"@);
    lemma_key(kw.limit, "LIMIT"@);
    match q.limit {
        None => {
            if is_tail(r, limit_text(kw, q)) {
                lemma_free_tail(r, limit_text(kw, q), "LIMIT"@);
            } else {
                lemma_free_tail(r, order_text(kw, q), "LIMIT"@);
            }
            lemma_not_behind(r, "LIMIT"@, " "@);
        },
        Some(n) => {
            let d = show_nat(n as nat);
            lemma_number_free(n, "LIMIT"@);
            let x = followed(d, offset_text(kw, q));
            lemma_followed(d, offset_text(kw, q));
            if is_tail(r, limit_text(kw, q)) {
                lemma_behind(r, kw.limit, "LIMIT"@, " "@, x);
            } else {
                lemma_order_split(kw, q);
                lemma_order_free(kw, q, "LIMIT"@);
                lemma_behind_inside(
                    seq![' '] + spaced(kw.order_by, q.order_by->0),
                    kw.limit,
                    "LIMIT"@,
                    " "@,
                    x,
                );
            }
            lemma_number(r, n, offset_text(kw, q), "LIMIT "@, " LIMIT "@);
        },
    }
}

/// `OFFSET` is read from what is left.
proof fn lemma_offset_read(kw: Keys, q: Query, r: Seq<char>)
    requires
        are_keywords(kw),
        is_plain_query(q),
        is_tail(r, limit_text(kw, q)) || (q.order_by is Some && is_tail(r, order_text(kw, q)) && (
        limit_text(kw, q).len() == 0 || r != order_text(kw, q))),
    ensures
        number_part(r, "OFFSET "@, " OFFSET "@) == q.offset,
{
    lemma_words();
    lemma_distinct_words();
    lemma_limit(kw, q, "OFFSET"@);
    lemma_offset(kw, q, "OFFSET"@);
    lemma_order(kw, q, "OFFSET"@);
    lemma_key(kw.offset, "OFFSET"@);
    lemma_key(kw.limit, "LIMIT"@);
    match q.offset {
        None => {
            if is_tail(r, limit_text(kw, q)) {
                lemma_free_tail(r, limit_text(kw, q), "OFFSET"@);
            } else {
                lemma_free_tail(r, order_text(kw, q), "OFFSET"@);
            }
            lemma_not_behind(r, "OFFSET"@, " "@);
        },
        Some(n) => {
            let x = show_nat(n as nat);
            let e = Seq::<char>::empty();
            lemma_number_free(n, "OFFSET"@);
            assert(followed(x, e) == x);
            let t = offset_text(kw, q);
            assert(t == spaced(kw.offset, x));
            match q.limit {
                None => {
                    if is_tail(r, limit_text(kw, q)) {
                        lemma_behind(r, kw.offset, "OFFSET"@, " "@, x);
                    } else {
                        lemma_order_split(kw, q);
                        lemma_order_free(kw, q, "OFFSET"@);
                        lemma_behind_inside(
                            seq![' '] + spaced(kw.order_by, q.order_by->0),
                            kw.offset,
                            "OFFSET"@,
                            " "@,
                            x,
                        );
                    }
                },
                Some(m) => {
                    let l = spaced(kw.limit, show_nat(m as nat));
                    lemma_number_free(m, "OFFSET"@);
                    lemma_key_free(kw.limit, "LIMIT"@, "OFFSET"@);
                    lemma_free_spaced(kw.limit, show_nat(m as nat), "OFFSET"@);
                    assert(limit_text(kw, q) =~= spaced(l, t));
                    if r == limit_text(kw, q) {
                        lemma_behind_inside(l, kw.offset, "OFFSET"@, " "@, x);
                    } else if is_tail(r, limit_text(kw, q)) {
                        lemma_free_tail(seq![' '] + l, l, "OFFSET"@);
                        assert(r =~= spaced(seq![' '] + l, t));
                        lemma_behind_inside(seq![' '] + l, kw.offset, "OFFSET"@, " "@, x);
                    } else {
                        lemma_order_split(kw, q);
                        lemma_order_free(kw, q, "OFFSET"@);
                        let o = seq![' '] + spaced(kw.order_by, q.order_by->0);
                        lemma_free_spaced(o, l, "OFFSET"@);
                        assert(r =~= spaced(spaced(o, l), t));
                        lemma_behind_inside(spaced(o, l), kw.offset, "OFFSET"@, " "@, x);
                    }
                },
            }
            lemma_number(r, n, e, "OFFSET "@, " OFFSET "@);
        },
    }
}

// ---------------------------------------------------------------------------
// JOIN
// ---------------------------------------------------------------------------

/// The name of a column, with or without the name of its table before it.
pub open spec fn is_path(s: Seq<char>) -> bool {
    s.len() > 0 && forall|i: int| 0 <= i < s.len() ==> is_name_char(#[trigger] s[i]) || s[i] == '.'
}

/// The condition of a join.
pub open spec fn on_text(j: Join) -> Seq<char> {
    spaced(j.left, spaced(seq!['='], j.right))
}

/// The clauses of a query from its join on.
pub open spec fn join_text(kw: Keys, q: Query) -> Seq<char> {
    match q.join {
        None => where_text(kw, q),
        Some(j) => spaced(
            kw.join,
            spaced(j.table, spaced(kw.on, followed(on_text(j), where_text(kw, q)))),
        ),
    }
}

/// A join of a table, by two columns, in names of lower case that hold no word that ends a
/// clause.
pub open spec fn is_plain_join(j: Join) -> bool {
    &&& is_name(j.table)
    &&& is_path(j.left) && is_quiet(j.left)
    &&& is_path(j.right) && is_quiet(j.right)
    &&& lower(j.table) == j.table
    &&& lower(j.left) == j.left
    &&& lower(j.right) == j.right
}

proof fn lemma_on(j: Join)
    requires
        is_plain_join(j),
    ensures
        is_quiet(on_text(j)),
        index_of(on_text(j), '=') == j.left.len() + 1,
        trim(on_text(j).take(j.left.len() as int + 1)) == j.left,
        trim(on_text(j).skip(j.left.len() as int + 2)) == j.right,
{
    lemma_words();
    let eq = seq!['='];
    assert(is_ascii_text(eq));
    assert(upper(eq) =~= eq);
    let b = spaced(eq, j.right);
    let s = spaced(j.left, b);
    lemma_spaced(eq, j.right);
    lemma_spaced(j.left, b);
    lemma_on_free(j, "WHERE"@);
    lemma_on_free(j, "GROUP"@);
    lemma_on_free(j, "HAVING"@);
    lemma_on_free(j, "ORDER"@);
    lemma_on_free(j, "LIMIT"@);
    lemma_on_free(j, "OFFSET"@);
    let n = j.left.len() as int;
    assert forall|i: int| 0 <= i < n + 1 implies s[i] != '=' by {
        if i < n {
            assert(s[i] == j.left[i]);
            assert(is_name_char(j.left[i]) || j.left[i] == '.');
        }
    }
    assert(s[n + 1] == '=');
    lemma_index_of_is(s, '=', n + 1);
    let e = Seq::<char>::empty();
    assert(s.take(n + 1) =~= e + j.left + seq![' ']);
    law_trim(e, j.left, seq![' ']);
    assert(s.skip(n + 2) =~= seq![' '] + j.right);
    lemma_after_space(j.right);
}

proof fn lemma_on_free(j: Join, w: Seq<char>)
    requires
        is_plain_join(j),
        is_word(w),
    ensures
        is_free(on_text(j), w),
{
    lemma_words();
    let eq = seq!['='];
    assert(is_ascii_text(eq));
    assert(upper(eq) =~= eq);
    assert('A' <= w[0]);
    lemma_free_by(eq, w, 0);
    lemma_free_spaced(eq, j.right, w);
    lemma_free_spaced(j.left, spaced(eq, j.right), w);
}

/// The clauses behind a join begin with one of their keywords.
proof fn lemma_where_begins(kw: Keys, q: Query)
    requires
        are_keywords(kw),
        is_plain_query(q),
        where_text(kw, q).len() > 0,
    ensures
        upper(where_text(kw, q)).len() > 0,
        upper(where_text(kw, q))[0] == 'W' || upper(where_text(kw, q))[0] == 'G' || upper(where_text(kw, q))[0]
            == 'O' || upper(where_text(kw, q))[0] == 'L',
{
    lemma_words();
    reveal_strlit("WHERE");
    reveal_strlit("GROUP");
    reveal_strlit("ORDER");
    reveal_strlit("LIMIT");
    reveal_strlit("OFFSET");
    lemma_key(kw.condition, "WHERE"@);
    lemma_where(kw, q);
    lemma_group(kw, q, "WHERE"@);
    lemma_order(kw, q, "WHERE"@);
    lemma_limit(kw, q, "WHERE"@);
    lemma_offset(kw, q, "WHERE"@);
    let u = upper(where_text(kw, q));
    if q.condition is Some {
        lemma_clause_starts(kw.condition, q.condition->0, group_text(kw, q), "WHERE"@ + seq![' ']);
        lemma_begin(u, "WHERE"@ + seq![' ']);
    } else if q.group_by is Some {
        lemma_begin(u, "GROUP"@ + " BY "@);
    } else if q.order_by is Some {
        lemma_begin(u, "ORDER"@ + " BY "@);
    } else if q.limit is Some {
        lemma_begin(u, "LIMIT"@ + " "@);
    } else {
        assert(q.offset is Some);
        lemma_begin(u, "OFFSET"@ + " "@);
    }
}

proof fn lemma_begin(u: Seq<char>, w: Seq<char>)
    requires
        starts_with(u, w),
        w.len() > 0,
    ensures
        u.len() > 0,
        u[0] == w[0],
{
    assert(u.subrange(0, w.len() as int)[0] == u[0]);
}

proof fn lemma_cut_where(kw: Keys, b: Seq<char>, q: Query)
    requires
        are_keywords(kw),
        is_quiet(b),
        is_plain_query(q),
    ensures
        ({
            let x = followed(b, where_text(kw, q));
            let (y, tail) = cut(x, first_found(x, after_on()));
            y == b && is_tail(tail, where_text(kw, q))
        }),
{
    lemma_words();
    lemma_distinct_words();
    lemma_keys();
    let w = seq!["WHERE"@, "GROUP"@, "ORDER"@, "LIMIT"@, "OFFSET"@];
    let more = seq![" "@, " BY "@, " BY "@, " "@, " "@];
    let t = where_text(kw, q);
    lemma_where(kw, q);
    lemma_group(kw, q, "WHERE"@);
    lemma_order(kw, q, "WHERE"@);
    lemma_order(kw, q, "GROUP"@);
    lemma_order(kw, q, "ORDER"@);
    lemma_order(kw, q, "LIMIT"@);
    lemma_order(kw, q, "OFFSET"@);
    lemma_limit(kw, q, "LIMIT"@);
    lemma_offset(kw, q, "OFFSET"@);
    if q.condition is Some {
        lemma_key(kw.condition, "WHERE"@);
        lemma_clause_starts(kw.condition, q.condition->0, group_text(kw, q), "WHERE"@ + seq![' ']);
        lemma_found_behind(b, t, after_on(), w, more, 0);
    } else if q.group_by is Some {
        lemma_found_behind(b, t, after_on(), w, more, 1);
    } else if q.order_by is Some {
        lemma_found_behind(b, t, after_on(), w, more, 2);
    } else if q.limit is Some {
        lemma_found_behind(b, t, after_on(), w, more, 3);
    } else if q.offset is Some {
        lemma_found_behind(b, t, after_on(), w, more, 4);
    } else {
        lemma_none_found(b, after_on(), w, more);
    }
}

/// What stands behind the `JOIN` of a join.
proof fn lemma_join_head(kw: Keys, table: Seq<char>, x: Seq<char>)
    requires
        are_keywords(kw),
        is_name(table),
        is_clean(x),
    ensures
        ({
            let o = spaced(kw.on, x);
            let s = spaced(kw.join, spaced(table, o));
            &&& is_clean(s)
            &&& starts_with_keyword(s, "JOIN "@)
            &&& !starts_with_keyword(s, "INNER JOIN "@)
            &&& skip_bytes(s, 5) == spaced(table, o)
            &&& first_word(spaced(table, o)) == Ok::<(Seq<char>, Seq<char>), Seq<char>>((table, o))
            &&& starts_with_keyword(o, "ON "@)
            &&& trim(skip_bytes(o, 3)) == x
        }),
{
    reveal_strlit("INNER JOIN ");
    reveal_strlit("JOIN ");
    reveal_strlit("JOIN");
    reveal_strlit("ON ");
    reveal_strlit("ON");
    lemma_key(kw.join, "JOIN"@);
    lemma_key(kw.on, "ON"@);
    let o = spaced(kw.on, x);
    lemma_spaced(kw.on, x);
    lemma_clean_name(table);
    let y = spaced(table, o);
    lemma_spaced(table, o);
    let s = spaced(kw.join, y);
    lemma_spaced(kw.join, y);
    let u = upper(s);
    assert(u.subrange(0, 5) =~= "JOIN "@);
    if starts_with(u, "INNER JOIN "@) {
        lemma_begin(u, "INNER JOIN "@);
        assert(u[0] == 'J');
    }
    lemma_ascii_bytes(s, 5);
    assert(s.skip(5) =~= y);
    lemma_first(table, o);
    assert(upper(o).subrange(0, 3) =~= "ON "@);
    lemma_ascii_bytes(o, 3);
    assert(o.skip(3) =~= x);
    law_trim_none(x);
}

/// A join is read, and the clauses behind it are left.
proof fn lemma_join(kw: Keys, q: Query)
    requires
        are_keywords(kw),
        is_plain_query(q),
        q.join is Some ==> is_plain_join(q.join->0),
    ensures
        join_part(join_text(kw, q)) == Ok::<(Option<Join>, Seq<char>), Seq<char>>(
            (q.join, where_text(kw, q)),
        ),
        is_rest(join_text(kw, q)),
        is_ascii_text(join_text(kw, q)),
{
    lemma_where(kw, q);
    let t = where_text(kw, q);
    match q.join {
        None => {
            reveal_strlit("INNER JOIN ");
            reveal_strlit("JOIN ");
            if t.len() > 0 {
                lemma_where_begins(kw, q);
                let u = upper(t);
                if starts_with(u, "INNER JOIN "@) {
                    lemma_begin(u, "INNER JOIN "@);
                }
                if starts_with(u, "JOIN "@) {
                    lemma_begin(u, "JOIN "@);
                }
            } else {
                assert(upper(t) =~= t);
            }
        },
        Some(j) => {
            lemma_on(j);
            let x = followed(on_text(j), t);
            lemma_followed(on_text(j), t);
            lemma_join_head(kw, j.table, x);
            lemma_cut_where(kw, on_text(j), q);
            if t.len() > 0 {
                lemma_after_space(t);
            } else {
                law_trim_none(t);
            }
        },
    }
}

/// `INNER JOIN` is read as `JOIN` is.
pub proof fn law_inner_join(inner: Seq<char>, join: Seq<char>, rest: Seq<char>)
    requires
        same_but_case(inner, "INNER"@),
        same_but_case(join, "JOIN"@),
        is_clean(rest),
    ensures
        join_part(spaced(inner, spaced(join, rest))) == join_part(spaced(join, rest)),
{
    reveal_strlit("INNER");
    reveal_strlit("INNER JOIN ");
    reveal_strlit("JOIN ");
    reveal_strlit("JOIN");
    crate::sql::reading::lemma_capital(inner, "INNER"@);
    crate::sql::reading::lemma_capital(join, "JOIN"@);
    let j = spaced(join, rest);
    lemma_spaced(join, rest);
    let s = spaced(inner, j);
    lemma_spaced(inner, j);
    assert(upper(j).subrange(0, 5) =~= "JOIN "@);
    assert(upper(s).subrange(0, 11) =~= "INNER JOIN "@);
    if starts_with(upper(j), "INNER JOIN "@) {
        lemma_begin(upper(j), "INNER JOIN "@);
        assert(upper(j)[0] == 'J');
    }
    lemma_ascii_bytes(s, 11);
    lemma_ascii_bytes(j, 5);
    assert(s.skip(11) =~= rest);
    assert(j.skip(5) =~= rest);
}

/// A line end behind `WHERE` is as good as a space.
pub proof fn law_where_line(word: Seq<char>, rest: Seq<char>)
    requires
        same_but_case(word, "WHERE"@),
        is_clean(rest),
    ensures
        where_part(word + seq!['\n'] + rest) == where_part(spaced(word, rest)),
{
    lemma_words();
    reveal_strlit("WHERE");
    reveal_strlit("WHERE ");
    reveal_strlit("WHERE\n");
    crate::sql::reading::lemma_capital(word, "WHERE"@);
    lemma_spaced(word, rest);
    let s = spaced(word, rest);
    let b = seq!['\n'];
    let t = word + b + rest;
    assert(is_ascii_text(b));
    assert(upper(b) =~= b);
    lemma_ascii_concat(word, b);
    lemma_ascii_concat(word + b, rest);
    assert(upper(s).subrange(0, 6) =~= "WHERE "@);
    assert(upper(t).subrange(0, 6) =~= "WHERE\n"@);
    lemma_ascii_bytes(s, 6);
    lemma_ascii_bytes(t, 6);
    assert(s.skip(6) =~= rest);
    assert(t.skip(6) =~= rest);
}

// ---------------------------------------------------------------------------
// SELECT
// ---------------------------------------------------------------------------

/// A query as it is written, with its columns as the text `columns`.
pub open spec fn query_text(kw: Keys, head: Seq<char>, columns: Seq<char>, q: Query) -> Seq<char> {
    spaced(head, select_body(kw, columns, followed(q.table, join_text(kw, q)), q.distinct))
}

/// A query is read as it is written: `SELECT`, `DISTINCT` if it is, the columns, `FROM` and
/// the table, then the join, the condition, the grouping and what it must have, the order,
/// the limit and the offset, each of which may be there or not, with keywords in letters of
/// either case.
pub proof fn law_read_query(kw: Keys, head: Seq<char>, columns: Seq<char>, q: Query)
    requires
        are_keywords(kw),
        is_head(head, "SELECT"@, "select"@),
        is_clean(columns),
        is_free(columns, "FROM"@),
        is_free(columns, "DISTINCT"@),
        select_columns(columns) == q.columns,
        is_name(q.table),
        lower(q.table) == q.table,
        is_plain_query(q),
        q.join is Some ==> is_plain_join(q.join->0),
    ensures
        statement_of(query_text(kw, head, columns, q)) == Ok::<Statement, Seq<char>>(
            Statement::Select(q),
        ),
{
    lemma_join(kw, q);
    lemma_clean_name(q.table);
    let t = join_text(kw, q);
    let x = followed(q.table, t);
    lemma_followed(q.table, t);
    lemma_select_head(kw, columns, x, q.distinct);
    let all = select_body(kw, columns, x, q.distinct);
    lemma_dispatch_select(head, all);
    if t.len() > 0 {
        lemma_first(q.table, t);
        law_trim_none(t);
    } else {
        lemma_only(q.table);
        let e = Seq::<char>::empty();
        law_trim_none(e);
        assert(t =~= e);
    }
    lemma_where(kw, q);
    let r1 = where_part(where_text(kw, q)).1;
    lemma_grouping(kw, q, r1);
    let r2 = group_part(r1).2;
    lemma_ordering(kw, q, r2);
    let r3 = order_part(r2).1;
    lemma_limit_read(kw, q, r3);
    lemma_offset_read(kw, q, r3);
}

/// What stands behind `SELECT`.
pub open spec fn select_body(kw: Keys, columns: Seq<char>, x: Seq<char>, distinct: bool) -> Seq<
    char,
> {
    let body = spaced(columns, spaced(kw.from, x));
    if distinct {
        spaced(kw.distinct, body)
    } else {
        body
    }
}

proof fn lemma_select_head(kw: Keys, columns: Seq<char>, x: Seq<char>, distinct: bool)
    requires
        are_keywords(kw),
        is_clean(columns),
        is_free(columns, "FROM"@),
        is_free(columns, "DISTINCT"@),
        is_clean(x),
    ensures
        ({
            let all = select_body(kw, columns, x, distinct);
            let body = spaced(columns, spaced(kw.from, x));
            let n = columns.len() as int;
            &&& is_clean(all)
            &&& starts_with_keyword(all, "DISTINCT "@) == distinct
            &&& distinct ==> trim(skip_bytes(all, 9)) == body
            &&& find_keyword(body, " FROM "@) == Some(n)
            &&& take_bytes(body, n) == columns
            &&& trim(skip_bytes(body, n + 6)) == x
        }),
{
    lemma_words();
    reveal_strlit("FROM");
    reveal_strlit("DISTINCT");
    reveal_strlit("DISTINCT ");
    lemma_key(kw.from, "FROM"@);
    lemma_key(kw.distinct, "DISTINCT"@);
    let f = spaced(kw.from, x);
    lemma_spaced(kw.from, x);
    let body = spaced(columns, f);
    lemma_spaced(columns, f);
    let all = select_body(kw, columns, x, distinct);
    lemma_spaced(kw.distinct, body);
    let d = "DISTINCT "@;
    if distinct {
        assert(upper(all).subrange(0, 9) =~= d);
        lemma_ascii_bytes(all, 9);
        assert(all.skip(9) =~= body);
        law_trim_none(body);
    } else {
        lemma_not_distinct(columns, f);
    }
    assert(upper(f).subrange(0, 5) =~= "FROM"@ + " "@);
    lemma_present(columns, f, "FROM"@, " "@);
    assert(f.skip(5) =~= x);
    assert((seq![' '] + "FROM"@ + " "@).len() == 6);
    law_trim_none(x);
}

/// Columns that are free of `DISTINCT` do not begin with it.
proof fn lemma_not_distinct(columns: Seq<char>, rest: Seq<char>)
    requires
        is_clean(columns),
        is_free(columns, "DISTINCT"@),
        is_clean(rest),
    ensures
        !starts_with_keyword(spaced(columns, rest), "DISTINCT "@),
{
    reveal_strlit("DISTINCT");
    reveal_strlit("DISTINCT ");
    let s = spaced(columns, rest);
    lemma_spaced(columns, rest);
    law_case(columns);
    let u = upper(s);
    let w = "DISTINCT "@;
    if starts_with(u, w) {
        let z = u.subrange(0, 9);
        let n = columns.len() as int;
        if n >= 8 {
            assert(upper(columns).subrange(0, 8) =~= z.subrange(0, 8));
            assert(z.subrange(0, 8) =~= "DISTINCT"@);
            assert(stands_at(upper(columns), "DISTINCT"@, 0));
        } else {
            assert(z[n] == u[n] && u[n] == ' ');
            assert(w[n] != ' ');
        }
    }
}

proof fn lemma_dispatch_select(head: Seq<char>, rest: Seq<char>)
    requires
        is_head(head, "SELECT"@, "select"@),
        is_clean(rest),
    ensures
        statement_of(spaced(head, rest)) == select_of(spaced(head, rest)),
        after_words(spaced(head, rest), "SELECT"@, "select"@) == Some(rest),
{
    lemma_heads();
    lemma_head_upper(head);
    lemma_spaced(head, rest);
    lemma_head(head, "SELECT"@, "select"@, rest);
    let u = upper(spaced(head, rest));
    let tail = seq![' '] + upper(rest);
    let w = "SELECT"@;
    assert(u =~= w + tail);
    lemma_prefix(w, tail);
    lemma_no_prefix(w, tail, "CREATE TABLE"@, 0);
    lemma_no_prefix(w, tail, "DROP TABLE"@, 0);
    lemma_no_prefix(w, tail, "INSERT INTO"@, 0);
}

/// The columns of a query are read between commas, in lower case, without the white space
/// around them.
pub proof fn law_read_select_columns(p: Seq<Seq<char>>)
    requires
        p.len() > 0,
        forall|i: int| 0 <= i < p.len() ==> !(#[trigger] p[i]).contains(','),
    ensures
        select_columns(crate::text::join(p, seq![','])) == p.map_values(
            |x: Seq<char>| lower(trim(x)),
        ),
{
    crate::text::lemma_split_join(p, ',');
}

/// A `WHERE` behind something else is found too, and all that follows is its condition.
pub proof fn law_where_inside(x: Seq<char>, word: Seq<char>, condition: Seq<char>)
    requires
        is_clean(x),
        is_free(x, "WHERE"@),
        same_but_case(word, "WHERE"@),
        is_clean(condition),
    ensures
        where_part(spaced(x, spaced(word, condition))) == (Some(condition), condition),
{
    lemma_words();
    reveal_strlit("WHERE\n");
    reveal_strlit("WHERE ");
    reveal_strlit("WHERE");
    crate::sql::reading::lemma_capital(word, "WHERE"@);
    let t = spaced(word, condition);
    lemma_spaced(word, condition);
    lemma_spaced(x, t);
    let s = spaced(x, t);
    assert(upper(t).subrange(0, 6) =~= "WHERE"@ + " "@);
    lemma_present(x, t, "WHERE"@, " "@);
    assert(t.skip(6) =~= condition);
    assert((seq![' '] + "WHERE"@ + " "@).len() == 7);
    law_trim_none(condition);
    assert(s =~= x + (seq![' '] + t));
    crate::sql::reading::lemma_not_where(x, seq![' '] + t);
}

} // verus!
