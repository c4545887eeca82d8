//! What ordering rows by similarity gives.

use vstd::prelude::*;

use crate::double::Double;
use crate::executor::answers::distinct_columns;
use crate::executor::answers::law_exact_column;
use crate::executor::answers::rearranged;
use crate::executor::calls::call_text;
use crate::executor::calls::law_similarity_call;
use crate::executor::calls::lemma_call_shape;
use crate::executor::clauses::is_name;
use crate::executor::clauses::lemma_ascii_concat;
use crate::executor::select::last_keyword;
use crate::executor::select::order_call;
use crate::executor::select::order_keys;
use crate::executor::select::order_of;
use crate::executor::select::ordered;
use crate::executor::select::rows_at;
use crate::executor::sort::goes_ahead;
use crate::executor::sort::law_one_type_consistent;
use crate::executor::sort::law_sorted;
use crate::executor::sort::of_one_type;
use crate::executor::sort::sorted_places;
use crate::storage::round_trip::storable;
use crate::storage::schema::Column;
use crate::storage::schema::Record;
use crate::text::byte_len;
use crate::text::ends_with;
use crate::text::is_ascii_text;
use crate::text::is_space;
use crate::text::lemma_ascii_bytes;
use crate::text::lower;
use crate::text::take_bytes;
use crate::text::trim;
use crate::text::upper;
use crate::texts::law_case;
use crate::texts::law_find_last;
use crate::texts::law_same_case;
use crate::texts::law_trim_none;
use crate::texts::same_but_case;
use crate::texts::stands_at;
use crate::types::cosine;
use crate::types::Datum;

verus! {

/// A direction behind a call is told apart from it.
proof fn lemma_direction(call: Seq<char>, word: Seq<char>, plain: Seq<char>, key: Seq<char>)
    requires
        is_ascii_text(call),
        call.len() > 0,
        !is_space(call[0]),
        same_but_case(word, plain),
        plain == "ASC"@ || plain == "DESC"@,
        key == seq![' '] + plain,
    ensures
        ({
            let s = call + seq![' '] + word;
            &&& trim(s) == s
            &&& ends_with(upper(s), key)
            &&& take_bytes(s, byte_len(s) - key.len()) == call
            &&& last_keyword(s, key) is Some
            &&& upper(s) == upper(call) + key
        }),
{
    reveal_strlit("ASC");
    reveal_strlit("DESC");
    let b = seq![' '];
    let s = call + b + word;
    law_same_case(word, plain);
    law_case(plain);
    assert(upper(plain) =~= plain) by {
        assert forall|i: int| 0 <= i < plain.len() implies upper(plain)[i] == plain[i] by {
            assert(upper(plain)[i] as u32 == plain[i] as u32);
        }
    }
    assert(is_ascii_text(b));
    assert(upper(b) =~= b);
    lemma_ascii_concat(call, b);
    lemma_ascii_concat(call + b, word);
    law_case(call);
    let u = upper(s);
    assert(u =~= upper(call) + key);
    let n = call.len() as int;
    assert(u.subrange(n, n + key.len()) =~= key);
    assert(stands_at(u, key, n));
    law_find_last(u, key);
    assert(s[0] == call[0]);
    let l = word.len() - 1;
    assert(word[l] == plain[l] || word[l] != plain[l]);
    assert(s.last() == word[l]);
    law_trim_none(s);
    lemma_ascii_bytes(s, s.len() as int);
    assert(s.take(s.len() as int) =~= s);
    lemma_ascii_bytes(s, n);
    assert(s.take(n) =~= call);
}

/// `ORDER BY` a similarity is by the similarity to the vector of the call, and downwards
/// exactly where `DESC` stands behind it.
pub proof fn law_order_call(word: Seq<char>, column: Seq<char>, v: Seq<Double>, desc: Seq<char>)
    requires
        same_but_case(word, "VECTOR_SIMILARITY"@),
        is_name(column),
        v.len() > 0,
        storable(Datum::Vector(v)),
        same_but_case(desc, "DESC"@),
    ensures
        order_call(call_text(word, column, v) + seq![' '] + desc) == Some((lower(column), v)),
        order_of(call_text(word, column, v) + seq![' '] + desc).1,
{
    reveal_strlit(" DESC");
    reveal_strlit("DESC");
    let c = call_text(word, column, v);
    let e = Seq::<char>::empty();
    assert(is_ascii_text(e));
    lemma_call_shape(word, column, v, e);
    assert(c + e =~= c);
    assert(" DESC"@ =~= seq![' '] + "DESC"@);
    lemma_direction(c, desc, "DESC"@, " DESC"@);
    law_similarity_call(word, column, v);
}

/// The similarity of a row's vector in a column to a vector.
pub open spec fn similarity(r: Record, index: int, v: Seq<Double>) -> Double {
    cosine(r.values[index]->Vector_0, v)
}

/// Rows with the most similar first; rows that are equally similar stay in the order of
/// their places.
pub open spec fn most_similar_first(
    sorted: Seq<Record>,
    p: Seq<nat>,
    index: int,
    v: Seq<Double>,
) -> bool {
    forall|i: int, j: int|
        0 <= i < j < sorted.len() ==> ({
            let a = similarity(#[trigger] sorted[i], index, v);
            let b = similarity(#[trigger] sorted[j], index, v);
            !a.is_less(b) && (b.is_less(a) || p[i] < p[j])
        })
}

/// `ORDER BY vector_similarity(column, vector) DESC` gives all rows, each once, the most
/// similar first.
pub proof fn law_most_similar_first(
    rows: Seq<Record>,
    c: Seq<Column>,
    i: int,
    word: Seq<char>,
    v: Seq<Double>,
    desc: Seq<char>,
)
    requires
        same_but_case(word, "VECTOR_SIMILARITY"@),
        same_but_case(desc, "DESC"@),
        distinct_columns(c),
        0 <= i < c.len(),
        is_name(c[i].name),
        lower(c[i].name) == c[i].name,
        v.len() > 0,
        storable(Datum::Vector(v)),
        forall|k: int|
            0 <= k < rows.len() ==> c[i].index < (#[trigger] rows[k]).values.len()
                && rows[k].values[c[i].index as int] is Vector && !similarity(
                rows[k],
                c[i].index as int,
                v,
            ).is_nan(),
    ensures
        ({
            let o = call_text(word, c[i].name, v) + seq![' '] + desc;
            &&& ordered(rows, c, Some(o)) is Ok
            &&& is_ranked(rows, ordered(rows, c, Some(o))->Ok_0, c[i].index as int, v)
        }),
{
    let name = c[i].name;
    let o = call_text(word, name, v) + seq![' '] + desc;
    let index = c[i].index as int;
    law_order_call(word, name, v, desc);
    law_exact_column(c, name);
    let other = match crate::executor::column::find_column(
        c,
        crate::executor::column::Naming::Either,
        order_of(o).0,
    ) {
        Some(x) => x.index as int,
        None => 0,
    };
    let keys = order_keys(rows, c, Some((name, v)), other);
    assert forall|k: int| 0 <= k < keys.len() implies #[trigger] keys[k] == Some(
        Datum::Float(similarity(rows[k], index, v)),
    ) && !similarity(rows[k], index, v).is_nan() by {
        assert(c[i].index < rows[k].values.len());
    }
    assert(of_one_type(keys));
    law_one_type_consistent(keys, true);
    law_sorted(keys, true);
    let p = sorted_places(keys, true);
    let sorted = rows_at(rows, p);
    assert forall|k: int| 0 <= k < p.len() implies #[trigger] p[k] < rows.len() && sorted[k]
        == rows[p[k] as int] by {
        assert(p[k] < keys.len());
    }
    assert(rearranged(rows, sorted, p));
    assert forall|x: int, y: int| 0 <= x < y < sorted.len() implies ({
        let a = similarity(#[trigger] sorted[x], index, v);
        let b = similarity(#[trigger] sorted[y], index, v);
        !a.is_less(b) && (b.is_less(a) || p[x] < p[y])
    }) by {
        assert(p[x] < rows.len() && p[y] < rows.len());
        assert(goes_ahead(keys, true, p[x], p[y]));
        assert(keys[p[x] as int] == Some(
            Datum::Float(similarity(rows[p[x] as int], index, v)),
        ));
        assert(keys[p[y] as int] == Some(
            Datum::Float(similarity(rows[p[y] as int], index, v)),
        ));
    }
    assert(most_similar_first(sorted, p, index, v));
    assert(ordered(rows, c, Some(o)) == Ok::<Seq<Record>, Seq<char>>(sorted));
}

/// The rows `sorted` are the rows `rows`, each once, the most similar first.
pub open spec fn is_ranked(
    rows: Seq<Record>,
    sorted: Seq<Record>,
    index: int,
    v: Seq<Double>,
) -> bool {
    exists|p: Seq<nat>|
        #[trigger] rearranged(rows, sorted, p) && most_similar_first(sorted, p, index, v)
}

} // verus!
