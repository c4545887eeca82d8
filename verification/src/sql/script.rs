//! Scripts: statements with semicolons between them.

use vstd::prelude::*;

use super::parser::nonblank;
use super::parser::script_of;
use super::parser::script_texts;
use super::parser::statement_of;
use super::parser::statements_of;
use super::statement::Statement;
use crate::text::is_space;
use crate::text::lemma_split_cons;
use crate::text::lemma_split_first;
use crate::text::lemma_split_single;
use crate::text::split;
use crate::text::trim;
use crate::text::trim_end_kind;
use crate::text::trim_start_kind;
use crate::text::CharKind;

verus! {

/// White space at the start does not outlive trimming.
proof fn lemma_trim_front(c: char, s: Seq<char>)
    requires
        is_space(c),
    ensures
        trim(seq![c] + s) == trim(s),
{
    assert((seq![c] + s).skip(1) =~= s);
}

proof fn lemma_start_back(s: Seq<char>, c: char)
    requires
        is_space(c),
    ensures
        trim_start_kind(s.push(c), CharKind::Space) == if trim_start_kind(
            s,
            CharKind::Space,
        ).len() == 0 {
            Seq::empty()
        } else {
            trim_start_kind(s, CharKind::Space).push(c)
        },
    decreases s.len(),
{
    let w = s.push(c);
    if s.len() == 0 {
        assert(w.skip(1) =~= Seq::empty());
        assert(trim_start_kind(Seq::empty(), CharKind::Space) =~= Seq::empty());
    } else if is_space(s[0]) {
        assert(w.skip(1) =~= s.skip(1).push(c));
        lemma_start_back(s.skip(1), c);
    }
}

/// White space at the end does not outlive trimming.
proof fn lemma_trim_back(s: Seq<char>, c: char)
    requires
        is_space(c),
    ensures
        trim(s.push(c)) == trim(s),
{
    lemma_start_back(s, c);
    let t = trim_start_kind(s, CharKind::Space);
    if t.len() > 0 {
        assert(t.push(c).drop_last() =~= t);
    } else {
        assert(t =~= Seq::empty());
    }
}

/// Only what trimming leaves of the pieces counts.
proof fn lemma_nonblank_same(p: Seq<Seq<char>>, q: Seq<Seq<char>>)
    requires
        p.len() == q.len(),
        forall|i: int| 0 <= i < p.len() ==> trim(#[trigger] p[i]) == trim(q[i]),
    ensures
        nonblank(p) == nonblank(q),
    decreases p.len(),
{
    if p.len() > 0 {
        let a = p.drop_last();
        let b = q.drop_last();
        assert forall|i: int| 0 <= i < a.len() implies trim(#[trigger] a[i]) == trim(b[i]) by {
            assert(trim(p[i]) == trim(q[i]));
        }
        lemma_nonblank_same(a, b);
        assert(trim(p[p.len() - 1]) == trim(q[q.len() - 1]));
    }
}

proof fn lemma_nonblank_concat(p: Seq<Seq<char>>, q: Seq<Seq<char>>)
    ensures
        nonblank(p + q) == nonblank(p) + nonblank(q),
    decreases q.len(),
{
    if q.len() == 0 {
        assert(p + q =~= p);
        assert(nonblank(p) + nonblank(q) =~= nonblank(p));
    } else {
        assert((p + q).drop_last() =~= p + q.drop_last());
        lemma_nonblank_concat(p, q.drop_last());
        assert(nonblank(p + q) =~= nonblank(p) + nonblank(q));
    }
}

/// A character that is no separator goes to the first piece.
proof fn lemma_split_front(c: char, s: Seq<char>, sep: char)
    requires
        c != sep,
    ensures
        split(seq![c] + s, sep) == split(s, sep).update(0, seq![c] + split(s, sep)[0]),
{
    let p = split(s, sep);
    lemma_split_cons(s, sep);
    let first = seq![c] + p[0];
    assert(!first.contains(sep)) by {
        assert forall|i: int| 0 <= i < first.len() implies first[i] != sep by {
            if i > 0 {
                assert(p[0].contains(p[0][i - 1]));
            }
        }
    }
    if p.len() == 1 {
        lemma_split_single(first, sep);
        assert(p.update(0, first) =~= seq![first]);
    } else {
        let i = crate::text::index_of(s, sep);
        let rest = s.skip(i + 1);
        lemma_split_first(first, rest, sep);
        assert(seq![c] + s =~= first + seq![sep] + rest);
        assert(seq![first] + p.skip(1) =~= p.update(0, first));
    }
}

/// Two texts with a separator between them have the pieces of both.
proof fn lemma_split_both(a: Seq<char>, b: Seq<char>, sep: char)
    ensures
        split(a + seq![sep] + b, sep) == split(a, sep) + split(b, sep),
    decreases a.len(),
{
    let p = split(a, sep);
    lemma_split_cons(a, sep);
    if p.len() == 1 {
        lemma_split_first(a, b, sep);
        assert(p =~= seq![a]);
    } else {
        let rest = a.skip(crate::text::index_of(a, sep) + 1);
        lemma_split_both(rest, b, sep);
        lemma_split_first(p[0], rest + seq![sep] + b, sep);
        assert(a + seq![sep] + b =~= p[0] + seq![sep] + (rest + seq![sep] + b));
        assert(seq![p[0]] + (p.skip(1) + split(b, sep)) =~= p + split(b, sep));
    }
}

/// A character that is no separator goes to the last piece.
proof fn lemma_split_back(s: Seq<char>, c: char, sep: char)
    requires
        c != sep,
    ensures
        split(s.push(c), sep) == split(s, sep).update(
            split(s, sep).len() - 1,
            split(s, sep).last().push(c),
        ),
    decreases s.len(),
{
    let p = split(s, sep);
    lemma_split_cons(s, sep);
    if p.len() == 1 {
        let w = s.push(c);
        assert(!w.contains(sep)) by {
            assert forall|i: int| 0 <= i < w.len() implies w[i] != sep by {
                if i < s.len() {
                    assert(s.contains(s[i]));
                }
            }
        }
        lemma_split_single(w, sep);
        assert(p.update(0, p.last().push(c)) =~= seq![w]);
    } else {
        let rest = s.skip(crate::text::index_of(s, sep) + 1);
        lemma_split_back(rest, c, sep);
        lemma_split_first(p[0], rest.push(c), sep);
        assert(s.push(c) =~= p[0] + seq![sep] + rest.push(c));
        let q = p.skip(1);
        assert(q.last() == p.last());
        assert(seq![p[0]] + q.update(q.len() - 1, q.last().push(c)) =~= p.update(
            p.len() - 1,
            p.last().push(c),
        ));
    }
}

proof fn lemma_start_pieces(s: Seq<char>)
    ensures
        nonblank(split(trim_start_kind(s, CharKind::Space), ';')) == nonblank(split(s, ';')),
    decreases s.len(),
{
    if s.len() > 0 && is_space(s[0]) {
        let c = s[0];
        let rest = s.skip(1);
        lemma_start_pieces(rest);
        assert(s =~= seq![c] + rest);
        lemma_split_front(c, rest, ';');
        lemma_split_cons(rest, ';');
        let p = split(rest, ';');
        let q = split(s, ';');
        assert forall|i: int| 0 <= i < p.len() implies trim(#[trigger] p[i]) == trim(q[i]) by {
            if i == 0 {
                lemma_trim_front(c, p[0]);
            }
        }
        lemma_nonblank_same(p, q);
    }
}

proof fn lemma_end_pieces(s: Seq<char>)
    ensures
        nonblank(split(trim_end_kind(s, CharKind::Space), ';')) == nonblank(split(s, ';')),
    decreases s.len(),
{
    if s.len() > 0 && is_space(s.last()) {
        let c = s.last();
        let front = s.drop_last();
        lemma_end_pieces(front);
        assert(s =~= front.push(c));
        lemma_split_back(front, c, ';');
        lemma_split_cons(front, ';');
        let p = split(front, ';');
        let q = split(s, ';');
        assert forall|i: int| 0 <= i < p.len() implies trim(#[trigger] p[i]) == trim(q[i]) by {
            if i == p.len() - 1 {
                lemma_trim_back(p.last(), c);
            }
        }
        lemma_nonblank_same(p, q);
    }
}

proof fn lemma_trim_start_again(s: Seq<char>)
    ensures
        trim_start_kind(trim_start_kind(s, CharKind::Space), CharKind::Space) == trim_start_kind(
            s,
            CharKind::Space,
        ),
    decreases s.len(),
{
    if s.len() > 0 && is_space(s[0]) {
        lemma_trim_start_again(s.skip(1));
    }
}

proof fn lemma_trim_end_again(s: Seq<char>)
    ensures
        trim_end_kind(trim_end_kind(s, CharKind::Space), CharKind::Space) == trim_end_kind(
            s,
            CharKind::Space,
        ),
    decreases s.len(),
{
    if s.len() > 0 && is_space(s.last()) {
        lemma_trim_end_again(s.drop_last());
    }
}

/// Trimming twice is trimming once.
pub proof fn lemma_trim_again(s: Seq<char>)
    ensures
        trim(trim(s)) == trim(s),
{
    let t = trim_start_kind(s, CharKind::Space);
    lemma_trim_start_again(s);
    crate::text::lemma_trim_start(s, CharKind::Space);
    crate::text::lemma_trim_end(t, CharKind::Space);
    lemma_trim_end_again(t);
    let e = trim(s);
    assert(trim_start_kind(e, CharKind::Space) == e);
}

/// Trimming keeps what is no white space.
proof fn lemma_start_keeps(s: Seq<char>, c: char)
    requires
        s.contains(c),
        !is_space(c),
    ensures
        trim_start_kind(s, CharKind::Space).contains(c),
    decreases s.len(),
{
    if is_space(s[0]) {
        let i = choose|i: int| 0 <= i < s.len() && s[i] == c;
        assert(s.skip(1)[i - 1] == c);
        lemma_start_keeps(s.skip(1), c);
    }
}

proof fn lemma_end_keeps(s: Seq<char>, c: char)
    requires
        s.contains(c),
        !is_space(c),
    ensures
        trim_end_kind(s, CharKind::Space).contains(c),
    decreases s.len(),
{
    if is_space(s.last()) {
        let i = choose|i: int| 0 <= i < s.len() && s[i] == c;
        assert(s.drop_last()[i] == c);
        lemma_end_keeps(s.drop_last(), c);
    }
}

/// The texts of the statements of a script are its pieces that are not blank.
proof fn lemma_script_texts(s: Seq<char>)
    requires
        trim(s).len() > 0,
    ensures
        script_texts(s) == nonblank(split(s, ';')),
{
    let t = trim(s);
    let u = trim_start_kind(s, CharKind::Space);
    lemma_start_pieces(s);
    lemma_end_pieces(u);
    if !t.contains(';') {
        lemma_split_single(t, ';');
        lemma_trim_again(s);
        reveal_with_fuel(nonblank, 2);
        assert(seq![t].drop_last() =~= Seq::empty());
        assert(nonblank(seq![t]) =~= seq![t]);
    }
}

/// The statements of `a` and then those of `b`, or the first error.
pub open spec fn in_turn(
    a: Result<Seq<Statement>, Seq<char>>,
    b: Result<Seq<Statement>, Seq<char>>,
) -> Result<Seq<Statement>, Seq<char>> {
    match (a, b) {
        (Err(e), _) => Err(e),
        (Ok(_), Err(e)) => Err(e),
        (Ok(x), Ok(y)) => Ok(x + y),
    }
}

proof fn lemma_statements_concat(p: Seq<Seq<char>>, q: Seq<Seq<char>>)
    ensures
        statements_of(p + q) == in_turn(statements_of(p), statements_of(q)),
    decreases q.len(),
{
    if q.len() == 0 {
        assert(p + q =~= p);
        if statements_of(p) is Ok {
            assert(statements_of(p)->Ok_0 + Seq::<Statement>::empty() =~= statements_of(p)->Ok_0);
        }
    } else {
        assert((p + q).drop_last() =~= p + q.drop_last());
        assert((p + q).last() == q.last());
        lemma_statements_concat(p, q.drop_last());
        match (statements_of(p), statements_of(q.drop_last()), statement_of(q.last())) {
            (Ok(x), Ok(y), Ok(z)) => {
                assert((x + y).push(z) =~= x + y.push(z));
            },
            _ => {},
        }
    }
}

/// Two scripts with a semicolon between them are the statements of the one and then
/// those of the other, up to the first that cannot be read.
pub proof fn law_scripts_in_turn(a: Seq<char>, b: Seq<char>)
    requires
        trim(a).len() > 0,
        trim(b).len() > 0,
    ensures
        script_of(a + seq![';'] + b) == in_turn(script_of(a), script_of(b)),
{
    let s = a + seq![';'] + b;
    lemma_script_texts(a);
    lemma_script_texts(b);
    lemma_split_both(a, b, ';');
    lemma_nonblank_concat(split(a, ';'), split(b, ';'));
    lemma_statements_concat(script_texts(a), script_texts(b));
    assert(s[a.len() as int] == ';');
    lemma_start_keeps(s, ';');
    lemma_end_keeps(trim_start_kind(s, CharKind::Space), ';');
    lemma_script_texts(s);
}

} // verus!
