//! `LIKE`: matching a text against a pattern.

use vstd::prelude::*;

use crate::text::is_ascii_text;
use crate::text::lower;
use crate::text::to_lower;
use crate::texts::law_case;
use crate::texts::law_same_case;
use crate::texts::same_but_case;
use crate::texts::stands_at;

verus! {

/// A text matches a pattern: `%` stands for any text, `_` for any one character, and
/// any other character for itself.
pub open spec fn matches_pattern(t: Seq<char>, p: Seq<char>) -> bool
    decreases p.len(), t.len(),
{
    if p.len() == 0 {
        t.len() == 0
    } else if p[0] == '%' {
        matches_pattern(t, p.skip(1)) || (t.len() > 0 && matches_pattern(t.skip(1), p))
    } else {
        t.len() > 0 && (p[0] == '_' || p[0] == t[0]) && matches_pattern(t.skip(1), p.skip(1))
    }
}

/// A text matches a pattern, whatever the case of their letters.
pub open spec fn is_like(t: Seq<char>, p: Seq<char>) -> bool {
    matches_pattern(lower(t), lower(p))
}

/// Whether the text matches the pattern, by the ends of both: `row[j]` tells whether
/// what is left of the text matches the pattern from `j` on.
fn wildcard_match(t: &Vec<char>, p: &Vec<char>) -> (r: bool)
    ensures
        r == matches_pattern(t@, p@),
{
    let n: usize = p.len();
    let mut i: usize = t.len();
    let mut row: Vec<bool> = last_row(p);
    assert(t@.skip(i as int) =~= Seq::empty());
    while i > 0
        invariant
            i <= t.len(),
            n == p.len(),
            row.len() == n + 1,
            forall|j: int|
                0 <= j <= n ==> #[trigger] row@[j] == matches_pattern(t@.skip(i as int), p@.skip(j)),
        decreases i,
    {
        i -= 1;
        let ghost rest = t@.skip(i as int);
        assert(rest.skip(1) =~= t@.skip(i + 1));
        let mut next: Vec<bool> = Vec::new();
        next.push(false);
        assert(p@.skip(n as int) =~= Seq::empty());
        // `next` is filled from its end, so it holds the row in reverse.
        let mut j: usize = n;
        while j > 0
            invariant
                j <= n,
                n == p.len(),
                i < t.len(),
                row.len() == n + 1,
                rest == t@.skip(i as int),
                rest.len() > 0,
                rest.skip(1) == t@.skip(i + 1),
                next.len() == n + 1 - j,
                forall|k: int|
                    0 <= k <= n ==> #[trigger] row@[k] == matches_pattern(
                        rest.skip(1),
                        p@.skip(k),
                    ),
                forall|k: int|
                    j <= k <= n ==> #[trigger] next@[n - k] == matches_pattern(rest, p@.skip(k)),
            decreases j,
        {
            j -= 1;
            let ghost q = p@.skip(j as int);
            assert(q.skip(1) =~= p@.skip(j + 1));
            assert(q[0] == p@[j as int]);
            assert(row@[j as int] == matches_pattern(rest.skip(1), q));
            assert(row@[j + 1] == matches_pattern(rest.skip(1), q.skip(1)));
            assert(next@[n - (j + 1)] == matches_pattern(rest, q.skip(1)));
            let b: bool = if p[j] == '%' {
                next[n - j - 1] || row[j]
            } else {
                (p[j] == '_' || p[j] == t[i]) && row[j + 1]
            };
            let ghost before = next@;
            next.push(b);
            assert forall|k: int| j <= k <= n implies #[trigger] next@[n - k] == matches_pattern(
                rest,
                p@.skip(k),
            ) by {
                if k > j {
                    assert(before[n - k] == matches_pattern(rest, p@.skip(k)));
                    assert(next@[n - k] == before[n - k]);
                }
            }
        }
        row = reversed(&next);
        assert forall|k: int| 0 <= k <= n implies #[trigger] row@[k] == matches_pattern(
            rest,
            p@.skip(k),
        ) by {
            assert(next@[n - k] == matches_pattern(rest, p@.skip(k)));
        }
    }
    assert(t@.skip(0) =~= t@);
    assert(p@.skip(0) =~= p@);
    row[0]
}

fn reversed(v: &Vec<bool>) -> (r: Vec<bool>)
    ensures
        r@.len() == v@.len(),
        forall|k: int| 0 <= k < v@.len() ==> #[trigger] r@[k] == v@[v@.len() - 1 - k],
{
    let mut r: Vec<bool> = Vec::new();
    let mut i: usize = v.len();
    while i > 0
        invariant
            i <= v.len(),
            r.len() == v.len() - i,
            forall|k: int| 0 <= k < r@.len() ==> #[trigger] r@[k] == v@[v@.len() - 1 - k],
        decreases i,
    {
        i -= 1;
        r.push(v[i]);
    }
    r
}

/// Whether the empty text matches the pattern from each place on.
fn last_row(p: &Vec<char>) -> (r: Vec<bool>)
    ensures
        r@.len() == p@.len() + 1,
        forall|j: int|
            0 <= j <= p@.len() ==> #[trigger] r@[j] == matches_pattern(Seq::empty(), p@.skip(j)),
{
    let n: usize = p.len();
    let mut next: Vec<bool> = Vec::new();
    next.push(true);
    assert(p@.skip(n as int) =~= Seq::empty());
    let mut j: usize = n;
    while j > 0
        invariant
            j <= n,
            n == p.len(),
            next.len() == n + 1 - j,
            forall|k: int|
                j <= k <= n ==> #[trigger] next@[n - k] == matches_pattern(
                    Seq::empty(),
                    p@.skip(k),
                ),
        decreases j,
    {
        j -= 1;
        let ghost q = p@.skip(j as int);
        assert(q.skip(1) =~= p@.skip(j + 1));
        assert(next@[n - (j + 1)] == matches_pattern(Seq::empty(), q.skip(1)));
        let b: bool = p[j] == '%' && next[n - j - 1];
        let ghost before = next@;
        next.push(b);
        assert forall|k: int| j <= k <= n implies #[trigger] next@[n - k] == matches_pattern(
            Seq::empty(),
            p@.skip(k),
        ) by {
            if k > j {
                assert(next@[n - k] == before[n - k]);
            }
        }
    }
    let r = reversed(&next);
    assert forall|k: int| 0 <= k <= n implies #[trigger] r@[k] == matches_pattern(
        Seq::empty(),
        p@.skip(k),
    ) by {
        assert(next@[n - k] == matches_pattern(Seq::empty(), p@.skip(k)));
    }
    r
}

/// Whether the text matches the pattern, whatever the case of their letters.
pub fn like_match(text: &Vec<char>, pattern: &Vec<char>) -> (r: bool)
    ensures
        r == is_like(text@, pattern@),
{
    wildcard_match(&to_lower(text), &to_lower(pattern))
}

/// A pattern without `%` and `_` matches itself alone.
pub proof fn law_plain_pattern(t: Seq<char>, p: Seq<char>)
    requires
        !p.contains('%'),
        !p.contains('_'),
    ensures
        matches_pattern(t, p) <==> t == p,
    decreases p.len(),
{
    if p.len() == 0 {
        assert(t.len() == 0 ==> t =~= p);
    } else {
        assert(p.contains(p[0]));
        let q = p.skip(1);
        assert forall|i: int| 0 <= i < q.len() implies q[i] != '%' && q[i] != '_' by {
            assert(q[i] == p[i + 1]);
            assert(p.contains(p[i + 1]));
        }
        if t.len() > 0 {
            law_plain_pattern(t.skip(1), q);
            if t.skip(1) == q && t[0] == p[0] {
                assert(t =~= seq![t[0]] + t.skip(1));
                assert(p =~= seq![p[0]] + q);
            }
        }
    }
}

/// `%` at the end of a pattern stands for any text.
pub proof fn law_open_pattern(t: Seq<char>)
    ensures
        matches_pattern(t, seq!['%']),
    decreases t.len(),
{
    let p = seq!['%'];
    assert(p.skip(1) =~= Seq::empty());
    if t.len() > 0 {
        law_open_pattern(t.skip(1));
    } else {
        assert(matches_pattern(t, Seq::empty()));
    }
}

/// A pattern without `%` matches the texts of its length that have each of its characters in
/// its place, `_` standing for any character.
pub proof fn law_pattern_by_place(t: Seq<char>, p: Seq<char>)
    requires
        !p.contains('%'),
    ensures
        matches_pattern(t, p) <==> t.len() == p.len() && forall|i: int|
            0 <= i < p.len() ==> #[trigger] p[i] == '_' || p[i] == t[i],
    decreases p.len(),
{
    if p.len() > 0 {
        assert(p.contains(p[0]));
        let q = p.skip(1);
        assert forall|i: int| 0 <= i < q.len() implies q[i] != '%' by {
            assert(q[i] == p[i + 1]);
            assert(p.contains(p[i + 1]));
        }
        if t.len() > 0 {
            let u = t.skip(1);
            law_pattern_by_place(u, q);
            if t.len() == p.len() && forall|i: int|
                0 <= i < p.len() ==> #[trigger] p[i] == '_' || p[i] == t[i] {
                assert forall|i: int| 0 <= i < q.len() implies #[trigger] q[i] == '_' || q[i]
                    == u[i] by {
                    assert(p[i + 1] == '_' || p[i + 1] == t[i + 1]);
                }
            }
            if matches_pattern(t, p) {
                assert forall|i: int| 0 <= i < p.len() implies #[trigger] p[i] == '_' || p[i]
                    == t[i] by {
                    if i > 0 {
                        assert(q[i - 1] == '_' || q[i - 1] == u[i - 1]);
                    }
                }
            }
        }
    }
}

/// `%` in front of a pattern stands for any text: what is left behind it matches the rest.
pub proof fn law_pattern_any(t: Seq<char>, p: Seq<char>)
    ensures
        matches_pattern(t, seq!['%'] + p) <==> exists|i: int|
            0 <= i <= t.len() && #[trigger] matches_pattern(t.skip(i), p),
    decreases t.len(),
{
    let w = seq!['%'] + p;
    assert(w.skip(1) =~= p);
    assert(t.skip(0) =~= t);
    if matches_pattern(t, p) {
        assert(matches_pattern(t.skip(0), p));
    }
    if t.len() > 0 {
        let u = t.skip(1);
        law_pattern_any(u, p);
        if matches_pattern(u, w) {
            let i = choose|i: int| 0 <= i <= u.len() && #[trigger] matches_pattern(u.skip(i), p);
            assert(u.skip(i) =~= t.skip(i + 1));
            assert(matches_pattern(t.skip(i + 1), p));
        }
        if exists|i: int| 0 <= i <= t.len() && #[trigger] matches_pattern(t.skip(i), p) {
            let i = choose|i: int| 0 <= i <= t.len() && #[trigger] matches_pattern(t.skip(i), p);
            if i > 0 {
                assert(u.skip(i - 1) =~= t.skip(i));
                assert(matches_pattern(u.skip(i - 1), p));
            }
        }
    } else {
        if exists|i: int| 0 <= i <= t.len() && #[trigger] matches_pattern(t.skip(i), p) {
            let i = choose|i: int| 0 <= i <= t.len() && #[trigger] matches_pattern(t.skip(i), p);
            assert(i == 0);
        }
    }
}

/// A pattern that begins with a part without `%` matches the texts whose beginning matches
/// that part, and what is left the rest.
pub proof fn law_pattern_parts(t: Seq<char>, a: Seq<char>, p: Seq<char>)
    requires
        !a.contains('%'),
    ensures
        matches_pattern(t, a + p) <==> t.len() >= a.len() && matches_pattern(
            t.take(a.len() as int),
            a,
        ) && matches_pattern(t.skip(a.len() as int), p),
    decreases a.len(),
{
    if a.len() == 0 {
        assert(a + p =~= p);
        assert(t.skip(0) =~= t);
    } else {
        assert(a.contains(a[0]));
        let b = a.skip(1);
        assert forall|i: int| 0 <= i < b.len() implies b[i] != '%' by {
            assert(b[i] == a[i + 1]);
            assert(a.contains(a[i + 1]));
        }
        assert((a + p).skip(1) =~= b + p);
        if t.len() > 0 {
            let u = t.skip(1);
            law_pattern_parts(u, b, p);
            if t.len() >= a.len() {
                assert(t.take(a.len() as int).skip(1) =~= u.take(b.len() as int));
                assert(t.skip(a.len() as int) =~= u.skip(b.len() as int));
            }
        }
    }
}

/// `p%` matches the texts that start with `p`, `%p` those that end with it, and `%p%` those
/// in which it stands.
pub proof fn law_like_affixes(t: Seq<char>, p: Seq<char>)
    requires
        !p.contains('%'),
        !p.contains('_'),
    ensures
        matches_pattern(t, p + seq!['%']) <==> t.len() >= p.len() && t.take(p.len() as int) == p,
        matches_pattern(t, seq!['%'] + p) <==> t.len() >= p.len() && t.skip(t.len() - p.len()) == p,
        matches_pattern(t, seq!['%'] + (p + seq!['%'])) <==> exists|i: int|
            #[trigger] stands_at(t, p, i),
{
    lemma_starts(t, p);
    law_pattern_any(t, p);
    if matches_pattern(t, seq!['%'] + p) {
        let i = choose|i: int| 0 <= i <= t.len() && #[trigger] matches_pattern(t.skip(i), p);
        law_plain_pattern(t.skip(i), p);
    }
    if t.len() >= p.len() && t.skip(t.len() - p.len()) == p {
        law_plain_pattern(t.skip(t.len() - p.len()), p);
        assert(matches_pattern(t.skip(t.len() - p.len()), p));
    }
    let w = p + seq!['%'];
    law_pattern_any(t, w);
    if matches_pattern(t, seq!['%'] + w) {
        let i = choose|i: int| 0 <= i <= t.len() && #[trigger] matches_pattern(t.skip(i), w);
        lemma_starts(t.skip(i), p);
        assert(t.skip(i).take(p.len() as int) =~= t.subrange(i, i + p.len()));
        assert(stands_at(t, p, i));
    }
    if exists|i: int| #[trigger] stands_at(t, p, i) {
        let i = choose|i: int| #[trigger] stands_at(t, p, i);
        assert(t.skip(i).take(p.len() as int) =~= t.subrange(i, i + p.len()));
        lemma_starts(t.skip(i), p);
        assert(matches_pattern(t.skip(i), w));
    }
}

proof fn lemma_starts(t: Seq<char>, p: Seq<char>)
    requires
        !p.contains('%'),
        !p.contains('_'),
    ensures
        matches_pattern(t, p + seq!['%']) <==> t.len() >= p.len() && t.take(p.len() as int) == p,
{
    law_pattern_parts(t, p, seq!['%']);
    if t.len() >= p.len() {
        law_plain_pattern(t.take(p.len() as int), p);
        law_open_pattern(t.skip(p.len() as int));
    }
}

/// The case of ASCII letters does not count, in the text or in the pattern.
pub proof fn law_like_case(t: Seq<char>, u: Seq<char>, p: Seq<char>, q: Seq<char>)
    requires
        same_but_case(t, u),
        same_but_case(p, q),
    ensures
        is_like(t, p) == is_like(u, q),
{
    law_same_case(t, u);
    law_same_case(p, q);
}

/// A text in lower case matches a pattern in lower case as it stands.
pub proof fn law_like_lower(t: Seq<char>, p: Seq<char>)
    requires
        is_ascii_text(t),
        is_ascii_text(p),
        forall|i: int| 0 <= i < t.len() ==> !('A' <= #[trigger] t[i] && t[i] <= 'Z'),
        forall|i: int| 0 <= i < p.len() ==> !('A' <= #[trigger] p[i] && p[i] <= 'Z'),
    ensures
        is_like(t, p) == matches_pattern(t, p),
{
    law_case(t);
    law_case(p);
    assert forall|i: int| 0 <= i < t.len() implies lower(t)[i] == t[i] by {
        assert(lower(t)[i] as u32 == t[i] as u32);
    }
    assert forall|i: int| 0 <= i < p.len() implies lower(p)[i] == p[i] by {
        assert(lower(p)[i] as u32 == p[i] as u32);
    }
    assert(lower(t) =~= t);
    assert(lower(p) =~= p);
}

} // verus!
