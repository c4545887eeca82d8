//! What holds of trimming, searching and splitting text.

use vstd::prelude::*;
use vstd::utf8::encode_scalar;
use vstd::utf8::encode_utf8;

use crate::text::byte_len;
use crate::text::char_width;
use crate::text::chars_within;
use crate::text::find;
use crate::text::find_from;
use crate::text::find_keyword;
use crate::text::index_of;
use crate::text::is_ascii_char;
use crate::text::is_ascii_text;
use crate::text::is_space;
use crate::text::lemma_ascii_bytes;
use crate::text::lemma_chars_within;
use crate::text::lemma_index_of;
use crate::text::lemma_lines_cons;
use crate::text::lines;
use crate::text::lower;
use crate::text::occurs_at;
use crate::text::rfind;
use crate::text::rfind_from;
use crate::text::skip_bytes;
use crate::text::take_bytes;
use crate::text::trim;
use crate::text::trim_char;
use crate::text::trim_end_kind;
use crate::text::trim_start_kind;
use crate::text::upper;
use crate::text::CharKind;

verus! {

proof fn lemma_start_run(a: Seq<char>, t: Seq<char>, k: CharKind)
    requires
        forall|i: int| 0 <= i < a.len() ==> k.holds(#[trigger] a[i]),
        t.len() > 0 ==> !k.holds(t[0]),
    ensures
        trim_start_kind(a + t, k) == t,
    decreases a.len(),
{
    if a.len() == 0 {
        assert(a + t =~= t);
    } else {
        assert((a + t)[0] == a[0]);
        assert((a + t).skip(1) =~= a.skip(1) + t);
        lemma_start_run(a.skip(1), t, k);
    }
}

proof fn lemma_end_run(t: Seq<char>, b: Seq<char>, k: CharKind)
    requires
        forall|i: int| 0 <= i < b.len() ==> k.holds(#[trigger] b[i]),
        t.len() > 0 ==> !k.holds(t.last()),
    ensures
        trim_end_kind(t + b, k) == t,
    decreases b.len(),
{
    if b.len() == 0 {
        assert(t + b =~= t);
    } else {
        assert((t + b).last() == b.last());
        assert((t + b).drop_last() =~= t + b.drop_last());
        lemma_end_run(t, b.drop_last(), k);
    }
}

proof fn lemma_trimmed(a: Seq<char>, s: Seq<char>, b: Seq<char>, k: CharKind)
    requires
        forall|i: int| 0 <= i < a.len() ==> k.holds(#[trigger] a[i]),
        forall|i: int| 0 <= i < b.len() ==> k.holds(#[trigger] b[i]),
        s.len() > 0 ==> !k.holds(s[0]) && !k.holds(s.last()),
    ensures
        trim_end_kind(trim_start_kind(a + s + b, k), k) == s,
{
    if s.len() == 0 {
        let e = Seq::<char>::empty();
        assert(a + s + b =~= (a + b) + e);
        lemma_start_run(a + b, e, k);
        assert(s =~= e);
    } else {
        assert(a + s + b =~= a + (s + b));
        lemma_start_run(a, s + b, k);
        lemma_end_run(s, b, k);
    }
}

/// Trimming takes away all the white space at both ends, and nothing else.
pub proof fn law_trim(a: Seq<char>, s: Seq<char>, b: Seq<char>)
    requires
        forall|i: int| 0 <= i < a.len() ==> is_space(#[trigger] a[i]),
        forall|i: int| 0 <= i < b.len() ==> is_space(#[trigger] b[i]),
        s.len() > 0 ==> !is_space(s[0]) && !is_space(s.last()),
    ensures
        trim(a + s + b) == s,
{
    lemma_trimmed(a, s, b, CharKind::Space);
}

/// A text without white space at its ends is left as it is.
pub proof fn law_trim_none(s: Seq<char>)
    requires
        s.len() > 0 ==> !is_space(s[0]) && !is_space(s.last()),
    ensures
        trim(s) == s,
{
    let e = Seq::<char>::empty();
    law_trim(e, s, e);
    assert(e + s + e =~= s);
}

/// Trimming a character takes away all of its kind at both ends, and nothing else.
pub proof fn law_trim_char(a: Seq<char>, s: Seq<char>, b: Seq<char>, c: char)
    requires
        forall|i: int| 0 <= i < a.len() ==> #[trigger] a[i] == c,
        forall|i: int| 0 <= i < b.len() ==> #[trigger] b[i] == c,
        s.len() > 0 ==> s[0] != c && s.last() != c,
    ensures
        trim_char(a + s + b, c) == s,
{
    lemma_trimmed(a, s, b, CharKind::Is(c));
}

/// A pattern stands in a text at the place `i`.
pub open spec fn stands_at(s: Seq<char>, pat: Seq<char>, i: int) -> bool {
    0 <= i && i + pat.len() <= s.len() && s.subrange(i, i + pat.len()) == pat
}

proof fn lemma_find_first(s: Seq<char>, pat: Seq<char>, from: int)
    requires
        0 <= from,
    ensures
        find_from(s, pat, from) is None ==> forall|i: int|
            from <= i ==> !#[trigger] stands_at(s, pat, i),
        find_from(s, pat, from) is Some ==> stands_at(s, pat, find_from(s, pat, from)->0)
            && find_from(s, pat, from)->0 >= from && forall|i: int|
            from <= i < find_from(s, pat, from)->0 ==> !#[trigger] stands_at(s, pat, i),
    decreases s.len() - from + 1,
{
    if from + pat.len() <= s.len() && !occurs_at(s, pat, from) {
        lemma_find_first(s, pat, from + 1);
    }
}

/// A search finds the first place at which the pattern stands, and none only where it
/// stands nowhere.
pub proof fn law_find(s: Seq<char>, pat: Seq<char>)
    ensures
        find(s, pat) is None <==> forall|i: int| !#[trigger] stands_at(s, pat, i),
        find(s, pat) is Some ==> stands_at(s, pat, find(s, pat)->0) && forall|i: int|
            i < find(s, pat)->0 ==> !#[trigger] stands_at(s, pat, i),
{
    lemma_find_first(s, pat, 0);
}

proof fn lemma_find_last(s: Seq<char>, pat: Seq<char>, from: int)
    requires
        from + pat.len() <= s.len(),
    ensures
        rfind_from(s, pat, from) is None ==> forall|i: int|
            i <= from ==> !#[trigger] stands_at(s, pat, i),
        rfind_from(s, pat, from) is Some ==> stands_at(s, pat, rfind_from(s, pat, from)->0)
            && rfind_from(s, pat, from)->0 <= from && forall|i: int|
            rfind_from(s, pat, from)->0 < i <= from ==> !#[trigger] stands_at(s, pat, i),
    decreases from + 1,
{
    if from >= 0 && !occurs_at(s, pat, from) {
        lemma_find_last(s, pat, from - 1);
    }
}

/// A search from the end finds the last place at which the pattern stands, and none only
/// where it stands nowhere.
pub proof fn law_find_last(s: Seq<char>, pat: Seq<char>)
    ensures
        rfind(s, pat) is None <==> forall|i: int| !#[trigger] stands_at(s, pat, i),
        rfind(s, pat) is Some ==> stands_at(s, pat, rfind(s, pat)->0) && forall|i: int|
            i > rfind(s, pat)->0 ==> !#[trigger] stands_at(s, pat, i),
{
    if s.len() >= pat.len() {
        lemma_find_last(s, pat, s.len() - pat.len());
    }
}

/// Changing the case of an ASCII text changes each letter of the other case, by its place in
/// the alphabet, and nothing else.
pub proof fn law_case(s: Seq<char>)
    requires
        is_ascii_text(s),
    ensures
        upper(s).len() == s.len(),
        lower(s).len() == s.len(),
        forall|i: int|
            0 <= i < s.len() ==> (#[trigger] upper(s)[i]) as u32 == (if 'a' <= s[i] && s[i] <= 'z' {
                s[i] as u32 - 'a' as u32 + 'A' as u32
            } else {
                s[i] as u32 as int
            }),
        forall|i: int|
            0 <= i < s.len() ==> (#[trigger] lower(s)[i]) as u32 == (if 'A' <= s[i] && s[i] <= 'Z' {
                s[i] as u32 - 'A' as u32 + 'a' as u32
            } else {
                s[i] as u32 as int
            }),
        is_ascii_text(upper(s)),
        is_ascii_text(lower(s)),
        upper(lower(s)) == upper(s),
        lower(upper(s)) == lower(s),
{
    let (u, l) = (upper(s), lower(s));
    assert forall|i: int| 0 <= i < s.len() implies is_ascii_char(#[trigger] u[i]) && is_ascii_char(
        l[i],
    ) by {
        assert(is_ascii_char(s[i]));
    }
    assert(is_ascii_text(u));
    assert forall|i: int| 0 <= i < s.len() implies is_ascii_char(#[trigger] l[i]) by {
        assert(is_ascii_char(u[i]) && is_ascii_char(l[i]));
    }
    assert(is_ascii_text(l));
    assert(upper(l) =~= u);
    assert(lower(u) =~= l);
}

/// Two texts that differ in the case of ASCII letters alone.
pub open spec fn same_but_case(s: Seq<char>, t: Seq<char>) -> bool {
    &&& s.len() == t.len()
    &&& is_ascii_text(s)
    &&& is_ascii_text(t)
    &&& forall|i: int|
        0 <= i < s.len() ==> #[trigger] s[i] == t[i] || ('a' <= s[i] && s[i] <= 'z' && t[i] as u32
            == s[i] as u32 - 32) || ('a' <= t[i] && t[i] <= 'z' && s[i] as u32 == t[i] as u32
            - 32)
}

/// Texts that differ in the case of letters alone have one upper case and one lower case.
pub proof fn law_same_case(s: Seq<char>, t: Seq<char>)
    requires
        same_but_case(s, t),
    ensures
        upper(s) == upper(t),
        lower(s) == lower(t),
{
    law_case(s);
    law_case(t);
    assert forall|i: int| 0 <= i < s.len() implies upper(s)[i] == upper(t)[i] by {
        assert(s[i] == s[i]);
        assert(upper(s)[i] as u32 == upper(t)[i] as u32);
    }
    assert forall|i: int| 0 <= i < s.len() implies lower(s)[i] == lower(t)[i] by {
        assert(s[i] == s[i]);
        assert(lower(s)[i] as u32 == lower(t)[i] as u32);
    }
    assert(upper(s) =~= upper(t));
    assert(lower(s) =~= lower(t));
}

/// In an ASCII text a keyword is found at the first place where it stands, whatever the case
/// of the letters there.
pub proof fn law_find_keyword(s: Seq<char>, word: Seq<char>)
    requires
        is_ascii_text(s),
    ensures
        find_keyword(s, word) is None <==> forall|i: int| !#[trigger] stands_at(upper(s), word, i),
        find_keyword(s, word) is Some ==> ({
            let n = find_keyword(s, word)->0;
            &&& stands_at(upper(s), word, n)
            &&& take_bytes(s, n) == s.take(n)
            &&& skip_bytes(s, n + word.len()) == s.skip(n + word.len())
            &&& forall|i: int| i < n ==> !#[trigger] stands_at(upper(s), word, i)
        }),
{
    law_case(s);
    law_find(upper(s), word);
    if find(upper(s), word) is Some {
        let i = find(upper(s), word)->0;
        assert(stands_at(upper(s), word, i));
        lemma_ascii_bytes(upper(s), i);
        lemma_ascii_bytes(s, i);
        lemma_ascii_bytes(s, i + word.len());
    }
}

/// A line ends at a line feed, and a carriage return before that does not belong to it; the
/// last line need not end.
pub proof fn law_lines(x: Seq<char>, t: Seq<char>)
    requires
        !x.contains('\n'),
        x.len() > 0 ==> x.last() != '\r',
    ensures
        lines(x + seq!['\n'] + t) == seq![x] + lines(t),
        lines(x + seq!['\r', '\n'] + t) == seq![x] + lines(t),
        x.len() > 0 ==> lines(x) == seq![x],
        lines(Seq::empty()).len() == 0,
{
    lemma_lines_cons(x, t);
    let y = x + seq!['\r'];
    assert forall|i: int| 0 <= i < y.len() implies y[i] != '\n' by {
        if i < x.len() {
            assert(x.contains(x[i]));
        }
    }
    lemma_lines_cons(y, t);
    assert(y + seq!['\n'] + t =~= x + seq!['\r', '\n'] + t);
    assert(y.drop_last() =~= x);
    lemma_index_of(x, '\n');
    let i = index_of(x, '\n');
    if i < x.len() {
        assert(x.contains(x[i]));
    }
}

/// A character takes as many bytes as its encoding has.
proof fn lemma_width(c: char)
    ensures
        encode_scalar(c as u32).len() == char_width(c),
{
    vstd::utf8::char_is_scalar(c);
    let n = c as u32;
    if n < 0x80 {
        assert(vstd::utf8::has_width_1_encoding(n));
    } else if n < 0x800 {
        assert(vstd::utf8::has_width_2_encoding(n));
    } else if n < 0x1_0000 {
        assert(vstd::utf8::has_width_3_encoding(n));
    }
}

proof fn lemma_first_width(s: Seq<char>)
    requires
        s.len() > 0,
    ensures
        byte_len(s) == char_width(s[0]) + byte_len(s.skip(1)),
    decreases s.len(),
{
    if s.len() == 1 {
        assert(s.drop_last() =~= Seq::empty());
        assert(s.skip(1) =~= Seq::empty());
        assert(byte_len(Seq::empty()) == 0);
    } else {
        lemma_first_width(s.drop_last());
        assert(s.drop_last().skip(1) =~= s.skip(1).drop_last());
        assert(s.skip(1).last() == s.last());
    }
}

/// A text takes as many bytes as its encoding has, and its beginning is found by the bytes
/// that this takes.
pub proof fn law_bytes(a: Seq<char>, b: Seq<char>)
    ensures
        byte_len(a) == encode_utf8(a).len(),
        take_bytes(a + b, encode_utf8(a).len() as int) == a,
        skip_bytes(a + b, encode_utf8(a).len() as int) == b,
    decreases a.len(),
{
    let s = a + b;
    if a.len() == 0 {
        assert(s =~= b);
        if s.len() > 0 {
            assert(char_width(s[0]) >= 1);
        }
        assert(s.take(0) =~= a);
        assert(s.skip(0) =~= b);
    } else {
        let c = a.skip(1);
        law_bytes(c, b);
        lemma_first_width(a);
        assert(a.drop_first() =~= c);
        assert(s.skip(1) =~= c + b);
        lemma_width(a[0]);
        assert(s[0] == a[0]);
        let n = byte_len(a) as int;
        let k = chars_within(s.skip(1), n - char_width(a[0]));
        assert(chars_within(s, n) == 1 + k);
        lemma_chars_within(s.skip(1), n - char_width(a[0]));
        assert((c + b).take(k) =~= c);
        assert(k == c.len()) by {
            assert((c + b).take(k).len() == k);
        }
        assert(s.take(1 + k) =~= a);
        assert(s.skip(1 + k) =~= b);
    }
}

} // verus!
