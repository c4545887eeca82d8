//! Checks that a text is a snapshot of this version, and that it is undamaged.

use vstd::prelude::*;

use crate::number::hex_value;
use crate::number::law_read_shown_hex;
use crate::number::parse_hex;
use crate::number::push_hex;
use crate::number::read_hex;
use crate::number::show_hex;
use crate::storage::engine::unit_result;
use crate::storage::engine::Database;
use crate::storage::snapshot::body_lines;
use crate::storage::snapshot::checksum_line;
use crate::storage::snapshot::checksum_of;
use crate::storage::snapshot::exported;
use crate::storage::snapshot::header;
use crate::storage::snapshot::lines_text;
use crate::storage::snapshot::text_checksum;
use crate::text::chars_of;
use crate::text::has_prefix;
use crate::text::index_of;
use crate::text::is_space;
use crate::text::is_text;
use crate::text::join3;
use crate::text::lemma_index_of;
use crate::text::lemma_lines_cons;
use crate::text::lines;
use crate::text::lines_of;
use crate::text::push_str;
use crate::text::slice;
use crate::text::starts_with;
use crate::text::string_of;
use crate::text::strip_return;
use crate::text::texts;
use crate::text::trim;
use crate::text::trim_end_kind;
use crate::text::trimmed;
use crate::text::trimmed_end;
use crate::text::CharKind;

verus! {

/// The first line of a text, trimmed; empty where there is no line.
pub open spec fn first_line(s: Seq<char>) -> Seq<char> {
    if lines(s).len() > 0 {
        trim(lines(s)[0])
    } else {
        trim(Seq::empty())
    }
}

/// The last line of a text, trimmed; empty where there is no line.
pub open spec fn last_line(s: Seq<char>) -> Seq<char> {
    if lines(s).len() > 0 {
        trim(lines(s).last())
    } else {
        trim(Seq::empty())
    }
}

/// What is wrong with the first line of a snapshot, if anything is.
pub open spec fn header_error(s: Seq<char>) -> Option<Seq<char>> {
    let l = first_line(s);
    if l.len() == 0 {
        Some("数据库文件为空"@)
    } else if !starts_with(l, "# ProbeDB state"@) {
        Some("数据库文件头无效（不是ProbeDB快照或已损坏）: '"@ + l + "'"@)
    } else if l != header() {
        Some("数据库版本不匹配: 期望 '"@ + header() + "'，实际 '"@ + l + "'"@)
    } else {
        None
    }
}

/// `s` up to its last line feed, with it; nothing where it has none.
pub open spec fn through_last_newline(s: Seq<char>) -> Seq<char>
    decreases s.len(),
{
    if s.len() == 0 || s.last() == '\n' {
        s
    } else {
        through_last_newline(s.drop_last())
    }
}

/// What a checksum in the last line of a text covers: the lines before it.
pub open spec fn covered(s: Seq<char>) -> Seq<char> {
    through_last_newline(trim_end_kind(s, CharKind::Space))
}

/// What is wrong with the checksum of a snapshot, if anything is. A snapshot without
/// one is not checked.
pub open spec fn checksum_error(s: Seq<char>) -> Option<Seq<char>> {
    let l = last_line(s);
    if !starts_with(l, "# checksum "@) {
        None
    } else {
        match read_hex(trim(l.skip(11))) {
            None => Some("校验和格式无效: '"@ + l + "'"@),
            Some(expected) => {
                let actual = text_checksum(covered(s));
                if actual == expected {
                    None
                } else {
                    Some(
                        "数据库文件校验和不匹配 (期望 "@ + show_hex(expected as nat, 16) + ", 实际 "@ + show_hex(
                            actual as nat,
                            16,
                        ) + ")——文件已损坏或被篡改"@,
                    )
                }
            },
        }
    }
}

/// Checks that a text is a snapshot of this version.
pub fn validate_header(state: &str) -> (r: Result<(), String>)
    ensures
        match header_error(state@) {
            None => r is Ok,
            Some(e) => unit_result(r) == Err::<(), Seq<char>>(e),
        },
{
    let l = lines_of(&chars_of(state));
    assert(texts(l@).len() == l@.len());
    let first: Vec<char> = if l.len() > 0 {
        assert(texts(l@)[0] == l@[0]@);
        trimmed(&l[0])
    } else {
        let none: Vec<char> = Vec::new();
        assert(none@ =~= Seq::empty());
        trimmed(&none)
    };
    if first.len() == 0 {
        return Err("数据库文件为空".to_owned());
    }
    if !has_prefix(&first, "# ProbeDB state") {
        return Err(
            join3("数据库文件头无效（不是ProbeDB快照或已损坏）: '", string_of(&first).as_str(), "'"),
        );
    }
    if !is_text(&first, "# ProbeDB state v1") {
        let mut out = chars_of("数据库版本不匹配: 期望 '");
        push_str(&mut out, "# ProbeDB state v1");
        push_str(&mut out, "'，实际 '");
        crate::text::push_chars(&mut out, &first);
        push_str(&mut out, "'");
        return Err(string_of(&out));
    }
    Ok(())
}

/// The text that a checksum in the last line covers.
fn covered_text(s: &Vec<char>) -> (r: Vec<char>)
    ensures
        r@ == covered(s@),
{
    let t = trimmed_end(s);
    let mut n: usize = t.len();
    assert(t@.take(n as int) =~= t@);
    while n > 0 && t[n - 1] != '\n'
        invariant
            n <= t.len(),
            through_last_newline(t@) == through_last_newline(t@.take(n as int)),
        decreases n,
    {
        assert(t@.take(n as int).drop_last() =~= t@.take(n - 1));
        n -= 1;
    }
    assert(t@.take(n as int) =~= t@.subrange(0, n as int));
    slice(&t, 0, n)
}

/// Checks the checksum in the last line of a snapshot, where there is one: the text
/// before that line must not have changed since it was written.
pub fn validate_checksum(state: &str) -> (r: Result<(), String>)
    ensures
        match checksum_error(state@) {
            None => r is Ok,
            Some(e) => unit_result(r) == Err::<(), Seq<char>>(e),
        },
{
    let s = chars_of(state);
    let l = lines_of(&s);
    assert(texts(l@).len() == l@.len());
    let last: Vec<char> = if l.len() > 0 {
        assert(texts(l@).last() == l@.last()@);
        trimmed(&l[l.len() - 1])
    } else {
        let none: Vec<char> = Vec::new();
        assert(none@ =~= Seq::empty());
        trimmed(&none)
    };
    if !has_prefix(&last, "# checksum ") {
        return Ok(());
    }
    proof {
        reveal_strlit("# checksum ");
        assert(last@.skip(11) =~= last@.subrange(11, last@.len() as int));
    }
    let expected: u64 = match parse_hex(&trimmed(&slice(&last, 11, last.len()))) {
        Some(n) => n,
        None => {
            return Err(join3("校验和格式无效: '", string_of(&last).as_str(), "'"));
        },
    };
    let actual: u64 = checksum_of(&covered_text(&s));
    if actual != expected {
        let mut out = chars_of("数据库文件校验和不匹配 (期望 ");
        push_hex(&mut out, expected, 16);
        push_str(&mut out, ", 实际 ");
        push_hex(&mut out, actual, 16);
        push_str(&mut out, ")——文件已损坏或被篡改");
        return Err(string_of(&out));
    }
    Ok(())
}

// ---------------------------------------------------------------------------
// Laws
// ---------------------------------------------------------------------------

proof fn lemma_body_shape(l: Seq<Seq<char>>)
    requires
        l.len() > 0,
    ensures
        lines_text(l).len() > 0,
        lines_text(l).last() == '\n',
        exists|t: Seq<char>| lines_text(l) == #[trigger] (l[0] + seq!['\n'] + t),
    decreases l.len(),
{
    reveal_strlit("\n");
    assert("\n"@ =~= seq!['\n']);
    let s = lines_text(l);
    if l.len() == 1 {
        assert(l.drop_last() =~= Seq::empty());
        assert(lines_text(Seq::empty()) =~= Seq::empty());
        assert(s =~= l[0] + seq!['\n'] + Seq::empty());
    } else {
        lemma_body_shape(l.drop_last());
        let t = choose|t: Seq<char>|
            lines_text(l.drop_last()) == #[trigger] (l.drop_last()[0] + seq!['\n'] + t);
        assert(s =~= l[0] + seq!['\n'] + (t + l.last() + "\n"@));
    }
}

/// The last line of a text that ends with a line.
pub proof fn lemma_last_line(a: Seq<char>, c: Seq<char>)
    requires
        a.len() > 0,
        a.last() == '\n',
        c.len() > 0,
        !c.contains('\n'),
        c.last() != '\r',
    ensures
        lines(a + c + seq!['\n']).len() > 0,
        lines(a + c + seq!['\n']).last() == c,
    decreases a.len(),
{
    let s = a + c + seq!['\n'];
    lemma_index_of(a, '\n');
    let i = index_of(a, '\n');
    assert(a[a.len() - 1] == '\n');
    assert(i < a.len());
    let x = a.take(i);
    let b = a.skip(i + 1);
    assert forall|j: int| 0 <= j < x.len() implies x[j] != '\n' by {
        assert(a[j] != '\n');
    }
    assert(s =~= x + seq!['\n'] + (b + c + seq!['\n']));
    lemma_lines_cons(x, b + c + seq!['\n']);
    if b.len() == 0 {
        assert(b + c + seq!['\n'] =~= c + seq!['\n'] + Seq::<char>::empty());
        lemma_lines_cons(c, Seq::empty());
        assert(lines(Seq::empty()) =~= Seq::empty());
    } else {
        assert(b.last() == a.last());
        lemma_last_line(b, c);
    }
}

pub proof fn lemma_through_newline(a: Seq<char>, c: Seq<char>)
    requires
        a.len() > 0,
        a.last() == '\n',
        !c.contains('\n'),
    ensures
        through_last_newline(a + c) == a,
    decreases c.len(),
{
    if c.len() == 0 {
        assert(a + c =~= a);
    } else {
        assert(c.contains(c.last()));
        assert((a + c).last() == c.last());
        assert((a + c).drop_last() =~= a + c.drop_last());
        assert forall|i: int| 0 <= i < c.drop_last().len() implies c.drop_last()[i] != '\n' by {
            assert(c.contains(c[i]));
        }
        lemma_through_newline(a, c.drop_last());
    }
}

/// The snapshot of any database passes both checks.
pub proof fn law_snapshot_is_valid(db: Database)
    ensures
        header_error(exported(db)) is None,
        checksum_error(exported(db)) is None,
{
    reveal_strlit("# ProbeDB state v1");
    reveal_strlit("# ProbeDB state");
    reveal_strlit("# checksum ");
    reveal_strlit("\n");
    assert("\n"@ =~= seq!['\n']);
    let l = body_lines(db);
    let body = lines_text(l);
    let c = checksum_line(body);
    let s = exported(db);
    assert(l[0] == header());
    lemma_body_shape(l);
    // The first line.
    let t = choose|t: Seq<char>| body == #[trigger] (l[0] + seq!['\n'] + t);
    lemma_lines_cons(header(), t + c + seq!['\n']);
    assert(s =~= header() + seq!['\n'] + (t + c + seq!['\n']));
    assert(strip_return(header()) == header());
    assert(!is_space(header()[0]) && !is_space(header().last()));
    assert(header().subrange(0, 15) =~= "# ProbeDB state"@);
    // The last line.
    let sum = text_checksum(body);
    let h = show_hex(sum as nat, 16);
    law_read_shown_hex(sum);
    assert forall|i: int| 0 <= i < c.len() implies c[i] != '\n' by {
        if i >= 11 {
            assert(c[i] == h[i - 11]);
            assert(hex_value(h[i - 11]) is Some);
        }
    }
    assert(c.last() == h[15]);
    assert(hex_value(h[15]) is Some);
    lemma_hex_char(h[15]);
    assert(hex_value(h[0]) is Some);
    lemma_hex_char(h[0]);
    lemma_last_line(body, c);
    assert(s =~= body + c + seq!['\n']);
    assert(trim(c) == c);
    assert(c.subrange(0, 11) =~= "# checksum "@);
    assert(c.skip(11) =~= h);
    assert(trim(h) == h);
    // What it covers.
    let k = CharKind::Space;
    assert(s.last() == '\n');
    assert(s.drop_last() =~= body + c);
    assert((body + c).last() == c.last());
    assert(trim_end_kind(body + c, k) == body + c);
    assert(trim_end_kind(s, k) == body + c);
    lemma_through_newline(body, c);
}

pub proof fn lemma_hex_char(c: char)
    requires
        hex_value(c) is Some,
    ensures
        !is_space(c),
        c != '\r',
{
}

} // verus!
