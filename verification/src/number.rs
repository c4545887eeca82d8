//! Integers as text: reading and writing decimal and hexadecimal numbers.

use vstd::prelude::*;

verus! {

/// A decimal digit.
pub open spec fn is_digit(c: char) -> bool {
    48 <= (c as u32) && (c as u32) <= 57
}

/// The value of a decimal digit.
pub open spec fn digit_value(c: char) -> nat {
    ((c as u32) - 48) as nat
}

/// The digit whose value is `d`.
pub open spec fn digit_char(d: nat) -> char {
    (48 + d) as char
}

/// Every character of `s` is a decimal digit.
pub open spec fn all_digits(s: Seq<char>) -> bool {
    forall|i: int| 0 <= i < s.len() ==> is_digit(#[trigger] s[i])
}

/// The number that a row of decimal digits stands for.
pub open spec fn decimal_value(s: Seq<char>) -> nat
    decreases s.len(),
{
    if s.len() == 0 {
        0
    } else {
        10 * decimal_value(s.drop_last()) + digit_value(s.last())
    }
}

/// A non-negative number in decimal, without leading zeros.
pub open spec fn show_nat(n: nat) -> Seq<char>
    decreases n,
{
    if n < 10 {
        seq![digit_char(n)]
    } else {
        show_nat(n / 10).push(digit_char(n % 10))
    }
}

/// A number in decimal, with a minus sign where it is negative.
pub open spec fn show_int(n: int) -> Seq<char> {
    if n < 0 {
        seq!['-'] + show_nat((-n) as nat)
    } else {
        show_nat(n as nat)
    }
}

/// `s` without one plus sign at its start.
pub open spec fn strip_plus(s: Seq<char>) -> Seq<char> {
    if s.len() > 0 && s[0] == '+' {
        s.skip(1)
    } else {
        s
    }
}

/// Reads a non-negative number of at most `max`: digits, with or without a plus
/// sign before them.
pub open spec fn read_nat(s: Seq<char>, max: nat) -> Option<nat> {
    let body = strip_plus(s);
    if body.len() > 0 && all_digits(body) && decimal_value(body) <= max {
        Some(decimal_value(body))
    } else {
        None
    }
}

/// Reads a number that an `i64` can hold: digits, with or without a sign before
/// them.
pub open spec fn read_i64(s: Seq<char>) -> Option<i64> {
    if s.len() > 0 && s[0] == '-' {
        let body = s.skip(1);
        if body.len() > 0 && all_digits(body) && decimal_value(body) <= 0x8000_0000_0000_0000 {
            Some((-(decimal_value(body) as int)) as i64)
        } else {
            None
        }
    } else {
        match read_nat(s, 0x7fff_ffff_ffff_ffff) {
            Some(n) => Some(n as i64),
            None => None,
        }
    }
}

/// Whether `c` is a decimal digit.
pub fn digit(c: char) -> (r: bool)
    ensures
        r == is_digit(c),
{
    48 <= c as u32 && c as u32 <= 57
}

/// The value of the digit `c`.
pub fn value_of_digit(c: char) -> (r: u64)
    requires
        is_digit(c),
    ensures
        r == digit_value(c),
        r < 10,
{
    (c as u32 - 48) as u64
}

/// The digit whose value is `d`.
pub fn char_of_digit(d: u64) -> (r: char)
    requires
        d < 10,
    ensures
        r == digit_char(d as nat),
{
    ((48 + d) as u8) as char
}

/// Whether every character of `s` is a decimal digit.
pub fn only_digits(s: &Vec<char>) -> (r: bool)
    ensures
        r == all_digits(s@),
{
    let mut i: usize = 0;
    while i < s.len()
        invariant
            i <= s.len(),
            forall|j: int| 0 <= j < i ==> is_digit(#[trigger] s@[j]),
        decreases s.len() - i,
    {
        if !digit(s[i]) {
            return false;
        }
        i += 1;
    }
    true
}

/// A longer row of digits stands for a number at least as large as its start.
pub proof fn lemma_decimal_prefix(s: Seq<char>, k: int)
    requires
        0 <= k <= s.len(),
    ensures
        decimal_value(s.take(k)) <= decimal_value(s),
    decreases s.len() - k,
{
    if k == s.len() {
        assert(s.take(k) =~= s);
    } else {
        lemma_decimal_prefix(s, k + 1);
        assert(s.take(k + 1).drop_last() =~= s.take(k));
    }
}

/// The number that the digits of `s` from `from` on stand for, if it is at most
/// `max`.
fn digits_to_u64(s: &Vec<char>, from: usize, max: u64) -> (r: Option<u64>)
    requires
        from <= s@.len(),
    ensures
        ({
            let body = s@.skip(from as int);
            match r {
                Some(n) => all_digits(body) && decimal_value(body) == n && n <= max,
                None => !(all_digits(body) && decimal_value(body) <= max),
            }
        }),
{
    let ghost body = s@.skip(from as int);
    let mut acc: u64 = 0;
    let mut i: usize = from;
    assert(body.take(0) =~= Seq::empty());
    while i < s.len()
        invariant
            from <= i <= s.len(),
            body == s@.skip(from as int),
            acc <= max,
            acc == decimal_value(body.take(i - from)),
            forall|j: int| 0 <= j < i - from ==> is_digit(#[trigger] body[j]),
        decreases s.len() - i,
    {
        assert(body[i - from] == s@[i as int]);
        if !digit(s[i]) {
            return None;
        }
        let d: u64 = value_of_digit(s[i]);
        assert(body.take(i - from + 1).drop_last() =~= body.take(i - from));
        if d > max || acc > (max - d) / 10 {
            proof {
                assert(10 * acc + d > max) by (nonlinear_arith)
                    requires
                        d > max || acc > (max - d) / 10,
                ;
                lemma_decimal_prefix(body, i - from + 1);
            }
            return None;
        }
        assert(10 * acc + d <= max) by (nonlinear_arith)
            requires
                d <= max,
                acc <= (max - d) / 10,
        ;
        acc = 10 * acc + d;
        i += 1;
    }
    assert(body.take(s@.len() - from) =~= body);
    Some(acc)
}

/// Reads an unsigned number of at most `max`.
pub fn parse_max(s: &Vec<char>, max: u64) -> (r: Option<u64>)
    ensures
        match r {
            Some(n) => read_nat(s@, max as nat) == Some(n as nat),
            None => read_nat(s@, max as nat) is None,
        },
{
    let from: usize = if s.len() > 0 && s[0] == '+' {
        1
    } else {
        0
    };
    assert(s@.skip(0) =~= s@);
    if from == s.len() {
        return None;
    }
    digits_to_u64(s, from, max)
}

/// Reads a `u64`.
pub fn parse_u64(s: &Vec<char>) -> (r: Option<u64>)
    ensures
        match r {
            Some(n) => read_nat(s@, u64::MAX as nat) == Some(n as nat),
            None => read_nat(s@, u64::MAX as nat) is None,
        },
{
    parse_max(s, u64::MAX)
}

/// Reads a `usize`.
pub fn parse_usize(s: &Vec<char>) -> (r: Option<usize>)
    ensures
        match r {
            Some(n) => read_nat(s@, usize::MAX as nat) == Some(n as nat),
            None => read_nat(s@, usize::MAX as nat) is None,
        },
{
    match parse_max(s, usize::MAX as u64) {
        Some(n) => Some(n as usize),
        None => None,
    }
}

/// Reads an `i64`.
pub fn parse_i64(s: &Vec<char>) -> (r: Option<i64>)
    ensures
        r == read_i64(s@),
{
    if s.len() > 0 && s[0] == '-' {
        if s.len() == 1 {
            return None;
        }
        match digits_to_u64(s, 1, 0x8000_0000_0000_0000) {
            Some(n) => {
                if n == 0x8000_0000_0000_0000 {
                    Some(i64::MIN)
                } else {
                    Some(-(n as i64))
                }
            },
            None => None,
        }
    } else {
        match parse_max(s, 0x7fff_ffff_ffff_ffff) {
            Some(n) => Some(n as i64),
            None => None,
        }
    }
}

/// Appends `n` in decimal.
pub fn push_u64(out: &mut Vec<char>, n: u64)
    ensures
        final(out)@ == old(out)@ + show_nat(n as nat),
    decreases n,
{
    if n >= 10 {
        push_u64(out, n / 10);
    }
    let ghost mid = out@;
    out.push(char_of_digit(n % 10));
    proof {
        assert(out@ =~= mid + seq![digit_char((n % 10) as nat)]);
        if n >= 10 {
            assert(out@ =~= old(out)@ + show_nat(n as nat));
        }
    }
}

/// Appends `n` in decimal.
pub fn push_i64(out: &mut Vec<char>, n: i64)
    ensures
        final(out)@ == old(out)@ + show_int(n as int),
{
    if n < 0 {
        out.push('-');
        let ghost mid = out@;
        let m: u64 = if n == i64::MIN {
            0x8000_0000_0000_0000
        } else {
            (-n) as u64
        };
        push_u64(out, m);
        assert(out@ =~= old(out)@ + show_int(n as int));
    } else {
        push_u64(out, n as u64);
    }
}

/// Writing a number and reading it again gives the number.
pub proof fn lemma_show_nat(n: nat)
    ensures
        show_nat(n).len() > 0,
        all_digits(show_nat(n)),
        decimal_value(show_nat(n)) == n,
    decreases n,
{
    if n >= 10 {
        lemma_show_nat(n / 10);
        assert(show_nat(n).drop_last() =~= show_nat(n / 10));
        assert forall|i: int| 0 <= i < show_nat(n).len() implies is_digit(
            #[trigger] show_nat(n)[i],
        ) by {
            if i < show_nat(n / 10).len() {
                assert(show_nat(n)[i] == show_nat(n / 10)[i]);
            }
        }
    } else {
        assert(show_nat(n).drop_last() =~= Seq::empty());
        assert(decimal_value(Seq::empty()) == 0);
    }
}

/// What is written of a number that fits is read back as that number.
pub proof fn law_read_shown_nat(n: nat, max: nat)
    requires
        n <= max,
    ensures
        read_nat(show_nat(n), max) == Some(n),
{
    lemma_show_nat(n);
    assert(is_digit(show_nat(n)[0]));
}

/// What is written of an `i64` is read back as that number.
pub proof fn law_read_shown_i64(n: i64)
    ensures
        read_i64(show_int(n as int)) == Some(n),
{
    if n < 0 {
        let m = (-(n as int)) as nat;
        lemma_show_nat(m);
        assert(show_int(n as int).skip(1) =~= show_nat(m));
    } else {
        law_read_shown_nat(n as nat, 0x7fff_ffff_ffff_ffff);
        lemma_show_nat(n as nat);
        assert(is_digit(show_nat(n as nat)[0]));
    }
}

// ---------------------------------------------------------------------------
// Hexadecimal
// ---------------------------------------------------------------------------

/// The value of a hexadecimal digit of either case; `None` for any other character.
pub open spec fn hex_value(c: char) -> Option<nat> {
    let n = c as u32;
    if 48 <= n <= 57 {
        Some((n - 48) as nat)
    } else if 97 <= n <= 102 {
        Some((n - 87) as nat)
    } else if 65 <= n <= 70 {
        Some((n - 55) as nat)
    } else {
        None
    }
}

/// The lower-case hexadecimal digit whose value is `d`.
pub open spec fn hex_char(d: nat) -> char {
    if d < 10 {
        (48 + d) as char
    } else {
        (87 + d) as char
    }
}

/// Every character of `s` is a hexadecimal digit.
pub open spec fn all_hex(s: Seq<char>) -> bool {
    forall|i: int| 0 <= i < s.len() ==> hex_value(#[trigger] s[i]) is Some
}

/// The number that a row of hexadecimal digits stands for.
pub open spec fn hex_number(s: Seq<char>) -> nat
    decreases s.len(),
{
    if s.len() == 0 {
        0
    } else {
        16 * hex_number(s.drop_last()) + hex_value(s.last())->0
    }
}

/// Reads a `u64` written in hexadecimal, with or without a plus sign before it.
pub open spec fn read_hex(s: Seq<char>) -> Option<u64> {
    let body = strip_plus(s);
    if body.len() > 0 && all_hex(body) && hex_number(body) <= u64::MAX {
        Some(hex_number(body) as u64)
    } else {
        None
    }
}

/// The low `k` hexadecimal digits of `n`, with leading zeros.
pub open spec fn show_hex(n: nat, k: nat) -> Seq<char>
    decreases k,
{
    if k == 0 {
        Seq::empty()
    } else {
        show_hex(n / 16, (k - 1) as nat).push(hex_char(n % 16))
    }
}

fn hex_digit(c: char) -> (r: Option<u64>)
    ensures
        match r {
            Some(d) => hex_value(c) == Some(d as nat) && d < 16,
            None => hex_value(c) is None,
        },
{
    let n: u32 = c as u32;
    if 48 <= n && n <= 57 {
        Some((n - 48) as u64)
    } else if 97 <= n && n <= 102 {
        Some((n - 87) as u64)
    } else if 65 <= n && n <= 70 {
        Some((n - 55) as u64)
    } else {
        None
    }
}

proof fn lemma_hex_prefix(s: Seq<char>, k: int)
    requires
        0 <= k <= s.len(),
    ensures
        hex_number(s.take(k)) <= hex_number(s),
    decreases s.len() - k,
{
    if k == s.len() {
        assert(s.take(k) =~= s);
    } else {
        lemma_hex_prefix(s, k + 1);
        assert(s.take(k + 1).drop_last() =~= s.take(k));
    }
}

/// Reads a `u64` written in hexadecimal.
pub fn parse_hex(s: &Vec<char>) -> (r: Option<u64>)
    ensures
        r == read_hex(s@),
{
    let from: usize = if s.len() > 0 && s[0] == '+' {
        1
    } else {
        0
    };
    let ghost body = s@.skip(from as int);
    assert(s@.skip(0) =~= s@);
    if from == s.len() {
        return None;
    }
    let mut acc: u64 = 0;
    let mut i: usize = from;
    assert(body.take(0) =~= Seq::empty());
    while i < s.len()
        invariant
            from <= i <= s.len(),
            body == strip_plus(s@),
            body == s@.skip(from as int),
            acc == hex_number(body.take(i - from)),
            forall|j: int| 0 <= j < i - from ==> hex_value(#[trigger] body[j]) is Some,
        decreases s.len() - i,
    {
        assert(body[i - from] == s@[i as int]);
        let d: u64 = match hex_digit(s[i]) {
            Some(d) => d,
            None => {
                return None;
            },
        };
        assert(body.take(i - from + 1).drop_last() =~= body.take(i - from));
        if acc > 0x0fff_ffff_ffff_ffff {
            proof {
                lemma_hex_prefix(body, i - from + 1);
            }
            return None;
        }
        acc = 16 * acc + d;
        i += 1;
    }
    assert(body.take(s@.len() - from) =~= body);
    Some(acc)
}

/// Appends the low `k` hexadecimal digits of `n`.
pub fn push_hex(out: &mut Vec<char>, n: u64, k: usize)
    ensures
        final(out)@ == old(out)@ + show_hex(n as nat, k as nat),
    decreases k,
{
    if k > 0 {
        push_hex(out, n / 16, k - 1);
        let ghost mid = out@;
        let d: u64 = n % 16;
        let c: char = if d < 10 {
            ((48 + d) as u8) as char
        } else {
            ((87 + d) as u8) as char
        };
        out.push(c);
        assert(out@ =~= old(out)@ + show_hex(n as nat, k as nat));
    }
}

/// 16 to the power `k`.
pub open spec fn pow16(k: nat) -> nat
    decreases k,
{
    if k == 0 {
        1
    } else {
        16 * pow16((k - 1) as nat)
    }
}

proof fn lemma_show_hex(n: nat, k: nat)
    requires
        n < pow16(k),
    ensures
        show_hex(n, k).len() == k,
        all_hex(show_hex(n, k)),
        hex_number(show_hex(n, k)) == n,
    decreases k,
{
    if k > 0 {
        lemma_show_hex(n / 16, (k - 1) as nat);
        let s = show_hex(n, k);
        assert(s.drop_last() =~= show_hex(n / 16, (k - 1) as nat));
        assert(hex_value(s.last()) == Some(n % 16));
        assert forall|i: int| 0 <= i < s.len() implies hex_value(#[trigger] s[i]) is Some by {
            if i < s.len() - 1 {
                assert(s[i] == s.drop_last()[i]);
            }
        }
    }
}

/// The sixteen hexadecimal digits of a `u64` are read back as that number.
pub proof fn law_read_shown_hex(n: u64)
    ensures
        show_hex(n as nat, 16).len() == 16,
        all_hex(show_hex(n as nat, 16)),
        read_hex(show_hex(n as nat, 16)) == Some(n),
{
    reveal_with_fuel(pow16, 17);
    assert(pow16(16) == 0x1_0000_0000_0000_0000);
    lemma_show_hex(n as nat, 16);
    assert(hex_value(show_hex(n as nat, 16)[0]) is Some);
}

} // verus!
