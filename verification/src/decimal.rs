//! Doubles as text: reading decimal numbers and writing the shortest decimal that
//! reads back as the same double.

use vstd::arithmetic::div_mod::lemma_fundamental_div_mod;
use vstd::arithmetic::div_mod::lemma_fundamental_div_mod_converse;
use vstd::prelude::*;

use crate::double::decode;
use crate::double::exponent;
use crate::double::fit;
use crate::double::lemma_decode;
use crate::double::lemma_fit_bounds;
use crate::double::lemma_nearest;
use crate::double::lemma_nearest_close;
use crate::double::lemma_nearest_zero;
use crate::double::lemma_packed_large;
use crate::double::lemma_units_positive;
use crate::double::mantissa;
use crate::double::nearest;
use crate::double::nearest_natural;
use crate::double::nearest_ratio;
use crate::double::one;
use crate::double::ratio;
use crate::double::signed;
use crate::double::units;
use crate::double::Double;
use crate::double::INFINITE;
use crate::double::NOT_A_NUMBER;
use crate::double::SIGN;
use crate::natural::lemma_pow10_monotone;
use crate::natural::lemma_pow10_pos;
use crate::natural::lemma_pow10_pow2;
use crate::natural::lemma_pow10_sum;
use crate::natural::lemma_pow2_monotone;
use crate::natural::lemma_pow2_pos;
use crate::natural::lemma_pow2_sum;
use crate::natural::lemma_pow2_values;
use crate::natural::pow10;
use crate::natural::pow2;
use crate::natural::Natural;
use crate::number::all_digits;
use crate::number::decimal_value;
use crate::number::digit;
use crate::number::digit_value;
use crate::number::is_digit;
use crate::number::push_i64;
use crate::number::push_u64;
use crate::number::show_int;
use crate::number::show_nat;
use crate::number::value_of_digit;
use crate::text::ascii_lower;
use crate::text::is_text;
use crate::text::push_chars;
use crate::text::push_str;
use crate::text::slice;

verus! {

// ---------------------------------------------------------------------------
// The double nearest to a decimal number
// ---------------------------------------------------------------------------

/// The magnitude nearest to `c * 10^p`.
pub open spec fn nearest_decimal(c: nat, p: int) -> nat {
    if p >= 0 {
        nearest(c * pow10(p as nat) * one(), 1)
    } else {
        nearest(c * one(), pow10((-p) as nat))
    }
}

proof fn lemma_decimal_zero(p: int)
    ensures
        nearest_decimal(0, p) == 0,
{
    if p >= 0 {
        assert(0 * pow10(p as nat) * one() == 0) by (nonlinear_arith);
        lemma_nearest_zero(1);
    } else {
        assert(0 * one() == 0) by (nonlinear_arith);
        lemma_pow10_pos((-p) as nat);
        lemma_nearest_zero(pow10((-p) as nat));
    }
}

proof fn lemma_decimal_huge(c: nat, p: int)
    requires
        c > 0,
        p > 400,
    ensures
        nearest_decimal(c, p) == INFINITE,
{
    let n = c * pow10(p as nat) * one();
    lemma_pow10_pow2(p as nat);
    lemma_pow2_sum((3 * p) as nat, 1074);
    let (a, b, o) = (pow2((3 * p) as nat), pow10(p as nat), one());
    lemma_pow2_pos(1074);
    assert(n >= a * o) by (nonlinear_arith)
        requires
            n == c * b * o,
            c >= 1,
            a <= b,
    ;
    let k = fit(n, 1, 0);
    lemma_fit_bounds(n, 1, 0);
    if k < 2047 {
        lemma_pow2_monotone(k + 53, (3 * p) as nat + 1074);
        assert(1 * pow2(k + 53) == pow2(k + 53));
    }
    let step = 1 * pow2(k);
    lemma_packed_large(
        crate::double::rounded(n / step, n % step, step),
        k,
    );
}

proof fn lemma_decimal_tiny(c: nat, p: int, len: nat)
    requires
        c < pow10(len),
        p + len < -400,
    ensures
        nearest_decimal(c, p) == 0,
{
    let n = c * one();
    let t = (-p) as nat;
    let d = pow10(t);
    lemma_pow10_pow2(400);
    lemma_pow2_monotone(1075, 1200);
    lemma_pow10_sum(len, 400);
    lemma_pow10_monotone(len + 400, t);
    lemma_pow10_pos(len);
    lemma_pow10_pos(400);
    lemma_pow10_pos(t);
    let (x, y) = (pow10(len), pow10(400));
    let o = one();
    assert(2 * o == pow2(1075));
    assert(2 * n < x * y) by (nonlinear_arith)
        requires
            n == c * o,
            c < x,
            2 * o <= y,
            o >= 0,
            y > 0,
    ;
    lemma_pow2_values();
    assert(pow2(0) == 1);
    assert(d * 1 == d) by (nonlinear_arith);
    assert(0 * (d * pow2(0)) == 0) by (nonlinear_arith);
    assert(d <= d * pow2(53)) by (nonlinear_arith)
        requires
            pow2(53) >= 1,
    ;
    lemma_nearest(n, d, 0, 0, n);
}

fn pow10_u64(k: u32) -> (r: u64)
    requires
        k <= 19,
    ensures
        r == pow10(k as nat),
        r > 0,
{
    let mut r: u64 = 1;
    let mut i: u32 = 0;
    while i < k
        invariant
            i <= k <= 19,
            r == pow10(i as nat),
            r > 0,
        decreases k - i,
    {
        proof {
            lemma_pow10_monotone(i as nat, 18);
            assert(pow10(18) == 1_000_000_000_000_000_000) by {
                reveal_with_fuel(pow10, 19);
            }
        }
        r = 10 * r;
        i += 1;
    }
    r
}

/// The magnitude nearest to `c * 10^p`, for `c` held in any size.
fn decimal_of(c: Natural, p: i128) -> (m: u64)
    requires
        c.wf(),
        -0x1_0000_0000_0000_0000_0000 <= p <= 400,
    ensures
        m == nearest_decimal(c@, p as int),
        m <= INFINITE,
{
    let mut num = c;
    let mut den = Natural::from_u64(1);
    if p >= 0 {
        num.scale_decimal(p as u128);
    } else {
        den.scale_decimal((-p) as u128);
        proof {
            lemma_pow10_pos((-p) as nat);
            assert(1 * pow10((-p) as nat) == pow10((-p) as nat));
        }
    }
    num.shift_left(1074);
    nearest_natural(&num, &den)
}

/// The magnitude nearest to `c * 10^p`.
fn decimal_small(c: u64, p: i32) -> (m: u64)
    requires
        -1000 <= p <= 400,
    ensures
        m == nearest_decimal(c as nat, p as int),
        m <= INFINITE,
{
    if c == 0 {
        proof {
            lemma_decimal_zero(p as int);
        }
        return 0;
    }
    if -19 <= p && p <= 0 {
        let d: u64 = pow10_u64((-p) as u32);
        proof {
            if p == 0 {
                let o = one();
                assert((c as nat) * 1 * o == c as nat * o) by (nonlinear_arith);
                assert(pow10(0) == 1);
            }
        }
        return nearest_ratio(c, d, 1074);
    }
    decimal_of(Natural::from_u64(c), p as i128)
}

pub proof fn lemma_decimal_value_bound(s: Seq<char>)
    requires
        all_digits(s),
    ensures
        decimal_value(s) < pow10(s.len()),
    decreases s.len(),
{
    if s.len() > 0 {
        assert(all_digits(s.drop_last()));
        lemma_decimal_value_bound(s.drop_last());
        assert(is_digit(s.last()));
    }
}

proof fn lemma_leading_zeros(s: Seq<char>, k: int)
    requires
        0 <= k <= s.len(),
        forall|i: int| 0 <= i < k ==> s[i] == '0',
    ensures
        decimal_value(s) == decimal_value(s.skip(k)),
    decreases s.len(),
{
    if s.len() > 0 {
        if k == s.len() {
            lemma_leading_zeros(s.drop_last(), k - 1);
            assert(s.drop_last().skip(k - 1) =~= Seq::empty());
            assert(s.skip(k) =~= Seq::empty());
            assert(decimal_value(Seq::empty()) == 0);
        } else {
            lemma_leading_zeros(s.drop_last(), k);
            assert(s.drop_last().skip(k) =~= s.skip(k).drop_last());
        }
    } else {
        assert(s.skip(k) =~= s);
    }
}

/// The magnitude nearest to the number with the digits `d`, times `10^p`.
fn decimal_of_digits(d: &Vec<char>, p: i128) -> (m: u64)
    requires
        all_digits(d@),
        -0x1_0000_0000_0000_0000_0000 <= p <= 0x1_0000_0000_0000_0000_0000,
    ensures
        m == nearest_decimal(decimal_value(d@), p as int),
        m <= INFINITE,
{
    let n: usize = d.len();
    let mut z: usize = 0;
    while z < n && d[z] == '0'
        invariant
            z <= n == d@.len(),
            forall|i: int| 0 <= i < z ==> d@[i] == '0',
        decreases n - z,
    {
        z += 1;
    }
    let ghost body = d@.skip(z as int);
    proof {
        lemma_leading_zeros(d@, z as int);
        assert(all_digits(body)) by {
            assert forall|i: int| 0 <= i < body.len() implies is_digit(#[trigger] body[i]) by {
                assert(is_digit(d@[i + z]));
            }
        }
        lemma_decimal_value_bound(body);
    }
    let len: usize = n - z;
    if len == 0 {
        proof {
            assert(body =~= Seq::empty());
            lemma_decimal_zero(p as int);
        }
        return 0;
    }
    proof {
        assert(d@[z as int] == body[0]);
        lemma_decimal_prefix_value(body);
    }
    if p > 400 {
        proof {
            lemma_decimal_huge(decimal_value(body), p as int);
        }
        return INFINITE;
    }
    if p + (len as i128) < -400 {
        proof {
            lemma_decimal_tiny(decimal_value(body), p as int, len as nat);
        }
        return 0;
    }
    if len <= 19 {
        let mut c: u64 = 0;
        let mut i: usize = 0;
        assert(body.take(0) =~= Seq::empty());
        while i < len
            invariant
                i <= len <= 19,
                z + len == n,
                n == d@.len(),
                body == d@.skip(z as int),
                all_digits(body),
                c == decimal_value(body.take(i as int)),
            decreases len - i,
        {
            proof {
                assert(is_digit(body[i as int]));
                assert(all_digits(body.take(i as int)));
                lemma_decimal_value_bound(body.take(i as int));
                lemma_pow10_monotone(i as nat, 18);
                assert(pow10(18) == 1_000_000_000_000_000_000) by {
                    reveal_with_fuel(pow10, 19);
                }
                assert(body.take(i + 1).drop_last() =~= body.take(i as int));
            }
            c = 10 * c + value_of_digit(d[z + i]);
            i += 1;
        }
        assert(body.take(len as int) =~= body);
        return decimal_small(c, p as i32);
    }
    let mut c = Natural::zero();
    let mut i: usize = 0;
    assert(body.take(0) =~= Seq::empty());
    while i < len
        invariant
            i <= len,
            z + len == n,
            n == d@.len(),
            body == d@.skip(z as int),
            all_digits(body),
            c.wf(),
            c@ == decimal_value(body.take(i as int)),
        decreases len - i,
    {
        assert(is_digit(body[i as int]));
        assert(body.take(i + 1).drop_last() =~= body.take(i as int));
        c.mul_small(10, value_of_digit(d[z + i]) as u32);
        i += 1;
    }
    assert(body.take(len as int) =~= body);
    decimal_of(c, p)
}

proof fn lemma_decimal_prefix_value(s: Seq<char>)
    requires
        s.len() > 0,
        all_digits(s),
        s[0] != '0',
    ensures
        decimal_value(s) > 0,
    decreases s.len(),
{
    assert(is_digit(s[0]));
    if s.len() > 1 {
        assert(s.drop_last()[0] == s[0]);
        assert(all_digits(s.drop_last()));
        lemma_decimal_prefix_value(s.drop_last());
    } else {
        assert(s.last() == s[0]);
        lemma_nonzero_digit(s[0]);
    }
}

proof fn lemma_nonzero_digit(c: char)
    requires
        is_digit(c),
        c != '0',
    ensures
        digit_value(c) > 0,
{
}

// ---------------------------------------------------------------------------
// Reading
// ---------------------------------------------------------------------------

/// The number of digits that `s` starts with.
pub open spec fn digit_run(s: Seq<char>) -> int
    decreases s.len(),
{
    if s.len() > 0 && is_digit(s[0]) {
        1 + digit_run(s.skip(1))
    } else {
        0
    }
}

pub proof fn lemma_digit_run(s: Seq<char>, k: int)
    requires
        0 <= k <= s.len(),
        forall|i: int| 0 <= i < k ==> is_digit(#[trigger] s[i]),
        k < s.len() ==> !is_digit(s[k]),
    ensures
        digit_run(s) == k,
    decreases s.len(),
{
    if k > 0 {
        assert(is_digit(s[0]));
        let t = s.skip(1);
        assert forall|i: int| 0 <= i < k - 1 implies is_digit(#[trigger] t[i]) by {
            assert(t[i] == s[i + 1]);
        }
        lemma_digit_run(t, k - 1);
    }
}

/// The exponent that follows the digits of a number: nothing, or `e` and digits with
/// or without a sign.
pub open spec fn read_exponent(s: Seq<char>) -> Option<int> {
    if s.len() == 0 {
        Some(0)
    } else if s[0] == 'e' || s[0] == 'E' {
        let t = s.skip(1);
        let negative = t.len() > 0 && t[0] == '-';
        let body = if t.len() > 0 && (t[0] == '-' || t[0] == '+') {
            t.skip(1)
        } else {
            t
        };
        if body.len() > 0 && all_digits(body) {
            Some(
                if negative {
                    -(decimal_value(body) as int)
                } else {
                    decimal_value(body) as int
                },
            )
        } else {
            None
        }
    } else {
        None
    }
}

/// A decimal number without a sign: its digits, and the power of ten of the last
/// one. There is a digit before the point or behind it.
pub open spec fn read_number(s: Seq<char>) -> Option<(Seq<char>, int)> {
    let i = digit_run(s);
    let rest = s.skip(i);
    let (fraction, tail) = if rest.len() > 0 && rest[0] == '.' {
        let f = rest.skip(1);
        let j = digit_run(f);
        (f.take(j), f.skip(j))
    } else {
        (Seq::empty(), rest)
    };
    let digits = s.take(i) + fraction;
    match read_exponent(tail) {
        Some(e) if digits.len() > 0 => Some((digits, e - fraction.len())),
        _ => None,
    }
}

/// Every ASCII letter in lower case.
pub open spec fn lowered(s: Seq<char>) -> Seq<char> {
    s.map_values(|c: char| ascii_lower(c))
}

/// Reads a double: a decimal number, `inf`, `infinity` or `nan`, in any case, with or
/// without a sign.
pub open spec fn read_double(s: Seq<char>) -> Option<Double> {
    let negative = s.len() > 0 && s[0] == '-';
    let body = if s.len() > 0 && (s[0] == '-' || s[0] == '+') {
        s.skip(1)
    } else {
        s
    };
    match read_number(body) {
        Some((d, p)) => Some(signed(negative, nearest_decimal(decimal_value(d), p))),
        None => {
            let w = lowered(body);
            if w == "inf"@ || w == "infinity"@ {
                Some(signed(negative, INFINITE as nat))
            } else if w == "nan"@ {
                Some(signed(negative, NOT_A_NUMBER as nat))
            } else {
                None
            }
        },
    }
}

/// The index of the first character from `from` on that is no digit.
fn end_of_digits(s: &Vec<char>, from: usize) -> (r: usize)
    requires
        from <= s@.len(),
    ensures
        from <= r <= s@.len(),
        r - from == digit_run(s@.skip(from as int)),
        forall|i: int| from <= i < r ==> is_digit(#[trigger] s@[i]),
{
    let mut i: usize = from;
    while i < s.len() && digit(s[i])
        invariant
            from <= i <= s.len(),
            forall|j: int| from <= j < i ==> is_digit(#[trigger] s@[j]),
        decreases s.len() - i,
    {
        i += 1;
    }
    proof {
        let t = s@.skip(from as int);
        assert forall|j: int| 0 <= j < i - from implies is_digit(#[trigger] t[j]) by {
            assert(t[j] == s@[j + from]);
        }
        lemma_digit_run(t, i - from);
    }
    i
}

/// The exponent at the end of a number, from `from` on; capped at 10^21 either way.
fn exponent_at(s: &Vec<char>, from: usize) -> (r: Option<i128>)
    requires
        from <= s@.len(),
    ensures
        match r {
            Some(e) => {
                &&& read_exponent(s@.skip(from as int)) is Some
                &&& -1_000_000_000_000_000_000_000 <= e <= 1_000_000_000_000_000_000_000
                &&& ({
                    let x = read_exponent(s@.skip(from as int))->0;
                    ||| e == x
                    ||| e == 1_000_000_000_000_000_000_000 && x >= e
                    ||| e == -1_000_000_000_000_000_000_000 && x <= e
                })
            },
            None => read_exponent(s@.skip(from as int)) is None,
        },
{
    let ghost t = s@.skip(from as int);
    let n: usize = s.len();
    if from == n {
        return Some(0);
    }
    assert(t[0] == s@[from as int]);
    if s[from] != 'e' && s[from] != 'E' {
        return None;
    }
    let mut start: usize = from + 1;
    let mut negative: bool = false;
    proof {
        if from + 1 < n {
            assert(t.skip(1)[0] == s@[from + 1]);
        }
    }
    if start < n && (s[start] == '-' || s[start] == '+') {
        negative = s[start] == '-';
        start += 1;
    }
    let ghost body = s@.skip(start as int);
    proof {
        if start == from + 1 {
            assert(t.skip(1) =~= body);
        } else {
            assert(t.skip(1).skip(1) =~= body);
        }
    }
    if start == n {
        return None;
    }
    let mut acc: i128 = 0;
    let mut i: usize = start;
    assert(body.take(0) =~= Seq::empty());
    while i < n
        invariant
            start <= i <= n,
            n == s@.len(),
            body == s@.skip(start as int),
            body.len() > 0,
            t == s@.skip(from as int),
            start == from + 1 || start == from + 2,
            t.len() > 0,
            t[0] == 'e' || t[0] == 'E',
            negative == (t.skip(1).len() > 0 && t.skip(1)[0] == '-'),
            body == (if t.skip(1).len() > 0 && (t.skip(1)[0] == '-' || t.skip(1)[0] == '+') {
                t.skip(1).skip(1)
            } else {
                t.skip(1)
            }),
            0 <= acc <= 1_000_000_000_000_000_000_000,
            forall|j: int| 0 <= j < i - start ==> is_digit(#[trigger] body[j]),
            acc == decimal_value(body.take(i - start)) || (acc == 1_000_000_000_000_000_000_000
                && decimal_value(body.take(i - start)) >= acc),
        decreases n - i,
    {
        assert(body[i - start] == s@[i as int]);
        if !digit(s[i]) {
            return None;
        }
        assert(body.take(i - start + 1).drop_last() =~= body.take(i - start));
        acc = 10 * acc + value_of_digit(s[i]) as i128;
        if acc > 1_000_000_000_000_000_000_000 {
            acc = 1_000_000_000_000_000_000_000;
        }
        i += 1;
    }
    assert(body.take(n - start) =~= body);
    Some(
        if negative {
            -acc
        } else {
            acc
        },
    )
}

/// Past the caps a number is as good as infinite or zero.
proof fn lemma_capped(c: nat, len: nat, x: int, y: int)
    requires
        c < pow10(len),
        x == y || (x > 400 && y > 400) || (x + len < -400 && y + len < -400),
    ensures
        nearest_decimal(c, x) == nearest_decimal(c, y),
{
    if x != y {
        if c == 0 {
            lemma_decimal_zero(x);
            lemma_decimal_zero(y);
        } else if x > 400 {
            lemma_decimal_huge(c, x);
            lemma_decimal_huge(c, y);
        } else {
            lemma_decimal_tiny(c, x, len);
            lemma_decimal_tiny(c, y, len);
        }
    }
}

/// The magnitude of the decimal number that `s` holds from `from` on.
fn magnitude_at(s: &Vec<char>, from: usize) -> (r: Option<u64>)
    requires
        from <= s@.len(),
    ensures
        match read_number(s@.skip(from as int)) {
            Some((d, p)) => r is Some && r->0 == nearest_decimal(decimal_value(d), p) && r->0
                <= INFINITE,
            None => r is None,
        },
{
    let ghost t = s@.skip(from as int);
    let i: usize = end_of_digits(s, from);
    let mut digits: Vec<char> = slice(s, from, i);
    let mut tail: usize = i;
    let mut places: usize = 0;
    proof {
        assert(t.take(i - from) =~= digits@);
        assert(t.skip(i - from) =~= s@.skip(i as int));
        if i < s@.len() {
            assert(s@.skip(i as int)[0] == s@[i as int]);
        }
    }
    if i < s.len() && s[i] == '.' {
        let j: usize = end_of_digits(s, i + 1);
        let fraction = slice(s, i + 1, j);
        push_chars(&mut digits, &fraction);
        places = j - (i + 1);
        tail = j;
        proof {
            let f = s@.skip(i as int).skip(1);
            assert(f =~= s@.skip(i + 1));
            assert(f.take(j - (i + 1)) =~= fraction@);
            assert(f.skip(j - (i + 1)) =~= s@.skip(j as int));
        }
    } else {
        proof {
            assert(digits@ + Seq::empty() =~= digits@);
        }
    }
    let e: i128 = match exponent_at(s, tail) {
        Some(e) => e,
        None => {
            return None;
        },
    };
    if digits.len() == 0 {
        return None;
    }
    let p: i128 = e - (places as i128);
    proof {
        assert(all_digits(digits@)) by {
            assert forall|k: int| 0 <= k < digits@.len() implies is_digit(
                #[trigger] digits@[k],
            ) by {
                if k < i - from {
                    assert(digits@[k] == s@[k + from]);
                } else {
                    assert(digits@[k] == s@[k - (i - from) + i + 1]);
                }
            }
        }
        lemma_decimal_value_bound(digits@);
        let x = read_exponent(s@.skip(tail as int))->0;
        lemma_capped(decimal_value(digits@), digits@.len(), p as int, x - places);
    }
    Some(decimal_of_digits(&digits, p))
}

/// Every ASCII letter in lower case.
fn to_lowered(s: &Vec<char>, from: usize) -> (r: Vec<char>)
    requires
        from <= s@.len(),
    ensures
        r@ == lowered(s@.skip(from as int)),
{
    let mut r: Vec<char> = Vec::new();
    let mut i: usize = from;
    while i < s.len()
        invariant
            from <= i <= s.len(),
            r@ == lowered(s@.subrange(from as int, i as int)),
        decreases s.len() - i,
    {
        let n: u32 = s[i] as u32;
        let c: char = if 65 <= n && n <= 90 {
            ((n + 32) as u8) as char
        } else {
            s[i]
        };
        r.push(c);
        assert(r@ =~= lowered(s@.subrange(from as int, i + 1)));
        i += 1;
    }
    assert(s@.subrange(from as int, s@.len() as int) =~= s@.skip(from as int));
    r
}

/// Reads a double.
pub fn parse_double(s: &Vec<char>) -> (r: Option<Double>)
    ensures
        r == read_double(s@),
{
    let negative: bool = s.len() > 0 && s[0] == '-';
    let from: usize = if s.len() > 0 && (s[0] == '-' || s[0] == '+') {
        1
    } else {
        0
    };
    assert(s@.skip(0) =~= s@);
    let m: u64 = match magnitude_at(s, from) {
        Some(m) => m,
        None => {
            let w = to_lowered(s, from);
            if is_text(&w, "inf") || is_text(&w, "infinity") {
                INFINITE
            } else if is_text(&w, "nan") {
                NOT_A_NUMBER
            } else {
                return None;
            }
        },
    };
    if negative {
        Some(Double { bits: m + SIGN })
    } else {
        Some(Double { bits: m })
    }
}

// ---------------------------------------------------------------------------
// Writing
// ---------------------------------------------------------------------------

/// `u` units over `10^e`, as a ratio of natural numbers.
pub open spec fn over_power(u: nat, e: int) -> (nat, nat) {
    if e >= 0 {
        (u, one() * pow10(e as nat))
    } else {
        (u * pow10((-e) as nat), one())
    }
}

/// The smallest exponent from `e` on whose power of ten is more than `u` units.
pub open spec fn exponent_up(u: nat, e: nat) -> int
    decreases 400 - e,
{
    if e >= 400 || u < one() * pow10(e) {
        e as int
    } else {
        exponent_up(u, e + 1)
    }
}

/// The smallest exponent from `-k` down whose power of ten is more than `u` units.
pub open spec fn exponent_down(u: nat, k: nat) -> int
    decreases 400 - k,
{
    if k >= 400 || 10 * (u * pow10(k)) >= one() {
        -(k as int)
    } else {
        exponent_down(u, k + 1)
    }
}

/// The number of digits that `u` units have before the decimal point; where they
/// have none, minus the number of zeros behind it.
pub open spec fn decimal_exponent(u: nat) -> int {
    if u >= one() {
        exponent_up(u, 0)
    } else {
        exponent_down(u, 0)
    }
}

/// The `n`-digit decimal that reads back as the magnitude `m`, if there is one: its
/// digits, as a number. Of two the one nearer to `m`.
pub open spec fn digits_at(m: nat, n: nat) -> Option<nat> {
    let e = decimal_exponent(units(m));
    let (x, y) = over_power(units(m), e);
    let low = x * pow10(n) / y;
    let down = nearest_decimal(low, e - n) == m;
    let up = nearest_decimal(low + 1, e - n) == m;
    if down && (!up || 2 * (x * pow10(n) % y) < y) {
        Some(low)
    } else if up {
        Some(low + 1)
    } else {
        None
    }
}

/// The shortest decimal of at least `n` digits that reads back as the magnitude `m`:
/// its digits, and the power of ten of the last one.
pub open spec fn shortest_from(m: nat, n: nat) -> (nat, int)
    decreases 18 - n,
{
    match digits_at(m, n) {
        Some(c) => (c, decimal_exponent(units(m)) - n),
        None => if n >= 18 {
            (0, 0)
        } else {
            shortest_from(m, n + 1)
        },
    }
}

/// Moves the zeros at the end of the digits into the power of ten.
pub open spec fn without_zeros(c: nat, p: int) -> (nat, int)
    decreases c,
{
    if c > 0 && c % 10 == 0 {
        without_zeros(c / 10, p + 1)
    } else {
        (c, p)
    }
}

/// The digits of the shortest decimal that reads back as the magnitude `m`, and the
/// power of ten of the last one.
pub open spec fn shortest(m: nat) -> (nat, int) {
    let (c, p) = shortest_from(m, 1);
    without_zeros(c, p)
}

/// `n` zeros.
pub open spec fn zeros(n: nat) -> Seq<char> {
    Seq::new(n, |i: int| '0')
}

/// `c * 10^p` without an exponent.
pub open spec fn show_decimal(c: nat, p: int) -> Seq<char> {
    place_point(show_nat(c), p)
}

/// A double in decimal: the shortest digits that read back as the same double.
pub open spec fn show_double(x: Double) -> Seq<char> {
    if x.is_nan() {
        "NaN"@
    } else {
        let sign = if x.negative() {
            seq!['-']
        } else {
            Seq::empty()
        };
        if x.is_infinite() {
            sign + "inf"@
        } else if x.magnitude() == 0 {
            sign + seq!['0']
        } else {
            let (c, p) = shortest(x.magnitude());
            sign + show_decimal(c, p)
        }
    }
}

proof fn lemma_units_range(m: nat)
    requires
        0 < m < INFINITE,
    ensures
        0 < units(m),
        units(m) < one() * pow10(400),
        one() <= units(m) * pow10(400),
        units(m) < pow2(53) * pow2(exponent(m)),
{
    lemma_decode(m);
    lemma_units_positive(m);
    lemma_pow2_values();
    let (q, k) = (mantissa(m), exponent(m));
    let u = units(m);
    lemma_pow2_pos(k);
    let p = pow2(k);
    assert(q * p < pow2(53) * p) by (nonlinear_arith)
        requires
            q < pow2(53),
            p > 0,
    ;
    lemma_pow2_sum(53, k);
    lemma_pow2_monotone(53 + k, 1074 + 1200);
    lemma_pow2_sum(1074, 1200);
    lemma_pow10_pow2(400);
    let (o, t, z) = (one(), pow10(400), pow2(1200));
    assert(o * z <= o * t) by (nonlinear_arith)
        requires
            z <= t,
    ;
    lemma_pow2_monotone(1074, 1200);
    assert(t <= u * t) by (nonlinear_arith)
        requires
            u >= 1,
    ;
}

/// With eighteen digits the digits alone read back.
proof fn lemma_eighteen(m: nat, e: int, low: nat, rest: nat)
    requires
        0 < m < INFINITE,
        ({
            let (x, y) = over_power(units(m), e);
            &&& x < y
            &&& 10 * x >= y
            &&& x * pow10(18) == low * y + rest
            &&& rest < y
        }),
    ensures
        nearest_decimal(low, e - 18) == m,
{
    lemma_units_range(m);
    let u = units(m);
    let (x, y) = over_power(u, e);
    let o = one();
    let s = pow2(exponent(m));
    let q = e - 18;
    assert(pow10(17) == 100_000_000_000_000_000 && pow10(18) == 1_000_000_000_000_000_000) by {
        reveal_with_fuel(pow10, 19);
    }
    lemma_pow2_values();
    lemma_pow2_pos(1074);
    // Eighteen digits of x / y leave less than one part in 10^17.
    assert(x * pow10(18) >= y * pow10(17)) by (nonlinear_arith)
        requires
            10 * x >= y,
            pow10(18) == 10 * pow10(17),
            pow10(17) > 0,
    ;
    if q >= 0 {
        // y == o * 10^q * 10^18
        lemma_pow10_sum(q as nat, 18);
        lemma_pow10_pos(q as nat);
        let t = pow10(q as nat);
        let step = t * o;
        let big = pow10(18);
        assert(y == step * big) by (nonlinear_arith)
            requires
                y == o * (t * big),
                step == t * o,
        ;
        let n = low * t * o;
        assert(n == low * step) by (nonlinear_arith)
            requires
                n == low * t * o,
                step == t * o,
        ;
        assert(u - n >= 0 && (u - n) < step) by (nonlinear_arith)
            requires
                u * big == low * (step * big) + rest,
                rest < step * big,
                n == low * step,
                big > 0,
        ;
        let small = pow10(17);
        assert(u >= step * small) by (nonlinear_arith)
            requires
                u * big >= (step * big) * small,
                big > 0,
        ;
        assert(4 * step < s) by (nonlinear_arith)
            requires
                u >= step * small,
                u < pow2(53) * s,
                pow2(53) == 0x20_0000_0000_0000,
                small == 100_000_000_000_000_000,
                step >= 0,
                s >= 0,
        ;
        assert(1 * s == s);
        assert(u * 1 == u);
        lemma_nearest_close(m, n, 1);
    } else {
        let t = (-q) as nat;
        let d = pow10(t);
        lemma_pow10_pos(t);
        let n = low * o;
        let big = pow10(18);
        let small = pow10(17);
        // u * d == low * o + (less than o), and u * d >= o * 10^17.
        if e >= 0 {
            let f = pow10(e as nat);
            lemma_pow10_pos(e as nat);
            lemma_pow10_sum(t, e as nat);
            assert(t + e as nat == 18);
            assert(u * d - n >= 0 && u * d - n < o) by (nonlinear_arith)
                requires
                    u * (d * f) == low * (o * f) + rest,
                    rest < o * f,
                    n == low * o,
                    f > 0,
            ;
            assert(u * d >= o * small) by (nonlinear_arith)
                requires
                    u * (d * f) >= (o * f) * small,
                    f > 0,
            ;
        } else {
            let f = pow10((-e) as nat);
            lemma_pow10_sum((-e) as nat, 18);
            assert((-e) as nat + 18 == t);
            assert((u * f) * big == u * d) by (nonlinear_arith)
                requires
                    d == f * big,
            ;
        }
        assert(4 * o < d * s) by (nonlinear_arith)
            requires
                u * d >= o * small,
                u < pow2(53) * s,
                pow2(53) == 0x20_0000_0000_0000,
                small == 100_000_000_000_000_000,
                d > 0,
                o > 0,
        {
            assert(u * d < pow2(53) * s * d);
            assert(o * small < 0x20_0000_0000_0000 * (s * d));
            assert(s * d == d * s);
        }
        lemma_nearest_close(m, n, d);
    }
}

/// The units over the power of ten just above them.
fn scale_units(m: u64) -> (r: (Natural, Natural, i32))
    requires
        0 < m < INFINITE,
    ensures
        r.0.wf(),
        r.1.wf(),
        (r.0@, r.1@) == over_power(units(m as nat), r.2 as int),
        r.2 == decimal_exponent(units(m as nat)),
        r.0@ < r.1@,
        10 * r.0@ >= r.1@,
        -400 <= r.2 <= 400,
        r.0@ > 0,
{
    let (q, k): (u64, u32) = decode(m);
    let ghost u = units(m as nat);
    proof {
        lemma_units_range(m as nat);
        lemma_pow2_pos(1074);
    }
    let mut a = Natural::from_u64(q);
    a.shift_left(k as usize);
    let mut b = Natural::from_u64(1);
    b.shift_left(1074);
    let mut e: i32 = 0;
    proof {
        assert(1 * one() == one());
        assert(pow10(0) == 1);
        assert(one() * 1 == one());
        assert(u * 1 == u);
    }
    let mut small: bool = a.less(&b);
    let ghost started_small = small;
    while !small
        invariant
            a.wf(),
            b.wf(),
            0 <= e <= 400,
            a@ == u,
            b@ == one() * pow10(e as nat),
            u < one() * pow10(400),
            small == (a@ < b@),
            started_small == (u < one()),
            started_small ==> e == 0 && small,
            !started_small ==> decimal_exponent(u) == exponent_up(u, e as nat),
            e > 0 ==> 10 * a@ >= b@,
        decreases (if small { 0int } else { 1int }) + 400 - e,
    {
        let ghost p = pow10(e as nat);
        proof {
            if e >= 400 {
                lemma_pow10_monotone(400, e as nat);
            }
            let o = one();
            assert((o * p) * 10 == o * (10 * p)) by (nonlinear_arith);
        }
        b.mul_small(10, 0);
        e += 1;
        small = a.less(&b);
    }
    let mut ten = a.copy();
    ten.mul_small(10, 0);
    let mut less: bool = ten.less(&b);
    assert(u * pow10(0) == u) by (nonlinear_arith)
        requires
            pow10(0) == 1,
    ;
    while less
        invariant
            a.wf(),
            b.wf(),
            ten.wf(),
            ten@ == 10 * a@,
            -400 <= e <= 400,
            less ==> e <= 0,
            less == (ten@ < b@),
            a@ < b@,
            started_small == (u < one()),
            one() <= u * pow10(400),
            u > 0,
            e > 0 ==> (a@, b@) == over_power(u, e as int) && e == decimal_exponent(u),
            e <= 0 ==> a@ == u * pow10((-e) as nat) && b@ == one(),
            e <= 0 && started_small ==> decimal_exponent(u) == exponent_down(u, (-e) as nat),
            !started_small ==> e == decimal_exponent(u) && e > 0,
        decreases (if less { 1int } else { 0int }) + 400 + e,
    {
        let ghost p = pow10((-e) as nat);
        proof {
            if e <= -400 {
                lemma_pow10_monotone(400, (-e) as nat);
                assert(u * pow10(400) <= u * p) by (nonlinear_arith)
                    requires
                        pow10(400) <= p,
                ;
            }
            assert((u * p) * 10 == u * (10 * p)) by (nonlinear_arith);
        }
        a.mul_small(10, 0);
        e -= 1;
        ten = a.copy();
        ten.mul_small(10, 0);
        less = ten.less(&b);
    }
    (a, b, e)
}

/// The digits of the shortest decimal that reads back as the magnitude `m`, and the
/// power of ten of the last one.
fn shortest_of(m: u64) -> (r: (u64, i32))
    requires
        0 < m < INFINITE,
    ensures
        (r.0 as nat, r.1 as int) == shortest(m as nat),
        -1000 <= r.1 <= 1000,
{
    let (mut a, b, e): (Natural, Natural, i32) = scale_units(m);
    let ghost x = a@;
    let ghost y = b@;
    let mut n: i32 = 0;
    let mut c: u64 = 0;
    let mut found: bool = false;
    let mut p: i32 = 0;
    proof {
        assert(x * pow10(0) == x) by (nonlinear_arith)
            requires
                pow10(0) == 1,
        ;
        assert(0 * y == 0) by (nonlinear_arith);
    }
    while !found
        invariant
            0 < m < INFINITE,
            a.wf(),
            b.wf(),
            b@ == y,
            (x, y) == over_power(units(m as nat), e as int),
            e == decimal_exponent(units(m as nat)),
            -400 <= e <= 400,
            x < y,
            10 * x >= y,
            0 <= n <= 18,
            !found ==> x * pow10(n as nat) == c * y + a@,
            !found ==> a@ < y,
            !found ==> c < pow10(n as nat),
            !found ==> shortest_from(m as nat, 1) == shortest_from(m as nat, (n + 1) as nat),
            !found ==> n < 18,
            found ==> (c as nat, p as int) == shortest_from(m as nat, 1),
            -500 <= p <= 500,
        decreases (if found { 0int } else { 1int }) + 20 - n,
    {
        let ghost c0 = c as nat;
        let ghost a0 = a@;
        let ghost t = pow10(n as nat);
        proof {
            lemma_pow10_monotone(n as nat, 17);
            assert(pow10(17) == 100_000_000_000_000_000) by {
                reveal_with_fuel(pow10, 18);
            }
        }
        a.mul_small(10, 0);
        let mut d: u64 = 0;
        proof {
            assert(0 * y == 0) by (nonlinear_arith);
        }
        let mut more: bool = !a.less(&b);
        while more
            invariant
                a.wf(),
                b.wf(),
                b@ == y,
                more == (a@ >= y),
                10 * a0 == d * y + a@,
                a0 < y,
                d <= 9 || !more,
                d <= 10,
            decreases a@,
        {
            proof {
                assert(d < 10);
                assert((d + 1) * y == d * y + y) by (nonlinear_arith);
                if d == 9 {
                    assert(a@ < y) by (nonlinear_arith)
                        requires
                            10 * a0 == 9 * y + a@,
                            a0 < y,
                    ;
                }
            }
            a.subtract(&b);
            d += 1;
            more = !a.less(&b);
        }
        proof {
            assert(d < 10) by (nonlinear_arith)
                requires
                    10 * a0 == d * y + a@,
                    a0 < y,
                    a@ >= 0,
            ;
            assert(x * (10 * t) == (10 * c0 + d as nat) * y + a@) by (nonlinear_arith)
                requires
                    x * t == c0 * y + a0,
                    10 * a0 == d as nat * y + a@,
            ;
        }
        c = 10 * c + d;
        n += 1;
        proof {
            lemma_fundamental_div_mod_converse(
                (x * pow10(n as nat)) as int,
                y as int,
                c as int,
                a@ as int,
            );
            if n == 18 {
                lemma_eighteen(m as nat, e as int, c as nat, a@);
            }
        }
        let down: bool = decimal_small(c, e - n) == m;
        let up: bool = decimal_small(c + 1, e - n) == m;
        if down || up {
            let mut rest = a.copy();
            rest.mul_small(2, 0);
            if !down || (up && !rest.less(&b)) {
                c = c + 1;
            }
            found = true;
            p = e - n;
        }
    }
    let mut fuel: i32 = 0;
    proof {
        assert(pow10(20) == 100_000_000_000_000_000_000) by {
            reveal_with_fuel(pow10, 21);
        }
        assert(c as nat * pow10(0) == c) by (nonlinear_arith)
            requires
                pow10(0) == 1,
        ;
    }
    while c > 0 && c % 10 == 0
        invariant
            without_zeros(c as nat, p as int) == shortest(m as nat),
            0 <= fuel <= 20,
            -500 <= p - fuel <= 500,
            c as nat * pow10(fuel as nat) < pow10(20),
        decreases c,
    {
        proof {
            let t = pow10(fuel as nat);
            let z = c as nat / 10;
            assert(z * (10 * t) == c as nat * t) by (nonlinear_arith)
                requires
                    c as nat == 10 * z,
            ;
            if fuel >= 20 {
                lemma_pow10_monotone(20, fuel as nat);
                assert(c as nat * t >= t) by (nonlinear_arith)
                    requires
                        c >= 1,
                ;
            }
        }
        c = c / 10;
        p += 1;
        fuel += 1;
    }
    (c, p)
}

/// Appends the characters of `c * 10^p`.
fn push_decimal(out: &mut Vec<char>, c: u64, p: i32)
    requires
        -1000 <= p <= 1000,
    ensures
        final(out)@ == old(out)@ + show_decimal(c as nat, p as int),
{
    let mut d: Vec<char> = Vec::new();
    push_u64(&mut d, c);
    push_digits(out, &d, p);
    assert(d@ =~= show_nat(c as nat));
}

/// `d * 10^p` without an exponent, where `d` is a row of digits.
pub open spec fn place_point(d: Seq<char>, p: int) -> Seq<char> {
    if p >= 0 {
        d + zeros(p as nat)
    } else if d.len() > -p {
        d.take(d.len() + p) + seq!['.'] + d.skip(d.len() + p)
    } else {
        seq!['0', '.'] + zeros((-p - d.len()) as nat) + d
    }
}

fn push_digits(out: &mut Vec<char>, d: &Vec<char>, p: i32)
    requires
        -1000 <= p <= 1000,
    ensures
        final(out)@ == old(out)@ + place_point(d@, p as int),
{
    let ghost start = out@;
    if p >= 0 {
        push_chars(out, d);
        push_zeros(out, p as usize);
        assert(out@ =~= start + place_point(d@, p as int));
        return;
    }
    let k: usize = (-p) as usize;
    if d.len() > k {
        let whole = slice(d, 0, d.len() - k);
        let fraction = slice(d, d.len() - k, d.len());
        push_chars(out, &whole);
        out.push('.');
        push_chars(out, &fraction);
        assert(d@.skip(d@.len() + p) =~= fraction@);
        assert(out@ =~= start + place_point(d@, p as int));
    } else {
        out.push('0');
        out.push('.');
        push_zeros(out, k - d.len());
        push_chars(out, d);
        assert(out@ =~= start + place_point(d@, p as int));
    }
}

fn push_zeros(out: &mut Vec<char>, n: usize)
    ensures
        final(out)@ == old(out)@ + zeros(n as nat),
{
    let ghost start = out@;
    let mut i: usize = 0;
    while i < n
        invariant
            i <= n,
            out@ == start + zeros(i as nat),
        decreases n - i,
    {
        out.push('0');
        i += 1;
        assert(out@ =~= start + zeros(i as nat));
    }
}

/// Appends the double `x` in decimal.
pub fn push_double(out: &mut Vec<char>, x: Double)
    ensures
        final(out)@ == old(out)@ + show_double(x),
{
    let ghost start = out@;
    if x.not_a_number() {
        push_str(out, "NaN");
        return;
    }
    let m: u64 = x.absolute().bits;
    if x.bits >= SIGN {
        out.push('-');
    }
    let ghost sign = if x.negative() {
        seq!['-']
    } else {
        Seq::<char>::empty()
    };
    assert(out@ =~= start + sign);
    if m == INFINITE {
        push_str(out, "inf");
        assert(out@ =~= start + (sign + "inf"@));
    } else if m == 0 {
        out.push('0');
        assert(out@ =~= start + (sign + seq!['0']));
    } else {
        let (c, p): (u64, i32) = shortest_of(m);
        push_decimal(out, c, p);
        assert(out@ =~= start + (sign + show_decimal(c as nat, p as int)));
    }
}

/// The digits `d` with the power of ten `p` of the last one, as one digit before the
/// point and an exponent.
pub open spec fn show_scientific(d: Seq<char>, p: int) -> Seq<char> {
    d.take(1) + (if d.len() > 1 {
        seq!['.'] + d.skip(1)
    } else {
        Seq::empty()
    }) + seq!['e'] + show_int(p + d.len() - 1)
}

/// The magnitude of 10^16.
pub const LARGE: u64 = 0x4341_C379_37E0_8000;

/// The magnitude of 10^-4.
pub const SMALL: u64 = 0x3F1A_36E2_EB1C_432D;

/// A double in an error message: with a point or an exponent in any case.
pub open spec fn debug_double(x: Double) -> Seq<char> {
    let m = x.magnitude();
    if m >= INFINITE {
        show_double(x)
    } else {
        let sign = if x.negative() {
            seq!['-']
        } else {
            Seq::empty()
        };
        if m == 0 {
            sign + seq!['0', '.', '0']
        } else {
            let (c, p) = shortest(m);
            if m >= LARGE || m < SMALL {
                sign + show_scientific(show_nat(c), p)
            } else if p >= 0 {
                sign + show_decimal(c, p) + seq!['.', '0']
            } else {
                sign + show_decimal(c, p)
            }
        }
    }
}

/// Appends the double `x` as it stands in an error message.
pub fn push_debug_double(out: &mut Vec<char>, x: Double)
    ensures
        final(out)@ == old(out)@ + debug_double(x),
{
    let ghost start = out@;
    let m: u64 = x.absolute().bits;
    if m >= INFINITE {
        push_double(out, x);
        return;
    }
    if x.bits >= SIGN {
        out.push('-');
    }
    let ghost sign = if x.negative() {
        seq!['-']
    } else {
        Seq::<char>::empty()
    };
    assert(out@ =~= start + sign);
    if m == 0 {
        push_str(out, "0.0");
        proof {
            reveal_strlit("0.0");
            assert(out@ =~= start + (sign + seq!['0', '.', '0']));
        }
        return;
    }
    let (c, p): (u64, i32) = shortest_of(m);
    if m >= LARGE || m < SMALL {
        let mut d: Vec<char> = Vec::new();
        push_u64(&mut d, c);
        proof {
            assert(d@ =~= show_nat(c as nat));
            crate::number::lemma_show_nat(c as nat);
            assert(pow10(20) == 100_000_000_000_000_000_000) by {
                reveal_with_fuel(pow10, 21);
            }
            lemma_show_nat_len(c as nat, 20);
        }
        push_scientific(out, &d, p);
        assert(out@ =~= start + (sign + show_scientific(d@, p as int)));
    } else {
        push_decimal(out, c, p);
        if p >= 0 {
            out.push('.');
            out.push('0');
            assert(out@ =~= start + (sign + show_decimal(c as nat, p as int) + seq!['.', '0']));
        } else {
            assert(out@ =~= start + (sign + show_decimal(c as nat, p as int)));
        }
    }
}

proof fn lemma_show_nat_len(n: nat, k: nat)
    requires
        k > 0,
        n < pow10(k),
    ensures
        show_nat(n).len() <= k,
    decreases k,
{
    if n >= 10 {
        if k == 1 {
            assert(pow10(1) == 10) by {
                reveal_with_fuel(pow10, 2);
            }
        } else {
            lemma_show_nat_len(n / 10, (k - 1) as nat);
        }
    }
}

fn push_scientific(out: &mut Vec<char>, d: &Vec<char>, p: i32)
    requires
        -1000 <= p <= 1000,
        0 < d@.len() <= 100,
    ensures
        final(out)@ == old(out)@ + show_scientific(d@, p as int),
{
    let ghost start = out@;
    out.push(d[0]);
    if d.len() > 1 {
        out.push('.');
        push_chars(out, &slice(d, 1, d.len()));
    }
    out.push('e');
    push_i64(out, (p as i64) + (d.len() as i64) - 1);
    proof {
        assert(d@.take(1) =~= seq![d@[0]]);
        assert(d@.skip(1) =~= d@.subrange(1, d@.len() as int));
        assert(out@ =~= start + show_scientific(d@, p as int));
    }
}

// ---------------------------------------------------------------------------
// Reading back what was written
// ---------------------------------------------------------------------------

proof fn lemma_exponent_up(u: nat, e: nat)
    requires
        u < one() * pow10(400),
        e <= 400,
        e == 0 ==> u >= one(),
        e > 0 ==> u >= one() * pow10((e - 1) as nat),
    ensures
        ({
            let r = exponent_up(u, e);
            &&& 0 < r <= 400
            &&& u < one() * pow10(r as nat)
            &&& u >= one() * pow10((r - 1) as nat)
        }),
    decreases 400 - e,
{
    if e == 0 {
        assert(one() * pow10(0) == one()) by (nonlinear_arith)
            requires
                pow10(0) == 1,
        ;
        lemma_exponent_up(u, 1);
    } else if !(e >= 400 || u < one() * pow10(e)) {
        lemma_exponent_up(u, e + 1);
    }
}

proof fn lemma_exponent_down(u: nat, k: nat)
    requires
        one() <= u * pow10(400),
        k <= 400,
        u * pow10(k) < one(),
    ensures
        ({
            let r = exponent_down(u, k);
            &&& -400 <= r <= 0
            &&& u * pow10((-r) as nat) < one()
            &&& 10 * (u * pow10((-r) as nat)) >= one()
        }),
    decreases 400 - k,
{
    if !(k >= 400 || 10 * (u * pow10(k)) >= one()) {
        let p = pow10(k);
        assert(u * (10 * p) == 10 * (u * p)) by (nonlinear_arith);
        lemma_exponent_down(u, k + 1);
    }
}

/// The decimal exponent brings the units between a tenth and one.
proof fn lemma_decimal_exponent(m: nat)
    requires
        0 < m < INFINITE,
    ensures
        ({
            let e = decimal_exponent(units(m));
            let (x, y) = over_power(units(m), e);
            &&& -400 <= e <= 400
            &&& x < y
            &&& 10 * x >= y
            &&& y > 0
        }),
{
    lemma_units_range(m);
    let u = units(m);
    let o = one();
    if u >= o {
        lemma_exponent_up(u, 0);
        let e = exponent_up(u, 0);
        let p = pow10((e - 1) as nat);
        assert(o * (10 * p) == 10 * (o * p)) by (nonlinear_arith);
    } else {
        assert(u * pow10(0) == u) by (nonlinear_arith)
            requires
                pow10(0) == 1,
        ;
        lemma_exponent_down(u, 0);
        let e = exponent_down(u, 0);
        if e == 0 {
            assert(o * pow10(0) == o) by (nonlinear_arith)
                requires
                    pow10(0) == 1,
            ;
        }
    }
}

proof fn lemma_shortest_from(m: nat, n: nat)
    requires
        0 < m < INFINITE,
        n <= 18,
    ensures
        nearest_decimal(shortest_from(m, n).0, shortest_from(m, n).1) == m,
    decreases 18 - n,
{
    if digits_at(m, n) is None {
        if n == 18 {
            lemma_decimal_exponent(m);
            let e = decimal_exponent(units(m));
            let (x, y) = over_power(units(m), e);
            let w = x * pow10(18);
            lemma_fundamental_div_mod(w as int, y as int);
            assert(y * (w / y) == (w / y) * y) by (nonlinear_arith);
            lemma_eighteen(m, e, w / y, w % y);
        } else {
            lemma_shortest_from(m, n + 1);
        }
    }
}

proof fn lemma_without_zeros(c: nat, p: int)
    ensures
        nearest_decimal(without_zeros(c, p).0, without_zeros(c, p).1) == nearest_decimal(c, p),
    decreases c,
{
    if c > 0 && c % 10 == 0 {
        let z = c / 10;
        let o = one();
        lemma_without_zeros(z, p + 1);
        if p >= 0 {
            let t = pow10(p as nat);
            assert(z * (10 * t) * o == c * t * o) by (nonlinear_arith)
                requires
                    c == 10 * z,
            ;
        } else {
            let k = (-p - 1) as nat;
            let t = pow10(k);
            lemma_pow10_pos(k);
            assert((z * o) * 10 == c * o) by (nonlinear_arith)
                requires
                    c == 10 * z,
            ;
            assert(t * 10 == 10 * t);
            crate::double::lemma_nearest_scaled(z * o, t, 10);
            if k == 0 {
                assert(z * 1 * o == z * o) by (nonlinear_arith);
            }
        }
    }
}

/// The shortest decimal of a magnitude reads back as the magnitude.
pub proof fn lemma_shortest(m: nat)
    requires
        0 < m < INFINITE,
    ensures
        nearest_decimal(shortest(m).0, shortest(m).1) == m,
{
    lemma_shortest_from(m, 1);
    let (c, p) = shortest_from(m, 1);
    lemma_without_zeros(c, p);
}

proof fn lemma_decimal_value_zeros(s: Seq<char>, k: nat)
    ensures
        decimal_value(s + zeros(k)) == decimal_value(s) * pow10(k),
    decreases k,
{
    if k == 0 {
        assert(s + zeros(0) =~= s);
        assert(decimal_value(s) * pow10(0) == decimal_value(s)) by (nonlinear_arith)
            requires
                pow10(0) == 1,
        ;
    } else {
        lemma_decimal_value_zeros(s, (k - 1) as nat);
        let t = s + zeros(k);
        assert(t.drop_last() =~= s + zeros((k - 1) as nat));
        assert(t.last() == '0');
        let (v, p) = (decimal_value(s), pow10((k - 1) as nat));
        assert(10 * (v * p) == v * (10 * p)) by (nonlinear_arith);
    }
}

/// The number that `place_point` writes is read with the same value.
spec fn reads_placed(d: Seq<char>, p: int) -> bool {
    let s = place_point(d, p);
    &&& s.len() > 0
    &&& is_digit(s[0])
    &&& read_number(s) matches Some((e, q)) && nearest_decimal(decimal_value(e), q)
        == nearest_decimal(decimal_value(d), p)
}

proof fn lemma_read_placed(d: Seq<char>, p: int)
    requires
        d.len() > 0,
        all_digits(d),
    ensures
        reads_placed(d, p),
{
    if p >= 0 {
        lemma_read_whole(d, p);
    } else {
        lemma_read_fraction(d, -p);
    }
}

proof fn lemma_read_whole(d: Seq<char>, p: int)
    requires
        d.len() > 0,
        all_digits(d),
        p >= 0,
    ensures
        reads_placed(d, p),
{
    let s = place_point(d, p);
    assert(is_digit(d[0]));
    assert forall|i: int| 0 <= i < s.len() implies is_digit(#[trigger] s[i]) by {
        if i < d.len() {
            assert(s[i] == d[i]);
        }
    }
    lemma_digit_run(s, s.len() as int);
    assert(s.skip(s.len() as int) =~= Seq::empty());
    assert(s.take(s.len() as int) + Seq::empty() =~= s);
    lemma_decimal_value_zeros(d, p as nat);
    let v = decimal_value(d) * pow10(p as nat);
    assert(v * pow10(0) * one() == v * one()) by (nonlinear_arith)
        requires
            pow10(0) == 1,
    ;
    assert(s[0] == d[0]);
}

/// A number with a point is read as its digits.
proof fn lemma_read_pointed(whole: Seq<char>, fraction: Seq<char>)
    requires
        whole.len() > 0,
        all_digits(whole),
        all_digits(fraction),
    ensures
        read_number(whole + seq!['.'] + fraction) == Some(
            (whole + fraction, -(fraction.len() as int)),
        ),
{
    let s = whole + seq!['.'] + fraction;
    let i = whole.len() as int;
    assert forall|j: int| 0 <= j < i implies is_digit(#[trigger] s[j]) by {
        assert(s[j] == whole[j]);
    }
    lemma_digit_run(s, i);
    let rest = s.skip(i);
    assert(rest[0] == '.');
    let f = rest.skip(1);
    assert(f =~= fraction);
    lemma_digit_run(f, f.len() as int);
    assert(f.skip(f.len() as int) =~= Seq::empty());
    assert(f.take(f.len() as int) =~= fraction);
    assert(s.take(i) =~= whole);
}

proof fn lemma_read_fraction(d: Seq<char>, k: int)
    requires
        d.len() > 0,
        all_digits(d),
        k > 0,
    ensures
        reads_placed(d, -k),
{
    let s = place_point(d, -k);
    assert(is_digit(d[0]));
    if d.len() > k {
        let whole = d.take(d.len() - k);
        let fraction = d.skip(d.len() - k);
        assert(s =~= whole + seq!['.'] + fraction);
        assert forall|j: int| 0 <= j < fraction.len() implies is_digit(
            #[trigger] fraction[j],
        ) by {
            assert(fraction[j] == d[j + d.len() - k]);
        }
        lemma_read_pointed(whole, fraction);
        assert(whole + fraction =~= d);
        assert(s[0] == d[0]);
    } else {
        let whole = seq!['0'];
        let fraction = zeros((k - d.len()) as nat) + d;
        assert(s =~= whole + seq!['.'] + fraction);
        assert forall|j: int| 0 <= j < fraction.len() implies is_digit(
            #[trigger] fraction[j],
        ) by {
            if j >= k - d.len() {
                assert(fraction[j] == d[j - (k - d.len())]);
            }
        }
        lemma_read_pointed(whole, fraction);
        let z = whole + fraction;
        lemma_leading_zeros(z, z.len() - d.len());
        assert(z.skip(z.len() - d.len()) =~= d);
        assert(s[0] == '0');
    }
}

/// What is written of a double that is a number is read back as the same double.
pub proof fn law_read_shown_double(x: Double)
    requires
        !x.is_nan(),
    ensures
        read_double(show_double(x)) == Some(x),
{
    let s = show_double(x);
    let m = x.magnitude();
    assert(x == signed(x.negative(), m));
    let body = if x.is_infinite() {
        "inf"@
    } else if m == 0 {
        seq!['0']
    } else {
        show_decimal(shortest(m).0, shortest(m).1)
    };
    reveal_strlit("inf");
    reveal_strlit("infinity");
    reveal_strlit("nan");
    if x.negative() {
        assert(s.skip(1) =~= body);
    } else {
        assert(s =~= body);
    }
    if x.is_infinite() {
        lemma_digit_run(body, 0);
        assert(body.skip(0) =~= body);
        assert(body.take(0) + Seq::<char>::empty() =~= Seq::<char>::empty());
        assert(lowered(body) =~= "inf"@);
    } else if m == 0 {
        lemma_read_placed(seq!['0'], 0);
        assert(place_point(seq!['0'], 0) =~= body);
        assert(decimal_value(seq!['0']) == 0) by {
            assert(seq!['0'].drop_last() =~= Seq::empty());
            assert(decimal_value(Seq::empty()) == 0);
        }
        lemma_decimal_zero(0);
    } else {
        lemma_shortest(m);
        let (c, p) = shortest(m);
        crate::number::lemma_show_nat(c);
        lemma_read_placed(show_nat(c), p);
    }
}

/// What is written of a NaN is read back as a NaN.
pub proof fn law_read_shown_nan(x: Double)
    requires
        x.is_nan(),
    ensures
        read_double(show_double(x)) == Some(crate::double::nan()),
{
    let s = show_double(x);
    reveal_strlit("NaN");
    reveal_strlit("inf");
    reveal_strlit("infinity");
    reveal_strlit("nan");
    lemma_digit_run(s, 0);
    assert(s.skip(0) =~= s);
    assert(s.take(0) + Seq::<char>::empty() =~= Seq::<char>::empty());
    assert(lowered(s) =~= "nan"@);
    assert("nan"@[0] != "inf"@[0]);
}

} // verus!
