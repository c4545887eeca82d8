//! What holds of the arithmetic of doubles, and of reading numbers.

use vstd::prelude::*;

use crate::decimal::lemma_digit_run;
use crate::decimal::lowered;
use crate::decimal::nearest_decimal;
use crate::decimal::read_double;
use crate::decimal::read_exponent;
use crate::decimal::read_number;
use crate::double::lemma_units_positive;
use crate::double::nearest;
use crate::double::one;
use crate::double::product_of;
use crate::double::quotient_of;
use crate::double::sum_of;
use crate::double::units;
use crate::double::Double;
use crate::double::INFINITE;
use crate::natural::lemma_pow10_pos;
use crate::natural::lemma_pow2_pos;
use crate::natural::pow10;
use crate::natural::pow2;
use crate::number::all_digits;
use crate::number::decimal_value;
use crate::number::is_digit;
use crate::number::read_i64;
use crate::rounding::apart;
use crate::rounding::law_nearest;
use crate::text::is_ascii_text;
use crate::texts::same_but_case;

verus! {

// ---------------------------------------------------------------------------
// Rounding
// ---------------------------------------------------------------------------

proof fn lemma_zero()
    ensures
        units(0) == 0,
{
    assert(0 * pow2(0) == 0) by (nonlinear_arith);
}

/// No double is nearer to a ratio than the rounded one, whatever the signs.
proof fn lemma_signed_nearest(n: int, d: nat, v: Double, x: Double)
    requires
        d > 0,
        v.is_finite(),
        x.is_finite(),
        v.magnitude() == nearest(
            if n < 0 {
                (-n) as nat
            } else {
                n as nat
            },
            d,
        ),
        n != 0 ==> v.negative() == (n < 0),
    ensures
        apart(v.signed_units() * d, n) <= apart(x.signed_units() * d, n),
{
    lemma_zero();
    let a = if n < 0 {
        (-n) as nat
    } else {
        n as nat
    };
    let w = v.magnitude();
    let (u, y) = (units(w), units(x.magnitude()));
    law_nearest(a, d, x.magnitude());
    law_nearest(a, d, 0);
    assert(0 * d as int == 0) by (nonlinear_arith);
    assert((-(u as int)) * d == -(u * d)) by (nonlinear_arith);
    assert((-(y as int)) * d == -(y * d)) by (nonlinear_arith);
    assert(u * d >= 0) by (nonlinear_arith)
        requires
            u >= 0,
            d > 0,
    ;
    assert(y * d >= 0) by (nonlinear_arith)
        requires
            y >= 0,
            d > 0,
    ;
}

/// The sum of two numbers is the double nearest to their exact sum: no other is nearer.
pub proof fn law_sum_rounded(a: Double, b: Double, x: Double)
    requires
        a.is_finite(),
        b.is_finite(),
        x.is_finite(),
        sum_of(a, b).is_finite(),
    ensures
        apart(sum_of(a, b).signed_units(), a.signed_units() + b.signed_units()) <= apart(
            x.signed_units(),
            a.signed_units() + b.signed_units(),
        ),
{
    let s = a.signed_units() + b.signed_units();
    let v = sum_of(a, b);
    lemma_zero();
    if s != 0 {
        assert(nearest((-s) as nat, 1) <= INFINITE);
        assert(nearest(s as nat, 1) <= INFINITE);
        lemma_signed_nearest(s, 1, v, x);
        assert(v.signed_units() * 1 == v.signed_units());
        assert(x.signed_units() * 1 == x.signed_units());
    }
}

proof fn lemma_signs(a: int, b: int, x: nat, y: nat)
    requires
        a == x || a == -x,
        b == y || b == -y,
    ensures
        a * b == x * y || a * b == -(x * y),
        x * y >= 0,
        a * b != 0 ==> (a * b < 0) == ((a < 0) != (b < 0)),
        a * b == 0 <==> x * y == 0,
        (if a * b < 0 {
            -(a * b)
        } else {
            a * b
        }) == x * y,
{
    assert(x * y >= 0) by (nonlinear_arith);
    assert(a * b == x * y || a * b == -(x * y)) by (nonlinear_arith)
        requires
            a == x || a == -x,
            b == y || b == -y,
    ;
    assert(a * b != 0 ==> (a * b < 0) == ((a < 0) != (b < 0))) by (nonlinear_arith);
}

/// The product of two numbers is the double nearest to their exact product: no other is
/// nearer.
pub proof fn law_product_rounded(a: Double, b: Double, x: Double)
    requires
        a.is_finite(),
        b.is_finite(),
        x.is_finite(),
        product_of(a, b).is_finite(),
    ensures
        apart(product_of(a, b).signed_units() * one(), a.signed_units() * b.signed_units())
            <= apart(x.signed_units() * one(), a.signed_units() * b.signed_units()),
{
    lemma_zero();
    lemma_pow2_pos(1074);
    let (p, q) = (units(a.magnitude()), units(b.magnitude()));
    lemma_signs(a.signed_units(), b.signed_units(), p, q);
    let n = a.signed_units() * b.signed_units();
    let v = product_of(a, b);
    assert(nearest(p * q, one()) <= INFINITE);
    if n != 0 {
        assert(p != 0 && q != 0) by {
            if p == 0 {
                assert(p * q == 0) by (nonlinear_arith)
                    requires
                        p == 0,
                ;
            }
            if q == 0 {
                assert(p * q == 0) by (nonlinear_arith)
                    requires
                        q == 0,
                ;
            }
        }
    }
    lemma_signed_nearest(n, one(), v, x);
}

/// The quotient of two numbers is the double nearest to their exact quotient: no other is
/// nearer.
pub proof fn law_quotient_rounded(a: Double, b: Double, x: Double)
    requires
        a.is_finite(),
        b.is_finite(),
        b.magnitude() != 0,
        x.is_finite(),
        quotient_of(a, b).is_finite(),
    ensures
        ({
            let n = if b.negative() {
                -a.signed_units() * one()
            } else {
                a.signed_units() * one()
            };
            apart(quotient_of(a, b).signed_units() * units(b.magnitude()), n) <= apart(
                x.signed_units() * units(b.magnitude()),
                n,
            )
        }),
{
    lemma_zero();
    lemma_pow2_pos(1074);
    lemma_units_positive(b.magnitude());
    let u = units(a.magnitude());
    let d = units(b.magnitude());
    let s = if b.negative() {
        -a.signed_units()
    } else {
        a.signed_units()
    };
    lemma_signs(s, one() as int, u, one());
    let n = s * one();
    let v = quotient_of(a, b);
    assert(nearest(u * one(), d) <= INFINITE);
    if n != 0 {
        assert(s != 0) by {
            if s == 0 {
                assert(n == 0) by (nonlinear_arith)
                    requires
                        n == s * one(),
                        s == 0,
                ;
            }
        }
    }
    assert(-a.signed_units() * one() == (-a.signed_units()) * one());
    lemma_signed_nearest(n, d, v, x);
}

/// What is not a number makes everything not a number; infinities are kept, unless they
/// cancel; and what is divided by zero is infinite, but for zero itself.
pub proof fn law_special_values(a: Double, b: Double)
    ensures
        a.is_nan() || b.is_nan() ==> sum_of(a, b).is_nan() && product_of(a, b).is_nan()
            && quotient_of(a, b).is_nan(),
        a.is_infinite() && b.is_finite() ==> sum_of(a, b) == a && sum_of(b, a) == a,
        a.is_infinite() && b.is_infinite() ==> quotient_of(a, b).is_nan() && (if a.negative()
            == b.negative() {
            sum_of(a, b) == a
        } else {
            sum_of(a, b).is_nan()
        }),
        a.is_infinite() && !b.is_nan() && b.magnitude() != 0 ==> product_of(a, b).is_infinite()
            && product_of(a, b).negative() == (a.negative() != b.negative()),
        a.is_infinite() && b.magnitude() == 0 ==> product_of(a, b).is_nan() && product_of(
            b,
            a,
        ).is_nan(),
        a.is_infinite() && b.is_finite() ==> quotient_of(a, b).is_infinite() && quotient_of(
            b,
            a,
        ).magnitude() == 0,
        a.is_finite() && a.magnitude() != 0 && b.magnitude() == 0 ==> quotient_of(
            a,
            b,
        ).is_infinite(),
        a.magnitude() == 0 && b.magnitude() == 0 ==> quotient_of(a, b).is_nan(),
{
}

/// A number is truncated towards zero, and is whole exactly where nothing is cut off.
pub proof fn law_truncated(x: Double)
    requires
        x.is_finite(),
        units(x.magnitude()) < 0x7fff_ffff_ffff_ffff * one(),
    ensures
        x.signed_units() >= 0 ==> x.to_int() * one() <= x.signed_units() < (x.to_int() + 1)
            * one(),
        x.signed_units() <= 0 ==> (x.to_int() - 1) * one() < x.signed_units() <= x.to_int()
            * one(),
        x.is_whole() <==> x.signed_units() == x.to_int() * one(),
{
    lemma_pow2_pos(1074);
    let u = units(x.magnitude());
    let o = one();
    let t = u / o;
    vstd::arithmetic::div_mod::lemma_fundamental_div_mod(u as int, o as int);
    assert(t <= 0x7fff_ffff_ffff_ffff) by (nonlinear_arith)
        requires
            u == o * t + u % o,
            u % o >= 0,
            u < 0x7fff_ffff_ffff_ffff * o,
            o > 0,
    ;
    assert(t * o == o * t && (t + 1) * o == o * t + o) by (nonlinear_arith);
    assert((-(t as int)) * o == -(o * t)) by (nonlinear_arith);
    assert((-(t as int) - 1) * o == -(o * t) - o) by (nonlinear_arith);
    assert((t - 1) * o == o * t - o) by (nonlinear_arith);
    assert(u % o < o);
    if u == 0 {
        assert(t == 0) by (nonlinear_arith)
            requires
                u == o * t + u % o,
                u == 0,
                u % o >= 0,
                o > 0,
                t >= 0,
        ;
    }
}

// ---------------------------------------------------------------------------
// Reading numbers
// ---------------------------------------------------------------------------

/// A row of digits is read as the number that it stands for, with or without a sign, where
/// the number is in range; a row that holds anything else is not read.
pub proof fn law_read_integer(d: Seq<char>)
    requires
        d.len() > 0,
        d[0] != '+',
        d[0] != '-',
    ensures
        all_digits(d) && decimal_value(d) <= i64::MAX ==> read_i64(d) == Some(
            decimal_value(d) as i64,
        ) && read_i64(seq!['+'] + d) == Some(decimal_value(d) as i64),
        all_digits(d) && decimal_value(d) > i64::MAX ==> read_i64(d) is None && read_i64(
            seq!['+'] + d,
        ) is None,
        all_digits(d) && -(decimal_value(d) as int) >= i64::MIN ==> read_i64(seq!['-'] + d)
            == Some((-(decimal_value(d) as int)) as i64),
        all_digits(d) && -(decimal_value(d) as int) < i64::MIN ==> read_i64(seq!['-'] + d) is None,
        !all_digits(d) ==> read_i64(d) is None && read_i64(seq!['+'] + d) is None && read_i64(
            seq!['-'] + d,
        ) is None,
        read_i64(Seq::empty()) is None,
        read_i64(seq!['-']) is None,
        read_i64(seq!['+']) is None,
{
    assert((seq!['+'] + d).skip(1) =~= d);
    assert((seq!['-'] + d).skip(1) =~= d);
    let e = Seq::<char>::empty();
    assert(seq!['-'].skip(1) =~= e);
    assert(seq!['+'].skip(1) =~= e);
}

/// What an exponent is written as: nothing, or `e` or `E`, a sign or none, and digits.
pub open spec fn is_exponent(s: Seq<char>, e: int) -> bool {
    ||| s.len() == 0 && e == 0
    ||| exists|c: char, d: Seq<char>|
        (c == 'e' || c == 'E') && d.len() > 0 && all_digits(d) && ((s == #[trigger] (seq![c] + d) || s
            == seq![c, '+'] + d) && e == decimal_value(d) || (s == seq![c, '-'] + d && e == -(
        decimal_value(d) as int)))
}

proof fn lemma_exponent(s: Seq<char>, e: int)
    requires
        is_exponent(s, e),
    ensures
        read_exponent(s) == Some(e),
        s.len() > 0 ==> !is_digit(s[0]) && s[0] != '.',
{
    if s.len() > 0 {
        let (c, d) = choose|c: char, d: Seq<char>|
            (c == 'e' || c == 'E') && d.len() > 0 && all_digits(d) && ((s == #[trigger] (seq![c]
                + d) || s == seq![c, '+'] + d) && e == decimal_value(d) || (s == seq![c, '-'] + d
                && e == -(decimal_value(d) as int)));
        assert(is_digit(d[0]));
        let t = s.skip(1);
        if s == seq![c] + d {
            assert(t =~= d);
        } else if s == seq![c, '+'] + d {
            assert(t =~= seq!['+'] + d);
            assert(t.skip(1) =~= d);
        } else {
            assert(t =~= seq!['-'] + d);
            assert(t.skip(1) =~= d);
        }
    }
}

proof fn lemma_number_parts(whole: Seq<char>, fraction: Seq<char>, tail: Seq<char>, e: int)
    requires
        all_digits(whole),
        all_digits(fraction),
        whole.len() + fraction.len() > 0,
        is_exponent(tail, e),
    ensures
        read_number(whole + seq!['.'] + fraction + tail) == Some(
            (whole + fraction, e - fraction.len()),
        ),
        whole.len() > 0 ==> read_number(whole + tail) == Some((whole, e)),
{
    lemma_exponent(tail, e);
    let s = whole + seq!['.'] + fraction + tail;
    let n = whole.len() as int;
    assert forall|j: int| 0 <= j < n implies is_digit(#[trigger] s[j]) by {
        assert(s[j] == whole[j]);
        assert(is_digit(whole[j]));
    }
    assert(s[n] == '.');
    lemma_digit_run(s, n);
    let rest = s.skip(n);
    let f = rest.skip(1);
    assert(f =~= fraction + tail);
    let k = fraction.len() as int;
    assert forall|j: int| 0 <= j < k implies is_digit(#[trigger] f[j]) by {
        assert(f[j] == fraction[j]);
        assert(is_digit(fraction[j]));
    }
    if k < f.len() {
        assert(f[k] == tail[0]);
    }
    lemma_digit_run(f, k);
    assert(f.take(k) =~= fraction);
    assert(f.skip(k) =~= tail);
    assert(s.take(n) =~= whole);
    if n > 0 {
        let t = whole + tail;
        assert forall|j: int| 0 <= j < n implies is_digit(#[trigger] t[j]) by {
            assert(t[j] == whole[j]);
            assert(is_digit(whole[j]));
        }
        if n < t.len() {
            assert(t[n] == tail[0]);
        }
        lemma_digit_run(t, n);
        assert(t.skip(n) =~= tail);
        assert(t.take(n) =~= whole);
        let none = Seq::<char>::empty();
        assert(whole + none =~= whole);
    }
}

/// A magnitude is nearest to the whole number `c` times the power `p` of ten.
pub open spec fn is_nearest_decimal(w: nat, c: nat, p: int) -> bool {
    forall|m: nat|
        m < INFINITE ==> if p >= 0 {
            apart(units(w) as int, (c * pow10(p as nat) * one()) as int) <= apart(
                #[trigger] units(m) as int,
                (c * pow10(p as nat) * one()) as int,
            )
        } else {
            apart(units(w) * pow10((-p) as nat) as int, (c * one()) as int) <= apart(
                #[trigger] units(m) * pow10((-p) as nat) as int,
                (c * one()) as int,
            )
        }
}

proof fn lemma_decimal(c: nat, p: int)
    requires
        nearest_decimal(c, p) < INFINITE,
    ensures
        is_nearest_decimal(nearest_decimal(c, p), c, p),
{
    let w = nearest_decimal(c, p);
    assert forall|m: nat| m < INFINITE implies if p >= 0 {
        apart(units(w) as int, (c * pow10(p as nat) * one()) as int) <= apart(
            #[trigger] units(m) as int,
            (c * pow10(p as nat) * one()) as int,
        )
    } else {
        apart(units(w) * pow10((-p) as nat) as int, (c * one()) as int) <= apart(
            #[trigger] units(m) * pow10((-p) as nat) as int,
            (c * one()) as int,
        )
    } by {
        if p >= 0 {
            law_nearest(c * pow10(p as nat) * one(), 1, m);
        } else {
            lemma_pow10_pos((-p) as nat);
            law_nearest(c * one(), pow10((-p) as nat), m);
        }
    }
}

/// A decimal number, with digits before its point or behind it, and with an exponent or
/// without, is read as the double that is nearest to it; a minus sign makes it negative.
pub proof fn law_read_decimal(whole: Seq<char>, fraction: Seq<char>, tail: Seq<char>, e: int)
    requires
        all_digits(whole),
        all_digits(fraction),
        whole.len() + fraction.len() > 0,
        is_exponent(tail, e),
    ensures
        ({
            let s = whole + seq!['.'] + fraction + tail;
            let c = decimal_value(whole + fraction);
            let p = e - fraction.len();
            &&& read_double(s) is Some
            &&& !read_double(s)->0.negative()
            &&& read_double(s)->0.is_finite() ==> is_nearest_decimal(
                read_double(s)->0.magnitude(),
                c,
                p,
            )
            &&& read_double(seq!['+'] + s) == read_double(s)
            &&& read_double(seq!['-'] + s) is Some
            &&& read_double(seq!['-'] + s)->0.negative()
            &&& read_double(seq!['-'] + s)->0.magnitude() == read_double(s)->0.magnitude()
        }),
        whole.len() > 0 ==> {
            let s = whole + tail;
            &&& read_double(s) is Some
            &&& !read_double(s)->0.negative()
            &&& read_double(s)->0.is_finite() ==> is_nearest_decimal(
                read_double(s)->0.magnitude(),
                decimal_value(whole),
                e,
            )
        },
{
    let s = whole + seq!['.'] + fraction + tail;
    lemma_number_parts(whole, fraction, tail, e);
    let c = decimal_value(whole + fraction);
    let p = e - fraction.len();
    assert((seq!['+'] + s).skip(1) =~= s);
    assert((seq!['-'] + s).skip(1) =~= s);
    if whole.len() > 0 {
        assert(is_digit(whole[0]));
        assert(s[0] == whole[0]);
        assert((whole + tail)[0] == whole[0]);
        assert(nearest_decimal(decimal_value(whole), e) <= INFINITE);
        if nearest_decimal(decimal_value(whole), e) < INFINITE {
            lemma_decimal(decimal_value(whole), e);
        }
    } else {
        assert(s[0] == '.');
    }
    assert(nearest_decimal(c, p) <= INFINITE);
    if nearest_decimal(c, p) < INFINITE {
        lemma_decimal(c, p);
    }
}

/// `inf`, `infinity` and `nan`, whatever the case of their letters, are read as what they
/// say, with a sign or without; other words are not read.
pub proof fn law_read_words(s: Seq<char>)
    requires
        s.len() > 0,
        !is_digit(s[0]),
        s[0] != '.',
        s[0] != '+',
        s[0] != '-',
    ensures
        same_but_case(s, "inf"@) || same_but_case(s, "infinity"@) ==> {
            &&& read_double(s) is Some && read_double(seq!['-'] + s) is Some
            &&& read_double(s)->0.is_infinite() && read_double(seq!['-'] + s)->0.is_infinite()
            &&& !read_double(s)->0.negative() && read_double(seq!['-'] + s)->0.negative()
        },
        same_but_case(s, "nan"@) ==> read_double(s) is Some && read_double(s)->0.is_nan(),
        is_ascii_text(s) && !same_but_case(s, "inf"@) && !same_but_case(s, "infinity"@)
            && !same_but_case(s, "nan"@) ==> read_double(s) is None && read_double(
            seq!['-'] + s,
        ) is None && read_double(seq!['+'] + s) is None,
{
    reveal_strlit("inf");
    reveal_strlit("infinity");
    reveal_strlit("nan");
    assert((seq!['-'] + s).skip(1) =~= s);
    assert((seq!['+'] + s).skip(1) =~= s);
    lemma_digit_run(s, 0);
    assert(s.skip(0) =~= s);
    assert(s.take(0) =~= Seq::<char>::empty());
    assert(read_number(s) is None);
    lemma_lowered(s, "inf"@);
    lemma_lowered(s, "infinity"@);
    lemma_lowered(s, "nan"@);
    assert("inf"@.len() == 3 && "infinity"@.len() == 8 && "nan"@.len() == 3);
    assert("inf"@[0] == 'i' && "nan"@[0] == 'n');
}

proof fn lemma_lowered(s: Seq<char>, w: Seq<char>)
    requires
        forall|i: int| 0 <= i < w.len() ==> 'a' <= #[trigger] w[i] && w[i] <= 'z',
    ensures
        same_but_case(s, w) ==> lowered(s) == w,
        is_ascii_text(s) && lowered(s) == w ==> same_but_case(s, w),
{
    if same_but_case(s, w) {
        assert forall|i: int| 0 <= i < w.len() implies lowered(s)[i] == w[i] by {
            assert('a' <= w[i] && w[i] <= 'z');
            assert(s[i] == w[i] || s[i] != w[i]);
        }
        assert(lowered(s) =~= w);
    }
    if is_ascii_text(s) && lowered(s) == w {
        assert(s.len() == w.len());
        assert forall|i: int| 0 <= i < w.len() implies crate::text::is_ascii_char(
            #[trigger] w[i],
        ) by {
            assert('a' <= w[i] && w[i] <= 'z');
        }
        assert forall|i: int| 0 <= i < s.len() implies #[trigger] s[i] == w[i] || ('a' <= s[i]
            && s[i] <= 'z' && w[i] as u32 == s[i] as u32 - 32) || ('a' <= w[i] && w[i] <= 'z'
            && s[i] as u32 == w[i] as u32 - 32) by {
            assert(lowered(s)[i] == w[i]);
            assert('a' <= w[i] && w[i] <= 'z');
        }
    }
}

} // verus!
