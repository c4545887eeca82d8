//! Doubles on their bit patterns, held against the machine's own; integers and their texts.

use probedb::decimal::parse_double;
use probedb::decimal::push_debug_double;
use probedb::decimal::push_double;
use probedb::double::Double;
use probedb::number::parse_hex;
use probedb::number::parse_i64;
use probedb::number::parse_u64;
use probedb::number::push_hex;
use probedb::number::push_i64;
use probedb::number::push_u64;
use probedb::text::chars_of;
use probedb::text::string_of;

fn d(x: f64) -> Double {
    Double::from_bits(x.to_bits())
}

fn same(a: Double, x: f64) -> bool {
    let y = f64::from_bits(a.bits);
    (y.is_nan() && x.is_nan()) || a.bits == x.to_bits()
}

fn shown(x: f64) -> String {
    let mut out: Vec<char> = Vec::new();
    push_double(&mut out, d(x));
    string_of(&out)
}

fn debug_shown(x: f64) -> String {
    let mut out: Vec<char> = Vec::new();
    push_debug_double(&mut out, d(x));
    string_of(&out)
}

fn read(s: &str) -> Option<f64> {
    parse_double(&chars_of(s)).map(|x| f64::from_bits(x.bits))
}

struct Dice {
    state: u64,
}

impl Dice {
    fn next(&mut self) -> u64 {
        self.state ^= self.state << 13;
        self.state ^= self.state >> 7;
        self.state ^= self.state << 17;
        self.state
    }

    fn double(&mut self) -> f64 {
        let kind = self.next() % 4;
        let bits = self.next();
        match kind {
            0 => f64::from_bits(bits),
            1 => (bits % 2000000) as f64 / 1000.0 - 1000.0,
            2 => (bits as i64) as f64,
            _ => f64::from_bits((bits & 0x800f_ffff_ffff_ffff) | ((1000 + bits % 50) << 52)),
        }
    }
}

fn samples() -> Vec<f64> {
    vec![
        0.0,
        -0.0,
        1.0,
        -1.0,
        0.1,
        0.2,
        0.3,
        1.5,
        1e-10,
        1e16,
        1e21,
        1e22,
        1e300,
        1e308,
        5e-324,
        2.2250738585072014e-308,
        2.225073858507201e-308,
        f64::MAX,
        f64::MIN,
        f64::INFINITY,
        f64::NEG_INFINITY,
        f64::NAN,
        9007199254740993.0,
        1125899906842624.25,
        1125899906842624.75,
        4503599627370497.5,
        123456789.125,
        0.000001,
        1.7976931348623157e308,
    ]
}

#[test]
fn arithmetic_agrees_with_the_machine() {
    let mut dice = Dice { state: 0x9e37_79b9_7f4a_7c15 };
    let mut pairs: Vec<(f64, f64)> = Vec::new();
    for a in samples() {
        for b in samples() {
            pairs.push((a, b));
        }
    }
    for _ in 0..20000 {
        let a = dice.double();
        let b = dice.double();
        pairs.push((a, b));
    }
    for (a, b) in pairs {
        assert!(same(d(a).plus(d(b)), a + b), "{} + {}", a, b);
        assert!(same(d(a).times(d(b)), a * b), "{} * {}", a, b);
        assert!(same(d(a).over(d(b)), a / b), "{} / {}", a, b);
        assert!(same(d(a).root(), a.sqrt()), "sqrt {}", a);
        assert!(same(d(a).negate(), -a), "- {}", a);
        assert!(same(d(a).absolute(), a.abs()), "abs {}", a);
        assert_eq!(d(a).less(d(b)), a < b, "{} < {}", a, b);
        assert_eq!(d(a).equal(d(b)), a == b, "{} == {}", a, b);
        assert_eq!(d(a) == d(b), a == b, "{} == {}", a, b);
        assert!(d(a).smaller(d(b)).equal(d(a.min(b))) || a.min(b).is_nan(), "min {} {}", a, b);
        assert!(d(a).larger(d(b)).equal(d(a.max(b))) || a.max(b).is_nan(), "max {} {}", a, b);
        assert_eq!(d(a).truncated(), a as i64, "{} as i64", a);
        assert_eq!(d(a).whole(), a == a.trunc(), "whole {}", a);
    }
}

#[test]
fn whole_numbers_become_doubles_as_on_the_machine() {
    let mut dice = Dice { state: 7 };
    for _ in 0..5000 {
        let n = dice.next();
        assert_eq!(Double::from_i64(n as i64).bits, (n as i64 as f64).to_bits());
        assert_eq!(Double::from_u64(n).bits, (n as f64).to_bits());
    }
    assert_eq!(Double::from_i64(i64::MIN).bits, (i64::MIN as f64).to_bits());
    assert_eq!(Double::from_u64(u64::MAX).bits, (u64::MAX as f64).to_bits());
    assert_eq!(Double::from_i64(0).bits, 0);
}

#[test]
fn doubles_are_shown_as_by_the_standard_library() {
    let mut dice = Dice { state: 42 };
    let mut all = samples();
    for _ in 0..3000 {
        all.push(dice.double());
    }
    for x in all {
        assert_eq!(shown(x), format!("{}", x));
        assert_eq!(debug_shown(x), format!("{:?}", x));
        if !x.is_nan() {
            assert_eq!(read(&shown(x)).map(|y| y.to_bits()), Some(x.to_bits()));
        }
    }
    assert_eq!(shown(f64::NAN), "NaN");
    assert_eq!(shown(0.1), "0.1");
    assert_eq!(shown(100.0), "100");
    assert_eq!(debug_shown(100.0), "100.0");
}

#[test]
fn doubles_are_read_as_by_the_standard_library() {
    let texts = [
        "", "+", "-", ".", "1", "1.", ".5", "-.5", "+1.5", "1e5", "1E5", "1e+5", "1e-5", "1e", "e5", "1.5e3.2",
        "0x10", " 1", "1 ", "1_000", "inf", "-inf", "INF", "infinity", "Infinity", "+infinity", "infinit", "nan",
        "NaN", "-nan", "nano", "1e400", "-1e400", "1e-400", "0.1", "123456789012345678901234567890", "1e308",
        "2.2250738585072012e-308", "4.9e-324", "2.4e-324", "2.5e-324", "9007199254740993", "9007199254740992.5",
        "0.30000000000000004", "1.7976931348623158e308", "1.7976931348623159e308", "00001", "0e0", "0e999999999999",
        "1e-999999999999", "1e999999999999", "１",
    ];
    for t in texts {
        let expected: Option<f64> = t.parse::<f64>().ok();
        let got = read(t);
        assert_eq!(got.is_some(), expected.is_some(), "{}", t);
        if let (Some(a), Some(b)) = (got, expected) {
            assert_eq!(a.to_bits(), b.to_bits(), "{}", t);
        }
    }
    let mut dice = Dice { state: 99 };
    for _ in 0..3000 {
        let t = format!(
            "{}.{}e{}",
            dice.next() % 100000,
            dice.next(),
            (dice.next() % 700) as i64 - 350
        );
        assert_eq!(read(&t).map(|x| x.to_bits()), t.parse::<f64>().ok().map(|x| x.to_bits()), "{}", t);
    }
}

#[test]
fn whole_numbers_are_read_and_shown() {
    for n in [0u64, 1, 9, 10, 99, 100, 18446744073709551615] {
        let mut out: Vec<char> = Vec::new();
        push_u64(&mut out, n);
        assert_eq!(string_of(&out), format!("{}", n));
        assert_eq!(parse_u64(&out), Some(n));
        let mut hex: Vec<char> = Vec::new();
        push_hex(&mut hex, n, 16);
        assert_eq!(string_of(&hex), format!("{:016x}", n));
        assert_eq!(parse_hex(&hex), Some(n));
    }
    for n in [0i64, -1, 1, 42, -42, 9223372036854775807, -9223372036854775808] {
        let mut out: Vec<char> = Vec::new();
        push_i64(&mut out, n);
        assert_eq!(string_of(&out), format!("{}", n));
        assert_eq!(parse_i64(&out), Some(n));
    }
    for t in ["", "+", "-", "+5", "-5", "-0", "05", "5a", " 5", "9223372036854775808", "-9223372036854775809"] {
        assert_eq!(parse_i64(&chars_of(t)), t.parse::<i64>().ok(), "{}", t);
        assert_eq!(parse_u64(&chars_of(t)), t.parse::<u64>().ok(), "{}", t);
    }
    assert_eq!(parse_u64(&chars_of("18446744073709551616")), None);
    for t in ["", "+", "ff", "FF", "+ff", "g", "10000000000000000", "ffffffffffffffff"] {
        assert_eq!(parse_hex(&chars_of(t)), u64::from_str_radix(t, 16).ok(), "{}", t);
    }
}
