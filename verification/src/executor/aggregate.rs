//! Aggregates: `COUNT(*)`, `SUM`, `AVG`, `MIN` and `MAX`.

use vstd::prelude::*;

use crate::decimal::push_double;
use crate::decimal::show_double;
use crate::double::double_of_int;
use crate::double::larger_of;
use crate::double::quotient_of;
use crate::double::smaller_of;
use crate::double::sum_of;
use crate::double::Double;
use crate::double::INFINITE;
use crate::double::SIGN;
use crate::number::push_i64;
use crate::number::show_int;
use crate::storage::schema::rows_view;
use crate::storage::schema::Record;
use crate::storage::schema::Row;
use crate::text::ends_with;
use crate::text::has_prefix;
use crate::text::has_suffix;
use crate::text::index_of;
use crate::text::is_text;
use crate::text::position_of;
use crate::text::rfind;
use crate::text::search_last;
use crate::text::slice;
use crate::text::starts_with_keyword;
use crate::text::to_upper;
use crate::text::trim;
use crate::text::trimmed;
use crate::text::upper;
use crate::types::negative_zero;
use crate::types::zero;
use crate::types::DataType;
use crate::types::Datum;
use crate::types::Value;

verus! {

/// An aggregate function of the numbers of a column.
#[derive(Clone, Copy, Debug, PartialEq, Eq, Structural)]
pub enum AggFunc {
    Sum,
    Avg,
    Min,
    Max,
}

impl AggFunc {
    /// The name of the column that the function makes.
    pub open spec fn label(self) -> Seq<char> {
        match self {
            AggFunc::Sum => "sum"@,
            AggFunc::Avg => "avg"@,
            AggFunc::Min => "min"@,
            AggFunc::Max => "max"@,
        }
    }

    /// The name of the column that the function makes.
    pub fn name(self) -> (r: &'static str)
        ensures
            r@ == self.label(),
    {
        match self {
            AggFunc::Sum => "sum",
            AggFunc::Avg => "avg",
            AggFunc::Min => "min",
            AggFunc::Max => "max",
        }
    }
}

/// The aggregate function that a call in upper case is of.
pub open spec fn aggregate_of(s: Seq<char>) -> Option<AggFunc> {
    let t = trim(s);
    if !ends_with(t, ")"@) {
        None
    } else if starts_with_keyword(t, "SUM("@) {
        Some(AggFunc::Sum)
    } else if starts_with_keyword(t, "AVG("@) {
        Some(AggFunc::Avg)
    } else if starts_with_keyword(t, "MIN("@) {
        Some(AggFunc::Min)
    } else if starts_with_keyword(t, "MAX("@) {
        Some(AggFunc::Max)
    } else {
        None
    }
}

/// What stands between the first opening and the last closing parenthesis of a call;
/// all of it where there are none.
pub open spec fn aggregate_column(s: Seq<char>) -> Seq<char> {
    let t = trim(s);
    let i = index_of(t, '(');
    match rfind(t, ")"@) {
        Some(e) if i < e => t.subrange(i + 1, e),
        _ => t,
    }
}

/// A call of `COUNT(*)` in upper case.
pub open spec fn is_count(s: Seq<char>) -> bool {
    s == "COUNT(*)"@ || s == "COUNT (*)"@
}

/// The aggregate function that a call in upper case is of.
pub fn parse_aggregate(s: &Vec<char>) -> (r: Option<AggFunc>)
    ensures
        r == aggregate_of(s@),
{
    let t = trimmed(s);
    let u = to_upper(&t);
    if !has_suffix(&t, ")") {
        None
    } else if has_prefix(&u, "SUM(") {
        Some(AggFunc::Sum)
    } else if has_prefix(&u, "AVG(") {
        Some(AggFunc::Avg)
    } else if has_prefix(&u, "MIN(") {
        Some(AggFunc::Min)
    } else if has_prefix(&u, "MAX(") {
        Some(AggFunc::Max)
    } else {
        None
    }
}

/// The column of a call.
pub fn extract_agg_column(s: &Vec<char>) -> (r: Vec<char>)
    ensures
        r@ == aggregate_column(s@),
{
    let t = trimmed(s);
    let i: usize = position_of(&t, '(');
    match search_last(&t, ")") {
        Some(e) => {
            proof {
                reveal_strlit(")");
            }
            if i < e {
                slice(&t, i + 1, e)
            } else {
                t
            }
        },
        None => t,
    }
}

/// Whether `s` is a call of `COUNT(*)` in upper case.
pub fn counts(s: &Vec<char>) -> (r: bool)
    ensures
        r == is_count(s@),
{
    is_text(s, "COUNT(*)") || is_text(s, "COUNT (*)")
}

/// The numbers of rows in the column at `index`, whole numbers as doubles. Other values
/// are passed over.
pub open spec fn numbers(rows: Seq<Record>, index: int) -> Seq<Double>
    decreases rows.len(),
{
    if rows.len() == 0 {
        Seq::empty()
    } else {
        let rest = numbers(rows.drop_last(), index);
        let r = rows.last();
        if 0 <= index < r.values.len() {
            match r.values[index] {
                Datum::Integer(n) => rest.push(double_of_int(n as int)),
                Datum::Float(x) => rest.push(x),
                _ => rest,
            }
        } else {
            rest
        }
    }
}

/// The sum of numbers, added to negative zero from the first on: adding to negative zero
/// changes no number.
pub open spec fn total(v: Seq<Double>) -> Double
    decreases v.len(),
{
    if v.len() == 0 {
        negative_zero()
    } else {
        sum_of(total(v.drop_last()), v.last())
    }
}

/// The least of numbers; infinity of none.
pub open spec fn least(v: Seq<Double>) -> Double
    decreases v.len(),
{
    if v.len() == 0 {
        Double { bits: INFINITE }
    } else {
        smaller_of(least(v.drop_last()), v.last())
    }
}

/// The bits of negative infinity.
pub const NEGATIVE_INFINITE: u64 = 0xfff0_0000_0000_0000;

/// The greatest of numbers; negative infinity of none.
pub open spec fn greatest(v: Seq<Double>) -> Double
    decreases v.len(),
{
    if v.len() == 0 {
        Double { bits: NEGATIVE_INFINITE }
    } else {
        larger_of(greatest(v.drop_last()), v.last())
    }
}

/// An aggregate of numbers; zero of none.
pub open spec fn aggregate(f: AggFunc, v: Seq<Double>) -> Double {
    if v.len() == 0 {
        zero()
    } else {
        match f {
            AggFunc::Sum => total(v),
            AggFunc::Avg => quotient_of(total(v), double_of_int(v.len() as int)),
            AggFunc::Min => least(v),
            AggFunc::Max => greatest(v),
        }
    }
}

/// An aggregate as text: without a fraction where it is that of a column of whole
/// numbers, but for an average.
pub open spec fn aggregate_text(f: AggFunc, t: DataType, v: Seq<Double>) -> Seq<char> {
    let x = aggregate(f, v);
    if x.is_whole() && t == DataType::Integer && f != AggFunc::Avg {
        show_int(x.to_int())
    } else {
        show_double(x)
    }
}

/// The numbers of rows in a column.
pub fn numbers_in(rows: &Vec<Row>, index: usize) -> (r: Vec<Double>)
    ensures
        r@ == numbers(rows_view(rows@), index as int),
{
    let ghost all = rows_view(rows@);
    let mut r: Vec<Double> = Vec::new();
    let mut i: usize = 0;
    assert(all.take(0) =~= Seq::empty());
    while i < rows.len()
        invariant
            i <= rows.len(),
            all == rows_view(rows@),
            r@ == numbers(all.take(i as int), index as int),
        decreases rows.len() - i,
    {
        proof {
            assert(all.take(i + 1).drop_last() =~= all.take(i as int));
            assert(all.take(i + 1).last() == rows@[i as int]@);
            assert(rows@[i as int]@.values.len() == rows@[i as int].values@.len());
        }
        if index < rows[i].values.len() {
            assert(rows@[i as int]@.values[index as int] == rows@[i as int].values@[index as int]@);
            match &rows[i].values[index] {
                Value::Integer(n) => r.push(Double::from_i64(*n)),
                Value::Float(x) => r.push(*x),
                _ => {},
            }
        }
        i += 1;
    }
    assert(all.take(rows@.len() as int) =~= all);
    r
}

/// An aggregate of numbers.
pub fn aggregate_of_numbers(f: AggFunc, v: &Vec<Double>) -> (r: Double)
    ensures
        r == aggregate(f, v@),
{
    if v.len() == 0 {
        return Double { bits: 0 };
    }
    let mut acc = match f {
        AggFunc::Sum | AggFunc::Avg => Double { bits: SIGN },
        AggFunc::Min => Double { bits: INFINITE },
        AggFunc::Max => Double { bits: NEGATIVE_INFINITE },
    };
    let mut i: usize = 0;
    assert(v@.take(0) =~= Seq::empty());
    while i < v.len()
        invariant
            i <= v.len(),
            f == AggFunc::Sum || f == AggFunc::Avg ==> acc == total(v@.take(i as int)),
            f == AggFunc::Min ==> acc == least(v@.take(i as int)),
            f == AggFunc::Max ==> acc == greatest(v@.take(i as int)),
        decreases v.len() - i,
    {
        assert(v@.take(i + 1).drop_last() =~= v@.take(i as int));
        acc = match f {
            AggFunc::Sum | AggFunc::Avg => acc.plus(v[i]),
            AggFunc::Min => acc.smaller(v[i]),
            AggFunc::Max => acc.larger(v[i]),
        };
        i += 1;
    }
    assert(v@.take(v@.len() as int) =~= v@);
    match f {
        AggFunc::Avg => acc.over(Double::from_u64(v.len() as u64)),
        _ => acc,
    }
}

/// An aggregate as text.
pub fn show_aggregate(f: AggFunc, t: DataType, v: &Vec<Double>) -> (r: Vec<char>)
    ensures
        r@ == aggregate_text(f, t, v@),
{
    let x = aggregate_of_numbers(f, v);
    let mut out: Vec<char> = Vec::new();
    if x.whole() && t == DataType::Integer && f != AggFunc::Avg {
        push_i64(&mut out, x.truncated());
    } else {
        push_double(&mut out, x);
    }
    assert(out@ =~= aggregate_text(f, t, v@));
    out
}

} // verus!
