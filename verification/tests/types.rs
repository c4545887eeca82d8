//! The value types: their texts, dates and times, and the similarity of vectors.

use probedb::double::Double;
use probedb::types::cosine_similarity;
use probedb::types::days_in_month;
use probedb::types::euclidean_similarity;
use probedb::types::is_leap_year;
use probedb::types::normalize_date;
use probedb::types::normalize_time;
use probedb::types::DataType;
use probedb::types::Value;

fn doubles(v: &[f64]) -> Vec<Double> {
    v.iter().map(|x| Double::from_bits(x.to_bits())).collect()
}

fn number(x: Double) -> f64 {
    f64::from_bits(x.bits)
}

#[test]
fn test_cosine_similarity_identical() {
    let v = doubles(&[1.0, 2.0, 3.0]);
    let sim = number(cosine_similarity(&v, &v));
    assert!((sim - 1.0f64).abs() < 1e-6);
}

#[test]
fn test_cosine_similarity_orthogonal() {
    let a = doubles(&[1.0, 0.0]);
    let b = doubles(&[0.0, 1.0]);
    let sim = number(cosine_similarity(&a, &b));
    assert!((sim - 0.0).abs() < 1e-6);
}

#[test]
fn test_vector_display() {
    let v = Value::Vector(doubles(&[1.0, 2.0, 3.0]));
    assert_eq!(v.to_string(), "[1,2,3]");
}

#[test]
fn test_euclidean_similarity_identical() {
    let v = doubles(&[1.0, 2.0, 3.0]);
    let sim = number(euclidean_similarity(&v, &v));
    assert!((sim - 1.0f64).abs() < 1e-6);
}

// ===== BOOLEAN / DATE / TIME 类型系统 =====

#[test]
fn test_boolean_and_temporal_display() {
    assert_eq!(Value::Boolean(true).to_string(), "true");
    assert_eq!(Value::Boolean(false).to_string(), "false");
    assert_eq!(Value::Date("2026-09-16".to_string()).to_string(), "2026-09-16");
    assert_eq!(Value::Time("14:00:00".to_string()).to_string(), "14:00:00");
    assert_eq!(DataType::Boolean.to_string(), "BOOLEAN");
    assert_eq!(DataType::Date.to_string(), "DATE");
    assert_eq!(DataType::Time.to_string(), "TIME");
}

#[test]
fn test_normalize_date_valid() {
    assert_eq!(normalize_date("2026-09-16").unwrap(), "2026-09-16");
    assert_eq!(normalize_date("'2026-09-16'").unwrap(), "2026-09-16"); // 带引号
    assert_eq!(normalize_date(" 2026-01-01 ").unwrap(), "2026-01-01"); // 带空格
    assert_eq!(normalize_date("0001-01-01").unwrap(), "0001-01-01"); // 下界
    assert_eq!(normalize_date("9999-12-31").unwrap(), "9999-12-31"); // 上界
}

#[test]
fn test_normalize_date_rejects_invalid() {
    // 形态错误
    assert!(normalize_date("").is_err());
    assert!(normalize_date("2026/09/16").is_err());
    assert!(normalize_date("2026-9-16").is_err(), "月份必须零填充");
    assert!(normalize_date("26-09-16").is_err(), "年份必须 4 位");
    assert!(normalize_date("2026-09").is_err());
    assert!(normalize_date("20260916").is_err());
    assert!(normalize_date("abcd-ef-gh").is_err());
    // 范围错误
    assert!(normalize_date("2026-00-01").is_err(), "月份下界");
    assert!(normalize_date("2026-13-01").is_err(), "月份上界");
    assert!(normalize_date("2026-01-00").is_err(), "日下界");
    assert!(normalize_date("2026-01-32").is_err(), "1月只有31天");
    assert!(normalize_date("2026-04-31").is_err(), "4月只有30天");
    assert!(normalize_date("0000-01-01").is_err(), "年份下界");
}

#[test]
fn test_normalize_date_leap_year() {
    assert!(is_leap_year(2024));
    assert!(is_leap_year(2000), "400年再闰");
    assert!(!is_leap_year(1900), "100年不闰");
    assert!(!is_leap_year(2025));
    assert!(normalize_date("2024-02-29").is_ok(), "闰年2月有29天");
    assert!(normalize_date("2025-02-29").is_err(), "平年2月只有28天");
    assert!(normalize_date("2000-02-29").is_ok());
    assert!(normalize_date("1900-02-29").is_err());
    assert!(normalize_date("2026-02-29").is_err());
    assert_eq!(days_in_month(2024, 2), 29);
    assert_eq!(days_in_month(2025, 2), 28);
    assert_eq!(days_in_month(2026, 7), 31);
    assert_eq!(days_in_month(2026, 13), 0);
}

#[test]
fn test_normalize_time_valid() {
    assert_eq!(normalize_time("14:00:00").unwrap(), "14:00:00");
    assert_eq!(normalize_time("'14:00:00'").unwrap(), "14:00:00");
    assert_eq!(normalize_time("14:00").unwrap(), "14:00:00", "HH:MM 秒补零");
    assert_eq!(normalize_time("00:00:00").unwrap(), "00:00:00");
    assert_eq!(normalize_time("23:59:59").unwrap(), "23:59:59");
}

#[test]
fn test_normalize_time_rejects_invalid() {
    assert!(normalize_time("").is_err());
    assert!(normalize_time("24:00:00").is_err(), "小时上界");
    assert!(normalize_time("14:60:00").is_err(), "分钟上界");
    assert!(normalize_time("14:00:60").is_err(), "秒上界");
    assert!(normalize_time("4:00:00").is_err(), "必须零填充");
    assert!(normalize_time("14:0").is_err());
    assert!(normalize_time("14-00-00").is_err());
    assert!(normalize_time("abc").is_err());
}

#[test]
fn test_iso_date_string_order_equals_chronological_order() {
    // DATE 存规范化字符串的核心保证：字典序 == 时间序（跨月/跨年/跨闰日）
    let mut dates = vec!["2026-12-31", "2026-01-05", "2026-02-28", "2025-12-31", "2026-09-16"];
    dates.sort();
    assert_eq!(
        dates,
        vec!["2025-12-31", "2026-01-05", "2026-02-28", "2026-09-16", "2026-12-31"]
    );
}
