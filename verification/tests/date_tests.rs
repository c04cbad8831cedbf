use core::str::FromStr;
use wikimisc::date::Date;

#[test]
fn test_date() {
    assert_eq!(Date::from_str("1234").unwrap().time(), "+1234-00-00T00:00:00Z");
    assert_eq!(Date::from_str("1234-05").unwrap().time(), "+1234-05-00T00:00:00Z");
    assert!(Date::from_str("1234-15").is_err());
    assert_eq!(Date::from_str("1234-05-17").unwrap().time(), "+1234-05-17T00:00:00Z");
    assert_eq!(
        Date::from_str("https://data.bnf.fr/date/1234/").unwrap().time(),
        "+1234-00-00T00:00:00Z"
    );
    assert_eq!(
        Date::from_str("https://data.bnf.fr/date/1234").unwrap().time(),
        "+1234-00-00T00:00:00Z"
    );
    assert_eq!(Date::from_str("https://data.bnf.fr/date/1234/").unwrap().precision(), 9);
    assert_eq!(Date::from_str("https://data.bnf.fr/date/1234").unwrap().precision(), 9);
    assert_eq!(Date::from_str("1234-05-17").unwrap().precision(), 11);
    assert_eq!(Date::from_str("1234-05").unwrap().precision(), 10);
    assert_eq!(Date::from_str("1234").unwrap().precision(), 9);
    assert_eq!(Date::from_str("1234-05-17T00:00:00Z/11").unwrap().time(), "+1234-05-17T00:00:00Z");
    assert_eq!(Date::from_str("1234-05-17T00:00:00Z/11").unwrap().precision(), 11);
    assert_eq!(Date::from_str("1234-05-00T00:00:00Z/10").unwrap().time(), "+1234-05-00T00:00:00Z");
    assert_eq!(Date::from_str("1234-05-01T00:00:00Z/10").unwrap().precision(), 10);
    assert_eq!(Date::from_str("1234-00-01T00:00:00Z/9").unwrap().precision(), 9);
    assert_eq!(Date::from_str("1234-01-00T00:00:00Z/9").unwrap().time(), "+1234-00-00T00:00:00Z");
}

#[test]
fn test_as_qs() {
    assert_eq!(Date::from_str("1234").unwrap().as_qs(), "+1234-00-00T00:00:00Z/9");
    assert_eq!(Date::from_str("1234-05").unwrap().as_qs(), "+1234-05-00T00:00:00Z/10");
    assert_eq!(Date::from_str("1234-05-17").unwrap().as_qs(), "+1234-05-17T00:00:00Z/11");
}

#[test]
fn test_time() {
    assert_eq!(Date::from_str("1234").unwrap().time(), "+1234-00-00T00:00:00Z");
    assert_eq!(Date::from_str("1234-05").unwrap().time(), "+1234-05-00T00:00:00Z");
    assert_eq!(Date::from_str("1234-05-17").unwrap().time(), "+1234-05-17T00:00:00Z");
}

#[test]
fn test_precision() {
    assert_eq!(Date::from_str("1234").unwrap().precision(), 9);
    assert_eq!(Date::from_str("1234-05").unwrap().precision(), 10);
    assert_eq!(Date::from_str("1234-05-17").unwrap().precision(), 11);
}

#[test]
fn test_invalid_month() {
    assert!(Date::from_str("1234-13").is_err());
    assert!(Date::from_str("1234-99").is_err());
    // Month 00 is valid for year-only precision (gets converted to precision 9)
}

#[test]
fn test_invalid_day() {
    assert!(Date::from_str("1234-05-00").is_err());
    assert!(Date::from_str("1234-05-32").is_err());
    assert!(Date::from_str("1234-05-99").is_err());
}

#[test]
fn test_future_year_rejected() {
    assert!(Date::from_str("2025").is_err());
    assert!(Date::from_str("2026").is_err());
    assert!(Date::from_str("3000").is_err());
}

#[test]
fn test_partial_precision_formats() {
    // month=00 is allowed with precision 9 (year only)
    let date = Date::from_str("1234-00-01T00:00:00Z/9").unwrap();
    assert_eq!(date.precision(), 9);
    assert_eq!(date.time(), "+1234-00-00T00:00:00Z");

    // day=00 or 01 is allowed with precision 10 (year-month)
    let date = Date::from_str("1234-05-00T00:00:00Z/10").unwrap();
    assert_eq!(date.precision(), 10);
    assert_eq!(date.time(), "+1234-05-00T00:00:00Z");
}

#[test]
fn test_bnf_url_variations() {
    let with_slash = Date::from_str("https://data.bnf.fr/date/1500/").unwrap();
    let without_slash = Date::from_str("https://data.bnf.fr/date/1500").unwrap();
    assert_eq!(with_slash.time(), without_slash.time());
    assert_eq!(with_slash.precision(), 9);
    assert_eq!(without_slash.precision(), 9);
}

#[test]
fn test_invalid_format() {
    assert!(Date::from_str("not-a-date").is_err());
    assert!(Date::from_str("").is_err());
    assert!(Date::from_str("abc-def-ghi").is_err());
}

#[test]
fn test_signed_year_rejected() {
    assert!(Date::from_str("-1234-05-17T00:00:00Z/11").is_err());
    assert!(Date::from_str("+1234-05-17T00:00:00Z/11").is_err());
}

#[test]
fn test_http_scheme_accepted() {
    let d = Date::from_str("http://data.bnf.fr/date/1500").unwrap();
    assert_eq!(d.time(), "+1500-00-00T00:00:00Z");
    assert_eq!(d.precision(), 9);
}

#[test]
fn test_bnf_url_short_year() {
    let d = Date::from_str("https://data.bnf.fr/date/85").unwrap();
    assert_eq!(d.time(), "+85-00-00T00:00:00Z");
    assert_eq!(d.precision(), 9);
    let d = Date::from_str("https://data.bnf.fr/date/5/").unwrap();
    assert_eq!(d.time(), "+5-00-00T00:00:00Z");
}
