use journal_store::amount::parse_amount;

#[test]
fn parses_whole_and_fractional_amounts() {
    assert_eq!(parse_amount("100"), Some(10000));
    assert_eq!(parse_amount("100.4"), Some(10040));
    assert_eq!(parse_amount("100.40"), Some(10040));
    assert_eq!(parse_amount("0.05"), Some(5));
    assert_eq!(parse_amount("-12.34"), Some(-1234));
    assert_eq!(parse_amount("007"), Some(700));
}

#[test]
fn rejects_other_shapes() {
    assert_eq!(parse_amount(""), None);
    assert_eq!(parse_amount("-"), None);
    assert_eq!(parse_amount("12."), None);
    assert_eq!(parse_amount(".5"), None);
    assert_eq!(parse_amount("1.234"), None);
    assert_eq!(parse_amount("1,5"), None);
    assert_eq!(parse_amount("+3"), None);
    assert_eq!(parse_amount(" 3"), None);
    assert_eq!(parse_amount("3a"), None);
    assert_eq!(parse_amount("1.x"), None);
    assert_eq!(parse_amount("--1"), None);
}

#[test]
fn amount_range_edges() {
    assert_eq!(parse_amount("92233720368547758.07"), Some(i64::MAX));
    assert_eq!(parse_amount("92233720368547758.08"), None);
    assert_eq!(parse_amount("-92233720368547758.08"), Some(i64::MIN));
    assert_eq!(parse_amount("-92233720368547758.09"), None);
    assert_eq!(parse_amount("99999999999999999999999999"), None);
    assert_eq!(parse_amount("-99999999999999999999999999.99"), None);
}
