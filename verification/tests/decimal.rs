use brightness_control::decimal::parse_decimal;
use brightness_control::digits::decimal_text;

#[test]
fn literals_follow_the_grammar() {
    for text in ["0", "1", "007", "1.", ".5", "1.5", "+1.5", "-1.5", "1e3", "1E3", "1e+3", "1.5e-3", ".5E+0", "inf", "INF", "+Infinity", "-infinity", "nan", "NaN", "-nan"] {
        assert!(parse_decimal(text).is_some(), "{}", text);
    }
    for text in ["", "+", "-", ".", "e3", "1e", "1e+", "1.5.2", "1 ", " 1", "1_000", "0x10", "1f", "infinit", "na", "++1", "1e3.5", "١"] {
        assert!(parse_decimal(text).is_none(), "{}", text);
    }
}

#[test]
fn whole_part_of_plain_literals() {
    let d = parse_decimal("2.5").unwrap();
    let w = d.whole(0).unwrap();
    assert_eq!(w.value, 2);
    assert!(!w.exact);
    let w = d.whole(1).unwrap();
    assert_eq!(w.value, 25);
    assert!(w.exact);
    let w = d.whole(3).unwrap();
    assert_eq!(w.value, 2500);
    assert!(w.exact);
    let w = parse_decimal("000.000").unwrap().whole(0).unwrap();
    assert_eq!(w.value, 0);
    assert!(w.exact);
    let w = parse_decimal("0.04").unwrap().whole(1).unwrap();
    assert_eq!(w.value, 0);
    assert!(!w.exact);
}

#[test]
fn whole_part_with_exponents() {
    assert_eq!(parse_decimal("1e3").unwrap().whole(0).unwrap().value, 1000);
    let w = parse_decimal("0.00012e+4").unwrap().whole(0).unwrap();
    assert_eq!(w.value, 1);
    assert!(!w.exact);
    let w = parse_decimal("1200e-2").unwrap().whole(0).unwrap();
    assert_eq!(w.value, 12);
    assert!(w.exact);
    let w = parse_decimal("1250e-3").unwrap().whole(0).unwrap();
    assert_eq!(w.value, 1);
    assert!(!w.exact);
    assert_eq!(parse_decimal("1e00000000000000000000000000000000000001").unwrap().whole(0).unwrap().value, 10);
}

#[test]
fn whole_part_at_the_limits() {
    assert!(parse_decimal("1e99999999999999999999999999999999999999999").unwrap().whole(0).is_none());
    let tiny = parse_decimal("1e-99999999999999999999999999999999999999999").unwrap();
    let w = tiny.whole(0).unwrap();
    assert_eq!(w.value, 0);
    assert!(!w.exact);
    assert_eq!(parse_decimal("0e99999999999999999999999999999999999999999").unwrap().whole(0).unwrap().value, 0);
    assert_eq!(parse_decimal("18446744073709551615").unwrap().whole(0).unwrap().value, u64::MAX);
    assert!(parse_decimal("18446744073709551616").unwrap().whole(0).is_none());
    assert!(parse_decimal("1e20").unwrap().whole(0).is_none());
    assert_eq!(parse_decimal("1e19").unwrap().whole(0).unwrap().value, 10_000_000_000_000_000_000);
    assert!(parse_decimal("inf").unwrap().whole(0).is_none());
    assert!(parse_decimal("nan").unwrap().whole(0).is_none());
}

#[test]
fn sign_and_class() {
    assert!(parse_decimal("0").unwrap().is_non_negative());
    assert!(parse_decimal("-0.0").unwrap().is_non_negative());
    assert!(!parse_decimal("-0.1").unwrap().is_non_negative());
    assert!(parse_decimal("inf").unwrap().is_non_negative());
    assert!(!parse_decimal("-inf").unwrap().is_non_negative());
    assert!(!parse_decimal("nan").unwrap().is_non_negative());
    assert!(parse_decimal("1").unwrap().is_finite());
    assert!(!parse_decimal("inf").unwrap().is_finite());
    assert!(!parse_decimal("nan").unwrap().is_finite());
}

#[test]
fn bounds_are_exact() {
    let d = parse_decimal("0.3").unwrap();
    assert!(d.is_at_least(3, 1) && d.is_at_most(49, 1));
    let d = parse_decimal("4.9").unwrap();
    assert!(d.is_at_least(3, 1) && d.is_at_most(49, 1));
    assert!(!parse_decimal("0.29999").unwrap().is_at_least(3, 1));
    assert!(!parse_decimal("4.90001").unwrap().is_at_most(49, 1));
    assert!(parse_decimal("4.9000000000000000000000000000000000000").unwrap().is_at_most(49, 1));
    assert!(!parse_decimal("4.9000000000000000000000000000000000001").unwrap().is_at_most(49, 1));
    assert!(!parse_decimal("0.2999999999999999999999999999999999999").unwrap().is_at_least(3, 1));
    assert!(parse_decimal("-1").unwrap().is_at_most(49, 1));
    assert!(!parse_decimal("-1").unwrap().is_at_least(0, 0));
    assert!(parse_decimal("-0").unwrap().is_at_least(0, 0));
    assert!(parse_decimal("inf").unwrap().is_at_least(3, 1));
    assert!(!parse_decimal("inf").unwrap().is_at_most(49, 1));
    assert!(parse_decimal("-inf").unwrap().is_at_most(49, 1));
    assert!(!parse_decimal("nan").unwrap().is_at_least(3, 1));
    assert!(!parse_decimal("nan").unwrap().is_at_most(49, 1));
}

#[test]
fn numbers_are_written_in_the_shortest_way() {
    assert_eq!(decimal_text(0), "0");
    assert_eq!(decimal_text(9), "9");
    assert_eq!(decimal_text(10), "10");
    assert_eq!(decimal_text(12345), "12345");
    assert_eq!(decimal_text(u64::MAX), "18446744073709551615");
}
