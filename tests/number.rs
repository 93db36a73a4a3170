use badargs::{is_float_literal, parse_isize, parse_usize};

#[test]
fn signed_integers() {
    assert_eq!(parse_isize("0"), Some(0));
    assert_eq!(parse_isize("-5423"), Some(-5423));
    assert_eq!(parse_isize("+75"), Some(75));
    assert_eq!(parse_isize("007"), Some(7));
    assert_eq!(parse_isize(""), None);
    assert_eq!(parse_isize("-"), None);
    assert_eq!(parse_isize("+"), None);
    assert_eq!(parse_isize("1_000"), None);
    assert_eq!(parse_isize(" 1"), None);
    assert_eq!(parse_isize("-9223372036854775808"), Some(isize::MIN));
    assert_eq!(parse_isize("9223372036854775807"), Some(isize::MAX));
    assert_eq!(parse_isize("9223372036854775808"), None);
    assert_eq!(parse_isize("-9223372036854775809"), None);
}

#[test]
fn unsigned_integers() {
    assert_eq!(parse_usize("235235"), Some(235235));
    assert_eq!(parse_usize("+1"), Some(1));
    assert_eq!(parse_usize("-0"), None);
    assert_eq!(parse_usize("18446744073709551615"), Some(usize::MAX));
    assert_eq!(parse_usize("18446744073709551616"), None);
    assert_eq!(parse_usize("12a"), None);
}

#[test]
fn float_literals_match_std() {
    let cases = [
        "1", "1.", ".5", "1.5", "-1.5", "+2", "1e10", "1E-3", "2.5e+7", "inf", "-Infinity",
        "NaN", "nan", "iNf", ".", "", "e5", "1e", "1e+", "--1", "1.2.3", "0x10", "1 ", "infinit",
        ".e1", "5.e2", "+", "-.5E3",
    ];
    for c in cases {
        assert_eq!(is_float_literal(c), c.parse::<f64>().is_ok(), "{}", c);
    }
}
