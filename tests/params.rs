use enprot::params::{parse_decimal, PbkdfParams};
use enprot::text::{has_prefix, str_eq};

#[test]
fn params_insert_get_remove() {
    let mut p = PbkdfParams::new();
    assert!(p.is_empty());
    assert_eq!(p.get("i"), None);
    p.insert("m".to_string(), 65536);
    p.insert("t".to_string(), 3);
    p.insert("m".to_string(), 1024);
    assert!(!p.is_empty());
    assert_eq!(p.get("m"), Some(1024));
    assert_eq!(p.get("t"), Some(3));
    assert_eq!(p.get("p"), None);
    assert_eq!(p.remove("m"), Some(1024));
    assert_eq!(p.get("m"), None);
    assert_eq!(p.remove("m"), None);
    assert_eq!(p.remove("t"), Some(3));
    assert!(p.is_empty());
}

#[test]
fn string_helpers() {
    assert!(str_eq("abc", "abc"));
    assert!(!str_eq("abc", "abd"));
    assert!(!str_eq("abc", "ab"));
    assert!(str_eq("", ""));
    assert!(has_prefix("pbkdf2-sha256", "pbkdf2-"));
    assert!(has_prefix("pbkdf2-", "pbkdf2-"));
    assert!(!has_prefix("pbkdf2", "pbkdf2-"));
    assert!(has_prefix("x", ""));
}

#[test]
fn decimal_numbers() {
    assert_eq!(parse_decimal("0"), Some(0));
    assert_eq!(parse_decimal("1000"), Some(1000));
    assert_eq!(parse_decimal("007"), Some(7));
    assert_eq!(parse_decimal(""), None);
    assert_eq!(parse_decimal("12a"), None);
    assert_eq!(parse_decimal("-1"), None);
    assert_eq!(parse_decimal(&usize::MAX.to_string()), Some(usize::MAX));
    assert_eq!(parse_decimal("99999999999999999999999"), None);
}

#[test]
fn parameter_text() {
    let p = PbkdfParams::parse("i=1").unwrap();
    assert_eq!(p.get("i"), Some(1));
    let p = PbkdfParams::parse("m=65536,t=3,p=1").unwrap();
    assert_eq!((p.get("m"), p.get("t"), p.get("p")), (Some(65536), Some(3), Some(1)));
    let p = PbkdfParams::parse("i=5,i=7").unwrap();
    assert_eq!(p.get("i"), Some(7));
    assert_eq!(PbkdfParams::parse("i").unwrap_err(), "Malformed PBKDF parameters");
    assert_eq!(PbkdfParams::parse("i=x").unwrap_err(), "Malformed PBKDF parameters");
    assert_eq!(PbkdfParams::parse("i=1,").unwrap_err(), "Malformed PBKDF parameters");
    assert_eq!(PbkdfParams::parse("").unwrap_err(), "Malformed PBKDF parameters");
}
