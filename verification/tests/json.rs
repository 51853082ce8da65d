use modemui::json::{form_get, parse_form, url_decode, Json, Number};

/// A measured number in its notation.
fn number(f: f64) -> Number {
    if f.is_finite() {
        Number::Finite(format!("{}", f))
    } else {
        Number::NonFinite
    }
}

#[test]
fn writes_scalars() {
    assert_eq!(Json::Null.to_string(), "null");
    assert_eq!(Json::Bool(true).to_string(), "true");
    assert_eq!(Json::Int(-42).to_string(), "-42");
    assert_eq!(Json::str("hi").to_string(), "\"hi\"");
}

#[test]
fn escapes_strings() {
    assert_eq!(
        Json::str("a\"b\\c\nd\u{1}").to_string(),
        "\"a\\\"b\\\\c\\nd\\u0001\""
    );
}

#[test]
fn writes_nested() {
    let v = Json::obj(vec![
        ("a", Json::Int(1)),
        ("b", Json::Arr(vec![Json::Int(2), Json::Null])),
    ]);
    assert_eq!(v.to_string(), r#"{"a":1,"b":[2,null]}"#);
}

#[test]
fn non_finite_numbers_become_null() {
    assert_eq!(Json::Num(number(f64::NAN)).to_string(), "null");
    assert_eq!(Json::Num(number(f64::INFINITY)).to_string(), "null");
}

#[test]
fn parses_form() {
    let f = parse_form("earfcn=2850&pci=57&cmd=at%5Eefs%3D%22x%22&empty=");
    assert_eq!(form_get(&f, "earfcn"), Some("2850"));
    assert_eq!(form_get(&f, "pci"), Some("57"));
    assert_eq!(form_get(&f, "cmd"), Some("at^efs=\"x\""));
    assert_eq!(form_get(&f, "empty"), Some(""));
    assert_eq!(form_get(&f, "nope"), None);
}

#[test]
fn form_decodes_plus_and_bad_escapes() {
    let f = parse_form("a=x+y&b=100%&c=%zz");
    assert_eq!(form_get(&f, "a"), Some("x y"));
    assert_eq!(form_get(&f, "b"), Some("100%"));
    assert_eq!(form_get(&f, "c"), Some("%zz"));
}

#[test]
fn every_escape_is_written() {
    assert_eq!(
        Json::str("\r\t\u{8}\u{c}\u{1f}\u{2028}\u{2029}/é").to_string(),
        "\"\\r\\t\\b\\f\\u001f\\u2028\\u2029/é\""
    );
}

#[test]
fn numbers_are_written() {
    assert_eq!(Json::Num(number(-11.5)).to_string(), "-11.5");
    assert_eq!(Json::Num(number(-95.0)).to_string(), "-95");
    assert_eq!(Json::Int(i64::MIN).to_string(), "-9223372036854775808");
    assert_eq!(Json::Int(0).to_string(), "0");
    assert_eq!(Json::Bool(false).to_string(), "false");
}

#[test]
fn options_are_written() {
    assert_eq!(Json::opt_int(Some(7)).to_string(), "7");
    assert_eq!(Json::opt_int(None).to_string(), "null");
    assert_eq!(Json::opt_num(Some(number(1.5))).to_string(), "1.5");
    assert_eq!(Json::opt_num(None).to_string(), "null");
    assert_eq!(Json::opt_str(Some("x".to_string())).to_string(), "\"x\"");
    assert_eq!(Json::opt_str(None).to_string(), "null");
}

#[test]
fn empty_lists_and_objects() {
    assert_eq!(Json::Arr(vec![]).to_string(), "[]");
    assert_eq!(Json::obj(vec![]).to_string(), "{}");
    assert_eq!(
        Json::obj(vec![("k\"", Json::obj(vec![("x", Json::str("y"))]))]).to_string(),
        r#"{"k\"":{"x":"y"}}"#
    );
}

#[test]
fn a_clone_is_the_same_value() {
    let j = Json::Obj(vec![
        ("a".to_string(), Json::Arr(vec![Json::Null, Json::Bool(true), Json::Int(-3)])),
        ("b".to_string(), Json::Obj(vec![("c".to_string(), Json::Str("x".to_string()))])),
        ("d".to_string(), Json::Num(number(2.5))),
    ]);
    assert_eq!(j.clone(), j);
    assert_eq!(j.clone().to_string(), r#"{"a":[null,true,-3],"b":{"c":"x"},"d":2.5}"#);
}

#[test]
fn form_fields_that_are_encoded_are_read_back() {
    let f = parse_form("%D0%BA=%3D%26%25%2B+%20&x=%FF");
    assert_eq!(form_get(&f, "к"), Some("=&%+  "));
    // A byte that is no text is replaced.
    assert_eq!(form_get(&f, "x"), Some("\u{fffd}"));
}

#[test]
fn odd_forms() {
    assert_eq!(parse_form(""), vec![]);
    assert_eq!(parse_form("&&"), vec![]);
    assert_eq!(
        parse_form("a&=b&a=1"),
        vec![
            ("a".to_string(), "".to_string()),
            ("".to_string(), "b".to_string()),
            ("a".to_string(), "1".to_string()),
        ]
    );
    // The first of two fields with one name counts, and an equals sign may follow another.
    let f = parse_form("k=a=b&k=c");
    assert_eq!(form_get(&f, "k"), Some("a=b"));
    // A plus sign and one digit are an escape; at the very end two characters are needed.
    let f = parse_form("a=%+A&b=%4&c=%41");
    assert_eq!(form_get(&f, "a"), Some("\n"));
    assert_eq!(form_get(&f, "b"), Some("%4"));
    assert_eq!(form_get(&f, "c"), Some("A"));
}

#[test]
fn percent_signs_that_begin_no_escape_stay() {
    let f = parse_form("a=%aé&b=%é&c=%zz&d=100%&%4é=x");
    assert_eq!(form_get(&f, "a"), Some("%aé"));
    assert_eq!(form_get(&f, "b"), Some("%é"));
    assert_eq!(form_get(&f, "c"), Some("%zz"));
    assert_eq!(form_get(&f, "d"), Some("100%"));
    assert_eq!(form_get(&f, "%4é"), Some("x"));
}

#[test]
fn bytes_may_be_written_in_several_ways() {
    // The text `a b+%é/` with its bytes written in different ways.
    for e in [
        "%61%20%62%2B%25%C3%A9%2F",
        "%61%20%62%2b%25%c3%a9%2f",
        "a+b%2B%25%C3%a9/",
        "a%20b%2b%25é%2F",
        "%61+%62%2b%25é/",
    ] {
        let f = parse_form(&format!("k={e}"));
        assert_eq!(form_get(&f, "k"), Some("a b+%é/"));
        assert_eq!(url_decode(e), "a b+%é/");
    }
}
