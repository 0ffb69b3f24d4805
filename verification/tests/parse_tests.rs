use bash_env::err::ParseError;
use bash_env::parse;
use bash_env::value::{Number, Value};

fn st(x: &str) -> Value {
    Value::Str(x.to_string())
}

fn whole(m: u64) -> Value {
    Value::Num(Number::Dec { neg: false, mant: m, exp: 0 })
}

fn obj(entries: Vec<(&str, Value)>) -> Value {
    Value::Obj(entries.into_iter().map(|(k, v)| (k.to_string(), v)).collect())
}

#[test]
fn it_should_parse_simple_string() {
    let expected = st("some_test123");
    assert_eq!(parse(r"some_test123").unwrap(), expected);
}

#[test]
fn it_should_parse_string_with_space() {
    let expected = st("some test123");
    assert_eq!(parse(r"some\ test123").unwrap(), expected);
}

#[test]
fn it_should_parse_string_with_quote() {
    let expected = st("some'test123");
    assert_eq!(parse(r"some\'test123").unwrap(), expected);
}

#[test]
fn it_should_parse_string_with_quotes() {
    let expected = st("some test 123");
    assert_eq!(parse(r"'some test 123'").unwrap(), expected);
}

#[test]
fn it_should_parse_string_with_dbl_quote() {
    let expected = st("some\"test123");
    assert_eq!(parse(r#"some\"test123"#).unwrap(), expected);
}

#[test]
fn it_should_parse_string_with_dbl_quotes() {
    let expected = st("some test'123");
    assert_eq!(parse(r#""some test'123""#).unwrap(), expected);
}

#[test]
fn it_should_parse_array() {
    let expected = Value::Arr(vec![
        whole(12),
        st("test"),
        st("a b"),
        Value::Arr(vec![st("x"), st("y"), st("z")]),
    ]);
    assert_eq!(parse(r#"(12 test 'a b' (x y z))"#).unwrap(), expected);
}

#[test]
fn it_should_parse_object() {
    let expected = obj(vec![
        ("name", st("test")),
        ("x", whole(3)),
        ("y", whole(4)),
        ("data", Value::Arr(vec![st("test'ing"), st("another")])),
    ]);
    assert_eq!(
        parse(r#"([name]=test [x]=3 [y]=4 [data]=(test\'ing 'another'))"#).unwrap(),
        expected,
    );
}

#[test]
fn it_should_parse_object_with_empty_value() {
    let expected = obj(vec![("a", st("test")), ("b", st("")), ("c", st("[d]=e"))]);
    assert_eq!(parse(r#"([a]=test [b]= [c]="[d]=e")"#).unwrap(), expected);
}

#[test]
fn it_shoud_set_variables() {
    let expected = obj(vec![
        ("name", st("test")),
        ("x", whole(3)),
        ("y", whole(4)),
        ("data", Value::Arr(vec![st("test'ing"), st("another")])),
    ]);
    assert_eq!(parse(r#"name=test x=3 y=4 data=(test\'ing 'another')"#).unwrap(), expected);
}

#[test]
fn it_should_deal_with_corner_cases() {
    let expected = Value::Arr(vec![st("abc"), st("(def ghi)"), st("jkl")]);
    assert_eq!(parse(r#"(abc '(def ghi)' jkl)"#).unwrap(), expected);
}

#[test]
fn it_should_parse_numbers_strictly() {
    assert_eq!(
        parse("-12.5").unwrap(),
        Value::Num(Number::Dec { neg: true, mant: 125, exp: -1 }),
    );
    assert_eq!(parse("007").unwrap(), Value::Num(Number::Dec { neg: false, mant: 7, exp: 0 }));
    assert_eq!(parse("12abc").unwrap(), st("12abc"));
    assert_eq!(parse("-").unwrap(), st("-"));
    assert_eq!(parse("1.").unwrap(), st("1."));
}

#[test]
fn it_should_reject_blank_input() {
    assert_eq!(parse("").unwrap_err(), ParseError::EmptyInputError);
    assert_eq!(parse("   \t\n").unwrap_err(), ParseError::EmptyInputError);
}

#[test]
fn it_should_reject_malformed_syntax() {
    assert!(matches!(parse("(a"), Err(ParseError::GrammarError(_))));
    assert!(matches!(parse("'abc"), Err(ParseError::GrammarError(_))));
    assert!(matches!(parse("a b"), Err(ParseError::GrammarError(_))));
    assert!(matches!(parse("a=1 ("), Err(ParseError::GrammarError(_))));
    assert!(matches!(parse(r"bad\escape"), Err(ParseError::GrammarError(_))));
}

#[test]
fn it_should_report_numbers_out_of_range() {
    assert!(matches!(
        parse("99999999999999999999999999"),
        Err(ParseError::NumberFormatError(_)),
    ));
}

#[test]
fn it_should_parse_escaped_backslash_in_quotes() {
    assert_eq!(parse(r#""a\\b""#).unwrap(), st(r"a\b"));
    assert_eq!(parse(r#""a\"b""#).unwrap(), st(r#"a"b"#));
}

#[test]
fn it_should_keep_last_value_for_duplicate_keys() {
    let expected = obj(vec![("a", whole(2)), ("b", whole(3))]);
    assert_eq!(parse("a=1 b=3 a=2").unwrap(), expected);
}

#[test]
fn it_should_parse_empty_containers_and_strings() {
    assert_eq!(parse("()").unwrap(), Value::Arr(vec![]));
    assert_eq!(parse("''").unwrap(), st(""));
    assert_eq!(parse(r#""""#).unwrap(), st(""));
}
