use bash_env::err::ParseError;
use bash_env::reduce::reduce;
use bash_env::tree::{Node, Rule};
use bash_env::value::{Number, Value};
use bash_env::parse;

fn word(x: &str) -> Value {
    Value::Str(x.to_string())
}

#[test]
fn it_should_return_a_string_from_str() {
    assert_eq!(parse("test").unwrap(), Value::Str("test".to_string()));
}

#[test]
fn it_should_return_a_string_from_i64() {
    assert_eq!(bash_env::stringify(Value::Num(Number::Dec { neg: false, mant: 1, exp: 0 })), "1".to_string());
}

#[test]
fn it_should_return_a_string_from_f64() {
    assert_eq!(
        bash_env::stringify(Value::Num(Number::Dec { neg: false, mant: 15, exp: -1 })),
        "1.5".to_string(),
    );
}

#[test]
fn write_then_read_scalar() {
    let v = word("some test 123");
    assert_eq!(parse(&stringify_clone(&v)).unwrap(), v);
    let n = Value::Num(Number::Dec { neg: true, mant: 125, exp: -1 });
    assert_eq!(parse(&stringify_clone(&n)).unwrap(), n);
}

#[test]
fn write_then_read_composite() {
    let v = Value::Obj(vec![
        ("name".to_string(), word("te'st \"x\"")),
        ("x".to_string(), Value::Num(Number::Dec { neg: false, mant: 42, exp: 0 })),
        ("data".to_string(), Value::Arr(vec![word("a b"), word("(nested)"), word("")])),
    ]);
    assert_eq!(parse(&stringify_clone(&v)).unwrap(), v);
}

#[test]
fn reducer_refuses_stray_rules() {
    let stray = Node { rule: Rule::StrSpace, text: "x".to_string(), kids: vec![] };
    assert!(matches!(reduce(&stray), Err(ParseError::UnexpectedTokenError(_))));
    let empty_main = Node { rule: Rule::Main, text: String::new(), kids: vec![] };
    assert!(matches!(reduce(&empty_main), Err(ParseError::UnexpectedValueError(_))));
}

// The serializer consumes its value; rebuild an equal one so the round trip
// can compare against the original.
fn stringify_clone(v: &Value) -> String {
    bash_env::stringify(rebuild(v))
}

fn rebuild(v: &Value) -> Value {
    match v {
        Value::Null => Value::Null,
        Value::Bool(b) => Value::Bool(*b),
        Value::Num(n) => Value::Num(*n),
        Value::Str(s) => Value::Str(s.clone()),
        Value::Arr(items) => Value::Arr(items.iter().map(rebuild).collect()),
        Value::Obj(entries) => Value::Obj(
            entries.iter().map(|(k, x)| (k.clone(), rebuild(x))).collect(),
        ),
    }
}
