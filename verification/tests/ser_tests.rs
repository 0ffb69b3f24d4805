use bash_env::value::{Number, Value};

fn text(x: &str) -> Value {
    Value::Str(x.to_string())
}

fn num(m: u64) -> Value {
    Value::Num(Number::Dec { neg: false, mant: m, exp: 0 })
}

fn object(entries: Vec<(&str, Value)>) -> Value {
    Value::Obj(entries.into_iter().map(|(k, v)| (k.to_string(), v)).collect())
}

#[test]
fn it_should_serialise_null() {
    assert!(bash_env::stringify(Value::Null).is_empty());
}

#[test]
fn it_should_serialise_bool() {
    assert_eq!(bash_env::stringify(Value::Bool(true)), "1".to_string());
    assert!(bash_env::stringify(Value::Bool(false)).is_empty());
}

#[test]
fn it_should_serialise_number() {
    assert_eq!(bash_env::stringify(num(0)), "0".to_string());
    assert_eq!(bash_env::stringify(num(1)), "1".to_string());
    assert_eq!(
        bash_env::stringify(Value::Num(Number::Dec { neg: false, mant: 15, exp: -1 })),
        "1.5".to_string(),
    );
    assert!(bash_env::stringify(Value::Num(Number::Nan)).is_empty());
}

#[test]
fn it_should_serialise_string() {
    assert_eq!(bash_env::stringify(text("")), r#""""#.to_string());
    assert_eq!(bash_env::stringify(text("test")), r#""test""#.to_string());
    assert_eq!(bash_env::stringify(text("test\"it")), r#""test\"it""#.to_string());
    assert_eq!(bash_env::stringify(text("(a b c)")), r#""(a b c)""#.to_string());
}

#[test]
fn it_should_serialise_array() {
    let value = Value::Arr(vec![
        text("name"),
        text("x"),
        num(12),
        Value::Arr(vec![text("test"), Value::Bool(true)]),
    ]);
    assert_eq!(bash_env::stringify(value), r#"("name" "x" 12 ("test" 1))"#.to_string());
}

#[test]
fn it_should_serialise_object() {
    let value = object(vec![
        ("name", text("test")),
        ("x", num(42)),
        ("ar", Value::Arr(vec![num(1), num(2), num(3)])),
        ("other", object(vec![("x", num(3)), ("y", num(4))])),
    ]);
    assert_eq!(
        bash_env::stringify(value),
        r#"([name]="test" [x]=42 [ar]=(1 2 3) [other]=([x]=3 [y]=4))"#.to_string(),
    );
}

#[test]
fn empty_array() {
    let value = Value::Arr(vec![]);
    assert_eq!(bash_env::stringify(value), "()".to_string());
}

#[test]
fn it_should_serialise_number_edge_shapes() {
    assert_eq!(bash_env::stringify(Value::Num(Number::Dec { neg: true, mant: 0, exp: -2 })), "0".to_string());
    assert_eq!(
        bash_env::stringify(Value::Num(Number::Dec { neg: true, mant: 15, exp: -1 })),
        "-1.5".to_string(),
    );
    assert_eq!(
        bash_env::stringify(Value::Num(Number::Dec { neg: false, mant: 5, exp: -3 })),
        "0.005".to_string(),
    );
    assert_eq!(
        bash_env::stringify(Value::Num(Number::Dec { neg: false, mant: 15, exp: 2 })),
        "1500".to_string(),
    );
}

#[test]
fn it_should_serialise_backslash_escaped() {
    assert_eq!(bash_env::stringify(text(r"a\b")), r#""a\\b""#.to_string());
}
