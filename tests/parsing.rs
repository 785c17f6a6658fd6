use fson::parser::parse;
use fson::{Decimal, Value};

fn s(t: &str) -> String {
    String::from(t)
}

fn num(negative: bool, mantissa: u64, scale: u32) -> Value {
    Value::Number(Decimal { negative, mantissa, scale, exponent: 0 })
}

#[test]
fn basic() {
    assert_eq!(
        parse(String::from(
            "{
      x: { y: { z: 'hello' } },
      string: `${#/x/y/z} world`
    }"
        ))
        .unwrap(),
        Value::Object(vec![
            (
                s("x"),
                Value::Object(vec![(
                    s("y"),
                    Value::Object(vec![(s("z"), Value::String(s("hello")))])
                )])
            ),
            (s("string"), Value::String(s("hello world"))),
        ])
    );
}

#[test]
fn unresolved_reference_is_null() {
    assert_eq!(
        parse(s("{a:#missing}")).unwrap(),
        Value::Object(vec![(s("a"), Value::Null)])
    );
    assert_eq!(
        parse(s("{a:#/no/such/path}")).unwrap(),
        Value::Object(vec![(s("a"), Value::Null)])
    );
}

#[test]
fn hex_literal() {
    assert_eq!(parse(s("0x1F")).unwrap(), num(false, 31, 0));
    assert_eq!(parse(s("0xff")).unwrap(), num(false, 255, 0));
}

#[test]
fn special_literals_parse() {
    assert_eq!(parse(s("Infinity")).unwrap(), Value::Infinity);
    assert_eq!(parse(s("-Infinity")).unwrap(), Value::NegativeInfinity);
    assert_eq!(parse(s("NaN")).unwrap(), Value::NaN);
}

#[test]
fn duplicate_key_last_wins() {
    assert_eq!(
        parse(s("{a:1,a:2}")).unwrap(),
        Value::Object(vec![(s("a"), num(false, 2, 0))])
    );
    assert_eq!(
        parse(s("{a:1,b:3,a:2}")).unwrap(),
        Value::Object(vec![(s("a"), num(false, 2, 0)), (s("b"), num(false, 3, 0))])
    );
}

#[test]
fn decimal_literals() {
    assert_eq!(parse(s("1.50")).unwrap(), num(false, 15, 1));
    assert_eq!(parse(s("-0.05")).unwrap(), num(true, 5, 2));
    assert_eq!(parse(s("007")).unwrap(), num(false, 7, 0));
    assert_eq!(parse(s("100")).unwrap(), num(false, 100, 0));
    assert_eq!(
        parse(s("99999999999999999999999")).unwrap(),
        Value::Number(Decimal { negative: false, mantissa: 9999999999999999999, scale: 0, exponent: 4 })
    );
    assert_eq!(
        parse(s("0.12345678901234567890123")).unwrap(),
        Value::Number(Decimal { negative: false, mantissa: 1234567890123456789, scale: 19, exponent: 0 })
    );
}

#[test]
fn literals_and_strings() {
    assert_eq!(
        parse(s("[true, false, null, 'a\\'b', \"c\\\"d\", \"e\\nf\\tg\\rh\"]")).unwrap(),
        Value::Array(vec![
            Value::Boolean(true),
            Value::Boolean(false),
            Value::Null,
            Value::String(s("a'b")),
            Value::String(s("c\"d")),
            Value::String(s("e\nf\tg\nh")),
        ])
    );
}

#[test]
fn reference_declarations() {
    let v = parse(s(
        "{ a: #{ #id: host; #value: 'localhost'; }, b: #host, c: #\"host\", d: `at ${#host}` }",
    ))
    .unwrap();
    assert_eq!(
        v,
        Value::Object(vec![
            (s("a"), Value::String(s("localhost"))),
            (s("b"), Value::String(s("localhost"))),
            (s("c"), Value::String(s("localhost"))),
            (s("d"), Value::String(s("at localhost"))),
        ])
    );
}

#[test]
fn template_splices_non_strings_minified() {
    let v = parse(s("{ o: { p: 1 }, t: `${#/o} and ${[1, 2]} and ${true}` }")).unwrap();
    assert_eq!(
        v,
        Value::Object(vec![
            (s("o"), Value::Object(vec![(s("p"), num(false, 1, 0))])),
            (s("t"), Value::String(s("{\"p\":1,} and [1,2] and true"))),
        ])
    );
}

#[test]
fn quoted_keys_and_paths() {
    let v = parse(s("{ 'a b': { \"c\": 5 }, r: #/'a b'/c }")).unwrap();
    assert_eq!(
        v,
        Value::Object(vec![
            (s("a b"), Value::Object(vec![(s("c"), num(false, 5, 0))])),
            (s("r"), num(false, 5, 0)),
        ])
    );
}

#[test]
fn syntax_errors() {
    assert!(parse(s("{a:")).is_err());
    assert!(parse(s("{a 1}")).is_err());
    assert!(parse(s("[1, 2")).is_err());
    assert!(parse(s("hello")).is_err());
    assert!(parse(s("1 2")).is_err());
    assert!(parse(s("")).is_err());
}

#[test]
fn trailing_commas_accepted() {
    assert_eq!(
        parse(s("{a:[1,],}")).unwrap(),
        Value::Object(vec![(s("a"), Value::Array(vec![num(false, 1, 0)]))])
    );
}

#[test]
fn nested_declarations_are_registered() {
    assert_eq!(
        parse(s("{ a: #{ #id: x; #value: #{ #id: y; #value: 5; }; }, b: #y, c: #x }")).unwrap(),
        Value::Object(vec![
            (s("a"), num(false, 5, 0)),
            (s("b"), num(false, 5, 0)),
            (s("c"), num(false, 5, 0)),
        ])
    );
}

#[test]
fn declaration_used_in_same_document() {
    assert_eq!(
        parse(s("{a:#{ #id: \"x\"; #value: 5; },b:#x}")).unwrap(),
        Value::Object(vec![(s("a"), num(false, 5, 0)), (s("b"), num(false, 5, 0))])
    );
}

#[test]
fn error_message_names_position() {
    assert_eq!(parse(s("[1, ?]")).err(), Some(s("syntax error at character 4")));
}
