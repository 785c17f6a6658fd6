use fson::generator;
use fson::parser::parse;
use fson::stringify_json;
use fson::{sanitize_string, stringify_value, Decimal, ReferenceAsValue, TemplateValue, Value};

fn s(t: &str) -> String {
    String::from(t)
}

fn num(negative: bool, mantissa: u64, scale: u32) -> Value {
    Value::Number(Decimal { negative, mantissa, scale, exponent: 0 })
}

fn sample() -> Value {
    Value::Object(vec![
        (s("name"), Value::String(s("say \"hi\"\nthen\tgo"))),
        (s("count"), num(false, 42, 0)),
        (s("ratio"), num(true, 125, 3)),
        (s("ok"), Value::Boolean(true)),
        (s("none"), Value::Null),
        (
            s("list"),
            Value::Array(vec![
                num(false, 1, 0),
                Value::Object(vec![(s("inner key"), Value::Boolean(false))]),
                Value::Array(vec![]),
            ]),
        ),
        (s("empty"), Value::Object(vec![])),
    ])
}

#[test]
fn special_literals_stringify() {
    assert_eq!(stringify_json::stringify(Value::Infinity, 0, false), "Infinity");
    assert_eq!(stringify_json::stringify(Value::NegativeInfinity, 0, false), "-Infinity");
    assert_eq!(stringify_json::stringify(Value::NaN, 0, true), "NaN");
    for text in ["Infinity", "-Infinity", "NaN"] {
        assert_eq!(stringify_json::stringify(parse(s(text)).unwrap(), 0, false), text);
    }
}

#[test]
fn minify_and_pretty() {
    let v = || Value::Object(vec![(s("a"), num(false, 1, 0))]);
    let min = stringify_json::stringify(v(), 0, true);
    assert_eq!(min, "{\"a\":1,}");
    assert!(!min.contains('\n'));
    assert!(!min.contains(' '));
    let pretty = stringify_json::stringify(v(), 0, false);
    assert_eq!(pretty, "{\n  \"a\": 1,\n}");
    assert!(pretty.contains("\n  \"a\""));
}

#[test]
fn nested_pretty_indent() {
    let v = Value::Object(vec![(
        s("x"),
        Value::Object(vec![(s("y"), Value::Array(vec![num(false, 1, 0), num(false, 2, 0)]))]),
    )]);
    assert_eq!(
        stringify_json::stringify(v, 2, false),
        "{\n    \"x\": {\n      \"y\": [1, 2],\n    },\n  }"
    );
}

#[test]
fn numbers_render_minimally() {
    assert_eq!(stringify_json::stringify(num(false, 15, 1), 0, false), "1.5");
    assert_eq!(stringify_json::stringify(num(true, 5, 2), 0, false), "-0.05");
    assert_eq!(stringify_json::stringify(num(false, 100, 0), 0, false), "100");
    assert_eq!(stringify_json::stringify(num(false, 0, 0), 0, false), "0");
    assert_eq!(stringify_json::stringify(num(false, 10, 1), 0, false), "1");
    assert_eq!(stringify_json::stringify(num(false, 1200, 3), 0, false), "1.2");
    let big = Value::Number(Decimal { negative: true, mantissa: 12, scale: 0, exponent: 3 });
    assert_eq!(stringify_json::stringify(big, 0, false), "-12000");
    let mixed = Value::Number(Decimal { negative: false, mantissa: 125, scale: 3, exponent: 1 });
    assert_eq!(stringify_json::stringify(mixed, 0, false), "1.25");
}

#[test]
fn arrays_have_no_trailing_comma() {
    let v = || Value::Array(vec![num(false, 1, 0), Value::String(s("b")), Value::Null]);
    assert_eq!(stringify_json::stringify(v(), 0, false), "[1, \"b\", null]");
    assert_eq!(stringify_json::stringify(v(), 0, true), "[1,\"b\",null]");
    assert_eq!(stringify_json::stringify(Value::Array(vec![]), 0, true), "[]");
}

#[test]
fn references_and_templates_render() {
    assert_eq!(
        stringify_json::stringify(Value::Reference(ReferenceAsValue::Id(s("a\"b"))), 0, false),
        "#\"a\\\"b\""
    );
    assert_eq!(
        stringify_json::stringify(
            Value::Reference(ReferenceAsValue::Path(vec![s("a"), s("b")])),
            0,
            false
        ),
        "#/\"a\"/\"b\""
    );
    let decl = || Value::ReferenceDeclaration {
        id: s("x"),
        value: Box::new(num(false, 1, 0)),
    };
    assert_eq!(stringify_json::stringify(decl(), 0, false), "#{ #id: \"x\"; #value: 1; }");
    assert_eq!(stringify_json::stringify(decl(), 0, true), "#{#id:\"x\";#value:1;}");
    let t = Value::TemplateString(vec![
        TemplateValue::String(s("2 + 2 = ")),
        TemplateValue::Interpolation(num(false, 4, 0)),
    ]);
    assert_eq!(stringify_json::stringify(t, 0, false), "`2 + 2 = ${4}`");
}

#[test]
fn strings_escape_quotes_and_control_characters() {
    assert_eq!(
        stringify_json::stringify(Value::String(s("a\"b\nc\td")), 0, false),
        "\"a\\\"b\\nc\\td\""
    );
    assert_eq!(stringify_value(Value::Boolean(false), 0, false), "false");
}

#[test]
fn sanitize_replaces_escapes() {
    assert_eq!(sanitize_string(s("a\\nb")), "a\nb");
    assert_eq!(sanitize_string(s("a\\rb")), "a\nb");
    assert_eq!(sanitize_string(s("\\t\\\"\\'\\`")), "\t\"'`");
    assert_eq!(sanitize_string(s("\\q")), "\\q");
    assert_eq!(sanitize_string(s("plain")), "plain");
}

#[test]
fn round_trip_plain_values() {
    for minify in [false, true] {
        let text = stringify_json::stringify(sample(), 0, minify);
        assert_eq!(parse(text).unwrap(), sample());
    }
}

#[test]
fn stringify_is_idempotent() {
    for minify in [false, true] {
        let once = stringify_json::stringify(sample(), 0, minify);
        let twice = stringify_json::stringify(parse(once.clone()).unwrap(), 0, minify);
        assert_eq!(once, twice);
    }
}

#[test]
fn deep_clone_copies() {
    assert_eq!(sample().deep_clone(), sample());
}

#[test]
fn generated_configuration_resolves() {
    let doc = Value::Object(vec![
        (
            s("server"),
            Value::Object(vec![
                (
                    s("host"),
                    Value::ReferenceDeclaration {
                        id: s("host"),
                        value: Box::new(Value::String(s("localhost"))),
                    },
                ),
                (
                    s("protocol"),
                    Value::ReferenceDeclaration {
                        id: s("protocol"),
                        value: Box::new(Value::String(s("http"))),
                    },
                ),
                (
                    s("port"),
                    Value::ReferenceDeclaration {
                        id: s("port"),
                        value: Box::new(num(false, 80, 0)),
                    },
                ),
            ]),
        ),
        (s("indexRoute"), Value::String(s("/"))),
        (
            s("address"),
            Value::TemplateString(vec![
                TemplateValue::Interpolation(Value::Reference(ReferenceAsValue::Id(s("protocol")))),
                TemplateValue::String(s("://")),
                TemplateValue::Interpolation(Value::Reference(ReferenceAsValue::Id(s("host")))),
                TemplateValue::String(s(":")),
                TemplateValue::Interpolation(Value::Reference(ReferenceAsValue::Id(s("port")))),
                TemplateValue::Interpolation(Value::Reference(ReferenceAsValue::Path(vec![s(
                    "indexRoute",
                )]))),
            ]),
        ),
    ]);
    let text = generator::from(doc);
    let v = parse(text).unwrap();
    assert_eq!(
        v,
        Value::Object(vec![
            (
                s("server"),
                Value::Object(vec![
                    (s("host"), Value::String(s("localhost"))),
                    (s("protocol"), Value::String(s("http"))),
                    (s("port"), num(false, 80, 0)),
                ])
            ),
            (s("indexRoute"), Value::String(s("/"))),
            (s("address"), Value::String(s("http://localhost:80/"))),
        ])
    );
}
