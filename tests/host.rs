use fson::host::{from_host_object, HostError};
use fson::stringify_json::indent_fits;
use fson::{Decimal, ReferenceAsValue, TemplateValue, Value};

fn s(t: &str) -> String {
    String::from(t)
}

fn one() -> Value {
    Value::Number(Decimal { negative: false, mantissa: 1, scale: 0, exponent: 0 })
}

#[test]
fn plain_object() {
    assert_eq!(
        from_host_object(vec![(s("a"), one()), (s("b"), Value::Null), (s("a"), Value::Boolean(true))]),
        Ok(Value::Object(vec![(s("a"), Value::Boolean(true)), (s("b"), Value::Null)]))
    );
}

#[test]
fn declaration_object() {
    assert_eq!(
        from_host_object(vec![(s("#id"), Value::String(s("x"))), (s("#value"), one())]),
        Ok(Value::ReferenceDeclaration { id: s("x"), value: Box::new(one()) })
    );
    assert_eq!(
        from_host_object(vec![(s("#id"), one()), (s("#value"), one())]),
        Err(HostError::IdNotText)
    );
}

#[test]
fn reference_objects() {
    assert_eq!(
        from_host_object(vec![(s("#reference_id"), Value::String(s("x")))]),
        Ok(Value::Reference(ReferenceAsValue::Id(s("x"))))
    );
    assert_eq!(
        from_host_object(vec![(s("#reference_id"), one())]),
        Err(HostError::ReferenceIdNotText)
    );
    assert_eq!(
        from_host_object(vec![(
            s("#reference_path"),
            Value::Array(vec![Value::String(s("a")), Value::String(s("b"))])
        )]),
        Ok(Value::Reference(ReferenceAsValue::Path(vec![s("a"), s("b")])))
    );
    assert_eq!(
        from_host_object(vec![(s("#reference_path"), Value::Array(vec![Value::Null]))]),
        Err(HostError::PathElementNotText)
    );
    assert_eq!(
        from_host_object(vec![(s("#reference_path"), Value::String(s("a")))]),
        Err(HostError::PathNotArray)
    );
}

#[test]
fn template_object() {
    assert_eq!(
        from_host_object(vec![(
            s("@template_string"),
            Value::Array(vec![Value::String(s("n = ")), one()])
        )]),
        Ok(Value::TemplateString(vec![
            TemplateValue::String(s("n = ")),
            TemplateValue::Interpolation(one()),
        ]))
    );
    assert_eq!(
        from_host_object(vec![(s("@template_string"), one())]),
        Err(HostError::TemplateNotArray)
    );
    assert_eq!(HostError::TemplateNotArray.message(), "Interpolation value must be array");
}

#[test]
fn indent_check() {
    let v = Value::Object(vec![(s("a"), Value::Object(vec![]))]);
    assert!(indent_fits(&v, 0));
    assert!(indent_fits(&v, usize::MAX - 4));
    assert!(!indent_fits(&v, usize::MAX - 3));
}
