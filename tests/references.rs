use fson::parser::grammar::parse_document;
use fson::parser::parse::{check_pair_for_ref, get_all_ref_paths, parse_pair, to_hashmap};
use fson::{Decimal, ReferencesManager, Value};

fn s(t: &str) -> String {
    String::from(t)
}

#[test]
fn manager_lookups() {
    let mut m = ReferencesManager::new();
    assert_eq!(m.get_by_id(s("a")), None);
    m.refs.push((s("a"), Value::Null));
    m.refs.push((s("a"), Value::Boolean(true)));
    m.ref_paths.push((s("/x"), Value::String(s("v"))));
    assert_eq!(m.get_by_id(s("a")), Some(Value::Boolean(true)));
    assert_eq!(m.get_by_path(s("/x")), Some(Value::String(s("v"))));
    assert_eq!(m.get_by_path(s("/y")), None);
}

#[test]
fn tree_resolution() {
    let chars: Vec<char> = "{ a: [ { b: 7 } ], c: #/b, d: #/a }".chars().collect();
    let tree = parse_document(&chars).unwrap();
    let seven = Value::Number(Decimal { negative: false, mantissa: 7, scale: 0, exponent: 0 });
    assert_eq!(
        to_hashmap(&tree),
        Value::Object(vec![
            (s("a"), Value::Array(vec![Value::Object(vec![(s("b"), seven.deep_clone())])])),
            (s("c"), seven.deep_clone()),
            (s("d"), Value::Array(vec![Value::Object(vec![(s("b"), seven)])])),
        ])
    );
}

#[test]
fn syntax_error_position() {
    let chars: Vec<char> = "[1, ?]".chars().collect();
    assert_eq!(parse_document(&chars).err(), Some(4));
}

#[test]
fn indexers_in_document_order() {
    let chars: Vec<char> =
        "{ x: { y: 1 }, a: [ { b: #{ #id: k; #value: 2; } } ], t: `${#{ #id: j; #value: 3; }}` }"
            .chars()
            .collect();
    let tree = parse_document(&chars).unwrap();
    let mut paths = Vec::new();
    get_all_ref_paths(&tree, &s("/"), &mut paths);
    let keys: Vec<String> = paths.iter().map(|e| e.0.clone()).collect();
    assert_eq!(keys, vec![s("/x"), s("/x/y"), s("/a"), s("/b"), s("/t")]);
    let mut decls = Vec::new();
    check_pair_for_ref(&tree, &mut decls);
    let ids: Vec<String> = decls.iter().map(|e| e.0.clone()).collect();
    assert_eq!(ids, vec![s("k"), s("j")]);
    let m = ReferencesManager::new();
    assert_eq!(
        parse_pair(decls[1].1, &m),
        Value::Number(Decimal { negative: false, mantissa: 3, scale: 0, exponent: 0 })
    );
}
