use ion::text::{is_blank, is_digit, is_key_char, is_whitespace};
use ion::{Dictionary, Document, Section, Value};
use std::collections::BTreeMap;

#[test]
fn char_classes_agree_with_the_standard_ones() {
    let mut code: u32 = 0;
    while code <= 0x10ffff {
        if let Some(c) = char::from_u32(code) {
            assert_eq!(c.is_whitespace(), is_whitespace(c), "white space {code:x}");
            assert_eq!(c.is_ascii_digit(), is_digit(c), "digit {code:x}");
            assert_eq!(
                c.is_ascii_alphanumeric() || c == '_' || c == '-',
                is_key_char(c),
                "key {code:x}"
            );
            assert_eq!(c == ' ' || c == '\t', is_blank(c), "blank {code:x}");
        }
        code += 1;
    }
}

#[test]
fn dictionary_keeps_one_value_for_each_key() {
    let mut d = Dictionary::new();
    assert_eq!(0, d.len());
    assert_eq!(None, d.insert("b".to_owned(), Value::Integer(1)));
    assert_eq!(None, d.insert("a".to_owned(), Value::Integer(2)));
    assert_eq!(Some(Value::Integer(1)), d.insert("b".to_owned(), Value::Integer(3)));
    assert_eq!(2, d.len());
    assert_eq!(Some(&Value::Integer(3)), d.get("b"));
    assert_eq!(Some(&Value::Integer(2)), d.get("a"));
    assert_eq!(None, d.get("c"));
    assert_eq!(None, d.get(""));
}

#[test]
fn dictionary_orders_keys_as_strings_are_ordered() {
    let keys = [
        "b", "a", "", "ab", "aa", "B", "_", "-", "10", "9", "a\u{e9}", "a\u{20ac}", "az",
        "\u{1f600}", "\u{ffff}", "zz", "z", "a", "ab",
    ];
    let mut d = Dictionary::new();
    let mut reference = BTreeMap::new();
    for (i, key) in keys.iter().enumerate() {
        d.insert(key.to_string(), Value::Integer(i as i64));
        reference.insert(key.to_string(), Value::Integer(i as i64));
    }
    let expected: Vec<(String, Value)> = reference.into_iter().collect();
    assert_eq!(&expected, d.entries());
    assert_eq!(expected.len(), d.len());
}

#[test]
fn dictionaries_are_equal_whatever_the_order_of_insertion() {
    let mut one = Dictionary::new();
    one.insert("x".to_owned(), Value::Boolean(true));
    one.insert("y".to_owned(), Value::Boolean(false));
    let mut other = Dictionary::new();
    other.insert("y".to_owned(), Value::Boolean(true));
    other.insert("x".to_owned(), Value::Boolean(true));
    assert_ne!(one, other);
    other.insert("y".to_owned(), Value::Boolean(false));
    assert_eq!(one, other);
}

#[test]
fn document_keeps_one_section_for_each_name() {
    let mut first = Section::new();
    first.rows.push(vec![Value::String("1".to_owned())]);
    let mut document = Document::new();
    assert!(document.insert("s".to_owned(), first).is_none());
    assert!(document.insert("r".to_owned(), Section::with_capacity(4)).is_none());
    let previous = document.insert("s".to_owned(), Section::new()).unwrap();
    assert_eq!(vec![vec![Value::String("1".to_owned())]], previous.rows);
    assert_eq!(Some(&Section::new()), document.get("s"));
    assert_eq!(None, document.get("t"));
    let names: Vec<&str> = document.sections().iter().map(|s| s.0.as_str()).collect();
    assert_eq!(vec!["r", "s"], names);
}

#[test]
fn values_are_shown_as_they_are_written() {
    assert_eq!("-1", Value::Integer(-1).to_string());
    assert_eq!("0", Value::Integer(0).to_string());
    assert_eq!("1234567890", Value::Integer(1234567890).to_string());
    assert_eq!("9223372036854775807", Value::Integer(i64::MAX).to_string());
    assert_eq!("-9223372036854775808", Value::Integer(i64::MIN).to_string());
    assert_eq!("false", Value::Boolean(false).to_string());
    assert_eq!("4.10", Value::Float("4.10".to_owned()).to_string());
    assert_eq!("[  ]", Value::Array(vec![]).to_string());
    assert_eq!("{  }", Value::Dictionary(Dictionary::new()).to_string());
    assert_eq!("a\"b", Value::String("a\"b".to_owned()).to_string());
    assert_eq!("\"a\\\"b\\nc\\\\d\"", Value::String("a\"b\nc\\d".to_owned()).to_literal());

    let mut inner = Dictionary::new();
    inner.insert("k".to_owned(), Value::Boolean(true));
    let mut outer = Dictionary::new();
    outer.insert("z".to_owned(), Value::Array(vec![Value::Integer(1), Value::Integer(2)]));
    outer.insert("a".to_owned(), Value::Dictionary(inner));
    outer.insert("m".to_owned(), Value::String("x".to_owned()));
    assert_eq!(
        "{ a = { k = true }, m = \"x\", z = [ 1, 2 ] }",
        Value::Dictionary(outer).to_string()
    );
}

#[test]
fn a_clone_is_equal_to_its_source() {
    let mut d = Dictionary::new();
    d.insert("k".to_owned(), Value::Array(vec![Value::Float("1.5".to_owned())]));
    d.insert("j".to_owned(), Value::String("s".to_owned()));
    let value = Value::Array(vec![
        Value::Dictionary(d),
        Value::Integer(7),
        Value::Boolean(true),
    ]);
    let copy = value.clone();
    assert_eq!(value, copy);
}
