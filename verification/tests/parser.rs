use ion::{Dictionary, Document, Element, Parser, Section, Value};
use ion::Element::{Comment, Entry, Row};

#[test]
fn finish_string() {
    let mut p = Parser::new("\"foObar\"");
    assert_eq!(Some(Value::String("foObar".to_owned())), p.finish_string());

    let mut p = Parser::new("\"foObar");
    assert_eq!(Some(Value::String("foObar".to_owned())), p.finish_string());

    let mut p = Parser::new("\"\"");
    assert_eq!(Some(Value::String("".to_owned())), p.finish_string());

    let mut p = Parser::new("");
    assert_eq!(None, p.finish_string());
}

#[test]
fn finish_array() {
    let mut p = Parser::new("[\"a\"");
    assert_eq!(None, p.finish_array());

    let mut p = Parser::new("[");
    assert_eq!(None, p.finish_array());

    let mut p = Parser::new("[]");
    assert_eq!(Some(Value::Array(vec![])), p.finish_array());

    let mut p = Parser::new("[\"a\"]");
    assert_eq!(Some(Value::Array(vec![Value::String("a".to_owned())])), p.finish_array());
}

#[test]
fn finish_dictionary() {
    let mut p = Parser::new("{");
    assert_eq!(None, p.finish_dictionary());

    let mut p = Parser::new("{ foo");
    assert_eq!(None, p.finish_dictionary());

    let mut p = Parser::new("{ foo = ");
    assert_eq!(None, p.finish_dictionary());

    let mut p = Parser::new("{ foo = \"bar\"");
    assert_eq!(None, p.finish_dictionary());

    let mut p = Parser::new("{ foo = [\"bar\"");
    assert_eq!(None, p.finish_dictionary());

    let mut p = Parser::new("{ foo = [\"bar\"]");
    assert_eq!(None, p.finish_dictionary());

    let mut p = Parser::new("{}");
    assert_eq!(
        Some(Value::Dictionary(Dictionary::new())),
        p.finish_dictionary()
    );

    let mut p = Parser::new("{ foo = [\"bar\"] }");
    assert_eq!(
        "{ foo = [ \"bar\" ] }",
        p.finish_dictionary().map(|d| d.to_string()).unwrap()
    );
}

#[test]
fn slice_to_inc() {
    let mut p = Parser::new("foObar");
    assert_eq!(Some("foOb"), p.cur.take_until_inclusive('b'));
    assert_eq!(Some((4, 'a')), p.cur.next());

    let mut p = Parser::new("foObar");
    assert_eq!(Some("f"), p.cur.take_until_inclusive('f'));
    assert_eq!(Some((1, 'o')), p.cur.next());
}

#[test]
fn slice_to_exc() {
    let mut p = Parser::new("foObar");
    assert_eq!(Some("foO"), p.cur.take_until_exclusive('b'));
    assert_eq!(Some((4, 'a')), p.cur.next());

    let mut p = Parser::new("foObar");
    assert_eq!(Some(""), p.cur.take_until_exclusive('f'));
    assert_eq!(Some((1, 'o')), p.cur.next());

    let mut p = Parser::new("f\\oobar");
    assert_eq!(Some("f\\o"), p.cur.take_until_exclusive('o'));
    assert_eq!(Some((4, 'b')), p.cur.next());
}

#[test]
fn slice_while() {
    let mut p = Parser::new("foObar");
    assert_eq!(Some("foO"), p.cur.take_while(|c| c != 'b'));
    assert_eq!(Some((3, 'b')), p.cur.next());

    let mut p = Parser::new("foObar");
    assert_eq!(None, p.cur.take_while(|c| c != 'f'));
    assert_eq!(Some((0, 'f')), p.cur.next());
}

#[test]
fn parse() {
    let raw = r#"
                [dict]
                first = "first"
                # comment
                second ="another"
                whitespace = "  "
                empty = ""
                some_bool = true

                ary = [ "col1", 2,"col3", false]

                [table]

                |abc|def|
                |---|---|
                |one|two|
                # comment
                |  1| 2 |
                |  2| 3 |

                [three]
                a=1
                B=2
                | this |
            "#;

    let mut p = Parser::new(raw);

    assert_eq!(Some(Element::Section("dict".to_owned())), p.next_element());
    assert_eq!(
        Some(Entry("first".to_owned(), Value::String("first".to_owned()))),
        p.next_element()
    );
    assert_eq!(Some(Comment(" comment\n".to_owned())), p.next_element());
    assert_eq!(
        Some(Entry(
            "second".to_owned(),
            Value::String("another".to_owned())
        )),
        p.next_element()
    );
    assert_eq!(
        Some(Entry(
            "whitespace".to_owned(),
            Value::String("  ".to_owned())
        )),
        p.next_element()
    );
    assert_eq!(
        Some(Entry("empty".to_owned(), Value::String("".to_owned()))),
        p.next_element()
    );
    assert_eq!(
        Some(Entry("some_bool".to_owned(), Value::Boolean(true))),
        p.next_element()
    );
    assert_eq!(
        Some(Entry(
            "ary".to_owned(),
            Value::Array(vec![
                Value::String("col1".to_owned()),
                Value::Integer(2),
                Value::String("col3".to_owned()),
                Value::Boolean(false)
            ])
        )),
        p.next_element()
    );

    assert_eq!(Some(Element::Section("table".to_owned())), p.next_element());
    assert_eq!(
        Some(Row(vec![
            Value::String("abc".to_owned()),
            Value::String("def".to_owned())
        ])),
        p.next_element()
    );
    assert_eq!(
        Some(Row(vec![
            Value::String("---".to_owned()),
            Value::String("---".to_owned())
        ])),
        p.next_element()
    );
    assert_eq!(
        Some(Row(vec![
            Value::String("one".to_owned()),
            Value::String("two".to_owned())
        ])),
        p.next_element()
    );
    assert_eq!(Some(Comment(" comment\n".to_owned())), p.next_element());
    assert_eq!(
        Some(Row(vec![
            Value::String("1".to_owned()),
            Value::String("2".to_owned())
        ])),
        p.next_element()
    );
    assert_eq!(
        Some(Row(vec![
            Value::String("2".to_owned()),
            Value::String("3".to_owned())
        ])),
        p.next_element()
    );
    assert_eq!(Some(Element::Section("three".to_owned())), p.next_element());
    assert_eq!(Some(Entry("a".to_owned(), Value::Integer(1))), p.next_element());
    assert_eq!(Some(Entry("B".to_owned(), Value::Integer(2))), p.next_element());
    assert_eq!(Some(Row(vec![Value::String("this".to_owned())])), p.next_element());
    assert_eq!(None, p.next_element());
    assert_eq!(None, p.next_element());
}

#[test]
fn display() {
    assert_eq!(Value::String("foo".to_owned()).to_string(), "foo");
    assert_eq!(Value::Integer(1).to_string(), "1");
    assert_eq!(Value::Boolean(true).to_string(), "true");
    let ary = Value::Array(vec![Value::Integer(1), Value::String("foo".to_owned())]).to_string();
    assert_eq!(format!("{ary}"), "[ 1, \"foo\" ]");
}

#[test]
fn then_returns_dictionary() {
    let raw = r#"
                            foo = "bar"
                        "#;
    let mut p = Parser::new(raw);

    let actual = p.read().unwrap();

    let mut expected = Document::new();
    let mut section = Section::new();
    section
        .dictionary
        .insert("foo".to_owned(), Value::String("bar".to_owned()));
    expected.insert("root".to_owned(), section);
    assert_eq!(expected, actual);
}

#[test]
fn parser_then_returns_dictionary() {
    let raw = r#"
                            arr = ["WAW", "WRO"]
                        "#;
    let mut p = Parser::new(raw);

    let actual = p.read().unwrap();

    let mut expected = Document::new();
    let mut section = Section::new();
    let array = vec![
        Value::String("WAW".to_owned()),
        Value::String("WRO".to_owned()),
    ];
    section
        .dictionary
        .insert("arr".to_owned(), Value::Array(array));
    expected.insert("root".to_owned(), section);
    assert_eq!(expected, actual);
}

#[test]
fn parser_then_returns_dictionary_with_dictionary() {
    let raw = r#"
                            ndict = { foo = "bar" }
                        "#;
    let mut p = Parser::new(raw);

    let actual = p.read().unwrap();

    let mut expected = Document::new();
    let mut section = Section::new();
    let mut dict = Dictionary::new();
    dict.insert("foo".to_owned(), Value::String("bar".to_owned()));
    section
        .dictionary
        .insert("ndict".to_owned(), Value::Dictionary(dict));
    expected.insert("root".to_owned(), section);
    assert_eq!(expected, actual);
}

#[test]
fn parser_then_returns_dictionary_with_dictionary_with_new_lines() {
    let raw = r#"
                            R75042 = {
                            view = "SV"
                            loc  = ["M", "B"]
                            dist = { beach_km = 4.1 }
                        }"#;
    let mut p = Parser::new(raw);

    let actual = p.read().unwrap();

    let mut expected = Document::new();
    let mut sect = Section::new();
    let mut dict = Dictionary::new();
    dict.insert("view".to_owned(), Value::String("SV".to_owned()));
    let array =
        vec![Value::String("M".to_owned()), Value::String("B".to_owned())];
    dict.insert("loc".to_owned(), Value::Array(array));
    let mut dict_dict = Dictionary::new();
    dict_dict.insert("beach_km".to_owned(), Value::Float(4.1f64.to_string()));
    dict.insert("dist".to_owned(), Value::Dictionary(dict_dict));
    sect.dictionary
        .insert("R75042".to_owned(), Value::Dictionary(dict));
    expected.insert("root".to_owned(), sect);
    assert_eq!(expected, actual);
}

#[test]
fn then_returns_error() {
    let raw = r#"
                            key =
                        "#;
    let mut p = Parser::new(raw);

    let actual = p.read();

    assert_eq!(None, actual);
}

#[test]
fn then_returns_array() {
    let raw = r#"
                            |1|2|
                            |3|
                        "#;
    let mut p = Parser::new(raw);

    let actual = p.read().unwrap();

    let mut expected = Document::new();
    let mut sect = Section::new();
    sect.rows.push(vec![
        Value::String("1".to_owned()),
        Value::String("2".to_owned()),
    ]);
    sect.rows.push(vec![Value::String("3".to_owned())]);
    expected.insert("root".to_owned(), sect);
    assert_eq!(expected, actual);
}

#[test]
fn then_returns_array_with_empty_strings_on_empty_cells() {
    let raw = r#"
                            |1||2|
                            |3|   |
                        "#;
    let mut p = Parser::new(raw);

    let actual = p.read().unwrap();

    let mut expected = Document::new();
    let mut sect = Section::new();
    sect.rows.push(vec![
        Value::String("1".to_owned()),
        Value::String("".to_owned()),
        Value::String("2".to_owned()),
    ]);
    sect.rows.push(vec![
        Value::String("3".to_owned()),
        Value::String("".to_owned()),
    ]);
    expected.insert("root".to_owned(), sect);
    assert_eq!(expected, actual);
}

#[test]
fn then_returns_section() {
    let raw = r#"
                            [SECTION]

                            key = "value"
                            # now a table
                            | col1 | col2|
                            | col1 | col2| # comment
                            | col1 | col2|
                        "#;

    let expected = {
        let mut map = Document::new();
        let mut section = Section::new();

        section
            .dictionary
            .insert("key".to_owned(), Value::String("value".to_owned()));

        let row = vec![
            Value::String("col1".to_owned()),
            Value::String("col2".to_owned()),
        ];

        section.rows.push(row.clone());
        section.rows.push(row.clone());
        section.rows.push(row);
        map.insert("SECTION".to_owned(), section);
        map
    };

    let mut p = Parser::new(raw);
    assert_eq!(expected, p.read().unwrap());
}

#[test]
fn then_returns_last_occurance_of_section() {
    let raw = r#"
                            [SECTION]
                            1key = "1value"
                            | 1col1 | 1col2|
                            [SECTION]
                            2key = "2value"
                            | 2col1 | 2col2|
                        "#;
    let mut p = Parser::new(raw);

    let actual = p.read().unwrap();

    let mut expected = Document::new();
    let mut section = Section::new();
    section
        .dictionary
        .insert("2key".to_owned(), Value::String("2value".to_owned()));
    section.rows.push(vec![
        Value::String("2col1".to_string()),
        Value::String("2col2".to_string()),
    ]);
    expected.insert("SECTION".to_owned(), section);
    assert_eq!(expected, actual);
}

#[test]
fn then_returns_nothing() {
    let raw = r#"
                            nkey = "nvalue"
                            | ncol1 | ncol2 |
                        "#;
    let mut p = Parser::new_filtered(raw, vec!["ACCEPTED"]);

    let actual = p.read().unwrap();

    let expected = Document::new();
    assert_eq!(expected, actual);
}

#[test]
fn then_returns_accepted_section() {
    let raw = r#"
                            nkey = "nvalue"
                            | ncol1 | ncol2 |
                            [ACCEPTED]
                            key = "value"
                            | col1 | col2|
                        "#;
    let mut p = Parser::new_filtered(raw, vec!["ACCEPTED"]);

    let actual = p.read().unwrap();

    let mut expected = Document::new();
    let mut section = Section::new();
    section
        .dictionary
        .insert("key".to_owned(), Value::String("value".to_owned()));
    section.rows.push(vec![
        Value::String("col1".to_string()),
        Value::String("col2".to_string()),
    ]);
    expected.insert("ACCEPTED".to_owned(), section);
    assert_eq!(expected, actual);
}

#[test]
fn parser_then_returns_nothing() {
    let raw = r#"
                            nkey = "nvalue"
                            | ncol1 | ncol2 |
                            [FILTERED]
                            key = "value"
                            | col1 | col2|
                        "#;
    let mut p = Parser::new_filtered(raw, vec!["ACCEPTED"]);

    let actual = p.read().unwrap();

    let expected = Document::new();
    assert_eq!(expected, actual);
}

#[test]
fn parser_then_returns_accepted_section() {
    let raw = r#"
                            [ACCEPTED]
                            key = "value"
                            | col1 | col2|
                        "#;
    let mut p = Parser::new_filtered(raw, vec!["ACCEPTED"]);

    let actual = p.read().unwrap();

    let mut expected = Document::new();
    let mut section = Section::new();
    section
        .dictionary
        .insert("key".to_owned(), Value::String("value".to_owned()));
    section.rows.push(vec![
        Value::String("col1".to_string()),
        Value::String("col2".to_string()),
    ]);
    expected.insert("ACCEPTED".to_owned(), section);
    assert_eq!(expected, actual);
}

#[test]
fn parser_then_returns_accepted_section_before_filtered_section() {
    let raw = r#"
                            [ACCEPTED]
                            key = "value"
                            | col1 | col2|
                            [FILTERED]
                            fkey = "fvalue"
                            | fcol1 | fcol2|
                        "#;
    let mut p = Parser::new_filtered(raw, vec!["ACCEPTED"]);

    let actual = p.read().unwrap();

    let mut expected = Document::new();
    let mut section = Section::new();
    section
        .dictionary
        .insert("key".to_owned(), Value::String("value".to_owned()));
    section.rows.push(vec![
        Value::String("col1".to_string()),
        Value::String("col2".to_string()),
    ]);
    expected.insert("ACCEPTED".to_owned(), section);
    assert_eq!(expected, actual);
}

#[test]
fn then_returns_first_occurance_of_accepted_section() {
    let raw = r#"
                                [ACCEPTED]
                                1key = "1value"
                                | 1col1 | 1col2|
                                [ACCEPTED]
                                2key = "2value"
                                | 2col1 | 2col2|
                            "#;
    let mut p = Parser::new_filtered(raw, vec!["ACCEPTED"]);

    let actual = p.read().unwrap();

    let mut expected = Document::new();
    let mut section = Section::new();
    section
        .dictionary
        .insert("1key".to_owned(), Value::String("1value".to_owned()));
    section.rows.push(vec![
        Value::String("1col1".to_string()),
        Value::String("1col2".to_string()),
    ]);
    expected.insert("ACCEPTED".to_owned(), section);
    assert_eq!(expected, actual);
}

#[test]
fn parser_then_returns_first_occurance_of_accepted_section() {
    let raw = r#"
                                [ACCEPTED]
                                1key = "1value"
                                | 1col1 | 1col2|
                                [ACCEPTED]
                                2key = "2value"
                                | 2col1 | 2col2|
                            "#;
    let mut p = Parser::new_filtered(raw, vec!["ACCEPTED", "ANOTHER"]);

    let actual = p.read().unwrap();

    let mut expected = Document::new();
    let mut section = Section::new();
    section
        .dictionary
        .insert("1key".to_owned(), Value::String("1value".to_owned()));
    section.rows.push(vec![
        Value::String("1col1".to_string()),
        Value::String("1col2".to_string()),
    ]);
    expected.insert("ACCEPTED".to_owned(), section);
    assert_eq!(expected, actual);
}

#[test]
fn parser_then_returns_nothing_for_filtered_section() {
    let raw = r#"
                            [FILTERED]
                            key = "value"
                            | col1 | col2|
                        "#;
    let mut p = Parser::new_filtered(raw, vec!["ACCEPTED"]);

    let actual = p.read().unwrap();

    let expected = Document::new();
    assert_eq!(expected, actual);
}

#[test]
fn parser_then_returns_accepted_section_after_filtered_section() {
    let raw = r#"
                            [FILTERED]
                            fkey = "fvalue"
                            | fcol1 | fcol2|
                            [ACCEPTED]
                            key = "value"
                            | col1 | col2|
                        "#;
    let mut p = Parser::new_filtered(raw, vec!["ACCEPTED"]);

    let actual = p.read().unwrap();

    let mut expected = Document::new();
    let mut section = Section::new();
    section
        .dictionary
        .insert("key".to_owned(), Value::String("value".to_owned()));
    section.rows.push(vec![
        Value::String("col1".to_string()),
        Value::String("col2".to_string()),
    ]);
    expected.insert("ACCEPTED".to_owned(), section);
    assert_eq!(expected, actual);
}
