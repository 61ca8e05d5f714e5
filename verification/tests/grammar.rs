use ion::{Dictionary, Document, Element, Parser, ParserError, Section, Value};

fn text(s: &str) -> Value {
    Value::String(s.to_owned())
}

fn entry(key: &str, value: Value) -> Option<Element> {
    Some(Element::Entry(key.to_owned(), value))
}

fn error(lo: usize, hi: usize, desc: &str) -> ParserError {
    ParserError { lo, hi, desc: desc.to_owned() }
}

#[test]
fn a_literal_reads_back_as_its_string() {
    for s in ["", "a", "hello world", "tab\there", "\u{e9}\u{20ac}", "a\"b", "line\nfeed", "# | ] }"] {
        let literal = text(s).to_literal();
        let mut p = Parser::new(&literal);
        assert_eq!(Some(text(s)), p.value(), "{literal}");
        assert_eq!(None, p.cur.next());
        assert!(p.errors().is_empty());
    }
}

fn text_before_closing_quote(source: &str) -> &str {
    let mut previous = ' ';
    for (at, c) in source.char_indices() {
        if c == '"' && (at == 0 || previous != '\\') {
            return &source[..at];
        }
        previous = c;
    }
    source
}

#[test]
fn string_escapes_are_resolved_one_kind_after_the_other() {
    for raw in [
        "a\\\\b", "a\\nb", "a\\\"b", "\\\\n", "\\\\\\n", "a\\tb", "\\", "\\\\\\\\",
        "x\\\\\"y", "\\n\\n", "\\\\\\\"z", "\"", "a\"b", "\\\"\"", "",
    ] {
        let source = format!("\"{raw}\" tail");
        let expected = text_before_closing_quote(&source[1..])
            .replace("\\\\", "\\")
            .replace("\\n", "\n")
            .replace("\\\"", "\"");
        let mut p = Parser::new(&source);
        assert_eq!(Some(text(&expected)), p.finish_string(), "{source}");
    }
    let mut p = Parser::new("\"\\\\n\"");
    assert_eq!(Some(text("\n")), p.finish_string());
    let mut p = Parser::new("\"a\\\"b\\nc\\\\\"");
    assert_eq!(Some(text("a\"b\nc\"")), p.finish_string());
    let mut p = Parser::new("\"");
    assert_eq!(None, p.finish_string());
    assert!(p.errors().is_empty());
}

#[test]
fn table_cells_are_trimmed_and_unescaped() {
    let mut p = Parser::new("|1||2|");
    assert_eq!(Some(Element::Row(vec![text("1"), text(""), text("2")])), p.row());

    let mut p = Parser::new("|  a b \t|c\u{a0}\u{3000}| \\| | x\\ny | \\\\ |\n|next|");
    assert_eq!(
        Some(Element::Row(vec![text("a b"), text("c"), text("|"), text("x\ny"), text("\\")])),
        p.row()
    );
    assert_eq!(Some(Element::Row(vec![text("next")])), p.row());
    assert_eq!(Some(Element::Row(vec![])), p.row());
}

#[test]
fn cells_agree_with_trim_and_replace() {
    for raw in ["a", " a ", "a\\\\", "\\|", "a \\n ", "\\\\n", "a\u{2003}\u{85}", "\\\\|", "x\\\\\\|y", ""] {
        let source = format!("{raw}|rest");
        let end = {
            let chars: Vec<char> = source.chars().collect();
            let mut i = 0;
            if chars[0] != '|' {
                i = 1;
                while i < chars.len() && !(chars[i] == '|' && chars[i - 1] != '\\') {
                    i += 1;
                }
            }
            chars[..i].iter().collect::<String>()
        };
        let expected = end
            .trim_start_matches([' ', '\t'])
            .trim_end()
            .replace("\\\\", "\\")
            .replace("\\n", "\n")
            .replace("\\|", "|");
        let mut p = Parser::new(&source);
        assert_eq!(expected, p.cell(), "{source}");
    }
    let mut p = Parser::new("  ");
    assert_eq!("", p.cell());
}

#[test]
fn a_row_ends_before_a_comment() {
    let mut p = Parser::new("|a|b| # note\n|c|");
    assert_eq!(Some(Element::Row(vec![text("a"), text("b")])), p.next_element());
    assert_eq!(Some(Element::Comment(" note\n".to_owned())), p.next_element());
    assert_eq!(Some(Element::Row(vec![text("c")])), p.next_element());
    assert_eq!(None, p.next_element());
}

#[test]
fn an_array_holds_typed_values() {
    let mut p = Parser::new("[ \"col1\", 2,\"col3\", false]");
    assert_eq!(
        Some(Value::Array(vec![text("col1"), Value::Integer(2), text("col3"), Value::Boolean(false)])),
        p.value()
    );
    let mut p = Parser::new("[[1, [2]], [], {a = [true]},\n3.25,,]x");
    let mut d = Dictionary::new();
    d.insert("a".to_owned(), Value::Array(vec![Value::Boolean(true)]));
    assert_eq!(
        Some(Value::Array(vec![
            Value::Array(vec![Value::Integer(1), Value::Array(vec![Value::Integer(2)])]),
            Value::Array(vec![]),
            Value::Dictionary(d),
            Value::Float("3.25".to_owned()),
        ])),
        p.finish_array()
    );
    assert_eq!(Some((36, 'x')), p.cur.next());
}

#[test]
fn line_feeds_and_commas_separate_entries_alike() {
    let mut commas = Parser::new("{ foo = \"bar\" }");
    let mut feeds = Parser::new("{\nfoo = \"bar\"\n}");
    let mut expected = Dictionary::new();
    expected.insert("foo".to_owned(), text("bar"));
    let one = commas.value();
    assert_eq!(Some(Value::Dictionary(expected)), one);
    assert_eq!(one, feeds.value());

    let mut commas = Parser::new("{a = 1, b = [2], c = {d = 3},}");
    let mut feeds = Parser::new("{a = 1\n b = [2]\n c = {d = 3}\n}");
    let one = commas.value();
    assert!(one.is_some());
    assert_eq!(one, feeds.value());
}

#[test]
fn a_later_entry_replaces_an_earlier_one() {
    let mut p = Parser::new("{ a = 1, b = 2, a = 3 }");
    let mut expected = Dictionary::new();
    expected.insert("a".to_owned(), Value::Integer(3));
    expected.insert("b".to_owned(), Value::Integer(2));
    assert_eq!(Some(Value::Dictionary(expected)), p.value());

    let mut p = Parser::new("a = 1\na = 2\n");
    let document = p.read().unwrap();
    let mut section = Section::new();
    section.dictionary.insert("a".to_owned(), Value::Integer(2));
    assert_eq!(Some(&section), document.get("root"));
}

#[test]
fn numbers_are_integers_or_floats() {
    let mut p = Parser::new("0 007 9223372036854775807 9223372036854775808 1.50 1. .5 12x 3.4.5");
    assert_eq!(Some(Value::Integer(0)), p.value());
    assert_eq!(Some(Value::Integer(7)), p.value());
    assert_eq!(Some(Value::Integer(i64::MAX)), p.value());
    assert_eq!(None, p.value());
    assert_eq!(Some(Value::Float("1.50".to_owned())), p.value());
    assert_eq!(None, p.value());
    assert!(p.errors().is_empty());
    assert_eq!(None, p.value());
    assert_eq!(&vec![error(54, 55, "Cannot read a value")], p.errors());
    assert_eq!(Some((54, '.')), p.cur.next());
    assert_eq!(Some(Value::Integer(5)), p.value());
    assert_eq!(Some(Value::Integer(12)), p.value());
    assert_eq!(Some((59, 'x')), p.cur.next());
    assert_eq!(Some(Value::Float("3.4".to_owned())), p.value());
    assert_eq!(None, p.number());
    assert_eq!(Some((64, '.')), p.cur.next());
}

#[test]
fn integers_agree_with_the_standard_parse() {
    for digits in ["0", "1", "00", "42", "9223372036854775806", "9223372036854775807", "9223372036854775808", "9223372036854775809", "10000000000000000000", "18446744073709551616", "99999999999999999999999999", "000000000000000000000000000000000000012"] {
        let mut p = Parser::new(digits);
        let expected = digits.parse::<i64>().ok().map(Value::Integer);
        assert_eq!(expected, p.number(), "{digits}");
        assert_eq!(None, p.cur.next());
    }
}

#[test]
fn booleans_are_whole_words_from_the_start() {
    let mut p = Parser::new("true false truefalse tru fals t f");
    assert_eq!(Some(Value::Boolean(true)), p.value());
    assert_eq!(Some(Value::Boolean(false)), p.value());
    assert_eq!(Some(Value::Boolean(true)), p.value());
    assert_eq!(Some(Value::Boolean(false)), p.value());
    assert_eq!(None, p.value());
    assert_eq!(None, p.boolean());
    assert!(p.errors().is_empty());
    assert_eq!(Some((21, 't')), p.cur.next());
}

#[test]
fn a_value_may_follow_one_line_break() {
    let mut p = Parser::new("a = \t\r\n \t 1\nb =\n\n2");
    assert_eq!(entry("a", Value::Integer(1)), p.next_element());
    assert_eq!(None, p.next_element());
    assert_eq!(&vec![error(16, 17, "Cannot read a value")], p.errors());
}

#[test]
fn errors_carry_a_window_of_byte_offsets() {
    let mut p = Parser::new("k = \u{20ac}x");
    assert_eq!(None, p.read());
    assert_eq!(&vec![error(4, 7, "Cannot read a value")], p.errors());

    let mut p = Parser::new("k = [\"\u{e9}\", ");
    assert_eq!(None, p.read());
    assert_eq!(&vec![error(11, 11, "Cannot finish an array")], p.errors());

    let mut p = Parser::new("k = [1 ?]");
    assert_eq!(None, p.read());
    assert_eq!(&vec![error(7, 8, "Cannot read a value")], p.errors());

    let mut p = Parser::new("k = {a = 1");
    assert_eq!(None, p.read());
    assert_eq!(&vec![error(10, 10, "Cannot finish a dictionary")], p.errors());

    let mut p = Parser::new("k = {a 1}");
    assert_eq!(None, p.read());
    assert_eq!(&vec![error(7, 8, "Cannot finish a dictionary")], p.errors());

    let mut p = Parser::new("k = {a = }!");
    assert_eq!(None, p.read());
    assert_eq!(
        &vec![error(9, 10, "Cannot read a value"), error(9, 10, "Cannot finish a dictionary")],
        p.errors()
    );

    let mut p = Parser::new("k = [{a = [}]");
    assert_eq!(None, p.read());
    assert_eq!(
        &vec![error(11, 12, "Cannot read a value"), error(11, 12, "Cannot finish a dictionary")],
        p.errors()
    );
}

#[test]
fn an_entry_without_a_value_fails_the_read() {
    for source in ["key =", "key=", "key = ", "key =\n", "key = \t\n \t", "[s]\nkey =", "a = 1\nkey ="] {
        let mut p = Parser::new(source);
        assert_eq!(None, p.read(), "{source:?}");
        assert_eq!(1, p.errors().len());
        assert_eq!("Cannot read a value", p.errors()[0].desc);
        assert_eq!(source.len(), p.errors()[0].lo);
        assert_eq!(source.len(), p.errors()[0].hi);
    }
}

#[test]
fn an_entry_without_key_or_separator_ends_the_stream_without_an_error() {
    let mut p = Parser::new("a = 1\n= 2\nb = 3");
    assert_eq!(entry("a", Value::Integer(1)), p.next_element());
    assert_eq!(None, p.next_element());
    assert_eq!(None, p.next_element());
    assert!(p.errors().is_empty());
    assert_eq!(Some((6, '=')), p.cur.next());

    let mut p = Parser::new("a  b = 3");
    assert_eq!(None, p.entry());
    assert!(p.errors().is_empty());
    assert_eq!(Some((3, 'b')), p.cur.next());

    let mut p = Parser::new("a = 1\nb\n");
    let document = p.read().unwrap();
    let mut section = Section::new();
    section.dictionary.insert("a".to_owned(), Value::Integer(1));
    assert_eq!(Some(&section), document.get("root"));
}

#[test]
fn empty_input_is_an_empty_root_section() {
    let mut p = Parser::new("");
    let mut expected = Document::new();
    expected.insert("root".to_owned(), Section::new());
    assert_eq!(Some(expected), p.read());
    assert_eq!(None, p.next_element());

    let mut p = Parser::new(" \t\r\n\n  ");
    let document = p.read().unwrap();
    assert_eq!(1, document.sections().len());
    assert_eq!(Some(&Section::new()), document.get("root"));

    let mut p = Parser::new_filtered("", vec![]);
    assert_eq!(Some(Document::new()), p.read());
}

#[test]
fn a_comment_keeps_its_line_feed() {
    let mut p = Parser::new("# comment\n#\n#last");
    assert_eq!(Some(Element::Comment(" comment\n".to_owned())), p.next_element());
    assert_eq!(Some(Element::Comment("\n".to_owned())), p.next_element());
    assert_eq!(Some(Element::Comment("last".to_owned())), p.next_element());
    assert_eq!(None, p.next_element());

    let mut p = Parser::new("#");
    assert_eq!(Some(Element::Comment("".to_owned())), p.comment());
    let mut p = Parser::new("x");
    assert_eq!(None, p.comment());
    assert_eq!(Some((0, 'x')), p.cur.next());
}

#[test]
fn a_section_name_runs_to_the_bracket() {
    let mut p = Parser::new("[ \t name with blanks ]x\n[]\n[open\nend");
    assert_eq!(Some(Element::Section("name with blanks ".to_owned())), p.next_element());
    assert_eq!(Some((22, 'x')), p.cur.next());
    assert_eq!(Some(Element::Section("".to_owned())), p.next_element());
    assert_eq!(Some(Element::Section("open\nend".to_owned())), p.next_element());
    assert_eq!(None, p.next_element());
}

#[test]
fn the_last_of_equal_sections_counts() {
    let mut p = Parser::new("[a]\nx = 1\n|1|\n[b]\ny = 2\n[a]\nz = 3\n[c]\n");
    let document = p.read().unwrap();
    let mut a = Section::new();
    a.dictionary.insert("z".to_owned(), Value::Integer(3));
    let mut b = Section::new();
    b.dictionary.insert("y".to_owned(), Value::Integer(2));
    let mut expected = Document::new();
    expected.insert("c".to_owned(), Section::new());
    expected.insert("b".to_owned(), b);
    expected.insert("a".to_owned(), a);
    assert_eq!(expected, document);
}

#[test]
fn a_section_is_taken_as_often_as_it_is_asked_for() {
    let source = "[a]\nx = 1\n[a]\nx = 2\n[a]\nx = 3\n";
    let mut once = Parser::new_filtered(source, vec!["a", "b"]);
    assert_eq!(Some(Element::Section("a".to_owned())), once.next_element());
    assert_eq!(entry("x", Value::Integer(1)), once.next_element());
    assert_eq!(None, once.next_element());
    assert_eq!(None, once.cur.peek());

    let mut twice = Parser::new_filtered(source, vec!["a", "b", "a"]);
    assert_eq!(Some(Element::Section("a".to_owned())), twice.next_element());
    assert_eq!(entry("x", Value::Integer(1)), twice.next_element());
    assert_eq!(Some(Element::Section("a".to_owned())), twice.next_element());
    assert_eq!(entry("x", Value::Integer(2)), twice.next_element());
    assert_eq!(None, twice.next_element());
    assert_eq!(None, twice.cur.peek());
}

#[test]
fn the_stream_ends_for_good_once_the_filter_is_exhausted() {
    let mut p = Parser::new_filtered("[a]\nx = 1\n[b]\ny = 2\n[a]\nz = 3\n", vec!["a"]);
    assert_eq!(Some(Element::Section("a".to_owned())), p.next_element());
    assert_eq!(entry("x", Value::Integer(1)), p.next_element());
    assert_eq!(None, p.next_element());
    assert_eq!(Some('\n'), p.cur.peek());
    assert_eq!(None, p.next_element());
    assert_eq!(None, p.next_element());
    assert_eq!(Some((13, '\n')), p.cur.next());
    assert!(p.errors().is_empty());

    let mut p = Parser::new_filtered("x = 1\n[a]\ny = 2\n", vec![]);
    assert_eq!(entry("x", Value::Integer(1)), p.next_element());
    assert_eq!(None, p.next_element());
    assert_eq!(None, p.next_element());
    assert_eq!(Some(Document::new()), Parser::new_filtered("x = 1\n[a]\ny = 2\n", vec![]).read());
}

#[test]
fn a_section_passed_over_is_skipped_line_by_line() {
    let source = "[a]\nx = [1]\n| [b] |\n  [ b]\ny = 2\n";
    let mut p = Parser::new_filtered(source, vec!["b", "c"]);
    assert_eq!(Some(Element::Section("b".to_owned())), p.next_element());
    assert_eq!(entry("y", Value::Integer(2)), p.next_element());
    assert_eq!(None, p.next_element());

    let mut p = Parser::new_filtered("[a] [b]\nx = 1\n", vec!["b"]);
    assert_eq!(None, p.next_element());
    assert_eq!(None, p.cur.peek());
}

#[test]
fn content_before_the_first_header_is_dropped_when_filtering() {
    let mut p = Parser::new_filtered("x = 1\n", vec!["a"]);
    assert_eq!(entry("x", Value::Integer(1)), p.next_element());
    assert_eq!(Some(Document::new()), Parser::new_filtered("x = 1\n", vec!["a"]).read());
}

#[test]
fn errors_before_reading_fail_the_read() {
    let mut p = Parser::new("?\n[a]\n");
    assert_eq!(None, p.value());
    assert_eq!(1, p.errors().len());
    assert_eq!(None, p.read());
    assert_eq!(1, p.errors().len());
    assert_eq!(Some('?'), p.cur.peek());
}

#[test]
fn capacities_do_not_change_what_is_read() {
    let source = "[s]\na = [1, 2, 3]\n|x|y|z|\n|1|2|3|\n";
    let expected = Parser::new(source).read();
    assert!(expected.is_some());
    let mut p = Parser::new(source)
        .with_section_capacity(0)
        .with_row_capacity(1)
        .with_array_capacity(64);
    assert_eq!(expected, p.read());
}

#[test]
fn productions_may_start_at_the_end_of_the_input() {
    let mut p = Parser::new("");
    assert_eq!(None, p.finish_array());
    assert_eq!(None, p.finish_dictionary());
    assert_eq!(None, p.number());
    assert_eq!(None, p.boolean());
    assert_eq!(None, p.entry());
    assert_eq!(None, p.comment());
    assert_eq!(Some(Element::Row(vec![])), p.row());
    assert_eq!("", p.section_name());
    assert_eq!("", p.cell());
    assert_eq!(Some(true), p.is_section_accepted("any"));
    assert_eq!(
        &vec![error(0, 0, "Cannot finish an array"), error(0, 0, "Cannot finish a dictionary")],
        p.errors()
    );
}

#[test]
fn arrays_and_dictionaries_nest_to_a_limit() {
    let deepest = format!("{}1{}", "[".repeat(128), "]".repeat(128));
    let mut p = Parser::new(&deepest);
    let mut expected = Value::Integer(1);
    for _ in 0..128 {
        expected = Value::Array(vec![expected]);
    }
    assert_eq!(Some(expected), p.value());
    assert!(p.errors().is_empty());
    assert_eq!(None, p.cur.peek());

    let too_deep = format!("{}1{}", "[".repeat(129), "]".repeat(129));
    let mut p = Parser::new(&too_deep);
    assert_eq!(None, p.value());
    assert_eq!(&vec![error(128, 129, "Cannot read a value")], p.errors());
    assert_eq!(Some((128, '[')), p.cur.next());

    let mixed = format!("k = {}{}{}", "{a = [".repeat(64), "true", "]}".repeat(64));
    assert!(Parser::new(&mixed).read().is_some());
    let mixed = format!("k = {}{}{}", "{a = [".repeat(64), "{}", "]}".repeat(64));
    let mut p = Parser::new(&mixed);
    assert_eq!(None, p.read());
    assert_eq!("Cannot read a value", p.errors()[0].desc);
    assert_eq!(4 + 6 * 64, p.errors()[0].lo);

    let mut p = Parser::new("[[1], [2]] [[3]]");
    assert!(p.value().is_some());
    assert!(p.value().is_some());
    assert!(p.errors().is_empty());
}

#[test]
fn texts_of_many_bytes_are_read_whole() {
    let source = "cl\u{e9} = \"\u{e9}\\n\u{20ac}\\\\\u{1f600}\\\"\"\n| \u{e9}\u{3000} | \\|\u{20ac} \u{a0}|\n";
    let mut p = Parser::new(source);
    assert_eq!(None, p.next_element());
    assert!(p.errors().is_empty());
    assert_eq!(Some((2, '\u{e9}')), p.cur.next());
    p.cur.skip_whitespace();
    assert_eq!(Some((5, '=')), p.cur.next());
    assert_eq!(Some(text("\u{e9}\n\u{20ac}\\\u{1f600}\"")), p.value());
    assert_eq!(
        Some(Element::Row(vec![text("\u{e9}"), text("|\u{20ac}")])),
        p.next_element()
    );
    assert_eq!(None, p.next_element());

    let value = text("\u{e9}\n\u{20ac} \"\u{1f600}\"");
    assert_eq!("\"\u{e9}\\n\u{20ac} \\\"\u{1f600}\\\"\"", value.to_literal());
    let literal = value.to_literal();
    assert_eq!(Some(value), Parser::new(&literal).value());
}
