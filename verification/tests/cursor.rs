use ion::Cursor;

#[test]
fn next_reports_byte_offsets() {
    let mut cur = Cursor::new("a\u{e9}\u{20ac}\u{1f600}z");
    assert_eq!(Some('a'), cur.peek());
    assert_eq!(Some((0, 'a')), cur.next());
    assert_eq!(Some((1, '\u{e9}')), cur.next());
    assert_eq!(Some((3, '\u{20ac}')), cur.next());
    assert_eq!(Some((6, '\u{1f600}')), cur.next());
    assert_eq!(Some((10, 'z')), cur.next());
    assert_eq!(None, cur.next());
    assert_eq!(None, cur.next());
    assert_eq!(None, cur.peek());
}

#[test]
fn offsets_agree_with_char_indices_for_every_char() {
    let mut code: u32 = 0;
    while code <= 0x10ffff {
        if let Some(c) = char::from_u32(code) {
            let text: String = [c, 'x'].iter().collect();
            let mut cur = Cursor::new(&text);
            assert_eq!(Some((0, c)), cur.next());
            assert_eq!(Some((c.len_utf8(), 'x')), cur.next());
        }
        code += if code < 0x3000 { 1 } else { 257 };
    }
}

#[test]
fn window_is_cut_at_the_end() {
    let mut cur = Cursor::new("\u{20ac}x");
    assert_eq!((0, 3), cur.window());
    cur.next();
    assert_eq!((3, 4), cur.window());
    cur.next();
    assert_eq!((4, 4), cur.window());
    assert_eq!("\u{20ac}x", cur.input());
}

#[test]
fn skip_whitespace_takes_spaces_and_tabs_only() {
    let mut cur = Cursor::new(" \t \t\nx");
    cur.skip_whitespace();
    assert_eq!(Some((4, '\n')), cur.next());
    let mut cur = Cursor::new("\u{a0}x");
    cur.skip_whitespace();
    assert_eq!(Some('\u{a0}'), cur.peek());
}

#[test]
fn skip_newline_takes_one_line_break() {
    let mut cur = Cursor::new("\n\nx");
    assert!(cur.skip_newline());
    assert_eq!(Some((1, '\n')), cur.next());

    let mut cur = Cursor::new("\r\nx");
    assert!(cur.skip_newline());
    assert_eq!(Some((2, 'x')), cur.next());

    let mut cur = Cursor::new("\rx");
    assert!(cur.skip_newline());
    assert_eq!(Some((1, 'x')), cur.next());

    let mut cur = Cursor::new("x\n");
    assert!(!cur.skip_newline());
    assert_eq!(Some((0, 'x')), cur.next());

    let mut cur = Cursor::new("");
    assert!(!cur.skip_newline());
}

#[test]
fn skip_line_stops_before_the_line_feed() {
    let mut cur = Cursor::new("abc [x] \ndef");
    cur.skip_line();
    assert_eq!(Some((8, '\n')), cur.next());
    cur.skip_line();
    assert_eq!(None, cur.next());

    let mut cur = Cursor::new("\nabc");
    cur.skip_line();
    assert_eq!(Some((0, '\n')), cur.next());
}

#[test]
fn eat_takes_the_expected_char_only() {
    let mut cur = Cursor::new("=x");
    assert!(!cur.eat('x'));
    assert!(cur.eat('='));
    assert!(cur.eat('x'));
    assert!(!cur.eat('x'));
}

#[test]
fn eat_word_takes_the_whole_word_or_nothing() {
    let mut cur = Cursor::new("truest");
    assert!(!cur.eat_word("false"));
    assert!(cur.eat_word("true"));
    assert_eq!(Some((4, 's')), cur.next());

    let mut cur = Cursor::new("tru");
    assert!(!cur.eat_word("true"));
    assert_eq!(Some((0, 't')), cur.next());

    let mut cur = Cursor::new("trUe");
    assert!(!cur.eat_word("true"));
    assert!(cur.eat_word(""));
    assert_eq!(Some((0, 't')), cur.next());
}

#[test]
fn take_while_needs_one_char() {
    let mut cur = Cursor::new("123abc");
    assert_eq!(Some("123"), cur.take_while(|c| c.is_ascii_digit()));
    assert_eq!(None, cur.take_while(|c| c.is_ascii_digit()));
    assert_eq!(Some("abc"), cur.take_while(|c| c != '!'));
    assert_eq!(None, cur.take_while(|_| true));
}

#[test]
fn skip_while_moves_past_the_run() {
    let mut cur = Cursor::new("aaab");
    cur.skip_while(|c| c == 'a');
    assert_eq!(Some((3, 'b')), cur.next());
    cur.skip_while(|c| c == 'a');
    assert_eq!(None, cur.next());
}

#[test]
fn take_until_inclusive_runs_to_the_end_without_delim() {
    let mut cur = Cursor::new("abc");
    assert_eq!(Some("abc"), cur.take_until_inclusive('\n'));
    assert_eq!(None, cur.take_until_inclusive('\n'));

    let mut cur = Cursor::new("a\\\nb\n");
    assert_eq!(Some("a\\\n"), cur.take_until_inclusive('\n'));
    assert_eq!(Some("b\n"), cur.take_until_inclusive('\n'));
    assert_eq!(None, cur.take_until_inclusive('\n'));
}

#[test]
fn take_until_exclusive_honours_the_backslash() {
    let mut cur = Cursor::new("a\\|b|c");
    assert_eq!(Some("a\\|b"), cur.take_until_exclusive('|'));
    assert_eq!(Some("c"), cur.take_until_exclusive('|'));
    assert_eq!(None, cur.take_until_exclusive('|'));

    let mut cur = Cursor::new("a\\\\|b");
    assert_eq!(Some("a\\\\|b"), cur.take_until_exclusive('|'));

    let mut cur = Cursor::new("\\|x|y");
    assert_eq!(Some("\\|x"), cur.take_until_exclusive('|'));
    assert_eq!(Some((4, 'y')), cur.next());

    let mut cur = Cursor::new("||");
    assert_eq!(Some(""), cur.take_until_exclusive('|'));
    assert_eq!(Some(""), cur.take_until_exclusive('|'));
    assert_eq!(None, cur.take_until_exclusive('|'));
}

#[test]
fn slices_are_cut_at_character_boundaries() {
    let text = "\u{e9}t\u{e9} \u{20ac}5|\u{1f600}\u{1f600}\n\u{3000}z";
    let mut cur = Cursor::new(text);
    assert_eq!(Some("\u{e9}t\u{e9}"), cur.take_while(|c| c.is_alphabetic()));
    assert_eq!(Some(" \u{20ac}5"), cur.take_until_exclusive('|'));
    assert_eq!(Some("\u{1f600}\u{1f600}\n"), cur.take_until_inclusive('\n'));
    assert_eq!(Some((20, '\u{3000}')), cur.next());
    assert_eq!(Some("z"), cur.take_until_exclusive('\u{3000}'));
    assert_eq!(None, cur.take_until_exclusive('z'));

    let mut cur = Cursor::new(text);
    assert_eq!(Some(text), cur.take_until_inclusive('\u{0}'));
    let mut cur = Cursor::new(text);
    assert_eq!(Some(text), cur.take_until_exclusive('\u{0}'));
    let mut cur = Cursor::new(text);
    assert_eq!(Some(text), cur.take_while(|_| true));
}
