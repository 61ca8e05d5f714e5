//! The parser: the productions of the grammar over a cursor, the stream of
//! elements, and the assembly of a document.

use vstd::prelude::*;
use vstd::string::StringExecFns;
use crate::cursor::{exclusive_end, Cursor};
use crate::document::{rows_view, Document, Section};
use crate::element::{errors_view, Element, ElementView, ParserError};
use crate::grammar::{
    accept, array_at, array_items, boolean_at, cell_at, comment_at, dictionary_at,
    dictionary_entries, digits_end, entry_at, entry_element_at, error_at, first_match,
    header_end, header_name, key_end, next_step, number_at, read_result, row_at, row_cells,
    scan_element, stream_of, string_at, value_at, Assembly, ParserView, Verdict,
    CANNOT_FINISH_ARRAY, CANNOT_FINISH_DICTIONARY, CANNOT_READ_VALUE, MAX_DEPTH, ROOT,
};
use crate::sorted::{compare_key, Rank};
use crate::text::{
    clean_cell_text, collect_chars, find_char, is_blank, is_digit, is_key_char, lemma_find_char,
    lemma_find_char_unique, lemma_run_end, lemma_run_end_unique, line_end, parse_decimal,
    skip_blanks, unescape_string_text,
};
use crate::value::{lemma_values_view_push, values_view, Dictionary, Value, ValueView};

verus! {

/// A parser over one input text.
pub struct Parser<'a> {
    /// The cursor that the productions move.
    pub cur: Cursor<'a>,
    errors: Vec<ParserError>,
    filtered: bool,
    accepted_sections: Vec<String>,
    finished: bool,
    depth: usize,
    section_capacity: usize,
    row_capacity: usize,
    array_capacity: usize,
}

/// How many items the containers that a parser makes have room for at first.
pub struct Capacities {
    /// The rows of a section.
    pub section: usize,
    /// The cells of a row.
    pub row: usize,
    /// The items of an array.
    pub array: usize,
}

/// What each of `names` stands for, in order.
pub open spec fn names_view(names: Seq<String>) -> Seq<Seq<char>> {
    Seq::new(names.len(), |i: int| names[i]@)
}

/// What each of `names` stands for, in order.
pub open spec fn strs_view(names: Seq<&str>) -> Seq<Seq<char>> {
    Seq::new(names.len(), |i: int| names[i]@)
}

/// What an optional value stands for.
pub open spec fn option_view(r: Option<Value>) -> Option<ValueView> {
    match r {
        Some(v) => Some(v@),
        None => None,
    }
}

/// What an optional element stands for.
pub open spec fn element_view(r: Option<Element>) -> Option<ElementView> {
    match r {
        Some(e) => Some(e@),
        None => None,
    }
}

/// What an optional text stands for.
pub open spec fn text_view(r: Option<String>) -> Option<Seq<char>> {
    match r {
        Some(t) => Some(t@),
        None => None,
    }
}

impl<'a> View for Parser<'a> {
    type V = ParserView;

    closed spec fn view(&self) -> ParserView {
        ParserView {
            input: self.cur.text(),
            pos: self.cur.pos(),
            errors: errors_view(self.errors@),
            filter: if self.filtered {
                Some(names_view(self.accepted_sections@))
            } else {
                None
            },
            finished: self.finished,
            depth: self.depth as nat,
        }
    }
}

impl<'a> Parser<'a> {

    /// The capacities that the parser was given.
    pub closed spec fn capacities(&self) -> Capacities {
        Capacities {
            section: self.section_capacity,
            row: self.row_capacity,
            array: self.array_capacity,
        }
    }

    /// A parser at the start of `s` that takes every section.
    pub fn new(s: &'a str) -> (parser: Parser<'a>)
        ensures
            parser@ == (ParserView {
                input: s@,
                pos: 0,
                errors: Seq::empty(),
                filter: None,
                finished: false,
                depth: 0,
            }),
            parser.capacities() == (Capacities { section: 16, row: 8, array: 2 }),
    {
        Parser::new_filtered_opt(s, None)
    }

    /// A parser at the start of `s` that takes the sections named in
    /// `accepted_sections`, each name once for each time it is given.
    pub fn new_filtered(s: &'a str, accepted_sections: Vec<&'a str>) -> (parser: Parser<'a>)
        ensures
            parser@ == (ParserView {
                input: s@,
                pos: 0,
                errors: Seq::empty(),
                filter: Some(strs_view(accepted_sections@)),
                finished: false,
                depth: 0,
            }),
            parser.capacities() == (Capacities { section: 16, row: 8, array: 2 }),
    {
        Parser::new_filtered_opt(s, Some(accepted_sections))
    }

    /// A parser at the start of `s`, with or without a filter.
    fn new_filtered_opt(s: &'a str, accepted_sections: Option<Vec<&'a str>>) -> (parser: Parser<
        'a,
    >)
        ensures
            parser@ == (ParserView {
                input: s@,
                pos: 0,
                errors: Seq::empty(),
                filter: match accepted_sections {
                    Some(names) => Some(strs_view(names@)),
                    None => None,
                },
                finished: false,
                depth: 0,
            }),
            parser.capacities() == (Capacities { section: 16, row: 8, array: 2 }),
    {
        let mut names: Vec<String> = Vec::new();
        let filtered = match &accepted_sections {
            Some(given) => {
                let mut i: usize = 0;
                while i < given.len()
                    invariant
                        i <= given@.len(),
                        names@.len() == i,
                        forall|k: int| 0 <= k < i ==> (#[trigger] names@[k])@ == given@[k]@,
                    decreases given@.len() - i,
                {
                    names.push(given[i].to_owned());
                    i = i + 1;
                }
                assert(names_view(names@) =~= strs_view(given@));
                true
            },
            None => false,
        };
        let parser = Parser {
            cur: Cursor::new(s),
            errors: Vec::new(),
            filtered,
            accepted_sections: names,
            finished: false,
            depth: 0,
            section_capacity: 16,
            row_capacity: 8,
            array_capacity: 2,
        };
        assert(parser@.errors =~= Seq::empty());
        parser
    }

    /// The same parser, with room for `section_capacity` rows in each section.
    pub fn with_section_capacity(self, section_capacity: usize) -> (parser: Parser<'a>)
        ensures
            parser@ == self@,
            parser.capacities() == (Capacities {
                section: section_capacity,
                row: self.capacities().row,
                array: self.capacities().array,
            }),
    {
        let mut parser = self;
        parser.section_capacity = section_capacity;
        parser
    }

    /// The same parser, with room for `row_capacity` cells in each row.
    pub fn with_row_capacity(self, row_capacity: usize) -> (parser: Parser<'a>)
        ensures
            parser@ == self@,
            parser.capacities() == (Capacities {
                section: self.capacities().section,
                row: row_capacity,
                array: self.capacities().array,
            }),
    {
        let mut parser = self;
        parser.row_capacity = row_capacity;
        parser
    }

    /// The same parser, with room for `array_capacity` items in each array.
    pub fn with_array_capacity(self, array_capacity: usize) -> (parser: Parser<'a>)
        ensures
            parser@ == self@,
            parser.capacities() == (Capacities {
                section: self.capacities().section,
                row: self.capacities().row,
                array: array_capacity,
            }),
    {
        let mut parser = self;
        parser.array_capacity = array_capacity;
        parser
    }

    /// The errors recorded so far, in order.
    pub fn errors(&self) -> (errors: &Vec<ParserError>)
        ensures
            errors_view(errors@) == self@.errors,
    {
        &self.errors
    }

    /// Records the error `message` at the cursor.
    fn add_error(&mut self, message: &str)
        ensures
            final(self)@ == (ParserView {
                errors: old(self)@.errors.push(
                    error_at(old(self)@.input, old(self)@.pos, message@),
                ),
                ..old(self)@
            }),
            final(self).capacities() == old(self).capacities(),
    {
        let (lo, hi) = self.cur.window();
        let ghost before = self.errors@;
        let error = ParserError { lo, hi, desc: message.to_owned() };
        self.errors.push(error);
        assert(errors_view(self.errors@) =~= errors_view(before).push(error@));
    }

    /// Reads a string literal; the cursor stands before its opening quote.
    pub fn finish_string(&mut self) -> (r: Option<Value>)
        ensures
            final(self)@ =~= old(self)@.advanced(string_at(old(self)@.input, old(self)@.pos)),
            option_view(r) == string_at(old(self)@.input, old(self)@.pos).value,
            final(self).capacities() == old(self).capacities(),
            0 <= old(self)@.pos <= final(self)@.pos <= old(self)@.input.len(),
            r is Some ==> old(self)@.pos < final(self)@.pos,
    {
        self.cur.next();
        match self.cur.take_until_exclusive('"') {
            Some(text) => Some(Value::String(unescape_string_text(text))),
            None => None,
        }
    }

    /// Reads a run of decimal digits.
    fn integer(&mut self) -> (r: Option<&'a str>)
        ensures
            final(self)@ =~= (ParserView {
                pos: digits_end(old(self)@.input, old(self)@.pos),
                ..old(self)@
            }),
            final(self).capacities() == old(self).capacities(),
            0 <= old(self)@.pos <= final(self)@.pos <= old(self)@.input.len(),
            match r {
                Some(text) => old(self)@.pos < final(self)@.pos && text@ == old(
                    self,
                )@.input.subrange(old(self)@.pos, final(self)@.pos),
                None => old(self)@.pos == final(self)@.pos,
            },
            forall|k: int|
                old(self)@.pos <= k < final(self)@.pos ==> is_digit(#[trigger] old(self)@.input[k]),
    {
        let r = self.cur.take_while(is_digit);
        proof {
            lemma_run_end_unique(
                old(self)@.input,
                old(self)@.pos,
                self@.pos,
                |c: char| is_digit(c),
            );
        }
        r
    }

    /// Reads a number: an integer, or a float where a point follows the
    /// first run of digits.
    pub fn number(&mut self) -> (r: Option<Value>)
        ensures
            final(self)@ =~= old(self)@.advanced(number_at(old(self)@.input, old(self)@.pos)),
            option_view(r) == number_at(old(self)@.input, old(self)@.pos).value,
            final(self).capacities() == old(self).capacities(),
            0 <= old(self)@.pos <= final(self)@.pos <= old(self)@.input.len(),
            r is Some ==> old(self)@.pos < final(self)@.pos,
    {
        let ghost s = self@.input;
        let ghost i = self@.pos;
        let whole = match self.integer() {
            Some(text) => text,
            None => {
                return None;
            },
        };
        let ghost d = self@.pos;
        if self.cur.eat('.') {
            match self.integer() {
                Some(fraction) => {
                    proof {
                        reveal_strlit(".");
                        assert("."@ == seq!['.']);
                    }
                    let mut text = whole.to_owned();
                    text.append(".");
                    text.append(fraction);
                    assert(text@ == s.subrange(i, self@.pos));
                    Some(Value::Float(text))
                },
                None => None,
            }
        } else {
            assert(s.subrange(i, d) == whole@);
            match parse_decimal(whole) {
                Some(n) => Some(Value::Integer(n)),
                None => None,
            }
        }
    }

    /// Reads a boolean: the word `true` or the word `false`.
    pub fn boolean(&mut self) -> (r: Option<Value>)
        ensures
            final(self)@ =~= old(self)@.advanced(boolean_at(old(self)@.input, old(self)@.pos)),
            option_view(r) == boolean_at(old(self)@.input, old(self)@.pos).value,
            final(self).capacities() == old(self).capacities(),
            0 <= old(self)@.pos <= final(self)@.pos <= old(self)@.input.len(),
            r is Some ==> old(self)@.pos < final(self)@.pos,
    {
        proof {
            reveal_strlit("true");
            reveal_strlit("false");
        }
        if self.cur.eat_word("true") {
            Some(Value::Boolean(true))
        } else if self.cur.eat_word("false") {
            Some(Value::Boolean(false))
        } else {
            None
        }
    }

    /// Reads a key: a run of key characters that is not empty.
    fn key_name(&mut self) -> (r: Option<&'a str>)
        ensures
            final(self)@ =~= (ParserView {
                pos: key_end(old(self)@.input, old(self)@.pos),
                ..old(self)@
            }),
            final(self).capacities() == old(self).capacities(),
            0 <= old(self)@.pos <= final(self)@.pos <= old(self)@.input.len(),
            match r {
                Some(text) => old(self)@.pos < final(self)@.pos && text@ == old(
                    self,
                )@.input.subrange(old(self)@.pos, final(self)@.pos),
                None => old(self)@.pos == final(self)@.pos,
            },
    {
        let r = self.cur.take_while(is_key_char);
        proof {
            lemma_run_end_unique(
                old(self)@.input,
                old(self)@.pos,
                self@.pos,
                |c: char| is_key_char(c),
            );
        }
        r
    }

    /// Reads the `=` between a key and its value, with the blanks around it.
    /// Without a `=` the cursor is left after the blanks.
    fn keyval_sep(&mut self) -> (found: bool)
        ensures
            final(self)@ =~= (ParserView {
                pos: if found {
                    skip_blanks(
                        old(self)@.input,
                        skip_blanks(old(self)@.input, old(self)@.pos) + 1,
                    )
                } else {
                    skip_blanks(old(self)@.input, old(self)@.pos)
                },
                ..old(self)@
            }),
            final(self).capacities() == old(self).capacities(),
            0 <= old(self)@.pos <= final(self)@.pos <= old(self)@.input.len(),
            old(self)@.pos <= skip_blanks(old(self)@.input, old(self)@.pos) <= final(self)@.pos,
            found ==> skip_blanks(old(self)@.input, old(self)@.pos) < final(self)@.pos,
            found == (skip_blanks(old(self)@.input, old(self)@.pos) < old(self)@.input.len()
                && old(self)@.input[skip_blanks(old(self)@.input, old(self)@.pos)] == '='),
    {
        self.cur.skip_whitespace();
        if !self.cur.eat('=') {
            return false;
        }
        self.cur.skip_whitespace();
        true
    }

    /// Reads a comment; the cursor stands before its `#`.
    pub fn comment(&mut self) -> (r: Option<Element>)
        ensures
            final(self)@ =~= old(self)@.advanced(comment_at(old(self)@.input, old(self)@.pos)),
            element_view(r) == comment_at(old(self)@.input, old(self)@.pos).value,
            final(self).capacities() == old(self).capacities(),
            0 <= old(self)@.pos <= final(self)@.pos <= old(self)@.input.len(),
            r is Some ==> old(self)@.pos < final(self)@.pos,
    {
        if !self.cur.eat('#') {
            return None;
        }
        let text = match self.cur.take_until_inclusive('\n') {
            Some(text) => text.to_owned(),
            None => {
                let empty = String::new();
                assert(empty@ == self@.input.subrange(self@.pos, self@.pos));
                empty
            },
        };
        Some(Element::Comment(text))
    }

    /// Reads one table cell: the text up to the next `|` that does not
    /// follow a backslash, without the white space at its end, escapes
    /// resolved. Blanks before the cell are passed over.
    pub fn cell(&mut self) -> (text: String)
        ensures
            final(self)@ =~= (ParserView {
                pos: exclusive_end(
                    old(self)@.input,
                    skip_blanks(old(self)@.input, old(self)@.pos),
                    '|',
                ),
                ..old(self)@
            }),
            final(self).capacities() == old(self).capacities(),
            0 <= old(self)@.pos <= final(self)@.pos <= old(self)@.input.len(),
            skip_blanks(old(self)@.input, old(self)@.pos) < old(self)@.input.len() ==> skip_blanks(
                old(self)@.input,
                old(self)@.pos,
            ) < final(self)@.pos,
            text@ == (if skip_blanks(old(self)@.input, old(self)@.pos) < old(self)@.input.len() {
                cell_at(old(self)@.input, skip_blanks(old(self)@.input, old(self)@.pos))
            } else {
                Seq::empty()
            }),
    {
        self.cur.skip_whitespace();
        match self.cur.take_until_exclusive('|') {
            Some(text) => clean_cell_text(text),
            None => String::new(),
        }
    }

    /// Reads a table row; the cursor stands before its first `|`. The row
    /// ends before a comment, after a line break, and at the end of the input.
    pub fn row(&mut self) -> (r: Option<Element>)
        ensures
            final(self)@ =~= old(self)@.advanced(row_at(old(self)@.input, old(self)@.pos)),
            element_view(r) == row_at(old(self)@.input, old(self)@.pos).value,
            r is Some,
            final(self).capacities() == old(self).capacities(),
            0 <= old(self)@.pos <= final(self)@.pos <= old(self)@.input.len(),
            old(self)@.pos < old(self)@.input.len() && old(self)@.input[old(self)@.pos] == '|'
                ==> old(self)@.pos < final(self)@.pos,
    {
        let mut cells: Vec<Value> = Vec::with_capacity(self.row_capacity);
        let ghost s = self@.input;
        let ghost goal = row_at(s, self@.pos);
        self.cur.eat('|');
        let ghost start = self@.pos;
        assert(values_view(cells@) =~= Seq::<ValueView>::empty());
        loop
            invariant
                self@ =~= (ParserView { pos: self@.pos, ..old(self)@ }),
                self.capacities() == old(self).capacities(),
                s == old(self)@.input,
                0 <= old(self)@.pos <= start <= self@.pos <= s.len(),
                old(self)@.pos < s.len() && s[old(self)@.pos] == '|' ==> old(self)@.pos < start,
                goal == row_at(s, old(self)@.pos),
                goal == row_cells(s, self@.pos, values_view(cells@)),
            decreases s.len() - self@.pos,
        {
            let ghost here = self@.pos;
            self.cur.skip_whitespace();
            let ghost j = self@.pos;
            proof {
                lemma_run_end(s, here, |c: char| is_blank(c));
            }
            match self.cur.peek() {
                Some(c) => {
                    if c == '#' {
                        return Some(Element::Row(cells));
                    }
                    if self.cur.skip_newline() {
                        return Some(Element::Row(cells));
                    }
                    assert(skip_blanks(s, j) == j);
                    let text = self.cell();
                    proof {
                        lemma_values_view_push(cells@, Value::String(text));
                    }
                    cells.push(Value::String(text));
                },
                None => {
                    return Some(Element::Row(cells));
                },
            }
        }
    }

    /// Reads the name in a section header and moves past the header; the
    /// cursor stands before its `[`.
    pub fn section_name(&mut self) -> (name: String)
        ensures
            final(self)@ =~= (ParserView {
                pos: header_end(old(self)@.input, old(self)@.pos),
                ..old(self)@
            }),
            final(self).capacities() == old(self).capacities(),
            0 <= old(self)@.pos <= final(self)@.pos <= old(self)@.input.len(),
            old(self)@.pos < old(self)@.input.len() && old(self)@.input[old(self)@.pos] == '['
                ==> old(self)@.pos < final(self)@.pos,
            name@ == header_name(old(self)@.input, old(self)@.pos),
    {
        self.cur.eat('[');
        self.cur.skip_whitespace();
        let ghost from = self@.pos;
        let in_name = |c: char| -> (b: bool)
            ensures
                b == (c != ']'),
            { c != ']' };
        let name = match self.cur.take_while(in_name) {
            Some(name) => name.to_owned(),
            None => {
                let empty = String::new();
                assert(empty@ == self@.input.subrange(from, from));
                empty
            },
        };
        proof {
            lemma_find_char_unique(self@.input, from, self@.pos, ']');
        }
        self.cur.eat(']');
        name
    }

    /// Puts the section `name` to the filter. `Some(true)`: the section is
    /// taken, and its name struck once from the names asked for.
    /// `Some(false)`: it is passed over. `None`: no name is left to ask for.
    pub fn is_section_accepted(&mut self, name: &str) -> (r: Option<bool>)
        ensures
            final(self).capacities() == old(self).capacities(),
            match accept(old(self)@.filter, name@) {
                Verdict::Accepted(rest) => r == Some(true) && final(self)@ =~= (ParserView {
                    filter: rest,
                    ..old(self)@
                }),
                Verdict::Rejected => r == Some(false) && final(self)@ =~= old(self)@,
                Verdict::Exhausted => r == None::<bool> && final(self)@ =~= old(self)@,
            },
    {
        if !self.filtered {
            return Some(true);
        }
        if self.accepted_sections.len() == 0 {
            return None;
        }
        let probe = collect_chars(name);
        let ghost names = names_view(self.accepted_sections@);
        let mut i: usize = 0;
        while i < self.accepted_sections.len()
            invariant
                *self == *old(self),
                self.filtered,
                names == names_view(self.accepted_sections@),
                probe@ == name@,
                i <= self.accepted_sections@.len(),
                first_match(names, name@, 0) == first_match(names, name@, i as int),
            decreases self.accepted_sections@.len() - i,
        {
            match compare_key(self.accepted_sections[i].as_str(), &probe) {
                Rank::Same => {
                    self.accepted_sections.remove(i);
                    assert(names_view(self.accepted_sections@) =~= names.remove(i as int));
                    return Some(true);
                },
                _ => {},
            }
            i = i + 1;
        }
        Some(false)
    }

    /// Reads a value: a string, an array, a dictionary, a number or a
    /// boolean, after blanks, at most one line break, and blanks again. A
    /// character that starts none of these, and the end of the input, is
    /// recorded as an error.
    pub fn value(&mut self) -> (r: Option<Value>)
        ensures
            final(self)@ =~= old(self)@.advanced(
                value_at(old(self)@.input, old(self)@.pos, old(self)@.depth),
            ),
            option_view(r) == value_at(old(self)@.input, old(self)@.pos, old(self)@.depth).value,
            final(self).capacities() == old(self).capacities(),
            0 <= old(self)@.pos <= final(self)@.pos <= old(self)@.input.len(),
            r is Some ==> old(self)@.pos < final(self)@.pos,
        decreases old(self)@.input.len() - old(self)@.pos, 1int,
    {
        self.cur.skip_whitespace();
        self.cur.skip_newline();
        self.cur.skip_whitespace();
        match self.cur.peek() {
            Some(c) => {
                if c == '"' {
                    self.finish_string()
                } else if c == '[' {
                    self.finish_array()
                } else if c == '{' {
                    self.finish_dictionary()
                } else if is_digit(c) {
                    self.number()
                } else if c == 't' || c == 'f' {
                    self.boolean()
                } else {
                    self.add_error(CANNOT_READ_VALUE);
                    None
                }
            },
            None => {
                self.add_error(CANNOT_READ_VALUE);
                None
            },
        }
    }

    /// Reads an array; the cursor stands before its `[`. The end of the
    /// input before `]` is recorded as an error, and so is an array that
    /// would nest deeper than `MAX_DEPTH`.
    pub fn finish_array(&mut self) -> (r: Option<Value>)
        ensures
            final(self)@ =~= old(self)@.advanced(
                array_at(old(self)@.input, old(self)@.pos, old(self)@.depth),
            ),
            option_view(r) == array_at(old(self)@.input, old(self)@.pos, old(self)@.depth).value,
            final(self).capacities() == old(self).capacities(),
            0 <= old(self)@.pos <= final(self)@.pos <= old(self)@.input.len(),
            r is Some ==> old(self)@.pos < final(self)@.pos,
        decreases old(self)@.input.len() - old(self)@.pos, 0int,
    {
        let ghost s = self@.input;
        let ghost origin = self@;
        let ghost goal = array_at(s, self@.pos, self@.depth);
        if self.cur.peek().is_none() {
            self.add_error(CANNOT_FINISH_ARRAY);
            return None;
        }
        if self.depth >= MAX_DEPTH {
            self.add_error(CANNOT_READ_VALUE);
            return None;
        }
        self.cur.next();
        self.depth = self.depth + 1;
        let mut items: Vec<Value> = Vec::with_capacity(self.array_capacity);
        assert(values_view(items@) =~= Seq::<ValueView>::empty());
        loop
            invariant
                origin == old(self)@,
                s == origin.input,
                goal == array_at(s, origin.pos, origin.depth),
                origin.depth < MAX_DEPTH,
                self@ =~= (ParserView {
                    pos: self@.pos,
                    errors: self@.errors,
                    depth: origin.depth + 1,
                    ..origin
                }),
                self.capacities() == old(self).capacities(),
                0 <= origin.pos < self@.pos <= s.len(),
                array_items(s, self@.pos, values_view(items@), origin.depth + 1).after(
                    self@.errors,
                ) =~= goal.after(origin.errors),
            decreases s.len() - self@.pos,
        {
            let ghost here = self@.pos;
            let ghost acc = values_view(items@);
            self.cur.skip_whitespace();
            match self.cur.peek() {
                Some(c) => {
                    if c == ']' {
                        self.cur.next();
                        self.depth = self.depth - 1;
                        return Some(Value::Array(items));
                    } else if c == ',' {
                        self.cur.next();
                    } else {
                        let ghost before = self@;
                        match self.value() {
                            Some(v) => {
                                proof {
                                    lemma_values_view_push(items@, v);
                                    let item = value_at(s, before.pos, before.depth);
                                    let rest = array_items(
                                        s,
                                        item.end,
                                        acc.push(v@),
                                        before.depth,
                                    );
                                    assert(array_items(s, here, acc, before.depth) == rest.after(
                                        item.errors,
                                    ));
                                    assert(rest.after(item.errors).after(before.errors) =~= rest.after(
                                        before.errors + item.errors,
                                    ));
                                }
                                items.push(v);
                            },
                            None => {
                                self.depth = self.depth - 1;
                                return None;
                            },
                        }
                    }
                },
                None => {
                    self.add_error(CANNOT_FINISH_ARRAY);
                    self.depth = self.depth - 1;
                    return None;
                },
            }
        }
    }

    /// Reads a dictionary; the cursor stands before its `{`. An entry that
    /// cannot be read, and the end of the input before `}`, is recorded as an
    /// error, and so is a dictionary that would nest deeper than `MAX_DEPTH`.
    pub fn finish_dictionary(&mut self) -> (r: Option<Value>)
        ensures
            final(self)@ =~= old(self)@.advanced(
                dictionary_at(old(self)@.input, old(self)@.pos, old(self)@.depth),
            ),
            option_view(r) == dictionary_at(
                old(self)@.input,
                old(self)@.pos,
                old(self)@.depth,
            ).value,
            final(self).capacities() == old(self).capacities(),
            0 <= old(self)@.pos <= final(self)@.pos <= old(self)@.input.len(),
            r is Some ==> old(self)@.pos < final(self)@.pos,
        decreases old(self)@.input.len() - old(self)@.pos, 0int,
    {
        let ghost s = self@.input;
        let ghost origin = self@;
        let ghost goal = dictionary_at(s, self@.pos, self@.depth);
        if self.cur.peek().is_none() {
            self.add_error(CANNOT_FINISH_DICTIONARY);
            return None;
        }
        if self.depth >= MAX_DEPTH {
            self.add_error(CANNOT_READ_VALUE);
            return None;
        }
        self.cur.next();
        self.depth = self.depth + 1;
        let mut entries = Dictionary::new();
        loop
            invariant
                origin == old(self)@,
                s == origin.input,
                goal == dictionary_at(s, origin.pos, origin.depth),
                origin.depth < MAX_DEPTH,
                self@ =~= (ParserView {
                    pos: self@.pos,
                    errors: self@.errors,
                    depth: origin.depth + 1,
                    ..origin
                }),
                self.capacities() == old(self).capacities(),
                0 <= origin.pos < self@.pos <= s.len(),
                dictionary_entries(s, self@.pos, entries@, origin.depth + 1).after(self@.errors)
                    =~= goal.after(origin.errors),
            decreases s.len() - self@.pos,
        {
            let ghost here = self@.pos;
            let ghost acc = entries@;
            self.cur.skip_whitespace();
            match self.cur.peek() {
                Some(c) => {
                    if c == '}' {
                        self.cur.next();
                        self.depth = self.depth - 1;
                        return Some(Value::Dictionary(entries));
                    } else if c == ',' || c == '\n' {
                        self.cur.next();
                    } else {
                        let ghost before = self@;
                        match self.key_value() {
                            Some(kv) => {
                                proof {
                                    let entry = entry_at(s, before.pos, before.depth);
                                    let rest = dictionary_entries(
                                        s,
                                        entry.end,
                                        acc.insert(kv.0@, kv.1@),
                                        before.depth,
                                    );
                                    assert(dictionary_entries(s, here, acc, before.depth)
                                        == rest.after(entry.errors));
                                    assert(rest.after(entry.errors).after(before.errors) =~= rest.after(
                                        before.errors + entry.errors,
                                    ));
                                }
                                entries.insert(kv.0, kv.1);
                            },
                            None => {
                                self.add_error(CANNOT_FINISH_DICTIONARY);
                                self.depth = self.depth - 1;
                                return None;
                            },
                        }
                    }
                },
                None => {
                    self.add_error(CANNOT_FINISH_DICTIONARY);
                    self.depth = self.depth - 1;
                    return None;
                },
            }
        }
    }

    /// Reads a key, `=` and a value.
    fn key_value(&mut self) -> (r: Option<(String, Value)>)
        ensures
            final(self)@ =~= old(self)@.advanced(
                entry_at(old(self)@.input, old(self)@.pos, old(self)@.depth),
            ),
            match r {
                Some(kv) => entry_at(old(self)@.input, old(self)@.pos, old(self)@.depth).value
                    == Some((kv.0@, kv.1@)),
                None => entry_at(old(self)@.input, old(self)@.pos, old(self)@.depth).value is None,
            },
            final(self).capacities() == old(self).capacities(),
            0 <= old(self)@.pos <= final(self)@.pos <= old(self)@.input.len(),
            r is Some ==> old(self)@.pos < final(self)@.pos,
        decreases old(self)@.input.len() - old(self)@.pos, 1int,
    {
        let key = match self.key_name() {
            Some(key) => key,
            None => {
                return None;
            },
        };
        if !self.keyval_sep() {
            return None;
        }
        match self.value() {
            Some(value) => Some((key.to_owned(), value)),
            None => None,
        }
    }

    /// Reads an entry: a key, `=` and a value.
    pub fn entry(&mut self) -> (r: Option<Element>)
        ensures
            final(self)@ =~= old(self)@.advanced(
                entry_element_at(old(self)@.input, old(self)@.pos, old(self)@.depth),
            ),
            element_view(r) == entry_element_at(
                old(self)@.input,
                old(self)@.pos,
                old(self)@.depth,
            ).value,
            final(self).capacities() == old(self).capacities(),
            0 <= old(self)@.pos <= final(self)@.pos <= old(self)@.input.len(),
            r is Some ==> old(self)@.pos < final(self)@.pos,
    {
        match self.key_value() {
            Some(kv) => Some(Element::Entry(kv.0, kv.1)),
            None => None,
        }
    }

    /// Yields the next element of the input, or nothing: at the end of the
    /// input, where an entry cannot be read, and, for good, at the first
    /// header after every section asked for has been found.
    pub fn next_element(&mut self) -> (r: Option<Element>)
        ensures
            final(self)@ =~= old(self)@.stepped(next_step(old(self)@)),
            element_view(r) == next_step(old(self)@).element,
            final(self).capacities() == old(self).capacities(),
            final(self)@.input == old(self)@.input,
            (final(self)@.filter is Some) == (old(self)@.filter is Some),
            old(self)@.pos <= final(self)@.pos,
            r is Some ==> 0 <= old(self)@.pos < final(self)@.pos <= old(self)@.input.len(),
    {
        if self.finished {
            return None;
        }
        let ghost origin = self@;
        let ghost s = self@.input;
        let mut open = true;
        loop
            invariant
                origin == old(self)@,
                s == origin.input,
                !origin.finished,
                self@ =~= (ParserView { pos: self@.pos, ..origin }),
                self.capacities() == old(self).capacities(),
                origin.pos <= self@.pos,
                next_step(origin) == scan_element(s, self@.pos, origin.filter, open, origin.depth),
            decreases s.len() - self@.pos,
        {
            self.cur.skip_whitespace();
            let ghost j = self@.pos;
            if self.cur.skip_newline() {
                continue;
            }
            let c = match self.cur.peek() {
                Some(c) => c,
                None => {
                    return None;
                },
            };
            if c == '[' {
                let name = self.section_name();
                match self.is_section_accepted(name.as_str()) {
                    Some(accepted) => {
                        if accepted {
                            return Some(Element::Section(name));
                        }
                        open = false;
                    },
                    None => {
                        self.finished = true;
                        return None;
                    },
                }
            }
            if !open {
                let ghost from = self@.pos;
                self.cur.skip_line();
                proof {
                    if from == j {
                        lemma_find_char(s, j + 1, '\n');
                        assert(line_end(s, j) == find_char(s, j + 1, '\n'));
                    }
                }
                continue;
            }
            if c == '|' {
                return self.row();
            } else if c == '#' {
                return self.comment();
            } else {
                return self.entry();
            }
        }
    }

    /// Reads the input to the end of its stream of elements and assembles
    /// the document. If any error was recorded, before or while reading,
    /// there is no document.
    pub fn read(&mut self) -> (r: Option<Document>)
        ensures
            final(self)@ =~= stream_of(old(self)@).rest,
            final(self).capacities() == old(self).capacities(),
            match r {
                Some(document) => read_result(old(self)@) == Some(document@),
                None => read_result(old(self)@) is None,
            },
    {
        let mut document = Document::new();
        let mut section = Section::with_capacity(self.section_capacity);
        let mut name: Option<String> = None;
        let ghost origin = self@;
        let ghost goal = stream_of(origin);
        loop
            invariant
                origin == old(self)@,
                goal == stream_of(origin),
                self.capacities() == old(self).capacities(),
                self@.input == origin.input,
                (self@.filter is Some) == (origin.filter is Some),
                stream_of(self@).rest == goal.rest,
                (Assembly {
                    document: document@,
                    name: text_view(name),
                    section: section@,
                }).absorb_all(stream_of(self@).elements) == Assembly::start().absorb_all(
                    goal.elements,
                ),
            decreases self@.input.len() - self@.pos,
        {
            let ghost before = self@;
            let ghost assembly = Assembly {
                document: document@,
                name: text_view(name),
                section: section@,
            };
            match self.next_element() {
                Some(element) => {
                    proof {
                        let step = next_step(before);
                        let tail = stream_of(before.stepped(step));
                        let all = seq![element@] + tail.elements;
                        assert(stream_of(before).elements == all);
                        assert(all.drop_first() =~= tail.elements);
                        assert(assembly.absorb_all(all) == assembly.absorb(element@).absorb_all(
                            tail.elements,
                        ));
                    }
                    match element {
                        Element::Section(header) => {
                            match name {
                                Some(open) => {
                                    document.insert(open, section);
                                },
                                None => {},
                            }
                            name = Some(header);
                            section = Section::with_capacity(self.section_capacity);
                        },
                        Element::Row(row) => {
                            let ghost rows = section.rows@;
                            section.rows.push(row);
                            assert(rows_view(section.rows@) =~= rows_view(rows).push(
                                values_view(row@),
                            ));
                        },
                        Element::Entry(key, value) => {
                            section.dictionary.insert(key, value);
                        },
                        Element::Comment(_) => {},
                    }
                },
                None => {
                    match name {
                        Some(open) => {
                            document.insert(open, section);
                        },
                        None => {
                            if !self.filtered {
                                document.insert(ROOT.to_owned(), section);
                            }
                        },
                    }
                    if self.errors.len() > 0 {
                        return None;
                    } else {
                        return Some(document);
                    }
                },
            }
        }
    }
}

} // verus!
