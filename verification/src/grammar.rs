//! The grammar as mathematics: what each production reads from a text at a
//! position, where it leaves the cursor, and which errors it records.
//!
//! A position only moves forward and never leaves the text. Where a
//! definition continues after a production that it has just read, it first
//! compares the positions: the comparison always holds, as the laws on
//! advancing in `laws` prove, and it makes the definition's termination
//! evident.

use vstd::prelude::*;
use crate::cursor::{exclusive_end, inclusive_end};
use crate::offsets::byte_offset;
use crate::document::SectionView;
use crate::element::{ElementView, ErrorView};
use crate::text::{
    after_newline, decimal_value, find_char, has_word, is_digit, is_key_char, line_end, run_end,
    skip_blanks, slice_end, trim_end, unescape_cell, unescape_string,
};
use crate::value::ValueView;

verus! {

/// The message of the error for a character that starts no value.
pub const CANNOT_READ_VALUE: &'static str = "Cannot read a value";

/// The message of the error for an array that the input ends in.
pub const CANNOT_FINISH_ARRAY: &'static str = "Cannot finish an array";

/// The message of the error for a dictionary that does not reach its `}`.
pub const CANNOT_FINISH_DICTIONARY: &'static str = "Cannot finish a dictionary";

/// How deep arrays and dictionaries may nest: a value that stands by itself
/// may hold this many levels of them, one in the other.
pub const MAX_DEPTH: usize = 128;

/// The name of the section that holds what stands before the first header.
pub const ROOT: &'static str = "root";

/// What a production read: its value if it succeeded, where it left the
/// cursor, and the errors it recorded, in order.
#[verifier::ext_equal]
pub struct Parsed<T> {
    pub value: Option<T>,
    pub end: int,
    pub errors: Seq<ErrorView>,
}

impl<T> Parsed<T> {
    /// Success with `value`, the cursor left at `end`.
    pub open spec fn found(value: T, end: int) -> Parsed<T> {
        Parsed { value: Some(value), end, errors: Seq::empty() }
    }

    /// Failure without an error, the cursor left at `end`.
    pub open spec fn nothing(end: int) -> Parsed<T> {
        Parsed { value: None, end, errors: Seq::empty() }
    }

    /// Failure with the errors `errors`, the cursor left at `end`.
    pub open spec fn failed(end: int, errors: Seq<ErrorView>) -> Parsed<T> {
        Parsed { value: None, end, errors }
    }

    /// The same outcome, reached after `earlier` errors.
    pub open spec fn after(self, earlier: Seq<ErrorView>) -> Parsed<T> {
        Parsed { value: self.value, end: self.end, errors: earlier + self.errors }
    }
}

/// The error with message `desc` noticed at index `i` of `s`: its window
/// starts at the character there and ends at the one after it, both as byte
/// offsets, and is cut at the end of the input.
pub open spec fn error_at(s: Seq<char>, i: int, desc: Seq<char>) -> ErrorView {
    ErrorView {
        lo: byte_offset(s, i),
        hi: byte_offset(
            s,
            if i < s.len() {
                i + 1
            } else {
                i
            },
        ),
        desc,
    }
}

/// The position after one character, if there is one at `i`.
pub open spec fn bump(s: Seq<char>, i: int) -> int {
    if i < s.len() {
        i + 1
    } else {
        i
    }
}

/// Where a run of decimal digits that starts at `i` ends.
pub open spec fn digits_end(s: Seq<char>, i: int) -> int {
    run_end(s, i, |c: char| is_digit(c))
}

/// Where a run of key characters that starts at `i` ends.
pub open spec fn key_end(s: Seq<char>, i: int) -> int {
    run_end(s, i, |c: char| is_key_char(c))
}

/// Where the `=` of an entry that starts at `i` is looked for: after the key
/// and the blanks behind it.
pub open spec fn separator_at(s: Seq<char>, i: int) -> int {
    skip_blanks(s, key_end(s, i))
}

/// Where a value may start after `i`: past blanks, at most one line break,
/// and blanks again.
pub open spec fn gap_end(s: Seq<char>, i: int) -> int {
    skip_blanks(s, after_newline(s, skip_blanks(s, i)))
}

/// A string literal whose opening quote stands at `i`. The text runs to the
/// next quote that does not follow a backslash, or to the end of the input:
/// a literal that is not closed is no error. There is no value only where
/// the input ends with the opening quote.
pub open spec fn string_at(s: Seq<char>, i: int) -> Parsed<ValueView> {
    let k = bump(s, i);
    if k < s.len() {
        Parsed::found(
            ValueView::String(unescape_string(s.subrange(k, slice_end(s, k, '"')))),
            exclusive_end(s, k, '"'),
        )
    } else {
        Parsed::nothing(k)
    }
}

/// A number that starts at `i`: a run of digits is an integer, and a float
/// where a point and a second run of digits follow. There is no value where a
/// run is empty or the integer does not fit 64 bits.
pub open spec fn number_at(s: Seq<char>, i: int) -> Parsed<ValueView> {
    let d = digits_end(s, i);
    if d <= i {
        Parsed::nothing(i)
    } else if d < s.len() && s[d] == '.' {
        let f = digits_end(s, d + 1);
        if f <= d + 1 {
            Parsed::nothing(d + 1)
        } else {
            Parsed::found(ValueView::Float(s.subrange(i, f)), f)
        }
    } else if decimal_value(s.subrange(i, d)) <= i64::MAX {
        Parsed::found(ValueView::Integer(decimal_value(s.subrange(i, d)) as int), d)
    } else {
        Parsed::nothing(d)
    }
}

/// A boolean that starts at `i`: the word `true` or the word `false`.
pub open spec fn boolean_at(s: Seq<char>, i: int) -> Parsed<ValueView> {
    if has_word(s, i, "true"@) {
        Parsed::found(ValueView::Boolean(true), i + "true"@.len())
    } else if has_word(s, i, "false"@) {
        Parsed::found(ValueView::Boolean(false), i + "false"@.len())
    } else {
        Parsed::nothing(i)
    }
}

/// A value after `i`, `depth` levels deep in arrays and dictionaries: a
/// string, an array, a dictionary, a number or a boolean, told apart by the
/// first character after the gap. Any other character, and the end of the
/// input, is an error.
pub open spec fn value_at(s: Seq<char>, i: int, depth: nat) -> Parsed<ValueView>
    decreases s.len() - i, 2int,
{
    let j = gap_end(s, i);
    if 0 <= i <= j < s.len() {
        if s[j] == '"' {
            string_at(s, j)
        } else if s[j] == '[' {
            array_at(s, j, depth)
        } else if s[j] == '{' {
            dictionary_at(s, j, depth)
        } else if is_digit(s[j]) {
            number_at(s, j)
        } else if s[j] == 't' || s[j] == 'f' {
            boolean_at(s, j)
        } else {
            Parsed::failed(j, seq![error_at(s, j, CANNOT_READ_VALUE@)])
        }
    } else {
        Parsed::failed(j, seq![error_at(s, j, CANNOT_READ_VALUE@)])
    }
}

/// The rest of an array from `i` on, `items` read so far, its items `depth`
/// levels deep: values, with commas between them that are skipped, up to
/// `]`. A value that fails, fails the array; the end of the input is an error.
pub open spec fn array_items(
    s: Seq<char>,
    i: int,
    items: Seq<ValueView>,
    depth: nat,
) -> Parsed<ValueView>
    decreases s.len() - i, 3int,
{
    let j = skip_blanks(s, i);
    if 0 <= i <= j < s.len() {
        if s[j] == ']' {
            Parsed::found(ValueView::Array(items), j + 1)
        } else if s[j] == ',' {
            array_items(s, j + 1, items, depth)
        } else {
            let item = value_at(s, j, depth);
            match item.value {
                Some(v) => {
                    if j < item.end <= s.len() {
                        array_items(s, item.end, items.push(v), depth).after(item.errors)
                    } else {
                        Parsed::failed(item.end, item.errors)
                    }
                },
                None => Parsed::failed(item.end, item.errors),
            }
        }
    } else {
        Parsed::failed(j, seq![error_at(s, j, CANNOT_FINISH_ARRAY@)])
    }
}

/// An array whose `[` stands at `i`, `depth` levels deep. At the end of the
/// input there is none, which is an error. One that would nest deeper than
/// `MAX_DEPTH` is not read: it is an error at its `[`.
pub open spec fn array_at(s: Seq<char>, i: int, depth: nat) -> Parsed<ValueView>
    decreases s.len() - i, 1int,
{
    if !(0 <= i < s.len()) {
        Parsed::failed(i, seq![error_at(s, i, CANNOT_FINISH_ARRAY@)])
    } else if depth >= MAX_DEPTH {
        Parsed::failed(i, seq![error_at(s, i, CANNOT_READ_VALUE@)])
    } else {
        array_items(s, i + 1, Seq::empty(), depth + 1)
    }
}

/// The rest of a dictionary from `i` on, `entries` read so far, its values
/// `depth` levels deep: entries, with commas and line feeds between them that
/// are skipped, up to `}`. A later entry replaces an earlier one with its
/// key. An entry that fails, and the end of the input, is an error.
pub open spec fn dictionary_entries(
    s: Seq<char>,
    i: int,
    entries: Map<Seq<char>, ValueView>,
    depth: nat,
) -> Parsed<ValueView>
    decreases s.len() - i, 3int,
{
    let j = skip_blanks(s, i);
    if 0 <= i <= j < s.len() {
        if s[j] == '}' {
            Parsed::found(ValueView::Dictionary(entries), j + 1)
        } else if s[j] == ',' || s[j] == '\n' {
            dictionary_entries(s, j + 1, entries, depth)
        } else {
            let entry = entry_at(s, j, depth);
            match entry.value {
                Some(kv) => {
                    if j < entry.end <= s.len() {
                        dictionary_entries(
                            s,
                            entry.end,
                            entries.insert(kv.0, kv.1),
                            depth,
                        ).after(entry.errors)
                    } else {
                        Parsed::failed(entry.end, entry.errors)
                    }
                },
                None => Parsed::failed(
                    entry.end,
                    entry.errors.push(error_at(s, entry.end, CANNOT_FINISH_DICTIONARY@)),
                ),
            }
        }
    } else {
        Parsed::failed(j, seq![error_at(s, j, CANNOT_FINISH_DICTIONARY@)])
    }
}

/// A dictionary whose `{` stands at `i`, `depth` levels deep. At the end of
/// the input there is none, which is an error. One that would nest deeper
/// than `MAX_DEPTH` is not read: it is an error at its `{`.
pub open spec fn dictionary_at(s: Seq<char>, i: int, depth: nat) -> Parsed<ValueView>
    decreases s.len() - i, 1int,
{
    if !(0 <= i < s.len()) {
        Parsed::failed(i, seq![error_at(s, i, CANNOT_FINISH_DICTIONARY@)])
    } else if depth >= MAX_DEPTH {
        Parsed::failed(i, seq![error_at(s, i, CANNOT_READ_VALUE@)])
    } else {
        dictionary_entries(s, i + 1, Map::empty(), depth + 1)
    }
}

/// An entry that starts at `i`, its value `depth` levels deep: a key, which
/// is a run of key characters that is not empty, then `=` with blanks around
/// it, then a value. Without a key or without `=` there is no entry and no
/// error.
pub open spec fn entry_at(s: Seq<char>, i: int, depth: nat) -> Parsed<(Seq<char>, ValueView)>
    decreases s.len() - i, 2int,
{
    let k = key_end(s, i);
    let b = separator_at(s, i);
    if 0 <= i < k <= b {
        if b < s.len() && s[b] == '=' {
            if b < skip_blanks(s, b + 1) <= s.len() {
                let v = value_at(s, skip_blanks(s, b + 1), depth);
                Parsed {
                    value: match v.value {
                        Some(value) => Some((s.subrange(i, k), value)),
                        None => None,
                    },
                    end: v.end,
                    errors: v.errors,
                }
            } else {
                Parsed::nothing(b)
            }
        } else {
            Parsed::nothing(b)
        }
    } else {
        Parsed::nothing(i)
    }
}

/// A comment whose `#` stands at `i`: its text is what follows the `#` up to
/// and with the line feed that ends the line, or up to the end of the input.
pub open spec fn comment_at(s: Seq<char>, i: int) -> Parsed<ElementView> {
    if 0 <= i < s.len() && s[i] == '#' {
        Parsed::found(
            ElementView::Comment(s.subrange(i + 1, inclusive_end(s, i + 1, '\n'))),
            inclusive_end(s, i + 1, '\n'),
        )
    } else {
        Parsed::nothing(i)
    }
}

/// The text of the table cell that starts at `i`: up to the next `|` that
/// does not follow a backslash, without the white space at its end, escapes
/// resolved.
pub open spec fn cell_at(s: Seq<char>, i: int) -> Seq<char> {
    unescape_cell(trim_end(s.subrange(i, slice_end(s, i, '|'))))
}

/// The rest of a table row from `i` on, `cells` read so far. The row ends
/// before a comment, after a line break, and at the end of the input.
pub open spec fn row_cells(s: Seq<char>, i: int, cells: Seq<ValueView>) -> Parsed<ElementView>
    decreases s.len() - i,
{
    let j = skip_blanks(s, i);
    if 0 <= i <= j < s.len() {
        if s[j] == '#' {
            Parsed::found(ElementView::Row(cells), j)
        } else if after_newline(s, j) > j {
            Parsed::found(ElementView::Row(cells), after_newline(s, j))
        } else if j < exclusive_end(s, j, '|') <= s.len() {
            row_cells(s, exclusive_end(s, j, '|'), cells.push(ValueView::String(cell_at(s, j))))
        } else {
            Parsed::found(ElementView::Row(cells), j)
        }
    } else {
        Parsed::found(ElementView::Row(cells), j)
    }
}

/// A table row whose first `|` stands at `i`.
pub open spec fn row_at(s: Seq<char>, i: int) -> Parsed<ElementView> {
    row_cells(
        s,
        if 0 <= i < s.len() && s[i] == '|' {
            i + 1
        } else {
            i
        },
        Seq::empty(),
    )
}

/// An entry that starts at `i`, its value `depth` levels deep, as an element.
pub open spec fn entry_element_at(s: Seq<char>, i: int, depth: nat) -> Parsed<ElementView> {
    let entry = entry_at(s, i, depth);
    Parsed {
        value: match entry.value {
            Some(kv) => Some(ElementView::Entry(kv.0, kv.1)),
            None => None,
        },
        end: entry.end,
        errors: entry.errors,
    }
}

/// Where the name of the section header whose `[` stands at `i` starts:
/// after the `[` and the blanks that follow it.
pub open spec fn header_name_start(s: Seq<char>, i: int) -> int {
    skip_blanks(
        s,
        if 0 <= i < s.len() && s[i] == '[' {
            i + 1
        } else {
            i
        },
    )
}

/// The name in the section header whose `[` stands at `i`: the text up to
/// `]`, or to the end of the input.
pub open spec fn header_name(s: Seq<char>, i: int) -> Seq<char> {
    s.subrange(header_name_start(s, i), find_char(s, header_name_start(s, i), ']'))
}

/// Where the section header whose `[` stands at `i` ends: after its `]`.
pub open spec fn header_end(s: Seq<char>, i: int) -> int {
    inclusive_end(s, header_name_start(s, i), ']')
}

/// What the filter says of a section.
pub enum Verdict {
    /// The section is taken; the filter that remains is given.
    Accepted(Option<Seq<Seq<char>>>),
    /// The section is passed over.
    Rejected,
    /// Every name asked for has been found: the stream ends.
    Exhausted,
}

/// The index of the first of `names` from `i` on that is `name`, or the
/// length.
pub open spec fn first_match(names: Seq<Seq<char>>, name: Seq<char>, i: int) -> int
    decreases names.len() - i,
{
    if 0 <= i < names.len() && names[i] != name {
        first_match(names, name, i + 1)
    } else {
        i
    }
}

/// What `filter` says of the section `name`. Without a filter every section
/// is taken. With one, a section is taken if its name is still among the
/// names asked for, and that name is then struck from them once; when no name
/// is left, the next header ends the stream.
pub open spec fn accept(filter: Option<Seq<Seq<char>>>, name: Seq<char>) -> Verdict {
    match filter {
        None => Verdict::Accepted(None),
        Some(names) => {
            if names.len() == 0 {
                Verdict::Exhausted
            } else if first_match(names, name, 0) < names.len() {
                Verdict::Accepted(Some(names.remove(first_match(names, name, 0))))
            } else {
                Verdict::Rejected
            }
        },
    }
}

/// What a parser is, as far as its results depend on it.
#[verifier::ext_equal]
pub struct ParserView {
    /// The text that is read.
    pub input: Seq<char>,
    /// The index of the character that the cursor stands before.
    pub pos: int,
    /// The errors recorded so far.
    pub errors: Seq<ErrorView>,
    /// The names of the sections still asked for, where sections are filtered.
    pub filter: Option<Seq<Seq<char>>>,
    /// The stream of elements has ended for good.
    pub finished: bool,
    /// How many arrays and dictionaries the cursor stands in.
    pub depth: nat,
}

impl ParserView {
    /// The parser after a production with the outcome `parsed`.
    pub open spec fn advanced<T>(self, parsed: Parsed<T>) -> ParserView {
        ParserView {
            input: self.input,
            pos: parsed.end,
            errors: self.errors + parsed.errors,
            filter: self.filter,
            finished: self.finished,
            depth: self.depth,
        }
    }

    /// The parser after the step `step` of the element stream.
    pub open spec fn stepped(self, step: Step) -> ParserView {
        ParserView {
            input: self.input,
            pos: step.end,
            errors: self.errors + step.errors,
            filter: step.filter,
            finished: step.finished,
            depth: self.depth,
        }
    }
}

/// One step of the element stream: the element, if any, where the cursor is
/// left, the errors recorded, the filter that remains, and whether the stream
/// has ended for good.
#[verifier::ext_equal]
pub struct Step {
    pub element: Option<ElementView>,
    pub end: int,
    pub errors: Seq<ErrorView>,
    pub filter: Option<Seq<Seq<char>>>,
    pub finished: bool,
}

impl Step {
    /// The end of the stream at `end`.
    pub open spec fn stop(end: int, filter: Option<Seq<Seq<char>>>, finished: bool) -> Step {
        Step { element: None, end, errors: Seq::empty(), filter, finished }
    }

    /// The step that yields what `parsed` read.
    pub open spec fn of(parsed: Parsed<ElementView>, filter: Option<Seq<Seq<char>>>) -> Step {
        Step {
            element: parsed.value,
            end: parsed.end,
            errors: parsed.errors,
            filter,
            finished: false,
        }
    }
}

/// The next element from `i` on, with the values of entries `depth` levels
/// deep. Blank lines are passed over. A header is
/// put to the filter: a section that is taken is the element; one that is
/// passed over is skipped line by line, up to a header that is taken or to
/// the end of the input (`open` is false from then on); and once no name is
/// left to ask for, a header ends the stream for good. Otherwise the
/// element is a row, a comment or an entry, told apart by the first character.
pub open spec fn scan_element(
    s: Seq<char>,
    i: int,
    filter: Option<Seq<Seq<char>>>,
    open: bool,
    depth: nat,
) -> Step
    decreases s.len() - i,
{
    let j = skip_blanks(s, i);
    if 0 <= i <= j < s.len() {
        if after_newline(s, j) > j {
            scan_element(s, after_newline(s, j), filter, open, depth)
        } else if s[j] == '[' {
            match accept(filter, header_name(s, j)) {
                Verdict::Accepted(rest) => Step {
                    element: Some(ElementView::Section(header_name(s, j))),
                    end: header_end(s, j),
                    errors: Seq::empty(),
                    filter: rest,
                    finished: false,
                },
                Verdict::Rejected => {
                    if j < line_end(s, header_end(s, j)) <= s.len() {
                        scan_element(s, line_end(s, header_end(s, j)), filter, false, depth)
                    } else {
                        Step::stop(j, filter, false)
                    }
                },
                Verdict::Exhausted => Step::stop(header_end(s, j), filter, true),
            }
        } else if !open {
            if j < line_end(s, j) <= s.len() {
                scan_element(s, line_end(s, j), filter, false, depth)
            } else {
                Step::stop(j, filter, false)
            }
        } else if s[j] == '|' {
            Step::of(row_at(s, j), filter)
        } else if s[j] == '#' {
            Step::of(comment_at(s, j), filter)
        } else {
            Step::of(entry_element_at(s, j, depth), filter)
        }
    } else {
        Step::stop(j, filter, false)
    }
}

/// The next step of the element stream of `parser`. A stream that has ended
/// for good yields nothing and leaves the parser as it is.
pub open spec fn next_step(parser: ParserView) -> Step {
    if parser.finished {
        Step::stop(parser.pos, parser.filter, true)
    } else {
        scan_element(parser.input, parser.pos, parser.filter, true, parser.depth)
    }
}

/// The elements that a parser yields up to the first step without one.
#[verifier::ext_equal]
pub struct Stream {
    /// The elements, in order.
    pub elements: Seq<ElementView>,
    /// The parser after the step without an element.
    pub rest: ParserView,
}

/// The element stream of `parser`.
pub open spec fn stream_of(parser: ParserView) -> Stream
    decreases parser.input.len() - parser.pos,
{
    let step = next_step(parser);
    match step.element {
        Some(element) => {
            if parser.pos < step.end <= parser.input.len() {
                let tail = stream_of(parser.stepped(step));
                Stream { elements: seq![element] + tail.elements, rest: tail.rest }
            } else {
                Stream { elements: Seq::empty(), rest: parser.stepped(step) }
            }
        },
        None => Stream { elements: Seq::empty(), rest: parser.stepped(step) },
    }
}

/// A document under assembly: the sections committed so far, and the
/// section that is open, with its name if a header has been seen.
#[verifier::ext_equal]
pub struct Assembly {
    pub document: Map<Seq<char>, SectionView>,
    pub name: Option<Seq<char>>,
    pub section: SectionView,
}

impl Assembly {
    /// Nothing committed, and an empty section without a name open.
    pub open spec fn start() -> Assembly {
        Assembly { document: Map::empty(), name: None, section: SectionView::empty() }
    }

    /// The assembly after `element`. A header commits the open section under
    /// its name, over a section committed under that name before, and opens
    /// an empty one; what stood before the first header is dropped there. A
    /// row is appended to the open section, an entry written into it, a
    /// comment dropped.
    pub open spec fn absorb(self, element: ElementView) -> Assembly {
        match element {
            ElementView::Section(name) => Assembly {
                document: match self.name {
                    Some(open) => self.document.insert(open, self.section),
                    None => self.document,
                },
                name: Some(name),
                section: SectionView::empty(),
            },
            ElementView::Row(cells) => Assembly {
                document: self.document,
                name: self.name,
                section: SectionView {
                    dictionary: self.section.dictionary,
                    rows: self.section.rows.push(cells),
                },
            },
            ElementView::Entry(key, value) => Assembly {
                document: self.document,
                name: self.name,
                section: SectionView {
                    dictionary: self.section.dictionary.insert(key, value),
                    rows: self.section.rows,
                },
            },
            ElementView::Comment(_) => self,
        }
    }

    /// The assembly after each of `elements`, in order.
    pub open spec fn absorb_all(self, elements: Seq<ElementView>) -> Assembly
        decreases elements.len(),
    {
        if elements.len() == 0 {
            self
        } else {
            self.absorb(elements[0]).absorb_all(elements.drop_first())
        }
    }

    /// The document at the end of the stream. The open section is committed
    /// under its name. Where no header was seen, it is committed as `root`
    /// if sections are not filtered, and dropped if they are.
    pub open spec fn finish(self, filtered: bool) -> Map<Seq<char>, SectionView> {
        match self.name {
            Some(open) => self.document.insert(open, self.section),
            None => {
                if filtered {
                    self.document
                } else {
                    self.document.insert(ROOT@, self.section)
                }
            },
        }
    }
}

/// The document that `elements` assemble to.
pub open spec fn document_of(elements: Seq<ElementView>, filtered: bool) -> Map<
    Seq<char>,
    SectionView,
> {
    Assembly::start().absorb_all(elements).finish(filtered)
}

/// What reading `parser` to the end of its stream gives: the document that
/// its elements assemble to, or nothing if any error was recorded, before or
/// while reading.
pub open spec fn read_result(parser: ParserView) -> Option<Map<Seq<char>, SectionView>> {
    if stream_of(parser).rest.errors.len() == 0 {
        Some(document_of(stream_of(parser).elements, parser.filter is Some))
    } else {
        None
    }
}

} // verus!
