//! What holds of the grammar for every input: laws proved from the
//! definitions that the contracts of the parser are stated in.

use vstd::prelude::*;
use crate::cursor::{exclusive_end, inclusive_end};
use crate::offsets::{byte_offset, lemma_byte_offset_step};
use crate::document::SectionView;
use crate::element::ElementView;
use crate::grammar::{
    accept, array_items, comment_at, dictionary_entries, digits_end, document_of, entry_at,
    boolean_at, cell_at, error_at, first_match, gap_end, header_end, header_name,
    header_name_start, key_end, next_step, number_at, read_result, row_cells, scan_element,
    separator_at, stream_of, string_at, value_at, Assembly, Parsed, ParserView, Step, Stream,
    Verdict, CANNOT_READ_VALUE, MAX_DEPTH, ROOT,
};
use crate::render::{decimal_digits, digit_char, escape, escape_char, integer_text, quoted};
use crate::text::{
    after_newline, find_char, is_blank, is_digit, is_key_char, lemma_find_char,
    all_digits, decimal_value, find_unescaped, has_word, lemma_find_unescaped,
    lemma_find_unescaped_unique, lemma_replace_pair_absent, lemma_run_end, lemma_run_end_unique,
    line_end, replace_pair, run_end, skip_blanks, slice_end, unescape_string,
};
use crate::value::ValueView;

verus! {

/// A slice up to an unescaped `delim` that starts inside the text ends
/// inside it, and the cursor is left after the slice.
pub proof fn lemma_exclusive_end(s: Seq<char>, i: int, delim: char)
    requires
        0 <= i < s.len(),
    ensures
        i <= slice_end(s, i, delim) <= s.len(),
        slice_end(s, i, delim) <= exclusive_end(s, i, delim) <= s.len(),
        i < exclusive_end(s, i, delim),
{
    lemma_find_unescaped(s, i + 1, delim);
}

/// A slice up to and with `delim` ends inside the text.
pub proof fn lemma_inclusive_end(s: Seq<char>, i: int, delim: char)
    requires
        0 <= i <= s.len(),
    ensures
        i <= inclusive_end(s, i, delim) <= s.len(),
        i < s.len() ==> i < inclusive_end(s, i, delim),
{
    lemma_find_char(s, i, delim);
}

/// The gap before a value ends inside the text.
pub proof fn lemma_gap_end(s: Seq<char>, i: int)
    requires
        0 <= i <= s.len(),
    ensures
        i <= gap_end(s, i) <= s.len(),
{
    lemma_run_end(s, i, |c: char| is_blank(c));
    let a = skip_blanks(s, i);
    let b = after_newline(s, a);
    lemma_run_end(s, b, |c: char| is_blank(c));
}

/// A value that is read leaves the cursor further on, inside the text, and
/// records no error; one that is not read does not move the cursor back.
pub proof fn lemma_value_advances(s: Seq<char>, i: int, depth: nat)
    requires
        0 <= i <= s.len(),
    ensures
        i <= value_at(s, i, depth).end <= s.len(),
        value_at(s, i, depth).value is Some ==> i < value_at(s, i, depth).end && value_at(
            s,
            i,
            depth,
        ).errors.len() == 0,
    decreases s.len() - i, 2int,
{
    lemma_gap_end(s, i);
    let j = gap_end(s, i);
    if j < s.len() {
        if s[j] == '"' {
            if j + 1 < s.len() {
                lemma_exclusive_end(s, j + 1, '"');
            }
        } else if s[j] == '[' {
            if depth < MAX_DEPTH {
                lemma_array_advances(s, j + 1, Seq::empty(), depth + 1);
            }
        } else if s[j] == '{' {
            if depth < MAX_DEPTH {
                lemma_dictionary_advances(s, j + 1, Map::empty(), depth + 1);
            }
        } else if is_digit(s[j]) {
            lemma_run_end(s, j, |c: char| is_digit(c));
            let d = digits_end(s, j);
            if d < s.len() {
                lemma_run_end(s, d + 1, |c: char| is_digit(c));
            }
        } else if s[j] == 't' || s[j] == 'f' {
            reveal_strlit("true");
            reveal_strlit("false");
        }
    }
}

/// An array that is read leaves the cursor further on, inside the text, and
/// records no error; one that is not read does not move the cursor back.
pub proof fn lemma_array_advances(s: Seq<char>, i: int, items: Seq<ValueView>, depth: nat)
    requires
        0 <= i <= s.len(),
    ensures
        i <= array_items(s, i, items, depth).end <= s.len(),
        array_items(s, i, items, depth).value is Some ==> i < array_items(s, i, items, depth).end
            && array_items(s, i, items, depth).errors.len() == 0,
    decreases s.len() - i, 3int,
{
    lemma_run_end(s, i, |c: char| is_blank(c));
    let j = skip_blanks(s, i);
    if j < s.len() {
        if s[j] == ']' {
        } else if s[j] == ',' {
            lemma_array_advances(s, j + 1, items, depth);
        } else {
            lemma_value_advances(s, j, depth);
            let item = value_at(s, j, depth);
            if item.value is Some {
                lemma_array_advances(s, item.end, items.push(item.value->0), depth);
            }
        }
    }
}

/// A dictionary that is read leaves the cursor further on, inside the text,
/// and records no error; one that is not read does not move the cursor back.
pub proof fn lemma_dictionary_advances(
    s: Seq<char>,
    i: int,
    entries: Map<Seq<char>, ValueView>,
    depth: nat,
)
    requires
        0 <= i <= s.len(),
    ensures
        i <= dictionary_entries(s, i, entries, depth).end <= s.len(),
        dictionary_entries(s, i, entries, depth).value is Some ==> i < dictionary_entries(
            s,
            i,
            entries,
            depth,
        ).end && dictionary_entries(s, i, entries, depth).errors.len() == 0,
    decreases s.len() - i, 3int,
{
    lemma_run_end(s, i, |c: char| is_blank(c));
    let j = skip_blanks(s, i);
    if j < s.len() {
        if s[j] == '}' {
        } else if s[j] == ',' || s[j] == '\n' {
            lemma_dictionary_advances(s, j + 1, entries, depth);
        } else {
            lemma_entry_advances(s, j, depth);
            let entry = entry_at(s, j, depth);
            if entry.value is Some {
                let kv = entry.value->0;
                lemma_dictionary_advances(s, entry.end, entries.insert(kv.0, kv.1), depth);
            }
        }
    }
}

/// An entry that is read leaves the cursor further on, inside the text, and
/// records no error; one that is not read does not move the cursor back.
pub proof fn lemma_entry_advances(s: Seq<char>, i: int, depth: nat)
    requires
        0 <= i <= s.len(),
    ensures
        i <= entry_at(s, i, depth).end <= s.len(),
        entry_at(s, i, depth).value is Some ==> i < entry_at(s, i, depth).end && entry_at(
            s,
            i,
            depth,
        ).errors.len() == 0,
    decreases s.len() - i, 2int,
{
    lemma_run_end(s, i, |c: char| is_key_char(c));
    let k = key_end(s, i);
    lemma_run_end(s, k, |c: char| is_blank(c));
    let b = skip_blanks(s, k);
    if i < k && b < s.len() && s[b] == '=' {
        lemma_run_end(s, b + 1, |c: char| is_blank(c));
        lemma_value_advances(s, skip_blanks(s, b + 1), depth);
    }
}

/// No character of `text` needs an escape inside a string literal.
pub open spec fn is_plain(text: Seq<char>) -> bool {
    forall|k: int|
        0 <= k < text.len() ==> #[trigger] text[k] != '"' && text[k] != '\\' && text[k] != '\n'
}

/// `text` holds no backslash.
pub open spec fn has_no_backslash(text: Seq<char>) -> bool {
    forall|k: int| 0 <= k < text.len() ==> #[trigger] text[k] != '\\'
}

/// A text that needs no escape is written as it is.
pub proof fn lemma_escape_plain(text: Seq<char>)
    requires
        is_plain(text),
    ensures
        escape(text) == text,
    decreases text.len(),
{
    if text.len() > 0 {
        lemma_escape_plain(text.drop_last());
        assert(text == text.drop_last() + seq![text.last()]);
    }
}

/// How a character is written once the escapes of line feeds are resolved:
/// only a quote still has its backslash.
pub open spec fn escape_quote(c: char) -> Seq<char> {
    if c == '"' {
        seq!['\\', '"']
    } else {
        seq![c]
    }
}

/// A text written with `write` for each of its characters.
pub open spec fn written(text: Seq<char>, write: spec_fn(char) -> Seq<char>) -> Seq<char>
    decreases text.len(),
{
    if text.len() == 0 {
        Seq::empty()
    } else {
        written(text.drop_last(), write) + write(text.last())
    }
}

/// Writing a text character by character is writing its first character
/// and then the rest.
pub proof fn lemma_written_front(text: Seq<char>, write: spec_fn(char) -> Seq<char>)
    requires
        text.len() > 0,
    ensures
        written(text, write) == write(text[0]) + written(text.drop_first(), write),
    decreases text.len(),
{
    if text.len() == 1 {
        assert(text.drop_last() == Seq::<char>::empty());
        assert(text.drop_first() == Seq::<char>::empty());
        assert(written(text.drop_last(), write) == Seq::<char>::empty());
        assert(text.last() == text[0]);
        assert(written(text, write) == Seq::<char>::empty() + write(text[0]));
        assert(written(text, write) == write(text[0]) + Seq::<char>::empty());
    } else {
        lemma_written_front(text.drop_last(), write);
        assert(text.drop_last().drop_first() == text.drop_first().drop_last());
        assert(text.drop_first().last() == text.last());
        assert(text.drop_last()[0] == text[0]);
        let first = write(text[0]);
        let middle = written(text.drop_first().drop_last(), write);
        let last = write(text.last());
        assert(written(text, write) == (first + middle) + last);
        assert(written(text.drop_first(), write) == middle + last);
        assert((first + middle) + last == first + (middle + last));
    }
}

/// The escapes of a text are written character by character.
pub proof fn lemma_escape_is_written(text: Seq<char>)
    ensures
        escape(text) == written(text, |c: char| escape_char(c)),
    decreases text.len(),
{
    if text.len() > 0 {
        lemma_escape_is_written(text.drop_last());
    }
}

/// In the escapes of a text without a backslash, a backslash is followed by
/// `n` or a quote, a quote follows a backslash, and no backslash stands last.
pub proof fn lemma_escape_shape(text: Seq<char>)
    requires
        has_no_backslash(text),
    ensures
        forall|k: int|
            0 <= k < escape(text).len() && #[trigger] escape(text)[k] == '\\' ==> k + 1 < escape(
                text,
            ).len() && (escape(text)[k + 1] == 'n' || escape(text)[k + 1] == '"'),
        forall|k: int|
            0 <= k < escape(text).len() && #[trigger] escape(text)[k] == '"' ==> k >= 1 && escape(
                text,
            )[k - 1] == '\\',
        escape(text).len() > 0 ==> escape(text).last() != '\\',
        escape(text).len() >= text.len(),
    decreases text.len(),
{
    if text.len() > 0 {
        let head = escape(text.drop_last());
        let tail = escape_char(text.last());
        assert(text.last() != '\\');
        assert forall|k: int| 0 <= k < text.drop_last().len() implies #[trigger] text.drop_last()[k]
            != '\\' by {
            assert(text.drop_last()[k] == text[k]);
        }
        lemma_escape_shape(text.drop_last());
        let all = head + tail;
        assert(escape(text) == all);
        assert forall|k: int| 0 <= k < all.len() && #[trigger] all[k] == '\\' implies k + 1
            < all.len() && (all[k + 1] == 'n' || all[k + 1] == '"') by {
            if k < head.len() {
                assert(all[k] == head[k]);
                assert(k + 1 < head.len());
                assert(all[k + 1] == head[k + 1]);
            } else {
                assert(all[k] == tail[k - head.len()]);
                assert(k == head.len());
                assert(all[k + 1] == tail[1]);
            }
        }
        assert forall|k: int| 0 <= k < all.len() && #[trigger] all[k] == '"' implies k >= 1
            && all[k - 1] == '\\' by {
            if k < head.len() {
                assert(all[k] == head[k]);
                assert(all[k - 1] == head[k - 1]);
            } else {
                assert(all[k] == tail[k - head.len()]);
                assert(k == head.len() + 1);
                assert(all[k - 1] == tail[0]);
            }
        }
        assert(all.last() == tail.last());
    }
}

/// Resolving the escapes of line feeds leaves the escapes of quotes.
pub proof fn lemma_line_feeds_resolved(text: Seq<char>)
    requires
        has_no_backslash(text),
    ensures
        replace_pair(written(text, |c: char| escape_char(c)), '\\', 'n', '\n') == written(
            text,
            |c: char| escape_quote(c),
        ),
    decreases text.len(),
{
    let write = |c: char| escape_char(c);
    let keep = |c: char| escape_quote(c);
    if text.len() > 0 {
        let c = text[0];
        let rest = text.drop_first();
        assert(c != '\\');
        assert forall|k: int| 0 <= k < rest.len() implies #[trigger] rest[k] != '\\' by {
            assert(rest[k] == text[k + 1]);
        }
        lemma_line_feeds_resolved(rest);
        lemma_written_front(text, write);
        lemma_written_front(text, keep);
        let tail = written(rest, write);
        let all = written(text, write);
        if rest.len() > 0 {
            lemma_written_front(rest, write);
            assert(rest[0] != '\\');
        }
        if c == '\n' {
            assert(all == seq!['\\', 'n'] + tail);
            assert(all.skip(2) == tail);
            assert(written(text, keep) == seq!['\n'] + written(rest, keep));
        } else if c == '"' {
            assert(all == seq!['\\', '"'] + tail);
            let inner = all.skip(1);
            assert(inner == seq!['"'] + tail);
            assert(inner.skip(1) == tail);
            if tail.len() == 0 {
                assert(replace_pair(inner, '\\', 'n', '\n') == inner);
                assert(replace_pair(tail, '\\', 'n', '\n') == tail);
            }
            assert(replace_pair(inner, '\\', 'n', '\n') == seq!['"'] + replace_pair(
                tail,
                '\\',
                'n',
                '\n',
            ));
            assert(replace_pair(all, '\\', 'n', '\n') == seq!['\\'] + replace_pair(
                inner,
                '\\',
                'n',
                '\n',
            ));
            assert(written(text, keep) == seq!['\\', '"'] + written(rest, keep));
            assert(seq!['\\'] + (seq!['"'] + written(rest, keep)) == seq!['\\', '"'] + written(
                rest,
                keep,
            ));
        } else {
            assert(all == seq![c] + tail);
            assert(all.skip(1) == tail);
            if tail.len() == 0 {
                assert(replace_pair(all, '\\', 'n', '\n') == all);
                assert(replace_pair(tail, '\\', 'n', '\n') == tail);
            }
            assert(written(text, keep) == seq![c] + written(rest, keep));
        }
    }
}

/// Resolving the escapes of quotes gives the text.
pub proof fn lemma_quotes_resolved(text: Seq<char>)
    requires
        has_no_backslash(text),
    ensures
        replace_pair(written(text, |c: char| escape_quote(c)), '\\', '"', '"') == text,
    decreases text.len(),
{
    let keep = |c: char| escape_quote(c);
    if text.len() > 0 {
        let c = text[0];
        let rest = text.drop_first();
        assert(c != '\\');
        assert forall|k: int| 0 <= k < rest.len() implies #[trigger] rest[k] != '\\' by {
            assert(rest[k] == text[k + 1]);
        }
        lemma_quotes_resolved(rest);
        lemma_written_front(text, keep);
        let tail = written(rest, keep);
        let all = written(text, keep);
        assert(text == seq![c] + rest);
        if c == '"' {
            assert(all == seq!['\\', '"'] + tail);
            assert(all.skip(2) == tail);
        } else {
            assert(all == seq![c] + tail);
            assert(all.skip(1) == tail);
            if tail.len() == 0 {
                assert(replace_pair(all, '\\', '"', '"') == all);
                assert(replace_pair(tail, '\\', '"', '"') == tail);
            }
        }
    }
}

/// Resolving the escapes of what was written for a text without a backslash
/// gives the text.
pub proof fn lemma_unescape_escape(text: Seq<char>)
    requires
        has_no_backslash(text),
    ensures
        unescape_string(escape(text)) == text,
{
    lemma_escape_shape(text);
    lemma_escape_is_written(text);
    lemma_replace_pair_absent(escape(text), '\\', '\\', '\\');
    lemma_line_feeds_resolved(text);
    lemma_quotes_resolved(text);
}

/// Reading back the literal of a string gives the string: for every text
/// without a backslash, the value read from its literal, however deep it
/// stands, is the text, with the cursor left at the end and no error.
pub proof fn lemma_string_round_trip(text: Seq<char>, depth: nat)
    requires
        has_no_backslash(text),
    ensures
        value_at(quoted(text), 0, depth) == Parsed::found(
            ValueView::String(text),
            quoted(text).len() as int,
        ),
{
    lemma_escape_shape(text);
    lemma_unescape_escape(text);
    let inner = escape(text);
    let s = quoted(text);
    let n = s.len() as int;
    assert(n == inner.len() + 2);
    assert(s[0] == '"');
    assert(s[n - 1] == '"');
    assert forall|k: int| 1 <= k < n - 1 implies s[k] == inner[k - 1] by {}
    assert(skip_blanks(s, 0) == 0);
    assert(after_newline(s, 0) == 0);
    assert(gap_end(s, 0) == 0);
    assert(s.subrange(1, n - 1) == inner);
    if inner.len() == 0 {
        assert(slice_end(s, 1, '"') == 1);
    } else {
        assert(s[n - 2] == inner.last());
        assert forall|k: int| 2 <= k < n - 1 implies !(#[trigger] s[k] == '"' && s[k - 1]
            != '\\') by {
            assert(s[k] == inner[k - 1]);
            assert(s[k - 1] == inner[k - 2]);
        }
        lemma_find_unescaped_unique(s, 2, n - 1, '"');
        assert(s[1] == inner[0]);
        assert(slice_end(s, 1, '"') == n - 1);
    }
    assert(string_at(s, 0) == Parsed::found(ValueView::String(text), n));
}

/// The literal of a text that needs no escape is the text between two
/// quotes.
pub proof fn lemma_plain_literal(text: Seq<char>)
    requires
        is_plain(text),
    ensures
        has_no_backslash(text),
        quoted(text) == seq!['"'] + text + seq!['"'],
{
    lemma_escape_plain(text);
}

/// The digits that write a number are decimal digits, at least one, and
/// write that number.
pub proof fn lemma_decimal_digits(n: nat)
    ensures
        decimal_digits(n).len() > 0,
        all_digits(decimal_digits(n)),
        decimal_value(decimal_digits(n)) == n,
    decreases n,
{
    let last = digit_char(n % 10);
    assert(is_digit(last));
    assert(last as nat - '0' as nat == n % 10);
    if n < 10 {
        let one = seq![last];
        assert(one.drop_last() == Seq::<char>::empty());
        assert(decimal_value(one.drop_last()) == 0);
    } else {
        lemma_decimal_digits(n / 10);
        let head = decimal_digits(n / 10);
        assert(head.push(last).drop_last() == head);
    }
}

/// Reading back an integer that is not negative gives the integer: the
/// value read from its digits, however deep it stands, is the number, with
/// the cursor left at the end and no error.
pub proof fn lemma_integer_round_trip(n: nat, depth: nat)
    requires
        n <= i64::MAX,
    ensures
        integer_text(n as int) == decimal_digits(n),
        value_at(integer_text(n as int), 0, depth) == Parsed::found(
            ValueView::Integer(n as int),
            integer_text(n as int).len() as int,
        ),
{
    let s = decimal_digits(n);
    lemma_decimal_digits(n);
    assert(is_digit(s[0]));
    assert(skip_blanks(s, 0) == 0);
    assert(after_newline(s, 0) == 0);
    assert(gap_end(s, 0) == 0);
    lemma_run_end_unique(s, 0, s.len() as int, |c: char| is_digit(c));
    assert(s.subrange(0, s.len() as int) == s);
}

/// Two texts of one length hold the same characters from `k` on, and as
/// many bytes before.
pub open spec fn same_from(a: Seq<char>, b: Seq<char>, k: int) -> bool {
    &&& a.len() == b.len()
    &&& 0 <= k <= a.len()
    &&& forall|m: int| k <= m < a.len() ==> a[m] == b[m]
    &&& byte_offset(a, k) == byte_offset(b, k)
}

/// In texts that are the same from `k` on, a run from there on ends at the
/// same place.
pub proof fn lemma_same_run_end(
    a: Seq<char>,
    b: Seq<char>,
    k: int,
    i: int,
    p: spec_fn(char) -> bool,
)
    requires
        same_from(a, b, k),
        k <= i,
    ensures
        run_end(a, i, p) == run_end(b, i, p),
    decreases a.len() - i,
{
    if i < a.len() && p(a[i]) {
        lemma_same_run_end(a, b, k, i + 1, p);
    }
}

/// In texts that are the same from `k` on, a character is found from there
/// on at the same place.
pub proof fn lemma_same_find_char(a: Seq<char>, b: Seq<char>, k: int, i: int, delim: char)
    requires
        same_from(a, b, k),
        k <= i,
    ensures
        find_char(a, i, delim) == find_char(b, i, delim),
    decreases a.len() - i,
{
    if i < a.len() && a[i] != delim {
        lemma_same_find_char(a, b, k, i + 1, delim);
    }
}

/// In texts that are the same from `k` on, an unescaped character is found
/// behind `k` at the same place.
pub proof fn lemma_same_find_unescaped(a: Seq<char>, b: Seq<char>, k: int, i: int, delim: char)
    requires
        same_from(a, b, k),
        k < i,
    ensures
        find_unescaped(a, i, delim) == find_unescaped(b, i, delim),
    decreases a.len() - i,
{
    if i < a.len() && !(a[i] == delim && a[i - 1] != '\\') {
        lemma_same_find_unescaped(a, b, k, i + 1, delim);
    }
}

/// In texts that are the same from `k` on, the characters from there on
/// have the same byte offsets.
pub proof fn lemma_same_offsets(a: Seq<char>, b: Seq<char>, k: int, i: int)
    requires
        same_from(a, b, k),
        k <= i <= a.len(),
    ensures
        byte_offset(a, i) == byte_offset(b, i),
    decreases i - k,
{
    if k < i {
        lemma_same_offsets(a, b, k, i - 1);
        lemma_byte_offset_step(a, i - 1);
        lemma_byte_offset_step(b, i - 1);
    }
}

/// In texts that are the same from `k` on, an error from there on is the
/// same error.
pub proof fn lemma_same_error(a: Seq<char>, b: Seq<char>, k: int, i: int, desc: Seq<char>)
    requires
        same_from(a, b, k),
        k <= i <= a.len(),
    ensures
        error_at(a, i, desc) == error_at(b, i, desc),
{
    lemma_same_offsets(a, b, k, i);
    if i < a.len() {
        lemma_same_offsets(a, b, k, i + 1);
    }
}

/// In texts that are the same from `k` on, the gap before a value ends at
/// the same place.
pub proof fn lemma_same_gap(a: Seq<char>, b: Seq<char>, k: int, i: int)
    requires
        same_from(a, b, k),
        k <= i <= a.len(),
    ensures
        gap_end(a, i) == gap_end(b, i),
        i <= gap_end(a, i) <= a.len(),
{
    lemma_gap_end(a, i);
    lemma_run_end(a, i, |c: char| is_blank(c));
    lemma_same_run_end(a, b, k, i, |c: char| is_blank(c));
    let j = skip_blanks(a, i);
    lemma_same_run_end(a, b, k, after_newline(a, j), |c: char| is_blank(c));
}

/// In texts that are the same from `k` on, a string, a number and a boolean
/// read from there on are the same.
pub proof fn lemma_same_scalars(a: Seq<char>, b: Seq<char>, k: int, i: int)
    requires
        same_from(a, b, k),
        k <= i < a.len(),
    ensures
        string_at(a, i) == string_at(b, i),
        number_at(a, i) == number_at(b, i),
        boolean_at(a, i) == boolean_at(b, i),
{
    let n = a.len() as int;
    if i + 1 < n {
        lemma_same_find_unescaped(a, b, k, i + 2, '"');
        lemma_exclusive_end(a, i + 1, '"');
        assert(a.subrange(i + 1, slice_end(a, i + 1, '"')) == b.subrange(
            i + 1,
            slice_end(a, i + 1, '"'),
        ));
    }
    lemma_run_end(a, i, |c: char| is_digit(c));
    lemma_same_run_end(a, b, k, i, |c: char| is_digit(c));
    let d = digits_end(a, i);
    assert(a.subrange(i, d) == b.subrange(i, d));
    if d < n {
        lemma_run_end(a, d + 1, |c: char| is_digit(c));
        lemma_same_run_end(a, b, k, d + 1, |c: char| is_digit(c));
        let f = digits_end(a, d + 1);
        assert(a.subrange(i, f) == b.subrange(i, f));
    }
    assert forall|word: Seq<char>| has_word(a, i, word) == has_word(b, i, word) by {
        if i + word.len() <= n {
            assert(a.subrange(i, i + word.len()) == b.subrange(i, i + word.len()));
        }
    }
}

/// What is read depends on nothing before it: in texts that are the same
/// from `k` on, a value read from there on is the same.
pub proof fn lemma_same_value(a: Seq<char>, b: Seq<char>, k: int, i: int, depth: nat)
    requires
        same_from(a, b, k),
        k <= i <= a.len(),
    ensures
        value_at(a, i, depth) == value_at(b, i, depth),
    decreases a.len() - i, 2int,
{
    lemma_same_gap(a, b, k, i);
    let j = gap_end(a, i);
    lemma_same_error(a, b, k, j, CANNOT_READ_VALUE@);
    if j < a.len() {
        lemma_same_scalars(a, b, k, j);
        if a[j] == '[' && depth < MAX_DEPTH {
            lemma_same_array(a, b, k, j + 1, Seq::empty(), depth + 1);
        } else if a[j] == '{' && depth < MAX_DEPTH {
            lemma_same_dictionary(a, b, k, j + 1, Map::empty(), depth + 1);
        }
    }
}

/// In texts that are the same from `k` on, the rest of an array read from
/// there on is the same.
pub proof fn lemma_same_array(
    a: Seq<char>,
    b: Seq<char>,
    k: int,
    i: int,
    items: Seq<ValueView>,
    depth: nat,
)
    requires
        same_from(a, b, k),
        k <= i <= a.len(),
    ensures
        array_items(a, i, items, depth) == array_items(b, i, items, depth),
    decreases a.len() - i, 3int,
{
    lemma_run_end(a, i, |c: char| is_blank(c));
    lemma_same_run_end(a, b, k, i, |c: char| is_blank(c));
    let j = skip_blanks(a, i);
    lemma_same_error(a, b, k, j, crate::grammar::CANNOT_FINISH_ARRAY@);
    if j < a.len() {
        if a[j] == ']' {
        } else if a[j] == ',' {
            lemma_same_array(a, b, k, j + 1, items, depth);
        } else {
            lemma_same_value(a, b, k, j, depth);
            let item = value_at(a, j, depth);
            if item.value is Some && j < item.end <= a.len() {
                lemma_same_array(a, b, k, item.end, items.push(item.value->0), depth);
            }
        }
    }
}

/// In texts that are the same from `k` on, the rest of a dictionary read
/// from there on is the same.
pub proof fn lemma_same_dictionary(
    a: Seq<char>,
    b: Seq<char>,
    k: int,
    i: int,
    entries: Map<Seq<char>, ValueView>,
    depth: nat,
)
    requires
        same_from(a, b, k),
        k <= i <= a.len(),
    ensures
        dictionary_entries(a, i, entries, depth) == dictionary_entries(b, i, entries, depth),
    decreases a.len() - i, 3int,
{
    lemma_run_end(a, i, |c: char| is_blank(c));
    lemma_same_run_end(a, b, k, i, |c: char| is_blank(c));
    let j = skip_blanks(a, i);
    lemma_same_error(a, b, k, j, crate::grammar::CANNOT_FINISH_DICTIONARY@);
    if j < a.len() {
        if a[j] == '}' {
        } else if a[j] == ',' || a[j] == '\n' {
            lemma_same_dictionary(a, b, k, j + 1, entries, depth);
        } else {
            lemma_same_entry(a, b, k, j, depth);
            lemma_entry_advances(a, j, depth);
            let entry = entry_at(a, j, depth);
            lemma_same_error(a, b, k, entry.end, crate::grammar::CANNOT_FINISH_DICTIONARY@);
            if entry.value is Some && j < entry.end <= a.len() {
                let kv = entry.value->0;
                lemma_same_dictionary(a, b, k, entry.end, entries.insert(kv.0, kv.1), depth);
            }
        }
    }
}

/// In texts that are the same from `k` on, an entry read from there on is
/// the same.
pub proof fn lemma_same_entry(a: Seq<char>, b: Seq<char>, k: int, i: int, depth: nat)
    requires
        same_from(a, b, k),
        k <= i <= a.len(),
    ensures
        entry_at(a, i, depth) == entry_at(b, i, depth),
    decreases a.len() - i, 2int,
{
    lemma_run_end(a, i, |c: char| is_key_char(c));
    lemma_same_run_end(a, b, k, i, |c: char| is_key_char(c));
    let e = key_end(a, i);
    lemma_run_end(a, e, |c: char| is_blank(c));
    lemma_same_run_end(a, b, k, e, |c: char| is_blank(c));
    let s = separator_at(a, i);
    assert(a.subrange(i, e) == b.subrange(i, e));
    if i < e && s < a.len() && a[s] == '=' {
        lemma_run_end(a, s + 1, |c: char| is_blank(c));
        lemma_same_run_end(a, b, k, s + 1, |c: char| is_blank(c));
        lemma_same_value(a, b, k, skip_blanks(a, s + 1), depth);
    }
}

/// A blank, a comma or a line feed: what is passed over between the entries
/// of a dictionary.
pub open spec fn is_separator(c: char) -> bool {
    is_blank(c) || c == ',' || c == '\n'
}

/// Between the entries of a dictionary every separator is passed over, and
/// the dictionary goes on behind it.
pub proof fn lemma_dictionary_separators(
    s: Seq<char>,
    i: int,
    entries: Map<Seq<char>, ValueView>,
    depth: nat,
)
    requires
        0 <= i < s.len(),
        is_separator(s[i]),
    ensures
        dictionary_entries(s, i, entries, depth) == dictionary_entries(s, i + 1, entries, depth),
{
    lemma_run_end(s, i + 1, |c: char| is_blank(c));
    if is_blank(s[i]) {
        assert(skip_blanks(s, i) == skip_blanks(s, i + 1));
    } else {
        assert(skip_blanks(s, i) == i);
    }
}

/// Between the entries of a dictionary a comma, a line feed and a blank count
/// alike: where two texts differ in one separator only, for which each has
/// one of these, the dictionaries read from them are the same.
pub proof fn lemma_separators_count_alike(
    before: Seq<char>,
    one: char,
    other: char,
    after: Seq<char>,
    entries: Map<Seq<char>, ValueView>,
    depth: nat,
)
    requires
        is_separator(one),
        is_separator(other),
    ensures
        dictionary_entries(
            before + seq![one] + after,
            before.len() as int,
            entries,
            depth,
        ) == dictionary_entries(
            before + seq![other] + after,
            before.len() as int,
            entries,
            depth,
        ),
{
    let a = before + seq![one] + after;
    let b = before + seq![other] + after;
    let at = before.len() as int;
    assert(a[at] == one);
    assert(b[at] == other);
    lemma_dictionary_separators(a, at, entries, depth);
    lemma_dictionary_separators(b, at, entries, depth);
    assert(a.take(at) == before);
    assert(b.take(at) == before);
    lemma_byte_offset_step(a, at);
    lemma_byte_offset_step(b, at);
    assert(same_from(a, b, at + 1));
    lemma_same_dictionary(a, b, at + 1, at + 1, entries, depth);
}

/// The text of a comment takes in the line feed that ends its line.
pub proof fn lemma_comment_keeps_line_feed(s: Seq<char>, i: int)
    requires
        0 <= i < s.len(),
        s[i] == '#',
        find_char(s, i + 1, '\n') < s.len(),
    ensures
        comment_at(s, i) == Parsed::found(
            ElementView::Comment(s.subrange(i + 1, find_char(s, i + 1, '\n') + 1)),
            find_char(s, i + 1, '\n') + 1,
        ),
        s.subrange(i + 1, find_char(s, i + 1, '\n') + 1).last() == '\n',
{
    lemma_find_char(s, i + 1, '\n');
}

/// A stream that has ended for good yields nothing more, whatever text is
/// left, and the parser stays as it is.
pub proof fn lemma_finished_stream_is_empty(parser: ParserView)
    requires
        parser.finished,
    ensures
        next_step(parser) == Step::stop(parser.pos, parser.filter, true),
        stream_of(parser) == (Stream { elements: Seq::empty(), rest: parser }),
{
    assert(parser.stepped(next_step(parser)) =~= parser);
}

/// None of `elements` is a section header.
pub open spec fn no_header(elements: Seq<ElementView>) -> bool {
    forall|k: int| 0 <= k < elements.len() ==> !(#[trigger] elements[k] is Section)
}

/// None of `elements` is the header of the section `name`.
pub open spec fn no_header_named(elements: Seq<ElementView>, name: Seq<char>) -> bool {
    forall|k: int|
        0 <= k < elements.len() ==> #[trigger] elements[k] != ElementView::Section(name)
}

/// The section that the rows and entries among `body` make.
pub open spec fn section_of(body: Seq<ElementView>) -> SectionView {
    Assembly::start().absorb_all(body).section
}

/// Absorbing one sequence after another is absorbing their concatenation.
pub proof fn lemma_absorb_concat(a: Assembly, x: Seq<ElementView>, y: Seq<ElementView>)
    ensures
        a.absorb_all(x + y) == a.absorb_all(x).absorb_all(y),
    decreases x.len(),
{
    if x.len() == 0 {
        assert(x + y == y);
    } else {
        assert((x + y).drop_first() == x.drop_first() + y);
        lemma_absorb_concat(a.absorb(x[0]), x.drop_first(), y);
    }
}

/// Elements without a header change the open section only, and change it
/// the same way whatever has been committed.
pub proof fn lemma_absorb_body(a: Assembly, b: Assembly, body: Seq<ElementView>)
    requires
        no_header(body),
        a.section == b.section,
    ensures
        a.absorb_all(body).document == a.document,
        a.absorb_all(body).name == a.name,
        a.absorb_all(body).section == b.absorb_all(body).section,
    decreases body.len(),
{
    if body.len() > 0 {
        assert(!(body[0] is Section));
        assert forall|k: int| 0 <= k < body.drop_first().len() implies !(
        #[trigger] body.drop_first()[k] is Section) by {
            assert(body.drop_first()[k] == body[k + 1]);
        }
        lemma_absorb_body(a.absorb(body[0]), b.absorb(body[0]), body.drop_first());
    }
}

/// A section that is committed stays as it is while no header with its name
/// follows.
pub proof fn lemma_committed_section_stays(
    a: Assembly,
    tail: Seq<ElementView>,
    name: Seq<char>,
    filtered: bool,
)
    requires
        a.document.contains_key(name),
        a.name is Some,
        a.name != Some(name),
        no_header_named(tail, name),
    ensures
        a.absorb_all(tail).finish(filtered).contains_key(name),
        a.absorb_all(tail).finish(filtered)[name] == a.document[name],
    decreases tail.len(),
{
    if tail.len() > 0 {
        assert(tail[0] != ElementView::Section(name));
        assert forall|k: int| 0 <= k < tail.drop_first().len() implies #[trigger] tail.drop_first()[k]
            != ElementView::Section(name) by {
            assert(tail.drop_first()[k] == tail[k + 1]);
        }
        lemma_committed_section_stays(a.absorb(tail[0]), tail.drop_first(), name, filtered);
    }
}

/// Of sections with one name the last one counts: where the header of
/// `name` is followed by `body` without a header, and then by nothing or by
/// other sections, none of them named `name`, the document holds under
/// `name` the section that `body` makes, whatever came before.
pub proof fn lemma_last_section_counts(
    before: Seq<ElementView>,
    name: Seq<char>,
    body: Seq<ElementView>,
    tail: Seq<ElementView>,
    filtered: bool,
)
    requires
        no_header(body),
        tail.len() == 0 || tail[0] is Section,
        no_header_named(tail, name),
    ensures
        document_of(
            before + seq![ElementView::Section(name)] + body + tail,
            filtered,
        ).contains_key(name),
        document_of(before + seq![ElementView::Section(name)] + body + tail, filtered)[name]
            == section_of(body),
{
    let header = seq![ElementView::Section(name)];
    let start = Assembly::start();
    lemma_absorb_concat(start, before + header + body, tail);
    lemma_absorb_concat(start, before + header, body);
    lemma_absorb_concat(start, before, header);
    let opened = start.absorb_all(before).absorb_all(header);
    let first = start.absorb_all(before).absorb(header[0]);
    assert(header.drop_first() == Seq::<ElementView>::empty());
    assert(first.absorb_all(header.drop_first()) == first);
    assert(opened == first);
    lemma_absorb_body(opened, start, body);
    let filled = opened.absorb_all(body);
    if tail.len() > 0 {
        assert(tail[0] != ElementView::Section(name));
        assert forall|k: int| 0 <= k < tail.drop_first().len() implies #[trigger] tail.drop_first()[k]
            != ElementView::Section(name) by {
            assert(tail.drop_first()[k] == tail[k + 1]);
        }
        lemma_committed_section_stays(filled.absorb(tail[0]), tail.drop_first(), name, filtered);
    }
}

/// How many of `elements` are the header of the section `name`.
pub open spec fn times_taken(elements: Seq<ElementView>, name: Seq<char>) -> nat
    decreases elements.len(),
{
    if elements.len() == 0 {
        0
    } else {
        times_taken(elements.drop_first(), name) + (if elements[0] == ElementView::Section(name) {
            1nat
        } else {
            0nat
        })
    }
}

/// How many of `names` are `name`.
pub open spec fn times_asked(names: Seq<Seq<char>>, name: Seq<char>) -> nat
    decreases names.len(),
{
    if names.len() == 0 {
        0
    } else {
        times_asked(names.drop_first(), name) + (if names[0] == name {
            1nat
        } else {
            0nat
        })
    }
}

/// Striking one name from the names asked for takes one from its count, and
/// leaves the counts of the other names.
pub proof fn lemma_times_asked_remove(names: Seq<Seq<char>>, name: Seq<char>, i: int)
    requires
        0 <= i < names.len(),
    ensures
        times_asked(names.remove(i), name) + (if names[i] == name {
            1nat
        } else {
            0nat
        }) == times_asked(names, name),
    decreases names.len(),
{
    if i == 0 {
        assert(names.remove(0) == names.drop_first());
    } else {
        assert(names.remove(i).drop_first() == names.drop_first().remove(i - 1));
        assert(names.remove(i)[0] == names[0]);
        lemma_times_asked_remove(names.drop_first(), name, i - 1);
    }
}

/// The first match of a name is an index of the names or their number, and
/// at an index it is the name.
pub proof fn lemma_first_match(names: Seq<Seq<char>>, name: Seq<char>, i: int)
    requires
        0 <= i <= names.len(),
    ensures
        i <= first_match(names, name, i) <= names.len(),
        first_match(names, name, i) < names.len() ==> names[first_match(names, name, i)] == name,
    decreases names.len() - i,
{
    if i < names.len() && names[i] != name {
        lemma_first_match(names, name, i + 1);
    }
}

/// A row is always read, as a row, without an error, and leaves the cursor
/// inside the text.
pub proof fn lemma_row_is_read(s: Seq<char>, i: int, cells: Seq<ValueView>)
    requires
        0 <= i <= s.len(),
    ensures
        row_cells(s, i, cells).value is Some,
        row_cells(s, i, cells).value->0 is Row,
        row_cells(s, i, cells).errors.len() == 0,
        i <= row_cells(s, i, cells).end <= s.len(),
    decreases s.len() - i,
{
    lemma_run_end(s, i, |c: char| is_blank(c));
    let j = skip_blanks(s, i);
    if j < s.len() && s[j] != '#' && after_newline(s, j) <= j {
        lemma_exclusive_end(s, j, '|');
        lemma_row_is_read(
            s,
            exclusive_end(s, j, '|'),
            cells.push(ValueView::String(cell_at(s, j))),
        );
    }
}

/// A step of the stream leaves the cursor inside the text, and further on
/// where it yields an element.
pub proof fn lemma_step_advances(
    s: Seq<char>,
    i: int,
    filter: Option<Seq<Seq<char>>>,
    open: bool,
    depth: nat,
)
    requires
        0 <= i <= s.len(),
    ensures
        i <= scan_element(s, i, filter, open, depth).end <= s.len(),
        scan_element(s, i, filter, open, depth).element is Some ==> i < scan_element(
            s,
            i,
            filter,
            open,
            depth,
        ).end,
    decreases s.len() - i,
{
    lemma_run_end(s, i, |c: char| is_blank(c));
    let j = skip_blanks(s, i);
    if j < s.len() {
        if after_newline(s, j) > j {
            lemma_step_advances(s, after_newline(s, j), filter, open, depth);
        } else if s[j] == '[' {
            lemma_run_end(s, j + 1, |c: char| is_blank(c));
            lemma_inclusive_end(s, header_name_start(s, j), ']');
            lemma_find_char(s, header_end(s, j), '\n');
            let end = line_end(s, header_end(s, j));
            if accept(filter, header_name(s, j)) is Rejected {
                lemma_step_advances(s, end, filter, false, depth);
            }
        } else if !open {
            lemma_find_char(s, j, '\n');
            let end = line_end(s, j);
            if j < end {
                lemma_step_advances(s, end, filter, false, depth);
            }
        } else if s[j] == '|' {
            lemma_row_is_read(s, j + 1, Seq::empty());
        } else if s[j] == '#' {
            lemma_inclusive_end(s, j + 1, '\n');
        } else {
            lemma_entry_advances(s, j, depth);
        }
    }
}

/// A step of the stream changes the filter only by taking a section: the
/// name of the section that is the element is struck from the names asked
/// for, and no other step touches them.
pub proof fn lemma_step_filter(
    s: Seq<char>,
    i: int,
    filter: Option<Seq<Seq<char>>>,
    open: bool,
    depth: nat,
)
    ensures
        match scan_element(s, i, filter, open, depth).element {
            Some(ElementView::Section(name)) => accept(filter, name) == Verdict::Accepted(
                scan_element(s, i, filter, open, depth).filter,
            ),
            _ => scan_element(s, i, filter, open, depth).filter == filter,
        },
    decreases s.len() - i,
{
    let j = skip_blanks(s, i);
    if 0 <= i <= j < s.len() {
        if after_newline(s, j) > j {
            lemma_step_filter(s, after_newline(s, j), filter, open, depth);
        } else if s[j] == '[' {
            let end = line_end(s, header_end(s, j));
            if j < end <= s.len() {
                lemma_step_filter(s, end, filter, false, depth);
            }
        } else if !open {
            let end = line_end(s, j);
            if j < end <= s.len() {
                lemma_step_filter(s, end, filter, false, depth);
            }
        } else if s[j] == '|' {
            lemma_row_is_read(s, j + 1, Seq::empty());
        }
    }
}

/// No section is taken more often than it was asked for: with a filter, the
/// stream holds the header of `name` at most as many times as the filter
/// names it.
pub proof fn lemma_sections_taken_as_asked(parser: ParserView, name: Seq<char>)
    requires
        parser.filter is Some,
    ensures
        times_taken(stream_of(parser).elements, name) <= times_asked(parser.filter->0, name),
    decreases parser.input.len() - parser.pos,
{
    let step = next_step(parser);
    let names = parser.filter->0;
    if step.element is Some && parser.pos < step.end <= parser.input.len() {
        let element = step.element->0;
        let next = parser.stepped(step);
        let tail = stream_of(next);
        let all = seq![element] + tail.elements;
        assert(stream_of(parser).elements == all);
        assert(all.drop_first() == tail.elements);
        lemma_step_filter(parser.input, parser.pos, parser.filter, true, parser.depth);
        match element {
            ElementView::Section(taken) => {
                lemma_first_match(names, taken, 0);
                lemma_times_asked_remove(names, name, first_match(names, taken, 0));
                lemma_sections_taken_as_asked(next, name);
            },
            _ => {
                lemma_sections_taken_as_asked(next, name);
            },
        }
    }
}

/// The headers of `name` in a concatenation are those in its parts.
pub proof fn lemma_times_taken_concat(x: Seq<ElementView>, y: Seq<ElementView>, name: Seq<char>)
    ensures
        times_taken(x + y, name) == times_taken(x, name) + times_taken(y, name),
    decreases x.len(),
{
    if x.len() == 0 {
        assert(x + y == y);
    } else {
        assert((x + y).drop_first() == x.drop_first() + y);
        lemma_times_taken_concat(x.drop_first(), y, name);
    }
}

/// Where the header of `name` is counted no times, it does not occur.
pub proof fn lemma_never_taken(elements: Seq<ElementView>, name: Seq<char>)
    requires
        times_taken(elements, name) == 0,
    ensures
        no_header_named(elements, name),
    decreases elements.len(),
{
    if elements.len() > 0 {
        lemma_never_taken(elements.drop_first(), name);
        assert forall|k: int| 0 <= k < elements.len() implies #[trigger] elements[k]
            != ElementView::Section(name) by {
            if k > 0 {
                assert(elements[k] == elements.drop_first()[k - 1]);
            }
        }
    }
}

/// Of sections with one name that is asked for once, the first one counts
/// and the others are passed over: where the stream holds the header of
/// `name`, followed by `body` without a header and then by nothing or by
/// other sections, the document holds under `name` the section that `body`
/// makes.
pub proof fn lemma_section_asked_once(
    parser: ParserView,
    name: Seq<char>,
    before: Seq<ElementView>,
    body: Seq<ElementView>,
    tail: Seq<ElementView>,
)
    requires
        parser.filter is Some,
        times_asked(parser.filter->0, name) == 1,
        stream_of(parser).elements == before + seq![ElementView::Section(name)] + body + tail,
        no_header(body),
        tail.len() == 0 || tail[0] is Section,
    ensures
        times_taken(before, name) == 0,
        times_taken(tail, name) == 0,
        document_of(stream_of(parser).elements, true).contains_key(name),
        document_of(stream_of(parser).elements, true)[name] == section_of(body),
{
    let header = seq![ElementView::Section(name)];
    lemma_sections_taken_as_asked(parser, name);
    lemma_times_taken_concat(before + header + body, tail, name);
    lemma_times_taken_concat(before + header, body, name);
    lemma_times_taken_concat(before, header, name);
    assert(header.drop_first() == Seq::<ElementView>::empty());
    assert(times_taken(header.drop_first(), name) == 0);
    assert(times_taken(header, name) == 1);
    lemma_never_taken(tail, name);
    lemma_last_section_counts(before, name, body, tail, true);
}

/// Once every section asked for has been found, none is taken any more: the
/// stream of a parser whose filter has no name left holds no header.
pub proof fn lemma_exhausted_filter_takes_nothing(parser: ParserView, name: Seq<char>)
    requires
        parser.filter == Some(Seq::<Seq<char>>::empty()),
    ensures
        times_taken(stream_of(parser).elements, name) == 0,
{
    lemma_sections_taken_as_asked(parser, name);
}

/// Once every section asked for has been found, the next header ends the
/// stream for good, whatever follows it.
pub proof fn lemma_header_after_exhaustion(s: Seq<char>, i: int, open: bool, depth: nat)
    requires
        0 <= i <= skip_blanks(s, i) < s.len(),
        s[skip_blanks(s, i)] == '[',
    ensures
        scan_element(s, i, Some(Seq::<Seq<char>>::empty()), open, depth) == Step::stop(
            header_end(s, skip_blanks(s, i)),
            Some(Seq::<Seq<char>>::empty()),
            true,
        ),
{
}

/// The gap before a value takes in the blanks it starts with: it ends at
/// the same place from behind them.
pub proof fn lemma_gap_after_blanks(s: Seq<char>, i: int)
    requires
        0 <= i <= s.len(),
    ensures
        gap_end(s, skip_blanks(s, i)) == gap_end(s, i),
{
    lemma_run_end(s, i, |c: char| is_blank(c));
    let j = skip_blanks(s, i);
    assert(skip_blanks(s, j) == j);
}

/// Where nothing but a gap is left of the input, no value is read, and
/// that is an error at the end of the input.
pub proof fn lemma_value_missing(s: Seq<char>, i: int, depth: nat)
    requires
        0 <= i <= s.len(),
        gap_end(s, i) == s.len(),
    ensures
        value_at(s, i, depth) == Parsed::<ValueView>::failed(
            s.len() as int,
            seq![error_at(s, s.len() as int, CANNOT_READ_VALUE@)],
        ),
{
}

/// An error that is recorded stays recorded to the end of the stream.
pub proof fn lemma_errors_stay(parser: ParserView)
    ensures
        stream_of(parser).rest.errors.len() >= parser.errors.len() + next_step(
            parser,
        ).errors.len(),
    decreases parser.input.len() - parser.pos,
{
    let step = next_step(parser);
    if step.element is Some && parser.pos < step.end <= parser.input.len() {
        lemma_errors_stay(parser.stepped(step));
    }
}

/// A read is all or nothing: where an error was recorded before, or is
/// recorded by the next step of the stream, there is no document.
pub proof fn lemma_errors_fail_read(parser: ParserView)
    requires
        parser.errors.len() > 0 || next_step(parser).errors.len() > 0,
    ensures
        read_result(parser) is None,
{
    lemma_errors_stay(parser);
}

/// A key and `=` with nothing but a gap behind them fail the read: where
/// the next thing in the input is such an entry, there is no document.
pub proof fn lemma_entry_without_value(parser: ParserView)
    requires
        !parser.finished,
        0 <= parser.pos <= skip_blanks(parser.input, parser.pos) < parser.input.len(),
        is_key_char(parser.input[skip_blanks(parser.input, parser.pos)]),
        separator_at(parser.input, skip_blanks(parser.input, parser.pos)) < parser.input.len(),
        parser.input[separator_at(parser.input, skip_blanks(parser.input, parser.pos))] == '=',
        gap_end(
            parser.input,
            separator_at(parser.input, skip_blanks(parser.input, parser.pos)) + 1,
        ) == parser.input.len(),
    ensures
        next_step(parser).element is None,
        next_step(parser).errors == seq![
            error_at(parser.input, parser.input.len() as int, CANNOT_READ_VALUE@),
        ],
        read_result(parser) is None,
{
    let s = parser.input;
    let j = skip_blanks(s, parser.pos);
    lemma_run_end(s, j, |c: char| is_key_char(c));
    let k = key_end(s, j);
    lemma_run_end(s, k, |c: char| is_blank(c));
    let b = skip_blanks(s, k);
    lemma_run_end(s, b + 1, |c: char| is_blank(c));
    let c = skip_blanks(s, b + 1);
    assert(key_end(s, j) == key_end(s, j + 1));
    lemma_gap_after_blanks(s, b + 1);
    lemma_value_missing(s, c, parser.depth);
    assert(entry_at(s, j, parser.depth).errors == value_at(s, c, parser.depth).errors);
    lemma_errors_fail_read(parser);
}

/// Where the stream yields no element and no error is recorded, the
/// document holds the empty section `root` and nothing else; with a filter it
/// holds nothing.
pub proof fn lemma_nothing_read(parser: ParserView)
    requires
        stream_of(parser).elements.len() == 0,
        stream_of(parser).rest.errors.len() == 0,
    ensures
        read_result(parser) == Some(
            if parser.filter is Some {
                Map::<Seq<char>, SectionView>::empty()
            } else {
                Map::<Seq<char>, SectionView>::empty().insert(ROOT@, SectionView::empty())
            },
        ),
{
}

/// The empty input yields no element and no error, whatever the filter.
pub proof fn lemma_empty_input(parser: ParserView)
    requires
        parser.input.len() == 0,
        parser.pos == 0,
        parser.errors.len() == 0,
    ensures
        stream_of(parser).elements.len() == 0,
        stream_of(parser).rest.errors.len() == 0,
{
    assert(skip_blanks(parser.input, 0) == 0);
}

} // verus!
