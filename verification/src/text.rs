//! Characters and character sequences: the classes the grammar distinguishes,
//! maximal runs, escapes, trimming and decimal digits.

use vstd::prelude::*;
use vstd::string::StringExecFns;
use vstd::utf8::encode_utf8;
use crate::offsets::{byte_len, byte_offset, lemma_byte_offset_step, slice, utf8_width};

verus! {

/// A space or a tab: what the cursor skips inside a line.
#[verifier::allow_in_spec]
pub fn is_blank(c: char) -> bool
    returns
        c == ' ' || c == '\t',
{
    c == ' ' || c == '\t'
}

/// An ASCII decimal digit.
#[verifier::allow_in_spec]
pub fn is_digit(c: char) -> bool
    returns
        '0' <= c && c <= '9',
{
    '0' <= c && c <= '9'
}

/// A character that may stand in a key: an ASCII letter, a digit, `_` or `-`.
#[verifier::allow_in_spec]
pub fn is_key_char(c: char) -> bool
    returns
        ('a' <= c && c <= 'z') || ('A' <= c && c <= 'Z') || ('0' <= c && c <= '9') || c == '_'
            || c == '-',
{
    ('a' <= c && c <= 'z') || ('A' <= c && c <= 'Z') || ('0' <= c && c <= '9') || c == '_'
        || c == '-'
}

/// A character with the Unicode property `White_Space`: what is trimmed from
/// the end of a table cell.
#[verifier::allow_in_spec]
pub fn is_whitespace(c: char) -> bool
    returns
        ('\u{9}' <= c && c <= '\u{d}') || c == ' ' || c == '\u{85}' || c == '\u{a0}' || c
            == '\u{1680}' || ('\u{2000}' <= c && c <= '\u{200a}') || c == '\u{2028}' || c
            == '\u{2029}' || c == '\u{202f}' || c == '\u{205f}' || c == '\u{3000}',
{
    ('\u{9}' <= c && c <= '\u{d}') || c == ' ' || c == '\u{85}' || c == '\u{a0}' || c
        == '\u{1680}' || ('\u{2000}' <= c && c <= '\u{200a}') || c == '\u{2028}' || c
        == '\u{2029}' || c == '\u{202f}' || c == '\u{205f}' || c == '\u{3000}'
}

/// The end of the maximal run of characters satisfying `p` that starts at `i`:
/// the first index from `i` on whose character fails `p`, or the length of `s`.
pub open spec fn run_end(s: Seq<char>, i: int, p: spec_fn(char) -> bool) -> int
    decreases s.len() - i,
{
    if 0 <= i < s.len() && p(s[i]) {
        run_end(s, i + 1, p)
    } else {
        i
    }
}

/// `run_end` stops inside the sequence, every character before it satisfies
/// `p`, and the character at it, if any, does not.
pub proof fn lemma_run_end(s: Seq<char>, i: int, p: spec_fn(char) -> bool)
    requires
        0 <= i <= s.len(),
    ensures
        i <= run_end(s, i, p) <= s.len(),
        forall|k: int| i <= k < run_end(s, i, p) ==> p(#[trigger] s[k]),
        run_end(s, i, p) < s.len() ==> !p(s[run_end(s, i, p)]),
    decreases s.len() - i,
{
    if i < s.len() && p(s[i]) {
        lemma_run_end(s, i + 1, p);
    }
}

/// An index with the three properties of `lemma_run_end` is `run_end`.
pub proof fn lemma_run_end_unique(s: Seq<char>, i: int, e: int, p: spec_fn(char) -> bool)
    requires
        0 <= i <= e <= s.len(),
        forall|k: int| i <= k < e ==> p(#[trigger] s[k]),
        e < s.len() ==> !p(s[e]),
    ensures
        run_end(s, i, p) == e,
    decreases e - i,
{
    if i < e {
        lemma_run_end_unique(s, i + 1, e, p);
    }
}

/// Where a run of blanks that starts at `i` ends.
pub open spec fn skip_blanks(s: Seq<char>, i: int) -> int {
    run_end(s, i, |c: char| is_blank(c))
}

/// The first index from `i` on that holds `delim`, or the length.
pub open spec fn find_char(s: Seq<char>, i: int, delim: char) -> int
    decreases s.len() - i,
{
    if 0 <= i < s.len() && s[i] != delim {
        find_char(s, i + 1, delim)
    } else {
        i
    }
}

/// `find_char` stops inside the sequence, at a `delim` if before the end, and
/// passes none.
pub proof fn lemma_find_char(s: Seq<char>, i: int, delim: char)
    requires
        0 <= i <= s.len(),
    ensures
        i <= find_char(s, i, delim) <= s.len(),
        forall|k: int| i <= k < find_char(s, i, delim) ==> #[trigger] s[k] != delim,
        find_char(s, i, delim) < s.len() ==> s[find_char(s, i, delim)] == delim,
    decreases s.len() - i,
{
    if i < s.len() && s[i] != delim {
        lemma_find_char(s, i + 1, delim);
    }
}

/// An index with the three properties of `lemma_find_char` is `find_char`.
pub proof fn lemma_find_char_unique(s: Seq<char>, i: int, e: int, delim: char)
    requires
        0 <= i <= e <= s.len(),
        forall|k: int| i <= k < e ==> #[trigger] s[k] != delim,
        e < s.len() ==> s[e] == delim,
    ensures
        find_char(s, i, delim) == e,
    decreases e - i,
{
    if i < e {
        lemma_find_char_unique(s, i + 1, e, delim);
    }
}

/// Where the line that `i` stands in ends: the next `'\n'`, or the length.
pub open spec fn line_end(s: Seq<char>, i: int) -> int {
    find_char(s, i, '\n')
}

/// `word` stands in `s` at index `i`.
pub open spec fn has_word(s: Seq<char>, i: int, word: Seq<char>) -> bool {
    0 <= i && i + word.len() <= s.len() && s.subrange(i, i + word.len()) == word
}

/// The position after a line break that starts at `i`: `"\n"`, `"\r\n"` or a
/// lone `'\r'`. Where none starts there, `i` itself.
pub open spec fn after_newline(s: Seq<char>, i: int) -> int {
    if 0 <= i < s.len() && s[i] == '\n' {
        i + 1
    } else if 0 <= i < s.len() && s[i] == '\r' {
        if i + 1 < s.len() && s[i + 1] == '\n' {
            i + 2
        } else {
            i + 1
        }
    } else {
        i
    }
}

/// The first index from `i` on that holds `delim` and does not follow a
/// backslash, or the length. The character before `i` is looked at too.
pub open spec fn find_unescaped(s: Seq<char>, i: int, delim: char) -> int
    decreases s.len() - i,
{
    if 1 <= i < s.len() && !(s[i] == delim && s[i - 1] != '\\') {
        find_unescaped(s, i + 1, delim)
    } else {
        i
    }
}

/// `find_unescaped` stops inside the sequence, at an unescaped `delim` if
/// before the end, and passes none.
pub proof fn lemma_find_unescaped(s: Seq<char>, i: int, delim: char)
    requires
        1 <= i <= s.len(),
    ensures
        i <= find_unescaped(s, i, delim) <= s.len(),
        forall|k: int|
            i <= k < find_unescaped(s, i, delim) ==> !(#[trigger] s[k] == delim && s[k - 1]
                != '\\'),
        find_unescaped(s, i, delim) < s.len() ==> s[find_unescaped(s, i, delim)] == delim && s[
            find_unescaped(s, i, delim) - 1] != '\\',
    decreases s.len() - i,
{
    if i < s.len() && !(s[i] == delim && s[i - 1] != '\\') {
        lemma_find_unescaped(s, i + 1, delim);
    }
}

/// An index with the three properties of `lemma_find_unescaped` is
/// `find_unescaped`.
pub proof fn lemma_find_unescaped_unique(s: Seq<char>, i: int, e: int, delim: char)
    requires
        1 <= i <= e <= s.len(),
        forall|k: int| i <= k < e ==> !(#[trigger] s[k] == delim && s[k - 1] != '\\'),
        e < s.len() ==> s[e] == delim && s[e - 1] != '\\',
    ensures
        find_unescaped(s, i, delim) == e,
    decreases e - i,
{
    if i < e {
        lemma_find_unescaped_unique(s, i + 1, e, delim);
    }
}

/// Where a slice that starts at `i < s.len()` and runs up to an unescaped
/// `delim` ends: at `i` if `delim` stands there, else at the first later
/// `delim` that does not follow a backslash, else at the length.
pub open spec fn slice_end(s: Seq<char>, i: int, delim: char) -> int {
    if 0 <= i < s.len() && s[i] == delim {
        i
    } else {
        find_unescaped(s, i + 1, delim)
    }
}

/// `s` with every occurrence of the pair `first`, `second` replaced by `to`,
/// scanning from the left; a replaced pair is not looked at again.
pub open spec fn replace_pair(s: Seq<char>, first: char, second: char, to: char) -> Seq<char>
    decreases s.len(),
{
    if s.len() < 2 {
        s
    } else if s[0] == first && s[1] == second {
        seq![to] + replace_pair(s.skip(2), first, second, to)
    } else {
        seq![s[0]] + replace_pair(s.skip(1), first, second, to)
    }
}

/// A text in which `second` nowhere follows `first` has no pair to replace.
pub proof fn lemma_replace_pair_absent(s: Seq<char>, first: char, second: char, to: char)
    requires
        forall|k: int| 0 <= k < s.len() - 1 ==> !(#[trigger] s[k] == first && s[k + 1] == second),
    ensures
        replace_pair(s, first, second, to) == s,
    decreases s.len(),
{
    if s.len() >= 2 {
        assert(!(s[0] == first && s[1] == second));
        assert forall|k: int| 0 <= k < s.skip(1).len() - 1 implies !(#[trigger] s.skip(1)[k]
            == first && s.skip(1)[k + 1] == second) by {
            assert(s.skip(1)[k] == s[k + 1]);
        }
        lemma_replace_pair_absent(s.skip(1), first, second, to);
        assert(s == seq![s[0]] + s.skip(1));
    }
}

/// The text of a string literal with its escapes resolved, one kind after the
/// other: `\\` to a backslash, then `\n` to a line feed, then `\"` to a quote.
pub open spec fn unescape_string(s: Seq<char>) -> Seq<char> {
    replace_pair(replace_pair(replace_pair(s, '\\', '\\', '\\'), '\\', 'n', '\n'), '\\', '"', '"')
}

/// The text of a table cell with its escapes resolved, one kind after the
/// other: `\\` to a backslash, then `\n` to a line feed, then `\|` to a bar.
pub open spec fn unescape_cell(s: Seq<char>) -> Seq<char> {
    replace_pair(replace_pair(replace_pair(s, '\\', '\\', '\\'), '\\', 'n', '\n'), '\\', '|', '|')
}

/// `s` without the white space at its end.
pub open spec fn trim_end(s: Seq<char>) -> Seq<char>
    decreases s.len(),
{
    if s.len() > 0 && is_whitespace(s.last()) {
        trim_end(s.drop_last())
    } else {
        s
    }
}

/// The number that a run of decimal digits writes.
pub open spec fn decimal_value(digits: Seq<char>) -> nat
    decreases digits.len(),
{
    if digits.len() == 0 {
        0
    } else {
        decimal_value(digits.drop_last()) * 10 + (digits.last() as nat - '0' as nat) as nat
    }
}

/// Every character of `s` is a decimal digit.
pub open spec fn all_digits(s: Seq<char>) -> bool {
    forall|k: int| 0 <= k < s.len() ==> is_digit(#[trigger] s[k])
}

/// The characters of `s`, in order.
pub fn collect_chars(s: &str) -> (v: Vec<char>)
    ensures
        v@ == s@,
{
    let mut v: Vec<char> = Vec::new();
    for c in it: s.chars()
        invariant
            v@ == it.seq().take(it.index() as int),
    {
        v.push(c);
    }
    v
}

/// Replaces each pair `first`, `second` in `text` by `to`, from the left.
pub(crate) fn replace_pair_in(
    text: &str,
    first: char,
    second: char,
    to: &str,
    Ghost(to_char): Ghost<char>,
) -> (out: String)
    requires
        to@ == seq![to_char],
    ensures
        out@ == replace_pair(text@, first, second, to_char),
{
    let chars = collect_chars(text);
    let total = byte_len(text);
    let mut out = String::new();
    let mut i: usize = 0;
    let mut offset: usize = 0;
    proof {
        assert(chars@.skip(0) == chars@);
        assert(chars@.take(0) == Seq::<char>::empty());
    }
    while i < chars.len()
        invariant
            chars@ == text@,
            to@ == seq![to_char],
            total == encode_utf8(text@).len(),
            i <= chars@.len(),
            offset == byte_offset(chars@, i as int),
            out@ + replace_pair(chars@.skip(i as int), first, second, to_char) == replace_pair(
                chars@,
                first,
                second,
                to_char,
            ),
        decreases chars@.len() - i,
    {
        let ghost rest = chars@.skip(i as int);
        let c = chars[i];
        let width = utf8_width(c);
        proof {
            lemma_byte_offset_step(chars@, i as int);
        }
        if c == first && i + 1 < chars.len() && chars[i + 1] == second {
            proof {
                lemma_byte_offset_step(chars@, i + 1);
                assert(rest.skip(2) == chars@.skip(i + 2));
            }
            out.append(to);
            offset = offset + width + utf8_width(second);
            i = i + 2;
        } else {
            proof {
                assert(rest.skip(1) == chars@.skip(i + 1));
                assert(rest.len() < 2 ==> rest == seq![rest[0]]);
                assert(rest.len() < 2 ==> replace_pair(rest.skip(1), first, second, to_char)
                    == Seq::<char>::empty());
                assert(text@.subrange(i as int, i + 1) == seq![c]);
            }
            out.append(slice(text, Ghost(i as int), Ghost(i + 1), offset, offset + width));
            offset = offset + width;
            i = i + 1;
        }
    }
    assert(chars@.skip(i as int) == Seq::<char>::empty());
    out
}

/// Resolves the escapes of a string literal.
pub fn unescape_string_text(text: &str) -> (out: String)
    ensures
        out@ == unescape_string(text@),
{
    proof {
        reveal_strlit("\\");
        reveal_strlit("\n");
        reveal_strlit("\"");
        assert("\\"@ == seq!['\\']);
        assert("\n"@ == seq!['\n']);
        assert("\""@ == seq!['"']);
    }
    let a = replace_pair_in(text, '\\', '\\', "\\", Ghost('\\'));
    let b = replace_pair_in(a.as_str(), '\\', 'n', "\n", Ghost('\n'));
    replace_pair_in(b.as_str(), '\\', '"', "\"", Ghost('"'))
}

/// Drops the white space at the end of a cell and resolves its escapes.
pub fn clean_cell_text(text: &str) -> (out: String)
    ensures
        out@ == unescape_cell(trim_end(text@)),
{
    let chars = collect_chars(text);
    let mut n: usize = chars.len();
    let mut offset: usize = byte_len(text);
    assert(chars@.take(n as int) == chars@);
    while n > 0 && is_whitespace(chars[n - 1])
        invariant
            n <= chars@.len(),
            offset == byte_offset(chars@, n as int),
            trim_end(chars@) == trim_end(chars@.take(n as int)),
        decreases n,
    {
        proof {
            assert(chars@.take(n as int).drop_last() == chars@.take(n - 1));
            lemma_byte_offset_step(chars@, n - 1);
        }
        offset = offset - utf8_width(chars[n - 1]);
        n = n - 1;
    }
    proof {
        assert(chars@.take(0) == Seq::<char>::empty());
        reveal_strlit("\\");
        reveal_strlit("\n");
        reveal_strlit("|");
        assert("\\"@ == seq!['\\']);
        assert("\n"@ == seq!['\n']);
        assert("|"@ == seq!['|']);
    }
    let kept = slice(text, Ghost(0), Ghost(n as int), 0, offset);
    assert(kept@ == chars@.take(n as int));
    let a = replace_pair_in(kept, '\\', '\\', "\\", Ghost('\\'));
    let b = replace_pair_in(a.as_str(), '\\', 'n', "\n", Ghost('\n'));
    replace_pair_in(b.as_str(), '\\', '|', "|", Ghost('|'))
}

/// A longer run of digits writes no smaller a number.
pub proof fn lemma_decimal_value_grows(digits: Seq<char>, n: int)
    requires
        0 <= n <= digits.len(),
    ensures
        decimal_value(digits.take(n)) <= decimal_value(digits),
    decreases digits.len() - n,
{
    if n < digits.len() {
        lemma_decimal_value_grows(digits, n + 1);
        assert(digits.take(n + 1).drop_last() == digits.take(n));
    } else {
        assert(digits.take(n) == digits);
    }
}

/// The number that `digits` writes, if they are decimal digits and it fits
/// an `i64`.
pub fn parse_decimal(digits: &str) -> (r: Option<i64>)
    ensures
        r == (if all_digits(digits@) && decimal_value(digits@) <= i64::MAX {
            Some(decimal_value(digits@) as i64)
        } else {
            None
        }),
{
    let chars = collect_chars(digits);
    let mut value: i64 = 0;
    let mut i: usize = 0;
    while i < chars.len()
        invariant
            i <= chars@.len(),
            chars@ == digits@,
            all_digits(chars@.take(i as int)),
            0 <= value,
            value == decimal_value(chars@.take(i as int)),
        decreases chars@.len() - i,
    {
        let c = chars[i];
        if !is_digit(c) {
            return None;
        }
        let d: i64 = (c as u32 - '0' as u32) as i64;
        proof {
            assert(chars@.take(i + 1).drop_last() == chars@.take(i as int));
            assert(chars@.take(i + 1).last() == c);
            lemma_decimal_value_grows(chars@, i + 1);
        }
        if value > (i64::MAX - d) / 10 {
            return None;
        }
        value = value * 10 + d;
        i = i + 1;
    }
    assert(chars@.take(i as int) == chars@);
    Some(value)
}

} // verus!
