//! Text for text: the escapes of a string literal and the digits of an
//! integer, as they are written.

use vstd::prelude::*;
use vstd::string::StringExecFns;
use vstd::utf8::encode_utf8;
use crate::offsets::{byte_len, byte_offset, lemma_byte_offset_step, slice, utf8_width};
use crate::text::collect_chars;

verus! {

/// How a character of a string is written inside a literal.
pub open spec fn escape_char(c: char) -> Seq<char> {
    if c == '\\' {
        seq!['\\', '\\']
    } else if c == '\n' {
        seq!['\\', 'n']
    } else if c == '"' {
        seq!['\\', '"']
    } else {
        seq![c]
    }
}

/// How the text of a string is written inside a literal.
pub open spec fn escape(text: Seq<char>) -> Seq<char>
    decreases text.len(),
{
    if text.len() == 0 {
        Seq::empty()
    } else {
        escape(text.drop_last()) + escape_char(text.last())
    }
}

/// The string literal for `text`.
pub open spec fn quoted(text: Seq<char>) -> Seq<char> {
    seq!['"'] + escape(text) + seq!['"']
}

/// The character that writes the digit `d`.
pub open spec fn digit_char(d: nat) -> char {
    (d + '0' as nat) as char
}

/// The decimal digits of `n`, without leading zeros.
pub open spec fn decimal_digits(n: nat) -> Seq<char>
    decreases n,
{
    if n < 10 {
        seq![digit_char(n)]
    } else {
        decimal_digits(n / 10).push(digit_char(n % 10))
    }
}

/// How the integer `n` is written.
pub open spec fn integer_text(n: int) -> Seq<char> {
    if n < 0 {
        seq!['-'] + decimal_digits((-n) as nat)
    } else {
        decimal_digits(n as nat)
    }
}

/// `parts` with `", "` between them.
pub open spec fn joined(parts: Seq<Seq<char>>) -> Seq<char>
    decreases parts.len(),
{
    if parts.len() == 0 {
        Seq::empty()
    } else if parts.len() == 1 {
        parts[0]
    } else {
        joined(parts.drop_last()) + ", "@ + parts.last()
    }
}

/// Appends to `out` the string literal for `text`.
pub fn push_quoted(out: &mut String, text: &str)
    ensures
        final(out)@ == old(out)@ + quoted(text@),
{
    proof {
        reveal_strlit("\"");
        assert("\""@ == seq!['"']);
    }
    let chars = collect_chars(text);
    let total = byte_len(text);
    out.append("\"");
    let mut i: usize = 0;
    let mut offset: usize = 0;
    proof {
        assert(chars@.take(0) == Seq::<char>::empty());
    }
    while i < chars.len()
        invariant
            chars@ == text@,
            total == encode_utf8(text@).len(),
            i <= chars@.len(),
            offset == byte_offset(chars@, i as int),
            out@ == old(out)@ + seq!['"'] + escape(chars@.take(i as int)),
        decreases chars@.len() - i,
    {
        let c = chars[i];
        let width = utf8_width(c);
        proof {
            lemma_byte_offset_step(chars@, i as int);
            assert(chars@.take(i + 1).drop_last() == chars@.take(i as int));
            assert(chars@.take(i + 1).last() == c);
            assert(text@.subrange(i as int, i + 1) == seq![c]);
            reveal_strlit("\\\\");
            reveal_strlit("\\n");
            reveal_strlit("\\\"");
            assert("\\\\"@ == seq!['\\', '\\']);
            assert("\\n"@ == seq!['\\', 'n']);
            assert("\\\""@ == seq!['\\', '"']);
        }
        if c == '\\' {
            out.append("\\\\");
        } else if c == '\n' {
            out.append("\\n");
        } else if c == '"' {
            out.append("\\\"");
        } else {
            out.append(slice(text, Ghost(i as int), Ghost(i + 1), offset, offset + width));
        }
        offset = offset + width;
        i = i + 1;
    }
    proof {
        assert(chars@.take(i as int) == chars@);
    }
    out.append("\"");
}

/// Appends to `out` the integer `n` as it is written.
pub fn push_integer(out: &mut String, n: i64)
    ensures
        final(out)@ == old(out)@ + integer_text(n as int),
{
    let mut magnitude: u64 = if n < 0 {
        proof {
            reveal_strlit("-");
            assert("-"@ == seq!['-']);
        }
        out.append("-");
        if n == i64::MIN {
            9223372036854775808u64
        } else {
            (-n) as u64
        }
    } else {
        n as u64
    };
    let ghost whole = magnitude as nat;
    let ghost sign = out@;
    let mut reversed: Vec<u8> = Vec::new();
    reversed.push((magnitude % 10) as u8);
    magnitude = magnitude / 10;
    while magnitude > 0
        invariant
            reversed@.len() > 0,
            forall|k: int| 0 <= k < reversed@.len() ==> #[trigger] reversed@[k] < 10,
            decimal_digits(whole) == (if magnitude > 0 {
                decimal_digits(magnitude as nat)
            } else {
                Seq::<char>::empty()
            }) + digits_text(reversed@.reverse()),
        decreases magnitude,
    {
        let ghost before = reversed@;
        reversed.push((magnitude % 10) as u8);
        proof {
            assert(reversed@.reverse() == seq![(magnitude % 10) as u8] + before.reverse());
            assert(digits_text(reversed@.reverse()) == seq![digit_char((magnitude % 10) as nat)]
                + digits_text(before.reverse()));
        }
        magnitude = magnitude / 10;
    }
    let mut i: usize = reversed.len();
    while i > 0
        invariant
            i <= reversed@.len(),
            forall|k: int| 0 <= k < reversed@.len() ==> #[trigger] reversed@[k] < 10,
            out@ == sign + digits_text(reversed@.reverse()).take(reversed@.len() - i),
        decreases i,
    {
        i = i - 1;
        out.append(digit_text(reversed[i]));
        proof {
            let r = digits_text(reversed@.reverse());
            let k = reversed@.len() - i;
            assert(r.take(k) == r.take(k - 1).push(r[k - 1]));
        }
    }
    proof {
        let r = digits_text(reversed@.reverse());
        assert(r.take(reversed@.len() as int) == r);
    }
}

/// The characters that write each of `digits`.
pub open spec fn digits_text(digits: Seq<u8>) -> Seq<char> {
    Seq::new(digits.len(), |k: int| digit_char(digits[k] as nat))
}

/// The text that writes the digit `d`.
fn digit_text(d: u8) -> (text: &'static str)
    requires
        d < 10,
    ensures
        text@ == seq![digit_char(d as nat)],
{
    proof {
        reveal_strlit("0");
        reveal_strlit("1");
        reveal_strlit("2");
        reveal_strlit("3");
        reveal_strlit("4");
        reveal_strlit("5");
        reveal_strlit("6");
        reveal_strlit("7");
        reveal_strlit("8");
        reveal_strlit("9");
    }
    let text = if d == 0 {
        "0"
    } else if d == 1 {
        "1"
    } else if d == 2 {
        "2"
    } else if d == 3 {
        "3"
    } else if d == 4 {
        "4"
    } else if d == 5 {
        "5"
    } else if d == 6 {
        "6"
    } else if d == 7 {
        "7"
    } else if d == 8 {
        "8"
    } else {
        "9"
    };
    assert(text@ == seq![digit_char(d as nat)]);
    text
}

} // verus!
