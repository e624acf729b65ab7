//! Command-line arguments as text that a shell reads back.

use crate::bytetables::{groups_from, ByteTable};
use crate::text::{ascii_chars, ascii_to_string, is_ascii_bytes};
use vstd::prelude::*;

verus! {

/// The byte `'`.
pub const QUOTE: u8 = 0x27;

/// The byte `\`.
pub const BACKSLASH: u8 = 0x5c;

/// `true` if `byte` can stand in a command-line argument as it is: a
/// letter or a digit of ASCII, or one of `,` `-` `.` `/` `:` `=` `_`.
pub open spec fn is_plain(byte: u8) -> bool {
    ||| 0x61 <= byte <= 0x7a
    ||| 0x41 <= byte <= 0x5a
    ||| 0x30 <= byte <= 0x39
    ||| byte == 0x2c
    ||| byte == 0x2d
    ||| byte == 0x2e
    ||| byte == 0x2f
    ||| byte == 0x3a
    ||| byte == 0x3d
    ||| byte == 0x5f
}

/// `true` if every byte of `bytes` can stand in a command-line argument as
/// it is.
pub open spec fn is_plain_bytes(bytes: Seq<u8>) -> bool {
    forall|i: int| 0 <= i < bytes.len() ==> is_plain(#[trigger] bytes[i])
}

/// The digit that writes `value`, below sixteen, in base sixteen, in lower
/// case.
pub open spec fn hex_digit(value: u8) -> u8 {
    if value < 10 {
        (0x30 + value) as u8
    } else {
        (0x61 + value - 10) as u8
    }
}

/// The escape of `byte`: `\t`, `\r` and `\n` for a tab, a carriage return
/// and a line feed; a backslash before a quote, a double quote and a
/// backslash; the byte itself if it is another printable character of
/// ASCII; else `\x` and its two digits in base sixteen.
pub open spec fn escape_default(byte: u8) -> Seq<u8> {
    if byte == 0x09 {
        seq![BACKSLASH, 0x74u8]
    } else if byte == 0x0d {
        seq![BACKSLASH, 0x72u8]
    } else if byte == 0x0a {
        seq![BACKSLASH, 0x6eu8]
    } else if byte == QUOTE || byte == 0x22 || byte == BACKSLASH {
        seq![BACKSLASH, byte]
    } else if 0x20 <= byte <= 0x7e {
        seq![byte]
    } else {
        seq![BACKSLASH, 0x78u8, hex_digit(byte / 16), hex_digit(byte % 16)]
    }
}

/// The escapes of the bytes of `bytes`, in order.
pub open spec fn escape_all(bytes: Seq<u8>) -> Seq<u8>
    decreases bytes.len(),
{
    if bytes.len() == 0 {
        Seq::empty()
    } else {
        escape_all(bytes.drop_last()) + escape_default(bytes.last())
    }
}

/// The text of the argument `bytes`: `bytes` themselves if each of them can
/// stand as it is, else their escapes between quotes.
pub open spec fn escaped(bytes: Seq<u8>) -> Seq<u8> {
    if is_plain_bytes(bytes) {
        bytes
    } else {
        seq![QUOTE] + escape_all(bytes) + seq![QUOTE]
    }
}

/// The escapes of bytes are ASCII.
pub proof fn lemma_escape_all_is_ascii(bytes: Seq<u8>)
    ensures
        is_ascii_bytes(escape_all(bytes)),
    decreases bytes.len(),
{
    if bytes.len() > 0 {
        lemma_escape_all_is_ascii(bytes.drop_last());
    }
}

/// The text of an argument is ASCII.
pub proof fn lemma_escaped_is_ascii(bytes: Seq<u8>)
    ensures
        is_ascii_bytes(escaped(bytes)),
{
    lemma_escape_all_is_ascii(bytes);
}

/// The table of the bytes that can stand in a command-line argument as they
/// are.
fn escape_table() -> (table: ByteTable)
    ensures
        table@ == Set::new(|byte: u8| is_plain(byte)),
{
    let groups: [u8; 16] = [
        0x61,
        0x2d,
        0x7a,
        0x41,
        0x2d,
        0x5a,
        0x30,
        0x2d,
        0x39,
        0x2c,
        0x2e,
        0x2f,
        0x3a,
        0x3d,
        0x5f,
        0x2d,
    ];
    let table = ByteTable::new(groups.as_slice());
    proof {
        reveal_with_fuel(groups_from, 17);
        assert(groups_from(groups@, 0) =~= Set::new(|byte: u8| is_plain(byte)));
    }
    table
}

/// Appends the escape of `byte` to `output`.
fn push_escape(output: &mut Vec<u8>, byte: u8)
    ensures
        final(output)@ == old(output)@ + escape_default(byte),
{
    if byte == 0x09 {
        output.push(BACKSLASH);
        output.push(0x74);
    } else if byte == 0x0d {
        output.push(BACKSLASH);
        output.push(0x72);
    } else if byte == 0x0a {
        output.push(BACKSLASH);
        output.push(0x6e);
    } else if byte == QUOTE || byte == 0x22 || byte == BACKSLASH {
        output.push(BACKSLASH);
        output.push(byte);
    } else if 0x20 <= byte && byte <= 0x7e {
        output.push(byte);
    } else {
        output.push(BACKSLASH);
        output.push(0x78);
        output.push(hex(byte / 16));
        output.push(hex(byte % 16));
    }
    assert(output@ =~= old(output)@ + escape_default(byte));
}

/// The digit that writes `value` in base sixteen.
fn hex(value: u8) -> (digit: u8)
    requires
        value < 16,
    ensures
        digit == hex_digit(value),
{
    if value < 10 {
        0x30 + value
    } else {
        0x61 + (value - 10)
    }
}

/// Escape a byte sequence to be used as a command-line argument.
pub struct EscapeArgument<'a>(pub &'a [u8]);

impl<'a> EscapeArgument<'a> {
    /// The bytes of the argument as text.
    pub fn to_bytes(&self) -> (text: Vec<u8>)
        ensures
            text@ == escaped(self.0@),
    {
        let bytes = self.0;
        let table = escape_table();

        let mut need_escape = false;
        let mut index: usize = 0;
        while index < bytes.len()
            invariant
                index <= bytes@.len(),
                table@ == Set::new(|byte: u8| is_plain(byte)),
                need_escape == !is_plain_bytes(bytes@.take(index as int)),
            decreases bytes@.len() - index,
        {
            let ghost seen = bytes@.take(index as int);
            let ghost next = bytes@.take(index + 1);
            if !table.contains(bytes[index]) {
                need_escape = true;
                assert(next[index as int] == bytes@[index as int]);
            } else {
                proof {
                    if need_escape {
                        let bad = choose|i: int| 0 <= i < seen.len() && !is_plain(seen[i]);
                        assert(next[bad] == seen[bad]);
                    } else {
                        assert forall|i: int| 0 <= i < next.len() implies is_plain(
                            #[trigger] next[i],
                        ) by {
                            if i < index {
                                assert(seen[i] == next[i]);
                            }
                        }
                    }
                }
            }
            index += 1;
        }
        assert(bytes@.take(index as int) =~= bytes@);

        let mut text: Vec<u8> = Vec::new();
        if need_escape {
            text.push(QUOTE);
            let mut index: usize = 0;
            assert(bytes@.take(0) =~= Seq::<u8>::empty());
            while index < bytes.len()
                invariant
                    index <= bytes@.len(),
                    text@ == seq![QUOTE] + escape_all(bytes@.take(index as int)),
                decreases bytes@.len() - index,
            {
                proof {
                    assert(bytes@.take(index + 1).drop_last() =~= bytes@.take(index as int));
                }
                push_escape(&mut text, bytes[index]);
                index += 1;
            }
            text.push(QUOTE);
        } else {
            let mut index: usize = 0;
            while index < bytes.len()
                invariant
                    index <= bytes@.len(),
                    text@ == bytes@.take(index as int),
                decreases bytes@.len() - index,
            {
                text.push(bytes[index]);
                index += 1;
                assert(text@ =~= bytes@.take(index as int));
            }
        }
        text
    }

    /// The argument as text.
    pub fn to_string(&self) -> (text: String)
        ensures
            text@ == ascii_chars(escaped(self.0@)),
    {
        let bytes = self.to_bytes();
        proof {
            lemma_escaped_is_ascii(self.0@);
        }
        ascii_to_string(bytes.as_slice())
    }
}

} // verus!
