//! Bytes as text.

use vstd::prelude::*;
use vstd::utf8::{decode_utf8, encode_utf8, is_ascii_chars, valid_utf8};

verus! {

/// `true` if every byte of `bytes` is an ASCII character.
pub open spec fn is_ascii_bytes(bytes: Seq<u8>) -> bool {
    forall|i: int| 0 <= i < bytes.len() ==> #[trigger] bytes[i] < 0x80
}

/// The characters that the ASCII bytes `bytes` stand for.
pub open spec fn ascii_chars(bytes: Seq<u8>) -> Seq<char> {
    Seq::new(bytes.len(), |i: int| bytes[i] as char)
}

/// ASCII bytes are the UTF-8 encoding of the characters that they stand
/// for.
pub proof fn lemma_ascii_is_utf8(bytes: Seq<u8>)
    requires
        is_ascii_bytes(bytes),
    ensures
        valid_utf8(bytes),
        decode_utf8(bytes) == ascii_chars(bytes),
{
    let chars = ascii_chars(bytes);
    assert(is_ascii_chars(chars)) by {
        assert forall|i: int| 0 <= i < chars.len() implies '\0' <= #[trigger] chars[i]
            <= '\u{7f}' by {
            assert(bytes[i] < 0x80);
        }
    }
    vstd::utf8::is_ascii_chars_encode_utf8(chars);
    assert(encode_utf8(chars) =~= bytes) by {
        assert forall|i: int| 0 <= i < bytes.len() implies encode_utf8(chars)[i] == bytes[i] by {
            assert(chars[i] as u8 == encode_utf8(chars)[i]);
            assert(bytes[i] < 0x80);
        }
    }
    vstd::utf8::encode_utf8_valid_utf8(chars);
    vstd::utf8::encode_utf8_decode_utf8(chars);
}

/// The text whose UTF-8 encoding is `bytes`, as `std::str::from_utf8`
/// returns it: there is one exactly when `bytes` are valid UTF-8, and it
/// holds the characters that `bytes` encode.
#[verifier::external_body]
pub(crate) fn str_from_utf8(bytes: &[u8]) -> (text: Option<&str>)
    ensures
        text is Some <==> valid_utf8(bytes@),
        text matches Some(text) ==> text@ == decode_utf8(bytes@),
{
    std::str::from_utf8(bytes).ok()
}

/// The UTF-8 encoding of `c`.
pub fn char_bytes(c: char) -> (bytes: Vec<u8>)
    ensures
        bytes@ == encode_utf8(seq![c]),
{
    let scalar = c as u32;
    let last = scalar & 0x3F;
    let second_last = (scalar >> 6) & 0x3F;
    let third_last = (scalar >> 12) & 0x3F;
    proof {
        vstd::utf8::char_is_scalar(c);
        assert(seq![c].drop_first() =~= Seq::<char>::empty());
        assert(encode_utf8(seq![c].drop_first()) =~= Seq::<u8>::empty());
        assert(seq![c][0] as u32 == scalar);
        assert(encode_utf8(seq![c]) =~= vstd::utf8::encode_scalar(scalar));
        assert(last <= 0xff) by (bit_vector)
            requires
                last == scalar & 0x3F,
        ;
        assert(second_last <= 0xff) by (bit_vector)
            requires
                second_last == (scalar >> 6) & 0x3F,
        ;
        assert(third_last <= 0xff) by (bit_vector)
            requires
                third_last == (scalar >> 12) & 0x3F,
        ;
    }
    let mut bytes: Vec<u8> = Vec::new();
    if scalar <= 0x7F {
        let only = scalar & 0x7F;
        assert(only <= 0xff) by (bit_vector)
            requires
                only == scalar & 0x7F,
        ;
        bytes.push(only as u8);
    } else if scalar <= 0x7FF {
        let first = (scalar >> 6) & 0x1F;
        assert(first <= 0xff) by (bit_vector)
            requires
                first == (scalar >> 6) & 0x1F,
        ;
        bytes.push(0xC0 | first as u8);
        bytes.push(0x80 | last as u8);
    } else if scalar <= 0xFFFF {
        let first = (scalar >> 12) & 0x0F;
        assert(first <= 0xff) by (bit_vector)
            requires
                first == (scalar >> 12) & 0x0F,
        ;
        bytes.push(0xE0 | first as u8);
        bytes.push(0x80 | second_last as u8);
        bytes.push(0x80 | last as u8);
    } else {
        let first = (scalar >> 18) & 0x7;
        assert(first <= 0xff) by (bit_vector)
            requires
                first == (scalar >> 18) & 0x7,
        ;
        bytes.push(0xF0 | first as u8);
        bytes.push(0x80 | third_last as u8);
        bytes.push(0x80 | second_last as u8);
        bytes.push(0x80 | last as u8);
    }
    assert(bytes@ =~= vstd::utf8::encode_scalar(scalar));
    bytes
}

/// The text that the ASCII bytes `bytes` stand for.
pub fn ascii_to_string(bytes: &[u8]) -> (text: String)
    requires
        is_ascii_bytes(bytes@),
    ensures
        text@ == ascii_chars(bytes@),
{
    proof {
        lemma_ascii_is_utf8(bytes@);
    }
    match str_from_utf8(bytes) {
        Some(text) => text.to_owned(),
        None => String::new(),
    }
}

/// The parts of `items` from the position `start` on, where `separator`
/// stands between two parts, and is known not to stand between `start` and
/// `index`.
pub open spec fn parts_from<T>(items: Seq<T>, separator: T, start: int, index: int) -> Seq<Seq<T>>
    decreases items.len() - index,
{
    if index < 0 || index >= items.len() {
        seq![items.subrange(start, items.len() as int)]
    } else if items[index] == separator {
        seq![items.subrange(start, index)] + parts_from(items, separator, index + 1, index + 1)
    } else {
        parts_from(items, separator, start, index + 1)
    }
}

/// The parts of `items`, where `separator` stands between two parts. There
/// is always one part at least.
pub open spec fn parts<T>(items: Seq<T>, separator: T) -> Seq<Seq<T>> {
    parts_from(items, separator, 0, 0)
}

/// The bytes that each of `strings` holds.
pub open spec fn bytes_view(strings: Seq<Vec<u8>>) -> Seq<Seq<u8>> {
    Seq::new(strings.len(), |i: int| strings[i]@)
}

/// Cuts `bytes` into its parts, where `separator` stands between two parts.
pub fn split_bytes(bytes: &[u8], separator: u8) -> (found: Vec<Vec<u8>>)
    ensures
        found@.len() > 0,
        bytes_view(found@) == parts(bytes@, separator),
{
    let mut found: Vec<Vec<u8>> = Vec::new();
    let mut current: Vec<u8> = Vec::new();
    let mut index: usize = 0;
    let ghost mut start: int = 0;
    assert(bytes_view(found@) =~= Seq::<Seq<u8>>::empty());
    assert(current@ =~= bytes@.subrange(0, 0));
    while index < bytes.len()
        invariant
            0 <= start <= index <= bytes@.len(),
            current@ == bytes@.subrange(start, index as int),
            parts(bytes@, separator) == bytes_view(found@) + parts_from(
                bytes@,
                separator,
                start,
                index as int,
            ),
        decreases bytes@.len() - index,
    {
        let byte = bytes[index];
        if byte == separator {
            let ghost before = bytes_view(found@);
            found.push(current);
            current = Vec::new();
            proof {
                assert(bytes_view(found@) =~= before.push(bytes@.subrange(start, index as int)));
                assert(before + (seq![bytes@.subrange(start, index as int)] + parts_from(
                    bytes@,
                    separator,
                    index + 1,
                    index + 1,
                )) =~= bytes_view(found@) + parts_from(bytes@, separator, index + 1, index + 1));
                start = index + 1;
                assert(current@ =~= bytes@.subrange(start, index + 1));
            }
        } else {
            current.push(byte);
            assert(current@ =~= bytes@.subrange(start, index + 1));
        }
        index += 1;
    }
    let ghost before = bytes_view(found@);
    found.push(current);
    proof {
        assert(bytes_view(found@) =~= before.push(bytes@.subrange(start, bytes@.len() as int)));
        assert(before.push(bytes@.subrange(start, bytes@.len() as int)) =~= before + seq![
            bytes@.subrange(start, bytes@.len() as int),
        ]);
    }
    found
}

/// `true` if `left` and `right` hold the same bytes.
pub fn same_bytes(left: &[u8], right: &[u8]) -> (same: bool)
    ensures
        same == (left@ == right@),
{
    if left.len() != right.len() {
        return false;
    }
    let mut index: usize = 0;
    while index < left.len()
        invariant
            index <= left@.len(),
            left@.len() == right@.len(),
            left@.take(index as int) == right@.take(index as int),
        decreases left@.len() - index,
    {
        if left[index] != right[index] {
            return false;
        }
        index += 1;
        assert(left@.take(index as int) =~= left@.take(index - 1).push(left@[index - 1]));
        assert(right@.take(index as int) =~= right@.take(index - 1).push(right@[index - 1]));
    }
    assert(left@.take(index as int) =~= left@);
    assert(right@.take(index as int) =~= right@);
    true
}

/// The characters that each of the texts `strings` holds.
pub open spec fn strings_view(strings: Seq<String>) -> Seq<Seq<char>> {
    Seq::new(strings.len(), |i: int| strings[i]@)
}

/// `true` if `left` comes before `right`, or is `right`, in the order of
/// texts: that of the first character in which they differ or, if there is
/// none, that of their lengths.
pub open spec fn lex_le(left: Seq<char>, right: Seq<char>) -> bool
    decreases left.len(),
{
    if left.len() == 0 {
        true
    } else if right.len() == 0 {
        false
    } else if left[0] != right[0] {
        (left[0] as u32) < (right[0] as u32)
    } else {
        lex_le(left.skip(1), right.skip(1))
    }
}

/// Of two texts, one comes before the other, or they are the same.
pub proof fn lemma_lex_total(left: Seq<char>, right: Seq<char>)
    ensures
        lex_le(left, right) || lex_le(right, left),
    decreases left.len(),
{
    if left.len() > 0 && right.len() > 0 {
        if left[0] == right[0] {
            lemma_lex_total(left.skip(1), right.skip(1));
        } else {
            vstd::utf8::char_u32_cast(left[0], left[0] as u32);
            vstd::utf8::char_u32_cast(right[0], right[0] as u32);
        }
    }
}

/// A text comes before itself.
pub proof fn lemma_lex_reflexive(text: Seq<char>)
    ensures
        lex_le(text, text),
    decreases text.len(),
{
    if text.len() > 0 {
        lemma_lex_reflexive(text.skip(1));
    }
}

/// A text that comes before a second one, which comes before a third one,
/// comes before the third one.
pub proof fn lemma_lex_transitive(first: Seq<char>, second: Seq<char>, third: Seq<char>)
    requires
        lex_le(first, second),
        lex_le(second, third),
    ensures
        lex_le(first, third),
    decreases first.len(),
{
    if first.len() > 0 && second.len() > 0 && third.len() > 0 {
        if first[0] == second[0] && second[0] == third[0] {
            lemma_lex_transitive(first.skip(1), second.skip(1), third.skip(1));
        }
    }
}

/// `true` if `left` comes before `right`, or is `right`, in the order of
/// texts.
pub fn text_le(left: &[char], right: &[char]) -> (le: bool)
    ensures
        le == lex_le(left@, right@),
{
    let mut index: usize = 0;
    assert(left@.skip(0) =~= left@);
    assert(right@.skip(0) =~= right@);
    while index < left.len()
        invariant
            index <= left@.len(),
            index <= right@.len(),
            lex_le(left@, right@) == lex_le(left@.skip(index as int), right@.skip(index as int)),
        decreases left@.len() - index,
    {
        if index >= right.len() {
            return false;
        }
        let ghost a = left@.skip(index as int);
        let ghost b = right@.skip(index as int);
        assert(a[0] == left@[index as int]);
        assert(b[0] == right@[index as int]);
        assert(a.skip(1) =~= left@.skip(index + 1));
        assert(b.skip(1) =~= right@.skip(index + 1));
        if left[index] != right[index] {
            return (left[index] as u32) < (right[index] as u32);
        }
        index += 1;
    }
    true
}

/// The characters that each of `strings` holds.
pub open spec fn chars_view(strings: Seq<Vec<char>>) -> Seq<Seq<char>> {
    Seq::new(strings.len(), |i: int| strings[i]@)
}

/// The characters of `text`.
pub fn chars_of(text: &str) -> (chars: Vec<char>)
    ensures
        chars@ == text@,
{
    let mut chars: Vec<char> = Vec::new();
    for c in iter: text.chars()
        invariant
            iter.seq() == text@,
            chars@ == text@.take(iter.index() as int),
    {
        chars.push(c);
        assert(chars@ =~= text@.take(iter.index() + 1));
    }
    assert(chars@ =~= text@);
    chars
}

/// Appends the UTF-8 encoding of `chars` to `output`.
pub fn push_chars(output: &mut Vec<u8>, chars: &[char])
    ensures
        final(output)@ == old(output)@ + encode_utf8(chars@),
{
    let mut index: usize = 0;
    assert(chars@.take(0) =~= Seq::<char>::empty());
    assert(output@ =~= old(output)@ + encode_utf8(chars@.take(0)));
    while index < chars.len()
        invariant
            index <= chars@.len(),
            output@ == old(output)@ + encode_utf8(chars@.take(index as int)),
        decreases chars@.len() - index,
    {
        proof {
            lemma_encode_push(chars@.take(index as int), chars@[index as int]);
            assert(chars@.take(index + 1) =~= chars@.take(index as int).push(chars@[index as int]));
        }
        let mut encoded = char_bytes(chars[index]);
        output.append(&mut encoded);
        index += 1;
    }
    assert(chars@.take(index as int) =~= chars@);
}

/// The encoding of characters followed by one more is the encoding of the
/// characters followed by the encoding of that one.
pub proof fn lemma_encode_push(chars: Seq<char>, c: char)
    ensures
        encode_utf8(chars.push(c)) == encode_utf8(chars) + encode_utf8(seq![c]),
    decreases chars.len(),
{
    lemma_encode_concat(chars, seq![c]);
    assert(chars.push(c) =~= chars + seq![c]);
}

/// The encoding of two runs of characters, one after the other, is the
/// encoding of the first followed by the encoding of the second.
pub proof fn lemma_encode_concat(first: Seq<char>, second: Seq<char>)
    ensures
        encode_utf8(first + second) == encode_utf8(first) + encode_utf8(second),
    decreases first.len(),
{
    if first.len() == 0 {
        assert(first + second =~= second);
        assert(encode_utf8(first) =~= Seq::<u8>::empty());
        assert(encode_utf8(first) + encode_utf8(second) =~= encode_utf8(second));
    } else {
        assert((first + second).drop_first() =~= first.drop_first() + second);
        lemma_encode_concat(first.drop_first(), second);
        assert(encode_utf8(first + second) =~= encode_utf8(first) + encode_utf8(second));
    }
}

/// `true` if a character is white space: a tab, a line feed, a vertical
/// tab, a form feed, a carriage return, a space, a next line, a space
/// without break, an ogham space mark, one of the spaces of fixed width
/// from the en quad to the hair space, a line separator, a paragraph
/// separator, a narrow space without break, a medium mathematical space or
/// an ideographic space.
pub open spec fn white_space(c: char) -> bool {
    let code = c as u32;
    ||| 0x09 <= code <= 0x0d
    ||| code == 0x20
    ||| code == 0x85
    ||| code == 0xa0
    ||| code == 0x1680
    ||| 0x2000 <= code <= 0x200a
    ||| code == 0x2028
    ||| code == 0x2029
    ||| code == 0x202f
    ||| code == 0x205f
    ||| code == 0x3000
}

/// The text `text` in lower case, as `str::to_lowercase` returns it.
pub uninterp spec fn lowercase(text: Seq<char>) -> Seq<char>;

/// `true` if `c` is white space.
pub fn is_whitespace(c: char) -> (space: bool)
    ensures
        space == white_space(c),
{
    let code = c as u32;
    (0x09 <= code && code <= 0x0d) || code == 0x20 || code == 0x85 || code == 0xa0 || code
        == 0x1680 || (0x2000 <= code && code <= 0x200a) || code == 0x2028 || code == 0x2029
        || code == 0x202f || code == 0x205f || code == 0x3000
}

/// The lowercase equivalent of `text`, as `str::to_lowercase` returns it.
#[verifier::external_body]
pub(crate) fn to_lowercase(text: &str) -> (lower: String)
    ensures
        lower@ == lowercase(text@),
{
    text.to_lowercase()
}

/// The text that holds the characters `chars`.
pub fn string_of(chars: &[char]) -> (text: String)
    ensures
        text@ == chars@,
{
    let mut bytes: Vec<u8> = Vec::new();
    push_chars(&mut bytes, chars);
    proof {
        assert(bytes@ =~= encode_utf8(chars@));
        vstd::utf8::encode_utf8_valid_utf8(chars@);
        vstd::utf8::encode_utf8_decode_utf8(chars@);
    }
    match str_from_utf8(bytes.as_slice()) {
        Some(text) => text.to_owned(),
        None => String::new(),
    }
}

/// `chars` without the white space at their end.
pub open spec fn trimmed_end(chars: Seq<char>) -> Seq<char>
    decreases chars.len(),
{
    if chars.len() > 0 && white_space(chars.last()) {
        trimmed_end(chars.drop_last())
    } else {
        chars
    }
}

/// `chars` without the white space at their start.
pub open spec fn trimmed_start(chars: Seq<char>) -> Seq<char>
    decreases chars.len(),
{
    if chars.len() > 0 && white_space(chars[0]) {
        trimmed_start(chars.skip(1))
    } else {
        chars
    }
}

/// `chars` without the white space at their start and at their end.
pub open spec fn trimmed(chars: Seq<char>) -> Seq<char> {
    trimmed_end(trimmed_start(chars))
}

/// Number of the characters of `chars` that are left when the white space
/// at their end is dropped.
pub fn trimmed_len(chars: &[char]) -> (len: usize)
    ensures
        len <= chars@.len(),
        chars@.take(len as int) == trimmed_end(chars@),
{
    let mut len: usize = chars.len();
    assert(chars@.take(len as int) =~= chars@);
    while len > 0 && is_whitespace(chars[len - 1])
        invariant
            len <= chars@.len(),
            trimmed_end(chars@) == trimmed_end(chars@.take(len as int)),
        decreases len,
    {
        assert(chars@.take(len as int).drop_last() =~= chars@.take(len - 1));
        len -= 1;
    }
    len
}

/// Number of characters of white space at the start of `chars`.
pub fn white_space_len(chars: &[char]) -> (len: usize)
    ensures
        len <= chars@.len(),
        chars@.skip(len as int) == trimmed_start(chars@),
{
    let mut len: usize = 0;
    assert(chars@.skip(0) =~= chars@);
    while len < chars.len() && is_whitespace(chars[len])
        invariant
            len <= chars@.len(),
            trimmed_start(chars@) == trimmed_start(chars@.skip(len as int)),
        decreases chars@.len() - len,
    {
        assert(chars@.skip(len as int).skip(1) =~= chars@.skip(len + 1));
        len += 1;
    }
    len
}

/// `chars` without the white space at their start and at their end.
pub fn trim(chars: &[char]) -> (kept: &[char])
    ensures
        kept@ == trimmed(chars@),
{
    let start = white_space_len(chars);
    let rest = vstd::slice::slice_subrange(chars, start, chars.len());
    assert(rest@ =~= trimmed_start(chars@));
    let len = trimmed_len(rest);
    let kept = vstd::slice::slice_subrange(rest, 0, len);
    assert(kept@ =~= rest@.take(len as int));
    kept
}

/// Cuts `chars` into its parts, where `separator` stands between two parts.
pub fn split(chars: &[char], separator: char) -> (found: Vec<Vec<char>>)
    ensures
        found@.len() > 0,
        chars_view(found@) == parts(chars@, separator),
{
    let mut found: Vec<Vec<char>> = Vec::new();
    let mut current: Vec<char> = Vec::new();
    let mut index: usize = 0;
    let ghost mut start: int = 0;
    assert(chars_view(found@) =~= Seq::<Seq<char>>::empty());
    assert(current@ =~= chars@.subrange(0, 0));
    while index < chars.len()
        invariant
            0 <= start <= index <= chars@.len(),
            current@ == chars@.subrange(start, index as int),
            parts(chars@, separator) == chars_view(found@) + parts_from(
                chars@,
                separator,
                start,
                index as int,
            ),
        decreases chars@.len() - index,
    {
        let c = chars[index];
        if c == separator {
            let ghost before = chars_view(found@);
            found.push(current);
            current = Vec::new();
            proof {
                assert(chars_view(found@) =~= before.push(
                    chars@.subrange(start, index as int),
                ));
                assert(before + (seq![chars@.subrange(start, index as int)] + parts_from(
                    chars@,
                    separator,
                    index + 1,
                    index + 1,
                )) =~= chars_view(found@) + parts_from(
                    chars@,
                    separator,
                    index + 1,
                    index + 1,
                ));
                start = index + 1;
                assert(current@ =~= chars@.subrange(start, index + 1));
            }
        } else {
            current.push(c);
            assert(current@ =~= chars@.subrange(start, index + 1));
        }
        index += 1;
    }
    let ghost before = chars_view(found@);
    found.push(current);
    proof {
        assert(chars_view(found@) =~= before.push(
            chars@.subrange(start, chars@.len() as int),
        ));
        assert(before.push(chars@.subrange(start, chars@.len() as int)) =~= before + seq![
            chars@.subrange(start, chars@.len() as int),
        ]);
    }
    found
}

/// `count` spaces.
pub open spec fn spaces(count: nat) -> Seq<char> {
    Seq::new(count, |i: int| ' ')
}

/// Appends `chars` to `text`.
pub fn append_chars(text: &mut Vec<char>, chars: &[char])
    ensures
        final(text)@ == old(text)@ + chars@,
{
    let mut index: usize = 0;
    assert(text@ =~= old(text)@ + chars@.take(0));
    while index < chars.len()
        invariant
            index <= chars@.len(),
            text@ == old(text)@ + chars@.take(index as int),
        decreases chars@.len() - index,
    {
        text.push(chars[index]);
        index += 1;
        assert(text@ =~= old(text)@ + chars@.take(index as int));
    }
    assert(chars@.take(index as int) =~= chars@);
}

/// Appends `count` spaces to `text`.
pub fn append_spaces(text: &mut Vec<char>, count: u128)
    ensures
        final(text)@ == old(text)@ + spaces(count as nat),
{
    let mut index: u128 = 0;
    assert(text@ =~= old(text)@ + spaces(0));
    while index < count
        invariant
            index <= count,
            text@ == old(text)@ + spaces(index as nat),
        decreases count - index,
    {
        text.push(' ');
        index += 1;
        assert(text@ =~= old(text)@ + spaces(index as nat));
    }
}

/// `true` if `pattern` stands in `text` at the position `index`.
pub open spec fn is_at(text: Seq<char>, pattern: Seq<char>, index: int) -> bool {
    0 <= index && index + pattern.len() <= text.len() && text.subrange(
        index,
        index + pattern.len(),
    ) == pattern
}

/// Position of the first place of `text`, from `index` on, where `pattern`
/// stands.
pub open spec fn find_from(text: Seq<char>, pattern: Seq<char>, index: int) -> Option<int>
    decreases text.len() - index + 1,
{
    if index < 0 || index + pattern.len() > text.len() {
        None
    } else if is_at(text, pattern, index) {
        Some(index)
    } else {
        find_from(text, pattern, index + 1)
    }
}

/// `true` if `pattern` stands in `text` at the position `index`.
pub fn stands_at(text: &[char], pattern: &[char], index: usize) -> (found: bool)
    ensures
        found == is_at(text@, pattern@, index as int),
{
    let len = text.len();
    if index > len || pattern.len() > len - index {
        return false;
    }
    let mut offset: usize = 0;
    while offset < pattern.len()
        invariant
            offset <= pattern@.len(),
            len == text@.len(),
            index + pattern@.len() <= len,
            text@.subrange(index as int, index + offset) == pattern@.take(offset as int),
        decreases pattern@.len() - offset,
    {
        if text[index + offset] != pattern[offset] {
            assert(text@.subrange(index as int, index + pattern@.len())[offset as int]
                != pattern@[offset as int]);
            return false;
        }
        offset += 1;
        assert(text@.subrange(index as int, index + offset) =~= text@.subrange(
            index as int,
            index + offset - 1,
        ).push(text@[index + offset - 1]));
        assert(pattern@.take(offset as int) =~= pattern@.take(offset - 1).push(
            pattern@[offset - 1],
        ));
    }
    assert(pattern@.take(offset as int) =~= pattern@);
    true
}

/// Position of the first place of `text` where `pattern` stands.
pub fn find(text: &[char], pattern: &[char]) -> (found: Option<usize>)
    ensures
        match found {
            Some(found) => find_from(text@, pattern@, 0) == Some(found as int) && found
                + pattern@.len() <= text@.len(),
            None => find_from(text@, pattern@, 0) is None,
        },
{
    if pattern.len() > text.len() {
        return None;
    }
    let last = text.len() - pattern.len();
    let mut index: usize = 0;
    loop
        invariant
            index <= last,
            last + pattern@.len() == text@.len(),
            find_from(text@, pattern@, 0) == find_from(text@, pattern@, index as int),
        decreases last - index,
    {
        if stands_at(text, pattern, index) {
            return Some(index);
        }
        if index == last {
            assert(find_from(text@, pattern@, index + 1) is None);
            return None;
        }
        index += 1;
    }
}

/// The words of `chars`: the longest runs of characters that are no white
/// space, in order.
pub open spec fn words(chars: Seq<char>) -> Seq<Seq<char>>
    decreases chars.len(),
{
    if chars.len() == 0 {
        Seq::empty()
    } else if white_space(chars[0]) {
        words(chars.skip(1))
    } else {
        let len = word_len(chars);
        if 0 < len <= chars.len() {
            seq![chars.take(len)] + words(chars.skip(len))
        } else {
            Seq::empty()
        }
    }
}

/// Number of characters at the start of `chars` that are no white space.
pub open spec fn word_len(chars: Seq<char>) -> int
    decreases chars.len(),
{
    if chars.len() == 0 || white_space(chars[0]) {
        0
    } else {
        1 + word_len(chars.skip(1))
    }
}

/// A word is no longer than the characters that it starts.
pub proof fn lemma_word_len(chars: Seq<char>)
    ensures
        0 <= word_len(chars) <= chars.len(),
        chars.len() > 0 && !white_space(chars[0]) ==> word_len(chars) > 0,
    decreases chars.len(),
{
    if chars.len() > 0 && !white_space(chars[0]) {
        lemma_word_len(chars.skip(1));
    }
}

/// Cuts `chars` into its words.
pub fn split_whitespace(chars: &[char]) -> (found: Vec<Vec<char>>)
    ensures
        chars_view(found@) == words(chars@),
{
    let mut found: Vec<Vec<char>> = Vec::new();
    let mut index: usize = 0;
    assert(chars@.skip(0) =~= chars@);
    assert(chars_view(found@) + words(chars@) =~= words(chars@));
    while index < chars.len()
        invariant
            index <= chars@.len(),
            words(chars@) == chars_view(found@) + words(chars@.skip(index as int)),
        decreases chars@.len() - index,
    {
        let ghost rest = chars@.skip(index as int);
        if is_whitespace(chars[index]) {
            assert(rest.skip(1) =~= chars@.skip(index + 1));
            index += 1;
        } else {
            let mut word: Vec<char> = Vec::new();
            let start = index;
            assert(rest.skip(0) =~= rest);
            while index < chars.len() && !is_whitespace(chars[index])
                invariant
                    start <= index <= chars@.len(),
                    rest == chars@.skip(start as int),
                    word@ == rest.take(index - start),
                    word_len(rest) == (index - start) + word_len(rest.skip(index - start)),
                decreases chars@.len() - index,
            {
                assert(rest.skip(index - start)[0] == chars@[index as int]);
                assert(rest.skip(index - start).skip(1) =~= rest.skip(index - start + 1));
                word.push(chars[index]);
                index += 1;
                assert(word@ =~= rest.take(index - start));
            }
            proof {
                if index < chars@.len() {
                    assert(rest.skip(index - start)[0] == chars@[index as int]);
                }
                lemma_word_len(rest);
                assert(word_len(rest) == index - start);
                let before = chars_view(found@);
                assert(rest.skip(index - start) =~= chars@.skip(index as int));
                assert(before + (seq![word@] + words(chars@.skip(index as int))) =~= before.push(
                    word@,
                ) + words(chars@.skip(index as int)));
            }
            let ghost before = chars_view(found@);
            found.push(word);
            assert(chars_view(found@) =~= before.push(word@));
        }
    }
    assert(chars@.skip(index as int) =~= Seq::<char>::empty());
    assert(chars_view(found@) + Seq::<Seq<char>>::empty() =~= chars_view(found@));
    found
}

} // verus!
