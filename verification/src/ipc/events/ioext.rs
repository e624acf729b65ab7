//! Integers and strings as bytes, in the byte order of the host.
//!
//! Events never leave the host on which they are written, so the numbers in
//! them are stored as the host stores them in memory.

use vstd::endian::{endianness, Endian};
use vstd::prelude::*;

verus! {

/// Number of values that `width` bytes can tell apart.
pub open spec fn modulus(width: nat) -> nat
    decreases width,
{
    if width == 0 {
        1
    } else {
        256 * modulus((width - 1) as nat)
    }
}

/// The `width` low digits of `value` in base 256, least significant first.
pub open spec fn le_bytes(value: nat, width: nat) -> Seq<u8>
    decreases width,
{
    if width == 0 {
        Seq::empty()
    } else {
        seq![(value % 256) as u8] + le_bytes(value / 256, (width - 1) as nat)
    }
}

/// The number whose digits in base 256 are `bytes`, least significant first.
pub open spec fn le_value(bytes: Seq<u8>) -> nat
    decreases bytes.len(),
{
    if bytes.len() == 0 {
        0
    } else {
        bytes[0] as nat + 256 * le_value(bytes.skip(1))
    }
}

/// The `width` bytes that hold `value` in the memory of the host.
pub open spec fn native_bytes(value: nat, width: nat) -> Seq<u8> {
    match endianness() {
        Endian::Little => le_bytes(value, width),
        Endian::Big => le_bytes(value, width).reverse(),
    }
}

/// The number that `bytes` hold in the memory of the host.
pub open spec fn native_value(bytes: Seq<u8>) -> nat {
    match endianness() {
        Endian::Little => le_value(bytes),
        Endian::Big => le_value(bytes.reverse()),
    }
}

/// The number that stands for `value` in two's complement of `width` bytes.
pub open spec fn unsigned_of(value: int, width: nat) -> nat {
    if value < 0 {
        (value + modulus(width)) as nat
    } else {
        value as nat
    }
}

/// The number for which `value` stands in two's complement of `width` bytes.
pub open spec fn signed_of(value: nat, width: nat) -> int {
    if 2 * value >= modulus(width) {
        value - modulus(width)
    } else {
        value as int
    }
}

/// Bytes of a `usize` on the host.
pub open spec fn word_width() -> nat {
    (usize::BITS / 8) as nat
}

/// Bytes of a `u16`.
pub const U16_WIDTH: usize = 2;

/// Bytes of an `i32`.
pub const I32_WIDTH: usize = 4;

/// Bytes of an `i64`.
pub const I64_WIDTH: usize = 8;

/// Up to eight bytes tell apart no more values than a `u64` has, and up to
/// seven bytes no more than fill seven bytes.
pub proof fn lemma_modulus_bounds(width: nat)
    requires
        width <= 8,
    ensures
        modulus(width) <= 0x1_0000_0000_0000_0000,
        width <= 7 ==> modulus(width) <= 0x100_0000_0000_0000,
{
    reveal_with_fuel(modulus, 9);
}

/// The number of values that one, two, four and eight bytes can tell apart.
pub proof fn lemma_modulus_values()
    ensures
        modulus(0) == 1,
        modulus(1) == 0x100,
        modulus(2) == 0x1_0000,
        modulus(4) == 0x1_0000_0000,
        modulus(8) == 0x1_0000_0000_0000_0000,
{
    reveal_with_fuel(modulus, 9);
}

/// `le_bytes` gives as many bytes as it is asked for.
pub proof fn lemma_le_bytes_len(value: nat, width: nat)
    ensures
        le_bytes(value, width).len() == width,
    decreases width,
{
    if width > 0 {
        lemma_le_bytes_len(value / 256, (width - 1) as nat);
    }
}

/// A number that fits in `width` bytes is read back from its digits.
pub proof fn lemma_le_round_trip(value: nat, width: nat)
    requires
        value < modulus(width),
    ensures
        le_value(le_bytes(value, width)) == value,
    decreases width,
{
    if width > 0 {
        let rest = le_bytes(value / 256, (width - 1) as nat);
        let bytes = le_bytes(value, width);
        assert(bytes.skip(1) =~= rest);
        lemma_le_round_trip(value / 256, (width - 1) as nat);
    }
}

/// A number that fits in `width` bytes is read back from the bytes that
/// hold it on the host.
pub proof fn lemma_native_round_trip(value: nat, width: nat)
    requires
        value < modulus(width),
    ensures
        native_bytes(value, width).len() == width,
        native_value(native_bytes(value, width)) == value,
{
    lemma_le_bytes_len(value, width);
    lemma_le_round_trip(value, width);
    let bytes = le_bytes(value, width);
    assert(bytes.reverse().reverse() =~= bytes);
}

/// A signed number that `width` bytes can hold is read back from its two's
/// complement.
pub proof fn lemma_signed_round_trip(value: int, width: nat)
    requires
        width > 0,
        -(modulus(width) as int) <= 2 * value < modulus(width),
    ensures
        unsigned_of(value, width) < modulus(width),
        signed_of(unsigned_of(value, width), width) == value,
{
}

/// `base` with `bytes` written over it from `position` on.
pub open spec fn overwrite(base: Seq<u8>, position: int, bytes: Seq<u8>) -> Seq<u8> {
    Seq::new(
        base.len(),
        |i: int|
            if position <= i < position + bytes.len() {
                bytes[i - position]
            } else {
                base[i]
            },
    )
}

/// To write two runs of bytes one after the other is to write both at once.
pub proof fn lemma_overwrite_twice(base: Seq<u8>, position: int, first: Seq<u8>, second: Seq<u8>)
    requires
        0 <= position,
    ensures
        overwrite(overwrite(base, position, first), position + first.len(), second) == overwrite(
            base,
            position,
            first + second,
        ),
{
    assert(overwrite(overwrite(base, position, first), position + first.len(), second)
        =~= overwrite(base, position, first + second));
}

/// The memory representation of a `u16`, as `u16::to_ne_bytes` returns it:
/// the two bytes of the number, in the byte order of the host.
#[verifier::external_body]
fn u16_to_ne_bytes(value: u16) -> (bytes: [u8; 2])
    ensures
        bytes@ == native_bytes(value as nat, 2),
{
    value.to_ne_bytes()
}

/// `true` if the host stores the least significant byte of a number first.
pub fn host_is_little_endian() -> (little: bool)
    ensures
        little == (endianness() == Endian::Little),
{
    let one = u16_to_ne_bytes(1);
    proof {
        reveal_with_fuel(le_bytes, 3);
        assert(le_bytes(1, 2) =~= seq![1u8, 0u8]);
        assert(le_bytes(1, 2).reverse() =~= seq![0u8, 1u8]);
    }
    one[0] == 1
}

/// The bytes of `bytes`, the last first.
fn reversed(bytes: &[u8]) -> (turned: Vec<u8>)
    ensures
        turned@ == bytes@.reverse(),
{
    let mut turned: Vec<u8> = Vec::new();
    let mut index: usize = bytes.len();
    while index > 0
        invariant
            index <= bytes@.len(),
            turned@ == bytes@.reverse().take(bytes@.len() - index),
        decreases index,
    {
        index -= 1;
        turned.push(bytes[index]);
        assert(turned@ =~= bytes@.reverse().take(bytes@.len() - index));
    }
    assert(turned@ =~= bytes@.reverse());
    turned
}

/// The `width` bytes that hold `value` in the memory of the host.
fn unsigned_to_ne_bytes(value: u64, width: usize) -> (bytes: Vec<u8>)
    requires
        width <= 8,
    ensures
        bytes@ == native_bytes(value as nat, width as nat),
{
    let mut digits: Vec<u8> = Vec::new();
    let mut rest: u64 = value;
    let mut index: usize = 0;
    assert(digits@ + le_bytes(rest as nat, width as nat) =~= le_bytes(value as nat, width as nat));
    while index < width
        invariant
            index <= width,
            digits@ + le_bytes(rest as nat, (width - index) as nat) == le_bytes(
                value as nat,
                width as nat,
            ),
        decreases width - index,
    {
        let ghost before = digits@;
        let ghost tail = le_bytes((rest / 256) as nat, (width - index - 1) as nat);
        digits.push((rest % 256) as u8);
        assert(digits@ + tail =~= before + (seq![(rest % 256) as u8] + tail));
        rest = rest / 256;
        index += 1;
    }
    assert(digits@ + Seq::<u8>::empty() =~= digits@);
    if host_is_little_endian() {
        digits
    } else {
        reversed(digits.as_slice())
    }
}

/// The number that `bytes` hold in the memory of the host.
fn unsigned_from_ne_bytes(bytes: &[u8]) -> (value: u64)
    requires
        bytes@.len() <= 8,
    ensures
        value as nat == native_value(bytes@),
        (value as nat) < modulus(bytes@.len()),
{
    let len = bytes.len();
    let mut value: u64 = 0;
    let mut count: usize = 0;
    let little = host_is_little_endian();
    let ghost digits = if little {
        bytes@
    } else {
        bytes@.reverse()
    };
    assert(digits.skip(len as int) =~= Seq::<u8>::empty());
    while count < len
        invariant
            count <= len,
            len == bytes@.len(),
            len <= 8,
            digits == if little {
                bytes@
            } else {
                bytes@.reverse()
            },
            value as nat == le_value(digits.skip(len - count)),
            (value as nat) < modulus(count as nat),
        decreases len - count,
    {
        let byte = if little {
            bytes[len - 1 - count]
        } else {
            bytes[count]
        };
        proof {
            let next = digits.skip(len - count - 1);
            assert(next[0] == byte);
            assert(next.skip(1) =~= digits.skip(len - count));
            lemma_modulus_bounds(count as nat);
        }
        value = value * 256 + byte as u64;
        count += 1;
    }
    assert(digits.skip(0) =~= digits);
    value
}

/// The number that stands for `value` in two's complement of eight bytes.
fn i64_to_unsigned(value: i64) -> (unsigned: u64)
    ensures
        unsigned as nat == unsigned_of(value as int, 8),
{
    proof {
        lemma_modulus_values();
    }
    if value >= 0 {
        value as u64
    } else {
        (value + 1 + i64::MAX) as u64 + (i64::MAX as u64 + 1)
    }
}

/// The number for which `unsigned` stands in two's complement of eight
/// bytes.
fn i64_from_unsigned(unsigned: u64) -> (value: i64)
    ensures
        value as int == signed_of(unsigned as nat, 8),
{
    proof {
        lemma_modulus_values();
    }
    if unsigned > i64::MAX as u64 {
        (unsigned - (i64::MAX as u64 + 1)) as i64 + i64::MIN
    } else {
        unsigned as i64
    }
}

/// The number that stands for `value` in two's complement of four bytes.
fn i32_to_unsigned(value: i32) -> (unsigned: u64)
    ensures
        unsigned as nat == unsigned_of(value as int, 4),
{
    proof {
        lemma_modulus_values();
    }
    if value >= 0 {
        value as u64
    } else {
        (value as i64 + 0x1_0000_0000) as u64
    }
}

/// The number for which `unsigned` stands in two's complement of four
/// bytes.
fn i32_from_unsigned(unsigned: u64) -> (value: i32)
    requires
        unsigned < 0x1_0000_0000,
    ensures
        value as int == signed_of(unsigned as nat, 4),
{
    proof {
        lemma_modulus_values();
    }
    if unsigned > i32::MAX as u64 {
        (unsigned as i64 - 0x1_0000_0000) as i32
    } else {
        unsigned as i32
    }
}

/// The memory representation of an `i32`: the four bytes of its two's
/// complement, in the byte order of the host.
fn i32_to_ne_bytes(value: i32) -> (bytes: Vec<u8>)
    ensures
        bytes@ == native_bytes(unsigned_of(value as int, 4), 4),
{
    unsigned_to_ne_bytes(i32_to_unsigned(value), I32_WIDTH)
}

/// The memory representation of an `i64`: the eight bytes of its two's
/// complement, in the byte order of the host.
fn i64_to_ne_bytes(value: i64) -> (bytes: Vec<u8>)
    ensures
        bytes@ == native_bytes(unsigned_of(value as int, 8), 8),
{
    unsigned_to_ne_bytes(i64_to_unsigned(value), I64_WIDTH)
}

/// The memory representation of a `usize`: the bytes of the number, as
/// many as a `usize` has on the host, in the byte order of the host.
fn usize_to_ne_bytes(value: usize) -> (bytes: Vec<u8>)
    ensures
        bytes@ == native_bytes(value as nat, word_width()),
{
    unsigned_to_ne_bytes(value as u64, word_size())
}

/// The `u16` whose memory representation is `bytes`.
fn u16_from_ne_bytes(bytes: &[u8]) -> (value: u16)
    requires
        bytes@.len() == 2,
    ensures
        value as nat == native_value(bytes@),
{
    proof {
        lemma_modulus_values();
    }
    unsigned_from_ne_bytes(bytes) as u16
}

/// The `i32` whose memory representation is `bytes`.
fn i32_from_ne_bytes(bytes: &[u8]) -> (value: i32)
    requires
        bytes@.len() == 4,
    ensures
        value as int == signed_of(native_value(bytes@), 4),
{
    proof {
        lemma_modulus_values();
    }
    i32_from_unsigned(unsigned_from_ne_bytes(bytes))
}

/// The `i64` whose memory representation is `bytes`.
fn i64_from_ne_bytes(bytes: &[u8]) -> (value: i64)
    requires
        bytes@.len() == 8,
    ensures
        value as int == signed_of(native_value(bytes@), 8),
{
    i64_from_unsigned(unsigned_from_ne_bytes(bytes))
}

/// The `usize` whose memory representation is `bytes`.
fn usize_from_ne_bytes(bytes: &[u8]) -> (value: usize)
    requires
        bytes@.len() == word_width(),
    ensures
        value as nat == native_value(bytes@),
{
    proof {
        lemma_modulus_values();
    }
    unsigned_from_ne_bytes(bytes) as usize
}

/// Number of bytes of a `usize` on the host.
pub fn word_size() -> (width: usize)
    ensures
        width == word_width(),
        width == 4 || width == 8,
{
    (usize::BITS / 8) as usize
}

/// Writes `bytes` over `output` from `position` on.
///
/// Returns the position after the last byte written, or nothing when
/// `output` has no room for every byte: then nothing is written.
pub fn write_bytes(output: &mut [u8], position: usize, bytes: &[u8]) -> (next: Option<usize>)
    ensures
        next is Some <==> position + bytes@.len() <= old(output)@.len(),
        next matches Some(p) ==> p == position + bytes@.len() && final(output)@ == overwrite(
            old(output)@,
            position as int,
            bytes@,
        ),
        next is None ==> final(output)@ == old(output)@,
{
    let len = bytes.len();
    let total = output.len();
    if position > total || len > total - position {
        return None;
    }
    let mut index: usize = 0;
    while index < len
        invariant
            index <= len,
            len == bytes@.len(),
            position + len <= total,
            output@.len() == total,
            old(output)@.len() == total,
            output@ == overwrite(old(output)@, position as int, bytes@.take(index as int)),
        decreases len - index,
    {
        output[position + index] = bytes[index];
        index += 1;
        assert(output@ =~= overwrite(old(output)@, position as int, bytes@.take(index as int)));
    }
    assert(bytes@.take(len as int) =~= bytes@);
    Some(position + len)
}

/// The bytes of a `u16` in an event.
pub open spec fn u16_bytes(value: u16) -> Seq<u8> {
    native_bytes(value as nat, 2)
}

/// The bytes of an `i32` in an event.
pub open spec fn i32_bytes(value: i32) -> Seq<u8> {
    native_bytes(unsigned_of(value as int, 4), 4)
}

/// The bytes of an `i64` in an event.
pub open spec fn i64_bytes(value: i64) -> Seq<u8> {
    native_bytes(unsigned_of(value as int, 8), 8)
}

/// The bytes of a `usize` in an event.
pub open spec fn usize_bytes(value: usize) -> Seq<u8> {
    native_bytes(value as nat, word_width())
}

/// The `u16` that the first two bytes of `bytes` hold.
pub open spec fn u16_value(bytes: Seq<u8>) -> u16 {
    native_value(bytes.take(2)) as u16
}

/// The `i32` that the first four bytes of `bytes` hold.
pub open spec fn i32_value(bytes: Seq<u8>) -> i32 {
    signed_of(native_value(bytes.take(4)), 4) as i32
}

/// The `i64` that the first eight bytes of `bytes` hold.
pub open spec fn i64_value(bytes: Seq<u8>) -> i64 {
    signed_of(native_value(bytes.take(8)), 8) as i64
}

/// The `usize` that the first bytes of `bytes` hold.
pub open spec fn usize_value(bytes: Seq<u8>) -> usize {
    native_value(bytes.take(word_width() as int)) as usize
}

/// The first `limit` bytes of `string`, or all of it if it has no more.
pub open spec fn truncated(string: Seq<u8>, limit: nat) -> Seq<u8> {
    if string.len() <= limit {
        string
    } else {
        string.take(limit as int)
    }
}

/// The bytes of a string in an event: its length, then its bytes.
pub open spec fn string_bytes(string: Seq<u8>) -> Seq<u8> {
    usize_bytes(string.len() as usize) + string
}

/// A `u16` is read back from its bytes, whatever follows them.
pub proof fn lemma_u16_round_trip(value: u16, rest: Seq<u8>)
    ensures
        u16_bytes(value).len() == 2,
        u16_value(u16_bytes(value) + rest) == value,
{
    lemma_modulus_values();
    lemma_native_round_trip(value as nat, 2);
    assert((u16_bytes(value) + rest).take(2) =~= u16_bytes(value));
}

/// An `i32` is read back from its bytes, whatever follows them.
pub proof fn lemma_i32_round_trip(value: i32, rest: Seq<u8>)
    ensures
        i32_bytes(value).len() == 4,
        i32_value(i32_bytes(value) + rest) == value,
{
    lemma_modulus_values();
    lemma_signed_round_trip(value as int, 4);
    lemma_native_round_trip(unsigned_of(value as int, 4), 4);
    assert((i32_bytes(value) + rest).take(4) =~= i32_bytes(value));
}

/// An `i64` is read back from its bytes, whatever follows them.
pub proof fn lemma_i64_round_trip(value: i64, rest: Seq<u8>)
    ensures
        i64_bytes(value).len() == 8,
        i64_value(i64_bytes(value) + rest) == value,
{
    lemma_modulus_values();
    lemma_signed_round_trip(value as int, 8);
    lemma_native_round_trip(unsigned_of(value as int, 8), 8);
    assert((i64_bytes(value) + rest).take(8) =~= i64_bytes(value));
}

/// A `usize` is read back from its bytes, whatever follows them.
pub proof fn lemma_usize_round_trip(value: usize, rest: Seq<u8>)
    ensures
        usize_bytes(value).len() == word_width(),
        usize_value(usize_bytes(value) + rest) == value,
{
    lemma_modulus_values();
    lemma_native_round_trip(value as nat, word_width());
    assert((usize_bytes(value) + rest).take(word_width() as int) =~= usize_bytes(value));
}

/// Writes an `i32` over `output` from `position` on. Returns the position
/// after it, or nothing, with `output` unchanged, when there is no room.
pub fn write_i32(output: &mut [u8], position: usize, value: i32) -> (next: Option<usize>)
    ensures
        next is Some <==> position + 4 <= old(output)@.len(),
        next matches Some(p) ==> p == position + 4 && final(output)@ == overwrite(
            old(output)@,
            position as int,
            i32_bytes(value),
        ),
        next is None ==> final(output)@ == old(output)@,
{
    let bytes = i32_to_ne_bytes(value);
    proof {
        lemma_i32_round_trip(value, Seq::empty());
    }
    write_bytes(output, position, bytes.as_slice())
}

/// Writes an `i64` over `output` from `position` on. Returns the position
/// after it, or nothing, with `output` unchanged, when there is no room.
pub fn write_i64(output: &mut [u8], position: usize, value: i64) -> (next: Option<usize>)
    ensures
        next is Some <==> position + 8 <= old(output)@.len(),
        next matches Some(p) ==> p == position + 8 && final(output)@ == overwrite(
            old(output)@,
            position as int,
            i64_bytes(value),
        ),
        next is None ==> final(output)@ == old(output)@,
{
    let bytes = i64_to_ne_bytes(value);
    proof {
        lemma_i64_round_trip(value, Seq::empty());
    }
    write_bytes(output, position, bytes.as_slice())
}

/// Writes a `u16` over `output` from `position` on. Returns the position
/// after it, or nothing, with `output` unchanged, when there is no room.
pub fn write_u16(output: &mut [u8], position: usize, value: u16) -> (next: Option<usize>)
    ensures
        next is Some <==> position + 2 <= old(output)@.len(),
        next matches Some(p) ==> p == position + 2 && final(output)@ == overwrite(
            old(output)@,
            position as int,
            u16_bytes(value),
        ),
        next is None ==> final(output)@ == old(output)@,
{
    let bytes = u16_to_ne_bytes(value);
    proof {
        lemma_u16_round_trip(value, Seq::empty());
    }
    write_bytes(output, position, bytes.as_slice())
}

/// Writes a string over `output` from `position` on: its length, as a
/// `usize`, then its bytes. A string of more than `limit` bytes is cut
/// down to its first `limit` bytes.
///
/// Returns the position after the string, or nothing, with `output`
/// unchanged, when there is no room for all of it.
pub fn write_cstr(output: &mut [u8], position: usize, string: &[u8], limit: usize) -> (next:
    Option<usize>)
    ensures
        next is Some <==> position + string_bytes(truncated(string@, limit as nat)).len()
            <= old(output)@.len(),
        next matches Some(p) ==> p == position + string_bytes(
            truncated(string@, limit as nat),
        ).len() && final(output)@ == overwrite(
            old(output)@,
            position as int,
            string_bytes(truncated(string@, limit as nat)),
        ),
        next is None ==> final(output)@ == old(output)@,
{
    let size = if string.len() <= limit {
        string.len()
    } else {
        limit
    };
    let kept = vstd::slice::slice_subrange(string, 0, size);
    assert(kept@ =~= truncated(string@, limit as nat));
    let width = word_size();
    let prefix = usize_to_ne_bytes(size);
    proof {
        lemma_usize_round_trip(size, Seq::empty());
    }
    let total = output.len();
    if position > total || width > total - position || size > total - position - width {
        return None;
    }
    let ghost before = output@;
    let middle = write_bytes(output, position, prefix.as_slice());
    let next = write_bytes(output, middle.unwrap(), kept);
    proof {
        lemma_overwrite_twice(before, position as int, prefix@, kept@);
    }
    next
}

/// Reads an `i32` from the start of `input`. Returns it with the bytes
/// that follow it, or nothing when `input` is too short.
pub fn read_i32(input: &[u8]) -> (read: Option<(i32, &[u8])>)
    ensures
        read is Some <==> input@.len() >= 4,
        read matches Some((value, rest)) ==> value == i32_value(input@) && rest@ == input@.skip(
            4,
        ),
{
    if input.len() < I32_WIDTH {
        return None;
    }
    let value = i32_from_ne_bytes(vstd::slice::slice_subrange(input, 0, I32_WIDTH));
    assert(input@.subrange(0, 4) =~= input@.take(4));
    let rest = vstd::slice::slice_subrange(input, I32_WIDTH, input.len());
    assert(rest@ =~= input@.skip(4));
    Some((value, rest))
}

/// Reads an `i64` from the start of `input`. Returns it with the bytes
/// that follow it, or nothing when `input` is too short.
pub fn read_i64(input: &[u8]) -> (read: Option<(i64, &[u8])>)
    ensures
        read is Some <==> input@.len() >= 8,
        read matches Some((value, rest)) ==> value == i64_value(input@) && rest@ == input@.skip(
            8,
        ),
{
    if input.len() < I64_WIDTH {
        return None;
    }
    let value = i64_from_ne_bytes(vstd::slice::slice_subrange(input, 0, I64_WIDTH));
    assert(input@.subrange(0, 8) =~= input@.take(8));
    let rest = vstd::slice::slice_subrange(input, I64_WIDTH, input.len());
    assert(rest@ =~= input@.skip(8));
    Some((value, rest))
}

/// Reads a `u16` from the start of `input`. Returns it with the bytes
/// that follow it, or nothing when `input` is too short.
pub fn read_u16(input: &[u8]) -> (read: Option<(u16, &[u8])>)
    ensures
        read is Some <==> input@.len() >= 2,
        read matches Some((value, rest)) ==> value == u16_value(input@) && rest@ == input@.skip(
            2,
        ),
{
    if input.len() < U16_WIDTH {
        return None;
    }
    let value = u16_from_ne_bytes(vstd::slice::slice_subrange(input, 0, U16_WIDTH));
    assert(input@.subrange(0, 2) =~= input@.take(2));
    let rest = vstd::slice::slice_subrange(input, U16_WIDTH, input.len());
    assert(rest@ =~= input@.skip(2));
    Some((value, rest))
}

/// Reads a `usize` from the start of `input`. Returns it with the bytes
/// that follow it, or nothing when `input` is too short.
pub fn read_usize(input: &[u8]) -> (read: Option<(usize, &[u8])>)
    ensures
        read is Some <==> input@.len() >= word_width(),
        read matches Some((value, rest)) ==> value == usize_value(input@) && rest@
            == input@.skip(word_width() as int),
{
    let width = word_size();
    if input.len() < width {
        return None;
    }
    let value = usize_from_ne_bytes(vstd::slice::slice_subrange(input, 0, width));
    assert(input@.subrange(0, width as int) =~= input@.take(width as int));
    let rest = vstd::slice::slice_subrange(input, width, input.len());
    assert(rest@ =~= input@.skip(width as int));
    Some((value, rest))
}

/// The string at the start of `bytes`, as `write_cstr` writes it, and the
/// number of bytes that it takes there; nothing when `bytes` ends before
/// the string does.
pub open spec fn string_value(bytes: Seq<u8>) -> Option<(Seq<u8>, nat)> {
    if bytes.len() < word_width() {
        None
    } else {
        let size = usize_value(bytes);
        if size > bytes.len() - word_width() {
            None
        } else {
            Some(
                (
                    bytes.subrange(word_width() as int, word_width() + size),
                    word_width() + size as nat,
                ),
            )
        }
    }
}

/// Extracts a string, as `write_cstr` writes it, from the start of `input`.
/// Returns it with the bytes that follow it, or nothing when `input` ends
/// before the string does.
pub fn read_cstr(input: &[u8]) -> (read: Option<(Vec<u8>, &[u8])>)
    ensures
        read is Some <==> string_value(input@) is Some,
        read matches Some((string, rest)) ==> string_value(input@) == Some(
            (string@, (input@.len() - rest@.len()) as nat),
        ) && rest@ == input@.skip(input@.len() - rest@.len()) && rest@.len() < input@.len(),
{
    match read_usize(input) {
        None => None,
        Some((size, after)) => {
            if size > after.len() {
                return None;
            }
            let string = vstd::slice::slice_to_vec(
                vstd::slice::slice_subrange(after, 0, size),
            );
            let rest = vstd::slice::slice_subrange(after, size, after.len());
            assert(string@ =~= input@.subrange(word_width() as int, word_width() + size));
            assert(rest@ =~= input@.skip(word_width() + size));
            Some((string, rest))
        },
    }
}

/// A string is read back from its bytes, whatever follows them.
pub proof fn lemma_string_round_trip(string: Seq<u8>, rest: Seq<u8>)
    requires
        string.len() <= usize::MAX,
    ensures
        string_bytes(string).len() == word_width() + string.len(),
        string_value(string_bytes(string) + rest) == Some((string, string_bytes(string).len())),
{
    let size = string.len() as usize;
    lemma_usize_round_trip(size, string + rest);
    let bytes = string_bytes(string) + rest;
    assert(bytes =~= usize_bytes(size) + (string + rest));
    assert(bytes.subrange(word_width() as int, word_width() + size) =~= string);
}

/// The bytes of a run of `i64` in an event: eight for each, in order.
pub open spec fn i64s_bytes(values: Seq<i64>) -> Seq<u8> {
    Seq::new(8 * values.len(), |j: int| i64_bytes(values[j / 8])[j % 8])
}

/// The `count` numbers that the first `8 * count` bytes of `bytes` hold.
pub open spec fn i64s_value(bytes: Seq<u8>, count: nat) -> Seq<i64> {
    Seq::new(count, |k: int| i64_value(bytes.skip(8 * k)))
}

/// Every `i64` takes eight bytes.
pub proof fn lemma_i64_bytes_len()
    ensures
        forall|value: i64| #[trigger] i64_bytes(value).len() == 8,
{
    assert forall|value: i64| #[trigger] i64_bytes(value).len() == 8 by {
        lemma_i64_round_trip(value, Seq::empty());
    }
}

/// The bytes of a run that grows by one number grow by the bytes of that
/// number.
pub proof fn lemma_i64s_bytes_push(values: Seq<i64>, value: i64)
    ensures
        i64s_bytes(values.push(value)) == i64s_bytes(values) + i64_bytes(value),
{
    lemma_i64_bytes_len();
    assert(i64s_bytes(values.push(value)) =~= i64s_bytes(values) + i64_bytes(value));
}

/// A run of `i64` is read back from its bytes, whatever follows them.
pub proof fn lemma_i64s_round_trip(values: Seq<i64>, rest: Seq<u8>)
    ensures
        i64s_bytes(values).len() == 8 * values.len(),
        i64s_value(i64s_bytes(values) + rest, values.len()) == values,
        (i64s_bytes(values) + rest).skip(8 * (values.len() as int)) == rest,
{
    lemma_i64_bytes_len();
    let bytes = i64s_bytes(values) + rest;
    assert forall|k: int| 0 <= k < values.len() implies i64_value(bytes.skip(8 * k))
        == values[k] by {
        let tail = bytes.skip(8 * k + 8);
        assert(bytes.skip(8 * k) =~= i64_bytes(values[k]) + tail);
        lemma_i64_round_trip(values[k], tail);
    }
    assert(i64s_value(bytes, values.len()) =~= values);
    assert(bytes.skip(8 * (values.len() as int)) =~= rest);
}

/// Writes a run of `i64` over `output` from `position` on. Returns the
/// position after it, or nothing, with `output` unchanged, when there is no
/// room for all of it.
pub fn write_i64s(output: &mut [u8], position: usize, values: &[i64]) -> (next: Option<usize>)
    ensures
        next is Some <==> position + 8 * values@.len() <= old(output)@.len(),
        next matches Some(p) ==> p == position + 8 * values@.len() && final(output)@
            == overwrite(old(output)@, position as int, i64s_bytes(values@)),
        next is None ==> final(output)@ == old(output)@,
{
    let total = output.len();
    let count = values.len();
    if position > total || count > (total - position) / I64_WIDTH {
        return None;
    }
    let mut index: usize = 0;
    let mut next: usize = position;
    assert(output@ =~= overwrite(old(output)@, position as int, i64s_bytes(values@.take(0))));
    while index < count
        invariant
            index <= count,
            count == values@.len(),
            position + 8 * count <= total,
            next == position + 8 * index,
            output@.len() == total,
            old(output)@.len() == total,
            output@ == overwrite(
                old(output)@,
                position as int,
                i64s_bytes(values@.take(index as int)),
            ),
        decreases count - index,
    {
        let ghost before = output@;
        let written = write_i64(output, next, values[index]);
        proof {
            let done = values@.take(index as int);
            lemma_i64_bytes_len();
            lemma_i64s_bytes_push(done, values@[index as int]);
            assert(values@.take(index + 1) =~= done.push(values@[index as int]));
            lemma_overwrite_twice(
                old(output)@,
                position as int,
                i64s_bytes(done),
                i64_bytes(values@[index as int]),
            );
        }
        next = written.unwrap();
        index += 1;
    }
    assert(values@.take(count as int) =~= values@);
    Some(next)
}

/// Reads `count` numbers from the start of `input`. Returns them with the
/// bytes that follow them, or nothing when `input` is too short.
pub fn read_i64s(input: &[u8], count: usize) -> (read: Option<(Vec<i64>, &[u8])>)
    ensures
        read is Some <==> input@.len() >= 8 * count,
        read matches Some((values, rest)) ==> values@ == i64s_value(input@, count as nat)
            && rest@ == input@.skip(8 * count),
{
    if count > input.len() / I64_WIDTH {
        return None;
    }
    let mut values: Vec<i64> = Vec::new();
    let mut rest: &[u8] = input;
    let mut index: usize = 0;
    assert(rest@ =~= input@.skip(0));
    while index < count
        invariant
            index <= count,
            8 * count <= input@.len(),
            rest@ == input@.skip(8 * index),
            values@ == i64s_value(input@, index as nat),
        decreases count - index,
    {
        match read_i64(rest) {
            Some((value, after)) => {
                assert(after@ =~= input@.skip(8 * (index + 1)));
                values.push(value);
                assert(values@ =~= i64s_value(input@, (index + 1) as nat));
                rest = after;
            },
            None => {
                assert(false);
            },
        }
        index += 1;
    }
    Some((values, rest))
}

} // verus!
