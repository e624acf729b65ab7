//! Extract options from a format string.
//!
//! A format string may start with options between brackets, with commas
//! between them: `[header,table]`. The options are `header`, to print the
//! labels of the fields before the entries, and `table`, to lay out the
//! entries as a table.

use crate::text::{bytes_view, parts, same_bytes, split_bytes};
use vstd::prelude::*;
use vstd::string::StringSliceAdditionalSpecFns;
use vstd::utf8::{
    is_char_boundary, length_of_first_scalar, pop_first_scalar, valid_first_scalar, valid_utf8,
};

verus! {

/// The byte `[`, before the options.
pub const OPEN: u8 = 0x5b;

/// The byte `]`, after the options.
pub const CLOSE: u8 = 0x5d;

/// The byte `,`, between two options.
pub const COMMA: u8 = 0x2c;

/// The option `header`.
pub open spec fn header_option() -> Seq<u8> {
    seq![0x68u8, 0x65u8, 0x61u8, 0x64u8, 0x65u8, 0x72u8]
}

/// The option `table`.
pub open spec fn table_option() -> Seq<u8> {
    seq![0x74u8, 0x61u8, 0x62u8, 0x6cu8, 0x65u8]
}

/// Position of the first byte `byte` of `bytes`, from `index` on.
pub open spec fn first_index_from(bytes: Seq<u8>, byte: u8, index: int) -> Option<int>
    decreases bytes.len() - index,
{
    if index < 0 || index >= bytes.len() {
        None
    } else if bytes[index] == byte {
        Some(index)
    } else {
        first_index_from(bytes, byte, index + 1)
    }
}

/// Position of the byte that ends the options of the format `bytes`: the
/// first `]`, if the format starts with `[`.
pub open spec fn options_end(bytes: Seq<u8>) -> Option<int> {
    if bytes.len() > 0 && bytes[0] == OPEN {
        first_index_from(bytes, CLOSE, 0)
    } else {
        None
    }
}

/// The options of the format `bytes`, in order. A format without options
/// between brackets has none.
pub open spec fn options_of(bytes: Seq<u8>) -> Seq<Seq<u8>> {
    match options_end(bytes) {
        Some(end) => parts(bytes.subrange(1, end), COMMA),
        None => Seq::empty(),
    }
}

/// The format `bytes` without its options.
pub open spec fn format_of(bytes: Seq<u8>) -> Seq<u8> {
    match options_end(bytes) {
        Some(end) => bytes.skip(end + 1),
        None => bytes,
    }
}

/// The options of `options` that are neither `header` nor `table`, in
/// order.
pub open spec fn invalid_of(options: Seq<Seq<u8>>) -> Seq<Seq<u8>>
    decreases options.len(),
{
    if options.len() == 0 {
        Seq::empty()
    } else {
        let before = invalid_of(options.drop_last());
        let option = options.last();
        if option != header_option() && option != table_option() {
            before.push(option)
        } else {
            before
        }
    }
}

/// A position after a boundary between characters where an ASCII character
/// stands is a boundary too.
pub proof fn lemma_boundary_after_ascii(bytes: Seq<u8>, index: int)
    requires
        valid_utf8(bytes),
        0 <= index < bytes.len(),
        is_char_boundary(bytes, index),
        bytes[index] < 0x80,
    ensures
        is_char_boundary(bytes, index + 1),
    decreases bytes.len(),
{
    reveal_with_fuel(is_char_boundary, 2);
    reveal_with_fuel(valid_utf8, 2);
    if index > 0 {
        let first = length_of_first_scalar(bytes);
        let rest = pop_first_scalar(bytes);
        assert(valid_first_scalar(bytes));
        assert(is_char_boundary(rest, index - first));
        assert(index - first >= 0);
        assert(rest[index - first] == bytes[index]);
        lemma_boundary_after_ascii(rest, index - first);
    }
}

/// Options of a format string, and the format that follows them.
#[derive(Debug, PartialEq, Eq)]
pub struct FormatOptions<'a> {
    pub header: bool,
    pub table: bool,
    pub format: &'a str,
}

/// Position of the byte that ends the options of the format `bytes`.
fn find_options_end(bytes: &[u8]) -> (end: Option<usize>)
    ensures
        match end {
            Some(end) => options_end(bytes@) == Some(end as int) && 0 < end < bytes@.len()
                && bytes@[end as int] == CLOSE,
            None => options_end(bytes@) is None,
        },
{
    if bytes.len() == 0 || bytes[0] != OPEN {
        return None;
    }
    let mut index: usize = 0;
    while index < bytes.len()
        invariant
            index <= bytes@.len(),
            bytes@.len() > 0,
            bytes@[0] == OPEN,
            first_index_from(bytes@, CLOSE, 0) == first_index_from(bytes@, CLOSE, index as int),
        decreases bytes@.len() - index,
    {
        if bytes[index] == CLOSE {
            return Some(index);
        }
        index += 1;
    }
    None
}

impl<'a> FormatOptions<'a> {
    /// Cuts the format string `format` into its options and the format that
    /// follows them.
    ///
    /// Options, between brackets and with commas between them, stand at the
    /// start of the string. A string that does not start with `[`, or that
    /// holds no `]`, has no options, and is all format.
    pub fn parse(format: &'a str) -> (options: FormatOptions<'a>)
        ensures
            options.header == options_of(format.spec_bytes()).contains(header_option()),
            options.table == options_of(format.spec_bytes()).contains(table_option()),
            options.format.spec_bytes() == format_of(format.spec_bytes()),
    {
        let bytes = format.as_bytes();
        let mut header = false;
        let mut table = false;
        let mut rest = format;

        if let Some(end) = find_options_end(bytes) {
            proof {
                vstd::utf8::encode_utf8_valid_utf8(format@);
                vstd::utf8::is_char_boundary_iff_not_is_continuation_byte(bytes@, end as int);
                lemma_boundary_after_ascii(bytes@, end as int);
            }
            let len = bytes.len();
            assert(end < len);
            let (_, after) = format.split_at(end + 1);
            rest = after;
            assert(after.spec_bytes() =~= bytes@.skip(end + 1));

            let header_name: [u8; 6] = [0x68, 0x65, 0x61, 0x64, 0x65, 0x72];
            let table_name: [u8; 5] = [0x74, 0x61, 0x62, 0x6c, 0x65];
            assert(header_name@ =~= header_option());
            assert(table_name@ =~= table_option());

            let options = split_bytes(vstd::slice::slice_subrange(bytes, 1, end), COMMA);
            let ghost all = options_of(bytes@);
            assert(all == bytes_view(options@));
            let mut index: usize = 0;
            while index < options.len()
                invariant
                    index <= options@.len(),
                    all == bytes_view(options@),
                    header_name@ == header_option(),
                    table_name@ == table_option(),
                    header == all.take(index as int).contains(header_option()),
                    table == all.take(index as int).contains(table_option()),
                decreases options@.len() - index,
            {
                let option = options[index].as_slice();
                let ghost seen = all.take(index as int);
                let ghost next = all.take(index + 1);
                assert(next =~= seen.push(option@));
                if same_bytes(option, header_name.as_slice()) {
                    header = true;
                    assert(next[index as int] == header_option());
                } else if same_bytes(option, table_name.as_slice()) {
                    table = true;
                    assert(next[index as int] == table_option());
                }
                proof {
                    lemma_contains_push(seen, option@, header_option());
                    lemma_contains_push(seen, option@, table_option());
                }
                index += 1;
            }
            assert(all.take(index as int) =~= all);
        } else {
            assert(!Seq::<Seq<u8>>::empty().contains(header_option()));
            assert(!Seq::<Seq<u8>>::empty().contains(table_option()));
        }

        FormatOptions { header, table, format: rest }
    }

    /// The options of the format string `format` that are neither `header`
    /// nor `table`, in order.
    pub fn invalid_options(format: &str) -> (invalid: Vec<Vec<u8>>)
        ensures
            bytes_view(invalid@) == invalid_of(options_of(format.spec_bytes())),
    {
        let bytes = format.as_bytes();
        let mut invalid: Vec<Vec<u8>> = Vec::new();
        assert(bytes_view(invalid@) =~= Seq::<Seq<u8>>::empty());

        if let Some(end) = find_options_end(bytes) {
            let header_name: [u8; 6] = [0x68, 0x65, 0x61, 0x64, 0x65, 0x72];
            let table_name: [u8; 5] = [0x74, 0x61, 0x62, 0x6c, 0x65];
            assert(header_name@ =~= header_option());
            assert(table_name@ =~= table_option());

            let mut options = split_bytes(vstd::slice::slice_subrange(bytes, 1, end), COMMA);
            let ghost all = options_of(bytes@);
            assert(all == bytes_view(options@));
            assert(all.take(0) =~= Seq::<Seq<u8>>::empty());
            let count = options.len();
            let mut index: usize = 0;
            while index < count
                invariant
                    index <= count,
                    count == options@.len(),
                    count == all.len(),
                    forall|i: int| index <= i < count ==> (#[trigger] options@[i])@ == all[i],
                    header_name@ == header_option(),
                    table_name@ == table_option(),
                    bytes_view(invalid@) == invalid_of(all.take(index as int)),
                decreases count - index,
            {
                let ghost seen = all.take(index as int);
                let ghost taken = bytes_view(invalid@);
                let mut option: Vec<u8> = Vec::new();
                std::mem::swap(&mut option, &mut options[index]);
                assert(option@ == all[index as int]);
                proof {
                    assert(all.take(index + 1).drop_last() =~= seen);
                }
                if !same_bytes(option.as_slice(), header_name.as_slice()) && !same_bytes(
                    option.as_slice(),
                    table_name.as_slice(),
                ) {
                    invalid.push(option);
                    assert(bytes_view(invalid@) =~= taken.push(all[index as int]));
                }
                index += 1;
            }
            assert(all.take(index as int) =~= all);
        }
        invalid
    }
}

/// A run that grows by one item holds a value if it held the value before,
/// or if the item is the value.
pub proof fn lemma_contains_push(items: Seq<Seq<u8>>, item: Seq<u8>, value: Seq<u8>)
    ensures
        items.push(item).contains(value) <==> items.contains(value) || item == value,
{
    let grown = items.push(item);
    if items.contains(value) {
        let i = choose|i: int| 0 <= i < items.len() && items[i] == value;
        assert(grown[i] == value);
    }
    if item == value {
        assert(grown[items.len() as int] == value);
    }
    if grown.contains(value) {
        let i = choose|i: int| 0 <= i < grown.len() && grown[i] == value;
        if i < items.len() {
            assert(items[i] == value);
        }
    }
}

} // verus!
