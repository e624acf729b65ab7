//! Byte tables.

use vstd::prelude::*;

verus! {

/// The byte `-`, which writes a range between two bytes.
pub const RANGE_MARK: u8 = 0x2d;

/// The bytes from `low` to `high`, both included.
pub open spec fn byte_range(low: u8, high: u8) -> Set<u8> {
    Set::new(|b: u8| low <= b && b <= high)
}

/// `true` if a range is written at position `index` of `bytes`: a `-` that
/// is neither the first nor the last byte.
pub open spec fn is_range_at(bytes: Seq<u8>, index: int) -> bool {
    0 < index < bytes.len() - 1 && bytes[index] == RANGE_MARK
}

/// The bytes that the groups of `bytes` starting at position `index`
/// describe.
///
/// A group is either a single byte, which describes itself, or a `-` between
/// two bytes, which describes every byte from the one before it to the one
/// after it. The group that follows a range starts after the upper bound of
/// the range.
pub open spec fn groups_from(bytes: Seq<u8>, index: int) -> Set<u8>
    decreases bytes.len() - index,
{
    if index < 0 || index >= bytes.len() {
        Set::empty()
    } else if is_range_at(bytes, index) {
        byte_range(bytes[index - 1], bytes[index + 1]).union(groups_from(bytes, index + 2))
    } else {
        set![bytes[index]].union(groups_from(bytes, index + 1))
    }
}

/// The bytes whose entry in `table` is set.
pub open spec fn marked(table: Seq<bool>) -> Set<u8> {
    Set::new(|b: u8| table[b as int])
}

/// Represents a byte table, where every item of the inner array is `true` if
/// the byte is inside any of the groups given to [`ByteTable::new`].
pub struct ByteTable {
    table: [bool; 256],
}

impl View for ByteTable {
    type V = Set<u8>;

    closed spec fn view(&self) -> Set<u8> {
        marked(self.table@)
    }
}

impl ByteTable {
    /// Creates a new `ByteTable` to contain the bytes specified in `bytes`.
    ///
    /// Bytes can contain a range like `a-b` to specify all bytes between
    /// `a` and `b`.
    ///
    /// If `-` is in the table, it has to be either the first or the last
    /// character of the `bytes` argument.
    pub fn new(bytes: &[u8]) -> (table: ByteTable)
        ensures
            table@ == groups_from(bytes@, 0),
    {
        let mut table: [bool; 256] = [false; 256];
        let mut index: usize = 0;

        assert(marked(table@) =~= Set::empty());
        while index < bytes.len()
            invariant
                index <= bytes.len(),
                groups_from(bytes@, 0) =~= marked(table@).union(
                    groups_from(bytes@, index as int),
                ),
            decreases bytes.len() - index,
        {
            let byte = bytes[index];
            let ghost before = table@;
            if byte == RANGE_MARK && index > 0 && index < bytes.len() - 1 {
                let low = bytes[index - 1];
                let high = bytes[index + 1];
                let mut b: usize = low as usize;
                while b <= high as usize
                    invariant
                        low <= b <= 256,
                        b <= high + 1 || b == low,
                        before.len() == 256,
                        forall|c: u8|
                            #![trigger table@[c as int]]
                            table@[c as int] <==> (before[c as int] || (low <= c && c < b)),
                    decreases 256 - b,
                {
                    table[b] = true;
                    b += 1;
                }
                assert(marked(table@) =~= marked(before).union(byte_range(low, high)));
                index += 2;
            } else {
                table[byte as usize] = true;
                assert(marked(table@) =~= marked(before).union(set![byte]));
                index += 1;
            }
        }

        ByteTable { table }
    }

    /// Returns `true` if the byte is contained in this table.
    pub fn contains(&self, byte: u8) -> (found: bool)
        ensures
            found == self@.contains(byte),
    {
        self.table[byte as usize]
    }
}

} // verus!
