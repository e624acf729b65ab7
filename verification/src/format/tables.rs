//! Render a multi-line string as a table.
//!
//! Rows are separated by `\n`, and columns by `\t`.

use crate::bytetables::{groups_from, ByteTable};
use crate::text::{
    chars_of, chars_view, parts, push_chars, split, str_from_utf8, trimmed_end, trimmed_len,
};
use unicode_width::UnicodeWidthChar;
use vstd::prelude::*;
use vstd::utf8::{decode_utf8, encode_utf8, valid_utf8};

verus! {

/// Padding between columns.
pub const PADDING: u128 = 2;

/// The character that starts an ANSI sequence.
pub const ESCAPE: char = '\x1b';

/// The character that ends a row.
pub const NEW_LINE: char = '\n';

/// The character that ends a column.
pub const TAB: char = '\t';

/// The character that fills a column up to its width.
pub const SPACE: char = ' ';

/// The number of columns that a terminal gives to a character, as
/// `UnicodeWidthChar::width` returns it.
pub uninterp spec fn char_width(c: char) -> Option<usize>;

/// The displayed width of `c` in columns, or nothing if `c` is a control
/// character, as `UnicodeWidthChar::width` of the crate `unicode_width`
/// returns it.
#[verifier::external_body]
fn width_of_char(c: char) -> (width: Option<usize>)
    ensures
        width == char_width(c),
{
    UnicodeWidthChar::width(c)
}

/// `true` if `byte` is a parameter of an ANSI sequence: a digit, a space, or
/// one of `:` `;` `[` `?` `!` `"` `'` `#` `%` `(` `)` `*` `+`.
pub open spec fn is_ansi_param(byte: u8) -> bool {
    ||| 0x30 <= byte <= 0x3b
    ||| byte == 0x5b
    ||| byte == 0x3f
    ||| 0x20 <= byte <= 0x23
    ||| byte == 0x25
    ||| 0x27 <= byte <= 0x2b
}

/// The low eight bits of the code of `c`.
pub open spec fn low_byte(c: char) -> u8 {
    (c as u32 % 0x100) as u8
}

/// What is left of `chars`, which follow the start of an ANSI sequence,
/// after the sequence: the parameters are skipped, and the character after
/// them.
pub open spec fn after_sequence(chars: Seq<char>) -> Seq<char>
    decreases chars.len(),
{
    if chars.len() == 0 {
        chars
    } else if is_ansi_param(low_byte(chars[0])) {
        after_sequence(chars.skip(1))
    } else {
        chars.skip(1)
    }
}

/// Width of `chars` on a terminal: the sum of the widths of their
/// characters, control characters and ANSI sequences left out.
pub open spec fn chars_width(chars: Seq<char>) -> nat
    decreases chars.len(),
    via chars_width_decreases
{
    if chars.len() == 0 {
        0
    } else if chars[0] == ESCAPE {
        chars_width(after_sequence(chars.skip(1)))
    } else {
        added_width(0, char_width(chars[0])) + chars_width(chars.skip(1))
    }
}

#[via_fn]
proof fn chars_width_decreases(chars: Seq<char>) {
    if chars.len() > 0 && chars[0] == ESCAPE {
        lemma_after_sequence(chars.skip(1));
    }
}

/// An ANSI sequence leaves a tail of the characters that follow its start.
pub proof fn lemma_after_sequence(chars: Seq<char>)
    ensures
        after_sequence(chars).len() <= chars.len(),
        after_sequence(chars) == chars.skip(chars.len() - after_sequence(chars).len()),
    decreases chars.len(),
{
    if chars.len() == 0 {
        assert(chars.skip(0) =~= chars);
    } else if is_ansi_param(low_byte(chars[0])) {
        lemma_after_sequence(chars.skip(1));
        let rest = after_sequence(chars.skip(1));
        assert(chars.skip(1).skip(chars.len() - 1 - rest.len()) =~= chars.skip(
            chars.len() - rest.len(),
        ));
    }
}

/// `width` with the width `of_char` of one more character, if it has one.
pub open spec fn added_width(width: nat, of_char: Option<usize>) -> nat {
    match of_char {
        Some(of_char) => width + of_char as nat,
        None => width,
    }
}

/// Adds the width of a character, if it has one, to a width.
pub fn add_width(width: u128, of_char: Option<usize>) -> (sum: u128)
    requires
        width + usize::MAX <= u128::MAX,
    ensures
        sum == added_width(width as nat, of_char),
{
    match of_char {
        Some(of_char) => width + of_char as u128,
        None => width,
    }
}

/// The table of the parameters of ANSI sequences.
fn ansi_params() -> (table: ByteTable)
    ensures
        table@ == Set::new(|byte: u8| is_ansi_param(byte)),
{
    let groups: [u8; 18] = [
        0x30,
        0x2d,
        0x39,
        0x3a,
        0x3b,
        0x5b,
        0x3f,
        0x21,
        0x22,
        0x27,
        0x23,
        0x25,
        0x28,
        0x29,
        0x2a,
        0x2b,
        0x20,
        0x20,
    ];
    let table = ByteTable::new(groups.as_slice());
    proof {
        reveal_with_fuel(groups_from, 19);
        assert(groups_from(groups@, 0) =~= Set::new(|byte: u8| is_ansi_param(byte)));
    }
    table
}

/// Compute the width of a string, but skip ANSI sequences.
pub fn width_of(chars: &[char]) -> (width: u128)
    ensures
        width == chars_width(chars@),
        width + PADDING <= u128::MAX,
{
    let params = ansi_params();

    let mut width: u128 = 0;
    let mut index: usize = 0;
    let mut in_sequence = false;
    assert(chars@.skip(0) =~= chars@);
    while index < chars.len()
        invariant
            index <= chars@.len(),
            params@ == Set::new(|byte: u8| is_ansi_param(byte)),
            width <= index * usize::MAX,
            chars_width(chars@) == width + if in_sequence {
                chars_width(after_sequence(chars@.skip(index as int)))
            } else {
                chars_width(chars@.skip(index as int))
            },
        decreases chars@.len() - index,
    {
        let c = chars[index];
        let ghost rest = chars@.skip(index as int);
        assert(rest[0] == c);
        assert(rest.skip(1) =~= chars@.skip(index + 1));
        if in_sequence {
            if !params.contains((c as u32 % 0x100) as u8) {
                in_sequence = false;
            }
        } else if c == ESCAPE {
            in_sequence = true;
        } else {
            assert(index * usize::MAX + usize::MAX == (index + 1) * usize::MAX)
                by (nonlinear_arith);
            assert(index * usize::MAX <= usize::MAX * usize::MAX) by (nonlinear_arith)
                requires
                    index <= usize::MAX,
            ;
            width = add_width(width, width_of_char(c));
        }
        assert(index * usize::MAX <= (index + 1) * usize::MAX) by (nonlinear_arith);
        index += 1;
    }
    assert(chars@.skip(index as int) =~= Seq::<char>::empty());
    assert(index * usize::MAX <= usize::MAX * usize::MAX) by (nonlinear_arith)
        requires
            index <= usize::MAX,
    ;
    width
}

/// Compute the width of a string, but skip ANSI sequences. A width that a
/// `usize` cannot hold is replaced by the largest that it can.
pub fn display_width(s: &str) -> (width: usize)
    ensures
        width == if chars_width(s@) <= usize::MAX {
            chars_width(s@)
        } else {
            usize::MAX as nat
        },
{
    let chars = chars_of(s);
    let width = width_of(chars.as_slice());
    if width > usize::MAX as u128 {
        usize::MAX
    } else {
        width as usize
    }
}

/// The rows of a table, each made of its columns.
pub open spec fn rows(chars: Seq<char>) -> Seq<Seq<Seq<char>>> {
    let lines = parts(chars, NEW_LINE);
    Seq::new(lines.len(), |i: int| parts(lines[i], TAB))
}

/// Number of columns of the first `count` rows of `rows`: that of the row
/// which has most.
pub open spec fn columns(rows: Seq<Seq<Seq<char>>>, count: int) -> nat
    decreases count,
{
    if count <= 0 {
        0
    } else {
        let before = columns(rows, count - 1);
        if rows[count - 1].len() > before {
            rows[count - 1].len()
        } else {
            before
        }
    }
}

/// Width of the column `column` in the first `count` rows of `rows`: that of
/// its widest cell, and the padding; zero if no row has the column.
pub open spec fn column_width(rows: Seq<Seq<Seq<char>>>, count: int, column: int) -> nat
    decreases count,
{
    if count <= 0 {
        0
    } else {
        let before = column_width(rows, count - 1, column);
        if column < rows[count - 1].len() {
            let width = chars_width(rows[count - 1][column]) + PADDING as nat;
            if before < width {
                width
            } else {
                before
            }
        } else {
            before
        }
    }
}

/// The widths of the columns of `rows`. The last column needs no width,
/// and has zero.
pub open spec fn widths(rows: Seq<Seq<Seq<char>>>) -> Seq<nat> {
    let count = columns(rows, rows.len() as int);
    Seq::new(
        count,
        |column: int|
            if column == count - 1 {
                0
            } else {
                column_width(rows, rows.len() as int, column)
            },
    )
}

/// The cell `cell`, filled with spaces up to `width`.
pub open spec fn padded(cell: Seq<char>, width: nat) -> Seq<char> {
    if width >= chars_width(cell) {
        cell + Seq::new((width - chars_width(cell)) as nat, |i: int| SPACE)
    } else {
        cell
    }
}

/// The first `count` cells of the row `row`, each filled up to the width of
/// its column.
pub open spec fn cells(row: Seq<Seq<char>>, widths: Seq<nat>, count: int) -> Seq<char>
    decreases count,
{
    if count <= 0 {
        Seq::empty()
    } else {
        cells(row, widths, count - 1) + padded(row[count - 1], widths[count - 1])
    }
}

/// The first `count` rows of `rows` as lines: the cells of a row that have
/// a column are filled up to the width of their column, and a new line
/// follows them.
pub open spec fn lines(rows: Seq<Seq<Seq<char>>>, widths: Seq<nat>, count: int) -> Seq<char>
    decreases count,
{
    if count <= 0 {
        Seq::empty()
    } else {
        let row = rows[count - 1];
        let shown = if row.len() <= widths.len() {
            row.len()
        } else {
            widths.len()
        };
        lines(rows, widths, count - 1) + cells(row, widths, shown as int) + seq![NEW_LINE]
    }
}

/// The table that `contents` describe.
///
/// Contents that are no valid UTF-8 are left as they are. Else the white
/// space at the end is dropped, the rest is cut into rows and columns, and
/// every row is written with its cells filled up to the widths of their
/// columns.
pub open spec fn table(contents: Seq<u8>) -> Seq<u8> {
    if valid_utf8(contents) {
        let rows = rows(trimmed_end(decode_utf8(contents)));
        encode_utf8(lines(rows, widths(rows), rows.len() as int))
    } else {
        contents
    }
}

/// The cells that each row of `rows` holds.
pub open spec fn rows_view(rows: Seq<Vec<Vec<char>>>) -> Seq<Seq<Seq<char>>> {
    Seq::new(rows.len(), |i: int| chars_view(rows[i]@))
}

/// What each of `widths` holds.
pub open spec fn widths_view(widths: Seq<u128>) -> Seq<nat> {
    Seq::new(widths.len(), |i: int| widths[i] as nat)
}

/// Cuts `chars` into the rows of a table, each made of its columns.
pub fn split_rows(chars: &[char]) -> (found: Vec<Vec<Vec<char>>>)
    ensures
        rows_view(found@) == rows(chars@),
{
    let lines = split(chars, NEW_LINE);
    let mut found: Vec<Vec<Vec<char>>> = Vec::new();
    let mut index: usize = 0;
    while index < lines.len()
        invariant
            index <= lines@.len(),
            chars_view(lines@) == parts(chars@, NEW_LINE),
            found@.len() == index,
            forall|i: int|
                0 <= i < index ==> chars_view(#[trigger] found@[i]@) == parts(
                    lines@[i]@,
                    TAB,
                ),
        decreases lines@.len() - index,
    {
        let row = split(lines[index].as_slice(), TAB);
        found.push(row);
        index += 1;
    }
    proof {
        let all = parts(chars@, NEW_LINE);
        assert forall|i: int| 0 <= i < found@.len() implies rows_view(found@)[i] == rows(
            chars@,
        )[i] by {
            assert(chars_view(lines@)[i] == all[i]);
        }
        assert(rows_view(found@) =~= rows(chars@));
    }
    found
}

/// Compute the width for every column: that of its widest cell, and the
/// padding. The last column does not need the width value.
pub fn column_widths(rows: &Vec<Vec<Vec<char>>>) -> (found: Vec<u128>)
    ensures
        widths_view(found@) == widths(rows_view(rows@)),
{
    let ghost all = rows_view(rows@);
    let mut found: Vec<u128> = Vec::new();
    let mut index: usize = 0;
    while index < rows.len()
        invariant
            index <= rows@.len(),
            all == rows_view(rows@),
            found@.len() == columns(all, index as int),
            forall|n: int|
                0 <= n < found@.len() ==> #[trigger] found@[n] == column_width(
                    all,
                    index as int,
                    n,
                ),
        decreases rows@.len() - index,
    {
        let row = &rows[index];
        assert(all[index as int] == chars_view(row@));
        let ghost before = found@;
        let mut column: usize = 0;
        while column < row.len()
            invariant
                column <= row@.len(),
                index < rows@.len(),
                all == rows_view(rows@),
                all[index as int] == chars_view(row@),
                before.len() == columns(all, index as int),
                forall|n: int|
                    0 <= n < before.len() ==> #[trigger] before[n] == column_width(
                        all,
                        index as int,
                        n,
                    ),
                found@.len() == if column > before.len() {
                    column as nat
                } else {
                    before.len()
                },
                forall|n: int|
                    0 <= n < column ==> #[trigger] found@[n] == column_width(all, index + 1, n),
                forall|n: int| column <= n < found@.len() ==> #[trigger] found@[n] == before[n],
            decreases row@.len() - column,
        {
            let width = width_of(row[column].as_slice()) + PADDING;
            proof {
                if column >= before.len() {
                    lemma_no_such_column(all, index as int, column as int);
                }
            }
            if column < found.len() {
                if found[column] < width {
                    found[column] = width;
                }
            } else {
                found.push(width);
            }
            column += 1;
        }
        proof {
            assert forall|n: int| 0 <= n < found@.len() implies #[trigger] found@[n]
                == column_width(all, index + 1, n) by {
                if n >= column {
                    assert(found@[n] == before[n]);
                }
            }
        }
        index += 1;
    }
    if found.len() > 0 {
        let last = found.len() - 1;
        found[last] = 0;
    }
    assert(widths_view(found@) =~= widths(all));
    found
}

/// A column that no row has, has no width.
pub proof fn lemma_no_such_column(rows: Seq<Seq<Seq<char>>>, count: int, column: int)
    requires
        column >= columns(rows, count),
    ensures
        column_width(rows, count, column) == 0,
    decreases count,
{
    if count > 0 {
        lemma_no_such_column(rows, count - 1, column);
    }
}

/// Writes the rows of a table as lines: every cell is filled with spaces up
/// to the width of its column.
pub fn write_rows(rows: &Vec<Vec<Vec<char>>>, widths: &Vec<u128>) -> (text: Vec<char>)
    ensures
        text@ == lines(rows_view(rows@), widths_view(widths@), rows@.len() as int),
{
    let ghost all = rows_view(rows@);
    let ghost limits = widths_view(widths@);
    let mut text: Vec<char> = Vec::new();
    let mut index: usize = 0;
    while index < rows.len()
        invariant
            index <= rows@.len(),
            all == rows_view(rows@),
            limits == widths_view(widths@),
            text@ == lines(all, limits, index as int),
        decreases rows@.len() - index,
    {
        let row = &rows[index];
        assert(all[index as int] == chars_view(row@));
        let shown = if row.len() <= widths.len() {
            row.len()
        } else {
            widths.len()
        };
        let ghost before = text@;
        let mut column: usize = 0;
        assert(text@ =~= before + cells(all[index as int], limits, 0));
        while column < shown
            invariant
                column <= shown,
                shown <= row@.len(),
                shown <= widths@.len(),
                index < rows@.len(),
                limits == widths_view(widths@),
                all[index as int] == chars_view(row@),
                text@ == before + cells(all[index as int], limits, column as int),
            decreases shown - column,
        {
            let cell = &row[column];
            let ghost so_far = text@;
            let used = width_of(cell.as_slice());
            let mut index_in_cell: usize = 0;
            while index_in_cell < cell.len()
                invariant
                    index_in_cell <= cell@.len(),
                    text@ == so_far + cell@.take(index_in_cell as int),
                decreases cell@.len() - index_in_cell,
            {
                text.push(cell[index_in_cell]);
                index_in_cell += 1;
                assert(text@ =~= so_far + cell@.take(index_in_cell as int));
            }
            assert(cell@.take(cell@.len() as int) =~= cell@);
            if widths[column] >= used {
                let spaces = widths[column] - used;
                let mut filled: u128 = 0;
                assert(text@ =~= so_far + cell@ + Seq::new(0, |i: int| SPACE));
                while filled < spaces
                    invariant
                        filled <= spaces,
                        text@ == so_far + cell@ + Seq::new(filled as nat, |i: int| SPACE),
                    decreases spaces - filled,
                {
                    text.push(SPACE);
                    filled += 1;
                    assert(text@ =~= so_far + cell@ + Seq::new(filled as nat, |i: int| SPACE));
                }
            }
            proof {
                let cell_chars = all[index as int][column as int];
                assert(cell_chars == cell@);
                assert(limits[column as int] == widths@[column as int]);
                assert(text@ =~= so_far + padded(cell_chars, limits[column as int]));
                assert(before + cells(all[index as int], limits, column as int) + padded(
                    cell_chars,
                    limits[column as int],
                ) =~= before + cells(all[index as int], limits, column + 1));
            }
            column += 1;
        }
        text.push(NEW_LINE);
        proof {
            assert(text@ =~= lines(all, limits, index + 1));
        }
        index += 1;
    }
    text
}

/// Writer that lays out as a table what is written to it.
///
/// The writer collects what is written to it. When it is flushed, it sends
/// the table that the collected bytes describe to its output.
pub struct TableWriter {
    output: Vec<u8>,
    contents: Vec<u8>,
}

impl TableWriter {
    /// What was sent to the output.
    pub closed spec fn output(&self) -> Seq<u8> {
        self.output@
    }

    /// What was written since the writer was last flushed.
    pub closed spec fn contents(&self) -> Seq<u8> {
        self.contents@
    }

    /// A writer that sends its tables after what `output` holds.
    pub fn new(output: Vec<u8>) -> (writer: TableWriter)
        ensures
            writer.output() == output@,
            writer.contents() == Seq::<u8>::empty(),
    {
        TableWriter { output, contents: Vec::new() }
    }

    /// Collects `buf`. Returns the number of bytes collected: all of
    /// them.
    pub fn write(&mut self, buf: &[u8]) -> (written: usize)
        ensures
            written == buf@.len(),
            final(self).contents() == old(self).contents() + buf@,
            final(self).output() == old(self).output(),
    {
        let mut index: usize = 0;
        while index < buf.len()
            invariant
                index <= buf@.len(),
                self.output@ == old(self).output@,
                self.contents@ == old(self).contents@ + buf@.take(index as int),
            decreases buf@.len() - index,
        {
            self.contents.push(buf[index]);
            index += 1;
            assert(self.contents@ =~= old(self).contents@ + buf@.take(index as int));
        }
        assert(buf@.take(index as int) =~= buf@);
        buf.len()
    }

    /// Sends the table that the collected bytes describe to the output, and
    /// forgets the bytes.
    ///
    /// Bytes that are no valid UTF-8 are sent as they are.
    pub fn flush(&mut self)
        ensures
            final(self).output() == old(self).output() + table(old(self).contents()),
            final(self).contents() == Seq::<u8>::empty(),
    {
        match str_from_utf8(self.contents.as_slice()) {
            Some(text) => {
                let chars = chars_of(text);
                let kept = vstd::slice::slice_subrange(
                    chars.as_slice(),
                    0,
                    trimmed_len(chars.as_slice()),
                );
                assert(kept@ =~= trimmed_end(chars@));
                let rows = split_rows(kept);

                // Compute the width for every column.
                let widths = column_widths(&rows);

                // Print table.
                let lines = write_rows(&rows, &widths);
                push_chars(&mut self.output, lines.as_slice());
            },
            None => {
                let mut index: usize = 0;
                while index < self.contents.len()
                    invariant
                        index <= self.contents@.len(),
                        self.contents@ == old(self).contents@,
                        self.output@ == old(self).output@ + self.contents@.take(index as int),
                    decreases self.contents@.len() - index,
                {
                    let byte = self.contents[index];
                    self.output.push(byte);
                    index += 1;
                    assert(self.output@ =~= old(self).output@ + self.contents@.take(
                        index as int,
                    ));
                }
                assert(self.contents@.take(index as int) =~= self.contents@);
            },
        }
        self.contents.clear();
    }

    /// Returns what was sent to the output.
    pub fn into_inner(self) -> (output: Vec<u8>)
        ensures
            output@ == self.output(),
    {
        self.output
    }
}

} // verus!
