use timehistory::format::tables::{column_widths, display_width, split_rows, write_rows};
use timehistory::format::TableWriter;

#[test]
fn render_test() {
    let mut table = TableWriter::new(vec![]);

    table.write(b"aaa\tb\tcc\na\t\tc\na\tbbbb\na\tb\tcccc");
    table.flush();

    let buf: Vec<u8> = table.into_inner();
    assert_eq!(
        String::from_utf8(buf).unwrap(),
        "aaa  b     cc\n\
         a          c\n\
         a    bbbb  \n\
         a    b     cccc\n"
    );
}

#[test]
fn skip_ansi_for_width() {
    assert_eq!(display_width("abc\x1b[md"), 4);
    assert_eq!(display_width("0\x1b"), 1);
}

#[test]
fn width_of_wide_and_control_characters() {
    assert_eq!(display_width(""), 0);
    assert_eq!(display_width("日本"), 4);
    assert_eq!(display_width("a\x07b"), 2);
    assert_eq!(display_width("\x1b[1;31mred\x1b[0m"), 3);
}

#[test]
fn table_of_invalid_utf8_is_left_alone() {
    let mut table = TableWriter::new(b"> ".to_vec());
    let written: usize = table.write(&[b'a', b'\t', 0xff, b'\n']);
    assert_eq!(written, 4);
    table.flush();
    assert_eq!(table.into_inner(), vec![b'>', b' ', b'a', b'\t', 0xff, b'\n']);
}

#[test]
fn table_is_flushed_once() {
    let mut table = TableWriter::new(vec![]);
    table.write(b"a\tb  \n\n");
    table.flush();
    table.flush();
    assert_eq!(String::from_utf8(table.into_inner()).unwrap(), "a  b\n\n");
}

#[test]
fn table_with_wide_cells() {
    let mut table = TableWriter::new(vec![]);
    table.write("日本\tx\na\ty".as_bytes());
    table.flush();
    assert_eq!(
        String::from_utf8(table.into_inner()).unwrap(),
        "日本  x\na     y\n"
    );
}

#[test]
fn widths_of_the_columns() {
    let chars: Vec<char> = "aaa\tb\tcc\na\t\tc\na\tbbbb".chars().collect();
    let rows: Vec<Vec<Vec<char>>> = split_rows(&chars);
    assert_eq!(rows.len(), 3);
    assert_eq!(rows[1].len(), 3);
    assert_eq!(rows[2].len(), 2);
    let widths: Vec<u128> = column_widths(&rows);
    assert_eq!(widths, vec![5, 6, 0]);
    let text: String = write_rows(&rows, &widths).into_iter().collect();
    assert_eq!(text, "aaa  b     cc\na          c\na    bbbb  \n");
}

