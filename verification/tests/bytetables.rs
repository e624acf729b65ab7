use timehistory::bytetables::ByteTable;

#[test]
fn check_table() {
    let table: ByteTable = ByteTable::new(b",._a-fA-F-");
    assert!(table.contains(b','));
    assert!(table.contains(b'-'));
    assert!(table.contains(b'.'));
    assert!(table.contains(b'C'));
    assert!(table.contains(b'F'));
    assert!(table.contains(b'_'));
    assert!(table.contains(b'a'));
    assert!(table.contains(b'c'));
    assert!(!table.contains(b'H'));
    assert!(!table.contains(b'\t'));
    assert!(!table.contains(b'~'));
    assert!(!table.contains(b'\x10'));

    let count: usize = (0..=255u8).filter(|b| table.contains(*b)).count();
    assert_eq!(count, 16);
}

#[test]
fn table_of_single_bytes() {
    let table: ByteTable = ByteTable::new(b"xyz");
    let found: Vec<u8> = (0..=255u8).filter(|b| table.contains(*b)).collect();
    assert_eq!(found, b"xyz".to_vec());
}

#[test]
fn table_with_dash_at_the_ends() {
    let table: ByteTable = ByteTable::new(b"-a-");
    let found: Vec<u8> = (0..=255u8).filter(|b| table.contains(*b)).collect();
    assert_eq!(found, b"-a".to_vec());
}

#[test]
fn table_with_range_up_to_the_last_byte() {
    let table: ByteTable = ByteTable::new(&[0xf0, b'-', 0xff]);
    let count: usize = (0..=255u8).filter(|b| table.contains(*b)).count();
    assert_eq!(count, 16);
    assert!(table.contains(0xff));
    assert!(!table.contains(0xef));
}

#[test]
fn table_with_empty_range() {
    let table: ByteTable = ByteTable::new(b"z-a");
    let found: Vec<u8> = (0..=255u8).filter(|b| table.contains(*b)).collect();
    assert_eq!(found, b"z".to_vec());
}

#[test]
fn table_of_nothing() {
    let table: ByteTable = ByteTable::new(b"");
    let count: usize = (0..=255u8).filter(|b| table.contains(*b)).count();
    assert_eq!(count, 0);
}
