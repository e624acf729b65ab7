use timehistory::format::FormatOptions;

#[test]
fn parse_options() {
    assert_eq!(
        FormatOptions::parse("abc"),
        FormatOptions {
            header: false,
            table: false,
            format: "abc"
        }
    );

    assert_eq!(
        FormatOptions::parse("[header]abc"),
        FormatOptions {
            header: true,
            table: false,
            format: "abc"
        }
    );

    assert_eq!(
        FormatOptions::parse("[table,header]abc"),
        FormatOptions {
            header: true,
            table: true,
            format: "abc"
        }
    );

    assert_eq!(
        FormatOptions::parse("[]abc"),
        FormatOptions {
            header: false,
            table: false,
            format: "abc"
        }
    );
}

#[test]
fn options_without_their_end() {
    assert_eq!(
        FormatOptions::parse("[header,table"),
        FormatOptions { header: false, table: false, format: "[header,table" }
    );
    assert_eq!(
        FormatOptions::parse(""),
        FormatOptions { header: false, table: false, format: "" }
    );
    assert_eq!(
        FormatOptions::parse(" [header]%n"),
        FormatOptions { header: false, table: false, format: " [header]%n" }
    );
}

#[test]
fn options_before_any_format() {
    assert_eq!(
        FormatOptions::parse("[table]"),
        FormatOptions { header: false, table: true, format: "" }
    );
    assert_eq!(
        FormatOptions::parse("[table]αβ]γ"),
        FormatOptions { header: false, table: true, format: "αβ]γ" }
    );
    assert_eq!(
        FormatOptions::parse("[header,table]%n\\t%(time:%X)\\t%P\\t%e\\t%C"),
        FormatOptions { header: true, table: true, format: "%n\\t%(time:%X)\\t%P\\t%e\\t%C" }
    );
}

#[test]
fn options_that_are_not_known() {
    assert_eq!(
        FormatOptions::parse("[Header, table,tables,δ]x"),
        FormatOptions { header: false, table: false, format: "x" }
    );
    let invalid: Vec<Vec<u8>> =
        FormatOptions::invalid_options("[Header, table,header,tables,δ,]x");
    assert_eq!(
        invalid,
        vec![
            b"Header".to_vec(),
            b" table".to_vec(),
            b"tables".to_vec(),
            "δ".as_bytes().to_vec(),
            b"".to_vec()
        ]
    );
    assert_eq!(FormatOptions::invalid_options("[]abc"), vec![b"".to_vec()]);
    assert!(FormatOptions::invalid_options("[table,header]abc").is_empty());
    assert!(FormatOptions::invalid_options("abc[x]").is_empty());
}
