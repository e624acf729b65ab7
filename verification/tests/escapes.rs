use timehistory::format::EscapeArgument;

#[test]
fn format_escape_strings() {
    assert_eq!(EscapeArgument(b"abc0134").to_string(), "abc0134");
    assert_eq!(EscapeArgument(b"abc/0134..").to_string(), "abc/0134..");
    assert_eq!(EscapeArgument(b"abc 0134").to_string(), "'abc 0134'");
    assert_eq!(EscapeArgument(b"abc '134").to_string(), "'abc \\'134'");
    assert_eq!(
        EscapeArgument("α β".as_bytes()).to_string(),
        r#"'\xce\xb1 \xce\xb2'"#
    );
}

#[test]
fn tests_escape_strings() {
    assert_eq!(EscapeArgument(b"abc0134").to_string(), "abc0134");
    assert_eq!(EscapeArgument(b"abc/0134..").to_string(), "abc/0134..");
    assert_eq!(EscapeArgument(b"abc 0134").to_string(), "'abc 0134'");
    assert_eq!(EscapeArgument(b"abc '134").to_string(), "'abc \\'134'");
    assert_eq!(
        EscapeArgument("α β".as_bytes()).to_string(),
        r#"'\xce\xb1 \xce\xb2'"#
    );
}

#[test]
fn escape_control_characters() {
    assert_eq!(
        EscapeArgument(b"a\tb\rc\nd\"e\\f\x00g\x7f").to_string(),
        r#"'a\tb\rc\nd\"e\\f\x00g\x7f'"#
    );
}

#[test]
fn escape_nothing_in_plain_arguments() {
    assert_eq!(
        EscapeArgument(b"--key=value,a_b:c/d.e-9").to_string(),
        "--key=value,a_b:c/d.e-9"
    );
    assert_eq!(EscapeArgument(b"").to_string(), "");
}

#[test]
fn escape_as_bytes() {
    assert_eq!(EscapeArgument(b"a b").to_bytes(), b"'a b'".to_vec());
    assert_eq!(EscapeArgument(&[0xff]).to_bytes(), b"'\\xff'".to_vec());
    assert_eq!(EscapeArgument(b"~").to_bytes(), b"'~'".to_vec());
}
