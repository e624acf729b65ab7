use timehistory::text::{
    append_chars, append_spaces, ascii_to_string, chars_of, find, is_whitespace, push_chars,
    same_bytes, split, split_bytes, split_whitespace, stands_at, string_of, text_le, trim,
    trimmed_len, white_space_len,
};

fn chars(text: &str) -> Vec<char> {
    text.chars().collect()
}

fn strings(parts: Vec<Vec<char>>) -> Vec<String> {
    parts.into_iter().map(|part| part.into_iter().collect()).collect()
}

#[test]
fn split_on_separator() {
    let parts: Vec<String> = strings(split(&chars("a,,bc,"), ','));
    assert_eq!(parts, vec!["a", "", "bc", ""]);
    let empty: Vec<char> = vec![];
    assert_eq!(split(&empty, ',').len(), 1);
}

#[test]
fn trim_white_space_at_the_end() {
    let chars: Vec<char> = " a b \t\n\u{a0} ".chars().collect();
    assert_eq!(trimmed_len(&chars), 4);
    let spaces: Vec<char> = "  ".chars().collect();
    assert_eq!(trimmed_len(&spaces), 0);
}

#[test]
fn white_space_is_that_of_the_standard_library() {
    for code in 0..=0x10ffffu32 {
        if let Some(c) = char::from_u32(code) {
            assert_eq!(is_whitespace(c), c.is_whitespace(), "{:x}", code);
        }
    }
}

#[test]
fn white_space_around_a_text() {
    let text: Vec<char> = chars("\u{3000}\t a b\n ");
    assert_eq!(white_space_len(&text), 3);
    assert_eq!(trim(&text), &chars("a b")[..]);
    assert_eq!(trim(&chars(" \n")).len(), 0);
    assert_eq!(trim(&chars("")).len(), 0);
    assert_eq!(trim(&chars("x")), &['x'][..]);
}

#[test]
fn words_of_a_text() {
    assert_eq!(
        strings(split_whitespace(&chars("  %e\t%(elapsed) x "))),
        vec!["%e", "%(elapsed)", "x"]
    );
    assert!(split_whitespace(&chars(" \n ")).is_empty());
    assert!(split_whitespace(&chars("")).is_empty());
    assert_eq!(strings(split_whitespace(&chars("one"))), vec!["one"]);
}

#[test]
fn pattern_in_a_text() {
    let text: Vec<char> = chars("ab%SPECS%\ncd%SPECS%\n");
    let pattern: Vec<char> = chars("%SPECS%\n");
    assert_eq!(find(&text, &pattern), Some(2));
    assert_eq!(find(&text[3..], &pattern), Some(9));
    assert_eq!(find(&text[..9], &pattern), None);
    assert_eq!(find(&text, &[]), Some(0));
    assert_eq!(find(&[], &[]), Some(0));
    assert_eq!(find(&[], &pattern), None);
    assert!(stands_at(&text, &pattern, 2));
    assert!(!stands_at(&text, &pattern, 3));
    assert!(!stands_at(&text, &pattern, 18));
    assert!(stands_at(&text, &[], 20));
    assert!(!stands_at(&text, &[], 21));
}

#[test]
fn order_of_texts() {
    assert!(text_le(&chars(""), &chars("")));
    assert!(text_le(&chars(""), &chars("a")));
    assert!(!text_le(&chars("a"), &chars("")));
    assert!(text_le(&chars("!n"), &chars("%n")));
    assert!(text_le(&chars("%(pid)"), &chars("%(pid)")));
    assert!(text_le(&chars("%(pi"), &chars("%(pid)")));
    assert!(!text_le(&chars("%e"), &chars("%E")));
    assert!(text_le(&chars("z"), &chars("é")));
    for (left, right) in [("a", "b"), ("ab", "a"), ("", "x"), ("é", "z"), ("日", "本")] {
        assert_eq!(text_le(&chars(left), &chars(right)), left <= right);
    }
}

#[test]
fn texts_from_characters_and_bytes() {
    assert_eq!(chars_of("aé日"), vec!['a', 'é', '日']);
    assert_eq!(string_of(&['a', 'é', '日']), "aé日");
    assert_eq!(ascii_to_string(b"abc ~"), "abc ~");
    let mut bytes: Vec<u8> = vec![b'>'];
    push_chars(&mut bytes, &['a', 'é', '日', '\u{10ffff}']);
    assert_eq!(bytes, ">aé日\u{10ffff}".as_bytes().to_vec());
    let mut text: Vec<char> = vec!['x'];
    append_chars(&mut text, &['y', 'z']);
    append_spaces(&mut text, 3);
    append_spaces(&mut text, 0);
    assert_eq!(text, chars("xyz   "));
}

#[test]
fn bytes_are_cut_and_compared() {
    assert_eq!(
        split_bytes(b"header,,table", b','),
        vec![b"header".to_vec(), b"".to_vec(), b"table".to_vec()]
    );
    assert_eq!(split_bytes(b"", b','), vec![b"".to_vec()]);
    assert!(same_bytes(b"table", b"table"));
    assert!(!same_bytes(b"table", b"tablE"));
    assert!(!same_bytes(b"table", b"tables"));
    assert!(same_bytes(b"", b""));
}
