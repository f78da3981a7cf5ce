use terminal_chat::escapes::{get_escapes, to_unescaped, unescape, Escapes, UnescapeError};

#[test]
fn test_singlechars() {
    let mut string = r#"i said \"hello\\"\n to him"#.to_string();
    unescape(&mut string).unwrap();
    assert_eq!(string, "i said \"hello\\\"\n to him");
}

#[test]
fn test_noescape() {
    let mut string = "this text has no escapes".to_string();
    unescape(&mut string).unwrap();
    assert_eq!(string, "this text has no escapes");
}

#[test]
fn test_hex() {
    let mut string = r#"the char '\x55' should be hex"#.to_string();
    unescape(&mut string).unwrap();
    assert_eq!(string, "the char '\x55' should be hex");
}

#[test]
fn test_octal() {
    let mut string = r#"the char '\o153' should be hex"#.to_string();
    unescape(&mut string).unwrap();
    assert_eq!(
        string,
        format!("the char '{}' should be hex", char::from(0o153u8))
    );
}

#[test]
fn binary_and_decimal_escapes() {
    let mut string = r#"\b01000001\7"#.to_string();
    unescape(&mut string).unwrap();
    assert_eq!(string, "A\u{7}");
}

#[test]
fn bad_escape_is_refused() {
    let mut string = r#"what \q"#.to_string();
    assert_eq!(unescape(&mut string), Err(UnescapeError::BadEsc('q')));
    assert_eq!(string, r#"what \q"#);
}

#[test]
fn short_hex_escape_is_invalid() {
    let mut string = r#"\x5"#.to_string();
    assert_eq!(unescape(&mut string), Err(UnescapeError::Invalid));
}

#[test]
fn trailing_backslash_is_refused() {
    let mut string = r#"end\"#.to_string();
    assert_eq!(unescape(&mut string), Err(UnescapeError::TrailingEsc));
}

#[test]
fn escape_positions_are_reported() {
    let escapes = get_escapes(r#"a\nb\x41"#).unwrap();
    assert_eq!(escapes, vec![(1..3, '\n'), (4..8, 'A')]);
    assert_eq!(Escapes::new(r#"a\nb\x41"#).count_escapes(), 2);
}

#[test]
fn unescaped_copy_borrows_plain_text() {
    assert!(matches!(to_unescaped("plain"), Ok(std::borrow::Cow::Borrowed("plain"))));
    assert_eq!(to_unescaped(r#"a\tb"#).unwrap(), "a\tb");
}

#[test]
fn error_messages() {
    assert_eq!(UnescapeError::BadEsc('q').message(), "unsupported escape: \\q");
    assert_eq!(UnescapeError::Invalid.message(), "incomplete multi-character escape");
    assert_eq!(UnescapeError::TrailingEsc.message(), "string ends with unescaped '\\'");
}

#[test]
fn backslash_b_without_binary_digits_is_backspace() {
    let mut string = r#"x\by"#.to_string();
    unescape(&mut string).unwrap();
    assert_eq!(string, "x\u{8}y");
    let mut string = r#"\b01000001!"#.to_string();
    unescape(&mut string).unwrap();
    assert_eq!(string, "A!");
    let mut string = r#"\b0101z"#.to_string();
    unescape(&mut string).unwrap();
    assert_eq!(string, "\u{8}0101z");
}

#[test]
fn octal_escape_above_a_byte_is_invalid() {
    let mut string = r#"a\o777b"#.to_string();
    assert_eq!(unescape(&mut string), Err(UnescapeError::Invalid));
    assert_eq!(string, r#"a\o777b"#);
    let mut string = r#"\o101"#.to_string();
    unescape(&mut string).unwrap();
    assert_eq!(string, "A");
}

#[test]
fn escape_ranges_count_bytes() {
    let escapes = get_escapes("é\\n").unwrap();
    assert_eq!(escapes, vec![(2..4, '\n')]);
    let text = "ü\\x41€\\t";
    let escapes = get_escapes(text).unwrap();
    assert_eq!(escapes, vec![(2..6, 'A'), (9..11, '\t')]);
    for (range, _) in &escapes {
        assert_eq!(&text.as_bytes()[range.start..range.start + 1], b"\\");
    }
}

#[test]
fn scanner_hands_out_items_in_turn() {
    let mut it = Escapes::new(r#"é\q\n"#);
    assert_eq!(it.count_escapes(), 2);
    assert_eq!(it.next_escape(), Some(Err(UnescapeError::BadEsc('q'))));
    assert_eq!(it.next_escape(), Some(Ok((4..6, '\n'))));
    assert_eq!(it.next_escape(), None);
}

#[test]
fn text_with_a_backslash_is_copied() {
    assert!(matches!(to_unescaped(r#"a\x41"#), Ok(std::borrow::Cow::Owned(ref t)) if t == "aA"));
    assert_eq!(to_unescaped(r#"a\o400"#), Err(UnescapeError::Invalid));
}

#[test]
fn escape_count_matches_escapes_found() {
    let text = r#"a\\b\n"#;
    assert_eq!(Escapes::new(text).count_escapes(), 2);
    assert_eq!(get_escapes(text).unwrap().len(), 2);
    let text = r#"\b\n\x41"#;
    assert_eq!(Escapes::new(text).count_escapes(), 3);
    assert_eq!(get_escapes(text).unwrap(), vec![(0..2, '\u{8}'), (2..4, '\n'), (4..8, 'A')]);
}
