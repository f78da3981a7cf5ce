use terminal_chat::escapes::unescape;
use terminal_chat::format::{FormatError, FormatNodes, Replacement, FLAG_BOLD, FLAG_TCODE};

#[test]
fn test_bold() {
    let mut s = "apple **orange** banana".to_string();
    terminal_chat::format::format(&mut s).unwrap();
    assert_eq!(&s, "apple \x1b[1morange\x1b[22m banana");
}

#[test]
fn test_italic() {
    let mut s = "apple *orange* banana".to_string();
    terminal_chat::format::format(&mut s).unwrap();
    assert_eq!(&s, "apple \x1b[3morange\x1b[23m banana");
}

#[test]
fn test_bold_italic() {
    let mut s = "apple ***orange*** banana".to_string();
    terminal_chat::format::format(&mut s).unwrap();
    assert_eq!(&s, "apple \x1b[1m\x1b[3morange\x1b[22m\x1b[23m banana");
}

#[test]
fn test_bold_italic_mixed() {
    let mut s = "apple *ora**nge*** banana".to_string();
    terminal_chat::format::format(&mut s).unwrap();
    assert_eq!(&s, "apple \x1b[3mora\x1b[1mnge\x1b[22m\x1b[23m banana");
}

#[test]
fn test_code() {
    let mut s = "apple `**orange**` banana".to_string();
    terminal_chat::format::format(&mut s).unwrap();
    assert_eq!(&s, "apple **orange** banana");
}

#[test]
fn test_dcode() {
    let mut s = "apple ``ee ` ee`` banana".to_string();
    terminal_chat::format::format(&mut s).unwrap();
    assert_eq!(&s, "apple ee ` ee banana");
}

#[test]
fn test_tcode() {
    let mut s = "apple ```ee `` ee``` banana".to_string();
    terminal_chat::format::format(&mut s).unwrap();
    assert_eq!(&s, "apple ee `` ee banana");
}

#[test]
fn test_multiescape() {
    let mut s = r#"hello **big dylan**! i remember your \x1b[91mred"#.to_string();
    terminal_chat::format::format(&mut s).unwrap();
    assert_eq!(
        &s,
        "hello \x1b[1mbig dylan\x1b[22m! i remember your \\x1b[91mred"
    );
    unescape(&mut s).unwrap();
    assert_eq!(
        &s,
        "hello \x1b[1mbig dylan\x1b[22m! i remember your \x1b[91mred"
    );
}

#[test]
fn plain_text_is_left_alone() {
    let mut s = "nothing to see here, 1 + 2 = 3".to_string();
    terminal_chat::format::format(&mut s).unwrap();
    assert_eq!(&s, "nothing to see here, 1 + 2 = 3");
}

#[test]
fn unclosed_bold_is_refused_and_text_kept() {
    let mut s = "apple **orange".to_string();
    assert_eq!(terminal_chat::format::format(&mut s), Err(FormatError::Unclosed(FLAG_BOLD)));
    assert_eq!(&s, "apple **orange");
}

#[test]
fn unclosed_message_lists_every_entry() {
    assert_eq!(
        FormatError::Unclosed(FLAG_BOLD).message(),
        "style(s) started but not ended: , bold, , , , , , "
    );
    assert_eq!(
        FormatError::Unclosed(FLAG_TCODE).message(),
        "style(s) started but not ended: , , , , , code (`), double code (``), triple code (```)"
    );
}

#[test]
fn replacements_encode_as_text() {
    let mut buf = [0u8; 4];
    assert_eq!(Replacement::Char('x').encode_utf8(&mut buf), "x");
    assert_eq!(buf, [b'x', 0, 0, 0]);
    assert_eq!(Replacement::Str("\x1b[1m").encode_utf8(&mut buf), "\x1b[1m");
    assert_eq!(buf, [b'x', 0, 0, 0]);
    let mut buf = [7u8; 4];
    assert_eq!(Replacement::Char('é').encode_utf8(&mut buf), "é");
    assert_eq!(buf, [0xC3, 0xA9, 7, 7]);
}

#[test]
fn delimiter_ranges_count_bytes() {
    let mut it = FormatNodes::new("é**");
    match it.next_node() {
        Some(Ok((range, rep))) => {
            assert_eq!(range, 2..4);
            let mut buf = [0u8; 4];
            assert_eq!(rep.encode_utf8(&mut buf), "\x1b[1m");
        }
        other => panic!("unexpected item {:?}", other),
    }
    assert_eq!(
        it.next_node().map(|x| x.map(|_| ())),
        Some(Err(FormatError::Unclosed(FLAG_BOLD)))
    );
}

#[test]
fn delimiters_come_in_order_on_char_boundaries() {
    let text = "é*a* `c`";
    let mut it = FormatNodes::new(text);
    let mut ranges = Vec::new();
    let mut empties = Vec::new();
    while let Some(item) = it.next_node() {
        let (range, rep) = item.unwrap();
        assert!(text.is_char_boundary(range.start) && text.is_char_boundary(range.end));
        let mut buf = [0u8; 4];
        empties.push(rep.encode_utf8(&mut buf).is_empty());
        ranges.push(range);
    }
    assert_eq!(ranges, vec![2..3, 4..5, 6..7, 8..9]);
    assert_eq!(empties, vec![false, false, true, true]);
}
