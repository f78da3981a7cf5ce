use terminal_chat::codec::ReadError;
use terminal_chat::demo::{Image, Message};

#[test]
fn message_header_then_content() {
    let m = Message {
        text: "test".to_string(),
        images: vec![Image { data: vec![9, 8] }, Image { data: vec![] }],
    };
    let mut out = Vec::new();
    m.write_to(&mut out);
    assert_eq!(out, vec![4, 0, 2, 2, 0, 0, 0, b't', b'e', b's', b't', 9, 8]);
    assert_eq!(Message::read_from(&out), Ok(Some((m, 13))));
}

#[test]
fn message_reads_back_with_more_after_it() {
    let m = Message { text: "ping".to_string(), images: Vec::new() };
    let mut out = Vec::new();
    m.write_to(&mut out);
    let n = out.len();
    out.extend_from_slice(&[1, 2, 3]);
    assert_eq!(Message::read_from(&out), Ok(Some((m, n))));
}

#[test]
fn empty_stream_holds_no_message() {
    assert_eq!(Message::read_from(&[]), Ok(None));
}

#[test]
fn cut_message_is_an_error() {
    assert_eq!(Message::read_from(&[4]), Err(ReadError::UnexpectedEof));
    assert_eq!(Message::read_from(&[4, 0, 0, b't']), Err(ReadError::UnexpectedEof));
    assert_eq!(
        Message::read_from(&[0, 0, 1, 5, 0, 1, 2]),
        Err(ReadError::UnexpectedEof)
    );
}

#[test]
fn text_must_be_utf8() {
    assert_eq!(Message::read_from(&[1, 0, 0, 0xff]), Err(ReadError::InvalidUtf8));
}

#[test]
fn header_announces_the_body_length() {
    assert_eq!(Message::body_len(&[4, 0, 2, 2, 0, 0, 0]), 6);
    assert_eq!(Message::body_len(&[0, 1, 1, 0xff, 0xff]), 256 + 65535);
    assert_eq!(Message::body_len(&[7, 0, 0]), 7);
}
