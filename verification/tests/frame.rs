use terminal_chat::ameon::de::from_bytes;
use terminal_chat::ameon::ser::to_bytes;
use terminal_chat::ameon::value::{Schema, Value};
use terminal_chat::frame::{decode_frame, encode_frame, FrameError, INCOMING_MESSAGE_CODE};

#[test]
fn frames_read_back() {
    let payload = b"hello hello hello hello".to_vec();
    let frame = encode_frame(&payload);
    assert_eq!(frame[0], INCOMING_MESSAGE_CODE);
    let len = u64::from_le_bytes(frame[1..9].try_into().unwrap()) as usize;
    assert_eq!(frame.len(), 9 + len);
    assert_ne!(&frame[9..], &payload[..]);
    assert_eq!(decode_frame(&frame), Ok(Some((payload, 9 + len))));
}

#[test]
fn frames_read_back_with_more_after_them() {
    let mut frame = encode_frame(b"abc");
    let n = frame.len();
    frame.extend_from_slice(&encode_frame(b"def"));
    assert_eq!(decode_frame(&frame), Ok(Some((b"abc".to_vec(), n))));
    assert_eq!(decode_frame(&frame[n..]), Ok(Some((b"def".to_vec(), frame.len() - n))));
}

#[test]
fn empty_stream_holds_no_frame() {
    assert_eq!(decode_frame(&[]), Ok(None));
}

#[test]
fn cut_frames_are_errors() {
    assert_eq!(decode_frame(&[255, 1, 0]), Err(FrameError::UnexpectedEof));
    assert_eq!(
        decode_frame(&[255, 5, 0, 0, 0, 0, 0, 0, 0, 1]),
        Err(FrameError::UnexpectedEof)
    );
}

#[test]
fn bad_payload_is_an_inflate_error() {
    let bytes = [255, 3, 0, 0, 0, 0, 0, 0, 0, 0xff, 0xff, 0xff];
    assert!(matches!(decode_frame(&bytes), Err(FrameError::Inflate(_))));
}

#[test]
fn framed_values_read_back() {
    let schema = Schema::Tuple(vec![Schema::Str, Schema::U32]);
    let value = Value::Tuple(vec![Value::Str("hello".to_string()), Value::U32(7)]);
    let bytes = to_bytes(&value).unwrap();
    let mut stream = encode_frame(&bytes);
    let framed = stream.len();
    stream.extend_from_slice(&[255, 1, 2]);
    let (payload, used) = decode_frame(&stream).unwrap().unwrap();
    assert_eq!(used, framed);
    assert_eq!(payload, bytes);
    assert_eq!(from_bytes(&payload, &schema).unwrap(), value);
}
