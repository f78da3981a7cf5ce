use terminal_chat::codec::{
    ReadError, ReadFrom, ReadListFrom, SizeError, UnknownVariantError, VarReadFrom, VarWriteTo,
    WriteListTo, WriteTo,
};

#[test]
fn integers_are_little_endian() {
    let mut out = Vec::new();
    0x1234u16.write_to(&mut out);
    (-2i16).write_to(&mut out);
    0x0102_0304u32.write_to(&mut out);
    assert_eq!(out, vec![0x34, 0x12, 0xfe, 0xff, 4, 3, 2, 1]);
    assert_eq!(<u16 as ReadFrom>::read_from(&out), Ok((0x1234, 2)));
    assert_eq!(<i16 as ReadFrom>::read_from(&out[2..]), Ok((-2, 2)));
    assert_eq!(<u32 as ReadFrom>::read_from(&out[4..]), Ok((0x0102_0304, 4)));
}

#[test]
fn wide_integers_read_back() {
    let mut out = Vec::new();
    (-7i128).write_to(&mut out);
    u64::MAX.write_to(&mut out);
    assert_eq!(<i128 as ReadFrom>::read_from(&out), Ok((-7, 16)));
    assert_eq!(<u64 as ReadFrom>::read_from(&out[16..]), Ok((u64::MAX, 8)));
    assert_eq!(<i64 as ReadFrom>::read_from(&out[16..]), Ok((-1, 8)));
}

#[test]
fn short_input_is_an_error() {
    assert_eq!(<u32 as ReadFrom>::read_from(&[1, 2]), Err(ReadError::UnexpectedEof));
    assert_eq!(<u8 as ReadFrom>::read_from(&[]), Err(ReadError::UnexpectedEof));
}

#[test]
fn booleans_and_options() {
    let mut out = Vec::new();
    true.write_to(&mut out);
    Some(7u8).write_to(&mut out);
    None::<u8>.write_to(&mut out);
    assert_eq!(out, vec![1, 1, 7, 0]);
    assert_eq!(<bool as ReadFrom>::read_from(&[5]), Ok((true, 1)));
    assert_eq!(<Option<u8> as ReadFrom>::read_from(&out[1..]), Ok((Some(7), 2)));
    assert_eq!(<Option<u8> as ReadFrom>::read_from(&out[3..]), Ok((None, 1)));
}

#[test]
fn lengths_must_fit() {
    let mut out = Vec::new();
    assert_eq!(
        VarWriteTo::write_to::<1>(&300usize, &mut out),
        Err(SizeError { value: 300, bytes: 1 })
    );
    assert!(out.is_empty());
    assert_eq!(VarWriteTo::write_to::<2>(&300usize, &mut out), Ok(()));
    assert_eq!(out, vec![44, 1]);
}

#[test]
fn buffers_follow_their_length() {
    let mut out = Vec::new();
    VarWriteTo::write_to::<1>(&b"hi"[..], &mut out).unwrap();
    VarWriteTo::write_to::<2>("hé", &mut out).unwrap();
    assert_eq!(out, vec![2, b'h', b'i', 3, 0, b'h', 0xc3, 0xa9]);
    assert_eq!(
        <Vec<u8> as VarReadFrom>::read_from::<1>(&out),
        Ok((b"hi".to_vec(), 3))
    );
    assert_eq!(
        <String as VarReadFrom>::read_from::<2>(&out[3..]),
        Ok(("hé".to_string(), 5))
    );
}

#[test]
fn strings_must_be_utf8() {
    assert_eq!(
        <String as VarReadFrom>::read_from::<1>(&[1, 0xff]),
        Err(ReadError::InvalidUtf8)
    );
    assert_eq!(
        <Vec<u8> as VarReadFrom>::read_from::<1>(&[3, 1]),
        Err(ReadError::UnexpectedEof)
    );
}

#[test]
fn lists_read_back() {
    let items: Vec<u16> = vec![1, 2, 0x300];
    let mut out = Vec::new();
    items.write_list::<1>(&mut out).unwrap();
    assert_eq!(out, vec![3, 1, 0, 2, 0, 0, 3]);
    assert_eq!(<Vec<u16> as ReadListFrom<u16>>::read_list::<1>(&out), Ok((items, 7)));
    assert_eq!(
        <Vec<u16> as ReadListFrom<u16>>::read_list::<1>(&out[..4]),
        Err(ReadError::UnexpectedEof)
    );
}

#[test]
fn unknown_variant_keeps_the_byte() {
    let e = UnknownVariantError(b'z');
    assert_eq!(e.0, b'z');
}
