use terminal_chat::ameon::de::{from_bytes, Deserializer};
use terminal_chat::ameon::error::{Error, IoErrorKind};
use terminal_chat::ameon::ser::{to_bytes, Serializer};
use terminal_chat::ameon::value::{Schema, Value, VariantShape};

fn byte_list(bytes: &[u8]) -> Value {
    Value::List(bytes.iter().map(|b| Value::U8(*b)).collect())
}

/// should be able to serialize and deserialize a byte string exactly as it was given
#[test]
fn test_symmetric() {
    const BYTES: &[u8] = b"y53t237r8wbf71u08t4h  7qh8mwe9c9fh238 cync9rfcjmh39   72rm1m  3 c\"::\"%^:L$WT\":ETEW\'47qG^%&#$*@!&(#%!\\::<>>>MSDF<AS?,./";
    let data = to_bytes(&byte_list(BYTES)).unwrap();
    let echo = from_bytes(data.as_slice(), &Schema::List(Box::new(Schema::U8))).unwrap();
    assert_eq!(echo, byte_list(BYTES));
}

#[test]
fn test_struct() {
    // struct Foo { apple: bool, orange: usize }
    let schema = Schema::Tuple(vec![Schema::Bool, Schema::U64]);
    let foo = Value::Tuple(vec![Value::Bool(false), Value::U64(5473)]);
    assert_eq!(from_bytes(&to_bytes(&foo).unwrap(), &schema).unwrap(), foo);
}

#[test]
fn test_enum() {
    // enum Foo { Apple, Orange(u32), Banana { peel: bool, color: String } }
    let schema = Schema::Enum(vec![
        VariantShape::Unit,
        VariantShape::Newtype(Schema::U32),
        VariantShape::Fields(vec![Schema::Bool, Schema::Str]),
    ]);
    let foo = Value::UnitVariant(0);
    let bar = Value::NewtypeVariant(1, Box::new(Value::U32(65)));
    let baz = Value::TupleVariant(2, vec![Value::Bool(true), Value::Str("yellow".to_string())]);
    assert_eq!(from_bytes(&to_bytes(&foo).unwrap(), &schema).unwrap(), foo);
    assert_eq!(from_bytes(&to_bytes(&bar).unwrap(), &schema).unwrap(), bar);
    assert_eq!(from_bytes(&to_bytes(&baz).unwrap(), &schema).unwrap(), baz);
}

#[test]
fn integers_are_big_endian_in_full_width() {
    assert_eq!(to_bytes(&Value::U16(0x0102)).unwrap(), vec![1, 2]);
    assert_eq!(to_bytes(&Value::I32(-2)).unwrap(), vec![0xff, 0xff, 0xff, 0xfe]);
    assert_eq!(to_bytes(&Value::Bool(true)).unwrap(), vec![1]);
}

#[test]
fn strings_follow_their_length() {
    let bytes = to_bytes(&Value::Str("hé".to_string())).unwrap();
    assert_eq!(bytes, vec![0, 0, 0, 0, 0, 0, 0, 3, b'h', 0xc3, 0xa9]);
    assert_eq!(
        from_bytes(&bytes, &Schema::Str).unwrap(),
        Value::Str("hé".to_string())
    );
}

#[test]
fn characters_read_back() {
    let v = Value::Char('ß');
    let bytes = to_bytes(&v).unwrap();
    assert_eq!(bytes, vec![0xc3, 0x9f]);
    assert_eq!(from_bytes(&bytes, &Schema::Char).unwrap(), v);
}

#[test]
fn optional_values_read_back() {
    let schema = Schema::Optional(Box::new(Schema::I8));
    let some = Value::Present(Box::new(Value::I8(-5)));
    assert_eq!(to_bytes(&some).unwrap(), vec![1, 0xfb]);
    assert_eq!(from_bytes(&to_bytes(&some).unwrap(), &schema).unwrap(), some);
    assert_eq!(from_bytes(&[0], &schema).unwrap(), Value::Absent);
}

#[test]
fn trailing_bytes_are_left_over() {
    assert_eq!(from_bytes(&[1, 7], &Schema::Bool), Err(Error::Leftover));
}

#[test]
fn short_input_ends_early() {
    assert_eq!(
        from_bytes(&[0, 1], &Schema::U32),
        Err(Error::Io(IoErrorKind::UnexpectedEof))
    );
}

#[test]
fn invalid_utf8_is_refused() {
    let bytes = [0, 0, 0, 0, 0, 0, 0, 1, 0xff];
    assert_eq!(
        from_bytes(&bytes, &Schema::Str),
        Err(Error::Io(IoErrorKind::InvalidData))
    );
}

#[test]
fn unknown_variant_is_refused() {
    let schema = Schema::Enum(vec![VariantShape::Unit]);
    assert_eq!(from_bytes(&[3], &schema), Err(Error::UnknownVariant(3)));
}

#[test]
fn serializer_and_deserializer_work_step_by_step() {
    let mut ser = Serializer::new();
    ser.serialize_u8(9);
    ser.serialize_bool(false);
    let bytes = ser.into_bytes();
    assert_eq!(bytes, vec![9, 0]);
    let mut de = Deserializer::from_bytes(&bytes);
    assert!(!de.is_empty());
    assert_eq!(de.deserialize_identifier(), Ok(9));
    assert_eq!(de.deserialize_bool(), Ok(false));
    assert!(de.is_empty());
}

/// The messages of the chat protocol, written as values of the shape their
/// serialization takes, read back unchanged.
#[test]
fn test_message() {
    let identifier = || {
        Schema::Enum(vec![VariantShape::Newtype(Schema::Str), VariantShape::Newtype(Schema::Str)])
    };
    let destination = Schema::Enum(vec![
        VariantShape::Newtype(identifier()),
        VariantShape::Newtype(Schema::Str),
    ]);
    let attachment = Schema::Tuple(vec![Schema::Str, Schema::Str, Schema::Bytes]);
    let user_message = Schema::Tuple(vec![
        Schema::Optional(Box::new(identifier())),
        destination,
        Schema::Str,
        Schema::Str,
        Schema::List(Box::new(attachment)),
    ]);
    let errors = Schema::Enum((0..6).map(|_| VariantShape::Unit).collect());
    let schema = Schema::Enum(vec![
        VariantShape::Unit,
        VariantShape::Unit,
        VariantShape::Newtype(errors),
        VariantShape::Newtype(user_message),
    ]);
    let to_client = |addr: &str| {
        Value::NewtypeVariant(
            0,
            Box::new(Value::NewtypeVariant(0, Box::new(Value::Str(addr.to_string())))),
        )
    };
    let user = |dest: Value, text: &str, attachments: Vec<Value>| {
        Value::NewtypeVariant(
            3,
            Box::new(Value::Tuple(vec![
                Value::Absent,
                dest,
                Value::Str("2024-01-01T00:00:00Z".to_string()),
                Value::Str(text.to_string()),
                Value::List(attachments),
            ])),
        )
    };
    let items = vec![
        Value::UnitVariant(0),
        Value::UnitVariant(1),
        Value::NewtypeVariant(2, Box::new(Value::UnitVariant(0))),
        user(to_client("127.0.0.1:5555"), "hello", Vec::new()),
        user(
            to_client("10.0.0.5:8080"),
            "hi!",
            vec![Value::Tuple(vec![
                Value::Str("test.txt".to_string()),
                Value::Str("example".to_string()),
                Value::Bytes(b"rhgu234ifghqw a9fdh1398 y3rbg9779q842gyb89re8iyuwsda".to_vec()),
            ])],
        ),
    ];
    for item in items {
        let bytes = to_bytes(&item).unwrap();
        let message = from_bytes(&bytes, &schema).unwrap();
        assert_eq!(message, item);
    }
}
