//! The values that the encoding carries, the shapes that tell the decoder what
//! to expect, and what the encoding of a value is.
use vstd::prelude::*;
use vstd::utf8::*;

use crate::ameon::be::{
    be_bytes, be_value, lemma_be_bytes_len, lemma_be_roundtrip, lemma_pow256_values, pow256,
};
use crate::ameon::error::Error;

verus! {

/// A value of the data model.
#[derive(Debug, PartialEq, Eq)]
pub enum Value {
    Bool(bool),
    I8(i8),
    I16(i16),
    I32(i32),
    I64(i64),
    I128(i128),
    U8(u8),
    U16(u16),
    U32(u32),
    U64(u64),
    U128(u128),
    Char(char),
    Str(String),
    Bytes(Vec<u8>),
    /// An optional value that is absent.
    Absent,
    /// An optional value that is present.
    Present(Box<Value>),
    /// An enum variant without data, by index.
    UnitVariant(u32),
    /// An enum variant with one value, by index.
    NewtypeVariant(u32, Box<Value>),
    /// A sequence whose length is written before it. A map is written as a
    /// list of two-field tuples, key then value.
    List(Vec<Value>),
    /// A tuple or a struct: its fields, without a length.
    Tuple(Vec<Value>),
    /// An enum variant with fields, by index.
    TupleVariant(u32, Vec<Value>),
}

/// A value of the data model, in the model.
pub enum ValueView {
    Bool(bool),
    I8(i8),
    I16(i16),
    I32(i32),
    I64(i64),
    I128(i128),
    U8(u8),
    U16(u16),
    U32(u32),
    U64(u64),
    U128(u128),
    Char(char),
    Str(Seq<char>),
    Bytes(Seq<u8>),
    Absent,
    Present(Box<ValueView>),
    UnitVariant(u32),
    NewtypeVariant(u32, Box<ValueView>),
    List(Seq<ValueView>),
    Tuple(Seq<ValueView>),
    TupleVariant(u32, Seq<ValueView>),
}

/// What a decoder should expect next.
#[derive(Debug)]
pub enum Schema {
    Bool,
    I8,
    I16,
    I32,
    I64,
    I128,
    U8,
    U16,
    U32,
    U64,
    U128,
    Char,
    Str,
    Bytes,
    Optional(Box<Schema>),
    List(Box<Schema>),
    Tuple(Vec<Schema>),
    Enum(Vec<VariantShape>),
}

/// What an enum variant holds.
#[derive(Debug)]
pub enum VariantShape {
    Unit,
    Newtype(Schema),
    Fields(Vec<Schema>),
}

pub open spec fn value_view(v: Value) -> ValueView
    decreases v,
{
    match v {
        Value::Bool(b) => ValueView::Bool(b),
        Value::I8(x) => ValueView::I8(x),
        Value::I16(x) => ValueView::I16(x),
        Value::I32(x) => ValueView::I32(x),
        Value::I64(x) => ValueView::I64(x),
        Value::I128(x) => ValueView::I128(x),
        Value::U8(x) => ValueView::U8(x),
        Value::U16(x) => ValueView::U16(x),
        Value::U32(x) => ValueView::U32(x),
        Value::U64(x) => ValueView::U64(x),
        Value::U128(x) => ValueView::U128(x),
        Value::Char(c) => ValueView::Char(c),
        Value::Str(s) => ValueView::Str(s@),
        Value::Bytes(b) => ValueView::Bytes(b@),
        Value::Absent => ValueView::Absent,
        Value::Present(x) => ValueView::Present(Box::new(value_view(*x))),
        Value::UnitVariant(i) => ValueView::UnitVariant(i),
        Value::NewtypeVariant(i, x) => ValueView::NewtypeVariant(i, Box::new(value_view(*x))),
        Value::List(xs) => ValueView::List(values_view(xs@)),
        Value::Tuple(xs) => ValueView::Tuple(values_view(xs@)),
        Value::TupleVariant(i, xs) => ValueView::TupleVariant(i, values_view(xs@)),
    }
}

pub open spec fn values_view(xs: Seq<Value>) -> Seq<ValueView>
    decreases xs,
{
    if xs.len() == 0 {
        seq![]
    } else {
        seq![value_view(xs[0])] + values_view(xs.drop_first())
    }
}

impl View for Value {
    type V = ValueView;

    open spec fn view(&self) -> ValueView {
        value_view(*self)
    }
}

/// A length in eight bytes, then the bytes.
pub open spec fn length_prefixed(b: Seq<u8>) -> Seq<u8> {
    be_bytes(b.len(), 8) + b
}

/// The encoding of a value.
pub open spec fn encode(v: ValueView) -> Seq<u8>
    decreases v,
{
    match v {
        ValueView::Bool(b) => seq![
            if b {
                1u8
            } else {
                0u8
            },
        ],
        ValueView::I8(x) => seq![x as u8],
        ValueView::I16(x) => be_bytes((x as u16) as nat, 2),
        ValueView::I32(x) => be_bytes((x as u32) as nat, 4),
        ValueView::I64(x) => be_bytes((x as u64) as nat, 8),
        ValueView::I128(x) => be_bytes((x as u128) as nat, 16),
        ValueView::U8(x) => seq![x],
        ValueView::U16(x) => be_bytes(x as nat, 2),
        ValueView::U32(x) => be_bytes(x as nat, 4),
        ValueView::U64(x) => be_bytes(x as nat, 8),
        ValueView::U128(x) => be_bytes(x as nat, 16),
        ValueView::Char(c) => encode_scalar(c as u32),
        ValueView::Str(s) => length_prefixed(encode_utf8(s)),
        ValueView::Bytes(b) => length_prefixed(b),
        ValueView::Absent => seq![0u8],
        ValueView::Present(x) => seq![1u8] + encode(*x),
        ValueView::UnitVariant(i) => seq![i as u8],
        ValueView::NewtypeVariant(i, x) => seq![i as u8] + encode(*x),
        ValueView::List(xs) => be_bytes(xs.len(), 8) + encode_all(xs),
        ValueView::Tuple(xs) => encode_all(xs),
        ValueView::TupleVariant(i, xs) => seq![i as u8] + encode_all(xs),
    }
}

/// The encodings of the values one after the other.
pub open spec fn encode_all(xs: Seq<ValueView>) -> Seq<u8>
    decreases xs,
{
    if xs.len() == 0 {
        seq![]
    } else {
        encode(xs[0]) + encode_all(xs.drop_first())
    }
}

/// The value can be encoded: variant indices fit a byte and lengths fit the machine.
pub open spec fn encodable(v: ValueView) -> bool
    decreases v,
{
    match v {
        ValueView::Str(s) => encode_utf8(s).len() <= usize::MAX,
        ValueView::Bytes(b) => b.len() <= usize::MAX,
        ValueView::Present(x) => encodable(*x),
        ValueView::UnitVariant(i) => i < 256,
        ValueView::NewtypeVariant(i, x) => i < 256 && encodable(*x),
        ValueView::List(xs) => xs.len() <= usize::MAX && all_encodable(xs),
        ValueView::Tuple(xs) => all_encodable(xs),
        ValueView::TupleVariant(i, xs) => i < 256 && all_encodable(xs),
        _ => true,
    }
}

pub open spec fn all_encodable(xs: Seq<ValueView>) -> bool
    decreases xs,
{
    xs.len() > 0 ==> encodable(xs[0]) && all_encodable(xs.drop_first())
}

/// The value has the shape that the schema describes.
pub open spec fn conforms(v: ValueView, s: Schema) -> bool
    decreases v,
{
    match (v, s) {
        (ValueView::Bool(_), Schema::Bool) => true,
        (ValueView::I8(_), Schema::I8) => true,
        (ValueView::I16(_), Schema::I16) => true,
        (ValueView::I32(_), Schema::I32) => true,
        (ValueView::I64(_), Schema::I64) => true,
        (ValueView::I128(_), Schema::I128) => true,
        (ValueView::U8(_), Schema::U8) => true,
        (ValueView::U16(_), Schema::U16) => true,
        (ValueView::U32(_), Schema::U32) => true,
        (ValueView::U64(_), Schema::U64) => true,
        (ValueView::U128(_), Schema::U128) => true,
        (ValueView::Char(_), Schema::Char) => true,
        (ValueView::Str(_), Schema::Str) => true,
        (ValueView::Bytes(_), Schema::Bytes) => true,
        (ValueView::Absent, Schema::Optional(_)) => true,
        (ValueView::Present(x), Schema::Optional(inner)) => conforms(*x, *inner),
        (ValueView::List(xs), Schema::List(e)) => all_conform(xs, *e),
        (ValueView::Tuple(xs), Schema::Tuple(ss)) => each_conforms(xs, ss@),
        (ValueView::UnitVariant(i), Schema::Enum(vs)) => i < vs.len() && vs@[i as int] is Unit,
        (ValueView::NewtypeVariant(i, x), Schema::Enum(vs)) => i < vs.len() && match vs@[i as int] {
            VariantShape::Newtype(s2) => conforms(*x, s2),
            _ => false,
        },
        (ValueView::TupleVariant(i, xs), Schema::Enum(vs)) => i < vs.len() && match vs@[i as int] {
            VariantShape::Fields(ss) => each_conforms(xs, ss@),
            _ => false,
        },
        _ => false,
    }
}

/// Every value conforms to `e`.
pub open spec fn all_conform(xs: Seq<ValueView>, e: Schema) -> bool
    decreases xs,
{
    xs.len() > 0 ==> conforms(xs[0], e) && all_conform(xs.drop_first(), e)
}

/// The values conform one by one to the schemas.
pub open spec fn each_conforms(xs: Seq<ValueView>, ss: Seq<Schema>) -> bool
    decreases xs,
{
    if xs.len() == 0 {
        ss.len() == 0
    } else {
        ss.len() > 0 && conforms(xs[0], ss[0]) && each_conforms(xs.drop_first(), ss.drop_first())
    }
}

/// A decoding outcome: the value and the number of bytes it took, or an error.
pub type Decoded<T> = Result<(T, int), Error>;

/// Reads `n` bytes that hold an unsigned number.
pub open spec fn read_fixed(b: Seq<u8>, n: int) -> Decoded<nat> {
    if b.len() < n {
        Err(Error::eof())
    } else {
        Ok((be_value(b.take(n)), n))
    }
}

/// Reads a length: eight bytes, which must fit the machine's `usize`.
pub open spec fn read_len(b: Seq<u8>) -> Decoded<nat> {
    if b.len() < 8 {
        Err(Error::eof())
    } else if be_value(b.take(8)) > usize::MAX {
        Err(Error::FromInt)
    } else {
        Ok((be_value(b.take(8)), 8))
    }
}

/// Reads one character in UTF-8.
pub open spec fn read_char(b: Seq<u8>) -> Decoded<char> {
    if valid_first_scalar(b) {
        Ok((decode_first_scalar(b) as char, length_of_first_scalar(b)))
    } else {
        Err(Error::eof())
    }
}

/// Reads a length, then that many bytes.
pub open spec fn read_bytes(b: Seq<u8>) -> Decoded<Seq<u8>> {
    match read_len(b) {
        Err(e) => Err(e),
        Ok((len, _)) => if b.len() - 8 < len {
            Err(Error::eof())
        } else {
            Ok((b.subrange(8, 8 + len as int), 8 + len as int))
        },
    }
}

/// Reads a length, then that many bytes of UTF-8.
pub open spec fn read_str(b: Seq<u8>) -> Decoded<Seq<char>> {
    match read_bytes(b) {
        Err(e) => Err(e),
        Ok((bytes, n)) => if valid_utf8(bytes) {
            Ok((decode_utf8(bytes), n))
        } else {
            Err(Error::bad_utf8())
        },
    }
}

/// Applies `f` to a decoded value, keeping the count; adds `k` bytes read before it.
pub open spec fn after<T, U>(d: Decoded<T>, k: int, f: spec_fn(T) -> U) -> Decoded<U> {
    match d {
        Ok((x, n)) => Ok((f(x), n + k)),
        Err(e) => Err(e),
    }
}

/// What decoding a value of schema `s` from the start of `b` gives.
pub open spec fn decode(s: Schema, b: Seq<u8>) -> Decoded<ValueView>
    decreases s, 0nat,
{
    match s {
        Schema::Bool => after(read_fixed(b, 1), 0, |x: nat| ValueView::Bool(x != 0)),
        Schema::I8 => after(read_fixed(b, 1), 0, |x: nat| ValueView::I8(x as i8)),
        Schema::I16 => after(read_fixed(b, 2), 0, |x: nat| ValueView::I16(x as i16)),
        Schema::I32 => after(read_fixed(b, 4), 0, |x: nat| ValueView::I32(x as i32)),
        Schema::I64 => after(read_fixed(b, 8), 0, |x: nat| ValueView::I64(x as i64)),
        Schema::I128 => after(read_fixed(b, 16), 0, |x: nat| ValueView::I128(x as i128)),
        Schema::U8 => after(read_fixed(b, 1), 0, |x: nat| ValueView::U8(x as u8)),
        Schema::U16 => after(read_fixed(b, 2), 0, |x: nat| ValueView::U16(x as u16)),
        Schema::U32 => after(read_fixed(b, 4), 0, |x: nat| ValueView::U32(x as u32)),
        Schema::U64 => after(read_fixed(b, 8), 0, |x: nat| ValueView::U64(x as u64)),
        Schema::U128 => after(read_fixed(b, 16), 0, |x: nat| ValueView::U128(x as u128)),
        Schema::Char => after(read_char(b), 0, |c: char| ValueView::Char(c)),
        Schema::Str => after(read_str(b), 0, |s: Seq<char>| ValueView::Str(s)),
        Schema::Bytes => after(read_bytes(b), 0, |x: Seq<u8>| ValueView::Bytes(x)),
        Schema::Optional(inner) => match read_fixed(b, 1) {
            Err(e) => Err(e),
            Ok((tag, _)) => if tag != 0 {
                after(
                    decode(*inner, b.skip(1)),
                    1,
                    |x: ValueView| ValueView::Present(Box::new(x)),
                )
            } else {
                Ok((ValueView::Absent, 1))
            },
        },
        Schema::List(e) => match read_len(b) {
            Err(err) => Err(err),
            Ok((len, _)) => after(
                decode_n(*e, len, b.skip(8)),
                8,
                |xs: Seq<ValueView>| ValueView::List(xs),
            ),
        },
        Schema::Tuple(ss) => after(
            decode_each(ss@, b),
            0,
            |xs: Seq<ValueView>| ValueView::Tuple(xs),
        ),
        Schema::Enum(vs) => match read_fixed(b, 1) {
            Err(err) => Err(err),
            Ok((idx, _)) => if idx >= vs.len() {
                Err(Error::UnknownVariant(idx as u8))
            } else {
                decode_variant(vs@[idx as int], idx as u32, b.skip(1))
            },
        },
    }
}

/// What decoding the data of variant `i`, of shape `shape`, gives (after its index byte).
pub open spec fn decode_variant(shape: VariantShape, i: u32, b: Seq<u8>) -> Decoded<ValueView>
    decreases shape, 0nat,
{
    match shape {
        VariantShape::Unit => Ok((ValueView::UnitVariant(i), 1)),
        VariantShape::Newtype(s2) => after(
            decode(s2, b),
            1,
            |x: ValueView| ValueView::NewtypeVariant(i, Box::new(x)),
        ),
        VariantShape::Fields(ss) => after(
            decode_each(ss@, b),
            1,
            |xs: Seq<ValueView>| ValueView::TupleVariant(i, xs),
        ),
    }
}

/// What decoding `n` values of schema `e`, one after the other, gives.
pub open spec fn decode_n(e: Schema, n: nat, b: Seq<u8>) -> Decoded<Seq<ValueView>>
    decreases e, n + 1,
{
    if n == 0 {
        Ok((seq![], 0))
    } else {
        match decode(e, b) {
            Err(err) => Err(err),
            Ok((x, k)) => if 0 <= k <= b.len() {
                after(
                    decode_n(e, (n - 1) as nat, b.skip(k)),
                    k,
                    |xs: Seq<ValueView>| seq![x] + xs,
                )
            } else {
                Err(Error::Syntax)
            },
        }
    }
}

/// What decoding one value of each schema, one after the other, gives.
pub open spec fn decode_each(ss: Seq<Schema>, b: Seq<u8>) -> Decoded<Seq<ValueView>>
    decreases ss, 0nat,
{
    if ss.len() == 0 {
        Ok((seq![], 0))
    } else {
        match decode(ss[0], b) {
            Err(err) => Err(err),
            Ok((x, k)) => if 0 <= k <= b.len() {
                after(
                    decode_each(ss.drop_first(), b.skip(k)),
                    k,
                    |xs: Seq<ValueView>| seq![x] + xs,
                )
            } else {
                Err(Error::Syntax)
            },
        }
    }
}

proof fn lemma_read_fixed(x: nat, n: nat, rest: Seq<u8>)
    requires
        x < pow256(n),
    ensures
        read_fixed(be_bytes(x, n) + rest, n as int) == Ok::<(nat, int), Error>((x, n as int)),
        (be_bytes(x, n) + rest).skip(n as int) == rest,
{
    lemma_be_bytes_len(x, n);
    assert((be_bytes(x, n) + rest).take(n as int) == be_bytes(x, n));
    assert((be_bytes(x, n) + rest).skip(n as int) == rest);
    lemma_be_roundtrip(x, n);
}

proof fn lemma_read_byte(x: u8, rest: Seq<u8>)
    ensures
        read_fixed(seq![x] + rest, 1) == Ok::<(nat, int), Error>((x as nat, 1)),
        (seq![x] + rest).skip(1) == rest,
{
    let b = seq![x] + rest;
    assert(b.take(1) == seq![x]);
    assert(seq![x].drop_last() == Seq::<u8>::empty());
    assert(be_value(Seq::<u8>::empty()) == 0);
    assert(be_value(seq![x]) == be_value(seq![x].drop_last()) * 256 + (seq![x].last() as nat));
    assert(be_value(seq![x]) == x as nat);
    assert(b.skip(1) == rest);
}

proof fn lemma_read_len(n: nat, rest: Seq<u8>)
    requires
        n <= usize::MAX,
    ensures
        read_len(be_bytes(n, 8) + rest) == Ok::<(nat, int), Error>((n, 8)),
        (be_bytes(n, 8) + rest).skip(8) == rest,
{
    lemma_pow256_values();
    lemma_read_fixed(n, 8, rest);
}

proof fn lemma_read_bytes(b: Seq<u8>, rest: Seq<u8>)
    requires
        b.len() <= usize::MAX,
    ensures
        read_bytes(length_prefixed(b) + rest) == Ok::<(Seq<u8>, int), Error>(
            (b, length_prefixed(b).len() as int),
        ),
        length_prefixed(b).len() == 8 + b.len(),
{
    lemma_be_bytes_len(b.len(), 8);
    let all = length_prefixed(b) + rest;
    assert(all == be_bytes(b.len(), 8) + (b + rest));
    lemma_read_len(b.len(), b + rest);
    assert(all.subrange(8, 8 + b.len() as int) == b);
}

/// When `a` is exactly the UTF-8 encoding of one scalar, bytes after it do not
/// change how it is read.
proof fn lemma_first_scalar_prefix(c: char, rest: Seq<u8>)
    ensures
        valid_first_scalar(encode_scalar(c as u32) + rest),
        decode_first_scalar(encode_scalar(c as u32) + rest) as char == c,
        length_of_first_scalar(encode_scalar(c as u32) + rest) == encode_scalar(c as u32).len(),
{
    let e = encode_scalar(c as u32);
    let chars = seq![c];
    assert(chars.drop_first() == Seq::<char>::empty());
    assert(encode_utf8(chars) == e + encode_utf8(Seq::<char>::empty()));
    assert(encode_utf8(Seq::<char>::empty()) == Seq::<u8>::empty());
    assert(e + Seq::<u8>::empty() == e);
    encode_utf8_first_scalar(chars);
    char_u32_cast(c, decode_first_scalar(e));
    let b = e + rest;
    assert(1 <= e.len() <= 4);
    assert(forall|k: int| 0 <= k < e.len() ==> #[trigger] b[k] == e[k]);
}

proof fn lemma_signed_casts(a: i8, b: i16, c: i32, d: i64, e: i128)
    ensures
        ((a as u8) as nat) as i8 == a,
        ((b as u16) as nat) as i16 == b,
        ((c as u32) as nat) as i32 == c,
        ((d as u64) as nat) as i64 == d,
        ((e as u128) as nat) as i128 == e,
{
    assert((a as u8) as i8 == a) by (bit_vector);
    assert((b as u16) as i16 == b) by (bit_vector);
    assert((c as u32) as i32 == c) by (bit_vector);
    assert((d as u64) as i64 == d) by (bit_vector);
    assert((e as u128) as i128 == e) by (bit_vector);
}

/// Decoding the encoding of a value, with any bytes after it, gives the value
/// back and takes exactly its encoding.
#[verifier::spinoff_prover]
#[verifier::rlimit(40)]
pub proof fn lemma_roundtrip(v: ValueView, s: Schema, rest: Seq<u8>)
    requires
        conforms(v, s),
        encodable(v),
    ensures
        decode(s, encode(v) + rest) == Ok::<(ValueView, int), Error>((v, encode(v).len() as int)),
    decreases v,
{
    lemma_pow256_values();
    let b = encode(v) + rest;
    match v {
        ValueView::Bool(x) => {
            lemma_read_byte(if x { 1u8 } else { 0u8 }, rest);
            assert(decode(s, b) == Ok::<(ValueView, int), Error>((v, encode(v).len() as int)));
        },
        ValueView::I8(x) => {
            lemma_read_byte(x as u8, rest);
            lemma_signed_casts(x, 0, 0, 0, 0);
            assert(decode(s, b) == Ok::<(ValueView, int), Error>((v, encode(v).len() as int)));
        },
        ValueView::I16(x) => {
            lemma_read_fixed((x as u16) as nat, 2, rest);
            lemma_be_bytes_len((x as u16) as nat, 2);
            lemma_signed_casts(0, x, 0, 0, 0);
            assert(decode(s, b) == Ok::<(ValueView, int), Error>((v, encode(v).len() as int)));
        },
        ValueView::I32(x) => {
            lemma_read_fixed((x as u32) as nat, 4, rest);
            lemma_be_bytes_len((x as u32) as nat, 4);
            lemma_signed_casts(0, 0, x, 0, 0);
            assert(decode(s, b) == Ok::<(ValueView, int), Error>((v, encode(v).len() as int)));
        },
        ValueView::I64(x) => {
            lemma_read_fixed((x as u64) as nat, 8, rest);
            lemma_be_bytes_len((x as u64) as nat, 8);
            lemma_signed_casts(0, 0, 0, x, 0);
            assert(decode(s, b) == Ok::<(ValueView, int), Error>((v, encode(v).len() as int)));
        },
        ValueView::I128(x) => {
            lemma_read_fixed((x as u128) as nat, 16, rest);
            lemma_be_bytes_len((x as u128) as nat, 16);
            lemma_signed_casts(0, 0, 0, 0, x);
            assert(decode(s, b) == Ok::<(ValueView, int), Error>((v, encode(v).len() as int)));
        },
        ValueView::U8(x) => {
            lemma_read_byte(x, rest);
            assert(decode(s, b) == Ok::<(ValueView, int), Error>((v, encode(v).len() as int)));
        },
        ValueView::U16(x) => {
            lemma_read_fixed(x as nat, 2, rest);
            lemma_be_bytes_len(x as nat, 2);
            assert(decode(s, b) == Ok::<(ValueView, int), Error>((v, encode(v).len() as int)));
        },
        ValueView::U32(x) => {
            lemma_read_fixed(x as nat, 4, rest);
            lemma_be_bytes_len(x as nat, 4);
            assert(decode(s, b) == Ok::<(ValueView, int), Error>((v, encode(v).len() as int)));
        },
        ValueView::U64(x) => {
            lemma_read_fixed(x as nat, 8, rest);
            lemma_be_bytes_len(x as nat, 8);
            assert(decode(s, b) == Ok::<(ValueView, int), Error>((v, encode(v).len() as int)));
        },
        ValueView::U128(x) => {
            lemma_read_fixed(x as nat, 16, rest);
            lemma_be_bytes_len(x as nat, 16);
            assert(decode(s, b) == Ok::<(ValueView, int), Error>((v, encode(v).len() as int)));
        },
        ValueView::Char(c) => {
            lemma_first_scalar_prefix(c, rest);
            assert(decode(s, b) == Ok::<(ValueView, int), Error>((v, encode(v).len() as int)));
        },
        ValueView::Str(t) => {
            let e = encode_utf8(t);
            lemma_read_bytes(e, rest);
            encode_utf8_valid_utf8(t);
            encode_utf8_decode_utf8(t);
            assert(decode(s, b) == Ok::<(ValueView, int), Error>((v, encode(v).len() as int)));
        },
        ValueView::Bytes(x) => {
            lemma_read_bytes(x, rest);
            assert(decode(s, b) == Ok::<(ValueView, int), Error>((v, encode(v).len() as int)));
        },
        ValueView::Absent => {
            lemma_read_byte(0u8, rest);
            assert(decode(s, b) == Ok::<(ValueView, int), Error>((v, encode(v).len() as int)));
        },
        ValueView::Present(x) => {
            let inner = match s {
                Schema::Optional(i) => *i,
                _ => s,
            };
            assert(b == seq![1u8] + (encode(*x) + rest));
            lemma_read_byte(1u8, encode(*x) + rest);
            lemma_roundtrip(*x, inner, rest);
            assert(decode(s, b) == Ok::<(ValueView, int), Error>((v, encode(v).len() as int)));
        },
        ValueView::UnitVariant(i) => {
            lemma_read_byte(i as u8, rest);
            match s {
                Schema::Enum(vs) => {
                    assert(decode_variant(vs@[i as int], i, rest) == Ok::<(ValueView, int), Error>(
                        (ValueView::UnitVariant(i), 1),
                    ));
                },
                _ => {},
            }
            assert(decode(s, b) == Ok::<(ValueView, int), Error>((v, encode(v).len() as int)));
        },
        ValueView::NewtypeVariant(i, x) => {
            assert(b == seq![i as u8] + (encode(*x) + rest));
            lemma_read_byte(i as u8, encode(*x) + rest);
            match s {
                Schema::Enum(vs) => {
                    match vs@[i as int] {
                        VariantShape::Newtype(s2) => {
                            lemma_roundtrip(*x, s2, rest);
                            let n = encode(*x).len() as int;
                            assert(decode_variant(vs@[i as int], i, encode(*x) + rest) == Ok::<
                                (ValueView, int),
                                Error,
                            >((ValueView::NewtypeVariant(i, x), n + 1)));
                        },
                        _ => {},
                    }
                },
                _ => {},
            }
            assert(decode(s, b) == Ok::<(ValueView, int), Error>((v, encode(v).len() as int)));
        },
        ValueView::List(xs) => {
            let e = match s {
                Schema::List(e) => *e,
                _ => s,
            };
            lemma_be_bytes_len(xs.len(), 8);
            assert(b == be_bytes(xs.len(), 8) + (encode_all(xs) + rest));
            lemma_read_len(xs.len(), encode_all(xs) + rest);
            lemma_roundtrip_n(xs, e, rest);
            assert(decode(s, b) == Ok::<(ValueView, int), Error>((v, encode(v).len() as int)));
        },
        ValueView::Tuple(xs) => {
            match s {
                Schema::Tuple(ss) => {
                    lemma_roundtrip_each(xs, ss@, rest);
                },
                _ => {},
            }
            assert(decode(s, b) == Ok::<(ValueView, int), Error>((v, encode(v).len() as int)));
        },
        ValueView::TupleVariant(i, xs) => {
            assert(b == seq![i as u8] + (encode_all(xs) + rest));
            lemma_read_byte(i as u8, encode_all(xs) + rest);
            match s {
                Schema::Enum(vs) => {
                    match vs@[i as int] {
                        VariantShape::Fields(ss) => {
                            lemma_roundtrip_each(xs, ss@, rest);
                            let n = encode_all(xs).len() as int;
                            assert(decode_each(ss@, encode_all(xs) + rest) == Ok::<
                                (Seq<ValueView>, int),
                                Error,
                            >((xs, n)));
                            assert(decode_variant(vs@[i as int], i, encode_all(xs) + rest) == Ok::<
                                (ValueView, int),
                                Error,
                            >((ValueView::TupleVariant(i, xs), n + 1)));
                        },
                        _ => {},
                    }
                },
                _ => {},
            }
            assert(decode(s, b) == Ok::<(ValueView, int), Error>((v, encode(v).len() as int)));
        },
    }
}

pub proof fn lemma_roundtrip_n(xs: Seq<ValueView>, e: Schema, rest: Seq<u8>)
    requires
        all_conform(xs, e),
        all_encodable(xs),
    ensures
        decode_n(e, xs.len(), encode_all(xs) + rest) == Ok::<(Seq<ValueView>, int), Error>(
            (xs, encode_all(xs).len() as int),
        ),
    decreases xs,
{
    if xs.len() == 0 {
        assert(xs == Seq::<ValueView>::empty());
    } else {
        let x = xs[0];
        let tail = xs.drop_first();
        let b = encode_all(xs) + rest;
        assert(b == encode(x) + (encode_all(tail) + rest));
        lemma_roundtrip(x, e, encode_all(tail) + rest);
        assert(b.skip(encode(x).len() as int) == encode_all(tail) + rest);
        lemma_roundtrip_n(tail, e, rest);
        assert(seq![x] + tail == xs);
        let k = encode(x).len() as int;
        assert(encode_all(xs).len() == k + encode_all(tail).len());
        assert(0 <= k <= b.len());
        let r = decode_n(e, (xs.len() - 1) as nat, b.skip(k));
        assert(r == Ok::<(Seq<ValueView>, int), Error>((tail, encode_all(tail).len() as int)));
        assert(decode(e, b) == Ok::<(ValueView, int), Error>((x, k)));
        assert(decode_n(e, xs.len(), b) == Ok::<(Seq<ValueView>, int), Error>((seq![x] + tail, encode_all(tail).len() + k)));
        assert((xs.len() - 1) as nat == tail.len());
    }
}

pub proof fn lemma_roundtrip_each(xs: Seq<ValueView>, ss: Seq<Schema>, rest: Seq<u8>)
    requires
        each_conforms(xs, ss),
        all_encodable(xs),
    ensures
        decode_each(ss, encode_all(xs) + rest) == Ok::<(Seq<ValueView>, int), Error>(
            (xs, encode_all(xs).len() as int),
        ),
    decreases xs,
{
    if xs.len() == 0 {
        assert(encode_all(xs) + rest == rest);
        assert(xs == Seq::<ValueView>::empty());
    } else {
        let x = xs[0];
        let tail = xs.drop_first();
        let b = encode_all(xs) + rest;
        assert(b == encode(x) + (encode_all(tail) + rest));
        lemma_roundtrip(x, ss[0], encode_all(tail) + rest);
        assert(b.skip(encode(x).len() as int) == encode_all(tail) + rest);
        lemma_roundtrip_each(tail, ss.drop_first(), rest);
        assert(seq![x] + tail == xs);
        let k = encode(x).len() as int;
        assert(encode_all(xs).len() == k + encode_all(tail).len());
        assert(0 <= k <= b.len());
        let r = decode_each(ss.drop_first(), b.skip(k));
        assert(r == Ok::<(Seq<ValueView>, int), Error>((tail, encode_all(tail).len() as int)));
    }
}

} // verus!
