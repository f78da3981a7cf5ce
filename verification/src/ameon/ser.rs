//! Writing values in the encoding.
use vstd::prelude::*;
use vstd::utf8::*;

use crate::ameon::be::{be_bytes, push_be};
use crate::ameon::error::Error;
use crate::ameon::value::{
    all_encodable, encodable, encode, encode_all, length_prefixed, value_view, values_view, Value,
    ValueView,
};
use crate::text::{encode_char, str_bytes};

verus! {

/// Collects the encoding of values, one call after another.
#[derive(Debug)]
pub struct Serializer {
    output: Vec<u8>,
}

impl Serializer {
    /// The bytes written so far.
    pub closed spec fn bytes(&self) -> Seq<u8> {
        self.output@
    }

    /// A serializer that has written nothing.
    pub fn new() -> (r: Self)
        ensures
            r.bytes() == Seq::<u8>::empty(),
    {
        Serializer { output: Vec::new() }
    }

    /// The bytes written.
    pub fn into_bytes(self) -> (r: Vec<u8>)
        ensures
            r@ == self.bytes(),
    {
        self.output
    }

    fn push(&mut self, byte: u8)
        ensures
            final(self).bytes() == old(self).bytes().push(byte),
    {
        self.output.push(byte);
    }

    fn push_bytes(&mut self, bytes: &[u8])
        ensures
            final(self).bytes() == old(self).bytes() + bytes@,
    {
        let mut k: usize = 0;
        while k < bytes.len()
            invariant
                k <= bytes.len(),
                self.output@ == old(self).output@ + bytes@.take(k as int),
            decreases bytes.len() - k,
        {
            self.output.push(bytes[k]);
            k = k + 1;
            assert(self.output@ == old(self).output@ + bytes@.take(k as int));
        }
        assert(bytes@.take(bytes.len() as int) == bytes@);
    }

    /// Writes a length: eight bytes, big-endian.
    fn push_usize(&mut self, n: usize) -> (r: Result<(), Error>)
        ensures
            r is Ok,
            final(self).bytes() == old(self).bytes() + be_bytes(n as nat, 8),
    {
        push_be(&mut self.output, n as u128, 8);
        Ok(())
    }

    /// Writes an enum variant's index in one byte.
    fn push_vidx(&mut self, variant_index: u32)
        requires
            variant_index < 256,
        ensures
            final(self).bytes() == old(self).bytes().push(variant_index as u8),
    {
        self.push(variant_index as u8);
    }

    pub fn serialize_bool(&mut self, v: bool)
        ensures
            final(self).bytes() == old(self).bytes() + encode(ValueView::Bool(v)),
    {
        self.push(if v {
            1
        } else {
            0
        });
    }

    pub fn serialize_i8(&mut self, v: i8)
        ensures
            final(self).bytes() == old(self).bytes() + encode(ValueView::I8(v)),
    {
        self.push(v as u8);
    }

    pub fn serialize_i16(&mut self, v: i16)
        ensures
            final(self).bytes() == old(self).bytes() + encode(ValueView::I16(v)),
    {
        push_be(&mut self.output, (v as u16) as u128, 2);
    }

    pub fn serialize_i32(&mut self, v: i32)
        ensures
            final(self).bytes() == old(self).bytes() + encode(ValueView::I32(v)),
    {
        push_be(&mut self.output, (v as u32) as u128, 4);
    }

    pub fn serialize_i64(&mut self, v: i64)
        ensures
            final(self).bytes() == old(self).bytes() + encode(ValueView::I64(v)),
    {
        push_be(&mut self.output, (v as u64) as u128, 8);
    }

    pub fn serialize_i128(&mut self, v: i128)
        ensures
            final(self).bytes() == old(self).bytes() + encode(ValueView::I128(v)),
    {
        push_be(&mut self.output, v as u128, 16);
    }

    pub fn serialize_u8(&mut self, v: u8)
        ensures
            final(self).bytes() == old(self).bytes() + encode(ValueView::U8(v)),
    {
        self.push(v);
    }

    pub fn serialize_u16(&mut self, v: u16)
        ensures
            final(self).bytes() == old(self).bytes() + encode(ValueView::U16(v)),
    {
        push_be(&mut self.output, v as u128, 2);
    }

    pub fn serialize_u32(&mut self, v: u32)
        ensures
            final(self).bytes() == old(self).bytes() + encode(ValueView::U32(v)),
    {
        push_be(&mut self.output, v as u128, 4);
    }

    pub fn serialize_u64(&mut self, v: u64)
        ensures
            final(self).bytes() == old(self).bytes() + encode(ValueView::U64(v)),
    {
        push_be(&mut self.output, v as u128, 8);
    }

    pub fn serialize_u128(&mut self, v: u128)
        ensures
            final(self).bytes() == old(self).bytes() + encode(ValueView::U128(v)),
    {
        push_be(&mut self.output, v, 16);
    }

    pub fn serialize_char(&mut self, v: char)
        ensures
            final(self).bytes() == old(self).bytes() + encode(ValueView::Char(v)),
    {
        let b = encode_char(v);
        self.push_bytes(b.as_slice());
    }

    pub fn serialize_str(&mut self, v: &str) -> (r: Result<(), Error>)
        ensures
            r is Ok,
            final(self).bytes() == old(self).bytes() + encode(ValueView::Str(v@)),
    {
        let b = str_bytes(v);
        self.serialize_bytes(b.as_slice())
    }

    pub fn serialize_bytes(&mut self, v: &[u8]) -> (r: Result<(), Error>)
        ensures
            r is Ok,
            final(self).bytes() == old(self).bytes() + encode(ValueView::Bytes(v@)),
    {
        let _ = self.push_usize(v.len());
        self.push_bytes(v);
        assert(old(self).bytes() + be_bytes(v@.len(), 8) + v@ == old(self).bytes() + length_prefixed(
            v@,
        ));
        Ok(())
    }

    pub fn serialize_none(&mut self)
        ensures
            final(self).bytes() == old(self).bytes() + encode(ValueView::Absent),
    {
        self.push(0);
    }

    /// Writes the tag of a present optional value; the value itself comes next.
    pub fn serialize_some(&mut self)
        ensures
            final(self).bytes() == old(self).bytes().push(1),
    {
        self.push(1);
    }

    pub fn serialize_unit_variant(&mut self, variant_index: u32)
        requires
            variant_index < 256,
        ensures
            final(self).bytes() == old(self).bytes() + encode(ValueView::UnitVariant(variant_index)),
    {
        self.push_vidx(variant_index);
    }

    /// Writes the index of a variant with one value; the value comes next.
    pub fn serialize_newtype_variant(&mut self, variant_index: u32)
        requires
            variant_index < 256,
        ensures
            final(self).bytes() == old(self).bytes().push(variant_index as u8),
    {
        self.push_vidx(variant_index);
    }

    /// Writes the length of a sequence; its elements come next. The length must be known.
    pub fn serialize_seq(&mut self, len: Option<usize>) -> (r: Result<(), Error>)
        requires
            len is Some,
        ensures
            r is Ok,
            final(self).bytes() == old(self).bytes() + be_bytes(len->0 as nat, 8),
    {
        match len {
            Some(n) => self.push_usize(n),
            None => Ok(()),
        }
    }

    /// Writes the index of a variant with fields; the fields come next.
    pub fn serialize_tuple_variant(&mut self, variant_index: u32)
        requires
            variant_index < 256,
        ensures
            final(self).bytes() == old(self).bytes().push(variant_index as u8),
    {
        self.push_vidx(variant_index);
    }

    /// Writes the number of entries of a map; each key and its value come next.
    pub fn serialize_map(&mut self, len: Option<usize>) -> (r: Result<(), Error>)
        requires
            len is Some,
        ensures
            r is Ok,
            final(self).bytes() == old(self).bytes() + be_bytes(len->0 as nat, 8),
    {
        self.serialize_seq(len)
    }

    /// Writes the index of a variant with named fields; the fields come next.
    pub fn serialize_struct_variant(&mut self, variant_index: u32)
        requires
            variant_index < 256,
        ensures
            final(self).bytes() == old(self).bytes().push(variant_index as u8),
    {
        self.push_vidx(variant_index);
    }

    /// Writes a whole value.
    pub fn serialize_value(&mut self, v: &Value) -> (r: Result<(), Error>)
        requires
            encodable(v@),
        ensures
            r is Ok,
            final(self).bytes() == old(self).bytes() + encode(v@),
        decreases v,
    {
        match v {
            Value::Bool(x) => self.serialize_bool(*x),
            Value::I8(x) => self.serialize_i8(*x),
            Value::I16(x) => self.serialize_i16(*x),
            Value::I32(x) => self.serialize_i32(*x),
            Value::I64(x) => self.serialize_i64(*x),
            Value::I128(x) => self.serialize_i128(*x),
            Value::U8(x) => self.serialize_u8(*x),
            Value::U16(x) => self.serialize_u16(*x),
            Value::U32(x) => self.serialize_u32(*x),
            Value::U64(x) => self.serialize_u64(*x),
            Value::U128(x) => self.serialize_u128(*x),
            Value::Char(c) => self.serialize_char(*c),
            Value::Str(s) => {
                let _ = self.serialize_str(s.as_str());
            },
            Value::Bytes(b) => {
                let _ = self.serialize_bytes(b.as_slice());
            },
            Value::Absent => self.serialize_none(),
            Value::Present(x) => {
                self.serialize_some();
                let _ = self.serialize_value(x);
                assert(old(self).bytes().push(1) + encode(value_view(**x)) == old(self).bytes() + (
                seq![1u8] + encode(value_view(**x))));
            },
            Value::UnitVariant(i) => self.serialize_unit_variant(*i),
            Value::NewtypeVariant(i, x) => {
                self.serialize_newtype_variant(*i);
                let _ = self.serialize_value(x);
                assert(old(self).bytes().push(*i as u8) + encode(value_view(**x)) == old(
                    self,
                ).bytes() + (seq![*i as u8] + encode(value_view(**x))));
            },
            Value::List(xs) => {
                let _ = self.serialize_seq(Some(xs.len()));
                proof {
                    lemma_values_view_len(xs@);
                }
                self.serialize_all(xs);
            },
            Value::Tuple(xs) => {
                self.serialize_all(xs);
            },
            Value::TupleVariant(i, xs) => {
                self.serialize_tuple_variant(*i);
                self.serialize_all(xs);
                assert(old(self).bytes().push(*i as u8) + encode_all(values_view(xs@)) == old(
                    self,
                ).bytes() + (seq![*i as u8] + encode_all(values_view(xs@))));
            },
        }
        Ok(())
    }

    /// Writes values one after the other.
    fn serialize_all(&mut self, xs: &Vec<Value>)
        requires
            all_encodable(values_view(xs@)),
        ensures
            final(self).bytes() == old(self).bytes() + encode_all(values_view(xs@)),
        decreases xs, 0nat,
    {
        let mut k: usize = 0;
        while k < xs.len()
            invariant
                k <= xs.len(),
                all_encodable(values_view(xs@)),
                self.bytes() == old(self).bytes() + encode_all(values_view(xs@.take(k as int))),
            decreases xs.len() - k,
        {
            proof {
                lemma_values_view_take(xs@, k as int);
                lemma_all_encodable_index(values_view(xs@), k as int);
            }
            let _ = self.serialize_value(&xs[k]);
            proof {
                lemma_values_view_take(xs@, k + 1);
                lemma_encode_all_push(values_view(xs@.take(k as int)), value_view(xs@[k as int]));
                assert(xs@.take(k + 1) == xs@.take(k as int).push(xs@[k as int]));
            }
            k = k + 1;
        }
        assert(xs@.take(xs.len() as int) == xs@);
    }
}

pub proof fn lemma_values_view_len(xs: Seq<Value>)
    ensures
        values_view(xs).len() == xs.len(),
    decreases xs.len(),
{
    if xs.len() > 0 {
        lemma_values_view_len(xs.drop_first());
    }
}

/// The view of one more value is the view so far with that value's view added.
pub proof fn lemma_values_view_push(xs: Seq<Value>, x: Value)
    ensures
        values_view(xs.push(x)) == values_view(xs).push(value_view(x)),
    decreases xs.len(),
{
    if xs.len() == 0 {
        assert(xs.push(x).drop_first() == Seq::<Value>::empty());
        assert(xs.push(x)[0] == x);
        assert(values_view(Seq::<Value>::empty()) == Seq::<ValueView>::empty());
        assert(values_view(xs) == Seq::<ValueView>::empty());
        assert(seq![value_view(x)] + Seq::<ValueView>::empty() == seq![value_view(x)]);
        assert(Seq::<ValueView>::empty().push(value_view(x)) == seq![value_view(x)]);
    } else {
        assert(xs.push(x).drop_first() == xs.drop_first().push(x));
        assert(xs.push(x)[0] == xs[0]);
        lemma_values_view_push(xs.drop_first(), x);
        assert(seq![value_view(xs[0])] + values_view(xs.drop_first()).push(value_view(x)) == (seq![
            value_view(xs[0]),
        ] + values_view(xs.drop_first())).push(value_view(x)));
    }
}

/// Taking `k` values and then viewing them views the first `k`.
pub proof fn lemma_values_view_take(xs: Seq<Value>, k: int)
    requires
        0 <= k < xs.len() || k == xs.len(),
    ensures
        k < xs.len() ==> values_view(xs.take(k + 1)) == values_view(xs.take(k)).push(
            value_view(xs[k]),
        ),
        values_view(xs).len() == xs.len(),
        k < xs.len() ==> values_view(xs)[k] == value_view(xs[k]),
    decreases xs.len(),
{
    lemma_values_view_len(xs);
    if k < xs.len() {
        assert(xs.take(k + 1) == xs.take(k).push(xs[k]));
        lemma_values_view_push(xs.take(k), xs[k]);
        lemma_values_view_index(xs, k);
    }
}

pub proof fn lemma_values_view_index(xs: Seq<Value>, k: int)
    requires
        0 <= k < xs.len(),
    ensures
        values_view(xs)[k] == value_view(xs[k]),
    decreases xs.len(),
{
    lemma_values_view_len(xs.drop_first());
    if k > 0 {
        lemma_values_view_index(xs.drop_first(), k - 1);
    }
}

pub proof fn lemma_all_encodable_index(xs: Seq<ValueView>, k: int)
    requires
        all_encodable(xs),
        0 <= k < xs.len(),
    ensures
        encodable(xs[k]),
    decreases xs.len(),
{
    if k > 0 {
        lemma_all_encodable_index(xs.drop_first(), k - 1);
    }
}

/// Encoding one more value appends its encoding.
pub proof fn lemma_encode_all_push(xs: Seq<ValueView>, x: ValueView)
    ensures
        encode_all(xs.push(x)) == encode_all(xs) + encode(x),
    decreases xs.len(),
{
    if xs.len() == 0 {
        assert(xs.push(x).drop_first() == Seq::<ValueView>::empty());
        assert(xs.push(x)[0] == x);
        assert(encode_all(Seq::<ValueView>::empty()) == Seq::<u8>::empty());
        assert(encode_all(xs) == Seq::<u8>::empty());
        assert(encode(x) + Seq::<u8>::empty() == encode(x));
        assert(Seq::<u8>::empty() + encode(x) == encode(x));
    } else {
        assert(xs.push(x).drop_first() == xs.drop_first().push(x));
        assert(xs.push(x)[0] == xs[0]);
        lemma_encode_all_push(xs.drop_first(), x);
        assert(encode(xs[0]) + (encode_all(xs.drop_first()) + encode(x)) == encode(xs[0])
            + encode_all(xs.drop_first()) + encode(x));
    }
}

/// The encoding of a value. The value must hold no variant index above 255.
pub fn to_bytes(value: &Value) -> (r: Result<Vec<u8>, Error>)
    requires
        encodable(value@),
    ensures
        r matches Ok(b) && b@ == encode(value@),
{
    let mut serializer = Serializer::new();
    let _ = serializer.serialize_value(value);
    Ok(serializer.into_bytes())
}

} // verus!
