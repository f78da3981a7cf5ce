//! Reading values back from the encoding.
use vstd::prelude::*;
use vstd::utf8::*;

use crate::ameon::be::{be_value, read_be};
use crate::ameon::error::Error;
use crate::ameon::ser::lemma_values_view_push;
use crate::ameon::value::{
    conforms, encodable, encode, lemma_roundtrip, decode, decode_each, decode_n, decode_variant, read_bytes, read_char, read_fixed, read_len,
    read_str, value_view, values_view, Decoded, Schema, Value, ValueView, VariantShape,
};
use crate::text::utf8_str;

verus! {

/// `a` is what is left of `b` after some bytes were taken from its front.
pub open spec fn is_suffix_of(a: Seq<u8>, b: Seq<u8>) -> bool {
    a.len() <= b.len() && a == b.skip(b.len() - a.len())
}

/// Puts `acc` before the decoded values and adds `m` to the count.
pub open spec fn prepend(d: Decoded<Seq<ValueView>>, acc: Seq<ValueView>, m: int) -> Decoded<
    Seq<ValueView>,
> {
    match d {
        Ok((xs, k)) => Ok((acc + xs, k + m)),
        Err(e) => Err(e),
    }
}

proof fn lemma_prepend_twice(d: Decoded<Seq<ValueView>>, a: Seq<ValueView>, b: Seq<ValueView>, m: int, k: int)
    ensures
        prepend(prepend(d, b, k), a, m) == prepend(d, a + b, m + k),
{
    if let Ok((xs, n)) = d {
        assert(a + (b + xs) == (a + b) + xs);
    }
}

/// The character with the given scalar value (`char::from_u32`).
/// Trusted: std documents that `from_u32` returns the `char` of that value when it
/// is a Unicode scalar value, and `None` otherwise.
#[verifier::external_body]
fn char_from_u32(u: u32) -> (r: Option<char>)
    ensures
        is_scalar(u) ==> r == Some(u as char),
        !is_scalar(u) ==> r is None,
{
    char::from_u32(u)
}

/// The first character of `b` in UTF-8, and its length in bytes.
fn first_scalar(b: &[u8]) -> (r: Option<(char, usize)>)
    ensures
        match r {
            Some((c, n)) => valid_first_scalar(b@) && c == decode_first_scalar(b@) as char && n
                == length_of_first_scalar(b@),
            None => !valid_first_scalar(b@),
        },
{
    if b.len() == 0 {
        return None;
    }
    let b0 = b[0];
    let cp: u32;
    let n: usize;
    if b0 <= 0x7f {
        cp = (b0 & 0x7F) as u32;
        n = 1;
    } else if 0xc0 <= b0 && b0 <= 0xdf {
        if b.len() < 2 || !(0x80 <= b[1] && b[1] <= 0xbf) {
            return None;
        }
        let b1 = b[1];
        cp = (((b0 & 0x1F) as u32) << 6) | ((b1 & 0x3f) as u32);
        n = 2;
        assert(cp <= 0x7ff) by (bit_vector)
            requires
                cp == (((b0 & 0x1F) as u32) << 6) | ((b1 & 0x3f) as u32),
        ;
    } else if 0xe0 <= b0 && b0 <= 0xef {
        if b.len() < 3 || !(0x80 <= b[1] && b[1] <= 0xbf) || !(0x80 <= b[2] && b[2] <= 0xbf) {
            return None;
        }
        let b1 = b[1];
        let b2 = b[2];
        cp = (((b0 & 0x0F) as u32) << 12) | (((b1 & 0x3f) as u32) << 6) | ((b2 & 0x3f) as u32);
        n = 3;
        assert(cp <= 0xffff) by (bit_vector)
            requires
                cp == (((b0 & 0x0F) as u32) << 12) | (((b1 & 0x3f) as u32) << 6) | ((b2 & 0x3f) as u32),
        ;
    } else if 0xf0 <= b0 && b0 <= 0xf7 {
        if b.len() < 4 || !(0x80 <= b[1] && b[1] <= 0xbf) || !(0x80 <= b[2] && b[2] <= 0xbf) || !(
        0x80 <= b[3] && b[3] <= 0xbf) {
            return None;
        }
        cp = (((b0 & 0x07) as u32) << 18) | (((b[1] & 0x3f) as u32) << 12) | (((b[2] & 0x3f) as u32)
            << 6) | ((b[3] & 0x3f) as u32);
        n = 4;
    } else {
        return None;
    }
    if n == 2 && cp < 0x80 {
        return None;
    }
    if n == 3 && cp < 0x800 {
        return None;
    }
    if n == 4 && (cp < 0x10000 || cp > 0x10ffff) {
        return None;
    }
    if 0xD800 <= cp && cp <= 0xDFFF {
        return None;
    }
    match char_from_u32(cp) {
        Some(c) => Some((c, n)),
        None => None,
    }
}

/// Reads values from the front of a byte slice.
#[derive(Debug)]
pub struct Deserializer<'a> {
    input: &'a [u8],
}

impl<'a> Deserializer<'a> {
    /// The bytes not read yet.
    pub closed spec fn remaining(&self) -> Seq<u8> {
        self.input@
    }

    /// A deserializer that reads `input` from its start.
    pub fn from_bytes(input: &'a [u8]) -> (r: Self)
        ensures
            r.remaining() == input@,
    {
        Self { input }
    }

    /// Every byte has been read.
    pub fn is_empty(&self) -> (b: bool)
        ensures
            b == (self.remaining().len() == 0),
    {
        self.input.len() == 0
    }

    /// Takes the next `len` bytes.
    fn extract(&mut self, len: usize) -> (r: Result<&'a [u8], Error>)
        ensures
            if len <= old(self).remaining().len() {
                &&& r matches Ok(b) && b@ == old(self).remaining().take(len as int)
                &&& final(self).remaining() == old(self).remaining().skip(len as int)
            } else {
                &&& r == Err::<&[u8], Error>(Error::eof())
                &&& final(self).remaining() == old(self).remaining()
            },
    {
        if len <= self.input.len() {
            let (bytes, rest) = self.input.split_at(len);
            self.input = rest;
            Ok(bytes)
        } else {
            Err(Error::read_exact_eof())
        }
    }

    /// Takes the next byte.
    fn extract_byte(&mut self) -> (r: Result<u8, Error>)
        ensures
            match read_fixed(old(self).remaining(), 1) {
                Ok((x, k)) => r == Ok::<u8, Error>(x as u8) && final(self).remaining() == old(
                    self,
                ).remaining().skip(k) && x < 256,
                Err(e) => r == Err::<u8, Error>(e) && final(self).remaining() == old(
                    self,
                ).remaining(),
            },
    {
        let bytes = self.extract(1)?;
        proof {
            let t = old(self).remaining().take(1);
            assert(t.drop_last() == Seq::<u8>::empty());
            assert(be_value(t) == be_value(t.drop_last()) * 256 + (t.last() as nat));
        }
        Ok(bytes[0])
    }

    /// Takes the next `n` bytes as an unsigned big-endian number.
    fn extract_uint(&mut self, n: usize) -> (r: Result<u128, Error>)
        requires
            n <= 16,
        ensures
            match read_fixed(old(self).remaining(), n as int) {
                Ok((x, k)) => r == Ok::<u128, Error>(x as u128) && final(self).remaining() == old(
                    self,
                ).remaining().skip(k) && x < 0x1_0000_0000_0000_0000_0000_0000_0000_0000,
                Err(e) => r == Err::<u128, Error>(e) && final(self).remaining() == old(
                    self,
                ).remaining(),
            },
    {
        let bytes = self.extract(n)?;
        proof {
            crate::ameon::be::lemma_be_value_bound(bytes@);
            crate::ameon::be::lemma_pow256_values();
            crate::ameon::be::lemma_pow256_monotone(n as nat, 16);
        }
        Ok(read_be(bytes))
    }

    /// Takes the next character, in UTF-8.
    fn extract_char(&mut self) -> (r: Result<char, Error>)
        ensures
            match read_char(old(self).remaining()) {
                Ok((c, k)) => r == Ok::<char, Error>(c) && final(self).remaining() == old(
                    self,
                ).remaining().skip(k),
                Err(e) => r == Err::<char, Error>(e) && final(self).remaining() == old(
                    self,
                ).remaining(),
            },
    {
        match first_scalar(self.input) {
            Some((c, n)) => {
                let _ = self.extract(n);
                Ok(c)
            },
            None => Err(Error::read_exact_eof()),
        }
    }

    /// Takes a length: eight big-endian bytes that must fit a `usize`.
    fn extract_usize(&mut self) -> (r: Result<usize, Error>)
        ensures
            match read_len(old(self).remaining()) {
                Ok((x, k)) => r == Ok::<usize, Error>(x as usize) && final(self).remaining() == old(
                    self,
                ).remaining().skip(k),
                Err(e) => r == Err::<usize, Error>(e),
            },
            is_suffix_of(final(self).remaining(), old(self).remaining()),
    {
        let v = match self.extract_uint(8) {
            Ok(v) => v,
            Err(e) => {
                assert(old(self).remaining().skip(0) == old(self).remaining());
                return Err(e);
            },
        };
        if v > usize::MAX as u128 {
            Err(Error::FromInt)
        } else {
            Ok(v as usize)
        }
    }

    /// Takes a length, then that many bytes.
    fn parse_bytes(&mut self) -> (r: Result<&'a [u8], Error>)
        ensures
            match read_bytes(old(self).remaining()) {
                Ok((b, k)) => r matches Ok(x) && x@ == b && final(self).remaining() == old(
                    self,
                ).remaining().skip(k),
                Err(e) => r == Err::<&[u8], Error>(e),
            },
            is_suffix_of(final(self).remaining(), old(self).remaining()),
    {
        let len = self.extract_usize()?;
        let ghost mid = self.input@;
        let r = self.extract(len);
        proof {
            let o = old(self).remaining();
            assert(mid == o.skip(8));
            if len <= mid.len() {
                assert(mid.take(len as int) == o.subrange(8, 8 + len as int));
                assert(mid.skip(len as int) == o.skip(8 + len as int));
            }
        }
        r
    }

    /// Takes a length, then that many bytes, which must be UTF-8.
    fn parse_str(&mut self) -> (r: Result<&'a str, Error>)
        ensures
            match read_str(old(self).remaining()) {
                Ok((s, k)) => r matches Ok(x) && x@ == s && final(self).remaining() == old(
                    self,
                ).remaining().skip(k),
                Err(e) => r == Err::<&str, Error>(e),
            },
            is_suffix_of(final(self).remaining(), old(self).remaining()),
    {
        let bytes = self.parse_bytes()?;
        match utf8_str(bytes) {
            Some(s) => Ok(s),
            None => Err(Error::invalid_utf8()),
        }
    }

    /// Reads a `bool`: any byte but zero is `true`.
    pub fn deserialize_bool(&mut self) -> (r: Result<bool, Error>)
        ensures
            match read_fixed(old(self).remaining(), 1) {
                Ok((x, k)) => r == Ok::<bool, Error>(x != 0) && final(self).remaining() == old(
                    self,
                ).remaining().skip(k),
                Err(e) => r == Err::<bool, Error>(e) && final(self).remaining() == old(
                    self,
                ).remaining(),
            },
    {
        let b = self.extract_byte()?;
        Ok(b != 0)
    }

    /// Reads an optional value's tag: whether the value is present.
    pub fn deserialize_option(&mut self) -> (r: Result<bool, Error>)
        ensures
            match read_fixed(old(self).remaining(), 1) {
                Ok((x, k)) => r == Ok::<bool, Error>(x != 0) && final(self).remaining() == old(
                    self,
                ).remaining().skip(k),
                Err(e) => r == Err::<bool, Error>(e) && final(self).remaining() == old(
                    self,
                ).remaining(),
            },
    {
        self.deserialize_bool()
    }

    /// Reads an enum variant's index.
    pub fn deserialize_identifier(&mut self) -> (r: Result<u8, Error>)
        ensures
            match read_fixed(old(self).remaining(), 1) {
                Ok((x, k)) => r == Ok::<u8, Error>(x as u8) && final(self).remaining() == old(
                    self,
                ).remaining().skip(k) && x < 256,
                Err(e) => r == Err::<u8, Error>(e) && final(self).remaining() == old(
                    self,
                ).remaining(),
            },
    {
        self.extract_byte()
    }

    /// Reads the length of a sequence or a map.
    pub fn deserialize_seq(&mut self) -> (r: Result<usize, Error>)
        ensures
            match read_len(old(self).remaining()) {
                Ok((x, k)) => r == Ok::<usize, Error>(x as usize) && final(self).remaining() == old(
                    self,
                ).remaining().skip(k),
                Err(e) => r == Err::<usize, Error>(e),
            },
            is_suffix_of(final(self).remaining(), old(self).remaining()),
    {
        self.extract_usize()
    }

    pub fn deserialize_char(&mut self) -> (r: Result<char, Error>)
        ensures
            match read_char(old(self).remaining()) {
                Ok((c, k)) => r == Ok::<char, Error>(c) && final(self).remaining() == old(
                    self,
                ).remaining().skip(k),
                Err(e) => r == Err::<char, Error>(e) && final(self).remaining() == old(
                    self,
                ).remaining(),
            },
    {
        self.extract_char()
    }

    pub fn deserialize_str(&mut self) -> (r: Result<&'a str, Error>)
        ensures
            match read_str(old(self).remaining()) {
                Ok((s, k)) => r matches Ok(x) && x@ == s && final(self).remaining() == old(
                    self,
                ).remaining().skip(k),
                Err(e) => r == Err::<&str, Error>(e),
            },
            is_suffix_of(final(self).remaining(), old(self).remaining()),
    {
        self.parse_str()
    }

    pub fn deserialize_string(&mut self) -> (r: Result<String, Error>)
        ensures
            match read_str(old(self).remaining()) {
                Ok((s, k)) => r matches Ok(x) && x@ == s && final(self).remaining() == old(
                    self,
                ).remaining().skip(k),
                Err(e) => r == Err::<String, Error>(e),
            },
            is_suffix_of(final(self).remaining(), old(self).remaining()),
    {
        let s = self.parse_str()?;
        Ok(s.to_owned())
    }

    pub fn deserialize_bytes(&mut self) -> (r: Result<&'a [u8], Error>)
        ensures
            match read_bytes(old(self).remaining()) {
                Ok((b, k)) => r matches Ok(x) && x@ == b && final(self).remaining() == old(
                    self,
                ).remaining().skip(k),
                Err(e) => r == Err::<&[u8], Error>(e),
            },
            is_suffix_of(final(self).remaining(), old(self).remaining()),
    {
        self.parse_bytes()
    }

    pub fn deserialize_byte_buf(&mut self) -> (r: Result<Vec<u8>, Error>)
        ensures
            match read_bytes(old(self).remaining()) {
                Ok((b, k)) => r matches Ok(x) && x@ == b && final(self).remaining() == old(
                    self,
                ).remaining().skip(k),
                Err(e) => r == Err::<Vec<u8>, Error>(e),
            },
            is_suffix_of(final(self).remaining(), old(self).remaining()),
    {
        let b = self.parse_bytes()?;
        let mut v: Vec<u8> = Vec::new();
        let mut k: usize = 0;
        while k < b.len()
            invariant
                k <= b.len(),
                v@ == b@.take(k as int),
            decreases b.len() - k,
        {
            v.push(b[k]);
            k = k + 1;
            assert(v@ == b@.take(k as int));
        }
        assert(b@.take(b.len() as int) == b@);
        Ok(v)
    }

    /// Reads a value of a shape without parts: a number, a character, a string or bytes.
    fn deserialize_scalar(&mut self, schema: &Schema) -> (r: Result<Value, Error>)
        requires
            !(schema is Optional || schema is List || schema is Tuple || schema is Enum),
        ensures
            match decode(*schema, old(self).remaining()) {
                Ok((v, k)) => r matches Ok(x) && x@ == v && 0 <= k <= old(self).remaining().len()
                    && final(self).remaining() == old(self).remaining().skip(k),
                Err(e) => r == Err::<Value, Error>(e),
            },
            is_suffix_of(final(self).remaining(), old(self).remaining()),
    {
        proof {
            lemma_suffix_refl(self.input@);
        }
        match schema {
            Schema::Bool => match self.deserialize_bool() {
                Ok(v) => Ok(Value::Bool(v)),
                Err(e) => Err(e),
            },
            Schema::I8 => match self.extract_byte() {
                Ok(v) => Ok(Value::I8(v as i8)),
                Err(e) => Err(e),
            },
            Schema::I16 => match self.extract_uint(2) {
                Ok(v) => Ok(Value::I16(v as i16)),
                Err(e) => Err(e),
            },
            Schema::I32 => match self.extract_uint(4) {
                Ok(v) => Ok(Value::I32(v as i32)),
                Err(e) => Err(e),
            },
            Schema::I64 => match self.extract_uint(8) {
                Ok(v) => Ok(Value::I64(v as i64)),
                Err(e) => Err(e),
            },
            Schema::I128 => match self.extract_uint(16) {
                Ok(v) => Ok(Value::I128(v as i128)),
                Err(e) => Err(e),
            },
            Schema::U8 => match self.extract_byte() {
                Ok(v) => Ok(Value::U8(v)),
                Err(e) => Err(e),
            },
            Schema::U16 => match self.extract_uint(2) {
                Ok(v) => Ok(Value::U16(v as u16)),
                Err(e) => Err(e),
            },
            Schema::U32 => match self.extract_uint(4) {
                Ok(v) => Ok(Value::U32(v as u32)),
                Err(e) => Err(e),
            },
            Schema::U64 => match self.extract_uint(8) {
                Ok(v) => Ok(Value::U64(v as u64)),
                Err(e) => Err(e),
            },
            Schema::U128 => match self.extract_uint(16) {
                Ok(v) => Ok(Value::U128(v)),
                Err(e) => Err(e),
            },
            Schema::Char => match self.extract_char() {
                Ok(c) => Ok(Value::Char(c)),
                Err(e) => Err(e),
            },
            Schema::Str => match self.deserialize_string() {
                Ok(s) => Ok(Value::Str(s)),
                Err(e) => Err(e),
            },
            Schema::Bytes => match self.deserialize_byte_buf() {
                Ok(v) => Ok(Value::Bytes(v)),
                Err(e) => Err(e),
            },
            _ => Err(Error::Syntax),
        }
    }

    /// Reads a whole value of the given shape.
    #[verifier::spinoff_prover]
    #[verifier::rlimit(50)]
    pub fn deserialize_value(&mut self, schema: &Schema) -> (r: Result<Value, Error>)
        ensures
            match decode(*schema, old(self).remaining()) {
                Ok((v, k)) => r matches Ok(x) && x@ == v && 0 <= k <= old(self).remaining().len()
                    && final(self).remaining() == old(self).remaining().skip(k),
                Err(e) => r == Err::<Value, Error>(e),
            },
            is_suffix_of(final(self).remaining(), old(self).remaining()),
        decreases schema, 0nat,
    {
        let ghost b = self.input@;
        proof {
            lemma_suffix_refl(b);
        }
        match schema {
            Schema::Optional(inner) => {
                let present = match self.deserialize_option() {
                    Ok(t) => t,
                    Err(e) => return Err(e),
                };
                if present {
                    let ghost mid = self.input@;
                    let r = self.deserialize_value(inner);
                    proof {
                        lemma_suffix_trans(self.input@, mid, b);
                    }
                    match r {
                        Ok(x) => Ok(Value::Present(Box::new(x))),
                        Err(e) => Err(e),
                    }
                } else {
                    Ok(Value::Absent)
                }
            },
            Schema::List(e) => {
                let n = match self.deserialize_seq() {
                    Ok(n) => n,
                    Err(err) => return Err(err),
                };
                let ghost mid = self.input@;
                let r = self.deserialize_items(e, n);
                proof {
                    lemma_suffix_trans(self.input@, mid, b);
                }
                match r {
                    Ok(xs) => Ok(Value::List(xs)),
                    Err(err) => Err(err),
                }
            },
            Schema::Tuple(ss) => {
                match self.deserialize_each(ss) {
                    Ok(xs) => Ok(Value::Tuple(xs)),
                    Err(err) => Err(err),
                }
            },
            Schema::Enum(vs) => {
                let idx = match self.deserialize_identifier() {
                    Ok(i) => i,
                    Err(err) => return Err(err),
                };
                if idx as usize >= vs.len() {
                    return Err(Error::UnknownVariant(idx));
                }
                let ghost mid = self.input@;
                let r = self.deserialize_variant(&vs[idx as usize], idx);
                proof {
                    lemma_suffix_trans(self.input@, mid, b);
                    assert(mid == b.skip(1));
                    if let Ok((v, k)) = decode_variant(vs@[idx as int], idx as u32, mid) {
                        assert(mid.skip(k - 1) == b.skip(k));
                    }
                }
                r
            },
            _ => self.deserialize_scalar(schema),
        }
    }

    /// Reads the data of variant `idx`, of shape `shape` (after its index byte).
    fn deserialize_variant(&mut self, shape: &VariantShape, idx: u8) -> (r: Result<Value, Error>)
        ensures
            match decode_variant(*shape, idx as u32, old(self).remaining()) {
                Ok((v, k)) => r matches Ok(x) && x@ == v && 1 <= k <= old(self).remaining().len()
                    + 1 && final(self).remaining() == old(self).remaining().skip(k - 1),
                Err(e) => r == Err::<Value, Error>(e),
            },
            is_suffix_of(final(self).remaining(), old(self).remaining()),
        decreases shape, 1nat,
    {
        proof {
            lemma_suffix_refl(self.input@);
            assert(self.input@.skip(0) == self.input@);
        }
        match shape {
            VariantShape::Unit => Ok(Value::UnitVariant(idx as u32)),
            VariantShape::Newtype(s2) => {
                match self.deserialize_value(s2) {
                    Ok(x) => Ok(Value::NewtypeVariant(idx as u32, Box::new(x))),
                    Err(err) => Err(err),
                }
            },
            VariantShape::Fields(ss) => {
                match self.deserialize_each(ss) {
                    Ok(xs) => Ok(Value::TupleVariant(idx as u32, xs)),
                    Err(err) => Err(err),
                }
            },
        }
    }

    /// Reads `n` values of shape `e`, one after the other.
    fn deserialize_items(&mut self, e: &Schema, n: usize) -> (r: Result<Vec<Value>, Error>)
        ensures
            match decode_n(*e, n as nat, old(self).remaining()) {
                Ok((v, k)) => r matches Ok(xs) && values_view(xs@) == v && 0 <= k <= old(
                    self,
                ).remaining().len() && final(self).remaining() == old(self).remaining().skip(k),
                Err(err) => r == Err::<Vec<Value>, Error>(err),
            },
            is_suffix_of(final(self).remaining(), old(self).remaining()),
        decreases e, 1nat,
    {
        let ghost b = self.input@;
        let mut out: Vec<Value> = Vec::new();
        let mut k: usize = 0;
        proof {
            lemma_suffix_refl(b);
            assert(values_view(out@) == Seq::<ValueView>::empty());
            lemma_prepend_empty(decode_n(*e, n as nat, b));
        }
        while k < n
            invariant
                k <= n,
                b == old(self).remaining(),
                is_suffix_of(self.input@, b),
                decode_n(*e, n as nat, b) == prepend(
                    decode_n(*e, (n - k) as nat, self.input@),
                    values_view(out@),
                    b.len() - self.input@.len(),
                ),
            decreases n - k,
        {
            let ghost cur = self.input@;
            match self.deserialize_value(e) {
                Ok(x) => {
                    proof {
                        let xv = value_view(x);
                        let m = cur.len() - self.input@.len();
                        lemma_after_cons(decode_n(*e, (n - k - 1) as nat, self.input@), xv, m);
                        lemma_prepend_twice(
                            decode_n(*e, (n - k - 1) as nat, self.input@),
                            values_view(out@),
                            seq![xv],
                            b.len() - cur.len(),
                            m,
                        );
                        lemma_values_view_push(out@, x);
                        assert(values_view(out@) + seq![xv] == values_view(out@).push(xv));
                        lemma_suffix_trans(self.input@, cur, b);
                    }
                    out.push(x);
                    k = k + 1;
                },
                Err(err) => {
                    proof {
                        lemma_suffix_trans(self.input@, cur, b);
                        assert(decode(*e, cur) == Err::<(ValueView, int), Error>(err));
                        assert(decode_n(*e, (n - k) as nat, cur) == Err::<
                            (Seq<ValueView>, int),
                            Error,
                        >(err));
                        assert(decode_n(*e, n as nat, b) == Err::<(Seq<ValueView>, int), Error>(err));
                    }
                    return Err(err);
                },
            }
        }
        proof {
            lemma_prepend_empty_tail(values_view(out@), b.len() - self.input@.len());
        }
        Ok(out)
    }

    /// Reads one value of each shape, one after the other.
    fn deserialize_each(&mut self, ss: &Vec<Schema>) -> (r: Result<Vec<Value>, Error>)
        ensures
            match decode_each(ss@, old(self).remaining()) {
                Ok((v, k)) => r matches Ok(xs) && values_view(xs@) == v && 0 <= k <= old(
                    self,
                ).remaining().len() && final(self).remaining() == old(self).remaining().skip(k),
                Err(e) => r == Err::<Vec<Value>, Error>(e),
            },
            is_suffix_of(final(self).remaining(), old(self).remaining()),
        decreases ss, 1nat,
    {
        let ghost b = self.input@;
        let mut out: Vec<Value> = Vec::new();
        let mut k: usize = 0;
        proof {
            lemma_suffix_refl(b);
            assert(values_view(out@) == Seq::<ValueView>::empty());
            assert(ss@.skip(0) == ss@);
            lemma_prepend_empty(decode_each(ss@, b));
        }
        while k < ss.len()
            invariant
                k <= ss.len(),
                b == old(self).remaining(),
                is_suffix_of(self.input@, b),
                decode_each(ss@, b) == prepend(
                    decode_each(ss@.skip(k as int), self.input@),
                    values_view(out@),
                    b.len() - self.input@.len(),
                ),
            decreases ss.len() - k,
        {
            let ghost cur = self.input@;
            proof {
                assert(ss@.skip(k as int)[0] == ss@[k as int]);
                assert(ss@.skip(k as int).drop_first() == ss@.skip(k + 1));
            }
            match self.deserialize_value(&ss[k]) {
                Ok(x) => {
                    proof {
                        let xv = value_view(x);
                        let m = cur.len() - self.input@.len();
                        lemma_after_cons(decode_each(ss@.skip(k + 1), self.input@), xv, m);
                        lemma_prepend_twice(
                            decode_each(ss@.skip(k + 1), self.input@),
                            values_view(out@),
                            seq![xv],
                            b.len() - cur.len(),
                            m,
                        );
                        lemma_values_view_push(out@, x);
                        assert(values_view(out@) + seq![xv] == values_view(out@).push(xv));
                        lemma_suffix_trans(self.input@, cur, b);
                    }
                    out.push(x);
                    k = k + 1;
                },
                Err(err) => {
                    proof {
                        lemma_suffix_trans(self.input@, cur, b);
                        assert(decode(ss@[k as int], cur) == Err::<(ValueView, int), Error>(err));
                        assert(decode_each(ss@.skip(k as int), cur) == Err::<
                            (Seq<ValueView>, int),
                            Error,
                        >(err));
                        assert(decode_each(ss@, b) == Err::<(Seq<ValueView>, int), Error>(err));
                    }
                    return Err(err);
                },
            }
        }
        proof {
            assert(ss@.skip(ss.len() as int).len() == 0);
            lemma_prepend_empty_tail(values_view(out@), b.len() - self.input@.len());
        }
        Ok(out)
    }
}

proof fn lemma_suffix_refl(b: Seq<u8>)
    ensures
        is_suffix_of(b, b),
{
    assert(b.skip(0) == b);
}

proof fn lemma_suffix_trans(a: Seq<u8>, b: Seq<u8>, c: Seq<u8>)
    requires
        is_suffix_of(a, b),
        is_suffix_of(b, c),
    ensures
        is_suffix_of(a, c),
{
    assert(c.skip(c.len() - b.len()).skip(b.len() - a.len()) == c.skip(c.len() - a.len()));
}

proof fn lemma_prepend_empty(d: Decoded<Seq<ValueView>>)
    ensures
        prepend(d, Seq::<ValueView>::empty(), 0) == d,
{
    if let Ok((xs, k)) = d {
        assert(Seq::<ValueView>::empty() + xs == xs);
    }
}

proof fn lemma_prepend_empty_tail(acc: Seq<ValueView>, c: int)
    ensures
        prepend(Ok((Seq::<ValueView>::empty(), 0)), acc, c) == Ok::<(Seq<ValueView>, int), Error>(
            (acc, c),
        ),
{
    assert(acc + Seq::<ValueView>::empty() == acc);
}

proof fn lemma_after_cons(d: Decoded<Seq<ValueView>>, x: ValueView, m: int)
    ensures
        crate::ameon::value::after(d, m, |xs: Seq<ValueView>| seq![x] + xs) == prepend(d, seq![x], m),
{
}

/// Reads a whole value of the given shape from `input`, which must hold nothing more.
pub fn from_bytes(input: &[u8], schema: &Schema) -> (r: Result<Value, Error>)
    ensures
        match decode(*schema, input@) {
            Ok((v, k)) => if k == input@.len() {
                r matches Ok(x) && x@ == v
            } else {
                r == Err::<Value, Error>(Error::Leftover)
            },
            Err(e) => r == Err::<Value, Error>(e),
        },
{
    let mut deserializer = Deserializer::from_bytes(input);
    let t = deserializer.deserialize_value(schema)?;
    if deserializer.is_empty() {
        Ok(t)
    } else {
        Err(Error::Leftover)
    }
}

/// Reading back exactly what `to_bytes` wrote gives the value back.
pub proof fn from_bytes_inverts_to_bytes(v: ValueView, s: Schema)
    requires
        conforms(v, s),
        encodable(v),
    ensures
        decode(s, encode(v)) == Ok::<(ValueView, int), Error>((v, encode(v).len() as int)),
{
    lemma_roundtrip(v, s, Seq::empty());
    assert(encode(v) + Seq::<u8>::empty() == encode(v));
}

/// With bytes after a value's encoding, the value is still read, but it does not
/// take all of the input, so `from_bytes` refuses it with `Leftover`.
pub proof fn trailing_bytes_are_left_over(v: ValueView, s: Schema, rest: Seq<u8>)
    requires
        conforms(v, s),
        encodable(v),
        rest.len() > 0,
    ensures
        decode(s, encode(v) + rest) matches Ok((x, k)) && x == v && k < (encode(v) + rest).len(),
{
    lemma_roundtrip(v, s, rest);
}

} // verus!
