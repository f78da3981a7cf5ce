//! Writing values to a byte stream and reading them back: integers as
//! little-endian bytes of their full width, `bool` as one byte, an optional value
//! as a flag byte and the value, and buffers and lists after their length,
//! written in a chosen number of bytes.
use vstd::prelude::*;
use vstd::slice::{slice_subrange, slice_to_vec};
use vstd::utf8::*;

use crate::ameon::be::{lemma_pow256_monotone, lemma_pow256_values, pow256};
use crate::le::{le_bytes, le_value, lemma_le_roundtrip, lemma_le_value_bound, push_le, read_le};
use crate::text::{str_bytes, utf8_str};

verus! {

/// Why a value could not be read.
#[derive(Debug, Clone, Copy, PartialEq, Eq)]
pub enum ReadError {
    /// The stream ended inside the value.
    UnexpectedEof,
    /// The bytes of a string are not UTF-8.
    InvalidUtf8,
}

/// A length that does not fit in the number of bytes chosen for it.
#[derive(Debug, Clone, Copy, PartialEq, Eq)]
pub struct SizeError {
    /// The length.
    pub value: usize,
    /// The number of bytes it had to fit in.
    pub bytes: usize,
}

/// A byte that names no variant of an enum.
#[derive(Debug, Clone, Copy, PartialEq, Eq)]
pub struct UnknownVariantError<T>(pub T);

/// A value with a fixed way of being written.
pub trait WriteTo: Sized {
    /// The bytes the value is written as.
    spec fn written(&self) -> Seq<u8>;

    fn write_to(&self, out: &mut Vec<u8>)
        ensures
            final(out)@ == old(out)@ + self.written(),
    ;
}

/// A value that can be read from the front of a stream's bytes.
pub trait ReadFrom: Sized {
    /// The value at the front of `b` and the number of bytes it takes, or why none is there.
    spec fn read_spec(b: Seq<u8>) -> Result<(Self, int), ReadError>;

    fn read_from(input: &[u8]) -> (r: Result<(Self, usize), ReadError>)
        ensures
            match r {
                Ok((v, k)) => Self::read_spec(input@) == Ok::<(Self, int), ReadError>((v, k as int)),
                Err(e) => Self::read_spec(input@) == Err::<(Self, int), ReadError>(e),
            },
            r matches Ok((v, k)) ==> k <= input@.len(),
    ;
}

/// Reading an unsigned number of `n` bytes.
pub open spec fn read_uint(b: Seq<u8>, n: int) -> Result<(nat, int), ReadError> {
    if b.len() < n {
        Err(ReadError::UnexpectedEof)
    } else {
        Ok((le_value(b.take(n)), n))
    }
}

fn read_uint_exec(input: &[u8], n: usize) -> (r: Result<u128, ReadError>)
    requires
        n <= 16,
    ensures
        match r {
            Ok(v) => read_uint(input@, n as int) == Ok::<(nat, int), ReadError>((v as nat, n as int)),
            Err(e) => read_uint(input@, n as int) == Err::<(nat, int), ReadError>(e),
        },
{
    if input.len() < n {
        Err(ReadError::UnexpectedEof)
    } else {
        let b = slice_subrange(input, 0, n);
        assert(b@ == input@.take(n as int));
        Ok(read_le(b))
    }
}

impl WriteTo for u8 {
    open spec fn written(&self) -> Seq<u8> {
        seq![*self]
    }

    fn write_to(&self, out: &mut Vec<u8>) {
        out.push(*self);
    }
}

impl WriteTo for bool {
    open spec fn written(&self) -> Seq<u8> {
        seq![if *self { 1u8 } else { 0u8 }]
    }

    fn write_to(&self, out: &mut Vec<u8>) {
        out.push(if *self { 1u8 } else { 0u8 });
    }
}

impl WriteTo for u16 {
    open spec fn written(&self) -> Seq<u8> {
        le_bytes(*self as nat, 2)
    }

    fn write_to(&self, out: &mut Vec<u8>) {
        push_le(out, *self as u128, 2);
    }
}

impl WriteTo for u32 {
    open spec fn written(&self) -> Seq<u8> {
        le_bytes(*self as nat, 4)
    }

    fn write_to(&self, out: &mut Vec<u8>) {
        push_le(out, *self as u128, 4);
    }
}

impl WriteTo for u64 {
    open spec fn written(&self) -> Seq<u8> {
        le_bytes(*self as nat, 8)
    }

    fn write_to(&self, out: &mut Vec<u8>) {
        push_le(out, *self as u128, 8);
    }
}

impl WriteTo for u128 {
    open spec fn written(&self) -> Seq<u8> {
        le_bytes(*self as nat, 16)
    }

    fn write_to(&self, out: &mut Vec<u8>) {
        push_le(out, *self, 16);
    }
}

impl WriteTo for i8 {
    open spec fn written(&self) -> Seq<u8> {
        seq![*self as u8]
    }

    fn write_to(&self, out: &mut Vec<u8>) {
        out.push(*self as u8);
    }
}

impl WriteTo for i16 {
    open spec fn written(&self) -> Seq<u8> {
        le_bytes((*self as u16) as nat, 2)
    }

    fn write_to(&self, out: &mut Vec<u8>) {
        push_le(out, (*self as u16) as u128, 2);
    }
}

impl WriteTo for i32 {
    open spec fn written(&self) -> Seq<u8> {
        le_bytes((*self as u32) as nat, 4)
    }

    fn write_to(&self, out: &mut Vec<u8>) {
        push_le(out, (*self as u32) as u128, 4);
    }
}

impl WriteTo for i64 {
    open spec fn written(&self) -> Seq<u8> {
        le_bytes((*self as u64) as nat, 8)
    }

    fn write_to(&self, out: &mut Vec<u8>) {
        push_le(out, (*self as u64) as u128, 8);
    }
}

impl WriteTo for i128 {
    open spec fn written(&self) -> Seq<u8> {
        le_bytes((*self as u128) as nat, 16)
    }

    fn write_to(&self, out: &mut Vec<u8>) {
        push_le(out, *self as u128, 16);
    }
}

impl<T: WriteTo> WriteTo for Option<T> {
    open spec fn written(&self) -> Seq<u8> {
        match self {
            Some(v) => seq![1u8] + v.written(),
            None => seq![0u8],
        }
    }

    fn write_to(&self, out: &mut Vec<u8>) {
        match self {
            Some(v) => {
                out.push(1u8);
                let ghost mid = out@;
                v.write_to(out);
                assert(out@ == mid + v.written());
            },
            None => {
                out.push(0u8);
            },
        }
    }
}

impl ReadFrom for u8 {
    open spec fn read_spec(b: Seq<u8>) -> Result<(u8, int), ReadError> {
        if b.len() < 1 {
            Err(ReadError::UnexpectedEof)
        } else {
            Ok((b[0], 1))
        }
    }

    fn read_from(input: &[u8]) -> (r: Result<(u8, usize), ReadError>) {
        if input.len() < 1 {
            Err(ReadError::UnexpectedEof)
        } else {
            Ok((input[0], 1))
        }
    }
}

impl ReadFrom for bool {
    open spec fn read_spec(b: Seq<u8>) -> Result<(bool, int), ReadError> {
        if b.len() < 1 {
            Err(ReadError::UnexpectedEof)
        } else {
            Ok((b[0] != 0, 1))
        }
    }

    fn read_from(input: &[u8]) -> (r: Result<(bool, usize), ReadError>) {
        if input.len() < 1 {
            Err(ReadError::UnexpectedEof)
        } else {
            Ok((input[0] != 0, 1))
        }
    }
}

impl ReadFrom for i8 {
    open spec fn read_spec(b: Seq<u8>) -> Result<(i8, int), ReadError> {
        if b.len() < 1 {
            Err(ReadError::UnexpectedEof)
        } else {
            Ok((b[0] as i8, 1))
        }
    }

    fn read_from(input: &[u8]) -> (r: Result<(i8, usize), ReadError>) {
        if input.len() < 1 {
            Err(ReadError::UnexpectedEof)
        } else {
            Ok((input[0] as i8, 1))
        }
    }
}

impl ReadFrom for u16 {
    open spec fn read_spec(b: Seq<u8>) -> Result<(u16, int), ReadError> {
        match read_uint(b, 2) {
            Ok((v, k)) => Ok((v as u16, k)),
            Err(e) => Err(e),
        }
    }

    fn read_from(input: &[u8]) -> (r: Result<(u16, usize), ReadError>) {
        match read_uint_exec(input, 2) {
            Ok(v) => Ok((v as u16, 2)),
            Err(e) => Err(e),
        }
    }
}

impl ReadFrom for u32 {
    open spec fn read_spec(b: Seq<u8>) -> Result<(u32, int), ReadError> {
        match read_uint(b, 4) {
            Ok((v, k)) => Ok((v as u32, k)),
            Err(e) => Err(e),
        }
    }

    fn read_from(input: &[u8]) -> (r: Result<(u32, usize), ReadError>) {
        match read_uint_exec(input, 4) {
            Ok(v) => Ok((v as u32, 4)),
            Err(e) => Err(e),
        }
    }
}

impl ReadFrom for u64 {
    open spec fn read_spec(b: Seq<u8>) -> Result<(u64, int), ReadError> {
        match read_uint(b, 8) {
            Ok((v, k)) => Ok((v as u64, k)),
            Err(e) => Err(e),
        }
    }

    fn read_from(input: &[u8]) -> (r: Result<(u64, usize), ReadError>) {
        match read_uint_exec(input, 8) {
            Ok(v) => Ok((v as u64, 8)),
            Err(e) => Err(e),
        }
    }
}

impl ReadFrom for u128 {
    open spec fn read_spec(b: Seq<u8>) -> Result<(u128, int), ReadError> {
        match read_uint(b, 16) {
            Ok((v, k)) => Ok((v as u128, k)),
            Err(e) => Err(e),
        }
    }

    fn read_from(input: &[u8]) -> (r: Result<(u128, usize), ReadError>) {
        match read_uint_exec(input, 16) {
            Ok(v) => Ok((v, 16)),
            Err(e) => Err(e),
        }
    }
}

impl ReadFrom for i16 {
    open spec fn read_spec(b: Seq<u8>) -> Result<(i16, int), ReadError> {
        match read_uint(b, 2) {
            Ok((v, k)) => Ok(((v as u16) as i16, k)),
            Err(e) => Err(e),
        }
    }

    fn read_from(input: &[u8]) -> (r: Result<(i16, usize), ReadError>) {
        match read_uint_exec(input, 2) {
            Ok(v) => Ok(((v as u16) as i16, 2)),
            Err(e) => Err(e),
        }
    }
}

impl ReadFrom for i32 {
    open spec fn read_spec(b: Seq<u8>) -> Result<(i32, int), ReadError> {
        match read_uint(b, 4) {
            Ok((v, k)) => Ok(((v as u32) as i32, k)),
            Err(e) => Err(e),
        }
    }

    fn read_from(input: &[u8]) -> (r: Result<(i32, usize), ReadError>) {
        match read_uint_exec(input, 4) {
            Ok(v) => Ok(((v as u32) as i32, 4)),
            Err(e) => Err(e),
        }
    }
}

impl ReadFrom for i64 {
    open spec fn read_spec(b: Seq<u8>) -> Result<(i64, int), ReadError> {
        match read_uint(b, 8) {
            Ok((v, k)) => Ok(((v as u64) as i64, k)),
            Err(e) => Err(e),
        }
    }

    fn read_from(input: &[u8]) -> (r: Result<(i64, usize), ReadError>) {
        match read_uint_exec(input, 8) {
            Ok(v) => Ok(((v as u64) as i64, 8)),
            Err(e) => Err(e),
        }
    }
}

impl ReadFrom for i128 {
    open spec fn read_spec(b: Seq<u8>) -> Result<(i128, int), ReadError> {
        match read_uint(b, 16) {
            Ok((v, k)) => Ok(((v as u128) as i128, k)),
            Err(e) => Err(e),
        }
    }

    fn read_from(input: &[u8]) -> (r: Result<(i128, usize), ReadError>) {
        match read_uint_exec(input, 16) {
            Ok(v) => Ok((v as i128, 16)),
            Err(e) => Err(e),
        }
    }
}

impl<T: ReadFrom> ReadFrom for Option<T> {
    open spec fn read_spec(b: Seq<u8>) -> Result<(Option<T>, int), ReadError> {
        if b.len() < 1 {
            Err(ReadError::UnexpectedEof)
        } else if b[0] == 0 {
            Ok((None, 1))
        } else {
            match T::read_spec(b.skip(1)) {
                Ok((v, k)) => Ok((Some(v), k + 1)),
                Err(e) => Err(e),
            }
        }
    }

    fn read_from(input: &[u8]) -> (r: Result<(Option<T>, usize), ReadError>) {
        if input.len() < 1 {
            return Err(ReadError::UnexpectedEof);
        }
        if input[0] == 0 {
            return Ok((None, 1));
        }
        let rest = slice_subrange(input, 1, input.len());
        assert(rest@ == input@.skip(1));
        match T::read_from(rest) {
            Ok((v, k)) => Ok((Some(v), k + 1)),
            Err(e) => Err(e),
        }
    }
}

/// A buffer written after its length, which takes a chosen number of bytes.
pub trait VarWriteTo {
    fn write_to<const N: usize>(&self, out: &mut Vec<u8>) -> Result<(), SizeError>
        requires
            N * 8 <= usize::BITS,
    ;
}

/// A buffer read after its length, which takes a chosen number of bytes.
pub trait VarReadFrom: Sized {
    fn read_from<const N: usize>(input: &[u8]) -> Result<(Self, usize), ReadError>
        requires
            N * 8 <= usize::BITS,
    ;
}

/// A list written as its length, in a chosen number of bytes, then each item.
pub trait WriteListTo {
    fn write_list<const N: usize>(&self, out: &mut Vec<u8>) -> Result<(), SizeError>
        requires
            N * 8 <= usize::BITS,
    ;
}

/// A list read as its length, in a chosen number of bytes, then that many items.
pub trait ReadListFrom<T>: Sized {
    fn read_list<const N: usize>(input: &[u8]) -> Result<(Self, usize), ReadError>
        requires
            N * 8 <= usize::BITS,
    ;
}

/// 256 to the power `n`, for `n` up to 8.
fn byte_limit(n: usize) -> (r: u128)
    requires
        n <= 8,
    ensures
        r == pow256(n as nat),
{
    let mut lim: u128 = 1;
    let mut i: usize = 0;
    proof {
        lemma_pow256_values();
    }
    while i < n
        invariant
            i <= n <= 8,
            lim == pow256(i as nat),
            pow256(8) == 0x1_0000_0000_0000_0000,
        decreases n - i,
    {
        proof {
            lemma_pow256_monotone((i + 1) as nat, 8);
        }
        lim = lim * 256;
        i = i + 1;
    }
    lim
}

proof fn lemma_usize_fits(n: nat)
    requires
        n * 8 <= usize::BITS,
    ensures
        n <= 8,
        pow256(n) <= usize::MAX + 1,
        usize::MAX < pow256(8),
{
    lemma_pow256_values();
    if usize::BITS == 32 {
        lemma_pow256_monotone(n, 4);
    } else {
        lemma_pow256_monotone(n, 8);
    }
}

impl VarWriteTo for usize {
    /// Writes the number in `N` bytes, or refuses it when it does not fit.
    fn write_to<const N: usize>(&self, out: &mut Vec<u8>) -> (r: Result<(), SizeError>)
        ensures
            match r {
                Ok(()) => (*self as nat) < pow256(N as nat) && final(out)@ == old(out)@ + le_bytes(
                    *self as nat,
                    N as nat,
                ),
                Err(e) => (*self as nat) >= pow256(N as nat) && e == SizeError {
                    value: *self,
                    bytes: N,
                } && final(out)@ == old(out)@,
            },
    {
        proof {
            lemma_usize_fits(N as nat);
        }
        let lim = byte_limit(N);
        if (*self as u128) >= lim {
            return Err(SizeError { value: *self, bytes: N });
        }
        push_le(out, *self as u128, N);
        Ok(())
    }
}

impl VarWriteTo for [u8] {
    /// Writes the length in `N` bytes, then the bytes; refuses a length that does not fit.
    fn write_to<const N: usize>(&self, out: &mut Vec<u8>) -> (r: Result<(), SizeError>)
        ensures
            match r {
                Ok(()) => self@.len() < pow256(N as nat) && final(out)@ == old(out)@ + le_bytes(
                    self@.len(),
                    N as nat,
                ) + self@,
                Err(e) => self@.len() >= pow256(N as nat) && e == SizeError {
                    value: self@.len() as usize,
                    bytes: N,
                } && final(out)@ == old(out)@,
            },
    {
        let len = self.len();
        <usize as VarWriteTo>::write_to::<N>(&len, out)?;
        let ghost mid = out@;
        let mut i: usize = 0;
        while i < self.len()
            invariant
                i <= self@.len(),
                out@ == mid + self@.take(i as int),
            decreases self@.len() - i,
        {
            out.push(self[i]);
            i = i + 1;
            assert(out@ == mid + self@.take(i as int));
        }
        assert(self@.take(self@.len() as int) == self@);
        Ok(())
    }
}

impl VarWriteTo for str {
    /// Writes the length of the UTF-8 bytes in `N` bytes, then the bytes; refuses
    /// a length that does not fit.
    fn write_to<const N: usize>(&self, out: &mut Vec<u8>) -> (r: Result<(), SizeError>)
        ensures
            match r {
                Ok(()) => encode_utf8(self@).len() < pow256(N as nat) && final(out)@ == old(out)@
                    + le_bytes(encode_utf8(self@).len(), N as nat) + encode_utf8(self@),
                Err(e) => encode_utf8(self@).len() >= pow256(N as nat) && e == SizeError {
                    value: encode_utf8(self@).len() as usize,
                    bytes: N,
                } && final(out)@ == old(out)@,
            },
    {
        let b = str_bytes(self);
        <[u8] as VarWriteTo>::write_to::<N>(b.as_slice(), out)
    }
}

/// Reading a buffer after its length of `n` bytes.
pub open spec fn var_bytes(b: Seq<u8>, n: nat) -> Result<(Seq<u8>, int), ReadError> {
    if b.len() < n {
        Err(ReadError::UnexpectedEof)
    } else {
        let len = le_value(b.take(n as int)) as int;
        if b.len() - n < len {
            Err(ReadError::UnexpectedEof)
        } else {
            Ok((b.subrange(n as int, n + len), n + len))
        }
    }
}

/// Reading a string after its length of `n` bytes.
pub open spec fn var_string(b: Seq<u8>, n: nat) -> Result<(Seq<char>, int), ReadError> {
    match var_bytes(b, n) {
        Ok((d, k)) => if valid_utf8(d) {
            Ok((decode_utf8(d), k))
        } else {
            Err(ReadError::InvalidUtf8)
        },
        Err(e) => Err(e),
    }
}

impl VarReadFrom for usize {
    /// Reads a number of `N` bytes.
    fn read_from<const N: usize>(input: &[u8]) -> (r: Result<(usize, usize), ReadError>)
        ensures
            match r {
                Ok((v, k)) => input@.len() >= N && v as nat == le_value(input@.take(N as int))
                    && k == N,
                Err(e) => input@.len() < N && e == ReadError::UnexpectedEof,
            },
    {
        proof {
            lemma_usize_fits(N as nat);
        }
        if input.len() < N {
            return Err(ReadError::UnexpectedEof);
        }
        let b = slice_subrange(input, 0, N);
        assert(b@ == input@.take(N as int));
        proof {
            lemma_le_value_bound(b@);
        }
        let v = read_le(b);
        Ok((v as usize, N))
    }
}

impl VarReadFrom for Vec<u8> {
    /// Reads a length of `N` bytes, then that many bytes.
    fn read_from<const N: usize>(input: &[u8]) -> (r: Result<(Vec<u8>, usize), ReadError>)
        ensures
            match r {
                Ok((v, k)) => var_bytes(input@, N as nat) == Ok::<(Seq<u8>, int), ReadError>(
                    (v@, k as int),
                ),
                Err(e) => var_bytes(input@, N as nat) == Err::<(Seq<u8>, int), ReadError>(e),
            },
    {
        let (len, n) = <usize as VarReadFrom>::read_from::<N>(input)?;
        if input.len() - n < len {
            return Err(ReadError::UnexpectedEof);
        }
        let v = slice_to_vec(slice_subrange(input, n, n + len));
        Ok((v, n + len))
    }
}

impl VarReadFrom for String {
    /// Reads a length of `N` bytes, then that many bytes, which must be UTF-8.
    fn read_from<const N: usize>(input: &[u8]) -> (r: Result<(String, usize), ReadError>)
        ensures
            match r {
                Ok((v, k)) => var_string(input@, N as nat) == Ok::<(Seq<char>, int), ReadError>(
                    (v@, k as int),
                ),
                Err(e) => var_string(input@, N as nat) == Err::<(Seq<char>, int), ReadError>(e),
            },
    {
        let (buf, k) = <Vec<u8> as VarReadFrom>::read_from::<N>(input)?;
        match utf8_str(buf.as_slice()) {
            Some(s) => Ok((s.to_owned(), k)),
            None => Err(ReadError::InvalidUtf8),
        }
    }
}

/// The bytes of each item, one after the other.
pub open spec fn items_written<T: WriteTo>(s: Seq<T>) -> Seq<u8>
    decreases s.len(),
{
    if s.len() == 0 {
        seq![]
    } else {
        items_written(s.drop_last()) + s.last().written()
    }
}

impl<T: WriteTo> WriteListTo for Vec<T> {
    /// Writes the number of items in `N` bytes, then each item; refuses a number
    /// that does not fit.
    fn write_list<const N: usize>(&self, out: &mut Vec<u8>) -> (r: Result<(), SizeError>)
        ensures
            match r {
                Ok(()) => self@.len() < pow256(N as nat) && final(out)@ == old(out)@ + le_bytes(
                    self@.len(),
                    N as nat,
                ) + items_written(self@),
                Err(e) => self@.len() >= pow256(N as nat) && e == SizeError {
                    value: self@.len() as usize,
                    bytes: N,
                } && final(out)@ == old(out)@,
            },
    {
        let len = self.len();
        <usize as VarWriteTo>::write_to::<N>(&len, out)?;
        let ghost mid = out@;
        let mut i: usize = 0;
        assert(self@.take(0) == Seq::<T>::empty());
        while i < self.len()
            invariant
                i <= self@.len(),
                out@ == mid + items_written(self@.take(i as int)),
            decreases self@.len() - i,
        {
            let ghost before = out@;
            self[i].write_to(out);
            proof {
                assert(self@.take(i + 1).drop_last() == self@.take(i as int));
                assert(self@.take(i + 1).last() == self@[i as int]);
                assert(out@ == mid + items_written(self@.take(i + 1)));
            }
            i = i + 1;
        }
        assert(self@.take(self@.len() as int) == self@);
        Ok(())
    }
}

/// Reading `count` items, one after the other, from the front of `b`.
pub open spec fn read_items<T: ReadFrom>(b: Seq<u8>, count: nat) -> Result<(Seq<T>, int), ReadError>
    decreases count,
{
    if count == 0 {
        Ok((seq![], 0))
    } else {
        match T::read_spec(b) {
            Ok((v, k)) => match read_items::<T>(b.skip(k), (count - 1) as nat) {
                Ok((vs, m)) => Ok((seq![v] + vs, k + m)),
                Err(e) => Err(e),
            },
            Err(e) => Err(e),
        }
    }
}

/// Reading a list after its length of `n` bytes.
pub open spec fn read_list_spec<T: ReadFrom>(b: Seq<u8>, n: nat) -> Result<(Seq<T>, int), ReadError> {
    if b.len() < n {
        Err(ReadError::UnexpectedEof)
    } else {
        match read_items::<T>(b.skip(n as int), le_value(b.take(n as int))) {
            Ok((xs, k)) => Ok((xs, n + k)),
            Err(e) => Err(e),
        }
    }
}

/// Puts `acc` before the items read and adds `m` to the count.
pub open spec fn prepend_items<T>(d: Result<(Seq<T>, int), ReadError>, acc: Seq<T>, m: int) -> Result<
    (Seq<T>, int),
    ReadError,
> {
    match d {
        Ok((xs, k)) => Ok((acc + xs, k + m)),
        Err(e) => Err(e),
    }
}

impl<T: ReadFrom> ReadListFrom<T> for Vec<T> {
    /// Reads the number of items in `N` bytes, then that many items.
    fn read_list<const N: usize>(input: &[u8]) -> (r: Result<(Vec<T>, usize), ReadError>)
        ensures
            match r {
                Ok((v, k)) => read_list_spec::<T>(input@, N as nat) == Ok::<(Seq<T>, int), ReadError>(
                    (v@, k as int),
                ),
                Err(e) => read_list_spec::<T>(input@, N as nat) == Err::<(Seq<T>, int), ReadError>(
                    e,
                ),
            },
    {
        let (len, n) = <usize as VarReadFrom>::read_from::<N>(input)?;
        let ghost b = input@;
        let mut items: Vec<T> = Vec::new();
        let mut o: usize = n;
        let mut i: usize = 0;
        assert(b.skip(n as int).skip(0) == b.skip(n as int));
        assert(items@ + Seq::<T>::empty() == items@);
        while i < len
            invariant
                i <= len,
                n <= o <= b.len(),
                b == input@,
                n == N,
                len as nat == le_value(b.take(N as int)),
                items@.len() == i,
                read_items::<T>(b.skip(n as int), len as nat) == prepend_items(
                    read_items::<T>(b.skip(o as int), (len - i) as nat),
                    items@,
                    o - n,
                ),
            decreases len - i,
        {
            let rest = slice_subrange(input, o, input.len());
            assert(rest@ == b.skip(o as int));
            match T::read_from(rest) {
                Ok((v, k)) => {
                    proof {
                        assert(b.skip(o as int).skip(k as int) == b.skip(o + k));
                        let tail = read_items::<T>(b.skip(o + k), (len - i - 1) as nat);
                        assert(read_items::<T>(b.skip(o as int), (len - i) as nat) == prepend_items(
                            tail,
                            seq![v],
                            k as int,
                        ));
                        match tail {
                            Ok((vs, m)) => {
                                assert(items@ + (seq![v] + vs) == items@.push(v) + vs);
                            },
                            Err(_) => {},
                        }
                    }
                    items.push(v);
                    o = o + k;
                },
                Err(e) => {
                    return Err(e);
                },
            }
            i = i + 1;
        }
        assert(items@ + Seq::<T>::empty() == items@);
        Ok((items, o))
    }
}

proof fn lemma_uint_read_back(v: nat, n: nat, rest: Seq<u8>)
    requires
        v < pow256(n),
    ensures
        read_uint(le_bytes(v, n) + rest, n as int) == Ok::<(nat, int), ReadError>((v, n as int)),
        le_bytes(v, n).len() == n,
{
    crate::le::lemma_le_bytes_len(v, n);
    lemma_le_roundtrip(v, n);
    assert((le_bytes(v, n) + rest).take(n as int) == le_bytes(v, n));
}

/// Reading back what an unsigned number was written as gives the number and
/// takes its whole width, whatever follows.
pub proof fn unsigned_read_back(a: u8, b: u16, c: u32, d: u64, e: u128, rest: Seq<u8>)
    ensures
        <u8 as ReadFrom>::read_spec(a.written() + rest) == Ok::<(u8, int), ReadError>((a, 1)),
        <u16 as ReadFrom>::read_spec(b.written() + rest) == Ok::<(u16, int), ReadError>((b, 2)),
        <u32 as ReadFrom>::read_spec(c.written() + rest) == Ok::<(u32, int), ReadError>((c, 4)),
        <u64 as ReadFrom>::read_spec(d.written() + rest) == Ok::<(u64, int), ReadError>((d, 8)),
        <u128 as ReadFrom>::read_spec(e.written() + rest) == Ok::<(u128, int), ReadError>(
            (e, 16),
        ),
{
    lemma_pow256_values();
    lemma_uint_read_back(b as nat, 2, rest);
    lemma_uint_read_back(c as nat, 4, rest);
    lemma_uint_read_back(d as nat, 8, rest);
    lemma_uint_read_back(e as nat, 16, rest);
}

/// Reading back what a signed number was written as gives the number and takes
/// its whole width, whatever follows.
pub proof fn signed_read_back(a: i8, b: i16, c: i32, d: i64, e: i128, rest: Seq<u8>)
    ensures
        <i8 as ReadFrom>::read_spec(a.written() + rest) == Ok::<(i8, int), ReadError>((a, 1)),
        <i16 as ReadFrom>::read_spec(b.written() + rest) == Ok::<(i16, int), ReadError>((b, 2)),
        <i32 as ReadFrom>::read_spec(c.written() + rest) == Ok::<(i32, int), ReadError>((c, 4)),
        <i64 as ReadFrom>::read_spec(d.written() + rest) == Ok::<(i64, int), ReadError>((d, 8)),
        <i128 as ReadFrom>::read_spec(e.written() + rest) == Ok::<(i128, int), ReadError>(
            (e, 16),
        ),
{
    lemma_pow256_values();
    lemma_uint_read_back((b as u16) as nat, 2, rest);
    lemma_uint_read_back((c as u32) as nat, 4, rest);
    lemma_uint_read_back((d as u64) as nat, 8, rest);
    lemma_uint_read_back((e as u128) as nat, 16, rest);
    assert((a as u8) as i8 == a) by (bit_vector);
    assert((b as u16) as i16 == b) by (bit_vector);
    assert((c as u32) as i32 == c) by (bit_vector);
    assert((d as u64) as i64 == d) by (bit_vector);
    assert((e as u128) as i128 == e) by (bit_vector);
}

/// Reading back what a `bool` was written as gives it back in one byte.
pub proof fn bool_read_back(b: bool, rest: Seq<u8>)
    ensures
        <bool as ReadFrom>::read_spec(b.written() + rest) == Ok::<(bool, int), ReadError>((b, 1)),
{
}

/// When its value reads back, an optional value reads back too, one byte longer.
pub proof fn option_read_back<T: WriteTo + ReadFrom>(x: Option<T>, rest: Seq<u8>)
    requires
        x matches Some(v) ==> T::read_spec(v.written() + rest) == Ok::<(T, int), ReadError>(
            (v, v.written().len() as int),
        ),
    ensures
        <Option<T> as ReadFrom>::read_spec(x.written() + rest) == Ok::<(Option<T>, int), ReadError>(
            (x, x.written().len() as int),
        ),
{
    if let Some(v) = x {
        assert((x.written() + rest).skip(1) == v.written() + rest);
    }
}

/// Reading back a buffer written after its length gives the buffer, whatever follows.
pub proof fn bytes_read_back(data: Seq<u8>, n: nat, rest: Seq<u8>)
    requires
        data.len() < pow256(n),
    ensures
        var_bytes(le_bytes(data.len(), n) + data + rest, n) == Ok::<(Seq<u8>, int), ReadError>(
            (data, (n + data.len()) as int),
        ),
{
    let b = le_bytes(data.len(), n) + data + rest;
    lemma_uint_read_back(data.len(), n, data + rest);
    assert(le_bytes(data.len(), n) + data + rest == le_bytes(data.len(), n) + (data + rest));
    assert(b.take(n as int) == le_bytes(data.len(), n));
    assert(b.subrange(n as int, (n + data.len()) as int) == data);
}

/// Reading back a string written after the length of its UTF-8 bytes gives the
/// string, whatever follows.
pub proof fn string_read_back(text: Seq<char>, n: nat, rest: Seq<u8>)
    requires
        encode_utf8(text).len() < pow256(n),
    ensures
        var_string(le_bytes(encode_utf8(text).len(), n) + encode_utf8(text) + rest, n) == Ok::<
            (Seq<char>, int),
            ReadError,
        >((text, (n + encode_utf8(text).len()) as int)),
{
    bytes_read_back(encode_utf8(text), n, rest);
    encode_utf8_valid_utf8(text);
    encode_utf8_decode_utf8(text);
}

proof fn lemma_items_written_front<T: WriteTo>(xs: Seq<T>)
    requires
        xs.len() > 0,
    ensures
        items_written(xs) == xs[0].written() + items_written(xs.drop_first()),
    decreases xs.len(),
{
    if xs.len() > 1 {
        lemma_items_written_front(xs.drop_last());
        assert(xs.drop_last().drop_first() == xs.drop_first().drop_last());
        assert(xs.drop_first().last() == xs.last());
        assert(xs.drop_last()[0] == xs[0]);
    } else {
        assert(xs.drop_last() == Seq::<T>::empty());
        assert(xs.drop_first() == Seq::<T>::empty());
        assert(xs.last() == xs[0]);
    }
}

proof fn lemma_read_items_back<T: WriteTo + ReadFrom>(xs: Seq<T>, rest: Seq<u8>)
    requires
        forall|i: int, r: Seq<u8>|
            0 <= i < xs.len() ==> #[trigger] T::read_spec(xs[i].written() + r) == Ok::<
                (T, int),
                ReadError,
            >((xs[i], xs[i].written().len() as int)),
    ensures
        read_items::<T>(items_written(xs) + rest, xs.len()) == Ok::<(Seq<T>, int), ReadError>(
            (xs, items_written(xs).len() as int),
        ),
    decreases xs.len(),
{
    if xs.len() > 0 {
        let t = xs.drop_first();
        lemma_items_written_front(xs);
        let w = xs[0].written();
        let b = items_written(xs) + rest;
        let tail = items_written(t) + rest;
        assert(b == w + tail);
        assert(T::read_spec(w + tail) == Ok::<(T, int), ReadError>((xs[0], w.len() as int)));
        assert(b.skip(w.len() as int) == tail);
        assert forall|i: int, r: Seq<u8>| 0 <= i < t.len() implies #[trigger] T::read_spec(
            t[i].written() + r,
        ) == Ok::<(T, int), ReadError>((t[i], t[i].written().len() as int)) by {
            assert(t[i] == xs[i + 1]);
            assert(T::read_spec(xs[i + 1].written() + r) == Ok::<(T, int), ReadError>(
                (xs[i + 1], xs[i + 1].written().len() as int),
            ));
        }
        lemma_read_items_back(t, rest);
        assert(read_items::<T>(tail, (xs.len() - 1) as nat) == Ok::<(Seq<T>, int), ReadError>(
            (t, items_written(t).len() as int),
        ));
        assert(seq![xs[0]] + t == xs);
        assert(read_items::<T>(b, xs.len()) == Ok::<(Seq<T>, int), ReadError>(
            (seq![xs[0]] + t, (w.len() + items_written(t).len()) as int),
        ));
    } else {
        assert(items_written(xs) == Seq::<u8>::empty());
        assert(xs == Seq::<T>::empty());
    }
}

/// When each item reads back, a list written after its length reads back too,
/// whatever follows.
pub proof fn list_read_back<T: WriteTo + ReadFrom>(xs: Seq<T>, n: nat, rest: Seq<u8>)
    requires
        xs.len() < pow256(n),
        forall|i: int, r: Seq<u8>|
            0 <= i < xs.len() ==> #[trigger] T::read_spec(xs[i].written() + r) == Ok::<
                (T, int),
                ReadError,
            >((xs[i], xs[i].written().len() as int)),
    ensures
        read_list_spec::<T>(le_bytes(xs.len(), n) + items_written(xs) + rest, n) == Ok::<
            (Seq<T>, int),
            ReadError,
        >((xs, (n + items_written(xs).len()) as int)),
{
    let b = le_bytes(xs.len(), n) + items_written(xs) + rest;
    lemma_uint_read_back(xs.len(), n, items_written(xs) + rest);
    assert(b == le_bytes(xs.len(), n) + (items_written(xs) + rest));
    assert(b.take(n as int) == le_bytes(xs.len(), n));
    assert(b.skip(n as int) == items_written(xs) + rest);
    lemma_read_items_back(xs, rest);
}

} // verus!
