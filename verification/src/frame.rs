//! Frames that carry one message over a stream: a marker byte, the length of the
//! compressed payload as eight little-endian bytes, then the DEFLATE-compressed payload.
use vstd::prelude::*;
use vstd::slice::slice_subrange;

use crate::ameon::be::{lemma_pow256_values, pow256};
use crate::ameon::de::from_bytes_inverts_to_bytes;
use crate::ameon::error::Error;
use crate::ameon::value::{conforms, decode, encodable, encode, Schema, ValueView};
use crate::le::{le_bytes, le_value, lemma_le_bytes_len, lemma_le_roundtrip, push_le, read_le};

verus! {

/// The byte that opens every frame.
pub const INCOMING_MESSAGE_CODE: u8 = 255;

/// The DEFLATE compression of `data`, as `deflate::deflate_bytes` computes it.
pub uninterp spec fn deflated(data: Seq<u8>) -> Seq<u8>;

/// What `inflate::inflate_bytes` makes of `data`: the decompressed bytes, or its error message.
pub uninterp spec fn inflated(data: Seq<u8>) -> Result<Seq<u8>, Seq<char>>;

/// Decompressing `compressed` succeeds and gives `data`.
pub open spec fn inflates_to(compressed: Seq<u8>, data: Seq<u8>) -> bool {
    inflated(compressed) == Ok::<Seq<u8>, Seq<char>>(data)
}

/// Calls `deflate::deflate_bytes`. Trusted: the result is the crate's DEFLATE
/// compression of the input, and decompressing it gives the input back.
#[verifier::external_body]
fn compress(data: &[u8]) -> (r: Vec<u8>)
    ensures
        r@ == deflated(data@),
        inflates_to(r@, data@),
{
    deflate::deflate_bytes(data)
}

/// Calls `inflate::inflate_bytes`. Trusted: the result is the crate's decompression
/// of the input or its error message, a function of the input alone. The decoder
/// holds internal `assert!`s; that none of them fires on malformed input is not
/// claimed here.
#[verifier::external_body]
fn decompress(data: &[u8]) -> (r: Result<Vec<u8>, String>)
    ensures
        match r {
            Ok(v) => inflated(data@) matches Ok(d) && d == v@,
            Err(e) => inflated(data@) matches Err(m) && m == e@,
        },
{
    inflate::inflate_bytes(data)
}

/// Why a frame could not be read.
#[derive(Debug, Clone, PartialEq, Eq)]
pub enum FrameError {
    /// The stream ended inside the frame.
    UnexpectedEof,
    /// The announced length does not fit in this machine's `usize`.
    LengthOverflow,
    /// The payload is not valid DEFLATE data; the decompressor's message.
    Inflate(String),
}

/// The frame around an already compressed payload.
pub open spec fn frame(compressed: Seq<u8>) -> Seq<u8> {
    seq![INCOMING_MESSAGE_CODE] + le_bytes(compressed.len(), 8) + compressed
}

/// The view of a frame error.
pub enum FrameErrorView {
    UnexpectedEof,
    LengthOverflow,
    Inflate(Seq<char>),
}

pub open spec fn frame_error_view(e: FrameError) -> FrameErrorView {
    match e {
        FrameError::UnexpectedEof => FrameErrorView::UnexpectedEof,
        FrameError::LengthOverflow => FrameErrorView::LengthOverflow,
        FrameError::Inflate(s) => FrameErrorView::Inflate(s@),
    }
}

/// Reading a frame from the bytes that a stream holds: nothing when it holds none,
/// else the decompressed payload and the number of bytes the frame took.
pub open spec fn unframe(b: Seq<u8>) -> Result<Option<(Seq<u8>, int)>, FrameErrorView> {
    if b.len() == 0 {
        Ok(None)
    } else if b.len() < 9 {
        Err(FrameErrorView::UnexpectedEof)
    } else {
        let len = le_value(b.subrange(1, 9)) as int;
        if len > usize::MAX {
            Err(FrameErrorView::LengthOverflow)
        } else if b.len() - 9 < len {
            Err(FrameErrorView::UnexpectedEof)
        } else {
            match inflated(b.subrange(9, 9 + len)) {
                Ok(d) => Ok(Some((d, 9 + len))),
                Err(msg) => Err(FrameErrorView::Inflate(msg)),
            }
        }
    }
}

/// Compresses a serialized message and puts it in a frame.
pub fn encode_frame(payload: &[u8]) -> (r: Vec<u8>)
    ensures
        r@ == frame(deflated(payload@)),
        inflated(deflated(payload@)) == Ok::<Seq<u8>, Seq<char>>(payload@),
{
    let buf = compress(payload);
    let mut out: Vec<u8> = Vec::new();
    out.push(INCOMING_MESSAGE_CODE);
    push_le(&mut out, buf.len() as u128, 8);
    let mut i: usize = 0;
    let ghost head = out@;
    while i < buf.len()
        invariant
            i <= buf.len(),
            out@ == head + buf@.take(i as int),
        decreases buf.len() - i,
    {
        out.push(buf[i]);
        i = i + 1;
        assert(out@ == head + buf@.take(i as int));
    }
    assert(buf@.take(buf.len() as int) == buf@);
    out
}

/// Reads one frame from the front of the bytes a stream holds. The stream must
/// be in step: a frame starts with the marker byte.
pub fn decode_frame(bytes: &[u8]) -> (r: Result<Option<(Vec<u8>, usize)>, FrameError>)
    requires
        bytes@.len() > 0 ==> bytes@[0] == INCOMING_MESSAGE_CODE,
    ensures
        match r {
            Ok(None) => unframe(bytes@) == Ok::<Option<(Seq<u8>, int)>, FrameErrorView>(None),
            Ok(Some((d, k))) => unframe(bytes@) == Ok::<Option<(Seq<u8>, int)>, FrameErrorView>(
                Some((d@, k as int)),
            ),
            Err(e) => unframe(bytes@) == Err::<Option<(Seq<u8>, int)>, FrameErrorView>(
                frame_error_view(e),
            ),
        },
{
    if bytes.len() == 0 {
        return Ok(None);
    }
    if bytes.len() < 9 {
        return Err(FrameError::UnexpectedEof);
    }
    let len_bytes = slice_subrange(bytes, 1, 9);
    let len = read_le(len_bytes);
    proof {
        lemma_pow256_values();
        crate::le::lemma_le_value_bound(len_bytes@);
    }
    if len > usize::MAX as u128 {
        return Err(FrameError::LengthOverflow);
    }
    let len = len as usize;
    if bytes.len() - 9 < len {
        return Err(FrameError::UnexpectedEof);
    }
    let body = slice_subrange(bytes, 9, 9 + len);
    match decompress(body) {
        Ok(d) => Ok(Some((d, 9 + len))),
        Err(msg) => Err(FrameError::Inflate(msg)),
    }
}

/// Reading a frame back gives what was put in it, and the frame's length,
/// whatever follows it on the stream.
pub proof fn unframe_inverts_frame(payload: Seq<u8>, compressed: Seq<u8>, rest: Seq<u8>)
    requires
        inflated(compressed) == Ok::<Seq<u8>, Seq<char>>(payload),
        compressed.len() <= usize::MAX,
    ensures
        unframe(frame(compressed) + rest) == Ok::<Option<(Seq<u8>, int)>, FrameErrorView>(
            Some((payload, 9 + compressed.len() as int)),
        ),
{
    let b = frame(compressed) + rest;
    lemma_le_bytes_len(compressed.len(), 8);
    lemma_pow256_values();
    assert(compressed.len() < pow256(8));
    lemma_le_roundtrip(compressed.len(), 8);
    assert(b.subrange(1, 9) == le_bytes(compressed.len(), 8));
    assert(b.subrange(9, 9 + compressed.len() as int) == compressed);
}

/// A value sent as a frame comes back from any stream that starts with that
/// frame: `encode_frame` frames the value's encoding, `decode_frame` hands the
/// encoding back and the frame's length, and `from_bytes` reads the value from it.
/// (`encode_frame` ensures the decompression clause for every payload it frames.)
pub proof fn framed_value_reads_back(v: ValueView, s: Schema, rest: Seq<u8>)
    requires
        conforms(v, s),
        encodable(v),
        inflated(deflated(encode(v))) == Ok::<Seq<u8>, Seq<char>>(encode(v)),
        deflated(encode(v)).len() <= usize::MAX,
    ensures
        unframe(frame(deflated(encode(v))) + rest) == Ok::<Option<(Seq<u8>, int)>, FrameErrorView>(
            Some((encode(v), 9 + deflated(encode(v)).len() as int)),
        ),
        decode(s, encode(v)) == Ok::<(ValueView, int), Error>((v, encode(v).len() as int)),
{
    unframe_inverts_frame(encode(v), deflated(encode(v)), rest);
    from_bytes_inverts_to_bytes(v, s);
}

} // verus!
