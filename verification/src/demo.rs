//! A small message of text and images, written with a fixed header: the text's
//! length in two bytes, the number of images in one byte, each image's length in
//! two bytes, then the text and the images. Lengths are little-endian.
use vstd::prelude::*;
use vstd::slice::slice_subrange;
use vstd::utf8::*;

use crate::ameon::be::lemma_pow256_values;
use crate::le::{
    le_bytes, le_value, lemma_le_bytes_len, lemma_le_roundtrip, lemma_le_value_bound, push_le,
    read_le,
};
use crate::codec::ReadError;
use crate::text::{str_bytes, utf8_str};

verus! {

/// The most bytes an image is meant to hold.
pub const MAX_IMAGE_BYTES: usize = 2048;

/// The most bytes a text is meant to hold.
pub const MAX_TEXT_BYTES: usize = 2048;

/// The most images a message can hold.
pub const MAX_IMAGES: usize = 8;

#[derive(Debug, Clone, PartialEq, Eq, Hash)]
pub struct Image {
    /// At most [`MAX_IMAGE_BYTES`] bytes.
    pub data: Vec<u8>,
}

#[derive(Debug, Clone, PartialEq, Eq, Hash, Default)]
pub struct Message {
    /// At most [`MAX_TEXT_BYTES`] bytes.
    pub text: String,
    /// At most [`MAX_IMAGES`] images.
    pub images: Vec<Image>,
}

/// What a message holds: its text and the bytes of each image.
pub struct MessageView {
    pub text: Seq<char>,
    pub images: Seq<Seq<u8>>,
}

impl Message {
    pub open spec fn view_images(&self) -> Seq<Seq<u8>> {
        self.images@.map_values(|im: Image| im.data@)
    }

    pub open spec fn view_message(&self) -> MessageView {
        MessageView { text: self.text@, images: self.view_images() }
    }
}

/// The length of each image in two bytes, in order.
pub open spec fn sizes_bytes(imgs: Seq<Seq<u8>>) -> Seq<u8>
    decreases imgs.len(),
{
    if imgs.len() == 0 {
        seq![]
    } else {
        sizes_bytes(imgs.drop_last()) + le_bytes(imgs.last().len(), 2)
    }
}

/// The bytes of all images, one after the other.
pub open spec fn data_bytes(imgs: Seq<Seq<u8>>) -> Seq<u8>
    decreases imgs.len(),
{
    if imgs.len() == 0 {
        seq![]
    } else {
        data_bytes(imgs.drop_last()) + imgs.last()
    }
}

/// The bytes that a message is written as.
pub open spec fn encoded(text: Seq<char>, imgs: Seq<Seq<u8>>) -> Seq<u8> {
    le_bytes(encode_utf8(text).len(), 2) + le_bytes(imgs.len(), 1) + sizes_bytes(imgs)
        + encode_utf8(text) + data_bytes(imgs)
}

/// The lengths fit their fields: the text and each image in two bytes, the
/// number of images in one.
pub open spec fn writable(text: Seq<char>, imgs: Seq<Seq<u8>>) -> bool {
    &&& encode_utf8(text).len() <= u16::MAX
    &&& imgs.len() <= u8::MAX
    &&& forall|k: int| 0 <= k < imgs.len() ==> (#[trigger] imgs[k]).len() <= u16::MAX
}

/// The sum of a sequence of numbers.
pub open spec fn total(s: Seq<int>) -> int
    decreases s.len(),
{
    if s.len() == 0 {
        0
    } else {
        total(s.drop_last()) + s.last()
    }
}

/// The image lengths that a header announces, `count` of them after the first three bytes.
pub open spec fn header_sizes(b: Seq<u8>, count: int) -> Seq<int> {
    Seq::new(count as nat, |k: int| le_value(b.subrange(3 + 2 * k, 5 + 2 * k)) as int)
}

/// The images that follow the text at `start`, with the given lengths.
pub open spec fn body_images(b: Seq<u8>, start: int, sizes: Seq<int>) -> Seq<Seq<u8>> {
    Seq::new(
        sizes.len(),
        |k: int| b.subrange(start + total(sizes.take(k)), start + total(sizes.take(k + 1))),
    )
}

/// Reading a message from the bytes a stream holds: nothing when it holds none,
/// else the message and the number of bytes it took.
pub open spec fn decoded(b: Seq<u8>) -> Result<Option<(MessageView, int)>, ReadError> {
    if b.len() == 0 {
        Ok(None)
    } else if b.len() < 3 {
        Err(ReadError::UnexpectedEof)
    } else {
        let text_len = le_value(b.subrange(0, 2)) as int;
        let count = b[2] as int;
        let p = 3 + 2 * count;
        if b.len() < p {
            Err(ReadError::UnexpectedEof)
        } else if b.len() < p + text_len {
            Err(ReadError::UnexpectedEof)
        } else if !valid_utf8(b.subrange(p, p + text_len)) {
            Err(ReadError::InvalidUtf8)
        } else {
            let sizes = header_sizes(b, count);
            let q = p + text_len;
            if b.len() < q + total(sizes) {
                Err(ReadError::UnexpectedEof)
            } else {
                Ok(
                    Some(
                        (
                            MessageView {
                                text: decode_utf8(b.subrange(p, p + text_len)),
                                images: body_images(b, q, sizes),
                            },
                            q + total(sizes),
                        ),
                    ),
                )
            }
        }
    }
}

proof fn lemma_sizes_bytes(imgs: Seq<Seq<u8>>)
    ensures
        sizes_bytes(imgs).len() == 2 * imgs.len(),
        forall|k: int|
            0 <= k < imgs.len() ==> #[trigger] sizes_bytes(imgs).subrange(2 * k, 2 * k + 2)
                == le_bytes(imgs[k].len(), 2),
    decreases imgs.len(),
{
    if imgs.len() > 0 {
        let d = imgs.drop_last();
        lemma_sizes_bytes(d);
        lemma_le_bytes_len(imgs.last().len(), 2);
        let s = sizes_bytes(imgs);
        assert forall|k: int| 0 <= k < imgs.len() implies #[trigger] s.subrange(2 * k, 2 * k + 2)
            == le_bytes(imgs[k].len(), 2) by {
            if k < d.len() {
                assert(s.subrange(2 * k, 2 * k + 2) == sizes_bytes(d).subrange(2 * k, 2 * k + 2));
                assert(d[k] == imgs[k]);
            } else {
                assert(s.subrange(2 * k, 2 * k + 2) == le_bytes(imgs.last().len(), 2));
            }
        }
    }
}

pub open spec fn lens(imgs: Seq<Seq<u8>>) -> Seq<int> {
    imgs.map_values(|d: Seq<u8>| d.len() as int)
}

proof fn lemma_total_nonneg_mono(s: Seq<int>, k: int)
    requires
        forall|j: int| 0 <= j < s.len() ==> #[trigger] s[j] >= 0,
        0 <= k <= s.len(),
    ensures
        0 <= total(s.take(k)) <= total(s),
    decreases s.len(),
{
    if s.len() > 0 {
        if k == s.len() {
            assert(s.take(k) == s);
            lemma_total_nonneg_mono(s.drop_last(), k - 1);
            assert(s.drop_last().take(k - 1) == s.drop_last());
        } else {
            lemma_total_nonneg_mono(s.drop_last(), k);
            assert(s.drop_last().take(k) == s.take(k));
            assert(s.last() >= 0);
        }
    } else {
        assert(s.take(k) == s);
    }
}

proof fn lemma_data_bytes(imgs: Seq<Seq<u8>>)
    ensures
        data_bytes(imgs).len() == total(lens(imgs)),
        forall|k: int|
            0 <= k < imgs.len() ==> #[trigger] data_bytes(imgs).subrange(
                total(lens(imgs).take(k)),
                total(lens(imgs).take(k + 1)),
            ) == imgs[k],
    decreases imgs.len(),
{
    if imgs.len() > 0 {
        let d = imgs.drop_last();
        lemma_data_bytes(d);
        let l = lens(imgs);
        assert(lens(d) == l.drop_last());
        assert(l.take(imgs.len() as int) == l);
        let s = data_bytes(imgs);
        assert forall|k: int| 0 <= k < imgs.len() implies #[trigger] s.subrange(
            total(l.take(k)),
            total(l.take(k + 1)),
        ) == imgs[k] by {
            if k < d.len() {
                assert(l.take(k) == lens(d).take(k));
                assert(l.take(k + 1) == lens(d).take(k + 1));
                assert forall|j: int| 0 <= j < lens(d).len() implies #[trigger] lens(d)[j] >= 0 by {}
                lemma_total_nonneg_mono(lens(d), k + 1);
                lemma_total_nonneg_mono(lens(d).take(k + 1), k);
                assert(lens(d).take(k + 1).take(k) == lens(d).take(k));
                assert(s.subrange(total(l.take(k)), total(l.take(k + 1))) == data_bytes(d).subrange(
                    total(l.take(k)),
                    total(l.take(k + 1)),
                ));
                assert(d[k] == imgs[k]);
            } else {
                assert(l.take(k) == lens(d));
                assert(l.take(k + 1) == l);
                assert(s.subrange(total(l.take(k)), total(l.take(k + 1))) == imgs.last());
            }
        }
    }
}

/// Reading back what `write_to` wrote gives the message back and takes exactly
/// its bytes, whatever follows on the stream.
pub proof fn read_inverts_write(text: Seq<char>, imgs: Seq<Seq<u8>>, rest: Seq<u8>)
    requires
        writable(text, imgs),
        imgs.len() <= MAX_IMAGES,
    ensures
        decoded(encoded(text, imgs) + rest) == Ok::<Option<(MessageView, int)>, ReadError>(
            Some((MessageView { text, images: imgs }, encoded(text, imgs).len() as int)),
        ),
{
    let t = encode_utf8(text);
    let n = imgs.len() as int;
    let b = encoded(text, imgs) + rest;
    lemma_pow256_values();
    lemma_le_bytes_len(t.len(), 2);
    lemma_le_bytes_len(imgs.len(), 1);
    lemma_sizes_bytes(imgs);
    lemma_data_bytes(imgs);
    lemma_le_roundtrip(t.len(), 2);
    lemma_le_roundtrip(imgs.len(), 1);
    let h = le_bytes(t.len(), 2) + le_bytes(imgs.len(), 1);
    assert(b.subrange(0, 2) == le_bytes(t.len(), 2));
    assert(b.subrange(2, 3) == le_bytes(imgs.len(), 1));
    assert(b[2] == le_bytes(imgs.len(), 1)[0]);
    assert(le_value(le_bytes(imgs.len(), 1)) == le_bytes(imgs.len(), 1)[0]) by {
        reveal_with_fuel(le_value, 2);
    }
    let p = 3 + 2 * n;
    assert(b.subrange(p, p + t.len()) == t);
    pure_decode_encode(text);
    let sizes = header_sizes(b, n);
    assert forall|k: int| 0 <= k < n implies #[trigger] sizes[k] == lens(imgs)[k] by {
        assert(b.subrange(3 + 2 * k, 5 + 2 * k) == sizes_bytes(imgs).subrange(2 * k, 2 * k + 2));
        lemma_le_roundtrip(imgs[k].len(), 2);
    }
    assert(sizes == lens(imgs));
    let q = p + t.len();
    let imgs_read = body_images(b, q, sizes);
    assert forall|k: int| 0 <= k < n implies #[trigger] imgs_read[k] == imgs[k] by {
        assert forall|j: int| 0 <= j < lens(imgs).len() implies #[trigger] lens(imgs)[j] >= 0 by {}
        lemma_total_nonneg_mono(lens(imgs), k + 1);
        lemma_total_nonneg_mono(lens(imgs).take(k + 1), k);
        assert(lens(imgs).take(k + 1).take(k) == lens(imgs).take(k));
        assert(b.subrange(q + total(sizes.take(k)), q + total(sizes.take(k + 1))) == data_bytes(
            imgs,
        ).subrange(total(lens(imgs).take(k)), total(lens(imgs).take(k + 1))));
    }
    assert(imgs_read == imgs);
}

/// Decoding the UTF-8 encoding of a text gives the text back.
proof fn pure_decode_encode(text: Seq<char>)
    ensures
        valid_utf8(encode_utf8(text)),
        decode_utf8(encode_utf8(text)) == text,
{
    encode_utf8_valid_utf8(text);
    encode_utf8_decode_utf8(text);
}

impl Message {
    /// Writes the message: the header, then the text, then each image.
    /// Each length must fit its field.
    pub fn write_to(&self, out: &mut Vec<u8>)
        requires
            writable(self.text@, self.view_images()),
        ensures
            final(out)@ == old(out)@ + encoded(self.text@, self.view_images()),
    {
        let ghost imgs = self.view_images();
        let ghost start = out@;
        let text = str_bytes(self.text.as_str());
        push_le(out, text.len() as u128, 2);
        push_le(out, self.images.len() as u128, 1);
        let ghost head = out@;
        let mut i: usize = 0;
        assert(imgs.take(0) == Seq::<Seq<u8>>::empty());
        while i < self.images.len()
            invariant
                i <= self.images.len(),
                imgs == self.view_images(),
                out@ == head + sizes_bytes(imgs.take(i as int)),
            decreases self.images.len() - i,
        {
            push_le(out, self.images[i].data.len() as u128, 2);
            proof {
                assert(imgs.take(i + 1).drop_last() == imgs.take(i as int));
                assert(imgs.take(i + 1).last() == self.images@[i as int].data@);
            }
            i = i + 1;
        }
        assert(imgs.take(self.images.len() as int) == imgs);
        let ghost mid = out@;
        let mut k: usize = 0;
        while k < text.len()
            invariant
                k <= text.len(),
                out@ == mid + text@.take(k as int),
            decreases text.len() - k,
        {
            out.push(text[k]);
            k = k + 1;
            assert(out@ == mid + text@.take(k as int));
        }
        assert(text@.take(text.len() as int) == text@);
        let ghost tail = out@;
        let mut i: usize = 0;
        assert(imgs.take(0) == Seq::<Seq<u8>>::empty());
        while i < self.images.len()
            invariant
                i <= self.images.len(),
                imgs == self.view_images(),
                out@ == tail + data_bytes(imgs.take(i as int)),
            decreases self.images.len() - i,
        {
            let data = &self.images[i].data;
            let ghost before = out@;
            let mut j: usize = 0;
            while j < data.len()
                invariant
                    j <= data.len(),
                    out@ == before + data@.take(j as int),
                decreases data.len() - j,
            {
                out.push(data[j]);
                j = j + 1;
                assert(out@ == before + data@.take(j as int));
            }
            proof {
                assert(data@.take(data.len() as int) == data@);
                assert(imgs.take(i + 1).drop_last() == imgs.take(i as int));
                assert(imgs.take(i + 1).last() == data@);
            }
            i = i + 1;
        }
        assert(imgs.take(self.images.len() as int) == imgs);
        assert(out@ == start + encoded(self.text@, imgs));
    }
}

impl Message {
    /// The number of bytes that follow a message's header (its text length, its
    /// image count and the image lengths): the text and the images it announces.
    pub fn body_len(header: &[u8]) -> (n: usize)
        requires
            header@.len() >= 3,
            header@[2] <= MAX_IMAGES,
            header@.len() == 3 + 2 * header@[2],
        ensures
            n == le_value(header@.subrange(0, 2)) + total(
                header_sizes(header@, header@[2] as int),
            ),
    {
        let ghost b = header@;
        proof {
            lemma_pow256_values();
            lemma_le_value_bound(b.subrange(0, 2));
        }
        let text_len = read_le(slice_subrange(header, 0, 2)) as usize;
        let count = header[2] as usize;
        let ghost hs = header_sizes(b, count as int);
        let mut n: usize = text_len;
        let mut k: usize = 0;
        assert(hs.take(0) == Seq::<int>::empty());
        while k < count
            invariant
                k <= count <= MAX_IMAGES,
                header@.len() == 3 + 2 * count,
                b == header@,
                hs == header_sizes(b, count as int),
                text_len as int == le_value(b.subrange(0, 2)),
                text_len < 65536,
                n == text_len + total(hs.take(k as int)),
                n <= text_len + 65535 * k,
            decreases count - k,
        {
            proof {
                lemma_pow256_values();
                lemma_le_value_bound(b.subrange(3 + 2 * k, 5 + 2 * k));
                assert(hs.take(k + 1).drop_last() == hs.take(k as int));
                assert(hs.take(k + 1).last() == hs[k as int]);
            }
            let v = read_le(slice_subrange(header, 3 + 2 * k, 5 + 2 * k)) as usize;
            n = n + v;
            k = k + 1;
        }
        assert(hs.take(count as int) == hs);
        n
    }

    /// Reads one message from the front of the bytes a stream holds: nothing when
    /// it holds none, else the message and the number of bytes it took. A header
    /// announces at most [`MAX_IMAGES`] images.
    pub fn read_from(input: &[u8]) -> (r: Result<Option<(Message, usize)>, ReadError>)
        requires
            input@.len() >= 3 ==> input@[2] <= MAX_IMAGES,
        ensures
            match r {
                Ok(None) => decoded(input@) == Ok::<Option<(MessageView, int)>, ReadError>(None),
                Ok(Some((m, k))) => decoded(input@) == Ok::<Option<(MessageView, int)>, ReadError>(
                    Some((m.view_message(), k as int)),
                ),
                Err(e) => decoded(input@) == Err::<Option<(MessageView, int)>, ReadError>(e),
            },
    {
        let ghost b = input@;
        if input.len() == 0 {
            return Ok(None);
        }
        if input.len() < 3 {
            return Err(ReadError::UnexpectedEof);
        }
        proof {
            lemma_pow256_values();
            lemma_le_value_bound(b.subrange(0, 2));
        }
        let text_len = read_le(slice_subrange(input, 0, 2)) as usize;
        let count = input[2] as usize;
        let p = 3 + 2 * count;
        if input.len() < p {
            return Err(ReadError::UnexpectedEof);
        }
        let ghost hs = header_sizes(b, count as int);
        let mut sizes: Vec<usize> = Vec::new();
        let mut k: usize = 0;
        while k < count
            invariant
                k <= count <= MAX_IMAGES,
                p == 3 + 2 * count <= input.len(),
                b == input@,
                hs == header_sizes(b, count as int),
                sizes@.len() == k,
                forall|j: int| 0 <= j < k ==> sizes@[j] as int == #[trigger] hs[j],
            decreases count - k,
        {
            proof {
                lemma_pow256_values();
                lemma_le_value_bound(b.subrange(3 + 2 * k, 5 + 2 * k));
            }
            let v = read_le(slice_subrange(input, 3 + 2 * k, 5 + 2 * k));
            sizes.push(v as usize);
            k = k + 1;
        }
        if input.len() - p < text_len {
            return Err(ReadError::UnexpectedEof);
        }
        let text = match utf8_str(slice_subrange(input, p, p + text_len)) {
            None => {
                return Err(ReadError::InvalidUtf8);
            },
            Some(s) => s.to_owned(),
        };
        let q = p + text_len;
        let mut images: Vec<Image> = Vec::new();
        let mut o: usize = q;
        let mut k: usize = 0;
        assert(hs.take(0) == Seq::<int>::empty());
        assert forall|j: int| 0 <= j < hs.len() implies #[trigger] hs[j] >= 0 by {}
        while k < count
            invariant
                k <= count == sizes@.len() == hs.len(),
                q <= o <= input.len(),
                b == input@,
                input.len() >= 3,
                text_len as int == le_value(b.subrange(0, 2)),
                count as int == b[2] as int,
                p == 3 + 2 * count,
                q == p + text_len,
                hs == header_sizes(b, count as int),
                valid_utf8(b.subrange(p as int, q as int)),
                forall|j: int| 0 <= j < count ==> sizes@[j] as int == #[trigger] hs[j],
                forall|j: int| 0 <= j < hs.len() ==> #[trigger] hs[j] >= 0,
                o == q + total(hs.take(k as int)),
                images@.len() == k,
                forall|j: int|
                    0 <= j < k ==> (#[trigger] images@[j]).data@ == b.subrange(
                        q + total(hs.take(j)),
                        q + total(hs.take(j + 1)),
                    ),
            decreases count - k,
        {
            let size = sizes[k];
            proof {
                assert(hs.take(k + 1).drop_last() == hs.take(k as int));
                assert(hs.take(k + 1).last() == hs[k as int]);
            }
            if input.len() - o < size {
                proof {
                    lemma_total_nonneg_mono(hs, k + 1);
                }
                return Err(ReadError::UnexpectedEof);
            }
            let data = vstd::slice::slice_to_vec(slice_subrange(input, o, o + size));
            images.push(Image { data });
            o = o + size;
            k = k + 1;
        }
        assert(hs.take(count as int) == hs);
        let m = Message { text, images };
        assert(m.view_images() == body_images(b, q as int, hs));
        Ok(Some((m, o)))
    }
}

} // verus!
