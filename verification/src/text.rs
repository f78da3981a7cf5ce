//! Conversions between strings and character sequences.
use vstd::prelude::*;
use vstd::utf8::*;

verus! {

/// Appends one character to a string (`String::push`).
/// Trusted: std documents `push` as appending the given `char` to the end of the `String`.
#[verifier::external_body]
pub(crate) fn push_char(s: &mut String, c: char)
    ensures
        final(s)@ == old(s)@.push(c),
{
    s.push(c);
}

/// Checks that the bytes are UTF-8 and views them as a string (`std::str::from_utf8`).
/// Trusted: std documents that `from_utf8` succeeds exactly on valid UTF-8 and then
/// returns the string those bytes encode.
#[verifier::external_body]
pub(crate) fn utf8_str(b: &[u8]) -> (r: Option<&str>)
    ensures
        r is Some <==> valid_utf8(b@),
        r matches Some(s) ==> s@ == decode_utf8(b@),
{
    std::str::from_utf8(b).ok()
}

/// The characters of a string slice, in order.
pub fn str_to_chars(s: &str) -> (v: Vec<char>)
    ensures
        v@ == s@,
{
    let mut v: Vec<char> = Vec::new();
    for c in it: s.chars()
        invariant
            v@ == it.seq().take(it.index() as int),
            it.seq() == s@,
    {
        v.push(c);
    }
    v
}

/// A string holding the given characters, in order.
pub fn chars_to_string(cs: &[char]) -> (s: String)
    ensures
        s@ == cs@,
{
    let mut s = String::new();
    let mut i: usize = 0;
    while i < cs.len()
        invariant
            i <= cs.len(),
            s@ == cs@.take(i as int),
        decreases cs.len() - i,
    {
        push_char(&mut s, cs[i]);
        i = i + 1;
        assert(s@ == cs@.take(i as int));
    }
    assert(cs@.take(cs.len() as int) == cs@);
    s
}

/// Appends the characters `cs[from..to]` to a string.
pub fn push_chars(out: &mut String, cs: &[char], from: usize, to: usize)
    requires
        from <= to <= cs.len(),
    ensures
        final(out)@ == old(out)@ + cs@.subrange(from as int, to as int),
{
    let mut q = from;
    while q < to
        invariant
            from <= q <= to <= cs.len(),
            out@ == old(out)@ + cs@.subrange(from as int, q as int),
        decreases to - q,
    {
        push_char(out, cs[q]);
        q = q + 1;
        assert(out@ == old(out)@ + cs@.subrange(from as int, q as int));
    }
}

/// Appends a string slice to a string.
pub fn push_str(out: &mut String, t: &str)
    ensures
        final(out)@ == old(out)@ + t@,
{
    let cs = str_to_chars(t);
    push_chars(out, cs.as_slice(), 0, cs.len());
    assert(cs@.subrange(0, cs@.len() as int) == cs@);
}

/// Encoding a concatenation encodes each part in turn.
pub proof fn lemma_encode_utf8_append(a: Seq<char>, b: Seq<char>)
    ensures
        encode_utf8(a + b) == encode_utf8(a) + encode_utf8(b),
    decreases a.len(),
{
    if a.len() == 0 {
        assert(a + b == b);
    } else {
        assert((a + b).drop_first() == a.drop_first() + b);
        lemma_encode_utf8_append(a.drop_first(), b);
    }
}

/// Encoding one more character appends its encoding.
pub proof fn lemma_encode_utf8_push(a: Seq<char>, c: char)
    ensures
        encode_utf8(a.push(c)) == encode_utf8(a) + encode_scalar(c as u32),
{
    lemma_encode_utf8_append(a, seq![c]);
    assert(a.push(c) == a + seq![c]);
    assert(seq![c].drop_first() == Seq::<char>::empty());
    assert(encode_utf8(Seq::<char>::empty()) == Seq::<u8>::empty());
    assert(encode_utf8(seq![c]) == encode_scalar(c as u32) + encode_utf8(Seq::<char>::empty()));
    assert(encode_scalar(c as u32) + Seq::<u8>::empty() == encode_scalar(c as u32));
}

/// The byte offset at which character `k` of `s` starts in the UTF-8 encoding of `s`
/// (for `k == s.len()`, the length of the encoding).
pub open spec fn byte_pos(s: Seq<char>, k: int) -> int {
    encode_utf8(s.take(k)).len() as int
}

/// Each character moves the byte offset on by the length of its encoding.
pub proof fn lemma_byte_pos_next(s: Seq<char>, k: int)
    requires
        0 <= k < s.len(),
    ensures
        byte_pos(s, k + 1) == byte_pos(s, k) + encode_scalar(s[k] as u32).len(),
{
    assert(s.take(k + 1) == s.take(k).push(s[k]));
    lemma_encode_utf8_push(s.take(k), s[k]);
}

/// Byte offsets grow with character positions, strictly, and the offset of the
/// end is the length of the encoding.
pub proof fn lemma_byte_pos_order(s: Seq<char>, a: int, b: int)
    requires
        0 <= a <= b <= s.len(),
    ensures
        byte_pos(s, a) <= byte_pos(s, b),
        a < b ==> byte_pos(s, a) < byte_pos(s, b),
        byte_pos(s, s.len() as int) == encode_utf8(s).len(),
    decreases b - a,
{
    assert(s.take(s.len() as int) == s);
    if a < b {
        lemma_byte_pos_order(s, a, b - 1);
        lemma_byte_pos_next(s, b - 1);
        char_is_scalar(s[b - 1]);
    }
}

/// The byte offset of a character position is a character boundary of the encoding.
pub proof fn lemma_byte_pos_boundary(s: Seq<char>, k: int)
    requires
        0 <= k <= s.len(),
    ensures
        is_char_boundary(encode_utf8(s), byte_pos(s, k)),
    decreases k,
{
    let bytes = encode_utf8(s);
    encode_utf8_valid_utf8(s);
    lemma_byte_pos_order(s, 0, k);
    lemma_byte_pos_order(s, k, s.len() as int);
    if k == 0 {
        assert(s.take(0) == Seq::<char>::empty());
        assert(encode_utf8(Seq::<char>::empty()) == Seq::<u8>::empty());
    } else {
        let rest = s.drop_first();
        encode_utf8_first_scalar(s);
        assert(pop_first_scalar(bytes) =~= encode_utf8(rest));
        assert(s.take(k).drop_first() == rest.take(k - 1));
        assert(encode_utf8(s.take(k)) == encode_scalar(s[0] as u32) + encode_utf8(rest.take(k - 1)));
        lemma_byte_pos_boundary(rest, k - 1);
    }
}

/// The byte offset of every character boundary of `s`, the end included.
pub fn char_byte_offsets(s: &str) -> (v: Vec<usize>)
    ensures
        v@.len() == s@.len() + 1,
        forall|k: int| 0 <= k <= s@.len() ==> #[trigger] v@[k] == byte_pos(s@, k),
{
    let total_bytes = s.as_bytes().len();
    let cs = str_to_chars(s);
    let mut v: Vec<usize> = Vec::new();
    let mut total: usize = 0;
    proof {
        assert(s@.take(0) == Seq::<char>::empty());
        assert(encode_utf8(Seq::<char>::empty()) == Seq::<u8>::empty());
    }
    v.push(0);
    let mut k: usize = 0;
    while k < cs.len()
        invariant
            k <= cs.len(),
            cs@ == s@,
            total_bytes == encode_utf8(s@).len(),
            v@.len() == k + 1,
            total == byte_pos(s@, k as int),
            forall|m: int| 0 <= m <= k ==> #[trigger] v@[m] == byte_pos(s@, m),
        decreases cs.len() - k,
    {
        let w = char_utf8_len(cs[k]);
        proof {
            lemma_byte_pos_next(s@, k as int);
            lemma_encode_utf8_append(s@.take(k + 1), s@.skip(k + 1));
            assert(s@.take(k + 1) + s@.skip(k + 1) == s@);
        }
        total = total + w;
        v.push(total);
        k = k + 1;
    }
    v
}

/// The number of bytes in the UTF-8 encoding of `c`.
pub fn char_utf8_len(c: char) -> (n: usize)
    ensures
        n == encode_scalar(c as u32).len(),
        1 <= n <= 4,
{
    proof {
        char_is_scalar(c);
    }
    let u = c as u32;
    if u <= 0x7F {
        1
    } else if u <= 0x7FF {
        2
    } else if u <= 0xFFFF {
        3
    } else {
        4
    }
}

/// The UTF-8 encoding of `c`.
pub fn encode_char(c: char) -> (v: Vec<u8>)
    ensures
        v@ == encode_scalar(c as u32),
{
    proof {
        char_is_scalar(c);
    }
    let u = c as u32;
    let mut v: Vec<u8> = Vec::new();
    if u <= 0x7F {
        v.push((u & 0x7F) as u8);
    } else if u <= 0x7FF {
        v.push(0xC0 | ((u >> 6) & 0x1F) as u8);
        v.push(0x80 | (u & 0x3F) as u8);
    } else if u <= 0xFFFF {
        v.push(0xE0 | ((u >> 12) & 0x0F) as u8);
        v.push(0x80 | ((u >> 6) & 0x3F) as u8);
        v.push(0x80 | (u & 0x3F) as u8);
    } else {
        v.push(0xF0 | ((u >> 18) & 0x7) as u8);
        v.push(0x80 | ((u >> 12) & 0x3F) as u8);
        v.push(0x80 | ((u >> 6) & 0x3F) as u8);
        v.push(0x80 | (u & 0x3F) as u8);
    }
    v
}

/// The UTF-8 encoding of `cs` is longer than `limit` bytes.
pub fn utf8_len_exceeds(cs: &[char], limit: usize) -> (b: bool)
    ensures
        b == (encode_utf8(cs@).len() > limit),
{
    let mut total: usize = 0;
    let mut k: usize = 0;
    while k < cs.len()
        invariant
            k <= cs.len(),
            total == encode_utf8(cs@.take(k as int)).len(),
            total <= limit,
        decreases cs.len() - k,
    {
        let w = char_utf8_len(cs[k]);
        proof {
            assert(cs@.take(k + 1) == cs@.take(k as int).push(cs@[k as int]));
            lemma_encode_utf8_push(cs@.take(k as int), cs@[k as int]);
        }
        if w > limit - total {
            proof {
                lemma_encode_utf8_append(cs@.take(k + 1), cs@.skip(k + 1));
                assert(cs@.take(k + 1) + cs@.skip(k + 1) == cs@);
            }
            return true;
        }
        total = total + w;
        k = k + 1;
    }
    assert(cs@.take(cs.len() as int) == cs@);
    false
}

/// The UTF-8 bytes of a string slice.
pub fn str_bytes(s: &str) -> (v: Vec<u8>)
    ensures
        v@ == encode_utf8(s@),
{
    let b = s.as_bytes();
    let mut v: Vec<u8> = Vec::new();
    let mut k: usize = 0;
    while k < b.len()
        invariant
            k <= b.len(),
            b@ == encode_utf8(s@),
            v@ == b@.take(k as int),
        decreases b.len() - k,
    {
        v.push(b[k]);
        k = k + 1;
        assert(v@ == b@.take(k as int));
    }
    assert(b@.take(b.len() as int) == b@);
    v
}

/// Text made of ASCII characters takes one byte per character.
pub proof fn lemma_encode_ascii_len(t: Seq<char>)
    requires
        forall|k: int| 0 <= k < t.len() ==> (#[trigger] t[k] as u32) < 0x80,
    ensures
        encode_utf8(t).len() == t.len(),
    decreases t.len(),
{
    if t.len() > 0 {
        assert((t[0] as u32) < 0x80);
        assert forall|k: int| 0 <= k < t.drop_first().len() implies (#[trigger] t.drop_first()[k] as u32)
            < 0x80 by {
            assert(t.drop_first()[k] == t[k + 1]);
        }
        lemma_encode_ascii_len(t.drop_first());
    }
}

} // verus!
