//! Backslash escape sequences in text typed by the user.
//!
//! Supported: `\x##` (two hexadecimal digits), `\o###` (three octal digits),
//! `\b########` (eight binary digits), `\0`-`\9` (that byte), `\a`, `\f`, `\n`,
//! `\r`, `\t`, `\v`, and `\\`, `\"`, `\'`, `` \` `` for the character itself.
//! `\b` not followed by eight binary digits is a backspace.
//!
//! The ranges handed out count bytes of the UTF-8 text, as string slicing does;
//! the model underneath counts characters, and `byte_pos` converts.
use std::borrow::Cow;
use std::ops::Range;
use vstd::prelude::*;
use vstd::utf8::*;

use crate::text::{
    byte_pos, char_byte_offsets, char_utf8_len, lemma_byte_pos_next, push_char, push_chars, push_str,
    str_to_chars,
};

verus! {

/// Why an escape sequence could not be read.
#[derive(Debug, Clone, Copy, PartialEq, Eq)]
pub enum UnescapeError {
    /// `\` followed by a character that starts no escape.
    BadEsc(char),
    /// A multi-character escape without all of its digits.
    Invalid,
    /// The text ends with a lone `\`.
    TrailingEsc,
}

/// The text that explains an escape error to a user.
pub open spec fn unescape_error_text(e: UnescapeError) -> Seq<char> {
    match e {
        UnescapeError::BadEsc(c) => "unsupported escape: \\"@.push(c),
        UnescapeError::Invalid => "incomplete multi-character escape"@,
        UnescapeError::TrailingEsc => "string ends with unescaped '\\'"@,
    }
}

impl UnescapeError {
    /// The text that explains the error to a user.
    pub fn message(&self) -> (s: String)
        ensures
            s@ == unescape_error_text(*self),
    {
        let mut s = String::new();
        match self {
            UnescapeError::BadEsc(c) => {
                push_str(&mut s, "unsupported escape: \\");
                push_char(&mut s, *c);
            },
            UnescapeError::Invalid => push_str(&mut s, "incomplete multi-character escape"),
            UnescapeError::TrailingEsc => push_str(&mut s, "string ends with unescaped '\\'"),
        }
        assert(s@ =~= unescape_error_text(*self));
        s
    }
}

/// An escape sequence: the bytes of the text it covers and the character it stands for.
pub type Escape = (Range<usize>, char);

/// One item produced while scanning: an escape, or an error.
pub type EscapeItem = Result<Escape, UnescapeError>;

/// An escape in the model: start, end, the character it stands for.
pub type EscView = (int, int, char);

/// An item in the model.
pub type EscItemView = Result<EscView, UnescapeError>;

pub open spec fn escape_view(e: Escape) -> EscView {
    (e.0.start as int, e.0.end as int, e.1)
}

pub open spec fn escape_item_view(x: EscapeItem) -> EscItemView {
    match x {
        Ok(e) => Ok(escape_view(e)),
        Err(err) => Err(err),
    }
}

/// The character that a one-character escape `\c` stands for.
pub open spec fn simple_escape(c: char) -> Option<char> {
    if '0' <= c && c <= '9' {
        Some(((c as u32) - ('0' as u32)) as char)
    } else if c == 'a' {
        Some('\x07')
    } else if c == 'b' {
        Some('\x08')
    } else if c == 'f' {
        Some('\x0C')
    } else if c == 'n' {
        Some('\n')
    } else if c == 'r' {
        Some('\r')
    } else if c == 't' {
        Some('\t')
    } else if c == 'v' {
        Some('\x0B')
    } else if c == '\\' || c == '"' || c == '\'' || c == '`' {
        Some(c)
    } else {
        None
    }
}

/// The radix of the multi-character escape `\c`.
pub open spec fn escape_radix(c: char) -> u32 {
    if c == 'x' {
        16
    } else if c == 'o' {
        8
    } else {
        2
    }
}

/// The number of digits of the multi-character escape `\c`.
pub open spec fn escape_digits(c: char) -> int {
    if c == 'x' {
        2
    } else if c == 'o' {
        3
    } else {
        8
    }
}

pub open spec fn is_radix_digit(c: char, radix: u32) -> bool {
    if radix == 16 {
        ('0' <= c && c <= '9') || ('a' <= c && c <= 'f') || ('A' <= c && c <= 'F')
    } else if radix == 8 {
        '0' <= c && c <= '7'
    } else {
        c == '0' || c == '1'
    }
}

pub open spec fn digit_value(c: char) -> int {
    if '0' <= c && c <= '9' {
        (c as int) - ('0' as int)
    } else if 'a' <= c && c <= 'f' {
        (c as int) - ('a' as int) + 10
    } else {
        (c as int) - ('A' as int) + 10
    }
}

/// The `n` characters from `from` on are all digits of `radix`.
pub open spec fn digits_ok(s: Seq<char>, from: int, n: int, radix: u32) -> bool {
    0 <= from && from + n <= s.len() && forall|k: int|
        0 <= k < n ==> is_radix_digit(#[trigger] s[from + k], radix)
}

/// The value of the `n` digits from `from` on, most significant first.
pub open spec fn digits_value(s: Seq<char>, from: int, n: int, radix: u32) -> int
    decreases n,
{
    if n <= 0 {
        0
    } else {
        digits_value(s, from, n - 1, radix) * radix + digit_value(s[from + n - 1])
    }
}

/// Where reading up to `n` digits from `from` stops: after the first character
/// that is not a digit (it is read too), or at the end of the text.
pub open spec fn digits_end(s: Seq<char>, from: int, n: int, radix: u32) -> int
    decreases n,
{
    if n <= 0 || from < 0 || from >= s.len() {
        from
    } else if !is_radix_digit(s[from], radix) {
        from + 1
    } else {
        digits_end(s, from + 1, n - 1, radix)
    }
}

pub proof fn lemma_digits_end(s: Seq<char>, from: int, n: int, radix: u32)
    requires
        0 <= from <= s.len(),
    ensures
        from <= digits_end(s, from, n, radix) <= s.len(),
    decreases n,
{
    if n <= 0 || from >= s.len() {
    } else if !is_radix_digit(s[from], radix) {
    } else {
        lemma_digits_end(s, from + 1, n - 1, radix);
    }
}

/// The item that the backslash at `i` starts, and where scanning goes on after it.
///
/// `\b` reads eight binary digits when they follow, and is a backspace otherwise.
/// An octal escape whose value exceeds a byte is invalid.
pub open spec fn escape_at(s: Seq<char>, i: int) -> (EscItemView, int) {
    if i + 1 >= s.len() {
        (Err(UnescapeError::TrailingEsc), s.len() as int)
    } else {
        let c = s[i + 1];
        let from = i + 2;
        if c == 'x' || c == 'o' || (c == 'b' && digits_ok(s, from, 8, 2)) {
            let radix = escape_radix(c);
            let n = escape_digits(c);
            if digits_ok(s, from, n, radix) {
                let v = digits_value(s, from, n, radix);
                if v > 255 {
                    (Err(UnescapeError::Invalid), from + n)
                } else {
                    (Ok((i, from + n, v as char)), from + n)
                }
            } else {
                (Err(UnescapeError::Invalid), digits_end(s, from, n, radix))
            }
        } else if simple_escape(c) is Some {
            (Ok((i, i + 2, simple_escape(c)->0)), i + 2)
        } else {
            (Err(UnescapeError::BadEsc(c)), i + 2)
        }
    }
}

pub proof fn lemma_escape_at(s: Seq<char>, i: int)
    requires
        0 <= i < s.len(),
    ensures
        i < escape_at(s, i).1 <= s.len(),
        escape_at(s, i).0 matches Ok(x) ==> x.0 == i && i < x.1 == escape_at(s, i).1,
{
    if i + 1 < s.len() {
        let c = s[i + 1];
        if c == 'x' || c == 'o' || c == 'b' {
            lemma_digits_end(s, i + 2, escape_digits(c), escape_radix(c));
        }
    }
}

/// The items that scanning `s` from position `i` produces.
pub open spec fn esc_scan(s: Seq<char>, i: int) -> Seq<EscItemView>
    decreases s.len() - i,
{
    if i < 0 || i >= s.len() {
        seq![]
    } else if s[i] != '\\' {
        esc_scan(s, i + 1)
    } else {
        let (x, next) = escape_at(s, i);
        proof {
            lemma_escape_at(s, i);
        }
        seq![x] + esc_scan(s, next)
    }
}

/// What collecting the items gives: the first error, or all escapes.
pub open spec fn esc_collect(items: Seq<EscItemView>) -> Result<Seq<EscView>, UnescapeError>
    decreases items.len(),
{
    if items.len() == 0 {
        Ok(seq![])
    } else {
        match items[0] {
            Err(e) => Err(e),
            Ok(x) => match esc_collect(items.drop_first()) {
                Ok(rest) => Ok(seq![x] + rest),
                Err(e) => Err(e),
            },
        }
    }
}

/// An escape of the model with its positions counted in bytes of the UTF-8
/// encoding of `s`.
pub open spec fn esc_in_bytes(s: Seq<char>, e: EscView) -> EscView {
    (byte_pos(s, e.0), byte_pos(s, e.1), e.2)
}

/// An item of the model with its positions counted in bytes of the UTF-8
/// encoding of `s`.
pub open spec fn item_in_bytes(s: Seq<char>, x: EscItemView) -> EscItemView {
    match x {
        Ok(e) => Ok(esc_in_bytes(s, e)),
        Err(err) => Err(err),
    }
}

/// The escapes of the model with their positions counted in bytes.
pub open spec fn escapes_in_bytes(s: Seq<char>, es: Seq<EscView>) -> Seq<EscView> {
    es.map_values(|e: EscView| esc_in_bytes(s, e))
}

/// The model of a list of escapes.
pub open spec fn escapes_view(v: Seq<Escape>) -> Seq<EscView> {
    v.map_values(|e: Escape| escape_view(e))
}

/// The number of backslashes from `i` on that are not themselves escaped.
pub open spec fn count_unescaped(s: Seq<char>, i: int, escaped: bool) -> nat
    decreases s.len() - i,
{
    if i < 0 || i >= s.len() {
        0
    } else {
        let e = !escaped && s[i] == '\\';
        (if e {
            1nat
        } else {
            0nat
        }) + count_unescaped(s, i + 1, e)
    }
}

/// The text `s` from position `p` on, with each escape of `es` replaced by its character.
pub open spec fn apply_escapes(s: Seq<char>, es: Seq<EscView>, p: int) -> Seq<char>
    decreases es.len(),
{
    if es.len() == 0 {
        s.subrange(p, s.len() as int)
    } else {
        s.subrange(p, es[0].0) + seq![es[0].2] + apply_escapes(s, es.drop_first(), es[0].1)
    }
}

/// The escapes of `es` lie in order, after `p` and within `len`.
pub open spec fn esc_ordered(es: Seq<EscView>, p: int, len: int) -> bool
    decreases es.len(),
{
    if es.len() == 0 {
        0 <= p <= len
    } else {
        0 <= p <= es[0].0 <= es[0].1 <= len && esc_ordered(es.drop_first(), es[0].1, len)
    }
}

/// What unescaping the text `s` gives: the text with each escape replaced,
/// or the first error.
pub open spec fn unescaped(s: Seq<char>) -> Result<Seq<char>, UnescapeError> {
    match esc_collect(esc_scan(s, 0)) {
        Ok(es) => Ok(apply_escapes(s, es, 0)),
        Err(e) => Err(e),
    }
}

proof fn lemma_esc_collect_cons(x: EscView, rest: Seq<EscItemView>)
    ensures
        esc_collect(seq![Ok(x)] + rest) == match esc_collect(rest) {
            Ok(r) => Ok(seq![x] + r),
            Err(e) => Err::<Seq<EscView>, UnescapeError>(e),
        },
{
    assert((seq![Ok(x)] + rest).drop_first() == rest);
}

proof fn lemma_esc_collect_err(e: UnescapeError, rest: Seq<EscItemView>)
    ensures
        esc_collect(seq![Err(e)] + rest) == Err::<Seq<EscView>, UnescapeError>(e),
{
}

proof fn lemma_esc_ordered_cons(x: EscView, r: Seq<EscView>, p: int, len: int)
    requires
        0 <= p <= x.0 <= x.1 <= len,
        esc_ordered(r, x.1, len),
    ensures
        esc_ordered(seq![x] + r, p, len),
{
    assert((seq![x] + r).drop_first() == r);
}

proof fn lemma_esc_ordered_weaken(es: Seq<EscView>, p: int, q: int, len: int)
    requires
        0 <= p <= q,
        esc_ordered(es, q, len),
    ensures
        esc_ordered(es, p, len),
{
}

pub proof fn lemma_esc_scan_ordered(s: Seq<char>, i: int)
    requires
        0 <= i <= s.len(),
    ensures
        esc_collect(esc_scan(s, i)) matches Ok(es) ==> esc_ordered(es, i, s.len() as int),
    decreases s.len() - i,
{
    let len = s.len() as int;
    if i >= s.len() {
    } else if s[i] != '\\' {
        lemma_esc_scan_ordered(s, i + 1);
        if let Ok(r) = esc_collect(esc_scan(s, i + 1)) {
            lemma_esc_ordered_weaken(r, i, i + 1, len);
        }
    } else {
        let (x, next) = escape_at(s, i);
        lemma_escape_at(s, i);
        lemma_esc_scan_ordered(s, next);
        let rest = esc_scan(s, next);
        assert(esc_scan(s, i) == seq![x] + rest);
        match x {
            Ok(e) => {
                lemma_esc_collect_cons(e, rest);
                if let Ok(r) = esc_collect(rest) {
                    lemma_esc_ordered_cons(e, r, i, len);
                }
            },
            Err(err) => {
                lemma_esc_collect_err(err, rest);
            },
        }
    }
}

proof fn lemma_count_skip_plain(s: Seq<char>, j: int, n: int)
    requires
        0 <= j,
        j + n <= s.len(),
        n >= 0,
        forall|k: int| j <= k < j + n ==> s[k] != '\\',
    ensures
        count_unescaped(s, j, false) == count_unescaped(s, j + n, false),
    decreases n,
{
    if n > 0 {
        lemma_count_skip_plain(s, j + 1, n - 1);
    }
}

/// Counting unescaped backslashes counts the escapes exactly, whenever the text
/// reads without an error: each escape starts at one such backslash, and no
/// other backslash is left unescaped.
pub proof fn lemma_count_escapes_exact(s: Seq<char>, i: int)
    requires
        0 <= i <= s.len(),
    ensures
        esc_collect(esc_scan(s, i)) matches Ok(es) ==> count_unescaped(s, i, false) == es.len(),
    decreases s.len() - i,
{
    if i >= s.len() {
    } else if s[i] != '\\' {
        lemma_count_escapes_exact(s, i + 1);
    } else {
        let (x, next) = escape_at(s, i);
        lemma_escape_at(s, i);
        lemma_count_escapes_exact(s, next);
        let rest = esc_scan(s, next);
        assert(esc_scan(s, i) == seq![x] + rest);
        match x {
            Ok(e) => {
                lemma_esc_collect_cons(e, rest);
                let c = s[i + 1];
                let from = i + 2;
                assert(count_unescaped(s, i + 1, true) == count_unescaped(s, from, false));
                if c == 'x' || c == 'o' || (c == 'b' && digits_ok(s, from, 8, 2)) {
                    let radix = escape_radix(c);
                    let n = escape_digits(c);
                    assert forall|k: int| from <= k < from + n implies s[k] != '\\' by {
                        assert(is_radix_digit(s[from + (k - from)], radix));
                    }
                    lemma_count_skip_plain(s, from, n);
                }
            },
            Err(err) => {
                lemma_esc_collect_err(err, rest);
            },
        }
    }
}

fn simple_escape_exec(c: char) -> (r: Option<char>)
    ensures
        r == simple_escape(c),
{
    if '0' <= c && c <= '9' {
        let d: u8 = ((c as u32) - ('0' as u32)) as u8;
        Some(d as char)
    } else if c == 'a' {
        Some('\x07')
    } else if c == 'b' {
        Some('\x08')
    } else if c == 'f' {
        Some('\x0C')
    } else if c == 'n' {
        Some('\n')
    } else if c == 'r' {
        Some('\r')
    } else if c == 't' {
        Some('\t')
    } else if c == 'v' {
        Some('\x0B')
    } else if c == '\\' || c == '"' || c == '\'' || c == '`' {
        Some(c)
    } else {
        None
    }
}

/// Reads the one-character escape `\ch` whose `ch` starts at byte `start`: the
/// byte position after it and the character it stands for.
fn unescape_char(start: usize, ch: char) -> (r: Result<(usize, char), UnescapeError>)
    requires
        start + encode_scalar(ch as u32).len() <= usize::MAX,
    ensures
        match simple_escape(ch) {
            Some(c) => r == Ok::<(usize, char), UnescapeError>(
                ((start + encode_scalar(ch as u32).len()) as usize, c),
            ),
            None => r == Err::<(usize, char), UnescapeError>(UnescapeError::BadEsc(ch)),
        },
{
    match simple_escape_exec(ch) {
        Some(c) => Ok((start + char_utf8_len(ch), c)),
        None => Err(UnescapeError::BadEsc(ch)),
    }
}

fn is_radix_digit_exec(c: char, radix: u32) -> (b: bool)
    ensures
        b == is_radix_digit(c, radix),
{
    if radix == 16 {
        ('0' <= c && c <= '9') || ('a' <= c && c <= 'f') || ('A' <= c && c <= 'F')
    } else if radix == 8 {
        '0' <= c && c <= '7'
    } else {
        c == '0' || c == '1'
    }
}

fn digit_value_exec(c: char, radix: u32) -> (d: u32)
    requires
        radix == 2 || radix == 8 || radix == 16,
        is_radix_digit(c, radix),
    ensures
        d == digit_value(c),
        d < radix,
{
    if '0' <= c && c <= '9' {
        (c as u32) - ('0' as u32)
    } else if 'a' <= c && c <= 'f' {
        (c as u32) - ('a' as u32) + 10
    } else {
        (c as u32) - ('A' as u32) + 10
    }
}

/// `radix` to the power `n`.
pub open spec fn radix_pow(radix: int, n: nat) -> int
    decreases n,
{
    if n == 0 {
        1
    } else {
        radix * radix_pow(radix, (n - 1) as nat)
    }
}

proof fn lemma_radix_pow_small(radix: u32, m: nat, count: nat)
    requires
        (radix == 16 && count == 2) || (radix == 8 && count == 3) || (radix == 2 && count == 8),
        m < count,
    ensures
        radix_pow(radix as int, m) <= radix_pow(radix as int, (count - 1) as nat),
        radix == 16 ==> radix_pow(radix as int, count) == 256,
        radix == 8 ==> radix_pow(radix as int, count) == 512,
        radix == 2 ==> radix_pow(radix as int, count) == 256,
        radix_pow(radix as int, m) > 0,
        radix_pow(radix as int, (count - 1) as nat) <= 128,
    decreases count - m,
{
    reveal_with_fuel(radix_pow, 9);
    if m + 1 < count {
        lemma_radix_pow_small(radix, m + 1, count);
        assert(radix_pow(radix as int, m + 1) == radix * radix_pow(radix as int, m));
    }
}

proof fn lemma_digits_value_bound(s: Seq<char>, from: int, n: int, radix: u32)
    requires
        digits_ok(s, from, n, radix),
        radix == 2 || radix == 8 || radix == 16,
        n >= 0,
    ensures
        0 <= digits_value(s, from, n, radix) < radix_pow(radix as int, n as nat),
    decreases n,
{
    if n > 0 {
        assert(digits_ok(s, from, n - 1, radix)) by {
            assert forall|k: int| 0 <= k < n - 1 implies is_radix_digit(
                #[trigger] s[from + k],
                radix,
            ) by {
                assert(is_radix_digit(s[from + k], radix));
            }
        }
        lemma_digits_value_bound(s, from, n - 1, radix);
        let p = radix_pow(radix as int, (n - 1) as nat);
        let v = digits_value(s, from, n - 1, radix);
        let d = digit_value(s[from + n - 1]);
        assert(is_radix_digit(s[from + n - 1], radix));
        assert(0 <= d < radix);
        assert(v * radix + d < p * radix) by (nonlinear_arith)
            requires
                0 <= v < p,
                0 <= d < radix,
        ;
        assert(v * radix >= 0) by (nonlinear_arith)
            requires
                0 <= v,
                radix >= 0,
        ;
    }
}

/// Scans text for escape sequences, one at a time.
#[derive(Debug, Clone)]
pub struct Escapes {
    chars: Vec<char>,
    offsets: Vec<usize>,
    pos: usize,
}

/// An escape with its positions counted in characters: start, end, character.
type CharEscape = (usize, usize, char);

spec fn char_escape_view(e: CharEscape) -> EscView {
    (e.0 as int, e.1 as int, e.2)
}

spec fn char_escapes_view(v: Seq<CharEscape>) -> Seq<EscView> {
    v.map_values(|e: CharEscape| char_escape_view(e))
}

impl Escapes {
    /// The text being scanned.
    pub closed spec fn text(&self) -> Seq<char> {
        self.chars@
    }

    /// How far the text has been read, in characters.
    pub closed spec fn position(&self) -> int {
        self.pos as int
    }

    /// The scanner is well formed.
    pub closed spec fn wf(&self) -> bool {
        &&& self.pos <= self.chars.len()
        &&& self.offsets@.len() == self.chars@.len() + 1
        &&& forall|k: int|
            0 <= k <= self.chars@.len() ==> #[trigger] self.offsets@[k] == byte_pos(self.chars@, k)
    }

    /// The items that `next_escape` will still hand out, in order, with their
    /// positions counted in characters.
    pub closed spec fn pending(&self) -> Seq<EscItemView> {
        esc_scan(self.chars@, self.pos as int)
    }

    /// A scanner at the start of `s`.
    pub fn new(s: &str) -> (r: Self)
        ensures
            r.wf(),
            r.text() == s@,
            r.position() == 0,
            r.pending() == esc_scan(s@, 0),
    {
        Escapes { chars: str_to_chars(s), offsets: char_byte_offsets(s), pos: 0 }
    }

    /// The number of backslashes still ahead that are not themselves escaped.
    pub fn count_escapes(&self) -> (n: usize)
        requires
            self.wf(),
        ensures
            n == count_unescaped(self.text(), self.position(), false),
    {
        let mut num_escapes: usize = 0;
        let mut is_esc = false;
        let mut k = self.pos;
        while k < self.chars.len()
            invariant
                self.pos <= k <= self.chars.len(),
                num_escapes <= k - self.pos,
                count_unescaped(self.chars@, self.pos as int, false) == num_escapes
                    + count_unescaped(self.chars@, k as int, is_esc),
            decreases self.chars.len() - k,
        {
            is_esc = !is_esc && self.chars[k] == '\\';
            if is_esc {
                num_escapes = num_escapes + 1;
            }
            k = k + 1;
        }
        num_escapes
    }

    /// The next `count` characters are all digits of `radix`.
    fn digits_ahead(&self, radix: u32, count: usize) -> (b: bool)
        requires
            self.wf(),
        ensures
            b == digits_ok(self.text(), self.position(), count as int, radix),
    {
        if count > self.chars.len() - self.pos {
            return false;
        }
        let mut m: usize = 0;
        while m < count
            invariant
                m <= count,
                self.pos + count <= self.chars.len(),
                digits_ok(self.chars@, self.pos as int, m as int, radix),
            decreases count - m,
        {
            if !is_radix_digit_exec(self.chars[self.pos + m], radix) {
                return false;
            }
            proof {
                let s = self.chars@;
                let from = self.pos as int;
                assert forall|k: int| 0 <= k < m + 1 implies is_radix_digit(
                    #[trigger] s[from + k],
                    radix,
                ) by {
                    if k < m {
                        assert(is_radix_digit(s[from + k], radix));
                    }
                }
            }
            m = m + 1;
        }
        true
    }

    /// Reads `count` digits of `radix` from the current position: the byte position
    /// after them and the character of their value. The scan stops after the first
    /// character that is not a digit; a value above a byte is invalid.
    fn extract_radix(&mut self, radix: u32, count: usize) -> (r: Result<(usize, char), UnescapeError>)
        requires
            old(self).wf(),
            (radix == 16 && count == 2) || (radix == 8 && count == 3) || (radix == 2 && count == 8),
        ensures
            final(self).wf(),
            final(self).text() == old(self).text(),
            if digits_ok(old(self).text(), old(self).position(), count as int, radix) {
                let v = digits_value(old(self).text(), old(self).position(), count as int, radix);
                &&& final(self).position() == old(self).position() + count
                &&& r == if v <= 255 {
                    Ok::<(usize, char), UnescapeError>(
                        (byte_pos(final(self).text(), final(self).position()) as usize, v as char),
                    )
                } else {
                    Err::<(usize, char), UnescapeError>(UnescapeError::Invalid)
                }
            } else {
                &&& final(self).position() == digits_end(
                    old(self).text(),
                    old(self).position(),
                    count as int,
                    radix,
                )
                &&& r == Err::<(usize, char), UnescapeError>(UnescapeError::Invalid)
            },
    {
        let ghost s = self.chars@;
        let start = self.pos;
        let len = self.chars.len();
        let mut value: u32 = 0;
        let mut m: usize = 0;
        while m < count
            invariant
                old(self).wf(),
                s == self.chars@,
                self.chars == old(self).chars,
                self.offsets == old(self).offsets,
                start == old(self).pos,
                len == self.chars.len(),
                start <= len,
                m <= count <= 8,
                (radix == 16 && count == 2) || (radix == 8 && count == 3) || (radix == 2 && count
                    == 8),
                self.pos == start + m <= len,
                digits_ok(s, start as int, m as int, radix),
                value == digits_value(s, start as int, m as int, radix),
                value < radix_pow(radix as int, m as nat),
                digits_end(s, start as int, count as int, radix) == digits_end(
                    s,
                    (start + m) as int,
                    (count - m) as int,
                    radix,
                ),
            decreases count - m,
        {
            if self.pos >= len {
                return Err(UnescapeError::Invalid);
            }
            let c = self.chars[self.pos];
            assert(s[start + m] == c);
            self.pos = self.pos + 1;
            if !is_radix_digit_exec(c, radix) {
                return Err(UnescapeError::Invalid);
            }
            let d = digit_value_exec(c, radix);
            proof {
                lemma_digits_value_bound(s, start as int, m as int, radix);
                assert(digits_ok(s, start as int, m + 1, radix)) by {
                    assert forall|k: int| 0 <= k < m + 1 implies is_radix_digit(
                        #[trigger] s[start + k],
                        radix,
                    ) by {
                        if k < m {
                            assert(is_radix_digit(s[start + k], radix));
                        }
                    }
                }
                lemma_digits_value_bound(s, start as int, m + 1, radix);
                lemma_radix_pow_small(radix, m as nat, count as nat);
                assert(value * radix + d < 65536) by (nonlinear_arith)
                    requires
                        value < 512,
                        d < radix,
                        radix <= 16,
                ;
            }
            value = value * radix + d;
            m = m + 1;
        }
        if value > 255 {
            return Err(UnescapeError::Invalid);
        }
        let v8: u8 = value as u8;
        Ok((self.offsets[self.pos], v8 as char))
    }

    /// Reads the two hexadecimal digits of `\x##`.
    fn extract_hex(&mut self) -> (r: Result<(usize, char), UnescapeError>)
        requires
            old(self).wf(),
        ensures
            final(self).wf(),
            final(self).text() == old(self).text(),
            if digits_ok(old(self).text(), old(self).position(), 2, 16) {
                &&& final(self).position() == old(self).position() + 2
                &&& r == Ok::<(usize, char), UnescapeError>(
                    (
                        byte_pos(final(self).text(), final(self).position()) as usize,
                        digits_value(old(self).text(), old(self).position(), 2, 16) as char,
                    ),
                )
            } else {
                &&& final(self).position() == digits_end(old(self).text(), old(self).position(), 2, 16)
                &&& r == Err::<(usize, char), UnescapeError>(UnescapeError::Invalid)
            },
    {
        proof {
            if digits_ok(self.text(), self.position(), 2, 16) {
                lemma_digits_value_bound(self.text(), self.position(), 2, 16);
                lemma_radix_pow_small(16, 0, 2);
            }
        }
        self.extract_radix(16, 2)
    }

    /// Reads the three octal digits of `\o###`; a value above a byte is invalid.
    fn extract_oct(&mut self) -> (r: Result<(usize, char), UnescapeError>)
        requires
            old(self).wf(),
        ensures
            final(self).wf(),
            final(self).text() == old(self).text(),
            if digits_ok(old(self).text(), old(self).position(), 3, 8) {
                let v = digits_value(old(self).text(), old(self).position(), 3, 8);
                &&& final(self).position() == old(self).position() + 3
                &&& r == if v <= 255 {
                    Ok::<(usize, char), UnescapeError>(
                        (byte_pos(final(self).text(), final(self).position()) as usize, v as char),
                    )
                } else {
                    Err::<(usize, char), UnescapeError>(UnescapeError::Invalid)
                }
            } else {
                &&& final(self).position() == digits_end(old(self).text(), old(self).position(), 3, 8)
                &&& r == Err::<(usize, char), UnescapeError>(UnescapeError::Invalid)
            },
    {
        self.extract_radix(8, 3)
    }

    /// Reads the eight binary digits of `\b########`.
    fn extract_bin(&mut self) -> (r: Result<(usize, char), UnescapeError>)
        requires
            old(self).wf(),
        ensures
            final(self).wf(),
            final(self).text() == old(self).text(),
            if digits_ok(old(self).text(), old(self).position(), 8, 2) {
                &&& final(self).position() == old(self).position() + 8
                &&& r == Ok::<(usize, char), UnescapeError>(
                    (
                        byte_pos(final(self).text(), final(self).position()) as usize,
                        digits_value(old(self).text(), old(self).position(), 8, 2) as char,
                    ),
                )
            } else {
                &&& final(self).position() == digits_end(old(self).text(), old(self).position(), 8, 2)
                &&& r == Err::<(usize, char), UnescapeError>(UnescapeError::Invalid)
            },
    {
        proof {
            if digits_ok(self.text(), self.position(), 8, 2) {
                lemma_digits_value_bound(self.text(), self.position(), 8, 2);
                lemma_radix_pow_small(2, 0, 8);
            }
        }
        self.extract_radix(2, 8)
    }

    /// Reads the next item: the character position of its backslash, and the
    /// escape's byte end and character, or the error met.
    fn next_item(&mut self) -> (r: Option<(usize, Result<(usize, char), UnescapeError>)>)
        requires
            old(self).wf(),
        ensures
            final(self).wf(),
            final(self).text() == old(self).text(),
            old(self).pending().len() == 0 <==> r is None,
            old(self).pending().len() == 0 ==> final(self).pending().len() == 0,
            old(self).pending().len() > 0 ==> final(self).pending() == old(
                self,
            ).pending().drop_first(),
            r matches Some((i, _)) ==> i < old(self).text().len(),
            r matches Some((i, y)) ==> match old(self).pending()[0] {
                Ok(e) => {
                    &&& e.0 == i
                    &&& e.1 == final(self).position()
                    &&& y matches Ok((end, c)) && end == byte_pos(old(self).text(), e.1) && c == e.2
                },
                Err(err) => y == Err::<(usize, char), UnescapeError>(err),
            },
    {
        let len = self.chars.len();
        while self.pos < len && self.chars[self.pos] != '\\'
            invariant
                old(self).wf(),
                self.pos <= len == self.chars.len(),
                self.chars == old(self).chars,
                self.offsets == old(self).offsets,
                self.pending() == old(self).pending(),
            decreases len - self.pos,
        {
            self.pos = self.pos + 1;
        }
        if self.pos >= len {
            return None;
        }
        let ghost s = self.chars@;
        let i = self.pos;
        proof {
            lemma_escape_at(s, i as int);
        }
        self.pos = i + 1;
        if self.pos >= len {
            proof {
                assert(esc_scan(s, i as int).drop_first() == self.pending());
            }
            return Some((i, Err(UnescapeError::TrailingEsc)));
        }
        let j = self.pos;
        let ch = self.chars[j];
        self.pos = j + 1;
        let res = if ch == 'x' {
            self.extract_hex()
        } else if ch == 'o' {
            self.extract_oct()
        } else if ch == 'b' && self.digits_ahead(2, 8) {
            self.extract_bin()
        } else {
            proof {
                lemma_byte_pos_next(s, j as int);
                assert(self.offsets@[j + 1] == byte_pos(s, j + 1));
                assert(self.offsets@[j as int] == byte_pos(s, j as int));
            }
            unescape_char(self.offsets[j], ch)
        };
        proof {
            let items = esc_scan(s, i as int);
            assert(items.drop_first() == self.pending());
            assert(self.offsets@[self.pos as int] == byte_pos(s, self.pos as int));
            assert(old(self).pending()[0] == escape_at(s, i as int).0);
            if digits_ok(s, i + 2, 2, 16) {
                lemma_digits_value_bound(s, i + 2, 2, 16);
                lemma_radix_pow_small(16, 0, 2);
            }
            if digits_ok(s, i + 2, 8, 2) {
                lemma_digits_value_bound(s, i + 2, 8, 2);
                lemma_radix_pow_small(2, 0, 8);
            }
        }
        Some((i, res))
    }

    /// The next escape sequence, or the error met reading it, or `None` at the end.
    /// Ranges count bytes of the text.
    pub fn next_escape(&mut self) -> (r: Option<EscapeItem>)
        requires
            old(self).wf(),
        ensures
            final(self).wf(),
            final(self).text() == old(self).text(),
            old(self).pending().len() == 0 ==> r is None && final(self).pending().len() == 0,
            old(self).pending().len() > 0 ==> {
                &&& r matches Some(x)
                &&& escape_item_view(x) == item_in_bytes(old(self).text(), old(self).pending()[0])
                &&& final(self).pending() == old(self).pending().drop_first()
            },
    {
        match self.next_item() {
            None => None,
            Some((i, Ok((end, c)))) => {
                assert(self.offsets@[i as int] == byte_pos(self.text(), i as int));
                Some(Ok((Range { start: self.offsets[i], end }, c)))
            },
            Some((_, Err(e))) => Some(Err(e)),
        }
    }
}

/// All escapes of `s`, in order, or the first error met while reading them.
/// Ranges count bytes of the text.
pub fn get_escapes(s: &str) -> (r: Result<Vec<Escape>, UnescapeError>)
    ensures
        match esc_collect(esc_scan(s@, 0)) {
            Ok(es) => r matches Ok(v) && escapes_view(v@) == escapes_in_bytes(s@, es),
            Err(e) => r == Err::<Vec<Escape>, UnescapeError>(e),
        },
{
    let mut it = Escapes::new(s);
    let mut out: Vec<Escape> = Vec::new();
    let ghost mut done: Seq<EscView> = seq![];
    loop
        invariant
            it.wf(),
            it.text() == s@,
            escapes_view(out@) == escapes_in_bytes(s@, done),
            esc_collect(esc_scan(s@, 0)) == match esc_collect(it.pending()) {
                Ok(rest) => Ok(done + rest),
                Err(e) => Err::<Seq<EscView>, UnescapeError>(e),
            },
        decreases it.pending().len(),
    {
        let ghost before = it.pending();
        match it.next_escape() {
            None => {
                assert(done + seq![] == done);
                return Ok(out);
            },
            Some(Err(e)) => {
                proof {
                    assert(before == seq![before[0]] + before.drop_first());
                    lemma_esc_collect_err(e, before.drop_first());
                }
                return Err(e);
            },
            Some(Ok(x)) => {
                let ghost old_out = out@;
                out.push(x);
                proof {
                    let e = before[0]->Ok_0;
                    assert(before == seq![before[0]] + before.drop_first());
                    lemma_esc_collect_cons(e, before.drop_first());
                    assert(escapes_view(out@) == escapes_view(old_out).push(escape_view(x)));
                    assert(escapes_in_bytes(s@, done.push(e)) == escapes_in_bytes(s@, done).push(
                        esc_in_bytes(s@, e),
                    ));
                    if let Ok(rest) = esc_collect(it.pending()) {
                        assert(done + (seq![e] + rest) == done.push(e) + rest);
                    }
                    done = done.push(e);
                }
            },
        }
    }
}

/// All escapes of `s` with their positions counted in characters, or the first
/// error met while reading them.
fn char_escapes(s: &str) -> (r: Result<Vec<CharEscape>, UnescapeError>)
    ensures
        match esc_collect(esc_scan(s@, 0)) {
            Ok(es) => r matches Ok(v) && char_escapes_view(v@) == es,
            Err(e) => r == Err::<Vec<CharEscape>, UnescapeError>(e),
        },
{
    let mut it = Escapes::new(s);
    let mut out: Vec<CharEscape> = Vec::new();
    loop
        invariant
            it.wf(),
            it.text() == s@,
            esc_collect(esc_scan(s@, 0)) == match esc_collect(it.pending()) {
                Ok(rest) => Ok(char_escapes_view(out@) + rest),
                Err(e) => Err::<Seq<EscView>, UnescapeError>(e),
            },
        decreases it.pending().len(),
    {
        let ghost before = it.pending();
        match it.next_item() {
            None => {
                assert(char_escapes_view(out@) + seq![] == char_escapes_view(out@));
                return Ok(out);
            },
            Some((_, Err(e))) => {
                proof {
                    assert(before == seq![before[0]] + before.drop_first());
                    lemma_esc_collect_err(e, before.drop_first());
                }
                return Err(e);
            },
            Some((i, Ok((_, c)))) => {
                let ghost old_out = out@;
                out.push((i, it.pos, c));
                proof {
                    let e = before[0]->Ok_0;
                    assert(char_escape_view((i, it.pos, c)) == e);
                    assert(before == seq![before[0]] + before.drop_first());
                    lemma_esc_collect_cons(e, before.drop_first());
                    assert(char_escapes_view(out@) == char_escapes_view(old_out).push(e));
                    if let Ok(rest) = esc_collect(it.pending()) {
                        assert(char_escapes_view(old_out) + (seq![e] + rest) == char_escapes_view(
                            out@,
                        ) + rest);
                    }
                }
            },
        }
    }
}

/// Converts all escape sequences of `string` to the characters they stand for,
/// in place. On error the string is left as it was.
pub fn unescape(string: &mut String) -> (r: Result<(), UnescapeError>)
    ensures
        match unescaped(old(string)@) {
            Ok(out) => r is Ok && final(string)@ == out,
            Err(e) => r == Err::<(), UnescapeError>(e) && final(string)@ == old(string)@,
        },
{
    let es = match char_escapes(string.as_str()) {
        Ok(v) => v,
        Err(e) => return Err(e),
    };
    let cs = str_to_chars(string.as_str());
    let ghost s = cs@;
    let ghost ev = char_escapes_view(es@);
    proof {
        lemma_esc_scan_ordered(s, 0);
        assert(ev.skip(0) == ev);
    }
    let mut out = String::new();
    let mut p: usize = 0;
    let mut k: usize = 0;
    while k < es.len()
        invariant
            k <= es.len() == ev.len(),
            s == cs@,
            ev == char_escapes_view(es@),
            esc_ordered(ev.skip(k as int), p as int, s.len() as int),
            apply_escapes(s, ev, 0) == out@ + apply_escapes(s, ev.skip(k as int), p as int),
        decreases es.len() - k,
    {
        let (start, end, c) = es[k];
        proof {
            assert(ev[k as int] == char_escape_view(es@[k as int]));
            assert(ev.skip(k as int)[0] == ev[k as int]);
            assert(ev.skip(k as int).drop_first() == ev.skip(k + 1));
        }
        push_chars(&mut out, cs.as_slice(), p, start);
        push_char(&mut out, c);
        p = end;
        k = k + 1;
    }
    push_chars(&mut out, cs.as_slice(), p, cs.len());
    *string = out;
    Ok(())
}

fn contains_backslash(s: &str) -> (b: bool)
    ensures
        b == s@.contains('\\'),
{
    let cs = str_to_chars(s);
    let mut k: usize = 0;
    while k < cs.len()
        invariant
            k <= cs.len(),
            cs@ == s@,
            forall|m: int| 0 <= m < k ==> cs@[m] != '\\',
        decreases cs.len() - k,
    {
        if cs[k] == '\\' {
            return true;
        }
        k = k + 1;
    }
    false
}

/// The text with all escape sequences converted. Text without a backslash is
/// handed back as it is, without allocation.
pub fn to_unescaped(s: &str) -> (r: Result<Cow<'_, str>, UnescapeError>)
    ensures
        match unescaped(s@) {
            Ok(out) => r matches Ok(c) && c@ == out,
            Err(e) => r matches Err(e2) && e2 == e,
        },
        !s@.contains('\\') ==> r matches Ok(Cow::Borrowed(_)),
        s@.contains('\\') && unescaped(s@) is Ok ==> r matches Ok(Cow::Owned(_)),
{
    if contains_backslash(s) {
        let mut string = s.to_owned();
        match unescape(&mut string) {
            Ok(()) => Ok(Cow::Owned(string)),
            Err(e) => Err(e),
        }
    } else {
        proof {
            lemma_unescape_plain(s@);
        }
        Ok(Cow::Borrowed(s))
    }
}

proof fn lemma_esc_scan_plain(s: Seq<char>, i: int)
    requires
        0 <= i <= s.len(),
        !s.contains('\\'),
    ensures
        esc_scan(s, i) == Seq::<EscItemView>::empty(),
    decreases s.len() - i,
{
    if i < s.len() {
        assert(s[i] != '\\');
        lemma_esc_scan_plain(s, i + 1);
    }
}

/// Unescaping leaves text without a backslash unchanged.
pub proof fn lemma_unescape_plain(s: Seq<char>)
    requires
        !s.contains('\\'),
    ensures
        unescaped(s) == Ok::<Seq<char>, UnescapeError>(s),
{
    lemma_esc_scan_plain(s, 0);
    assert(s.subrange(0, s.len() as int) == s);
}

/// An item of the model moved `d` positions on.
spec fn shift_item(x: EscItemView, d: int) -> EscItemView {
    match x {
        Ok(e) => Ok((e.0 + d, e.1 + d, e.2)),
        Err(err) => Err(err),
    }
}

spec fn shift_items(xs: Seq<EscItemView>, d: int) -> Seq<EscItemView> {
    xs.map_values(|x: EscItemView| shift_item(x, d))
}

spec fn shift_escapes(es: Seq<EscView>, d: int) -> Seq<EscView> {
    es.map_values(|e: EscView| (e.0 + d, e.1 + d, e.2))
}

proof fn lemma_digits_shift(p: Seq<char>, t: Seq<char>, from: int, n: int, radix: u32)
    requires
        0 <= from,
    ensures
        digits_ok(p + t, from + p.len(), n, radix) == digits_ok(t, from, n, radix),
        digits_end(p + t, from + p.len(), n, radix) == digits_end(t, from, n, radix) + p.len(),
        digits_ok(t, from, n, radix) ==> digits_value(p + t, from + p.len(), n, radix)
            == digits_value(t, from, n, radix),
    decreases n,
{
    let u = p + t;
    let l = p.len() as int;
    if digits_ok(t, from, n, radix) {
        assert forall|k: int| 0 <= k < n implies is_radix_digit(#[trigger] u[from + l + k], radix) by {
            assert(u[from + l + k] == t[from + k]);
        }
    }
    if digits_ok(u, from + l, n, radix) {
        assert forall|k: int| 0 <= k < n implies is_radix_digit(#[trigger] t[from + k], radix) by {
            assert(u[from + l + k] == t[from + k]);
        }
    }
    if n > 0 {
        lemma_digits_shift(p, t, from + 1, n - 1, radix);
        lemma_digits_shift(p, t, from, n - 1, radix);
        if from < t.len() {
            assert(u[from + l] == t[from]);
        }
        if digits_ok(t, from, n, radix) {
            assert(digits_ok(t, from, n - 1, radix)) by {
                assert forall|k: int| 0 <= k < n - 1 implies is_radix_digit(
                    #[trigger] t[from + k],
                    radix,
                ) by {
                    assert(is_radix_digit(t[from + k], radix));
                }
            }
            assert(u[from + l + n - 1] == t[from + n - 1]);
        }
    }
}

proof fn lemma_escape_at_shift(p: Seq<char>, t: Seq<char>, i: int)
    requires
        0 <= i < t.len(),
    ensures
        escape_at(p + t, i + p.len()) == (
            shift_item(escape_at(t, i).0, p.len() as int),
            escape_at(t, i).1 + p.len(),
        ),
{
    let u = p + t;
    let l = p.len() as int;
    if i + 1 < t.len() {
        assert(u[i + l + 1] == t[i + 1]);
        let c = t[i + 1];
        lemma_digits_shift(p, t, i + 2, 8, 2);
        lemma_digits_shift(p, t, i + 2, escape_digits(c), escape_radix(c));
        assert(i + l + 2 == (i + 2) + l);
    }
}

proof fn lemma_esc_scan_shift(p: Seq<char>, t: Seq<char>, i: int)
    requires
        0 <= i,
    ensures
        esc_scan(p + t, i + p.len()) == shift_items(esc_scan(t, i), p.len() as int),
    decreases t.len() - i,
{
    let u = p + t;
    let l = p.len() as int;
    if i >= t.len() {
        assert(shift_items(esc_scan(t, i), l) =~= Seq::<EscItemView>::empty());
    } else {
        assert(u[i + l] == t[i]);
        if t[i] != '\\' {
            lemma_esc_scan_shift(p, t, i + 1);
            assert(i + l + 1 == (i + 1) + l);
        } else {
            let (x, next) = escape_at(t, i);
            lemma_escape_at(t, i);
            lemma_escape_at_shift(p, t, i);
            lemma_esc_scan_shift(p, t, next);
            assert(shift_items(seq![x] + esc_scan(t, next), l) =~= seq![shift_item(x, l)]
                + shift_items(esc_scan(t, next), l));
        }
    }
}

proof fn lemma_esc_collect_shift(xs: Seq<EscItemView>, d: int)
    ensures
        esc_collect(shift_items(xs, d)) == match esc_collect(xs) {
            Ok(es) => Ok(shift_escapes(es, d)),
            Err(e) => Err::<Seq<EscView>, UnescapeError>(e),
        },
    decreases xs.len(),
{
    if xs.len() == 0 {
        assert(shift_items(xs, d) =~= Seq::<EscItemView>::empty());
        assert(shift_escapes(Seq::<EscView>::empty(), d) =~= Seq::<EscView>::empty());
    } else {
        assert(shift_items(xs, d)[0] == shift_item(xs[0], d));
        assert(shift_items(xs, d).drop_first() =~= shift_items(xs.drop_first(), d));
        lemma_esc_collect_shift(xs.drop_first(), d);
        if let Ok(x) = xs[0] {
            if let Ok(rest) = esc_collect(xs.drop_first()) {
                assert(shift_escapes(seq![x] + rest, d) =~= seq![(x.0 + d, x.1 + d, x.2)]
                    + shift_escapes(rest, d));
            }
        }
    }
}

proof fn lemma_apply_escapes_shift(p: Seq<char>, t: Seq<char>, es: Seq<EscView>, q: int)
    requires
        esc_ordered(es, q, t.len() as int),
    ensures
        apply_escapes(p + t, shift_escapes(es, p.len() as int), q + p.len()) == apply_escapes(
            t,
            es,
            q,
        ),
    decreases es.len(),
{
    let u = p + t;
    let l = p.len() as int;
    let se = shift_escapes(es, l);
    if es.len() == 0 {
        assert(u.subrange(q + l, u.len() as int) =~= t.subrange(q, t.len() as int));
    } else {
        assert(se[0] == (es[0].0 + l, es[0].1 + l, es[0].2));
        assert(se.drop_first() =~= shift_escapes(es.drop_first(), l));
        lemma_apply_escapes_shift(p, t, es.drop_first(), es[0].1);
        assert(u.subrange(q + l, es[0].0 + l) =~= t.subrange(q, es[0].0));
    }
}

/// The result of unescaping with one more character in front.
pub open spec fn with_first(c: char, r: Result<Seq<char>, UnescapeError>) -> Result<
    Seq<char>,
    UnescapeError,
> {
    match r {
        Ok(u) => Ok(seq![c] + u),
        Err(e) => Err(e),
    }
}

/// Eight binary digits start the text.
pub open spec fn starts_with_byte_in_binary(t: Seq<char>) -> bool {
    t.len() >= 8 && forall|k: int| 0 <= k < 8 ==> (#[trigger] t[k] == '0' || t[k] == '1')
}

/// When the text starts with an escape `p` that stands for `code`, unescaping
/// gives `code` and then what unescaping the rest gives.
proof fn lemma_unescape_escape_prefix(p: Seq<char>, t: Seq<char>, code: char)
    requires
        p.len() >= 2,
        p[0] == '\\',
        escape_at(p + t, 0) == (Ok::<EscView, UnescapeError>((0, p.len() as int, code)), p.len() as int),
    ensures
        unescaped(p + t) == with_first(code, unescaped(t)),
{
    let u = p + t;
    let l = p.len() as int;
    assert(u[0] == '\\');
    lemma_esc_scan_shift(p, t, 0);
    let rest = esc_scan(t, 0);
    assert(esc_scan(u, 0) == seq![Ok::<EscView, UnescapeError>((0, l, code))] + shift_items(rest, l));
    lemma_esc_collect_shift(rest, l);
    lemma_esc_collect_cons((0, l, code), shift_items(rest, l));
    if let Ok(es) = esc_collect(rest) {
        lemma_esc_scan_ordered(t, 0);
        lemma_apply_escapes_shift(p, t, es, 0);
        let all = seq![(0int, l, code)] + shift_escapes(es, l);
        assert(all.drop_first() =~= shift_escapes(es, l));
        assert(u.subrange(0, 0) =~= Seq::<char>::empty());
        assert(apply_escapes(u, all, 0) =~= seq![code] + apply_escapes(t, es, 0));
    }
}

proof fn lemma_unescape_simple_prefix(c: char, t: Seq<char>)
    requires
        c != 'x',
        c != 'o',
        c == 'b' ==> !starts_with_byte_in_binary(t),
        simple_escape(c) is Some,
    ensures
        unescaped(seq!['\\', c] + t) == with_first(simple_escape(c)->0, unescaped(t)),
{
    let p = seq!['\\', c];
    let u = p + t;
    lemma_digits_shift(p, t, 0, 8, 2);
    assert(digits_ok(t, 0, 8, 2) == starts_with_byte_in_binary(t)) by {
        if digits_ok(t, 0, 8, 2) {
            assert forall|k: int| 0 <= k < 8 implies (#[trigger] t[k] == '0' || t[k] == '1') by {
                assert(is_radix_digit(t[0 + k], 2));
            }
        }
        if starts_with_byte_in_binary(t) {
            assert forall|k: int| 0 <= k < 8 implies is_radix_digit(#[trigger] t[0 + k], 2) by {
                assert(t[k] == '0' || t[k] == '1');
            }
        }
    }
    assert(u[0] == '\\' && u[1] == c);
    let code = simple_escape(c)->0;
    assert(escape_at(u, 0) == (Ok::<EscView, UnescapeError>((0, 2, code)), 2int));
    lemma_unescape_escape_prefix(p, t, code);
}

/// The value of a hexadecimal digit.
pub open spec fn hex_digit(c: char) -> int {
    if '0' <= c && c <= '9' {
        c as int - 48
    } else if 'a' <= c && c <= 'f' {
        c as int - 87
    } else {
        c as int - 55
    }
}

pub open spec fn is_hex_digit(c: char) -> bool {
    ('0' <= c && c <= '9') || ('a' <= c && c <= 'f') || ('A' <= c && c <= 'F')
}

/// `\x` and two hexadecimal digits, before any text `t`: unescaping gives the
/// character whose value the digits write (the first one counts sixteen times),
/// then what unescaping `t` gives.
pub proof fn hexadecimal_escapes(h1: char, h2: char, t: Seq<char>)
    requires
        is_hex_digit(h1),
        is_hex_digit(h2),
    ensures
        unescaped(seq!['\\', 'x', h1, h2] + t) == with_first(
            (16 * hex_digit(h1) + hex_digit(h2)) as char,
            unescaped(t),
        ),
{
    let p = seq!['\\', 'x', h1, h2];
    let u = p + t;
    assert(u[1] == 'x' && u[2] == h1 && u[3] == h2);
    assert(digits_ok(u, 2, 2, 16)) by {
        assert forall|k: int| 0 <= k < 2 implies is_radix_digit(#[trigger] u[2 + k], 16) by {
            if k == 0 {
                assert(u[2 + k] == h1);
            } else {
                assert(u[2 + k] == h2);
            }
        }
    }
    reveal_with_fuel(digits_value, 3);
    assert(digits_value(u, 2, 2, 16) == 16 * hex_digit(h1) + hex_digit(h2));
    lemma_unescape_escape_prefix(p, t, (16 * hex_digit(h1) + hex_digit(h2)) as char);
}

/// `\o` and three octal digits, before any text `t`: unescaping gives the
/// character whose value the digits write (64, 8 and 1 times each), then what
/// unescaping `t` gives; a value above 255 is an invalid escape.
pub proof fn octal_escapes(d1: char, d2: char, d3: char, t: Seq<char>)
    requires
        '0' <= d1 <= '7',
        '0' <= d2 <= '7',
        '0' <= d3 <= '7',
    ensures
        ({
            let v = 64 * (d1 as int - 48) + 8 * (d2 as int - 48) + (d3 as int - 48);
            unescaped(seq!['\\', 'o', d1, d2, d3] + t) == if v <= 255 {
                with_first(v as char, unescaped(t))
            } else {
                Err::<Seq<char>, UnescapeError>(UnescapeError::Invalid)
            }
        }),
{
    let p = seq!['\\', 'o', d1, d2, d3];
    let u = p + t;
    let v = 64 * (d1 as int - 48) + 8 * (d2 as int - 48) + (d3 as int - 48);
    assert(u[0] == '\\' && u[1] == 'o' && u[2] == d1 && u[3] == d2 && u[4] == d3);
    assert(digits_ok(u, 2, 3, 8)) by {
        assert forall|k: int| 0 <= k < 3 implies is_radix_digit(#[trigger] u[2 + k], 8) by {
            assert(u[2 + k] == p[2 + k]);
        }
    }
    reveal_with_fuel(digits_value, 4);
    assert(digits_value(u, 2, 3, 8) == v);
    if v <= 255 {
        lemma_unescape_escape_prefix(p, t, v as char);
    } else {
        assert(escape_at(u, 0).0 == Err::<EscView, UnescapeError>(UnescapeError::Invalid));
        assert(esc_scan(u, 0) == seq![escape_at(u, 0).0] + esc_scan(u, escape_at(u, 0).1));
        lemma_esc_collect_err(UnescapeError::Invalid, esc_scan(u, escape_at(u, 0).1));
    }
}

/// The value of eight binary digits, the first the most significant.
pub open spec fn binary_value(t: Seq<char>) -> int
    decreases t.len(),
{
    if t.len() == 0 {
        0
    } else {
        2 * binary_value(t.drop_last()) + (if t.last() == '1' {
            1int
        } else {
            0
        })
    }
}

proof fn lemma_binary_digits(u: Seq<char>, b: Seq<char>, m: int)
    requires
        0 <= m <= 8,
        b.len() == 8,
        u.len() >= 10,
        forall|k: int| 0 <= k < 8 ==> u[2 + k] == #[trigger] b[k],
        forall|k: int| 0 <= k < 8 ==> (#[trigger] b[k] == '0' || b[k] == '1'),
    ensures
        digits_value(u, 2, m, 2) == binary_value(b.take(m)),
    decreases m,
{
    if m > 0 {
        lemma_binary_digits(u, b, m - 1);
        assert(b.take(m).drop_last() =~= b.take(m - 1));
        assert(b.take(m).last() == b[m - 1]);
        assert(u[2 + m - 1] == b[m - 1]);
    }
}

/// `\b` and eight binary digits, before any text `t`: unescaping gives the
/// character whose value the digits write, the first the most significant, then
/// what unescaping `t` gives.
pub proof fn binary_escapes(b: Seq<char>, t: Seq<char>)
    requires
        b.len() == 8,
        forall|k: int| 0 <= k < 8 ==> (#[trigger] b[k] == '0' || b[k] == '1'),
    ensures
        unescaped(seq!['\\', 'b'] + b + t) == with_first(binary_value(b) as char, unescaped(t)),
{
    let p = seq!['\\', 'b'] + b;
    let u = p + t;
    assert(seq!['\\', 'b'] + b + t == u);
    assert(u[0] == '\\' && u[1] == 'b');
    assert forall|k: int| 0 <= k < 8 implies u[2 + k] == #[trigger] b[k] by {
        assert(u[2 + k] == p[2 + k]);
    }
    assert(digits_ok(u, 2, 8, 2)) by {
        assert forall|k: int| 0 <= k < 8 implies is_radix_digit(#[trigger] u[2 + k], 2) by {
            assert(u[2 + k] == b[k]);
        }
    }
    lemma_binary_digits(u, b, 8);
    assert(b.take(8) =~= b);
    lemma_digits_value_bound(u, 2, 8, 2);
    lemma_radix_pow_small(2, 0, 8);
    lemma_unescape_escape_prefix(p, t, binary_value(b) as char);
}

/// The one-character escapes, each before any text `t`: unescaping gives the
/// character the escape stands for, then what unescaping `t` gives (or the error
/// met in `t`). `\a` is bell (7), `\b` backspace (8) unless eight binary digits
/// follow, `\f` form feed (12), `\n` newline (10), `\r` carriage return (13), `\t`
/// tab (9), `\v` vertical tab (11); `\\`, `\"`, `\'` and `` \` `` stand for
/// themselves, and `\0` to `\9` for the characters 0 to 9.
pub proof fn one_character_escapes(t: Seq<char>)
    ensures
        unescaped(seq!['\\', 'a'] + t) == with_first('\x07', unescaped(t)),
        !starts_with_byte_in_binary(t) ==> unescaped(seq!['\\', 'b'] + t) == with_first(
            '\x08',
            unescaped(t),
        ),
        unescaped(seq!['\\', 'f'] + t) == with_first('\x0C', unescaped(t)),
        unescaped(seq!['\\', 'n'] + t) == with_first('\x0A', unescaped(t)),
        unescaped(seq!['\\', 'r'] + t) == with_first('\x0D', unescaped(t)),
        unescaped(seq!['\\', 't'] + t) == with_first('\x09', unescaped(t)),
        unescaped(seq!['\\', 'v'] + t) == with_first('\x0B', unescaped(t)),
        unescaped(seq!['\\', '\\'] + t) == with_first('\\', unescaped(t)),
        unescaped(seq!['\\', '"'] + t) == with_first('"', unescaped(t)),
        unescaped(seq!['\\', '\''] + t) == with_first('\'', unescaped(t)),
        unescaped(seq!['\\', '`'] + t) == with_first('`', unescaped(t)),
        forall|d: u32|
            0 <= d <= 9 ==> unescaped(seq!['\\', #[trigger] ((48 + d) as char)] + t) == with_first(
                d as char,
                unescaped(t),
            ),
{
    lemma_unescape_simple_prefix('a', t);
    if !starts_with_byte_in_binary(t) {
        lemma_unescape_simple_prefix('b', t);
    }
    lemma_unescape_simple_prefix('f', t);
    lemma_unescape_simple_prefix('n', t);
    lemma_unescape_simple_prefix('r', t);
    lemma_unescape_simple_prefix('t', t);
    lemma_unescape_simple_prefix('v', t);
    lemma_unescape_simple_prefix('\\', t);
    lemma_unescape_simple_prefix('"', t);
    lemma_unescape_simple_prefix('\'', t);
    lemma_unescape_simple_prefix('`', t);
    assert forall|d: u32| 0 <= d <= 9 implies unescaped(seq!['\\', #[trigger] ((48 + d) as char)] + t)
        == with_first(d as char, unescaped(t)) by {
        lemma_unescape_simple_prefix((48 + d) as char, t);
    }
}

} // verus!
