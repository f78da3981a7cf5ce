//! Inline markup for chat text: `*italic*`, `**bold**`, `__underline__`,
//! `||hidden||`, `~~strikethrough~~`, and code spans delimited by one, two or
//! three backticks, whose contents are kept literally.
//!
//! The ranges that `FormatNodes` hands out count bytes of the UTF-8 text, as string
//! slicing does; the model underneath counts characters, and `byte_pos` converts.
use std::ops::Range;
use vstd::prelude::*;

use crate::text::{
    byte_pos, char_byte_offsets, encode_char, lemma_byte_pos_boundary, lemma_byte_pos_order, push_chars, push_str, str_to_chars, utf8_str,
};
use vstd::utf8::*;

verus! {

pub const FLAG_ESCAPED: u8 = 1;

pub const FLAG_ITALIC: u8 = 2;

pub const FLAG_BOLD: u8 = 4;

pub const FLAG_UNDERLINE: u8 = 8;

pub const FLAG_HIDDEN: u8 = 16;

pub const FLAG_STRIKETHROUGH: u8 = 32;

/// Single grave: all text is literal, without needing escapes
pub const FLAG_CODE: u8 = 64;

/// Double graves: all text is literal, including single graves
pub const FLAG_DCODE: u8 = 128;

/// Triple graves: all text is literal, including double graves
pub const FLAG_TCODE: u8 = FLAG_CODE | FLAG_DCODE;

/// A style was opened and never closed; the styles that were open are given as flags.
#[derive(Debug, Clone, Copy, PartialEq, Eq)]
pub enum FormatError {
    Unclosed(u8),
}

/// The name of a style when it is among the open ones, else nothing.
pub open spec fn flag_part(flags: u8, flag: u8, name: Seq<char>) -> Seq<char> {
    if flags & flag == flag {
        name
    } else {
        Seq::empty()
    }
}

/// The text that explains an unclosed-style error: each style in turn, with
/// the names of the open ones, the entries always separated by commas.
pub open spec fn unclosed_text(flags: u8) -> Seq<char> {
    "style(s) started but not ended: "@ + flag_part(flags, FLAG_ITALIC, "italic"@) + ", "@
        + flag_part(flags, FLAG_BOLD, "bold"@) + ", "@ + flag_part(
        flags,
        FLAG_UNDERLINE,
        "underline"@,
    ) + ", "@ + flag_part(flags, FLAG_HIDDEN, "hidden"@) + ", "@ + flag_part(
        flags,
        FLAG_STRIKETHROUGH,
        "strikethrough"@,
    ) + ", "@ + flag_part(flags, FLAG_CODE, "code (`)"@) + ", "@ + flag_part(
        flags,
        FLAG_DCODE,
        "double code (``)"@,
    ) + ", "@ + flag_part(flags, FLAG_TCODE, "triple code (```)"@)
}

fn push_flag_part(out: &mut String, flags: u8, flag: u8, name: &str)
    ensures
        final(out)@ == old(out)@ + flag_part(flags, flag, name@),
{
    if flags & flag == flag {
        push_str(out, name);
    } else {
        assert(out@ + Seq::<char>::empty() == out@);
    }
}

impl FormatError {
    /// The text that explains the error to a user.
    pub fn message(&self) -> (s: String)
        ensures
            match self {
                FormatError::Unclosed(flags) => s@ == unclosed_text(*flags),
            },
    {
        match self {
            FormatError::Unclosed(flags) => {
                let f = *flags;
                let mut s = String::new();
                push_str(&mut s, "style(s) started but not ended: ");
                push_flag_part(&mut s, f, FLAG_ITALIC, "italic");
                push_str(&mut s, ", ");
                push_flag_part(&mut s, f, FLAG_BOLD, "bold");
                push_str(&mut s, ", ");
                push_flag_part(&mut s, f, FLAG_UNDERLINE, "underline");
                push_str(&mut s, ", ");
                push_flag_part(&mut s, f, FLAG_HIDDEN, "hidden");
                push_str(&mut s, ", ");
                push_flag_part(&mut s, f, FLAG_STRIKETHROUGH, "strikethrough");
                push_str(&mut s, ", ");
                push_flag_part(&mut s, f, FLAG_CODE, "code (`)");
                push_str(&mut s, ", ");
                push_flag_part(&mut s, f, FLAG_DCODE, "double code (``)");
                push_str(&mut s, ", ");
                push_flag_part(&mut s, f, FLAG_TCODE, "triple code (```)");
                assert(s@ =~= unclosed_text(f));
                s
            },
        }
    }
}

/// What a markup delimiter is replaced with.
#[derive(Debug, Clone, Copy)]
pub enum Replacement {
    Char(char),
    Str(&'static str),
}

impl View for Replacement {
    type V = Seq<char>;

    open spec fn view(&self) -> Seq<char> {
        match self {
            Replacement::Char(c) => seq![*c],
            Replacement::Str(s) => s@,
        }
    }
}

impl Replacement {
    /// The replacement text. A character is encoded into the front of `dst`, and
    /// the text handed back is those bytes; a string is handed back as it is,
    /// and `dst` is left alone.
    pub fn encode_utf8(self, dst: &mut [u8]) -> (s: &str)
        requires
            self matches Replacement::Char(c) ==> old(dst)@.len() >= encode_scalar(c as u32).len(),
        ensures
            s@ == self@,
            match self {
                Replacement::Char(c) => final(dst)@ == encode_scalar(c as u32) + old(dst)@.skip(
                    encode_scalar(c as u32).len() as int,
                ),
                Replacement::Str(_) => final(dst)@ == old(dst)@,
            },
    {
        match self {
            Replacement::Char(c) => {
                let bytes = encode_char(c);
                let n = bytes.len();
                let mut k: usize = 0;
                while k < n
                    invariant
                        k <= n == bytes@.len() <= old(dst)@.len(),
                        bytes@ == encode_scalar(c as u32),
                        dst@.len() == old(dst)@.len(),
                        dst@ == bytes@.take(k as int) + old(dst)@.skip(k as int),
                    decreases n - k,
                {
                    dst[k] = bytes[k];
                    k = k + 1;
                    assert(dst@ == bytes@.take(k as int) + old(dst)@.skip(k as int));
                }
                proof {
                    assert(bytes@.take(n as int) == bytes@);
                    assert(seq![c].drop_first() == Seq::<char>::empty());
                    assert(encode_utf8(seq![c]) == encode_scalar(c as u32) + encode_utf8(
                        Seq::<char>::empty(),
                    ));
                    assert(encode_utf8(seq![c]) == bytes@);
                    encode_utf8_valid_utf8(seq![c]);
                    encode_utf8_decode_utf8(seq![c]);
                }
                let head: &[u8] = &dst[0..n];
                assert(head@ == bytes@);
                utf8_str(head).unwrap()
            },
            Replacement::Str(t) => t,
        }
    }
}

/// A delimiter found in the text: the range it covers and its replacement.
pub type FormatNode = (Range<usize>, Replacement);

/// One item produced while scanning: a delimiter, or the error that ends the scan.
pub type FormatItem = Result<FormatNode, FormatError>;

/// A delimiter in the model: start, end, replacement text.
pub type NodeView = (int, int, Seq<char>);

/// An item in the model: a delimiter, or the flags of the styles left open.
pub type ItemView = Result<NodeView, u8>;

pub open spec fn node_view(n: FormatNode) -> NodeView {
    (n.0.start as int, n.0.end as int, n.1@)
}

pub open spec fn item_view(x: FormatItem) -> ItemView {
    match x {
        Ok(n) => Ok(node_view(n)),
        Err(FormatError::Unclosed(f)) => Err(f),
    }
}

/// A delimiter of the model with its positions counted in bytes of the UTF-8
/// encoding of `s`.
pub open spec fn node_in_bytes(s: Seq<char>, n: NodeView) -> NodeView {
    (byte_pos(s, n.0), byte_pos(s, n.1), n.2)
}

/// An item of the model with its positions counted in bytes of the UTF-8
/// encoding of `s`.
pub open spec fn format_item_in_bytes(s: Seq<char>, x: ItemView) -> ItemView {
    match x {
        Ok(n) => Ok(node_in_bytes(s, n)),
        Err(f) => Err(f),
    }
}

/// The ANSI escape sequence `ESC [ code m`.
pub open spec fn ansi(code: Seq<char>) -> Seq<char> {
    seq!['\x1b', '['] + code + seq!['m']
}

/// The escape sequence that switches the style of `flag` on or off.
pub open spec fn toggle_text(flag: u8, on: bool) -> Seq<char> {
    if flag == FLAG_ITALIC {
        if on { ansi(seq!['3']) } else { ansi(seq!['2', '3']) }
    } else if flag == FLAG_BOLD {
        if on { ansi(seq!['1']) } else { ansi(seq!['2', '2']) }
    } else if flag == FLAG_UNDERLINE {
        if on { ansi(seq!['4']) } else { ansi(seq!['2', '4']) }
    } else if flag == FLAG_HIDDEN {
        if on { ansi(seq!['8']) } else { ansi(seq!['2', '8']) }
    } else {
        if on { ansi(seq!['9']) } else { ansi(seq!['2', '9']) }
    }
}

/// Characters that a backslash keeps from being read as markup.
pub open spec fn is_escapable(c: char) -> bool {
    c == '`' || c == '*' || c == '_' || c == '|' || c == '~'
}

/// Characters that form a style delimiter when doubled.
pub open spec fn is_pair_char(c: char) -> bool {
    c == '_' || c == '|' || c == '~'
}

pub open spec fn pair_flag(c: char) -> u8 {
    if c == '_' {
        FLAG_UNDERLINE
    } else if c == '|' {
        FLAG_HIDDEN
    } else {
        FLAG_STRIKETHROUGH
    }
}

/// The number of backticks (one to three) that open a code span at `i`.
pub open spec fn tick_run(s: Seq<char>, i: int) -> int {
    if i + 1 < s.len() && s[i + 1] == '`' {
        if i + 2 < s.len() && s[i + 2] == '`' {
            3
        } else {
            2
        }
    } else {
        1
    }
}

/// `n` backticks stand at `j`.
pub open spec fn ticks_at(s: Seq<char>, j: int, n: int) -> bool {
    0 <= j && j + n <= s.len() && forall|k: int| 0 <= k < n ==> #[trigger] s[j + k] == '`'
}

/// The first position at or after `j` where `n` backticks stand.
pub open spec fn find_ticks(s: Seq<char>, j: int, n: int) -> Option<int>
    decreases s.len() - j,
{
    if j < 0 || j + n > s.len() || n <= 0 {
        None
    } else if ticks_at(s, j, n) {
        Some(j)
    } else {
        find_ticks(s, j + 1, n)
    }
}

pub proof fn lemma_find_ticks(s: Seq<char>, j: int, n: int)
    ensures
        find_ticks(s, j, n) matches Some(k) ==> j <= k && ticks_at(s, k, n) && n > 0 && forall|
            m: int,
        | j <= m < k ==> !ticks_at(s, m, n),
        find_ticks(s, j, n) is None ==> forall|m: int|
            0 <= j <= m && n > 0 ==> !ticks_at(s, m, n),
    decreases s.len() - j,
{
    if j < 0 || j + n > s.len() || n <= 0 {
    } else if ticks_at(s, j, n) {
    } else {
        lemma_find_ticks(s, j + 1, n);
    }
}

/// The items met at the end of the text: an error if a style is still open.
pub open spec fn end_items(flags: u8) -> Seq<ItemView> {
    if flags != 0 {
        seq![Err(flags)]
    } else {
        seq![]
    }
}

/// The items that scanning `s` from position `i` produces, with the styles in
/// `flags` open.
pub open spec fn scan(s: Seq<char>, i: int, flags: u8) -> Seq<ItemView>
    decreases s.len() - i,
{
    if i < 0 || i >= s.len() {
        end_items(flags)
    } else if s[i] == '\\' {
        if i + 1 < s.len() && is_escapable(s[i + 1]) {
            scan(s, i + 2, flags)
        } else {
            scan(s, i + 1, flags)
        }
    } else if s[i] == '`' {
        let n = tick_run(s, i);
        let open: ItemView = Ok((i, i + n, Seq::empty()));
        match find_ticks(s, i + n, n) {
            Some(j) => {
                proof {
                    lemma_find_ticks(s, i + n, n);
                }
                seq![open, Ok((j, j + n, Seq::empty()))] + scan(s, j + n, flags)
            },
            None => seq![open, Err(flags)] + end_items(flags),
        }
    } else if s[i] == '*' {
        let w: int = if i + 1 < s.len() && s[i + 1] == '*' {
            2
        } else {
            1
        };
        let flag = if w == 2 {
            FLAG_BOLD
        } else {
            FLAG_ITALIC
        };
        let f = flags ^ flag;
        seq![Ok((i, i + w, toggle_text(flag, f & flag == flag)))] + scan(s, i + w, f)
    } else if is_pair_char(s[i]) && i + 1 < s.len() && s[i + 1] == s[i] {
        let flag = pair_flag(s[i]);
        let f = flags ^ flag;
        seq![Ok((i, i + 2, toggle_text(flag, f & flag == flag)))] + scan(s, i + 2, f)
    } else {
        scan(s, i + 1, flags)
    }
}

/// What collecting a sequence of items gives: the first error, or all delimiters.
pub open spec fn collect(items: Seq<ItemView>) -> Result<Seq<NodeView>, u8>
    decreases items.len(),
{
    if items.len() == 0 {
        Ok(seq![])
    } else {
        match items[0] {
            Err(f) => Err(f),
            Ok(n) => match collect(items.drop_first()) {
                Ok(rest) => Ok(seq![n] + rest),
                Err(f) => Err(f),
            },
        }
    }
}

/// The text `s` from position `p` on, with each delimiter of `nodes` replaced.
pub open spec fn apply(s: Seq<char>, nodes: Seq<NodeView>, p: int) -> Seq<char>
    decreases nodes.len(),
{
    if nodes.len() == 0 {
        s.subrange(p, s.len() as int)
    } else {
        s.subrange(p, nodes[0].0) + nodes[0].2 + apply(s, nodes.drop_first(), nodes[0].1)
    }
}

/// The delimiters of `nodes` lie in order, after `p` and within `len`.
pub open spec fn ordered(nodes: Seq<NodeView>, p: int, len: int) -> bool
    decreases nodes.len(),
{
    if nodes.len() == 0 {
        0 <= p <= len
    } else {
        0 <= p <= nodes[0].0 <= nodes[0].1 <= len && ordered(nodes.drop_first(), nodes[0].1, len)
    }
}

/// What formatting the text `s` gives: the text with each delimiter replaced,
/// or the flags of the styles left open.
pub open spec fn formatted(s: Seq<char>) -> Result<Seq<char>, u8> {
    match collect(scan(s, 0, 0)) {
        Ok(nodes) => Ok(apply(s, nodes, 0)),
        Err(f) => Err(f),
    }
}

proof fn lemma_collect_cons(x: NodeView, rest: Seq<ItemView>)
    ensures
        collect(seq![Ok(x)] + rest) == match collect(rest) {
            Ok(r) => Ok(seq![x] + r),
            Err(f) => Err(f),
        },
{
    assert((seq![Ok(x)] + rest).drop_first() == rest);
}

proof fn lemma_ordered_cons(x: NodeView, r: Seq<NodeView>, p: int, len: int)
    requires
        0 <= p <= x.0 <= x.1 <= len,
        ordered(r, x.1, len),
    ensures
        ordered(seq![x] + r, p, len),
{
    assert((seq![x] + r).drop_first() == r);
}

proof fn lemma_ordered_weaken(nodes: Seq<NodeView>, p: int, q: int, len: int)
    requires
        0 <= p <= q,
        ordered(nodes, q, len),
    ensures
        ordered(nodes, p, len),
{
}

pub proof fn lemma_scan_ordered(s: Seq<char>, i: int, flags: u8)
    requires
        0 <= i <= s.len(),
    ensures
        collect(scan(s, i, flags)) matches Ok(nodes) ==> ordered(nodes, i, s.len() as int),
    decreases s.len() - i,
{
    let len = s.len() as int;
    if i >= s.len() {
    } else if s[i] == '\\' {
        if i + 1 < s.len() && is_escapable(s[i + 1]) {
            lemma_scan_ordered(s, i + 2, flags);
            if let Ok(r) = collect(scan(s, i + 2, flags)) {
                lemma_ordered_weaken(r, i, i + 2, len);
            }
        } else {
            lemma_scan_ordered(s, i + 1, flags);
            if let Ok(r) = collect(scan(s, i + 1, flags)) {
                lemma_ordered_weaken(r, i, i + 1, len);
            }
        }
    } else if s[i] == '`' {
        let n = tick_run(s, i);
        lemma_find_ticks(s, i + n, n);
        match find_ticks(s, i + n, n) {
            Some(j) => {
                lemma_scan_ordered(s, j + n, flags);
                let rest = scan(s, j + n, flags);
                let open: NodeView = (i, i + n, Seq::empty());
                let close: NodeView = (j, j + n, Seq::empty());
                assert(scan(s, i, flags) == seq![Ok(open)] + (seq![Ok(close)] + rest));
                lemma_collect_cons(close, rest);
                lemma_collect_cons(open, seq![Ok(close)] + rest);
                if let Ok(r) = collect(rest) {
                    lemma_ordered_cons(close, r, i + n, len);
                    lemma_ordered_cons(open, seq![close] + r, i, len);
                }
                    },
            None => {
                let open: NodeView = (i, i + n, Seq::empty());
                let tail = seq![Err(flags)] + end_items(flags);
                assert(scan(s, i, flags) == seq![Ok(open)] + tail);
                lemma_collect_cons(open, tail);
                assert(tail.drop_first() == end_items(flags));
            },
        }
    } else if s[i] == '*' {
        let w: int = if i + 1 < s.len() && s[i + 1] == '*' {
            2
        } else {
            1
        };
        let flag = if w == 2 {
            FLAG_BOLD
        } else {
            FLAG_ITALIC
        };
        let f = flags ^ flag;
        lemma_scan_ordered(s, i + w, f);
        let x: NodeView = (i, i + w, toggle_text(flag, f & flag == flag));
        assert(scan(s, i, flags) == seq![Ok(x)] + scan(s, i + w, f));
        lemma_collect_cons(x, scan(s, i + w, f));
        if let Ok(r) = collect(scan(s, i + w, f)) {
            lemma_ordered_cons(x, r, i, len);
        }
    } else if is_pair_char(s[i]) && i + 1 < s.len() && s[i + 1] == s[i] {
        let flag = pair_flag(s[i]);
        let f = flags ^ flag;
        lemma_scan_ordered(s, i + 2, f);
        let x: NodeView = (i, i + 2, toggle_text(flag, f & flag == flag));
        assert(scan(s, i, flags) == seq![Ok(x)] + scan(s, i + 2, f));
        lemma_collect_cons(x, scan(s, i + 2, f));
        if let Ok(r) = collect(scan(s, i + 2, f)) {
            lemma_ordered_cons(x, r, i, len);
        }
    } else {
        lemma_scan_ordered(s, i + 1, flags);
        if let Ok(r) = collect(scan(s, i + 1, flags)) {
            lemma_ordered_weaken(r, i, i + 1, len);
        }
    }
}

/// The replacement that switches the style of `flag` on or off.
fn toggle_replacement(flag: u8, on: bool) -> (r: Replacement)
    requires
        flag == FLAG_ITALIC || flag == FLAG_BOLD || flag == FLAG_UNDERLINE || flag == FLAG_HIDDEN
            || flag == FLAG_STRIKETHROUGH,
    ensures
        r@ == toggle_text(flag, on),
{
    if flag == FLAG_ITALIC {
        if on {
            proof {
                reveal_strlit("\x1b[3m");
            }
            Replacement::Str("\x1b[3m")
        } else {
            proof {
                reveal_strlit("\x1b[23m");
            }
            Replacement::Str("\x1b[23m")
        }
    } else if flag == FLAG_BOLD {
        if on {
            proof {
                reveal_strlit("\x1b[1m");
            }
            Replacement::Str("\x1b[1m")
        } else {
            proof {
                reveal_strlit("\x1b[22m");
            }
            Replacement::Str("\x1b[22m")
        }
    } else if flag == FLAG_UNDERLINE {
        if on {
            proof {
                reveal_strlit("\x1b[4m");
            }
            Replacement::Str("\x1b[4m")
        } else {
            proof {
                reveal_strlit("\x1b[24m");
            }
            Replacement::Str("\x1b[24m")
        }
    } else if flag == FLAG_HIDDEN {
        if on {
            proof {
                reveal_strlit("\x1b[8m");
            }
            Replacement::Str("\x1b[8m")
        } else {
            proof {
                reveal_strlit("\x1b[28m");
            }
            Replacement::Str("\x1b[28m")
        }
    } else {
        if on {
            proof {
                reveal_strlit("\x1b[9m");
            }
            Replacement::Str("\x1b[9m")
        } else {
            proof {
                reveal_strlit("\x1b[29m");
            }
            Replacement::Str("\x1b[29m")
        }
    }
}

/// The replacement for a backtick delimiter: nothing.
fn empty_replacement() -> (r: Replacement)
    ensures
        r@ == Seq::<char>::empty(),
{
    proof {
        reveal_strlit("");
    }
    Replacement::Str("")
}

fn is_escapable_exec(c: char) -> (b: bool)
    ensures
        b == is_escapable(c),
{
    c == '`' || c == '*' || c == '_' || c == '|' || c == '~'
}

fn ticks_at_exec(cs: &Vec<char>, j: usize, n: usize) -> (b: bool)
    requires
        j + n <= cs.len(),
    ensures
        b == ticks_at(cs@, j as int, n as int),
{
    let mut k: usize = 0;
    while k < n
        invariant
            k <= n,
            j + n <= cs.len(),
            forall|m: int| 0 <= m < k ==> #[trigger] cs@[j + m] == '`',
        decreases n - k,
    {
        if cs[j + k] != '`' {
            return false;
        }
        k = k + 1;
    }
    true
}

/// The first position at or after `from` where `n` backticks stand.
fn find_ticks_exec(cs: &Vec<char>, from: usize, n: usize) -> (r: Option<usize>)
    requires
        1 <= n <= 3,
        from <= cs.len(),
    ensures
        match r {
            Some(j) => find_ticks(cs@, from as int, n as int) == Some(j as int),
            None => find_ticks(cs@, from as int, n as int) is None,
        },
{
    let mut j = from;
    while j <= cs.len() && n <= cs.len() - j
        invariant
            from <= j,
            1 <= n <= 3,
            find_ticks(cs@, from as int, n as int) == find_ticks(cs@, j as int, n as int),
        decreases cs.len() + 1 - j,
    {
        if ticks_at_exec(cs, j, n) {
            return Some(j);
        }
        j = j + 1;
    }
    None
}

/// Scans text for markup delimiters, one item at a time.
pub struct FormatNodes {
    chars: Vec<char>,
    offsets: Vec<usize>,
    pos: usize,
    flags: u8,
    stored: Option<FormatItem>,
}

impl FormatNodes {
    /// The text being scanned.
    pub closed spec fn text(&self) -> Seq<char> {
        self.chars@
    }

    /// The scanner is well formed.
    pub closed spec fn wf(&self) -> bool {
        &&& self.pos <= self.chars.len()
        &&& self.offsets@.len() == self.chars@.len() + 1
        &&& forall|k: int|
            0 <= k <= self.chars@.len() ==> #[trigger] self.offsets@[k] == byte_pos(self.chars@, k)
        &&& self.stored matches Some(Ok(n)) ==> n.0.start <= n.0.end <= self.chars.len()
    }

    /// The text has been read to its end, and nothing is held back.
    pub closed spec fn at_end(&self) -> bool {
        self.stored is None && self.pos >= self.chars.len()
    }

    /// The items that `next_node` will still hand out, in order.
    pub closed spec fn pending(&self) -> Seq<ItemView> {
        match self.stored {
            Some(x) => seq![item_view(x)] + scan(self.chars@, self.pos as int, self.flags),
            None => scan(self.chars@, self.pos as int, self.flags),
        }
    }

    /// A scanner at the start of `s`, with no style open.
    pub fn new(s: &str) -> (r: Self)
        ensures
            r.wf(),
            r.text() == s@,
            r.pending() == scan(s@, 0, 0),
    {
        FormatNodes {
            chars: str_to_chars(s),
            offsets: char_byte_offsets(s),
            pos: 0,
            flags: 0,
            stored: None,
        }
    }

    #[inline]
    fn set_flag(&mut self, flag: u8)
        ensures
            final(self).flags == old(self).flags | flag,
            final(self).chars == old(self).chars,
            final(self).offsets == old(self).offsets,
            final(self).pos == old(self).pos,
            final(self).stored == old(self).stored,
    {
        self.flags = self.flags | flag;
    }

    #[inline]
    fn unset_flag(&mut self, flag: u8)
        ensures
            final(self).flags == old(self).flags & !flag,
            final(self).chars == old(self).chars,
            final(self).offsets == old(self).offsets,
            final(self).pos == old(self).pos,
            final(self).stored == old(self).stored,
    {
        self.flags = self.flags & !flag;
    }

    #[inline]
    fn toggle_flag(&mut self, flag: u8)
        ensures
            final(self).flags == old(self).flags ^ flag,
            final(self).chars == old(self).chars,
            final(self).offsets == old(self).offsets,
            final(self).pos == old(self).pos,
            final(self).stored == old(self).stored,
    {
        self.flags = self.flags ^ flag;
    }

    #[inline]
    fn assign_flag(&mut self, flag: u8, value: bool)
        ensures
            final(self).flags == if value {
                old(self).flags | flag
            } else {
                old(self).flags & !flag
            },
            final(self).chars == old(self).chars,
            final(self).offsets == old(self).offsets,
            final(self).pos == old(self).pos,
            final(self).stored == old(self).stored,
    {
        if value {
            self.set_flag(flag);
        } else {
            self.unset_flag(flag);
        }
    }

    #[inline]
    fn flag(&self, flag: u8) -> (b: bool)
        ensures
            b == (self.flags & flag == flag),
    {
        (self.flags & flag) == flag
    }

    /// Nothing is left to scan but the end of the text: the call that reaches it
    /// hands out the same answer again on every later call.
    pub closed spec fn exhausted(&self) -> bool {
        self.stored is None && self.pending() == end_items(self.flags)
    }

    /// The next item with its range counted in characters.
    fn next_in_chars(&mut self) -> (r: Option<FormatItem>)
        requires
            old(self).wf(),
        ensures
            final(self).wf(),
            final(self).text() == old(self).text(),
            old(self).pending().len() == 0 ==> r is None,
            old(self).pending().len() > 0 ==> (r matches Some(x) && item_view(x) == old(
                self,
            ).pending()[0]),
            final(self).pending() == if old(self).exhausted() {
                old(self).pending()
            } else {
                old(self).pending().drop_first()
            },
            r matches Some(Ok(n)) ==> n.0.start <= n.0.end <= old(self).text().len(),
    {
        if self.stored.is_some() {
            let mut st: Option<FormatItem> = None;
            std::mem::swap(&mut st, &mut self.stored);
            proof {
                assert(old(self).pending().drop_first() == self.pending());
            }
            return st;
        }
        let len = self.chars.len();
        while self.pos < len
            invariant
                self.stored is None,
                self.pos <= len == self.chars.len(),
                old(self).wf(),
                self.chars == old(self).chars,
                self.offsets == old(self).offsets,
                self.flags == old(self).flags,
                old(self).stored is None,
                scan(self.chars@, self.pos as int, self.flags) == old(self).pending(),
            decreases len - self.pos,
        {
            let i = self.pos;
            let c = self.chars[i];
            let ghost s = self.chars@;
            if c == '\\' {
                if i + 1 < len && is_escapable_exec(self.chars[i + 1]) {
                    self.pos = i + 2;
                } else {
                    self.pos = i + 1;
                }
            } else if c == '`' {
                let n: usize = if i + 1 < len && self.chars[i + 1] == '`' {
                    if i + 2 < len && self.chars[i + 2] == '`' {
                        3
                    } else {
                        2
                    }
                } else {
                    1
                };
                assert(n == tick_run(s, i as int));
                let open: FormatItem = Ok((Range { start: i, end: i + n }, empty_replacement()));
                let flags = self.flags;
                proof {
                    lemma_find_ticks(s, i + n, n as int);
                }
                match find_ticks_exec(&self.chars, i + n, n) {
                    Some(j) => {
                        self.stored = Some(Ok((Range { start: j, end: j + n }, empty_replacement())));
                        self.pos = j + n;
                    },
                    None => {
                        self.stored = Some(Err(FormatError::Unclosed(flags)));
                        self.pos = len;
                    },
                }
                proof {
                    let items = scan(s, i as int, flags);
                    assert(items.drop_first() == self.pending());
                }
                return Some(open);
            } else if c == '*' {
                let w: usize = if i + 1 < len && self.chars[i + 1] == '*' {
                    2
                } else {
                    1
                };
                let flag = if w == 2 {
                    FLAG_BOLD
                } else {
                    FLAG_ITALIC
                };
                self.pos = i + w;
                self.toggle_flag(flag);
                let on = self.flag(flag);
                let rep = toggle_replacement(flag, on);
                proof {
                    let items = scan(s, i as int, old(self).flags);
                    assert(items.drop_first() == self.pending());
                }
                return Some(Ok((Range { start: i, end: i + w }, rep)));
            } else if (c == '_' || c == '|' || c == '~') && i + 1 < len && self.chars[i + 1] == c {
                let flag = if c == '_' {
                    FLAG_UNDERLINE
                } else if c == '|' {
                    FLAG_HIDDEN
                } else {
                    FLAG_STRIKETHROUGH
                };
                self.pos = i + 2;
                self.toggle_flag(flag);
                let on = self.flag(flag);
                let rep = toggle_replacement(flag, on);
                proof {
                    let items = scan(s, i as int, old(self).flags);
                    assert(items.drop_first() == self.pending());
                }
                return Some(Ok((Range { start: i, end: i + 2 }, rep)));
            } else {
                self.pos = i + 1;
            }
        }
        if self.flags != 0 {
            Some(Err(FormatError::Unclosed(self.flags)))
        } else {
            None
        }
    }

    /// The next delimiter, or the error that ends the scan, or `None` once the
    /// text is done with every style closed. Ranges count bytes of the text.
    pub fn next_node(&mut self) -> (r: Option<FormatItem>)
        requires
            old(self).wf(),
        ensures
            final(self).wf(),
            final(self).text() == old(self).text(),
            old(self).pending().len() == 0 ==> r is None,
            old(self).pending().len() > 0 ==> (r matches Some(x) && item_view(x)
                == format_item_in_bytes(old(self).text(), old(self).pending()[0])),
            final(self).pending() == if old(self).exhausted() {
                old(self).pending()
            } else {
                old(self).pending().drop_first()
            },
    {
        match self.next_in_chars() {
            Some(Ok((range, rep))) => {
                assert(self.offsets@[range.start as int] == byte_pos(self.text(), range.start as int));
                assert(self.offsets@[range.end as int] == byte_pos(self.text(), range.end as int));
                Some(
                    Ok((Range { start: self.offsets[range.start], end: self.offsets[range.end] }, rep)),
                )
            },
            other => other,
        }
    }
}

/// All delimiters of `s`, in order, with their ranges counted in characters, or the
/// first error met while scanning.
fn get_format_nodes(s: &str) -> (r: Result<Vec<FormatNode>, FormatError>)
    ensures
        match collect(scan(s@, 0, 0)) {
            Ok(nodes) => r matches Ok(v) && v@.map_values(|n: FormatNode| node_view(n)) == nodes,
            Err(f) => r == Err::<Vec<FormatNode>, FormatError>(FormatError::Unclosed(f)),
        },
{
    let mut it = FormatNodes::new(s);
    let mut out: Vec<FormatNode> = Vec::new();
    loop
        invariant
            it.wf(),
            it.text() == s@,
            collect(scan(s@, 0, 0)) == match collect(it.pending()) {
                Ok(rest) => Ok(out@.map_values(|n: FormatNode| node_view(n)) + rest),
                Err(f) => Err(f),
            },
        decreases it.pending().len(),
    {
        let ghost before = it.pending();
        match it.next_in_chars() {
            None => {
                assert(out@.map_values(|n: FormatNode| node_view(n)) + seq![] == out@.map_values(
                    |n: FormatNode| node_view(n),
                ));
                return Ok(out);
            },
            Some(Err(e)) => {
                return Err(e);
            },
            Some(Ok(n)) => {
                let ghost old_out = out@;
                out.push(n);
                proof {
                    assert(before[0] == Ok::<NodeView, u8>(node_view(n)));
                    assert(before != end_items(it.flags));
                    assert(it.pending() == before.drop_first());
                    assert(before == seq![before[0]] + before.drop_first());
                    lemma_collect_cons(node_view(n), before.drop_first());
                    
                    assert(out@.map_values(|n: FormatNode| node_view(n)) == old_out.map_values(
                        |n: FormatNode| node_view(n),
                    ).push(node_view(n)));
                    if let Ok(rest) = collect(it.pending()) {
                        assert(old_out.map_values(|n: FormatNode| node_view(n)) + (seq![node_view(n)]
                            + rest) == out@.map_values(|n: FormatNode| node_view(n)) + rest);
                    }
                }
            },
        }
    }
}

/// Converts all markup of `string` in place: each delimiter is replaced by its
/// escape sequence (or removed, for code spans). On error the string is left as it was.
pub fn format(string: &mut String) -> (r: Result<(), FormatError>)
    ensures
        match formatted(old(string)@) {
            Ok(out) => r is Ok && final(string)@ == out,
            Err(f) => r == Err::<(), FormatError>(FormatError::Unclosed(f)) && final(string)@ == old(
                string,
            )@,
        },
{
    let nodes = match get_format_nodes(string.as_str()) {
        Ok(v) => v,
        Err(e) => return Err(e),
    };
    let cs = str_to_chars(string.as_str());
    let ghost s = cs@;
    let ghost nv = nodes@.map_values(|n: FormatNode| node_view(n));
    proof {
        lemma_scan_ordered(s, 0, 0);
        assert(nv.skip(0) == nv);
    }
    let mut out = String::new();
    let mut p: usize = 0;
    let mut k: usize = 0;
    while k < nodes.len()
        invariant
            k <= nodes.len() == nv.len(),
            s == cs@,
            forall|m: int| 0 <= m < nv.len() ==> #[trigger] nv[m] == node_view(nodes@[m]),
            ordered(nv.skip(k as int), p as int, s.len() as int),
            apply(s, nv, 0) == out@ + apply(s, nv.skip(k as int), p as int),
        decreases nodes.len() - k,
    {
        let start = nodes[k].0.start;
        let end = nodes[k].0.end;
        let rep = nodes[k].1;
        proof {
            assert(nv.skip(k as int)[0] == nv[k as int]);
            assert(nv.skip(k as int).drop_first() == nv.skip(k + 1));
        }
        push_chars(&mut out, cs.as_slice(), p, start);
        let mut buf: [u8; 4] = [0; 4];
        let t = rep.encode_utf8(&mut buf);
        push_str(&mut out, t);
        p = end;
        k = k + 1;
    }
    push_chars(&mut out, cs.as_slice(), p, cs.len());
    *string = out;
    Ok(())
}

/// A character that can start markup.
pub open spec fn is_markup_char(c: char) -> bool {
    c == '`' || c == '*' || c == '_' || c == '|' || c == '~'
}

proof fn lemma_scan_plain(s: Seq<char>, i: int)
    requires
        0 <= i <= s.len(),
        forall|k: int| 0 <= k < s.len() ==> !is_markup_char(#[trigger] s[k]),
    ensures
        scan(s, i, 0) == Seq::<ItemView>::empty(),
    decreases s.len() - i,
{
    if i < s.len() {
        assert(!is_markup_char(s[i]));
        if s[i] == '\\' && i + 1 < s.len() && is_escapable(s[i + 1]) {
            assert(!is_markup_char(s[i + 1]));
        }
        lemma_scan_plain(s, i + 1);
    }
}

/// Formatting leaves text without any markup character unchanged.
pub proof fn format_keeps_plain_text(s: Seq<char>)
    requires
        forall|k: int| 0 <= k < s.len() ==> !is_markup_char(#[trigger] s[k]),
    ensures
        formatted(s) == Ok::<Seq<char>, u8>(s),
{
    lemma_scan_plain(s, 0);
    assert(s.subrange(0, s.len() as int) == s);
}

/// The texts that delimit markup.
pub open spec fn is_delimiter(d: Seq<char>) -> bool {
    ||| d == seq!['`']
    ||| d == seq!['`', '`']
    ||| d == seq!['`', '`', '`']
    ||| d == seq!['*']
    ||| d == seq!['*', '*']
    ||| d == seq!['_', '_']
    ||| d == seq!['|', '|']
    ||| d == seq!['~', '~']
}

/// A text made of backticks only.
pub open spec fn all_ticks(d: Seq<char>) -> bool {
    d.len() > 0 && forall|k: int| 0 <= k < d.len() ==> d[k] == '`'
}

/// A delimiter of the model lies in `s` from `i` to `end`, covers a delimiter
/// text, and is replaced by nothing exactly when it is made of backticks.
pub open spec fn node_placed(s: Seq<char>, n: NodeView, i: int, end: int) -> bool {
    &&& i <= n.0 < n.1 <= end
    &&& n.1 <= s.len()
    &&& is_delimiter(s.subrange(n.0, n.1))
    &&& (n.2.len() == 0 <==> all_ticks(s.subrange(n.0, n.1)))
}

/// Every delimiter among `items` is placed in `s` at or after `i`, and each
/// ends at or before the start of any later one.
pub open spec fn items_placed(s: Seq<char>, items: Seq<ItemView>, i: int) -> bool {
    &&& forall|k: int|
        0 <= k < items.len() ==> (#[trigger] items[k] matches Ok(n) ==> node_placed(
            s,
            n,
            i,
            s.len() as int,
        ))
    &&& forall|j: int, k: int|
        0 <= j < k < items.len() ==> (#[trigger] items[j] matches Ok(a) ==> (#[trigger] items[k] matches Ok(
            b,
        ) ==> a.1 <= b.0))
}

proof fn lemma_items_placed_cons(s: Seq<char>, x: ItemView, rest: Seq<ItemView>, i: int, next: int)
    requires
        x matches Ok(n) ==> node_placed(s, n, i, next),
        i <= next,
        items_placed(s, rest, next),
    ensures
        items_placed(s, seq![x] + rest, i),
{
    let all = seq![x] + rest;
    assert forall|k: int| 0 <= k < all.len() implies (#[trigger] all[k] matches Ok(n) ==> node_placed(
        s,
        n,
        i,
        s.len() as int,
    )) by {
        if k > 0 {
            assert(all[k] == rest[k - 1]);
        }
    }
    assert forall|j: int, k: int| 0 <= j < k < all.len() implies (#[trigger] all[j] matches Ok(a) ==> (
    #[trigger] all[k] matches Ok(b) ==> a.1 <= b.0)) by {
        assert(all[k] == rest[k - 1]);
        if j > 0 {
            assert(all[j] == rest[j - 1]);
        }
    }
}

proof fn lemma_end_items_placed(s: Seq<char>, flags: u8, i: int)
    ensures
        items_placed(s, end_items(flags), i),
{
}

/// Scanning from `i` hands out delimiters in order: each lies in the text at or
/// after `i`, covers one of the delimiter texts, is replaced by nothing exactly
/// when it is a run of backticks, and ends at or before the next one starts.
pub proof fn scan_items_are_placed(s: Seq<char>, i: int, flags: u8)
    requires
        0 <= i,
    ensures
        items_placed(s, scan(s, i, flags), i),
    decreases s.len() - i,
{
    if i >= s.len() {
        lemma_end_items_placed(s, flags, i);
    } else if s[i] == '\\' {
        let next = if i + 1 < s.len() && is_escapable(s[i + 1]) {
            i + 2
        } else {
            i + 1
        };
        scan_items_are_placed(s, next, flags);
    } else if s[i] == '`' {
        let n = tick_run(s, i);
        let open: ItemView = Ok((i, i + n, Seq::<char>::empty()));
        lemma_find_ticks(s, i + n, n);
        if n == 1 {
            assert(s.subrange(i, i + n) =~= seq!['`']);
        } else if n == 2 {
            assert(s.subrange(i, i + n) =~= seq!['`', '`']);
        } else {
            assert(s.subrange(i, i + n) =~= seq!['`', '`', '`']);
        }
        match find_ticks(s, i + n, n) {
            Some(j) => {
                let close: ItemView = Ok((j, j + n, Seq::<char>::empty()));
                let rest = scan(s, j + n, flags);
                scan_items_are_placed(s, j + n, flags);
                assert(ticks_at(s, j, n));
                assert(s[j + 0] == '`');
                if n == 1 {
                    assert(s.subrange(j, j + n) =~= seq!['`']);
                } else if n == 2 {
                    assert(s[j + 1] == '`');
                    assert(s.subrange(j, j + n) =~= seq!['`', '`']);
                } else {
                    assert(s[j + 1] == '`');
                    assert(s[j + 2] == '`');
                    assert(s.subrange(j, j + n) =~= seq!['`', '`', '`']);
                }
                lemma_items_placed_cons(s, close, rest, j, j + n);
                lemma_items_placed_cons(s, open, seq![close] + rest, i, j);
                assert(seq![open, close] + rest == seq![open] + (seq![close] + rest));
            },
            None => {
                let tail = seq![Err(flags)] + end_items(flags);
                lemma_end_items_placed(s, flags, i + n);
                lemma_items_placed_cons(s, Err(flags), end_items(flags), i + n, i + n);
                lemma_items_placed_cons(s, open, tail, i, i + n);
                assert(seq![open, Err(flags)] + end_items(flags) == seq![open] + tail);
            },
        }
    } else if s[i] == '*' {
        let w: int = if i + 1 < s.len() && s[i + 1] == '*' {
            2
        } else {
            1
        };
        let flag = if w == 2 {
            FLAG_BOLD
        } else {
            FLAG_ITALIC
        };
        let f = flags ^ flag;
        let x: ItemView = Ok((i, i + w, toggle_text(flag, f & flag == flag)));
        if w == 2 {
            assert(s.subrange(i, i + w) =~= seq!['*', '*']);
        } else {
            assert(s.subrange(i, i + w) =~= seq!['*']);
        }
        assert(s.subrange(i, i + w)[0] == '*');
        scan_items_are_placed(s, i + w, f);
        lemma_items_placed_cons(s, x, scan(s, i + w, f), i, i + w);
    } else if is_pair_char(s[i]) && i + 1 < s.len() && s[i + 1] == s[i] {
        let flag = pair_flag(s[i]);
        let f = flags ^ flag;
        let x: ItemView = Ok((i, i + 2, toggle_text(flag, f & flag == flag)));
        if s[i] == '_' {
            assert(s.subrange(i, i + 2) =~= seq!['_', '_']);
        } else if s[i] == '|' {
            assert(s.subrange(i, i + 2) =~= seq!['|', '|']);
        } else {
            assert(s.subrange(i, i + 2) =~= seq!['~', '~']);
        }
        assert(s.subrange(i, i + 2)[0] == s[i]);
        scan_items_are_placed(s, i + 2, f);
        lemma_items_placed_cons(s, x, scan(s, i + 2, f), i, i + 2);
    } else {
        scan_items_are_placed(s, i + 1, flags);
    }
}

/// A delimiter of the model, taken to bytes of the UTF-8 encoding of `s`, starts
/// and ends at character boundaries within the encoding, in that order.
pub open spec fn bytes_placed(s: Seq<char>, n: NodeView) -> bool {
    let b = node_in_bytes(s, n);
    &&& 0 <= b.0 < b.1 <= encode_utf8(s).len()
    &&& is_char_boundary(encode_utf8(s), b.0)
    &&& is_char_boundary(encode_utf8(s), b.1)
}

/// What a `FormatNodes` made for `s` hands out, call after call (its `pending`
/// items, which `next_node` hands out in turn with their ranges in bytes): every
/// delimiter starts and ends at a character boundary of the UTF-8 text, covers
/// one of the delimiter texts, is replaced by nothing exactly when it is a run
/// of backticks, and ends at or before the next one starts.
pub proof fn format_nodes_are_ordered(s: Seq<char>)
    ensures
        forall|k: int|
            0 <= k < scan(s, 0, 0).len() ==> (#[trigger] scan(s, 0, 0)[k] matches Ok(n) ==> {
                &&& bytes_placed(s, n)
                &&& is_delimiter(s.subrange(n.0, n.1))
                &&& (node_in_bytes(s, n).2.len() == 0 <==> all_ticks(s.subrange(n.0, n.1)))
            }),
        forall|j: int, k: int|
            0 <= j < k < scan(s, 0, 0).len() ==> (#[trigger] scan(s, 0, 0)[j] matches Ok(a) ==> (
            #[trigger] scan(s, 0, 0)[k] matches Ok(c) ==> node_in_bytes(s, a).1 <= node_in_bytes(
                s,
                c,
            ).0)),
{
    let items = scan(s, 0, 0);
    scan_items_are_placed(s, 0, 0);
    assert forall|k: int| 0 <= k < items.len() implies (#[trigger] items[k] matches Ok(n) ==> {
        &&& bytes_placed(s, n)
        &&& is_delimiter(s.subrange(n.0, n.1))
        &&& (node_in_bytes(s, n).2.len() == 0 <==> all_ticks(s.subrange(n.0, n.1)))
    }) by {
        if let Ok(n) = items[k] {
            assert(node_placed(s, n, 0, s.len() as int));
            lemma_byte_pos_order(s, n.0, n.1);
            lemma_byte_pos_order(s, n.1, s.len() as int);
            lemma_byte_pos_order(s, 0, n.0);
            lemma_byte_pos_boundary(s, n.0);
            lemma_byte_pos_boundary(s, n.1);
        }
    }
    assert forall|j: int, k: int| 0 <= j < k < items.len() implies (#[trigger] items[j] matches Ok(
        a,
    ) ==> (#[trigger] items[k] matches Ok(c) ==> node_in_bytes(s, a).1 <= node_in_bytes(s, c).0)) by {
        if let Ok(a) = items[j] {
            if let Ok(c) = items[k] {
                assert(node_placed(s, a, 0, s.len() as int));
                assert(node_placed(s, c, 0, s.len() as int));
                lemma_byte_pos_order(s, a.1, c.0);
            }
        }
    }
}

/// Text that neither markup nor a backslash can touch.
pub open spec fn is_plain_text(t: Seq<char>) -> bool {
    forall|k: int| 0 <= k < t.len() ==> !is_markup_char(#[trigger] t[k]) && t[k] != '\\'
}

proof fn lemma_scan_skips_plain(s: Seq<char>, i: int, e: int, flags: u8)
    requires
        0 <= i <= e <= s.len(),
        forall|k: int| i <= k < e ==> !is_markup_char(#[trigger] s[k]) && s[k] != '\\',
    ensures
        scan(s, i, flags) == scan(s, e, flags),
    decreases e - i,
{
    if i < e {
        assert(!is_markup_char(s[i]) && s[i] != '\\');
        lemma_scan_skips_plain(s, i + 1, e, flags);
    }
}

proof fn lemma_flag_bits(flag: u8)
    by (bit_vector)
    requires
        flag != 0,
    ensures
        0u8 ^ flag == flag,
        flag & flag == flag,
        flag ^ flag == 0u8,
        0u8 & flag != flag,
{
}

/// Formatting a style's delimiter `d` around plain text `t` gives the style's
/// switch-on text, `t`, then its switch-off text.
proof fn lemma_styled(d: Seq<char>, t: Seq<char>, flag: u8)
    requires
        is_plain_text(t),
        (d == seq!['*'] && flag == FLAG_ITALIC && t.len() > 0) || (d == seq!['*', '*'] && flag
            == FLAG_BOLD) || (d == seq!['_', '_'] && flag == FLAG_UNDERLINE) || (d == seq![
            '|',
            '|',
        ] && flag == FLAG_HIDDEN) || (d == seq!['~', '~'] && flag == FLAG_STRIKETHROUGH),
    ensures
        formatted(d + t + d) == Ok::<Seq<char>, u8>(
            toggle_text(flag, true) + t + toggle_text(flag, false),
        ),
{
    let s = d + t + d;
    let w = d.len() as int;
    let n = t.len() as int;
    let on = toggle_text(flag, true);
    let off = toggle_text(flag, false);
    lemma_flag_bits(flag);
    assert forall|k: int| w <= k < w + n implies !is_markup_char(#[trigger] s[k]) && s[k] != '\\' by {
        assert(s[k] == t[k - w]);
    }
    assert(s[0] == d[0]);
    assert(s[w + n] == d[0]);
    if w == 2 {
        assert(s[1] == d[1]);
        assert(s[w + n + 1] == d[1]);
    } else {
        assert(s[1] == t[0]);
    }
    lemma_scan_skips_plain(s, w, w + n, flag);
    let last: Seq<ItemView> = scan(s, 2 * w + n, 0);
    assert(last == Seq::<ItemView>::empty());
    let second: ItemView = Ok((w + n, 2 * w + n, off));
    let first: ItemView = Ok((0, w, on));
    assert(scan(s, w + n, flag) == seq![second] + last);
    assert(scan(s, 0, 0) == seq![first] + scan(s, w, flag));
    lemma_collect_cons((w + n, 2 * w + n, off), last);
    lemma_collect_cons((0, w, on), seq![second] + last);
    let nodes = seq![(0, w, on), (w + n, 2 * w + n, off)];
    let tail = seq![(w + n, 2 * w + n, off)];
    assert(collect(last) == Ok::<Seq<NodeView>, u8>(Seq::empty()));
    assert(seq![(w + n, 2 * w + n, off)] + Seq::<NodeView>::empty() =~= tail);
    assert(collect(seq![second] + last) == Ok::<Seq<NodeView>, u8>(tail));
    assert(seq![(0, w, on)] + tail =~= nodes);
    assert(collect(scan(s, 0, 0)) == Ok::<Seq<NodeView>, u8>(nodes));
    assert(nodes.drop_first() =~= tail);
    assert(tail.drop_first() =~= Seq::<NodeView>::empty());
    assert(s.subrange(0, 0) =~= Seq::<char>::empty());
    assert(s.subrange(w, w + n) =~= t);
    assert(s.subrange(2 * w + n, s.len() as int) =~= Seq::<char>::empty());
    assert(apply(s, Seq::<NodeView>::empty(), 2 * w + n) =~= Seq::<char>::empty());
    assert(apply(s, tail, w) =~= t + off);
    assert(apply(s, nodes, 0) =~= on + (t + off));
    assert(on + (t + off) =~= on + t + off);
}

/// Text between `*` is italic: formatting `*t*`, for non-empty plain text `t`,
/// gives ESC [ 3 m, then `t`, then ESC [ 2 3 m.
pub proof fn italic_is_sgr_3(t: Seq<char>)
    requires
        is_plain_text(t),
        t.len() > 0,
    ensures
        formatted(seq!['*'] + t + seq!['*']) == Ok::<Seq<char>, u8>(
            seq!['\x1b', '[', '3', 'm'] + t + seq!['\x1b', '[', '2', '3', 'm'],
        ),
{
    lemma_styled(seq!['*'], t, FLAG_ITALIC);
    assert(toggle_text(FLAG_ITALIC, true) == seq!['\x1b', '[', '3', 'm']);
    assert(toggle_text(FLAG_ITALIC, false) == seq!['\x1b', '[', '2', '3', 'm']);
}

/// Text between `**` is bold: formatting `**t**`, for plain text `t`, gives
/// ESC [ 1 m, then `t`, then ESC [ 2 2 m.
pub proof fn bold_is_sgr_1(t: Seq<char>)
    requires
        is_plain_text(t),
    ensures
        formatted(seq!['*', '*'] + t + seq!['*', '*']) == Ok::<Seq<char>, u8>(
            seq!['\x1b', '[', '1', 'm'] + t + seq!['\x1b', '[', '2', '2', 'm'],
        ),
{
    lemma_styled(seq!['*', '*'], t, FLAG_BOLD);
    assert(toggle_text(FLAG_BOLD, true) == seq!['\x1b', '[', '1', 'm']);
    assert(toggle_text(FLAG_BOLD, false) == seq!['\x1b', '[', '2', '2', 'm']);
}

/// Text between `__` is underlined: formatting `__t__`, for plain text `t`,
/// gives ESC [ 4 m, then `t`, then ESC [ 2 4 m.
pub proof fn underline_is_sgr_4(t: Seq<char>)
    requires
        is_plain_text(t),
    ensures
        formatted(seq!['_', '_'] + t + seq!['_', '_']) == Ok::<Seq<char>, u8>(
            seq!['\x1b', '[', '4', 'm'] + t + seq!['\x1b', '[', '2', '4', 'm'],
        ),
{
    lemma_styled(seq!['_', '_'], t, FLAG_UNDERLINE);
    assert(toggle_text(FLAG_UNDERLINE, true) == seq!['\x1b', '[', '4', 'm']);
    assert(toggle_text(FLAG_UNDERLINE, false) == seq!['\x1b', '[', '2', '4', 'm']);
}

/// Text between `||` is hidden: formatting `||t||`, for plain text `t`, gives
/// ESC [ 8 m, then `t`, then ESC [ 2 8 m.
pub proof fn hidden_is_sgr_8(t: Seq<char>)
    requires
        is_plain_text(t),
    ensures
        formatted(seq!['|', '|'] + t + seq!['|', '|']) == Ok::<Seq<char>, u8>(
            seq!['\x1b', '[', '8', 'm'] + t + seq!['\x1b', '[', '2', '8', 'm'],
        ),
{
    lemma_styled(seq!['|', '|'], t, FLAG_HIDDEN);
    assert(toggle_text(FLAG_HIDDEN, true) == seq!['\x1b', '[', '8', 'm']);
    assert(toggle_text(FLAG_HIDDEN, false) == seq!['\x1b', '[', '2', '8', 'm']);
}

/// Text between `~~` is struck through: formatting `~~t~~`, for plain text `t`,
/// gives ESC [ 9 m, then `t`, then ESC [ 2 9 m.
pub proof fn strikethrough_is_sgr_9(t: Seq<char>)
    requires
        is_plain_text(t),
    ensures
        formatted(seq!['~', '~'] + t + seq!['~', '~']) == Ok::<Seq<char>, u8>(
            seq!['\x1b', '[', '9', 'm'] + t + seq!['\x1b', '[', '2', '9', 'm'],
        ),
{
    lemma_styled(seq!['~', '~'], t, FLAG_STRIKETHROUGH);
    assert(toggle_text(FLAG_STRIKETHROUGH, true) == seq!['\x1b', '[', '9', 'm']);
    assert(toggle_text(FLAG_STRIKETHROUGH, false) == seq!['\x1b', '[', '2', '9', 'm']);
}

/// A code span keeps what it holds as it is: formatting `` `t` ``, for non-empty
/// `t` without a backtick, gives `t`, markup characters and backslashes included.
pub proof fn code_span_is_literal(t: Seq<char>)
    requires
        t.len() > 0,
        forall|k: int| 0 <= k < t.len() ==> #[trigger] t[k] != '`',
    ensures
        formatted(seq!['`'] + t + seq!['`']) == Ok::<Seq<char>, u8>(t),
{
    let s = seq!['`'] + t + seq!['`'];
    let n = t.len() as int;
    let e = Seq::<char>::empty();
    assert(s[0] == '`');
    assert(s[1] == t[0]);
    assert(s[n + 1] == '`');
    assert(tick_run(s, 0) == 1);
    lemma_find_ticks(s, 1, 1);
    assert(ticks_at(s, n + 1, 1)) by {
        assert(s[n + 1 + 0] == '`');
    }
    match find_ticks(s, 1, 1) {
        Some(k) => {
            assert(s[k + 0] == '`');
            if k <= n {
                assert(s[k] == t[k - 1]);
            }
            assert(k == n + 1);
        },
        None => {},
    }
    let first: ItemView = Ok((0, 1, e));
    let second: ItemView = Ok((n + 1, n + 2, e));
    let last = scan(s, n + 2, 0);
    assert(last == Seq::<ItemView>::empty());
    assert(scan(s, 0, 0) == seq![first, second] + last);
    assert(seq![first, second] + last =~= seq![first] + (seq![second] + last));
    lemma_collect_cons((n + 1, n + 2, e), last);
    lemma_collect_cons((0, 1, e), seq![second] + last);
    let tail = seq![(n + 1, n + 2, e)];
    let nodes = seq![(0, 1, e), (n + 1, n + 2, e)];
    assert(seq![(n + 1, n + 2, e)] + Seq::<NodeView>::empty() =~= tail);
    assert(seq![(0int, 1int, e)] + tail =~= nodes);
    assert(collect(scan(s, 0, 0)) == Ok::<Seq<NodeView>, u8>(nodes));
    assert(nodes.drop_first() =~= tail);
    assert(tail.drop_first() =~= Seq::<NodeView>::empty());
    assert(s.subrange(0, 0) =~= e);
    assert(s.subrange(1, n + 1) =~= t);
    assert(s.subrange(n + 2, s.len() as int) =~= e);
    assert(apply(s, Seq::<NodeView>::empty(), n + 2) =~= e);
    assert(apply(s, tail, 1) =~= t);
    assert(apply(s, nodes, 0) =~= t);
}

} // verus!
