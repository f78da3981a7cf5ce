//! Chat names and user names: what makes one valid, and how arbitrary text is
//! turned into a candidate name.
use vstd::prelude::*;

use crate::text::{lemma_encode_ascii_len, push_char, str_to_chars, utf8_len_exceeds};

verus! {

/// The White_Space characters of Unicode (what `char::is_whitespace` accepts).
pub open spec fn is_whitespace(c: char) -> bool {
    c == ' ' || ('\t' <= c && c <= '\r') || c == '\u{85}' || c == '\u{a0}' || c == '\u{1680}' || (
    '\u{2000}' <= c && c <= '\u{200a}') || c == '\u{2028}' || c == '\u{2029}' || c == '\u{202f}'
        || c == '\u{205f}' || c == '\u{3000}'
}

pub open spec fn is_ascii_lowercase(c: char) -> bool {
    'a' <= c && c <= 'z'
}

pub open spec fn is_ascii_digit(c: char) -> bool {
    '0' <= c && c <= '9'
}

pub open spec fn is_ascii_alphanumeric(c: char) -> bool {
    is_ascii_lowercase(c) || ('A' <= c && c <= 'Z') || is_ascii_digit(c)
}

/// Characters allowed in a chat name.
pub open spec fn is_chat_char(c: char) -> bool {
    is_ascii_lowercase(c) || is_ascii_digit(c) || c == '-'
}

/// Characters allowed in a user name.
pub open spec fn is_user_char(c: char) -> bool {
    is_ascii_alphanumeric(c) || c == '_'
}

pub(crate) fn is_whitespace_exec(c: char) -> (b: bool)
    ensures
        b == is_whitespace(c),
{
    c == ' ' || ('\t' <= c && c <= '\r') || c == '\u{85}' || c == '\u{a0}' || c == '\u{1680}' || (
    '\u{2000}' <= c && c <= '\u{200a}') || c == '\u{2028}' || c == '\u{2029}' || c == '\u{202f}'
        || c == '\u{205f}' || c == '\u{3000}'
}

fn is_ascii_lowercase_exec(c: char) -> (b: bool)
    ensures
        b == is_ascii_lowercase(c),
{
    'a' <= c && c <= 'z'
}

fn is_ascii_digit_exec(c: char) -> (b: bool)
    ensures
        b == is_ascii_digit(c),
{
    '0' <= c && c <= '9'
}

fn is_chat_char_exec(c: char) -> (b: bool)
    ensures
        b == is_chat_char(c),
{
    ('a' <= c && c <= 'z') || ('0' <= c && c <= '9') || c == '-'
}

fn is_user_char_exec(c: char) -> (b: bool)
    ensures
        b == is_user_char(c),
{
    ('a' <= c && c <= 'z') || ('A' <= c && c <= 'Z') || ('0' <= c && c <= '9') || c == '_'
}

/// The longest a name may be, in bytes.
pub const NAME_MAX_BYTES: usize = 255;

/// The first position at or after `k` whose character may start a chat name.
pub open spec fn chat_start(s: Seq<char>, k: int) -> int
    decreases s.len() - k,
{
    if k < 0 || k >= s.len() {
        s.len() as int
    } else if is_ascii_lowercase(s[k]) {
        k
    } else {
        chat_start(s, k + 1)
    }
}

/// The first position at or after `k` whose character is neither a digit nor whitespace.
pub open spec fn user_start(s: Seq<char>, k: int) -> int
    decreases s.len() - k,
{
    if k < 0 || k >= s.len() {
        s.len() as int
    } else if !(is_ascii_digit(s[k]) || is_whitespace(s[k])) {
        k
    } else {
        user_start(s, k + 1)
    }
}

/// The end of `s[a..e]` once trailing whitespace is removed.
pub open spec fn trimmed_end(s: Seq<char>, a: int, e: int) -> int
    decreases e - a,
{
    if e > a && is_whitespace(s[e - 1]) {
        trimmed_end(s, a, e - 1)
    } else {
        e
    }
}

pub open spec fn chat_char_or_underscore(c: char) -> char {
    if is_chat_char(c) {
        c
    } else {
        '_'
    }
}

pub open spec fn user_char_or_underscore(c: char) -> char {
    if is_user_char(c) {
        c
    } else {
        '_'
    }
}

/// What sanitizing `s` into a chat name gives: leading characters up to the first
/// lowercase letter and trailing whitespace are dropped, every other character
/// outside `a-z`, `0-9`, `-` becomes `_`, and the result is cut to the byte limit.
/// An underscore is no chat-name character, so a result that holds one is
/// refused by `ChatName::is_valid`: the user sees what must still change.
pub open spec fn sanitized_chat_name(s: Seq<char>) -> Seq<char> {
    let a = chat_start(s, 0);
    let b = trimmed_end(s, a, s.len() as int);
    let t = s.subrange(a, b).map_values(|c: char| chat_char_or_underscore(c));
    t.take(if t.len() > NAME_MAX_BYTES {
        NAME_MAX_BYTES as int
    } else {
        t.len() as int
    })
}

/// What sanitizing `s` into a user name gives: leading digits and whitespace and
/// trailing whitespace are dropped, every other character outside `a-z`, `A-Z`,
/// `0-9`, `_` becomes `_`, and the result is cut to the byte limit.
pub open spec fn sanitized_user_name(s: Seq<char>) -> Seq<char> {
    let a = user_start(s, 0);
    let b = trimmed_end(s, a, s.len() as int);
    let t = s.subrange(a, b).map_values(|c: char| user_char_or_underscore(c));
    t.take(if t.len() > NAME_MAX_BYTES {
        NAME_MAX_BYTES as int
    } else {
        t.len() as int
    })
}

/// Why a chat name was refused.
#[derive(Debug, Clone, Copy, PartialEq, Eq)]
pub enum ParseChatNameError {
    BadChar,
    TooLong,
}

/// Why a user name was refused.
#[derive(Debug, Clone, Copy, PartialEq, Eq)]
pub enum ParseUserNameError {
    BadChar,
    TooLong,
}

/// The text that explains a refused chat name to a user.
pub open spec fn chat_name_error_text(e: ParseChatNameError) -> Seq<char> {
    match e {
        ParseChatNameError::BadChar => "chat names may only contain a-z, 0-9, or -, and must start with a letter"@,
        ParseChatNameError::TooLong => "chat names have a maximum length of 255"@,
    }
}

/// The text that explains a refused user name to a user.
pub open spec fn user_name_error_text(e: ParseUserNameError) -> Seq<char> {
    match e {
        ParseUserNameError::BadChar => "usernames may only contain a-z, A-Z, 0-9, or _, and cannot start with a number"@,
        ParseUserNameError::TooLong => "usernames have a maximum length of 255"@,
    }
}

impl ParseChatNameError {
    /// The text that explains the error to a user.
    pub fn message(&self) -> (s: &'static str)
        ensures
            s@ == chat_name_error_text(*self),
    {
        match self {
            ParseChatNameError::BadChar => "chat names may only contain a-z, 0-9, or -, and must start with a letter",
            ParseChatNameError::TooLong => "chat names have a maximum length of 255",
        }
    }
}

impl ParseUserNameError {
    /// The text that explains the error to a user.
    pub fn message(&self) -> (s: &'static str)
        ensures
            s@ == user_name_error_text(*self),
    {
        match self {
            ParseUserNameError::BadChar => "usernames may only contain a-z, A-Z, 0-9, or _, and cannot start with a number",
            ParseUserNameError::TooLong => "usernames have a maximum length of 255",
        }
    }
}

/// The verdict on a candidate chat name.
pub open spec fn chat_name_check(s: Seq<char>) -> Result<(), ParseChatNameError> {
    if vstd::utf8::encode_utf8(s).len() > NAME_MAX_BYTES {
        Err(ParseChatNameError::TooLong)
    } else if !(s.len() > 0 && is_ascii_lowercase(s[0])) || exists|k: int|
        0 <= k < s.len() && !is_chat_char(#[trigger] s[k]) {
        Err(ParseChatNameError::BadChar)
    } else {
        Ok(())
    }
}

/// The verdict on a candidate user name.
pub open spec fn user_name_check(s: Seq<char>) -> Result<(), ParseUserNameError> {
    if vstd::utf8::encode_utf8(s).len() > NAME_MAX_BYTES {
        Err(ParseUserNameError::TooLong)
    } else if (s.len() > 0 && is_ascii_digit(s[0])) || exists|k: int|
        0 <= k < s.len() && !is_user_char(#[trigger] s[k]) {
        Err(ParseUserNameError::BadChar)
    } else {
        Ok(())
    }
}

/// The index of the first character of `cs` that fails `is_chat_char` (or the length).
fn first_bad_chat_char(cs: &Vec<char>) -> (k: usize)
    ensures
        k <= cs.len(),
        forall|m: int| 0 <= m < k ==> is_chat_char(#[trigger] cs@[m]),
        k < cs.len() ==> !is_chat_char(cs@[k as int]),
{
    let mut k: usize = 0;
    while k < cs.len()
        invariant
            k <= cs.len(),
            forall|m: int| 0 <= m < k ==> is_chat_char(#[trigger] cs@[m]),
        decreases cs.len() - k,
    {
        if !is_chat_char_exec(cs[k]) {
            return k;
        }
        k = k + 1;
    }
    k
}

fn first_bad_user_char(cs: &Vec<char>) -> (k: usize)
    ensures
        k <= cs.len(),
        forall|m: int| 0 <= m < k ==> is_user_char(#[trigger] cs@[m]),
        k < cs.len() ==> !is_user_char(cs@[k as int]),
{
    let mut k: usize = 0;
    while k < cs.len()
        invariant
            k <= cs.len(),
            forall|m: int| 0 <= m < k ==> is_user_char(#[trigger] cs@[m]),
        decreases cs.len() - k,
    {
        if !is_user_char_exec(cs[k]) {
            return k;
        }
        k = k + 1;
    }
    k
}

/// The end of `cs[a..]` once trailing whitespace is removed.
pub(crate) fn trim_end_index(cs: &Vec<char>, a: usize) -> (e: usize)
    requires
        a <= cs.len(),
    ensures
        e == trimmed_end(cs@, a as int, cs.len() as int),
        a <= e <= cs.len(),
{
    let mut e = cs.len();
    while e > a && is_whitespace_exec(cs[e - 1])
        invariant
            a <= e <= cs.len(),
            trimmed_end(cs@, a as int, cs.len() as int) == trimmed_end(cs@, a as int, e as int),
        decreases e,
    {
        e = e - 1;
    }
    e
}

/// A chat's name. Apart from the empty name of the global chat, every name is valid.
#[derive(Debug, PartialEq, Eq, PartialOrd, Ord, Hash)]
pub struct ChatName(String);

impl ChatName {
    pub const MAX_BYTES: usize = 255;

    /// The name is valid, or empty (the global chat).
    #[verifier::type_invariant]
    pub closed spec fn inv(self) -> bool {
        self.0@.len() == 0 || chat_name_check(self.0@) is Ok
    }

    /// The name's text.
    pub closed spec fn text(self) -> Seq<char> {
        self.0@
    }

    /// Truncate and convert illegal symbols, like spaces, into underscores.
    /// This is not built into parsing, so that the user can confirm the result
    /// (it might turn "`assets`" into "`ass`", or "`f𝓻𝓲𝓮𝓷𝓭𝓼`" into "`f______`").
    pub fn sanitize(s: &str) -> (res: String)
        ensures
            res@ == sanitized_chat_name(s@),
    {
        let cs = str_to_chars(s);
        let mut a: usize = 0;
        while a < cs.len() && !is_ascii_lowercase_exec(cs[a])
            invariant
                a <= cs.len(),
                chat_start(cs@, 0) == chat_start(cs@, a as int),
            decreases cs.len() - a,
        {
            a = a + 1;
        }
        let b = trim_end_index(&cs, a);
        let ghost t = cs@.subrange(a as int, b as int).map_values(|c: char| chat_char_or_underscore(c));
        let mut res = String::new();
        let mut j = a;
        while j < b && j - a < Self::MAX_BYTES
            invariant
                a <= j <= b <= cs.len(),
                j - a <= Self::MAX_BYTES,
                t == cs@.subrange(a as int, b as int).map_values(|c: char| chat_char_or_underscore(c)),
                res@ == t.take(j - a),
            decreases b - j,
        {
            let c = cs[j];
            let d = if is_chat_char_exec(c) {
                c
            } else {
                '_'
            };
            push_char(&mut res, d);
            j = j + 1;
            assert(res@ == t.take(j - a));
        }
        assert(t.len() == b - a);
        res
    }

    /// Tests whether a candidate name is allowed, giving the reason if it is not.
    pub fn is_valid(s: &str) -> (r: Result<(), ParseChatNameError>)
        ensures
            r == chat_name_check(s@),
    {
        let cs = str_to_chars(s);
        if utf8_len_exceeds(cs.as_slice(), Self::MAX_BYTES) {
            return Err(ParseChatNameError::TooLong);
        }
        if cs.len() == 0 || !is_ascii_lowercase_exec(cs[0]) {
            return Err(ParseChatNameError::BadChar);
        }
        let k = first_bad_chat_char(&cs);
        if k < cs.len() {
            Err(ParseChatNameError::BadChar)
        } else {
            Ok(())
        }
    }

    /// The chat name `value`, if it is valid.
    pub fn try_from_string(value: String) -> (r: Result<ChatName, ParseChatNameError>)
        ensures
            match chat_name_check(value@) {
                Ok(()) => r matches Ok(n) && n.text() == value@,
                Err(e) => r == Err::<ChatName, ParseChatNameError>(e),
            },
    {
        match Self::is_valid(value.as_str()) {
            Ok(()) => Ok(ChatName(value)),
            Err(e) => Err(e),
        }
    }

    /// The chat name `s`, if it is valid.
    pub fn parse(s: &str) -> (r: Result<ChatName, ParseChatNameError>)
        ensures
            match chat_name_check(s@) {
                Ok(()) => r matches Ok(n) && n.text() == s@,
                Err(e) => r == Err::<ChatName, ParseChatNameError>(e),
            },
    {
        Self::try_from_string(s.to_owned())
    }

    /// The empty name, which stands for the global chat.
    pub fn global() -> (r: ChatName)
        ensures
            r.text().len() == 0,
    {
        ChatName(String::new())
    }

    /// The name's text.
    pub fn as_str(&self) -> (r: &str)
        ensures
            r@ == self.text(),
    {
        self.0.as_str()
    }

    /// The two names have the same text.
    pub fn same(&self, other: &ChatName) -> (b: bool)
        ensures
            b == (self.text() == other.text()),
    {
        self.0 == other.0
    }

    /// This is the global chat's (empty) name.
    pub fn is_empty(&self) -> (b: bool)
        ensures
            b == (self.text().len() == 0),
    {
        self.0.as_str().is_empty()
    }
}

/// A user's name. Every user name is valid.
#[derive(Debug, PartialEq, Eq, PartialOrd, Ord, Hash)]
pub struct Username(String);

impl Username {
    pub const MAX_BYTES: usize = 255;

    #[verifier::type_invariant]
    pub closed spec fn inv(self) -> bool {
        user_name_check(self.0@) is Ok
    }

    /// The name's text.
    pub closed spec fn text(self) -> Seq<char> {
        self.0@
    }

    /// Truncate and convert illegal symbols, like spaces, into underscores.
    /// This is not built into parsing, so that the user can confirm the result.
    pub fn sanitize(s: &str) -> (res: String)
        ensures
            res@ == sanitized_user_name(s@),
    {
        let cs = str_to_chars(s);
        let mut a: usize = 0;
        while a < cs.len() && (is_ascii_digit_exec(cs[a]) || is_whitespace_exec(cs[a]))
            invariant
                a <= cs.len(),
                user_start(cs@, 0) == user_start(cs@, a as int),
            decreases cs.len() - a,
        {
            a = a + 1;
        }
        let b = trim_end_index(&cs, a);
        let ghost t = cs@.subrange(a as int, b as int).map_values(
            |c: char| user_char_or_underscore(c),
        );
        let mut res = String::new();
        let mut j = a;
        while j < b && j - a < Self::MAX_BYTES
            invariant
                a <= j <= b <= cs.len(),
                j - a <= Self::MAX_BYTES,
                t == cs@.subrange(a as int, b as int).map_values(
                    |c: char| user_char_or_underscore(c),
                ),
                res@ == t.take(j - a),
            decreases b - j,
        {
            let c = cs[j];
            let d = if is_user_char_exec(c) {
                c
            } else {
                '_'
            };
            push_char(&mut res, d);
            j = j + 1;
            assert(res@ == t.take(j - a));
        }
        assert(t.len() == b - a);
        res
    }

    /// Tests whether a candidate name is allowed, giving the reason if it is not.
    pub fn is_valid(s: &str) -> (r: Result<(), ParseUserNameError>)
        ensures
            r == user_name_check(s@),
    {
        let cs = str_to_chars(s);
        if utf8_len_exceeds(cs.as_slice(), Self::MAX_BYTES) {
            return Err(ParseUserNameError::TooLong);
        }
        if cs.len() > 0 && is_ascii_digit_exec(cs[0]) {
            return Err(ParseUserNameError::BadChar);
        }
        let k = first_bad_user_char(&cs);
        if k < cs.len() {
            Err(ParseUserNameError::BadChar)
        } else {
            Ok(())
        }
    }

    /// The user name `value`, if it is valid.
    pub fn try_from_string(value: String) -> (r: Result<Username, ParseUserNameError>)
        ensures
            match user_name_check(value@) {
                Ok(()) => r matches Ok(n) && n.text() == value@,
                Err(e) => r == Err::<Username, ParseUserNameError>(e),
            },
    {
        match Self::is_valid(value.as_str()) {
            Ok(()) => Ok(Username(value)),
            Err(e) => Err(e),
        }
    }

    /// The user name `s`, if it is valid.
    pub fn parse(s: &str) -> (r: Result<Username, ParseUserNameError>)
        ensures
            match user_name_check(s@) {
                Ok(()) => r matches Ok(n) && n.text() == s@,
                Err(e) => r == Err::<Username, ParseUserNameError>(e),
            },
    {
        Self::try_from_string(s.to_owned())
    }

    /// The name's text.
    pub fn as_str(&self) -> (r: &str)
        ensures
            r@ == self.text(),
    {
        self.0.as_str()
    }

    /// The two names have the same text.
    pub fn same(&self, other: &Username) -> (b: bool)
        ensures
            b == (self.text() == other.text()),
    {
        self.0 == other.0
    }
}

impl Clone for ChatName {
    fn clone(&self) -> (r: Self)
        ensures
            r == *self,
    {
        proof {
            use_type_invariant(self);
        }
        ChatName(self.0.clone())
    }
}

impl Default for ChatName {
    /// The global chat's (empty) name.
    fn default() -> (r: Self)
        ensures
            r.text().len() == 0,
    {
        ChatName(String::new())
    }
}

impl Clone for Username {
    fn clone(&self) -> (r: Self)
        ensures
            r == *self,
    {
        proof {
            use_type_invariant(self);
        }
        Username(self.0.clone())
    }
}

proof fn lemma_chat_start(s: Seq<char>, k: int)
    requires
        0 <= k <= s.len(),
    ensures
        k <= chat_start(s, k) <= s.len(),
        chat_start(s, k) < s.len() ==> is_ascii_lowercase(s[chat_start(s, k)]),
    decreases s.len() - k,
{
    if k < s.len() && !is_ascii_lowercase(s[k]) {
        lemma_chat_start(s, k + 1);
    }
}

proof fn lemma_user_start(s: Seq<char>, k: int)
    requires
        0 <= k <= s.len(),
    ensures
        k <= user_start(s, k) <= s.len(),
        user_start(s, k) < s.len() ==> !is_ascii_digit(s[user_start(s, k)]) && !is_whitespace(
            s[user_start(s, k)],
        ),
    decreases s.len() - k,
{
    if k < s.len() && (is_ascii_digit(s[k]) || is_whitespace(s[k])) {
        lemma_user_start(s, k + 1);
    }
}

proof fn lemma_trimmed_end(s: Seq<char>, a: int, e: int)
    requires
        0 <= a <= e <= s.len(),
    ensures
        a <= trimmed_end(s, a, e) <= e,
    decreases e - a,
{
    if e > a && is_whitespace(s[e - 1]) {
        lemma_trimmed_end(s, a, e - 1);
    }
}

/// A chat name made by sanitizing starts with a lowercase letter (unless it is
/// empty), holds only chat-name characters and underscores, all ASCII, and fits
/// the byte limit.
pub proof fn sanitized_chat_name_shape(s: Seq<char>)
    ensures
        ({
            let r = sanitized_chat_name(s);
            &&& r.len() <= NAME_MAX_BYTES
            &&& vstd::utf8::encode_utf8(r).len() == r.len()
            &&& r.len() > 0 ==> is_ascii_lowercase(r[0])
            &&& forall|k: int|
                0 <= k < r.len() ==> (is_chat_char(#[trigger] r[k]) || r[k] == '_') && !is_whitespace(
                    r[k],
                ) && (r[k] as u32) < 0x80
        }),
{
    let a = chat_start(s, 0);
    lemma_chat_start(s, 0);
    let b = trimmed_end(s, a, s.len() as int);
    lemma_trimmed_end(s, a, s.len() as int);
    let t = s.subrange(a, b).map_values(|c: char| chat_char_or_underscore(c));
    let r = sanitized_chat_name(s);
    assert forall|k: int| 0 <= k < r.len() implies (is_chat_char(#[trigger] r[k]) || r[k] == '_')
        && !is_whitespace(r[k]) && (r[k] as u32) < 0x80 by {
        assert(r[k] == t[k]);
        assert(t[k] == chat_char_or_underscore(s[a + k]));
    }
    if r.len() > 0 {
        assert(r[0] == chat_char_or_underscore(s[a]));
    }
    lemma_encode_ascii_len(r);
}

/// A user name made by sanitizing is always valid.
pub proof fn sanitized_user_name_is_valid(s: Seq<char>)
    ensures
        user_name_check(sanitized_user_name(s)) is Ok,
{
    let a = user_start(s, 0);
    lemma_user_start(s, 0);
    let b = trimmed_end(s, a, s.len() as int);
    lemma_trimmed_end(s, a, s.len() as int);
    let t = s.subrange(a, b).map_values(|c: char| user_char_or_underscore(c));
    let r = sanitized_user_name(s);
    assert(r.len() <= NAME_MAX_BYTES);
    assert forall|k: int| 0 <= k < r.len() implies is_user_char(#[trigger] r[k]) && (r[k] as u32)
        < 0x80 by {
        assert(r[k] == t[k]);
        assert(t[k] == user_char_or_underscore(s[a + k]));
    }
    if r.len() > 0 {
        assert(r[0] == user_char_or_underscore(s[a]));
    }
    lemma_encode_ascii_len(r);
}

/// Sanitizing leaves a valid user name as it is.
pub proof fn valid_user_name_is_kept(s: Seq<char>)
    requires
        user_name_check(s) is Ok,
    ensures
        sanitized_user_name(s) == s,
{
    assert forall|k: int| 0 <= k < s.len() implies is_user_char(#[trigger] s[k]) && (s[k] as u32)
        < 0x80 && !is_whitespace(s[k]) by {
        if !is_user_char(s[k]) {
            assert(exists|j: int| 0 <= j < s.len() && !is_user_char(#[trigger] s[j]));
        }
    }
    lemma_encode_ascii_len(s);
    assert(user_start(s, 0) == 0);
    assert(trimmed_end(s, 0, s.len() as int) == s.len());
    let t = s.subrange(0, s.len() as int).map_values(|c: char| user_char_or_underscore(c));
    assert(t == s);
    assert(t.take(t.len() as int) == t);
}

/// Sanitizing a user name a second time changes nothing.
pub proof fn sanitizing_user_name_is_idempotent(s: Seq<char>)
    ensures
        sanitized_user_name(sanitized_user_name(s)) == sanitized_user_name(s),
{
    sanitized_user_name_is_valid(s);
    valid_user_name_is_kept(sanitized_user_name(s));
}

/// Sanitizing leaves a valid chat name as it is.
pub proof fn valid_chat_name_is_kept(s: Seq<char>)
    requires
        chat_name_check(s) is Ok,
    ensures
        sanitized_chat_name(s) == s,
{
    assert forall|k: int| 0 <= k < s.len() implies is_chat_char(#[trigger] s[k]) && (s[k] as u32)
        < 0x80 && !is_whitespace(s[k]) by {
        if !is_chat_char(s[k]) {
            assert(exists|j: int| 0 <= j < s.len() && !is_chat_char(#[trigger] s[j]));
        }
    }
    lemma_encode_ascii_len(s);
    assert(chat_start(s, 0) == 0);
    assert(trimmed_end(s, 0, s.len() as int) == s.len());
    let t = s.subrange(0, s.len() as int).map_values(|c: char| chat_char_or_underscore(c));
    assert(t == s);
    assert(t.take(t.len() as int) == t);
}

/// Sanitizing a chat name a second time changes nothing.
pub proof fn sanitizing_chat_name_is_idempotent(s: Seq<char>)
    ensures
        sanitized_chat_name(sanitized_chat_name(s)) == sanitized_chat_name(s),
{
    let r = sanitized_chat_name(s);
    sanitized_chat_name_shape(s);
    assert(chat_start(r, 0) == 0);
    assert(trimmed_end(r, 0, r.len() as int) == r.len());
    let t = r.subrange(0, r.len() as int).map_values(|c: char| chat_char_or_underscore(c));
    assert(t == r);
    assert(t.take(t.len() as int) == t);
}

} // verus!
