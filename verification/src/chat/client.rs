//! What the client decides: how a command line splits into arguments, which
//! request a command makes, and how typed lines become a message.
use vstd::prelude::*;

use crate::chat::ident::{IdSet, IdView, Identifier};
use crate::chat::message::{
    attachments_view, messages_view, AttachmentView, Attachment, DestView, Destination, MemberDiff, Message,
    MsgView, Timestamp, UserMessage, UserMessageView, MAX_ATTACHMENTS,
};
use crate::escapes::{unescape, unescaped, UnescapeError};
use crate::names::{is_whitespace, is_whitespace_exec, trim_end_index, trimmed_end, ChatName, Username};
use crate::text::{push_char, push_chars, push_str, str_to_chars};

verus! {

/// A character that opens and closes a quoted argument.
pub open spec fn is_delimiter(c: char) -> bool {
    c == '"' || c == '\'' || c == '`'
}

/// The first position at or after `i` that holds no whitespace.
pub open spec fn skip_whitespace(s: Seq<char>, i: int) -> int
    decreases s.len() - i,
{
    if i < 0 || i >= s.len() {
        s.len() as int
    } else if is_whitespace(s[i]) {
        skip_whitespace(s, i + 1)
    } else {
        i
    }
}

/// The first position at or after `i` that holds whitespace.
pub open spec fn word_end(s: Seq<char>, i: int) -> int
    decreases s.len() - i,
{
    if i < 0 || i >= s.len() {
        s.len() as int
    } else if is_whitespace(s[i]) {
        i
    } else {
        word_end(s, i + 1)
    }
}

/// The position of the first `delim` at or after `i` that no unescaped `\`
/// precedes; `escaped` tells whether the character before `i` is such a `\`.
pub open spec fn closing_at(s: Seq<char>, delim: char, i: int, escaped: bool) -> Option<int>
    decreases s.len() - i,
{
    if i < 0 || i >= s.len() {
        None
    } else if !escaped && s[i] == delim {
        Some(i)
    } else {
        closing_at(s, delim, i + 1, !escaped && s[i] == '\\')
    }
}

/// The next argument from position `pos` on: its text, where the rest starts,
/// and whether a quoted argument lacks its closing delimiter.
pub open spec fn next_arg(s: Seq<char>, pos: int) -> Option<(Seq<char>, int, bool)> {
    let p = skip_whitespace(s, pos);
    if p >= s.len() {
        None
    } else if is_delimiter(s[p]) {
        match closing_at(s, s[p], p + 1, false) {
            Some(c) => Some((s.subrange(p + 1, c), c + 1, false)),
            None => Some((s.subrange(p + 1, s.len() as int), s.len() as int, true)),
        }
    } else {
        let e = word_end(s, p);
        Some((s.subrange(p, e), e, false))
    }
}

/// Splits a command line into arguments: words end at whitespace; a quoted
/// argument runs to its closing delimiter (`"`, `'` or `` ` ``) that no `\`
/// escapes, without the delimiters; escapes are left as they are.
pub struct CliArgs {
    chars: Vec<char>,
    pos: usize,
}

impl CliArgs {
    #[verifier::type_invariant]
    closed spec fn inv(self) -> bool {
        self.pos <= self.chars@.len()
    }

    /// The text being split, without trailing whitespace.
    pub closed spec fn text(self) -> Seq<char> {
        self.chars@
    }

    /// Where the rest of the text starts.
    pub closed spec fn position(self) -> int {
        self.pos as int
    }

    /// Arguments from `input`, whose trailing whitespace is dropped.
    pub fn new(input: &str) -> (r: CliArgs)
        ensures
            r.text() == input@.take(trimmed_end(input@, 0, input@.len() as int)),
            r.position() == 0,
    {
        let cs = str_to_chars(input);
        let e = trim_end_index(&cs, 0);
        let mut chars: Vec<char> = Vec::new();
        let mut i: usize = 0;
        while i < e
            invariant
                i <= e <= cs.len(),
                chars@ == cs@.take(i as int),
            decreases e - i,
        {
            chars.push(cs[i]);
            i = i + 1;
            assert(chars@ == cs@.take(i as int));
        }
        CliArgs { chars, pos: 0 }
    }

    /// Takes a quoted argument, which starts at the current position with its
    /// delimiter. Also tells whether the closing delimiter is missing.
    pub fn extract_string(&mut self) -> (r: (String, bool))
        requires
            old(self).position() < old(self).text().len(),
            is_delimiter(old(self).text()[old(self).position()]),
        ensures
            final(self).text() == old(self).text(),
            next_arg(old(self).text(), old(self).position()) == Some(
                (r.0@, final(self).position(), r.1),
            ),
    {
        proof {
            use_type_invariant(&*self);
        }
        let ghost s = self.chars@;
        let ghost p = self.pos as int;
        assert(skip_whitespace(s, p) == p);
        let delim = self.chars[self.pos];
        let n = self.chars.len();
        let mut i = self.pos + 1;
        let mut escaped = false;
        while i < n
            invariant
                p + 1 <= i <= n == s.len(),
                s == self.chars@,
                s == old(self).text(),
                p == self.pos,
                p == old(self).position(),
                skip_whitespace(s, p) == p,
                is_delimiter(s[p]),
                delim == s[p],
                closing_at(s, delim, p + 1, false) == closing_at(s, delim, i as int, escaped),
            decreases n - i,
        {
            let ch = self.chars[i];
            if !escaped && ch == delim {
                let mut arg = String::new();
                push_chars(&mut arg, self.chars.as_slice(), self.pos + 1, i);
                self.pos = i + 1;
                return (arg, false);
            }
            escaped = !escaped && ch == '\\';
            i = i + 1;
        }
        let mut arg = String::new();
        push_chars(&mut arg, self.chars.as_slice(), self.pos + 1, n);
        self.pos = n;
        (arg, true)
    }

    /// Takes the text up to the next whitespace, from the current position,
    /// which holds no whitespace.
    pub fn extract_word(&mut self) -> (r: String)
        requires
            old(self).position() < old(self).text().len(),
            !is_whitespace(old(self).text()[old(self).position()]),
            !is_delimiter(old(self).text()[old(self).position()]),
        ensures
            final(self).text() == old(self).text(),
            next_arg(old(self).text(), old(self).position()) == Some(
                (r@, final(self).position(), false),
            ),
    {
        proof {
            use_type_invariant(&*self);
        }
        let ghost s = self.chars@;
        let ghost p = self.pos as int;
        assert(skip_whitespace(s, p) == p);
        let n = self.chars.len();
        let mut i = self.pos;
        while i < n && !is_whitespace_exec(self.chars[i])
            invariant
                p <= i <= n == s.len(),
                s == self.chars@,
                p == self.pos,
                word_end(s, p) == word_end(s, i as int),
            decreases n - i,
        {
            i = i + 1;
        }
        let mut word = String::new();
        push_chars(&mut word, self.chars.as_slice(), self.pos, i);
        self.pos = i;
        word
    }

    /// The next argument, and whether it is quoted without its closing delimiter;
    /// nothing once only whitespace is left.
    pub fn next(&mut self) -> (r: Option<(String, bool)>)
        ensures
            final(self).text() == old(self).text(),
            match r {
                Some((a, missing)) => next_arg(old(self).text(), old(self).position()) == Some(
                    (a@, final(self).position(), missing),
                ),
                None => next_arg(old(self).text(), old(self).position()) is None,
            },
    {
        proof {
            use_type_invariant(&*self);
        }
        let ghost s = self.chars@;
        let ghost p0 = self.pos as int;
        let n = self.chars.len();
        let mut i = self.pos;
        while i < n && is_whitespace_exec(self.chars[i])
            invariant
                p0 <= i <= n == s.len(),
                s == self.chars@,
                skip_whitespace(s, p0) == skip_whitespace(s, i as int),
            decreases n - i,
        {
            i = i + 1;
        }
        if i >= n {
            self.pos = n;
            return None;
        }
        self.pos = i;
        proof {
            assert(next_arg(s, p0) == next_arg(s, i as int));
        }
        let c = self.chars[i];
        if c == '"' || c == '\'' || c == '`' {
            Some(self.extract_string())
        } else {
            Some((self.extract_word(), false))
        }
    }
}

/// Why a command failed, where the command itself decides.
#[derive(Debug, Clone, Copy, PartialEq, Eq)]
pub enum CommandError {
    /// The message has as many attachments as it may have.
    TooManyAttachments,
    /// A direct conversation has no member list.
    EditDm,
    /// The global chat has no member list.
    EditGlobal,
    /// The attachment asked for does not exist.
    AtchNexists,
    /// The alternative text of an attachment holds an escape that cannot be read.
    BadAltText(UnescapeError),
}

/// The request that switches to `destination`: it becomes the current
/// destination, and its ten newest messages are asked for.
pub fn switch_chat(curr_dest: &mut Destination, destination: Destination) -> (r: Message)
    ensures
        final(curr_dest)@ == destination@,
        r@ == (MsgView::Get { source: destination@, range: (0, 10) }),
{
    *curr_dest = destination;
    Message::Get { source: curr_dest.clone(), range: (0, 10) }
}

/// The request that creates a chat; the new chat becomes the current destination.
pub fn create_chat(curr_dest: &mut Destination, chat: ChatName, members: IdSet) -> (r: Message)
    ensures
        final(curr_dest)@ == DestView::Chat(chat.text()),
        r@ == (MsgView::CreateChat { chat: chat.text(), members: members@ }),
{
    let r = Message::CreateChat { chat: chat.clone(), members };
    *curr_dest = Destination::Chat(chat);
    r
}

/// Which way a member list changes, from the `--add` and `--remove` switches,
/// which exclude each other; adding is the default.
pub fn member_diff(add: bool, remove: bool) -> (r: MemberDiff)
    requires
        !(add && remove),
    ensures
        r == (if remove {
            MemberDiff::Remove
        } else {
            MemberDiff::Add
        }),
{
    if remove {
        MemberDiff::Remove
    } else {
        MemberDiff::Add
    }
}

/// The chat whose members a command edits: the one named, else the current
/// destination's, which must be a chat, and never the global chat.
pub open spec fn edit_target(curr_dest: DestView, chat: Option<Seq<char>>) -> Result<
    Seq<char>,
    CommandError,
> {
    let target = match chat {
        Some(c) => Ok(c),
        None => match curr_dest {
            DestView::Client(_) => Err(CommandError::EditDm),
            DestView::Chat(c) => Ok(c),
        },
    };
    match target {
        Ok(c) => if c.len() == 0 {
            Err(CommandError::EditGlobal)
        } else {
            Ok(c)
        },
        Err(e) => Err(e),
    }
}

/// The request that adds members to a chat or removes them.
pub fn edit_chat_membership(
    curr_dest: &Destination,
    chat: Option<&ChatName>,
    members: IdSet,
    addrem: MemberDiff,
) -> (r: Result<Message, CommandError>)
    ensures
        match edit_target(
            curr_dest@,
            match chat {
                Some(c) => Some(c.text()),
                None => None,
            },
        ) {
            Ok(c) => r matches Ok(m) && m@ == (MsgView::ModifyChatMembers {
                addrem,
                chat: c,
                members: members@,
            }),
            Err(e) => r == Err::<Message, CommandError>(e),
        },
{
    let target = match chat {
        Some(c) => c,
        None => match curr_dest {
            Destination::Client(_) => {
                return Err(CommandError::EditDm);
            },
            Destination::Chat(c) => c,
        },
    };
    if target.is_empty() {
        return Err(CommandError::EditGlobal);
    }
    Ok(Message::ModifyChatMembers { addrem, chat: target.clone(), members })
}

/// The request that logs in.
pub fn log_in(username: Username, password: String) -> (r: Message)
    ensures
        r@ == (MsgView::Login { username: username.text(), password: password@ }),
{
    Message::Login { username, password }
}

/// The first attachment from index `i` on with the given file name.
pub open spec fn attachment_named(a: Seq<AttachmentView>, name: Seq<char>, i: int) -> Option<int>
    decreases a.len() - i,
{
    if i < 0 || i >= a.len() {
        None
    } else if a[i].filename == name {
        Some(i)
    } else {
        attachment_named(a, name, i + 1)
    }
}

proof fn lemma_attachment_named(a: Seq<AttachmentView>, name: Seq<char>, i: int)
    ensures
        attachment_named(a, name, i) matches Some(k) ==> i <= k < a.len() && a[k].filename == name,
    decreases a.len() - i,
{
    if 0 <= i < a.len() && a[i].filename != name {
        lemma_attachment_named(a, name, i + 1);
    }
}

/// The attachment of the newest message that a command asks for, by index or by
/// file name.
pub open spec fn chosen_attachment(
    history: Seq<UserMessageView>,
    file_index: Option<u8>,
    filename: Option<Seq<char>>,
) -> Option<int> {
    if history.len() == 0 {
        None
    } else {
        let a = history.last().attachments;
        match (file_index, filename) {
            (None, Some(f)) => attachment_named(a, f, 0),
            (Some(i), _) => if (i as int) < a.len() {
                Some(i as int)
            } else {
                None
            },
            (None, None) => None,
        }
    }
}

/// Which attachment of the newest message to save: the one at `file_index`, or
/// the first named `filename`. Exactly one of the two is given.
pub fn save_attachment(
    message_history: &[UserMessage],
    file_index: Option<u8>,
    filename: Option<&str>,
) -> (r: Result<usize, CommandError>)
    requires
        file_index.is_some() != filename.is_some(),
    ensures
        match chosen_attachment(
            messages_view(message_history@),
            file_index,
            match filename {
                Some(f) => Some(f@),
                None => None,
            },
        ) {
            Some(i) => (r matches Ok(j) && j as int == i),
            None => r == Err::<usize, CommandError>(CommandError::AtchNexists),
        },
        r matches Ok(i) ==> message_history@.len() > 0 && i < message_history@.last().attachments@.len(),
{
    let ghost h = messages_view(message_history@);
    if message_history.len() == 0 {
        return Err(CommandError::AtchNexists);
    }
    let last = &message_history[message_history.len() - 1];
    assert(h.last() == last@);
    let ghost a = attachments_view(last.attachments@);
    proof {
        if let Some(f) = filename {
            lemma_attachment_named(a, f@, 0);
        }
    }
    match file_index {
        Some(index) => {
            if (index as usize) < last.attachments.len() {
                Ok(index as usize)
            } else {
                Err(CommandError::AtchNexists)
            }
        },
        None => {
            let name = match filename {
                Some(f) => f,
                None => {
                    return Err(CommandError::AtchNexists);
                },
            };
            let target = name.to_owned();
            let n = last.attachments.len();
            let mut i: usize = 0;
            while i < n
                invariant
                    i <= n == last.attachments@.len(),
                    a == attachments_view(last.attachments@),
                    target@ == name@,
                    h == messages_view(message_history@),
                    h.len() > 0,
                    h.last() == last@,
                    file_index is None,
                    filename == Some(name),
                    attachment_named(a, name@, 0) == attachment_named(a, name@, i as int),
                decreases n - i,
            {
                if last.attachments[i].filename == target {
                    return Ok(i);
                }
                i = i + 1;
            }
            Err(CommandError::AtchNexists)
        },
    }
}

/// There is room for one more attachment.
pub fn room_for_attachment(incomplete_message: &UserMessage) -> (r: Result<(), CommandError>)
    ensures
        r is Ok <==> incomplete_message.attachments@.len() < MAX_ATTACHMENTS,
        r matches Err(e) ==> e == CommandError::TooManyAttachments,
{
    if incomplete_message.attachments.len() >= MAX_ATTACHMENTS {
        Err(CommandError::TooManyAttachments)
    } else {
        Ok(())
    }
}

/// Adds an attachment to the message being written, if there is room.
pub fn attach_to_message(incomplete_message: &mut UserMessage, attachment: Attachment) -> (r: Result<
    (),
    CommandError,
>)
    ensures
        r is Ok <==> old(incomplete_message).attachments@.len() < MAX_ATTACHMENTS,
        r matches Err(e) ==> e == CommandError::TooManyAttachments,
        r is Ok ==> final(incomplete_message)@ == (UserMessageView {
            attachments: old(incomplete_message)@.attachments.push(attachment@),
            ..old(incomplete_message)@
        }),
        r is Err ==> final(incomplete_message)@ == old(incomplete_message)@,
{
    room_for_attachment(incomplete_message)?;
    let ghost before = incomplete_message.attachments@;
    incomplete_message.attachments.push(attachment);
    assert(attachments_view(incomplete_message.attachments@) =~= attachments_view(before).push(
        incomplete_message.attachments@.last()@,
    ));
    Ok(())
}

/// The text of a message after one more typed line: the line without its
/// trailing whitespace, on a line of its own after any text there is.
pub open spec fn with_line(text: Seq<char>, line: Seq<char>) -> Seq<char> {
    let l = line.take(trimmed_end(line, 0, line.len() as int));
    if text.len() == 0 {
        l
    } else {
        text.push('\n') + l
    }
}

/// Adds a typed line to the message being written.
pub fn add_line(incomplete_message: &mut UserMessage, line: &str)
    ensures
        final(incomplete_message)@ == (UserMessageView {
            text: with_line(old(incomplete_message)@.text, line@),
            ..old(incomplete_message)@
        }),
{
    let cs = str_to_chars(line);
    let e = trim_end_index(&cs, 0);
    if !incomplete_message.text.as_str().is_empty() {
        push_char(&mut incomplete_message.text, '\n');
    }
    push_chars(&mut incomplete_message.text, cs.as_slice(), 0, e);
    assert(cs@.subrange(0, e as int) == line@.take(e as int));
}

impl Default for UserMessage {
    /// An empty message to the global chat, from nobody, at the Unix epoch.
    fn default() -> (r: Self)
        ensures
            r@ == (UserMessageView {
                sender: None,
                destination: DestView::Chat(Seq::empty()),
                timestamp: Timestamp { secs: 0, nanos: 0 },
                text: Seq::empty(),
                attachments: Seq::empty(),
            }),
    {
        let r = UserMessage {
            sender: None,
            destination: Destination::default(),
            timestamp: Timestamp { secs: 0, nanos: 0 },
            text: String::new(),
            attachments: Vec::new(),
        };
        assert(attachments_view(r.attachments@) =~= Seq::<AttachmentView>::empty());
        r
    }
}

/// How chrono writes the UTC moment `secs` seconds and `nanos` nanoseconds after
/// the Unix epoch (the text of its `NaiveDateTime`), or `None` where chrono
/// cannot represent that moment.
pub uninterp spec fn chrono_utc_text(secs: i64, nanos: u32) -> Option<Seq<char>>;

pub open spec fn optional_text(o: Option<String>) -> Option<Seq<char>> {
    match o {
        Some(t) => Some(t@),
        None => None,
    }
}

/// Calls `chrono::DateTime::<Utc>::from_timestamp` and writes the moment with
/// `naive_utc().to_string()` (for a UTC moment the same text as `naive_local`,
/// with no time zone of the machine involved). Trusted: the result is a function
/// of the two numbers alone, named `chrono_utc_text`.
#[verifier::external_body]
fn utc_text(secs: i64, nanos: u32) -> (r: Option<String>)
    ensures
        optional_text(r) == chrono_utc_text(secs, nanos),
{
    match chrono::DateTime::from_timestamp(secs, nanos) {
        Some(t) => Some(t.naive_utc().to_string()),
        None => None,
    }
}

/// The text of the moment a message was sent, as shown with it: chrono's text
/// for the moment, or `?` for a moment chrono cannot represent.
pub open spec fn shown_time(t: Option<Seq<char>>) -> Seq<char> {
    match t {
        Some(x) => x,
        None => "?"@,
    }
}

/// The text that shows a received message, its time written by chrono.
/// `addr_text` is how the sender's address is written, used when the sender is a socket.
pub fn show_message(msg: &UserMessage, addr_text: &str) -> (r: String)
    ensures
        r@ == display_text(
            msg@,
            addr_text@,
            shown_time(chrono_utc_text(msg.timestamp.secs, msg.timestamp.nanos)),
        ),
{
    let time = match utc_text(msg.timestamp.secs, msg.timestamp.nanos) {
        Some(t) => t,
        None => {
            let mut t = String::new();
            push_str(&mut t, "?");
            t
        },
    };
    display_message(msg, addr_text, time.as_str())
}

/// Finishes the message being written: it goes to the current destination, and
/// an empty message takes its place.
pub fn take_message(incomplete_message: &mut UserMessage, curr_dest: &Destination) -> (r: Message)
    ensures
        r@ == MsgView::User((UserMessageView { destination: curr_dest@, ..old(incomplete_message)@ })),
        final(incomplete_message)@ == (UserMessageView {
            sender: None,
            destination: DestView::Chat(Seq::empty()),
            timestamp: Timestamp { secs: 0, nanos: 0 },
            text: Seq::empty(),
            attachments: Seq::empty(),
        }),
{
    let mut m = UserMessage::default();
    std::mem::swap(&mut m, incomplete_message);
    m.destination = curr_dest.clone();
    Message::User(m)
}

/// How the sender of a message is shown: an address in blue, a user in cyan,
/// nobody (the server) in black.
pub open spec fn sender_text(sender: Option<IdView>, addr_text: Seq<char>) -> Seq<char> {
    match sender {
        Some(IdView::Socket(_)) => "\x1b[94m"@ + addr_text,
        Some(IdView::User(name)) => "\x1b[96m"@ + name,
        None => "\x1b[30m[null]"@,
    }
}

/// Where a message was sent, shown for chats only.
pub open spec fn place_text(d: DestView) -> Seq<char> {
    match d {
        DestView::Chat(c) => "\x1b[90m in "@ + if c.len() == 0 {
            "\x1b[92mglobal"@
        } else {
            "\x1b[94m"@ + c
        },
        DestView::Client(_) => Seq::empty(),
    }
}

/// One line per attachment: its alternative text and its file name.
pub open spec fn attachment_lines(a: Seq<AttachmentView>) -> Seq<char>
    decreases a.len(),
{
    if a.len() == 0 {
        Seq::empty()
    } else {
        attachment_lines(a.drop_last()) + "- ["@ + a.last().alt_text + "]("@ + a.last().filename
            + ")\n"@
    }
}

/// How a received message is shown, given the text of the sender's address and
/// of the time it was sent.
pub open spec fn display_text(m: UserMessageView, addr_text: Seq<char>, time_text: Seq<char>) -> Seq<
    char,
> {
    "\x1b[90mfrom "@ + sender_text(m.sender, addr_text) + place_text(m.destination)
        + "\x1b[90m at "@ + time_text + "\x1b[90m:\x1b[0m\n"@ + m.text + "\n"@ + if m.attachments.len()
        > 0 {
        "\x1b[90mattachments:\x1b[94m\n"@ + attachment_lines(m.attachments)
    } else {
        Seq::empty()
    } + "\x1b[90m------\x1b[0m\n"@
}

/// The text that shows a received message. `addr_text` is how the sender's
/// address is written, used when the sender is a socket; `time_text` is the
/// time the message was sent, as it should be shown.
pub fn display_message(msg: &UserMessage, addr_text: &str, time_text: &str) -> (r: String)
    ensures
        r@ == display_text(msg@, addr_text@, time_text@),
{
    let mut out = String::new();
    push_str(&mut out, "\x1b[90mfrom ");
    let ghost a = out@;
    match &msg.sender {
        Some(Identifier::Socket(_)) => {
            push_str(&mut out, "\x1b[94m");
            push_str(&mut out, addr_text);
        },
        Some(Identifier::User(name)) => {
            push_str(&mut out, "\x1b[96m");
            push_str(&mut out, name.as_str());
        },
        None => {
            push_str(&mut out, "\x1b[30m[null]");
        },
    }
    assert(out@ =~= a + sender_text(msg@.sender, addr_text@));
    let ghost b = out@;
    match &msg.destination {
        Destination::Chat(chat) => {
            push_str(&mut out, "\x1b[90m in ");
            if chat.is_empty() {
                push_str(&mut out, "\x1b[92mglobal");
            } else {
                push_str(&mut out, "\x1b[94m");
                push_str(&mut out, chat.as_str());
            }
        },
        Destination::Client(_) => {},
    }
    assert(out@ =~= b + place_text(msg@.destination));
    push_str(&mut out, "\x1b[90m at ");
    push_str(&mut out, time_text);
    push_str(&mut out, "\x1b[90m:\x1b[0m\n");
    push_str(&mut out, msg.text.as_str());
    push_str(&mut out, "\n");
    let ghost c = out@;
    let ghost av = attachments_view(msg.attachments@);
    if msg.attachments.len() > 0 {
        push_str(&mut out, "\x1b[90mattachments:\x1b[94m\n");
        let ghost d = out@;
        let mut i: usize = 0;
        assert(av.take(0) == Seq::<AttachmentView>::empty());
        assert(d + attachment_lines(av.take(0)) == d);
        while i < msg.attachments.len()
            invariant
                i <= msg.attachments@.len(),
                av == attachments_view(msg.attachments@),
                out@ == d + attachment_lines(av.take(i as int)),
            decreases msg.attachments.len() - i,
        {
            let at = &msg.attachments[i];
            let ghost e = out@;
            push_str(&mut out, "- [");
            push_str(&mut out, at.alt_text.as_str());
            push_str(&mut out, "](");
            push_str(&mut out, at.filename.as_str());
            push_str(&mut out, ")\n");
            proof {
                let t = av.take(i + 1);
                assert(t.drop_last() == av.take(i as int));
                assert(t.last() == at@);
                assert(out@ =~= d + attachment_lines(t));
            }
            i = i + 1;
        }
        assert(av.take(msg.attachments@.len() as int) == av);
        assert(out@ =~= c + ("\x1b[90mattachments:\x1b[94m\n"@ + attachment_lines(av)));
    } else {
        assert(out@ =~= c + Seq::<char>::empty());
    }
    push_str(&mut out, "\x1b[90m------\x1b[0m\n");
    assert(out@ =~= display_text(msg@, addr_text@, time_text@));
    out
}

/// The end of `s[..e]` once trailing line breaks (`\n`, `\r`) are removed.
pub open spec fn line_end(s: Seq<char>, e: int) -> int
    decreases e,
{
    if e > 0 && (s[e - 1] == '\n' || s[e - 1] == '\r') {
        line_end(s, e - 1)
    } else {
        e
    }
}

/// A line read from the terminal, without its line breaks; nothing when the
/// line is `/exit` or `exit`, which end input.
pub fn input_line(raw: &str) -> (r: Option<String>)
    ensures
        ({
            let t = raw@.take(line_end(raw@, raw@.len() as int));
            if t == "exit"@ || t == "/exit"@ {
                r is None
            } else {
                r matches Some(x) && x@ == t
            }
        }),
{
    let cs = str_to_chars(raw);
    let mut e = cs.len();
    while e > 0 && (cs[e - 1] == '\n' || cs[e - 1] == '\r')
        invariant
            e <= cs.len(),
            cs@ == raw@,
            line_end(raw@, raw@.len() as int) == line_end(raw@, e as int),
        decreases e,
    {
        e = e - 1;
    }
    let mut line = String::new();
    push_chars(&mut line, cs.as_slice(), 0, e);
    assert(cs@.subrange(0, e as int) == raw@.take(e as int));
    if line == "exit".to_owned() || line == "/exit".to_owned() {
        None
    } else {
        Some(line)
    }
}

/// A command typed after `/`.
#[derive(Debug, PartialEq, Eq)]
pub enum Command {
    /// Change which chat to send messages in.
    SetChat { destination: Destination },
    /// Create a new chat with some users.
    CreateChat { name: ChatName, members: Vec<Identifier> },
    /// Edit the member list of a chat, by default the current one.
    ModifyChat { chat: Option<ChatName>, add: bool, remove: bool, members: Vec<Identifier> },
    /// Save an attachment of the newest message, chosen by index or by file name,
    /// to the given path or by default under its own file name.
    SaveAttachment { file_index: Option<u8>, filename: Option<String>, output: Option<String> },
    /// Add a file to the message being written.
    Attach { alt_text: String, file: String },
    /// Tell the server who you are.
    Login { username: Username, password: String },
}

/// What the client does to carry out a command.
#[derive(Debug, PartialEq, Eq)]
pub enum Action {
    /// Send a request to the server.
    Send(Message),
    /// Write an attachment's data to a new file at `path`.
    Save { path: String, data: Vec<u8> },
    /// Read the file at `file` and attach it with the alternative text (its
    /// escapes converted), there being room for it.
    Attach { file: String, alt_text: String },
}

/// A command's arguments that the command line parser guarantees: `--add` and
/// `--remove` exclude each other, and an attachment is chosen by exactly one of
/// index and file name.
pub open spec fn command_well_formed(c: Command) -> bool {
    match c {
        Command::ModifyChat { add, remove, .. } => !(add && remove),
        Command::SaveAttachment { file_index, filename, .. } => file_index.is_some()
            != filename.is_some(),
        _ => true,
    }
}

impl Command {
    /// Decides what a command does: the request it sends, the file it saves or
    /// the file it attaches, and how the current destination changes.
    pub fn run(
        self,
        curr_dest: &mut Destination,
        incomplete_message: &UserMessage,
        message_history: &[UserMessage],
    ) -> (r: Result<Action, CommandError>)
        requires
            command_well_formed(self),
        ensures
            match self {
                Command::SetChat { destination } => final(curr_dest)@ == destination@ && (r matches Ok(
                    Action::Send(m),
                ) && m@ == (MsgView::Get { source: destination@, range: (0, 10) })),
                Command::CreateChat { name, members } => final(curr_dest)@ == DestView::Chat(
                    name.text(),
                ) && (r matches Ok(Action::Send(m)) && m@ == (MsgView::CreateChat {
                    chat: name.text(),
                    members: crate::chat::ident::union_with(
                        Seq::empty(),
                        crate::chat::ident::ids_view(members@),
                    ),
                })),
                Command::ModifyChat { chat, add, remove, members } => final(curr_dest)@
                    == old(curr_dest)@ && match edit_target(
                    old(curr_dest)@,
                    match chat {
                        Some(c) => Some(c.text()),
                        None => None,
                    },
                ) {
                    Ok(c) => r matches Ok(Action::Send(m)) && m@ == (MsgView::ModifyChatMembers {
                        addrem: if remove {
                            MemberDiff::Remove
                        } else {
                            MemberDiff::Add
                        },
                        chat: c,
                        members: crate::chat::ident::union_with(
                            Seq::empty(),
                            crate::chat::ident::ids_view(members@),
                        ),
                    }),
                    Err(e) => r == Err::<Action, CommandError>(e),
                },
                Command::SaveAttachment { file_index, filename, output } => final(curr_dest)@
                    == old(curr_dest)@ && match chosen_attachment(
                    messages_view(message_history@),
                    file_index,
                    match filename {
                        Some(f) => Some(f@),
                        None => None,
                    },
                ) {
                    Some(i) => r matches Ok(Action::Save { path, data }) && data@
                        == message_history@.last().attachments@[i].data@ && path@ == match output {
                        Some(o) => o@,
                        None => message_history@.last().attachments@[i].filename@,
                    },
                    None => r == Err::<Action, CommandError>(CommandError::AtchNexists),
                },
                Command::Attach { alt_text, file } => final(curr_dest)@ == old(curr_dest)@ && if incomplete_message.attachments@.len()
                    < MAX_ATTACHMENTS {
                    match unescaped(alt_text@) {
                        Ok(text) => r matches Ok(Action::Attach { file: f, alt_text: a }) && f@
                            == file@ && a@ == text,
                        Err(e) => r == Err::<Action, CommandError>(CommandError::BadAltText(e)),
                    }
                } else {
                    r == Err::<Action, CommandError>(CommandError::TooManyAttachments)
                },
                Command::Login { username, password } => final(curr_dest)@ == old(curr_dest)@
                    && (r matches Ok(Action::Send(m)) && m@ == (MsgView::Login {
                    username: username.text(),
                    password: password@,
                })),
            },
    {
        match self {
            Command::SetChat { destination } => Ok(Action::Send(switch_chat(curr_dest, destination))),
            Command::CreateChat { name, members } => {
                let set = IdSet::from_vec(members);
                Ok(Action::Send(create_chat(curr_dest, name, set)))
            },
            Command::ModifyChat { chat, add, remove, members } => {
                let set = IdSet::from_vec(members);
                let request = edit_chat_membership(
                    curr_dest,
                    chat.as_ref(),
                    set,
                    member_diff(add, remove),
                )?;
                Ok(Action::Send(request))
            },
            Command::SaveAttachment { file_index, filename, output } => {
                let name = match &filename {
                    Some(f) => Some(f.as_str()),
                    None => None,
                };
                let i = save_attachment(message_history, file_index, name)?;
                proof {
                    assert(messages_view(message_history@).last() == message_history@.last()@);
                }
                let last = &message_history[message_history.len() - 1];
                assert(*last == message_history@.last());
                let attachment = &last.attachments[i];
                assert(*attachment == message_history@.last().attachments@[i as int]);
                let path = match output {
                    Some(o) => o,
                    None => attachment.filename.clone(),
                };
                let data = vstd::slice::slice_to_vec(attachment.data.as_slice());
                Ok(Action::Save { path, data })
            },
            Command::Attach { alt_text, file } => {
                room_for_attachment(incomplete_message)?;
                let mut alt_text = alt_text;
                match unescape(&mut alt_text) {
                    Ok(()) => Ok(Action::Attach { file, alt_text }),
                    Err(e) => Err(CommandError::BadAltText(e)),
                }
            },
            Command::Login { username, password } => Ok(Action::Send(log_in(username, password))),
        }
    }
}

/// What a typed line is: a command after `/`, the empty line that sends the
/// message being written, or one more line of it.
#[derive(Debug, PartialEq, Eq)]
pub enum Input {
    Command(String),
    Send,
    Line(String),
}

/// Sorts a typed line.
pub fn classify_input(text: &str) -> (r: Input)
    ensures
        text@.len() > 0 && text@[0] == '/' ==> (r matches Input::Command(c) && c@
            == text@.drop_first()),
        text@.len() == 0 ==> r == Input::Send,
        text@.len() > 0 && text@[0] != '/' ==> (r matches Input::Line(l) && l@ == text@),
{
    let cs = str_to_chars(text);
    if cs.len() == 0 {
        Input::Send
    } else if cs[0] == '/' {
        let mut c = String::new();
        push_chars(&mut c, cs.as_slice(), 1, cs.len());
        assert(cs@.subrange(1, cs@.len() as int) == text@.drop_first());
        Input::Command(c)
    } else {
        Input::Line(text.to_owned())
    }
}

/// The number of backslashes that stand right before position `k`, not counting
/// any before position `j`.
pub open spec fn backslashes_before(s: Seq<char>, j: int, k: int) -> nat
    decreases k - j,
{
    if k <= j || s[k - 1] != '\\' {
        0
    } else {
        1 + backslashes_before(s, j, k - 1)
    }
}

proof fn lemma_closing_at(s: Seq<char>, delim: char, j: int, i: int)
    requires
        0 <= j <= i,
    ensures
        ({
            let esc = backslashes_before(s, j, i) % 2 == 1;
            match closing_at(s, delim, i, esc) {
                Some(c) => {
                    &&& i <= c < s.len()
                    &&& s[c] == delim
                    &&& backslashes_before(s, j, c) % 2 == 0
                    &&& forall|m: int|
                        i <= m < c && s[m] == delim ==> #[trigger] backslashes_before(s, j, m) % 2
                            == 1
                },
                None => forall|m: int|
                    i <= m < s.len() && s[m] == delim ==> #[trigger] backslashes_before(s, j, m) % 2
                        == 1,
            }
        }),
    decreases s.len() - i,
{
    if i < s.len() {
        let esc = backslashes_before(s, j, i) % 2 == 1;
        assert(backslashes_before(s, j, i + 1) == if s[i] == '\\' {
            1 + backslashes_before(s, j, i)
        } else {
            0
        });
        assert((backslashes_before(s, j, i + 1) % 2 == 1) == (!esc && s[i] == '\\'));
        lemma_closing_at(s, delim, j, i + 1);
    }
}

/// A quoted argument ends at the first copy of its opening delimiter that an even
/// number of backslashes precedes (counted from just after the opening one): a
/// backslash escapes the next character unless it is itself escaped. The text is
/// what lies between; without such a delimiter the argument runs to the end and
/// lacks its closing one.
pub proof fn quoted_argument_ends_at_unescaped_delimiter(s: Seq<char>, pos: int)
    requires
        0 <= pos,
        skip_whitespace(s, pos) < s.len(),
        is_delimiter(s[skip_whitespace(s, pos)]),
    ensures
        ({
            let p = skip_whitespace(s, pos);
            let d = s[p];
            &&& next_arg(s, pos) is Some
            &&& next_arg(s, pos) matches Some((a, next, missing)) && if missing {
                &&& a == s.subrange(p + 1, s.len() as int)
                &&& next == s.len()
                &&& forall|m: int|
                    p + 1 <= m < s.len() && s[m] == d ==> #[trigger] backslashes_before(s, p + 1, m)
                        % 2 == 1
            } else {
                &&& p + 1 <= next - 1 < s.len()
                &&& s[next - 1] == d
                &&& a == s.subrange(p + 1, next - 1)
                &&& backslashes_before(s, p + 1, next - 1) % 2 == 0
                &&& forall|m: int|
                    p + 1 <= m < next - 1 && s[m] == d ==> #[trigger] backslashes_before(
                        s,
                        p + 1,
                        m,
                    ) % 2 == 1
            }
        }),
{
    let p = skip_whitespace(s, pos);
    assert(p >= 0) by {
        lemma_skip_whitespace_bounds(s, pos);
    }
    assert(backslashes_before(s, p + 1, p + 1) == 0);
    lemma_closing_at(s, s[p], p + 1, p + 1);
}

proof fn lemma_skip_whitespace_bounds(s: Seq<char>, i: int)
    requires
        0 <= i,
    ensures
        i <= skip_whitespace(s, i) || skip_whitespace(s, i) == s.len(),
    decreases s.len() - i,
{
    if i < s.len() && is_whitespace(s[i]) {
        lemma_skip_whitespace_bounds(s, i + 1);
    }
}

proof fn lemma_skip_whitespace(s: Seq<char>, i: int)
    requires
        0 <= i,
    ensures
        i <= skip_whitespace(s, i) || (i > s.len() && skip_whitespace(s, i) == s.len()),
        skip_whitespace(s, i) <= s.len() || i > s.len(),
        forall|k: int| i <= k < skip_whitespace(s, i) ==> is_whitespace(#[trigger] s[k]),
        skip_whitespace(s, i) < s.len() ==> !is_whitespace(s[skip_whitespace(s, i)]),
    decreases s.len() - i,
{
    if i < s.len() && is_whitespace(s[i]) {
        lemma_skip_whitespace(s, i + 1);
    }
}

proof fn lemma_word_end(s: Seq<char>, i: int)
    requires
        0 <= i <= s.len(),
    ensures
        i <= word_end(s, i) <= s.len(),
        forall|k: int| i <= k < word_end(s, i) ==> !is_whitespace(#[trigger] s[k]),
        word_end(s, i) < s.len() ==> is_whitespace(s[word_end(s, i)]),
    decreases s.len() - i,
{
    if i < s.len() && !is_whitespace(s[i]) {
        lemma_word_end(s, i + 1);
    }
}

/// Arguments are separated by whitespace: from `pos`, leading whitespace is
/// skipped; if nothing else is left there is no argument, and an argument that
/// does not open with a quote is the longest run of characters without
/// whitespace, never empty, and the rest starts right after it.
pub proof fn word_argument_runs_to_whitespace(s: Seq<char>, pos: int)
    requires
        0 <= pos <= s.len(),
    ensures
        next_arg(s, pos) is None <==> forall|k: int| pos <= k < s.len() ==> is_whitespace(
            #[trigger] s[k],
        ),
        !is_delimiter(s[skip_whitespace(s, pos)]) ==> (next_arg(s, pos) matches Some(
            (a, next, missing),
        ) ==> {
            let p = skip_whitespace(s, pos);
            &&& pos <= p < next <= s.len()
            &&& forall|k: int| pos <= k < p ==> is_whitespace(#[trigger] s[k])
            &&& a == s.subrange(p, next)
            &&& !missing
            &&& forall|k: int| 0 <= k < a.len() ==> !is_whitespace(#[trigger] a[k])
            &&& (next == s.len() || is_whitespace(s[next]))
        }),
{
    let p = skip_whitespace(s, pos);
    lemma_skip_whitespace(s, pos);
    if p < s.len() {
        assert(!is_whitespace(s[p]));
        if !is_delimiter(s[p]) {
            lemma_word_end(s, p);
            let e = word_end(s, p);
            assert forall|k: int| 0 <= k < s.subrange(p, e).len() implies !is_whitespace(
                #[trigger] s.subrange(p, e)[k],
            ) by {
                assert(s.subrange(p, e)[k] == s[p + k]);
            }
        }
    }
}

} // verus!
