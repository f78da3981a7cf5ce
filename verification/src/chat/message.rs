//! What clients and the server send each other.
use vstd::prelude::*;
use vstd::slice::slice_to_vec;

use crate::chat::ident::{IdSet, IdView, Identifier, SocketAddress};
use crate::names::{ChatName, ParseChatNameError, ParseUserNameError, Username};
use crate::text::str_to_chars;

verus! {

/// The most attachments a message can carry.
pub const MAX_ATTACHMENTS: usize = 8;

/// A moment, as seconds and nanoseconds since the Unix epoch, in UTC.
#[derive(Debug, Clone, Copy, PartialEq, Eq, Structural, Hash)]
pub struct Timestamp {
    pub secs: i64,
    pub nanos: u32,
}

/// Arbitrary data sent alongside a message, which the recipient can save as a file.
#[derive(Debug, PartialEq, Eq)]
pub struct Attachment {
    pub filename: String,
    pub alt_text: String,
    pub data: Vec<u8>,
}

/// What an attachment holds.
pub struct AttachmentView {
    pub filename: Seq<char>,
    pub alt_text: Seq<char>,
    pub data: Seq<u8>,
}

impl View for Attachment {
    type V = AttachmentView;

    open spec fn view(&self) -> AttachmentView {
        AttachmentView { filename: self.filename@, alt_text: self.alt_text@, data: self.data@ }
    }
}

impl Attachment {
    /// A copy of the attachment.
    pub fn duplicate(&self) -> (r: Attachment)
        ensures
            r@ == self@,
    {
        Attachment {
            filename: self.filename.clone(),
            alt_text: self.alt_text.clone(),
            data: slice_to_vec(self.data.as_slice()),
        }
    }
}

/// Where a message goes: a named group chat (the empty name is the global chat),
/// or one client.
#[derive(Debug, PartialEq, Eq)]
pub enum Destination {
    Chat(ChatName),
    Client(Identifier),
}

/// A destination as the contracts see it.
pub enum DestView {
    Chat(Seq<char>),
    Client(IdView),
}

impl View for Destination {
    type V = DestView;

    open spec fn view(&self) -> DestView {
        match self {
            Destination::Chat(c) => DestView::Chat(c.text()),
            Destination::Client(id) => DestView::Client(id@),
        }
    }
}

impl Clone for Destination {
    fn clone(&self) -> (r: Self)
        ensures
            r@ == self@,
    {
        match self {
            Destination::Chat(c) => Destination::Chat(c.clone()),
            Destination::Client(id) => Destination::Client(id.clone()),
        }
    }
}

impl Default for Destination {
    /// The global chat.
    fn default() -> (r: Self)
        ensures
            r@ == DestView::Chat(Seq::<char>::empty()),
    {
        let c = ChatName::global();
        assert(c.text() =~= Seq::<char>::empty());
        let r = Destination::Chat(c);
        assert(r@ == DestView::Chat(Seq::<char>::empty()));
        r
    }
}

/// Why a destination was refused.
#[derive(Debug, Clone, Copy, PartialEq, Eq)]
pub enum ParseDestinationError {
    /// After `#`: not a chat name.
    Chat(ParseChatNameError),
    /// After `@`: not a user name.
    User(ParseUserNameError),
    /// Without a prefix: not a socket address.
    Socket,
}

/// Why an identifier was refused.
#[derive(Debug, Clone, Copy, PartialEq, Eq)]
pub enum ParseIdentifierError {
    /// It has a `:` but is not a socket address.
    Socket,
    /// It is not a user name.
    Username(ParseUserNameError),
}

/// The verdict on a text that names a destination, given what the text reads as a
/// socket address, if anything.
pub open spec fn destination_of(s: Seq<char>, socket: Option<SocketAddress>) -> Result<
    DestView,
    ParseDestinationError,
> {
    if s.len() > 0 && s[0] == '#' {
        match crate::names::chat_name_check(s.drop_first()) {
            Ok(()) => Ok(DestView::Chat(s.drop_first())),
            Err(e) => Err(ParseDestinationError::Chat(e)),
        }
    } else if s.len() > 0 && s[0] == '@' {
        match crate::names::user_name_check(s.drop_first()) {
            Ok(()) => Ok(DestView::Client(IdView::User(s.drop_first()))),
            Err(e) => Err(ParseDestinationError::User(e)),
        }
    } else {
        match socket {
            Some(a) => Ok(DestView::Client(IdView::Socket(a))),
            None => Err(ParseDestinationError::Socket),
        }
    }
}

/// The verdict on a text that names an identifier, given what the text reads as a
/// socket address, if anything.
pub open spec fn identifier_of(s: Seq<char>, socket: Option<SocketAddress>) -> Result<
    IdView,
    ParseIdentifierError,
> {
    if s.contains(':') {
        match socket {
            Some(a) => Ok(IdView::Socket(a)),
            None => Err(ParseIdentifierError::Socket),
        }
    } else {
        match crate::names::user_name_check(s) {
            Ok(()) => Ok(IdView::User(s)),
            Err(e) => Err(ParseIdentifierError::Username(e)),
        }
    }
}

fn contains_colon(cs: &[char]) -> (b: bool)
    ensures
        b == cs@.contains(':'),
{
    let mut i: usize = 0;
    while i < cs.len()
        invariant
            i <= cs.len(),
            forall|j: int| 0 <= j < i ==> cs@[j] != ':',
        decreases cs.len() - i,
    {
        if cs[i] == ':' {
            assert(cs@[i as int] == ':');
            return true;
        }
        i = i + 1;
    }
    false
}

impl Identifier {
    /// Reads an identifier: a socket address when the text holds a `:`, else a
    /// user name. `socket` is what the text reads as a socket address, if anything.
    pub fn parse(s: &str, socket: Option<SocketAddress>) -> (r: Result<Identifier, ParseIdentifierError>)
        ensures
            match r {
                Ok(id) => identifier_of(s@, socket) == Ok::<IdView, ParseIdentifierError>(id@),
                Err(e) => identifier_of(s@, socket) == Err::<IdView, ParseIdentifierError>(e),
            },
    {
        let cs = str_to_chars(s);
        if contains_colon(cs.as_slice()) {
            match socket {
                Some(a) => Ok(Identifier::Socket(a)),
                None => Err(ParseIdentifierError::Socket),
            }
        } else {
            match Username::parse(s) {
                Ok(u) => Ok(Identifier::User(u)),
                Err(e) => Err(ParseIdentifierError::Username(e)),
            }
        }
    }
}

impl Destination {
    /// Reads a destination: `#` and a chat name, `@` and a user name, or else a
    /// socket address. `socket` is what the text reads as a socket address, if anything.
    pub fn parse(s: &str, socket: Option<SocketAddress>) -> (r: Result<Destination, ParseDestinationError>)
        ensures
            match r {
                Ok(d) => destination_of(s@, socket) == Ok::<DestView, ParseDestinationError>(d@),
                Err(e) => destination_of(s@, socket) == Err::<DestView, ParseDestinationError>(e),
            },
    {
        let cs = str_to_chars(s);
        if cs.len() > 0 && (cs[0] == '#' || cs[0] == '@') {
            let mut rest = String::new();
            crate::text::push_chars(&mut rest, cs.as_slice(), 1, cs.len());
            assert(cs@.subrange(1, cs@.len() as int) == s@.drop_first());
            if cs[0] == '#' {
                match ChatName::try_from_string(rest) {
                    Ok(c) => Ok(Destination::Chat(c)),
                    Err(e) => Err(ParseDestinationError::Chat(e)),
                }
            } else {
                match Username::try_from_string(rest) {
                    Ok(u) => Ok(Destination::Client(Identifier::User(u))),
                    Err(e) => Err(ParseDestinationError::User(e)),
                }
            }
        } else {
            match socket {
                Some(a) => Ok(Destination::Client(Identifier::Socket(a))),
                None => Err(ParseDestinationError::Socket),
            }
        }
    }
}

/// A message written by a user: text and files.
#[derive(Debug, PartialEq, Eq)]
pub struct UserMessage {
    /// Who sent it; the server fills this in. `None` stands for the server.
    pub sender: Option<Identifier>,
    /// Where it goes.
    pub destination: Destination,
    /// When it was made.
    pub timestamp: Timestamp,
    /// The text.
    pub text: String,
    /// At most [`MAX_ATTACHMENTS`] attachments.
    pub attachments: Vec<Attachment>,
}

/// What a user message holds.
pub struct UserMessageView {
    pub sender: Option<IdView>,
    pub destination: DestView,
    pub timestamp: Timestamp,
    pub text: Seq<char>,
    pub attachments: Seq<AttachmentView>,
}

pub open spec fn attachments_view(a: Seq<Attachment>) -> Seq<AttachmentView> {
    a.map_values(|x: Attachment| x@)
}

pub open spec fn sender_view(s: Option<Identifier>) -> Option<IdView> {
    match s {
        Some(id) => Some(id@),
        None => None,
    }
}

impl View for UserMessage {
    type V = UserMessageView;

    open spec fn view(&self) -> UserMessageView {
        UserMessageView {
            sender: sender_view(self.sender),
            destination: self.destination@,
            timestamp: self.timestamp,
            text: self.text@,
            attachments: attachments_view(self.attachments@),
        }
    }
}

/// Copies of the attachments, in order.
pub fn duplicate_attachments(a: &Vec<Attachment>) -> (r: Vec<Attachment>)
    ensures
        attachments_view(r@) == attachments_view(a@),
{
    let mut r: Vec<Attachment> = Vec::new();
    let mut i: usize = 0;
    while i < a.len()
        invariant
            i <= a.len(),
            r@.len() == i,
            forall|j: int| 0 <= j < i ==> (#[trigger] r@[j])@ == a@[j]@,
        decreases a.len() - i,
    {
        r.push(a[i].duplicate());
        i = i + 1;
    }
    assert(attachments_view(r@) == attachments_view(a@));
    r
}

impl UserMessage {
    /// A message to `destination`, from nobody yet, made at `timestamp`.
    pub fn new(
        destination: Destination,
        text: String,
        attachments: Vec<Attachment>,
        timestamp: Timestamp,
    ) -> (r: Self)
        ensures
            r.sender is None,
            r.timestamp == timestamp,
            r.destination@ == destination@,
            r.text@ == text@,
            attachments_view(r.attachments@) == attachments_view(attachments@),
    {
        UserMessage { sender: None, destination, timestamp, text, attachments }
    }

    /// A copy of the message.
    pub fn duplicate(&self) -> (r: UserMessage)
        ensures
            r@ == self@,
    {
        let sender = match &self.sender {
            Some(id) => Some(id.clone()),
            None => None,
        };
        UserMessage {
            sender,
            destination: self.destination.clone(),
            timestamp: self.timestamp,
            text: self.text.clone(),
            attachments: duplicate_attachments(&self.attachments),
        }
    }
}

pub open spec fn messages_view(m: Seq<UserMessage>) -> Seq<UserMessageView> {
    m.map_values(|x: UserMessage| x@)
}

/// Copies of the messages, in order.
pub fn duplicate_messages(m: &Vec<UserMessage>) -> (r: Vec<UserMessage>)
    ensures
        messages_view(r@) == messages_view(m@),
{
    let mut r: Vec<UserMessage> = Vec::new();
    let mut i: usize = 0;
    while i < m.len()
        invariant
            i <= m.len(),
            r@.len() == i,
            forall|j: int| 0 <= j < i ==> (#[trigger] r@[j])@ == m@[j]@,
        decreases m.len() - i,
    {
        r.push(m[i].duplicate());
        i = i + 1;
    }
    assert(messages_view(r@) == messages_view(m@));
    r
}

/// The error answers of the server.
#[derive(Debug, Clone, Copy, PartialEq, Eq, Structural, Hash)]
pub enum MessageError {
    DstNexists,
    ChatTaken,
    WrongPassword,
    BadUsername,
    SelfSend,
    MsgNexists,
}

/// The text that explains an error to a user.
pub open spec fn error_text(e: MessageError) -> Seq<char> {
    match e {
        MessageError::DstNexists => "nonexistent destination; chat is undefined or recipient is unrecognized"@,
        MessageError::ChatTaken => "a chat with that name already exists, you do not have permission to overwrite it"@,
        MessageError::WrongPassword => "incorrect password, try again"@,
        MessageError::BadUsername => "usernames may only contain a-z, A-Z, 0-9, and _"@,
        MessageError::SelfSend => "cannot send messages to yourself"@,
        MessageError::MsgNexists => "requested message(s) that do(es) not exist"@,
    }
}

impl MessageError {
    /// The text that explains the error to a user.
    pub fn message(&self) -> (s: &'static str)
        ensures
            s@ == error_text(*self),
    {
        match self {
            MessageError::DstNexists => "nonexistent destination; chat is undefined or recipient is unrecognized",
            MessageError::ChatTaken => "a chat with that name already exists, you do not have permission to overwrite it",
            MessageError::WrongPassword => "incorrect password, try again",
            MessageError::BadUsername => "usernames may only contain a-z, A-Z, 0-9, and _",
            MessageError::SelfSend => "cannot send messages to yourself",
            MessageError::MsgNexists => "requested message(s) that do(es) not exist",
        }
    }
}

/// Whether a member list grows or shrinks.
#[derive(Debug, Clone, Copy, PartialEq, Eq, Structural, Hash)]
pub enum MemberDiff {
    Add,
    Remove,
}

/// A message between a client and the server.
#[derive(Debug, PartialEq, Eq)]
pub enum Message {
    Acknowledge,
    Success,
    Error(MessageError),
    User(UserMessage),
    CreateChat { chat: ChatName, members: IdSet },
    Login { username: Username, password: String },
    Get { source: Destination, range: (usize, usize) },
    GetResponse(Vec<UserMessage>),
    ModifyChatMembers { addrem: MemberDiff, chat: ChatName, members: IdSet },
}

/// A message as the contracts see it.
pub enum MsgView {
    Acknowledge,
    Success,
    Error(MessageError),
    User(UserMessageView),
    CreateChat { chat: Seq<char>, members: Seq<IdView> },
    Login { username: Seq<char>, password: Seq<char> },
    Get { source: DestView, range: (usize, usize) },
    GetResponse(Seq<UserMessageView>),
    ModifyChatMembers { addrem: MemberDiff, chat: Seq<char>, members: Seq<IdView> },
}

impl View for Message {
    type V = MsgView;

    open spec fn view(&self) -> MsgView {
        match self {
            Message::Acknowledge => MsgView::Acknowledge,
            Message::Success => MsgView::Success,
            Message::Error(e) => MsgView::Error(*e),
            Message::User(u) => MsgView::User(u@),
            Message::CreateChat { chat, members } => MsgView::CreateChat {
                chat: chat.text(),
                members: members@,
            },
            Message::Login { username, password } => MsgView::Login {
                username: username.text(),
                password: password@,
            },
            Message::Get { source, range } => MsgView::Get { source: source@, range: *range },
            Message::GetResponse(list) => MsgView::GetResponse(messages_view(list@)),
            Message::ModifyChatMembers { addrem, chat, members } => MsgView::ModifyChatMembers {
                addrem: *addrem,
                chat: chat.text(),
                members: members@,
            },
        }
    }
}

impl Message {
    /// A copy of the message.
    pub fn duplicate(&self) -> (r: Message)
        ensures
            r@ == self@,
    {
        match self {
            Message::Acknowledge => Message::Acknowledge,
            Message::Success => Message::Success,
            Message::Error(e) => Message::Error(*e),
            Message::User(u) => Message::User(u.duplicate()),
            Message::CreateChat { chat, members } => Message::CreateChat {
                chat: chat.clone(),
                members: members.duplicate(),
            },
            Message::Login { username, password } => Message::Login {
                username: username.clone(),
                password: password.clone(),
            },
            Message::Get { source, range } => Message::Get { source: source.clone(), range: *range },
            Message::GetResponse(list) => Message::GetResponse(duplicate_messages(list)),
            Message::ModifyChatMembers { addrem, chat, members } => Message::ModifyChatMembers {
                addrem: *addrem,
                chat: chat.clone(),
                members: members.duplicate(),
            },
        }
    }
}

} // verus!
