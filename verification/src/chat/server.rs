//! How the server answers what a client sends: it keeps the accounts, the group
//! chats and the direct-message histories, and decides who receives what.
//! The connections themselves live with the caller, which sends the messages
//! this module hands back.
use vstd::prelude::*;
use vstd::slice::slice_to_vec;

use crate::chat::ident::{id_lt, lemma_id_order, union_with, without, IdSet, IdView, Identifier, SocketAddress};
use crate::chat::message::{
    attachments_view, messages_view, Attachment, AttachmentView, DestView, Destination, MemberDiff,
    Message, MessageError, MsgView, Timestamp, UserMessage, UserMessageView,
};
use crate::names::{
    is_user_char, is_whitespace, is_whitespace_exec, user_name_check, ChatName, Username,
};
use crate::text::{push_char, str_to_chars};

verus! {

/// A connected client, as far as routing goes: the user it logged in as, if
/// any, and its address.
#[derive(Debug, PartialEq, Eq)]
pub struct Client {
    pub username: Option<Username>,
    pub addr: SocketAddress,
}

pub struct ClientView {
    pub username: Option<Seq<char>>,
    pub addr: SocketAddress,
}

impl View for Client {
    type V = ClientView;

    open spec fn view(&self) -> ClientView {
        ClientView {
            username: match self.username {
                Some(u) => Some(u.text()),
                None => None,
            },
            addr: self.addr,
        }
    }
}

/// How a client is known: by its user name once logged in, else by its address.
pub open spec fn client_id(c: ClientView) -> IdView {
    match c.username {
        Some(u) => IdView::User(u),
        None => IdView::Socket(c.addr),
    }
}

/// The client is the one an identifier names.
pub open spec fn client_matches(c: ClientView, id: IdView) -> bool {
    match id {
        IdView::Socket(a) => c.addr == a,
        IdView::User(u) => c.username == Some(u),
    }
}

impl Client {
    /// How the client is known.
    pub fn identifier(&self) -> (r: Identifier)
        ensures
            r@ == client_id(self@),
    {
        match &self.username {
            Some(name) => Identifier::User(name.clone()),
            None => Identifier::Socket(self.addr),
        }
    }

    /// The client is the one `recip` names.
    pub fn matches(&self, recip: &Identifier) -> (b: bool)
        ensures
            b == client_matches(self@, recip@),
    {
        match recip {
            Identifier::Socket(addr) => self.addr == *addr,
            Identifier::User(name) => match &self.username {
                Some(x) => x.same(name),
                None => false,
            },
        }
    }
}

pub open spec fn clients_view(v: Seq<Client>) -> Seq<ClientView> {
    v.map_values(|c: Client| c@)
}

/// A group chat: its members and what was said in it.
#[derive(Debug, PartialEq, Eq)]
pub struct Chat {
    pub members: IdSet,
    pub messages: Vec<UserMessage>,
}

pub struct ChatView {
    pub members: Seq<IdView>,
    pub messages: Seq<UserMessageView>,
}

impl View for Chat {
    type V = ChatView;

    open spec fn view(&self) -> ChatView {
        ChatView { members: self.members@, messages: messages_view(self.messages@) }
    }
}

/// A named chat.
#[derive(Debug, PartialEq, Eq)]
pub struct ChatEntry {
    pub name: ChatName,
    pub chat: Chat,
}

/// A user's name and password.
#[derive(Debug, PartialEq, Eq)]
pub struct Account {
    pub username: Username,
    pub password: String,
}

/// The direct messages between two parties, who are named in order.
#[derive(Debug, PartialEq, Eq)]
pub struct DmEntry {
    pub pair: [Identifier; 2],
    pub history: Vec<UserMessage>,
}

pub open spec fn chats_view(v: Seq<ChatEntry>) -> Seq<(Seq<char>, ChatView)> {
    v.map_values(|e: ChatEntry| (e.name.text(), e.chat@))
}

pub open spec fn users_view(v: Seq<Account>) -> Seq<(Seq<char>, Seq<char>)> {
    v.map_values(|a: Account| (a.username.text(), a.password@))
}

pub open spec fn pair_view(p: [Identifier; 2]) -> (IdView, IdView) {
    (p@[0]@, p@[1]@)
}

pub open spec fn dms_view(v: Seq<DmEntry>) -> Seq<((IdView, IdView), Seq<UserMessageView>)> {
    v.map_values(|e: DmEntry| (pair_view(e.pair), messages_view(e.history@)))
}

/// A message for the client at index `to`.
#[derive(Debug, PartialEq, Eq)]
pub struct Outgoing {
    pub to: usize,
    pub message: Message,
}

pub struct OutView {
    pub to: int,
    pub msg: MsgView,
}

pub open spec fn outs_view(v: Seq<Outgoing>) -> Seq<OutView> {
    v.map_values(|o: Outgoing| OutView { to: o.to as int, msg: o.message@ })
}

/// The first client from index `i` on that `id` names.
pub open spec fn client_from(cs: Seq<ClientView>, id: IdView, i: int) -> Option<int>
    decreases cs.len() - i,
{
    if i < 0 || i >= cs.len() {
        None
    } else if client_matches(cs[i], id) {
        Some(i)
    } else {
        client_from(cs, id, i + 1)
    }
}

/// The first chat from index `i` on with the given name.
pub open spec fn chat_from(v: Seq<(Seq<char>, ChatView)>, name: Seq<char>, i: int) -> Option<int>
    decreases v.len() - i,
{
    if i < 0 || i >= v.len() {
        None
    } else if v[i].0 == name {
        Some(i)
    } else {
        chat_from(v, name, i + 1)
    }
}

/// The first account from index `i` on with the given user name.
pub open spec fn user_from(v: Seq<(Seq<char>, Seq<char>)>, name: Seq<char>, i: int) -> Option<int>
    decreases v.len() - i,
{
    if i < 0 || i >= v.len() {
        None
    } else if v[i].0 == name {
        Some(i)
    } else {
        user_from(v, name, i + 1)
    }
}

/// The first direct-message history from index `i` on for the given pair.
pub open spec fn dm_from(
    v: Seq<((IdView, IdView), Seq<UserMessageView>)>,
    pair: (IdView, IdView),
    i: int,
) -> Option<int>
    decreases v.len() - i,
{
    if i < 0 || i >= v.len() {
        None
    } else if v[i].0 == pair {
        Some(i)
    } else {
        dm_from(v, pair, i + 1)
    }
}

/// The two parties of a direct conversation in order, or nothing when they are
/// the same party.
pub open spec fn dm_pair(a: IdView, b: IdView) -> Option<(IdView, IdView)> {
    if id_lt(a, b) {
        Some((a, b))
    } else if id_lt(b, a) {
        Some((b, a))
    } else {
        None
    }
}

/// The key under which the direct messages between two parties are kept: the two
/// of them in order. A party cannot message itself.
pub fn dmid(sndr: Identifier, rcvr: Identifier) -> (r: Result<[Identifier; 2], MessageError>)
    ensures
        match r {
            Ok(p) => dm_pair(sndr@, rcvr@) == Some(pair_view(p)),
            Err(e) => dm_pair(sndr@, rcvr@) is None && e == MessageError::SelfSend,
        },
{
    if sndr.precedes(&rcvr) {
        let p = [sndr, rcvr];
        assert(pair_view(p) == (p@[0]@, p@[1]@));
        Ok(p)
    } else if rcvr.precedes(&sndr) {
        let p = [rcvr, sndr];
        Ok(p)
    } else {
        Err(MessageError::SelfSend)
    }
}

/// Either party may open a direct conversation: the key is the same, and there
/// is none exactly when the two are the same party.
pub proof fn dm_pair_is_symmetric(a: IdView, b: IdView)
    ensures
        dm_pair(a, b) == dm_pair(b, a),
        dm_pair(a, b) is None <==> a == b,
        dm_pair(a, b) matches Some((x, y)) ==> id_lt(x, y) && ((x == a && y == b) || (x == b
            && y == a)),
{
    lemma_id_order(a, b, a);
}

proof fn lemma_client_from(cs: Seq<ClientView>, id: IdView, i: int)
    ensures
        client_from(cs, id, i) matches Some(k) ==> i <= k < cs.len() && client_matches(cs[k], id),
    decreases cs.len() - i,
{
    if 0 <= i < cs.len() && !client_matches(cs[i], id) {
        lemma_client_from(cs, id, i + 1);
    }
}

proof fn lemma_chat_from(v: Seq<(Seq<char>, ChatView)>, name: Seq<char>, i: int)
    ensures
        chat_from(v, name, i) matches Some(k) ==> i <= k < v.len() && v[k].0 == name,
    decreases v.len() - i,
{
    if 0 <= i < v.len() && v[i].0 != name {
        lemma_chat_from(v, name, i + 1);
    }
}

proof fn lemma_user_from(v: Seq<(Seq<char>, Seq<char>)>, name: Seq<char>, i: int)
    ensures
        user_from(v, name, i) matches Some(k) ==> i <= k < v.len() && v[k].0 == name,
    decreases v.len() - i,
{
    if 0 <= i < v.len() && v[i].0 != name {
        lemma_user_from(v, name, i + 1);
    }
}

proof fn lemma_dm_from(v: Seq<((IdView, IdView), Seq<UserMessageView>)>, pair: (IdView, IdView), i: int)
    ensures
        dm_from(v, pair, i) matches Some(k) ==> i <= k < v.len() && v[k].0 == pair,
    decreases v.len() - i,
{
    if 0 <= i < v.len() && v[i].0 != pair {
        lemma_dm_from(v, pair, i + 1);
    }
}

fn first_client(clients: &Vec<Client>, id: &Identifier) -> (r: Option<usize>)
    ensures
        match r {
            Some(i) => client_from(clients_view(clients@), id@, 0) == Some(i as int) && i
                < clients.len(),
            None => client_from(clients_view(clients@), id@, 0) is None,
        },
{
    proof {
        lemma_client_from(clients_view(clients@), id@, 0);
    }
    let ghost cs = clients_view(clients@);
    let mut i: usize = 0;
    while i < clients.len()
        invariant
            i <= clients.len(),
            cs == clients_view(clients@),
            client_from(cs, id@, 0) == client_from(cs, id@, i as int),
        decreases clients.len() - i,
    {
        if clients[i].matches(id) {
            return Some(i);
        }
        i = i + 1;
    }
    None
}

fn find_chat(chats: &Vec<ChatEntry>, name: &ChatName) -> (r: Option<usize>)
    ensures
        match r {
            Some(i) => chat_from(chats_view(chats@), name.text(), 0) == Some(i as int) && i
                < chats.len(),
            None => chat_from(chats_view(chats@), name.text(), 0) is None,
        },
{
    proof {
        lemma_chat_from(chats_view(chats@), name.text(), 0);
    }
    let ghost v = chats_view(chats@);
    let mut i: usize = 0;
    while i < chats.len()
        invariant
            i <= chats.len(),
            v == chats_view(chats@),
            chat_from(v, name.text(), 0) == chat_from(v, name.text(), i as int),
        decreases chats.len() - i,
    {
        if chats[i].name.same(name) {
            return Some(i);
        }
        i = i + 1;
    }
    None
}

fn find_user(users: &Vec<Account>, name: &Username) -> (r: Option<usize>)
    ensures
        match r {
            Some(i) => user_from(users_view(users@), name.text(), 0) == Some(i as int) && i
                < users.len(),
            None => user_from(users_view(users@), name.text(), 0) is None,
        },
{
    proof {
        lemma_user_from(users_view(users@), name.text(), 0);
    }
    let ghost v = users_view(users@);
    let mut i: usize = 0;
    while i < users.len()
        invariant
            i <= users.len(),
            v == users_view(users@),
            user_from(v, name.text(), 0) == user_from(v, name.text(), i as int),
        decreases users.len() - i,
    {
        if users[i].username.same(name) {
            return Some(i);
        }
        i = i + 1;
    }
    None
}

fn find_dm(dms: &Vec<DmEntry>, pair: &[Identifier; 2]) -> (r: Option<usize>)
    ensures
        match r {
            Some(i) => dm_from(dms_view(dms@), pair_view(*pair), 0) == Some(i as int) && i
                < dms.len(),
            None => dm_from(dms_view(dms@), pair_view(*pair), 0) is None,
        },
{
    proof {
        lemma_dm_from(dms_view(dms@), pair_view(*pair), 0);
    }
    let ghost v = dms_view(dms@);
    let mut i: usize = 0;
    while i < dms.len()
        invariant
            i <= dms.len(),
            v == dms_view(dms@),
            dm_from(v, pair_view(*pair), 0) == dm_from(v, pair_view(*pair), i as int),
        decreases dms.len() - i,
    {
        if dms[i].pair[0].same_as(&pair[0]) && dms[i].pair[1].same_as(&pair[1]) {
            return Some(i);
        }
        i = i + 1;
    }
    None
}

/// A file name with each whitespace character replaced by `_`.
pub open spec fn underscored(s: Seq<char>) -> Seq<char> {
    s.map_values(|c: char| if is_whitespace(c) { '_' } else { c })
}

/// Attachments with their file names cleaned of whitespace.
pub open spec fn sanitized_attachments(a: Seq<AttachmentView>) -> Seq<AttachmentView> {
    a.map_values(
        |x: AttachmentView|
            AttachmentView { filename: underscored(x.filename), alt_text: x.alt_text, data: x.data },
    )
}

/// A user message as the server passes it on: marked with its sender and the
/// time the server received it, file names cleaned of whitespace.
pub open spec fn stamped(u: UserMessageView, sender: IdView, now: Timestamp) -> UserMessageView {
    UserMessageView {
        sender: Some(sender),
        destination: u.destination,
        timestamp: now,
        text: u.text,
        attachments: sanitized_attachments(u.attachments),
    }
}

/// An answer to the client at index `s`.
pub open spec fn reply(s: int, m: MsgView) -> OutView {
    OutView { to: s, msg: m }
}

/// `m` for the first client that `id` names, if one is connected.
pub open spec fn deliver_to(cs: Seq<ClientView>, id: IdView, m: MsgView) -> Seq<OutView> {
    match client_from(cs, id, 0) {
        Some(i) => seq![OutView { to: i, msg: m }],
        None => seq![],
    }
}

/// `m` for each member in order, but the one the sender is.
pub open spec fn member_deliveries(cs: Seq<ClientView>, s: int, members: Seq<IdView>, m: MsgView) -> Seq<
    OutView,
>
    decreases members.len(),
{
    if members.len() == 0 {
        seq![]
    } else {
        member_deliveries(cs, s, members.drop_last(), m) + if client_matches(cs[s], members.last()) {
            Seq::<OutView>::empty()
        } else {
            deliver_to(cs, members.last(), m)
        }
    }
}

/// `m` for each of the first `n` clients in order, but the sender.
pub open spec fn broadcast(n: int, s: int, m: MsgView) -> Seq<OutView>
    decreases n,
{
    if n <= 0 {
        seq![]
    } else {
        broadcast(n - 1, s, m) + if n - 1 == s {
            Seq::<OutView>::empty()
        } else {
            seq![OutView { to: n - 1, msg: m }]
        }
    }
}

/// What routing one message does: the new accounts, chats and direct-message
/// histories, the user the sender logs in as, if any, and the messages to send.
pub struct Routed {
    pub users: Seq<(Seq<char>, Seq<char>)>,
    pub chats: Seq<(Seq<char>, ChatView)>,
    pub dms: Seq<((IdView, IdView), Seq<UserMessageView>)>,
    pub login: Option<Seq<char>>,
    pub out: Seq<OutView>,
}

/// Routing a user's message: acknowledged at once, then passed to everyone else
/// in the global chat, to the members of a named chat, or to one client.
pub open spec fn route_user(
    cs: Seq<ClientView>,
    users: Seq<(Seq<char>, Seq<char>)>,
    chats: Seq<(Seq<char>, ChatView)>,
    dms: Seq<((IdView, IdView), Seq<UserMessageView>)>,
    s: int,
    u: UserMessageView,
    now: Timestamp,
) -> Routed {
    let sid = client_id(cs[s]);
    let u2 = stamped(u, sid, now);
    let ack = reply(s, MsgView::Acknowledge);
    match u.destination {
        DestView::Chat(name) => if name.len() == 0 {
            Routed {
                users,
                chats,
                dms,
                login: None,
                out: seq![ack] + broadcast(cs.len() as int, s, MsgView::User(u2)),
            }
        } else {
            match chat_from(chats, name, 0) {
                None => Routed {
                    users,
                    chats,
                    dms,
                    login: None,
                    out: seq![ack, reply(s, MsgView::Error(MessageError::DstNexists))],
                },
                Some(i) => Routed {
                    users,
                    chats: chats.update(
                        i,
                        (
                            chats[i].0,
                            ChatView {
                                members: chats[i].1.members,
                                messages: chats[i].1.messages.push(u2),
                            },
                        ),
                    ),
                    dms,
                    login: None,
                    out: seq![ack] + member_deliveries(cs, s, chats[i].1.members, MsgView::User(u2))
                        + seq![reply(s, MsgView::Success)],
                },
            }
        },
        DestView::Client(id) => match dm_pair(sid, id) {
            None => Routed {
                users,
                chats,
                dms,
                login: None,
                out: seq![ack, reply(s, MsgView::Error(MessageError::SelfSend))],
            },
            Some(p) => Routed {
                users,
                chats,
                dms: match dm_from(dms, p, 0) {
                    Some(i) => dms.update(i, (dms[i].0, dms[i].1.push(u2))),
                    None => dms.push((p, seq![u2])),
                },
                login: None,
                out: seq![ack] + deliver_to(cs, id, MsgView::User(u2)),
            },
        },
    }
}

fn underscore_whitespace(s: &String) -> (r: String)
    ensures
        r@ == underscored(s@),
{
    let cs = str_to_chars(s.as_str());
    let mut r = String::new();
    let mut i: usize = 0;
    while i < cs.len()
        invariant
            i <= cs.len(),
            r@ == underscored(cs@.take(i as int)),
        decreases cs.len() - i,
    {
        let c = cs[i];
        if is_whitespace_exec(c) {
            push_char(&mut r, '_');
        } else {
            push_char(&mut r, c);
        }
        assert(cs@.take(i + 1) == cs@.take(i as int).push(c));
        i = i + 1;
        assert(r@ == underscored(cs@.take(i as int)));
    }
    assert(cs@.take(cs.len() as int) == cs@);
    r
}

/// The message marked with its sender, its file names cleaned of whitespace.
fn stamp(u: UserMessage, sender: Identifier, now: Timestamp) -> (r: UserMessage)
    ensures
        r@ == stamped(u@, sender@, now),
{
    let mut atts: Vec<Attachment> = Vec::new();
    let mut i: usize = 0;
    while i < u.attachments.len()
        invariant
            i <= u.attachments.len(),
            atts@.len() == i,
            forall|j: int|
                0 <= j < i ==> (#[trigger] atts@[j])@ == sanitized_attachments(
                    attachments_view(u.attachments@),
                )[j],
        decreases u.attachments.len() - i,
    {
        let a = &u.attachments[i];
        let filename = underscore_whitespace(&a.filename);
        atts.push(Attachment { filename, alt_text: a.alt_text.clone(), data: slice_to_vec(a.data.as_slice()) });
        i = i + 1;
    }
    assert(attachments_view(atts@) == sanitized_attachments(attachments_view(u.attachments@)));
    UserMessage {
        sender: Some(sender),
        destination: u.destination,
        timestamp: now,
        text: u.text,
        attachments: atts,
    }
}

proof fn lemma_outs_push(v: Seq<Outgoing>, o: Outgoing)
    ensures
        outs_view(v.push(o)) == outs_view(v).push(OutView { to: o.to as int, msg: o.message@ }),
{
    assert(outs_view(v.push(o)) =~= outs_view(v).push(OutView { to: o.to as int, msg: o.message@ }));
}

/// Adds `m` for the first client that `id` names, if one is connected.
fn push_delivery(out: &mut Vec<Outgoing>, clients: &Vec<Client>, id: &Identifier, m: &Message)
    ensures
        outs_view(final(out)@) == outs_view(old(out)@) + deliver_to(clients_view(clients@), id@, m@),
{
    match first_client(clients, id) {
        Some(i) => {
            let ghost before = out@;
            out.push(Outgoing { to: i, message: m.duplicate() });
            proof {
                lemma_outs_push(before, out@.last());
                assert(out@ == before.push(out@.last()));
            }
        },
        None => {
            assert(outs_view(out@) + Seq::<OutView>::empty() == outs_view(out@));
        },
    }
}

/// Adds `m` for each member in order, but the one the sender is.
fn push_member_deliveries(
    out: &mut Vec<Outgoing>,
    clients: &Vec<Client>,
    s: usize,
    members: &IdSet,
    m: &Message,
)
    requires
        s < clients.len(),
    ensures
        outs_view(final(out)@) == outs_view(old(out)@) + member_deliveries(
            clients_view(clients@),
            s as int,
            members@,
            m@,
        ),
{
    let ghost cs = clients_view(clients@);
    let ghost start = outs_view(out@);
    let n = members.len();
    let mut i: usize = 0;
    assert(members@.take(0) == Seq::<IdView>::empty());
    assert(start + Seq::<OutView>::empty() == start);
    while i < n
        invariant
            i <= n == members@.len(),
            s < clients.len(),
            cs == clients_view(clients@),
            outs_view(out@) == start + member_deliveries(cs, s as int, members@.take(i as int), m@),
        decreases n - i,
    {
        let id = members.get(i);
        let ghost before = outs_view(out@);
        proof {
            let t = members@.take(i + 1);
            assert(t.drop_last() == members@.take(i as int));
            assert(t.last() == members@[i as int]);
        }
        if !clients[s].matches(id) {
            push_delivery(out, clients, id, m);
        } else {
            assert(outs_view(out@) + Seq::<OutView>::empty() == outs_view(out@));
        }
        i = i + 1;
    }
    assert(members@.take(n as int) == members@);
}

/// Adds `m` for each client in order, but the sender.
fn push_broadcast(out: &mut Vec<Outgoing>, n: usize, s: usize, m: &Message)
    ensures
        outs_view(final(out)@) == outs_view(old(out)@) + broadcast(n as int, s as int, m@),
{
    let ghost start = outs_view(out@);
    let mut i: usize = 0;
    assert(start + Seq::<OutView>::empty() == start);
    while i < n
        invariant
            i <= n,
            outs_view(out@) == start + broadcast(i as int, s as int, m@),
        decreases n - i,
    {
        if i != s {
            let ghost before = out@;
            out.push(Outgoing { to: i, message: m.duplicate() });
            proof {
                lemma_outs_push(before, out@.last());
                assert(out@ == before.push(out@.last()));
            }
        } else {
            assert(outs_view(out@) + Seq::<OutView>::empty() == outs_view(out@));
        }
        i = i + 1;
    }
}

/// The answer `m` to the client at index `s`, alone.
fn answer(s: usize, m: Message) -> (r: Vec<Outgoing>)
    ensures
        outs_view(r@) == seq![reply(s as int, m@)],
{
    let mut r: Vec<Outgoing> = Vec::new();
    r.push(Outgoing { to: s, message: m });
    assert(outs_view(r@) =~= seq![reply(s as int, r@[0].message@)]);
    r
}

fn route_user_message(
    clients: &Vec<Client>,
    users: &Vec<Account>,
    chats: &mut Vec<ChatEntry>,
    dm_history: &mut Vec<DmEntry>,
    s: usize,
    umsg: UserMessage,
    now: Timestamp,
) -> (out: Vec<Outgoing>)
    requires
        s < clients.len(),
    ensures
        ({
            let r = route_user(
                clients_view(clients@),
                users_view(users@),
                chats_view(old(chats)@),
                dms_view(old(dm_history)@),
                s as int,
                umsg@,
                now,
            );
            &&& chats_view(final(chats)@) == r.chats
            &&& dms_view(final(dm_history)@) == r.dms
            &&& outs_view(out@) == r.out
        }),
{
    let ghost cs = clients_view(clients@);
    let mut out: Vec<Outgoing> = Vec::new();
    out.push(Outgoing { to: s, message: Message::Acknowledge });
    assert(outs_view(out@) =~= seq![reply(s as int, MsgView::Acknowledge)]);
    let sid = clients[s].identifier();
    let u2 = stamp(umsg, clients[s].identifier(), now);
    let ghost u2v = u2@;
    match &u2.destination {
        Destination::Chat(chat) => {
            if chat.is_empty() {
                let m = Message::User(u2);
                push_broadcast(&mut out, clients.len(), s, &m);
                out
            } else {
                match find_chat(chats, chat) {
                    None => {
                        out.push(Outgoing { to: s, message: Message::Error(MessageError::DstNexists) });
                        assert(outs_view(out@) =~= seq![
                            reply(s as int, MsgView::Acknowledge),
                            reply(s as int, MsgView::Error(MessageError::DstNexists)),
                        ]);
                        out
                    },
                    Some(i) => {
                        let ghost old_chats = chats_view(chats@);
                        let ghost old_raw = chats@;
                        let mut e = chats.remove(i);
                        let ghost old_msgs = e.chat.messages@;
                        e.chat.messages.push(u2.duplicate());
                        let members = e.chat.members.duplicate();
                        proof {
                            assert(messages_view(e.chat.messages@) =~= messages_view(old_msgs).push(
                                u2v,
                            ));
                        }
                        chats.insert(i, e);
                        proof {
                            assert(chats@ =~= old_raw.update(i as int, chats@[i as int]));
                            assert(chats_view(chats@) =~= old_chats.update(
                                i as int,
                                (
                                    old_chats[i as int].0,
                                    ChatView {
                                        members: old_chats[i as int].1.members,
                                        messages: old_chats[i as int].1.messages.push(u2v),
                                    },
                                ),
                            ));
                        }
                        let m = Message::User(u2);
                        push_member_deliveries(&mut out, clients, s, &members, &m);
                        let ghost before = out@;
                        out.push(Outgoing { to: s, message: Message::Success });
                        proof {
                            lemma_outs_push(before, out@.last());
                            assert(out@ == before.push(out@.last()));
                        }
                        out
                    },
                }
            }
        },
        Destination::Client(identifier) => {
            let recipient = identifier.clone();
            match dmid(sid, identifier.clone()) {
                Err(e) => {
                    out.push(Outgoing { to: s, message: Message::Error(e) });
                    assert(outs_view(out@) =~= seq![
                        reply(s as int, MsgView::Acknowledge),
                        reply(s as int, MsgView::Error(MessageError::SelfSend)),
                    ]);
                    out
                },
                Ok(pair) => {
                    let ghost old_dms = dms_view(dm_history@);
                    match find_dm(dm_history, &pair) {
                        Some(i) => {
                            let ghost old_raw = dm_history@;
                            let mut e = dm_history.remove(i);
                            let ghost old_h = e.history@;
                            e.history.push(u2.duplicate());
                            proof {
                                assert(messages_view(e.history@) =~= messages_view(old_h).push(u2v));
                            }
                            dm_history.insert(i, e);
                            proof {
                                assert(dm_history@ =~= old_raw.update(i as int, dm_history@[i as int]));
                                assert(dms_view(dm_history@) =~= old_dms.update(
                                    i as int,
                                    (old_dms[i as int].0, old_dms[i as int].1.push(u2v)),
                                ));
                            }
                        },
                        None => {
                            let mut history: Vec<UserMessage> = Vec::new();
                            history.push(u2.duplicate());
                            let ghost pv = pair_view(pair);
                            dm_history.push(DmEntry { pair, history });
                            proof {
                                assert(messages_view(dm_history@.last().history@) =~= seq![u2v]);
                                assert(dms_view(dm_history@) =~= old_dms.push((pv, seq![u2v])));
                            }
                        },
                    }
                    let m = Message::User(u2);
                    push_delivery(&mut out, clients, &recipient, &m);
                    out
                },
            }
        },
    }
}

/// Creating a chat: refused when the name is taken; else the chat starts with
/// the given members and the sender.
pub open spec fn route_create(
    cs: Seq<ClientView>,
    users: Seq<(Seq<char>, Seq<char>)>,
    chats: Seq<(Seq<char>, ChatView)>,
    dms: Seq<((IdView, IdView), Seq<UserMessageView>)>,
    s: int,
    chat: Seq<char>,
    members: Seq<IdView>,
) -> Routed {
    match chat_from(chats, chat, 0) {
        Some(_) => Routed {
            users,
            chats,
            dms,
            login: None,
            out: seq![reply(s, MsgView::Error(MessageError::ChatTaken))],
        },
        None => Routed {
            users,
            chats: chats.push(
                (
                    chat,
                    ChatView {
                        members: crate::chat::ident::with_member(members, client_id(cs[s])),
                        messages: seq![],
                    },
                ),
            ),
            dms,
            login: None,
            out: seq![reply(s, MsgView::Success)],
        },
    }
}

/// Every character may stand in a user name.
pub open spec fn user_chars_only(s: Seq<char>) -> bool {
    forall|k: int| 0 <= k < s.len() ==> is_user_char(#[trigger] s[k])
}

/// Logging in: a known user needs the password it was created with; an unknown
/// one is created with the password given.
pub open spec fn route_login(
    cs: Seq<ClientView>,
    users: Seq<(Seq<char>, Seq<char>)>,
    chats: Seq<(Seq<char>, ChatView)>,
    dms: Seq<((IdView, IdView), Seq<UserMessageView>)>,
    s: int,
    username: Seq<char>,
    password: Seq<char>,
) -> Routed {
    if !user_chars_only(username) {
        Routed {
            users,
            chats,
            dms,
            login: None,
            out: seq![reply(s, MsgView::Error(MessageError::BadUsername))],
        }
    } else {
        match user_from(users, username, 0) {
            Some(i) => if users[i].1 == password {
                Routed {
                    users,
                    chats,
                    dms,
                    login: Some(username),
                    out: seq![reply(s, MsgView::Success)],
                }
            } else {
                Routed {
                    users,
                    chats,
                    dms,
                    login: None,
                    out: seq![reply(s, MsgView::Error(MessageError::WrongPassword))],
                }
            },
            None => Routed {
                users: users.push((username, password)),
                chats,
                dms,
                login: Some(username),
                out: seq![reply(s, MsgView::Success)],
            },
        }
    }
}

/// A history, newest first.
pub open spec fn reversed(h: Seq<UserMessageView>) -> Seq<UserMessageView> {
    Seq::new(h.len(), |k: int| h[h.len() - 1 - k])
}

/// The messages of a history from the `start`th newest up to, not including,
/// the `end`th newest, newest first.
pub open spec fn window(h: Seq<UserMessageView>, start: int, end: int) -> Seq<UserMessageView> {
    let r = reversed(h);
    let a = if start < r.len() {
        start
    } else {
        r.len() as int
    };
    let n = if end > start {
        end - start
    } else {
        0
    };
    let b = if a + n < r.len() {
        a + n
    } else {
        r.len() as int
    };
    r.subrange(a, b)
}

/// Fetching history: of a chat, or of the direct messages with a client.
pub open spec fn route_get(
    cs: Seq<ClientView>,
    users: Seq<(Seq<char>, Seq<char>)>,
    chats: Seq<(Seq<char>, ChatView)>,
    dms: Seq<((IdView, IdView), Seq<UserMessageView>)>,
    s: int,
    source: DestView,
    range: (usize, usize),
) -> Routed {
    let out = match source {
        DestView::Chat(name) => match chat_from(chats, name, 0) {
            Some(i) => seq![
                reply(
                    s,
                    MsgView::GetResponse(window(chats[i].1.messages, range.0 as int, range.1 as int)),
                ),
            ],
            None => seq![reply(s, MsgView::Error(MessageError::DstNexists))],
        },
        DestView::Client(id) => match dm_pair(client_id(cs[s]), id) {
            None => seq![reply(s, MsgView::Error(MessageError::SelfSend))],
            Some(p) => match dm_from(dms, p, 0) {
                Some(i) => seq![
                    reply(s, MsgView::GetResponse(window(dms[i].1, range.0 as int, range.1 as int))),
                ],
                None => seq![reply(s, MsgView::Success)],
            },
        },
    };
    Routed { users, chats, dms, login: None, out }
}

/// Changing a chat's members: adding or removing the given ones, silently.
pub open spec fn route_modify(
    cs: Seq<ClientView>,
    users: Seq<(Seq<char>, Seq<char>)>,
    chats: Seq<(Seq<char>, ChatView)>,
    dms: Seq<((IdView, IdView), Seq<UserMessageView>)>,
    s: int,
    addrem: MemberDiff,
    chat: Seq<char>,
    members: Seq<IdView>,
) -> Routed {
    match chat_from(chats, chat, 0) {
        Some(i) => Routed {
            users,
            chats: chats.update(
                i,
                (
                    chats[i].0,
                    ChatView {
                        members: match addrem {
                            MemberDiff::Remove => without(chats[i].1.members, members),
                            MemberDiff::Add => union_with(chats[i].1.members, members),
                        },
                        messages: chats[i].1.messages,
                    },
                ),
            ),
            dms,
            login: None,
            out: seq![],
        },
        None => Routed {
            users,
            chats,
            dms,
            login: None,
            out: seq![reply(s, MsgView::Error(MessageError::DstNexists))],
        },
    }
}

/// What the server does with one message from the client at index `s`.
pub open spec fn route_spec(
    cs: Seq<ClientView>,
    users: Seq<(Seq<char>, Seq<char>)>,
    chats: Seq<(Seq<char>, ChatView)>,
    dms: Seq<((IdView, IdView), Seq<UserMessageView>)>,
    s: int,
    m: MsgView,
    now: Timestamp,
) -> Routed {
    match m {
        MsgView::User(u) => route_user(cs, users, chats, dms, s, u, now),
        MsgView::CreateChat { chat, members } => route_create(cs, users, chats, dms, s, chat, members),
        MsgView::Login { username, password } => route_login(
            cs,
            users,
            chats,
            dms,
            s,
            username,
            password,
        ),
        MsgView::Get { source, range } => route_get(cs, users, chats, dms, s, source, range),
        MsgView::ModifyChatMembers { addrem, chat, members } => route_modify(
            cs,
            users,
            chats,
            dms,
            s,
            addrem,
            chat,
            members,
        ),
        _ => Routed { users, chats, dms, login: None, out: seq![] },
    }
}

fn user_chars_only_exec(s: &str) -> (b: bool)
    ensures
        b == user_chars_only(s@),
{
    let cs = str_to_chars(s);
    let mut i: usize = 0;
    while i < cs.len()
        invariant
            i <= cs.len(),
            cs@ == s@,
            forall|k: int| 0 <= k < i ==> is_user_char(#[trigger] cs@[k]),
        decreases cs.len() - i,
    {
        let c = cs[i];
        if !(('a' <= c && c <= 'z') || ('A' <= c && c <= 'Z') || ('0' <= c && c <= '9') || c == '_') {
            assert(!is_user_char(cs@[i as int]));
            return false;
        }
        i = i + 1;
    }
    true
}

fn window_exec(h: &Vec<UserMessage>, start: usize, end: usize) -> (r: Vec<UserMessage>)
    ensures
        messages_view(r@) == window(messages_view(h@), start as int, end as int),
{
    let ghost hv = messages_view(h@);
    let len = h.len();
    let a = if start < len {
        start
    } else {
        len
    };
    let n = if end > start {
        end - start
    } else {
        0
    };
    let b = if n < len - a {
        a + n
    } else {
        len
    };
    let mut r: Vec<UserMessage> = Vec::new();
    let mut j: usize = a;
    while j < b
        invariant
            a <= j <= b <= len == h.len(),
            hv == messages_view(h@),
            messages_view(r@) == reversed(hv).subrange(a as int, j as int),
        decreases b - j,
    {
        let m = h[len - 1 - j].duplicate();
        let ghost before = messages_view(r@);
        r.push(m);
        proof {
            assert(messages_view(r@) =~= before.push(hv[len - 1 - j]));
            assert(reversed(hv).subrange(a as int, j + 1) =~= reversed(hv).subrange(a as int, j as int).push(
                hv[len - 1 - j],
            ));
        }
        j = j + 1;
    }
    r
}

fn route_create_chat(
    clients: &Vec<Client>,
    chats: &mut Vec<ChatEntry>,
    s: usize,
    chat: ChatName,
    members: IdSet,
) -> (out: Vec<Outgoing>)
    requires
        s < clients.len(),
    ensures
        ({
            let r = route_create(
                clients_view(clients@),
                Seq::empty(),
                chats_view(old(chats)@),
                Seq::empty(),
                s as int,
                chat.text(),
                members@,
            );
            &&& chats_view(final(chats)@) == r.chats
            &&& outs_view(out@) == r.out
        }),
{
    match find_chat(chats, &chat) {
        Some(_) => answer(s, Message::Error(MessageError::ChatTaken)),
        None => {
            let mut members = members;
            members.insert(clients[s].identifier());
            let ghost old_chats = chats_view(chats@);
            let ghost name = chat.text();
            let ghost mv = members@;
            chats.push(ChatEntry { name: chat, chat: Chat { members, messages: Vec::new() } });
            proof {
                assert(messages_view(chats@.last().chat.messages@) =~= Seq::<UserMessageView>::empty());
                assert(chats_view(chats@) =~= old_chats.push(
                    (name, ChatView { members: mv, messages: seq![] }),
                ));
            }
            answer(s, Message::Success)
        },
    }
}

fn route_login_request(
    clients: &mut Vec<Client>,
    users: &mut Vec<Account>,
    s: usize,
    username: Username,
    password: String,
) -> (out: Vec<Outgoing>)
    requires
        s < old(clients).len(),
    ensures
        ({
            let r = route_login(
                clients_view(old(clients)@),
                users_view(old(users)@),
                Seq::empty(),
                Seq::empty(),
                s as int,
                username.text(),
                password@,
            );
            &&& users_view(final(users)@) == r.users
            &&& clients_view(final(clients)@) == match r.login {
                Some(u) => clients_view(old(clients)@).update(
                    s as int,
                    ClientView { username: Some(u), addr: old(clients)@[s as int].addr },
                ),
                None => clients_view(old(clients)@),
            }
            &&& outs_view(out@) == r.out
        }),
{
    if !user_chars_only_exec(username.as_str()) {
        return answer(s, Message::Error(MessageError::BadUsername));
    }
    let ghost old_users = users_view(users@);
    let found = find_user(users, &username);
    let accepted = match found {
        Some(i) => users[i].password == password,
        None => true,
    };
    if !accepted {
        return answer(s, Message::Error(MessageError::WrongPassword));
    }
    if found.is_none() {
        let ghost entry = (username.text(), password@);
        users.push(Account { username: username.clone(), password });
        proof {
            assert(users_view(users@) =~= old_users.push(entry));
        }
    }
    let ghost old_clients = clients@;
    let mut c = clients.remove(s);
    c.username = Some(username);
    clients.insert(s, c);
    proof {
        assert(clients@ =~= old_clients.update(s as int, clients@[s as int]));
        assert(clients_view(clients@) =~= clients_view(old_clients).update(
            s as int,
            clients_view(clients@)[s as int],
        ));
    }
    answer(s, Message::Success)
}

fn route_get_request(
    clients: &Vec<Client>,
    chats: &Vec<ChatEntry>,
    dm_history: &Vec<DmEntry>,
    s: usize,
    source: Destination,
    range: (usize, usize),
) -> (out: Vec<Outgoing>)
    requires
        s < clients.len(),
    ensures
        outs_view(out@) == route_get(
            clients_view(clients@),
            Seq::empty(),
            chats_view(chats@),
            dms_view(dm_history@),
            s as int,
            source@,
            range,
        ).out,
{
    let (start, end) = range;
    match &source {
        Destination::Chat(chat) => match find_chat(chats, chat) {
            Some(i) => answer(s, Message::GetResponse(window_exec(&chats[i].chat.messages, start, end))),
            None => answer(s, Message::Error(MessageError::DstNexists)),
        },
        Destination::Client(identifier) => match dmid(clients[s].identifier(), identifier.clone()) {
            Err(e) => answer(s, Message::Error(e)),
            Ok(pair) => match find_dm(dm_history, &pair) {
                Some(i) => answer(
                    s,
                    Message::GetResponse(window_exec(&dm_history[i].history, start, end)),
                ),
                None => answer(s, Message::Success),
            },
        },
    }
}

fn route_modify_members(
    chats: &mut Vec<ChatEntry>,
    s: usize,
    addrem: MemberDiff,
    chat: ChatName,
    members: IdSet,
) -> (out: Vec<Outgoing>)
    ensures
        ({
            let r = route_modify(
                Seq::empty(),
                Seq::empty(),
                chats_view(old(chats)@),
                Seq::empty(),
                s as int,
                addrem,
                chat.text(),
                members@,
            );
            &&& chats_view(final(chats)@) == r.chats
            &&& outs_view(out@) == r.out
        }),
{
    match find_chat(chats, &chat) {
        Some(i) => {
            let ghost old_chats = chats_view(chats@);
            let ghost old_raw = chats@;
            let mut e = chats.remove(i);
            match addrem {
                MemberDiff::Remove => {
                    let rest = e.chat.members.difference(&members);
                    e.chat.members = rest;
                },
                MemberDiff::Add => {
                    e.chat.members.append(&members);
                },
            }
            chats.insert(i, e);
            proof {
                assert(chats@ =~= old_raw.update(i as int, chats@[i as int]));
                assert(chats_view(chats@) =~= old_chats.update(i as int, chats_view(chats@)[i as int]));
            }
            let out: Vec<Outgoing> = Vec::new();
            assert(outs_view(out@) =~= Seq::<OutView>::empty());
            out
        },
        None => answer(s, Message::Error(MessageError::DstNexists)),
    }
}

/// The chats once a connection at `addr` is gone: its address is no member of
/// any chat any more.
pub open spec fn without_socket(chats: Seq<(Seq<char>, ChatView)>, addr: SocketAddress) -> Seq<
    (Seq<char>, ChatView),
> {
    chats.map_values(
        |e: (Seq<char>, ChatView)|
            (
                e.0,
                ChatView {
                    members: without(e.1.members, seq![IdView::Socket(addr)]),
                    messages: e.1.messages,
                },
            ),
    )
}

/// Removes the address of a client that disconnected from every chat.
pub fn forget_socket(chats: &mut Vec<ChatEntry>, addr: SocketAddress)
    ensures
        chats_view(final(chats)@) == without_socket(chats_view(old(chats)@), addr),
{
    let ghost old_v = chats_view(chats@);
    let mut gone = IdSet::new();
    gone.insert(Identifier::Socket(addr));
    assert(gone@ =~= seq![IdView::Socket(addr)]);
    let mut rest: Vec<ChatEntry> = Vec::new();
    assert(old_v.skip(0) == old_v);
    assert(without_socket(old_v.take(0), addr) =~= chats_view(rest@));
    while chats.len() > 0
        invariant
            rest@.len() + chats@.len() == old_v.len(),
            chats_view(chats@) == old_v.skip(rest@.len() as int),
            chats_view(rest@) == without_socket(old_v.take(rest@.len() as int), addr),
            gone@ == seq![IdView::Socket(addr)],
        decreases chats.len(),
    {
        let ghost k = rest@.len() as int;
        let ghost before = chats@;
        let mut e = chats.remove(0);
        proof {
            assert(chats_view(before)[0] == old_v[k]);
            assert(chats@ =~= before.subrange(1, before.len() as int));
            assert(chats_view(chats@) =~= chats_view(before).subrange(1, before.len() as int));
            assert(old_v.skip(k).subrange(1, before.len() as int) =~= old_v.skip(k + 1));
            assert(chats_view(chats@) =~= old_v.skip(k + 1));
        }
        let members = e.chat.members.difference(&gone);
        e.chat.members = members;
        let ghost before_rest = rest@;
        rest.push(e);
        proof {
            assert(old_v.take(k + 1) == old_v.take(k).push(old_v[k]));
            assert(chats_view(rest@) =~= chats_view(before_rest).push(chats_view(rest@).last()));
            assert(without_socket(old_v.take(k + 1), addr) =~= without_socket(old_v.take(k), addr).push(
                without_socket(old_v.take(k + 1), addr)[k],
            ));
        }
    }
    assert(old_v.take(old_v.len() as int) == old_v);
    *chats = rest;
}

/// Decides what the server does with a message from the client at
/// `sender_index`, received at `received_at`: how its records change and which
/// messages go to which clients.
pub fn route_message(
    clients: &mut Vec<Client>,
    users: &mut Vec<Account>,
    chats: &mut Vec<ChatEntry>,
    dm_history: &mut Vec<DmEntry>,
    sender_index: usize,
    msg: Message,
    received_at: Timestamp,
) -> (out: Vec<Outgoing>)
    requires
        sender_index < old(clients).len(),
    ensures
        ({
            let r = route_spec(
                clients_view(old(clients)@),
                users_view(old(users)@),
                chats_view(old(chats)@),
                dms_view(old(dm_history)@),
                sender_index as int,
                msg@,
                received_at,
            );
            &&& users_view(final(users)@) == r.users
            &&& chats_view(final(chats)@) == r.chats
            &&& dms_view(final(dm_history)@) == r.dms
            &&& clients_view(final(clients)@) == match r.login {
                Some(u) => clients_view(old(clients)@).update(
                    sender_index as int,
                    ClientView { username: Some(u), addr: old(clients)@[sender_index as int].addr },
                ),
                None => clients_view(old(clients)@),
            }
            &&& outs_view(out@) == r.out
        }),
{
    let s = sender_index;
    match msg {
        Message::User(umsg) => route_user_message(
            clients,
            users,
            chats,
            dm_history,
            s,
            umsg,
            received_at,
        ),
        Message::CreateChat { chat, members } => route_create_chat(clients, chats, s, chat, members),
        Message::Login { username, password } => route_login_request(
            clients,
            users,
            s,
            username,
            password,
        ),
        Message::Get { source, range } => route_get_request(clients, chats, dm_history, s, source, range),
        Message::ModifyChatMembers { addrem, chat, members } => route_modify_members(
            chats,
            s,
            addrem,
            chat,
            members,
        ),
        _ => {
            let out: Vec<Outgoing> = Vec::new();
            assert(outs_view(out@) =~= Seq::<OutView>::empty());
            out
        },
    }
}

/// Carries out a login whose user name arrives as text, before anything has
/// checked it. A name that is not a valid user name is answered with
/// `BadUsername` to the sender, and nothing else changes; a valid one is routed
/// as a `Login`, as `route_message` does.
pub fn route_login_text(
    clients: &mut Vec<Client>,
    users: &mut Vec<Account>,
    chats: &mut Vec<ChatEntry>,
    dm_history: &mut Vec<DmEntry>,
    sender_index: usize,
    username: &str,
    password: String,
    received_at: Timestamp,
) -> (out: Vec<Outgoing>)
    requires
        sender_index < old(clients).len(),
    ensures
        user_name_check(username@) is Err ==> {
            &&& clients_view(final(clients)@) == clients_view(old(clients)@)
            &&& users_view(final(users)@) == users_view(old(users)@)
            &&& chats_view(final(chats)@) == chats_view(old(chats)@)
            &&& dms_view(final(dm_history)@) == dms_view(old(dm_history)@)
            &&& outs_view(out@) == seq![
                reply(sender_index as int, MsgView::Error(MessageError::BadUsername)),
            ]
        },
        user_name_check(username@) is Ok ==> ({
            let r = route_spec(
                clients_view(old(clients)@),
                users_view(old(users)@),
                chats_view(old(chats)@),
                dms_view(old(dm_history)@),
                sender_index as int,
                MsgView::Login { username: username@, password: password@ },
                received_at,
            );
            &&& users_view(final(users)@) == r.users
            &&& chats_view(final(chats)@) == r.chats
            &&& dms_view(final(dm_history)@) == r.dms
            &&& clients_view(final(clients)@) == match r.login {
                Some(u) => clients_view(old(clients)@).update(
                    sender_index as int,
                    ClientView { username: Some(u), addr: old(clients)@[sender_index as int].addr },
                ),
                None => clients_view(old(clients)@),
            }
            &&& outs_view(out@) == r.out
        }),
{
    match Username::parse(username) {
        Ok(name) => {
            let msg = Message::Login { username: name, password };
            route_message(clients, users, chats, dm_history, sender_index, msg, received_at)
        },
        Err(_) => {
            let mut out: Vec<Outgoing> = Vec::new();
            out.push(
                Outgoing { to: sender_index, message: Message::Error(MessageError::BadUsername) },
            );
            assert(outs_view(out@) =~= seq![
                reply(sender_index as int, MsgView::Error(MessageError::BadUsername)),
            ]);
            out
        },
    }
}

/// After reading from the client at index `i`: a client that disconnected is
/// dropped, its place taken by the last one, which is read next; else the next
/// index is read.
pub fn after_read<T>(clients: &mut Vec<T>, i: usize, disconnected: bool) -> (next: usize)
    requires
        i < old(clients).len(),
    ensures
        disconnected ==> next == i && final(clients)@ == old(clients)@.update(
            i as int,
            old(clients)@.last(),
        ).drop_last(),
        !disconnected ==> next == i + 1 && final(clients)@ == old(clients)@,
        (final(clients)@, next as int) == read_step(old(clients)@, i as int, disconnected),
{
    if disconnected {
        let _ = clients.swap_remove(i);
        i
    } else {
        i + 1
    }
}

/// The step that `after_read` takes, in the model: the list of clients and the
/// index read next.
pub open spec fn read_step<T>(cs: Seq<T>, i: int, disconnected: bool) -> (Seq<T>, int) {
    if disconnected {
        (cs.update(i, cs.last()).drop_last(), i)
    } else {
        (cs, i + 1)
    }
}

/// The list of clients after one polling pass from index `i` on, `after_read`
/// following each read, where the read of client `c` ends its connection
/// exactly when `gone(c)`.
pub open spec fn poll_pass<T>(cs: Seq<T>, i: int, gone: spec_fn(T) -> bool) -> Seq<T>
    decreases cs.len() - i,
{
    if i < 0 || i >= cs.len() {
        cs
    } else {
        let (next, j) = read_step(cs, i, gone(cs[i]));
        poll_pass(next, j, gone)
    }
}

proof fn lemma_poll_pass<T>(cs0: Seq<T>, cs: Seq<T>, i: int, gone: spec_fn(T) -> bool)
    requires
        0 <= i <= cs.len(),
        forall|k: int| 0 <= k < i ==> !gone(#[trigger] cs[k]),
        forall|c: T| cs0.contains(c) && !gone(c) ==> cs.contains(c),
        forall|c: T| cs.contains(c) ==> cs0.contains(c),
    ensures
        forall|c: T| poll_pass(cs, i, gone).contains(c) <==> (cs0.contains(c) && !gone(c)),
    decreases cs.len() - i,
{
    if i >= cs.len() {
        assert forall|c: T| cs.contains(c) implies !gone(c) by {
            let k = choose|k: int| 0 <= k < cs.len() && cs[k] == c;
            assert(!gone(cs[k]));
        }
    } else if !gone(cs[i]) {
        lemma_poll_pass(cs0, cs, i + 1, gone);
    } else {
        let n = cs.update(i, cs.last()).drop_last();
        assert(n.len() == cs.len() - 1);
        assert forall|k: int| 0 <= k < i implies !gone(#[trigger] n[k]) by {
            assert(n[k] == cs[k]);
        }
        assert forall|c: T| n.contains(c) implies cs0.contains(c) by {
            let k = choose|k: int| 0 <= k < n.len() && n[k] == c;
            if k == i {
                assert(cs.contains(cs[cs.len() - 1]));
            } else {
                assert(cs[k] == c);
                assert(cs.contains(c));
            }
        }
        assert forall|c: T| cs0.contains(c) && !gone(c) implies n.contains(c) by {
            assert(cs.contains(c));
            let m = choose|m: int| 0 <= m < cs.len() && cs[m] == c;
            assert(m != i);
            if m == cs.len() - 1 {
                assert(n[i] == c);
            } else {
                assert(n[m] == c);
            }
        }
        lemma_poll_pass(cs0, n, i, gone);
    }
}

/// Polling every client once, with `after_read` after each read, keeps exactly
/// the clients whose read did not end their connection.
pub proof fn poll_pass_keeps_the_connected<T>(cs: Seq<T>, gone: spec_fn(T) -> bool)
    ensures
        forall|c: T| poll_pass(cs, 0, gone).contains(c) <==> (cs.contains(c) && !gone(c)),
{
    lemma_poll_pass(cs, cs, 0, gone);
}

proof fn lemma_broadcast_skips_sender(n: int, s: int, m: MsgView)
    ensures
        forall|k: int| 0 <= k < broadcast(n, s, m).len() ==> (#[trigger] broadcast(n, s, m)[k]).to != s,
    decreases n,
{
    if n > 0 {
        lemma_broadcast_skips_sender(n - 1, s, m);
    }
}

proof fn lemma_members_skip_sender(cs: Seq<ClientView>, s: int, members: Seq<IdView>, m: MsgView)
    requires
        0 <= s < cs.len(),
    ensures
        forall|k: int|
            0 <= k < member_deliveries(cs, s, members, m).len() ==> (#[trigger] member_deliveries(
                cs,
                s,
                members,
                m,
            )[k]).to != s,
    decreases members.len(),
{
    if members.len() > 0 {
        lemma_members_skip_sender(cs, s, members.drop_last(), m);
        let id = members.last();
        lemma_client_from(cs, id, 0);
    }
}

/// A message to a chat, the global one or a named one, is never sent back to
/// the client that wrote it: only the acknowledgement and the final answer go there.
pub proof fn chat_messages_skip_sender(
    cs: Seq<ClientView>,
    users: Seq<(Seq<char>, Seq<char>)>,
    chats: Seq<(Seq<char>, ChatView)>,
    dms: Seq<((IdView, IdView), Seq<UserMessageView>)>,
    s: int,
    u: UserMessageView,
    now: Timestamp,
)
    requires
        0 <= s < cs.len(),
        u.destination is Chat,
    ensures
        forall|k: int|
            0 <= k < route_user(cs, users, chats, dms, s, u, now).out.len() ==> (
            #[trigger] route_user(cs, users, chats, dms, s, u, now).out[k]).msg is User
                ==> route_user(cs, users, chats, dms, s, u, now).out[k].to != s,
{
    let u2 = stamped(u, client_id(cs[s]), now);
    lemma_broadcast_skips_sender(cs.len() as int, s, MsgView::User(u2));
    match chat_from(chats, u.destination->Chat_0, 0) {
        Some(i) => {
            lemma_chat_from(chats, u.destination->Chat_0, 0);
            lemma_members_skip_sender(cs, s, chats[i].1.members, MsgView::User(u2));
        },
        None => {},
    }
}

/// No two entries share a key.
pub open spec fn unique_keys<K, V>(v: Seq<(K, V)>) -> bool {
    forall|i: int, j: int| 0 <= i < j < v.len() ==> #[trigger] v[i].0 != #[trigger] v[j].0
}

proof fn lemma_push_unique<K, V>(v: Seq<(K, V)>, e: (K, V))
    requires
        unique_keys(v),
        forall|i: int| 0 <= i < v.len() ==> #[trigger] v[i].0 != e.0,
    ensures
        unique_keys(v.push(e)),
{
    assert forall|i: int, j: int| 0 <= i < j < v.push(e).len() implies #[trigger] v.push(e)[i].0
        != #[trigger] v.push(e)[j].0 by {
        if j == v.len() {
            assert(v.push(e)[i] == v[i]);
        } else {
            assert(v.push(e)[i] == v[i] && v.push(e)[j] == v[j]);
        }
    }
}

proof fn lemma_update_unique<K, V>(v: Seq<(K, V)>, i: int, e: (K, V))
    requires
        unique_keys(v),
        0 <= i < v.len(),
        e.0 == v[i].0,
    ensures
        unique_keys(v.update(i, e)),
{
    assert forall|a: int, b: int| 0 <= a < b < v.update(i, e).len() implies #[trigger] v.update(
        i,
        e,
    )[a].0 != #[trigger] v.update(i, e)[b].0 by {
        assert(v.update(i, e)[a].0 == v[a].0);
        assert(v.update(i, e)[b].0 == v[b].0);
    }
}

proof fn lemma_chat_absent(v: Seq<(Seq<char>, ChatView)>, name: Seq<char>, i: int)
    requires
        0 <= i,
        chat_from(v, name, i) is None,
    ensures
        forall|k: int| i <= k < v.len() ==> #[trigger] v[k].0 != name,
    decreases v.len() - i,
{
    if i < v.len() {
        lemma_chat_absent(v, name, i + 1);
    }
}

proof fn lemma_user_absent(v: Seq<(Seq<char>, Seq<char>)>, name: Seq<char>, i: int)
    requires
        0 <= i,
        user_from(v, name, i) is None,
    ensures
        forall|k: int| i <= k < v.len() ==> #[trigger] v[k].0 != name,
    decreases v.len() - i,
{
    if i < v.len() {
        lemma_user_absent(v, name, i + 1);
    }
}

proof fn lemma_dm_absent(v: Seq<((IdView, IdView), Seq<UserMessageView>)>, p: (IdView, IdView), i: int)
    requires
        0 <= i,
        dm_from(v, p, i) is None,
    ensures
        forall|k: int| i <= k < v.len() ==> #[trigger] v[k].0 != p,
    decreases v.len() - i,
{
    if i < v.len() {
        lemma_dm_absent(v, p, i + 1);
    }
}

/// Routing keeps the records keyed: no two accounts share a user name, no two
/// chats a name, and no two direct-message histories a pair of parties.
pub proof fn route_keeps_keys_unique(
    cs: Seq<ClientView>,
    users: Seq<(Seq<char>, Seq<char>)>,
    chats: Seq<(Seq<char>, ChatView)>,
    dms: Seq<((IdView, IdView), Seq<UserMessageView>)>,
    s: int,
    m: MsgView,
    now: Timestamp,
)
    requires
        0 <= s < cs.len(),
        unique_keys(users),
        unique_keys(chats),
        unique_keys(dms),
    ensures
        unique_keys(route_spec(cs, users, chats, dms, s, m, now).users),
        unique_keys(route_spec(cs, users, chats, dms, s, m, now).chats),
        unique_keys(route_spec(cs, users, chats, dms, s, m, now).dms),
{
    let sid = client_id(cs[s]);
    match m {
        MsgView::User(u) => {
            let u2 = stamped(u, sid, now);
            match u.destination {
                DestView::Chat(name) => {
                    if name.len() > 0 {
                        lemma_chat_from(chats, name, 0);
                        if let Some(i) = chat_from(chats, name, 0) {
                            lemma_update_unique(
                                chats,
                                i,
                                (
                                    chats[i].0,
                                    ChatView {
                                        members: chats[i].1.members,
                                        messages: chats[i].1.messages.push(u2),
                                    },
                                ),
                            );
                        }
                    }
                },
                DestView::Client(id) => {
                    if let Some(p) = dm_pair(sid, id) {
                        lemma_dm_from(dms, p, 0);
                        match dm_from(dms, p, 0) {
                            Some(i) => lemma_update_unique(dms, i, (dms[i].0, dms[i].1.push(u2))),
                            None => {
                                lemma_dm_absent(dms, p, 0);
                                lemma_push_unique(dms, (p, seq![u2]));
                            },
                        }
                    }
                },
            }
        },
        MsgView::CreateChat { chat, members } => {
            if chat_from(chats, chat, 0) is None {
                lemma_chat_absent(chats, chat, 0);
                lemma_push_unique(
                    chats,
                    (
                        chat,
                        ChatView {
                            members: crate::chat::ident::with_member(members, sid),
                            messages: seq![],
                        },
                    ),
                );
            }
        },
        MsgView::Login { username, password } => {
            if user_from(users, username, 0) is None {
                lemma_user_absent(users, username, 0);
                lemma_push_unique(users, (username, password));
            }
        },
        MsgView::ModifyChatMembers { addrem, chat, members } => {
            lemma_chat_from(chats, chat, 0);
            if let Some(i) = chat_from(chats, chat, 0) {
                lemma_update_unique(
                    chats,
                    i,
                    (
                        chats[i].0,
                        ChatView {
                            members: match addrem {
                                MemberDiff::Remove => without(chats[i].1.members, members),
                                MemberDiff::Add => union_with(chats[i].1.members, members),
                            },
                            messages: chats[i].1.messages,
                        },
                    ),
                );
            }
        },
        _ => {},
    }
}

/// Some member of the list names the client at index `to`.
pub open spec fn reaches_member(cs: Seq<ClientView>, to: int, members: Seq<IdView>) -> bool {
    exists|j: int| 0 <= j < members.len() && client_matches(cs[to], #[trigger] members[j])
}

proof fn lemma_members_reached(cs: Seq<ClientView>, s: int, members: Seq<IdView>, m: MsgView)
    requires
        0 <= s < cs.len(),
    ensures
        forall|k: int|
            0 <= k < member_deliveries(cs, s, members, m).len() ==> {
                let o = #[trigger] member_deliveries(cs, s, members, m)[k];
                0 <= o.to < cs.len() && reaches_member(cs, o.to, members)
            },
    decreases members.len(),
{
    if members.len() > 0 {
        let d = members.drop_last();
        lemma_members_reached(cs, s, d, m);
        let id = members.last();
        lemma_client_from(cs, id, 0);
        let prev = member_deliveries(cs, s, d, m);
        let all = member_deliveries(cs, s, members, m);
        assert forall|k: int| 0 <= k < all.len() implies {
            let o = #[trigger] all[k];
            0 <= o.to < cs.len() && reaches_member(cs, o.to, members)
        } by {
            if k < prev.len() {
                assert(all[k] == prev[k]);
                let o = prev[k];
                let j = choose|j: int| 0 <= j < d.len() && client_matches(cs[o.to], #[trigger] d[j]);
                assert(members[j] == d[j]);
            } else {
                let i = client_from(cs, id, 0)->Some_0;
                assert(all[k].to == i);
                assert(members[members.len() - 1] == id);
            }
        }
    }
}

/// A message to a named chat reaches only clients that are members of it.
pub proof fn chat_messages_reach_only_members(
    cs: Seq<ClientView>,
    users: Seq<(Seq<char>, Seq<char>)>,
    chats: Seq<(Seq<char>, ChatView)>,
    dms: Seq<((IdView, IdView), Seq<UserMessageView>)>,
    s: int,
    u: UserMessageView,
    now: Timestamp,
)
    requires
        0 <= s < cs.len(),
        u.destination matches DestView::Chat(name) && name.len() > 0,
    ensures
        forall|k: int|
            0 <= k < route_user(cs, users, chats, dms, s, u, now).out.len() ==> (
            #[trigger] route_user(cs, users, chats, dms, s, u, now).out[k]).msg is User ==> {
                let o = route_user(cs, users, chats, dms, s, u, now).out[k];
                let i = chat_from(chats, u.destination->Chat_0, 0)->Some_0;
                &&& chat_from(chats, u.destination->Chat_0, 0) is Some
                &&& 0 <= o.to < cs.len()
                &&& reaches_member(cs, o.to, chats[i].1.members)
            },
{
    let name = u.destination->Chat_0;
    let u2 = stamped(u, client_id(cs[s]), now);
    if let Some(i) = chat_from(chats, name, 0) {
        lemma_chat_from(chats, name, 0);
        let members = chats[i].1.members;
        lemma_members_reached(cs, s, members, MsgView::User(u2));
        let md = member_deliveries(cs, s, members, MsgView::User(u2));
        let out = route_user(cs, users, chats, dms, s, u, now).out;
        assert(out == seq![reply(s, MsgView::Acknowledge)] + md + seq![reply(s, MsgView::Success)]);
        assert forall|k: int| 0 <= k < out.len() && (#[trigger] out[k]).msg is User implies {
            let o = out[k];
            0 <= o.to < cs.len() && reaches_member(cs, o.to, members)
        } by {
            assert(1 <= k < 1 + md.len());
            assert(out[k] == md[k - 1]);
        }
    }
}

proof fn lemma_user_from_push(v: Seq<(Seq<char>, Seq<char>)>, e: (Seq<char>, Seq<char>), i: int)
    requires
        0 <= i <= v.len(),
        forall|k: int| i <= k < v.len() ==> #[trigger] v[k].0 != e.0,
    ensures
        user_from(v.push(e), e.0, i) == Some(v.len() as int),
    decreases v.len() - i,
{
    if i < v.len() {
        assert(v.push(e)[i] == v[i]);
        lemma_user_from_push(v, e, i + 1);
    } else {
        assert(v.push(e)[i] == e);
    }
}

/// A user name is taken by the first login with it; after that, a login with it
/// succeeds exactly when it gives the same password.
pub proof fn login_needs_the_first_password(
    cs: Seq<ClientView>,
    users: Seq<(Seq<char>, Seq<char>)>,
    chats: Seq<(Seq<char>, ChatView)>,
    dms: Seq<((IdView, IdView), Seq<UserMessageView>)>,
    s: int,
    t: int,
    name: Seq<char>,
    first: Seq<char>,
    later: Seq<char>,
)
    requires
        user_chars_only(name),
        user_from(users, name, 0) is None,
    ensures
        route_login(cs, users, chats, dms, s, name, first).login == Some(name),
        route_login(
            cs,
            route_login(cs, users, chats, dms, s, name, first).users,
            chats,
            dms,
            t,
            name,
            later,
        ).out == if later == first {
            seq![reply(t, MsgView::Success)]
        } else {
            seq![reply(t, MsgView::Error(MessageError::WrongPassword))]
        },
{
    lemma_user_absent(users, name, 0);
    lemma_user_from_push(users, (name, first), 0);
}

} // verus!
