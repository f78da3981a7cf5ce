use terminal_chat::chat::client::{
    add_line, attach_to_message, classify_input, create_chat, display_message,
    edit_chat_membership, input_line, log_in, member_diff, save_attachment, show_message,
    switch_chat,
    take_message, Action, CliArgs, Command, CommandError, Input,
};
use terminal_chat::chat::ident::{IdSet, Identifier, SocketAddress};
use terminal_chat::chat::message::{
    Attachment, Destination, MemberDiff, Message, MessageError, ParseDestinationError,
    ParseIdentifierError, Timestamp, UserMessage, MAX_ATTACHMENTS,
};
use terminal_chat::chat::server::{
    after_read, dmid, forget_socket, route_login_text, route_message, Account, ChatEntry, Client, DmEntry, Outgoing,
};
use terminal_chat::escapes::UnescapeError;
use terminal_chat::names::{ChatName, ParseChatNameError, Username};

fn addr(last: u8, port: u16) -> SocketAddress {
    SocketAddress::V4 { ip: u32::from_be_bytes([10, 0, 0, last]), port }
}

fn user(name: &str) -> Identifier {
    Identifier::User(Username::parse(name).unwrap())
}

fn chat(name: &str) -> ChatName {
    ChatName::parse(name).unwrap()
}

fn message(dest: Destination, text: &str) -> UserMessage {
    UserMessage {
        sender: None,
        destination: dest,
        timestamp: Timestamp { secs: 1, nanos: 0 },
        text: text.to_string(),
        attachments: Vec::new(),
    }
}

struct Server {
    clients: Vec<Client>,
    users: Vec<Account>,
    chats: Vec<ChatEntry>,
    dms: Vec<DmEntry>,
}

impl Server {
    fn new() -> Self {
        Server {
            clients: vec![
                Client { username: None, addr: addr(1, 5000) },
                Client { username: Some(Username::parse("bob").unwrap()), addr: addr(2, 5000) },
                Client { username: None, addr: addr(3, 5000) },
            ],
            users: Vec::new(),
            chats: Vec::new(),
            dms: Vec::new(),
        }
    }

    fn route(&mut self, from: usize, msg: Message) -> Vec<Outgoing> {
        route_message(
            &mut self.clients,
            &mut self.users,
            &mut self.chats,
            &mut self.dms,
            from,
            msg,
            Timestamp { secs: 99, nanos: 5 },
        )
    }
}

fn reply(to: usize, message: Message) -> Outgoing {
    Outgoing { to, message }
}

#[test]
fn dm_keys_are_ordered() {
    let a = Identifier::Socket(addr(1, 1));
    let b = user("bob");
    assert_eq!(dmid(a.clone(), b.clone()), Ok([a.clone(), b.clone()]));
    assert_eq!(dmid(b.clone(), a.clone()), Ok([a.clone(), b.clone()]));
    assert_eq!(dmid(user("zed"), user("amy")), Ok([user("amy"), user("zed")]));
    assert_eq!(dmid(b.clone(), user("bob")), Err(MessageError::SelfSend));
}

#[test]
fn socket_addresses_order_v4_first() {
    let v6 = Identifier::Socket(SocketAddress::V6 { ip: 1, port: 0, flowinfo: 0, scope_id: 0 });
    let v4 = Identifier::Socket(addr(200, 9));
    assert!(v4.precedes(&v6));
    assert!(!v6.precedes(&v4));
    assert!(Identifier::Socket(addr(1, 9)).precedes(&Identifier::Socket(addr(1, 10))));
}

#[test]
fn id_sets_stay_ordered() {
    let mut set = IdSet::from_vec(vec![user("bob"), Identifier::Socket(addr(1, 1)), user("alice")]);
    assert_eq!(set.len(), 3);
    assert_eq!(set.get(0), &Identifier::Socket(addr(1, 1)));
    assert_eq!(set.get(1), &user("alice"));
    assert_eq!(set.get(2), &user("bob"));
    set.insert(user("alice"));
    assert_eq!(set.len(), 3);
    set.insert(user("carol"));
    assert_eq!(set.get(3), &user("carol"));
    let other = IdSet::from_vec(vec![user("bob"), user("dave")]);
    let rest = set.difference(&other);
    assert_eq!(rest.len(), 3);
    assert!(!rest.contains(&user("bob")));
    set.append(&other);
    assert_eq!(set.len(), 5);
    assert_eq!(set.get(4), &user("dave"));
}

#[test]
fn login_creates_then_checks_accounts() {
    let mut s = Server::new();
    let out = s.route(0, Message::Login { username: Username::parse("alice").unwrap(), password: "pw".to_string() });
    assert_eq!(out, vec![reply(0, Message::Success)]);
    assert_eq!(s.clients[0].username, Some(Username::parse("alice").unwrap()));
    assert_eq!(s.users.len(), 1);
    let out = s.route(2, Message::Login { username: Username::parse("alice").unwrap(), password: "nope".to_string() });
    assert_eq!(out, vec![reply(2, Message::Error(MessageError::WrongPassword))]);
    assert_eq!(s.clients[2].username, None);
    let out = s.route(2, Message::Login { username: Username::parse("alice").unwrap(), password: "pw".to_string() });
    assert_eq!(out, vec![reply(2, Message::Success)]);
    assert_eq!(s.clients[2].username, Some(Username::parse("alice").unwrap()));
    assert_eq!(s.users.len(), 1);
}

#[test]
fn chats_are_created_once_with_their_creator() {
    let mut s = Server::new();
    let out = s.route(0, Message::CreateChat { chat: chat("team"), members: IdSet::from_vec(vec![user("bob")]) });
    assert_eq!(out, vec![reply(0, Message::Success)]);
    assert_eq!(s.chats.len(), 1);
    assert!(s.chats[0].chat.members.contains(&Identifier::Socket(addr(1, 5000))));
    assert!(s.chats[0].chat.members.contains(&user("bob")));
    let out = s.route(1, Message::CreateChat { chat: chat("team"), members: IdSet::new() });
    assert_eq!(out, vec![reply(1, Message::Error(MessageError::ChatTaken))]);
}

#[test]
fn chat_messages_go_to_other_members() {
    let mut s = Server::new();
    s.route(0, Message::CreateChat { chat: chat("team"), members: IdSet::from_vec(vec![user("bob")]) });
    let mut m = message(Destination::Chat(chat("team")), "hi team");
    m.attachments.push(Attachment {
        filename: "my notes.txt".to_string(),
        alt_text: "notes".to_string(),
        data: vec![1, 2],
    });
    let out = s.route(0, Message::User(m));
    let mut expected = message(Destination::Chat(chat("team")), "hi team");
    expected.sender = Some(Identifier::Socket(addr(1, 5000)));
    expected.timestamp = Timestamp { secs: 99, nanos: 5 };
    expected.attachments.push(Attachment {
        filename: "my_notes.txt".to_string(),
        alt_text: "notes".to_string(),
        data: vec![1, 2],
    });
    assert_eq!(
        out,
        vec![
            reply(0, Message::Acknowledge),
            reply(1, Message::User(expected.duplicate())),
            reply(0, Message::Success),
        ]
    );
    assert_eq!(s.chats[0].chat.messages, vec![expected]);
}

#[test]
fn global_messages_go_to_everyone_else() {
    let mut s = Server::new();
    let out = s.route(1, Message::User(message(Destination::Chat(ChatName::global()), "hello all")));
    assert_eq!(out.len(), 3);
    assert_eq!(out[0], reply(1, Message::Acknowledge));
    assert_eq!(out[1].to, 0);
    assert_eq!(out[2].to, 2);
    assert!(s.chats.is_empty());
}

#[test]
fn unknown_chat_is_refused() {
    let mut s = Server::new();
    let out = s.route(0, Message::User(message(Destination::Chat(chat("nowhere")), "x")));
    assert_eq!(
        out,
        vec![reply(0, Message::Acknowledge), reply(0, Message::Error(MessageError::DstNexists))]
    );
}

#[test]
fn direct_messages_are_kept_and_delivered() {
    let mut s = Server::new();
    let out = s.route(0, Message::User(message(Destination::Client(user("bob")), "psst")));
    assert_eq!(out.len(), 2);
    assert_eq!(out[1].to, 1);
    assert_eq!(s.dms.len(), 1);
    assert_eq!(s.dms[0].pair, [Identifier::Socket(addr(1, 5000)), user("bob")]);
    s.route(1, Message::User(message(Destination::Client(Identifier::Socket(addr(1, 5000))), "yes?")));
    assert_eq!(s.dms.len(), 1);
    assert_eq!(s.dms[0].history.len(), 2);
    let out = s.route(0, Message::Get { source: Destination::Client(user("bob")), range: (0, 10) });
    match &out[0].message {
        Message::GetResponse(list) => {
            assert_eq!(list.len(), 2);
            assert_eq!(list[0].text, "yes?");
            assert_eq!(list[1].text, "psst");
        },
        other => panic!("unexpected answer {other:?}"),
    }
}

#[test]
fn messages_to_oneself_are_refused() {
    let mut s = Server::new();
    let out = s.route(1, Message::User(message(Destination::Client(user("bob")), "me")));
    assert_eq!(
        out,
        vec![reply(1, Message::Acknowledge), reply(1, Message::Error(MessageError::SelfSend))]
    );
}

#[test]
fn history_window_is_newest_first() {
    let mut s = Server::new();
    s.route(0, Message::CreateChat { chat: chat("log"), members: IdSet::new() });
    for t in ["one", "two", "three"] {
        s.route(0, Message::User(message(Destination::Chat(chat("log")), t)));
    }
    let out = s.route(0, Message::Get { source: Destination::Chat(chat("log")), range: (1, 5) });
    match &out[0].message {
        Message::GetResponse(list) => {
            let texts: Vec<&str> = list.iter().map(|m| m.text.as_str()).collect();
            assert_eq!(texts, vec!["two", "one"]);
        },
        other => panic!("unexpected answer {other:?}"),
    }
    let out = s.route(0, Message::Get { source: Destination::Chat(chat("none")), range: (0, 5) });
    assert_eq!(out, vec![reply(0, Message::Error(MessageError::DstNexists))]);
    let out = s.route(0, Message::Get { source: Destination::Client(user("bob")), range: (0, 5) });
    assert_eq!(out, vec![reply(0, Message::Success)]);
}

#[test]
fn members_can_be_added_and_removed() {
    let mut s = Server::new();
    s.route(0, Message::CreateChat { chat: chat("team"), members: IdSet::new() });
    let out = s.route(0, Message::ModifyChatMembers {
        addrem: MemberDiff::Add,
        chat: chat("team"),
        members: IdSet::from_vec(vec![user("bob"), user("carol")]),
    });
    assert!(out.is_empty());
    assert_eq!(s.chats[0].chat.members.len(), 3);
    s.route(0, Message::ModifyChatMembers {
        addrem: MemberDiff::Remove,
        chat: chat("team"),
        members: IdSet::from_vec(vec![user("carol")]),
    });
    assert_eq!(s.chats[0].chat.members.len(), 2);
    assert!(!s.chats[0].chat.members.contains(&user("carol")));
    let out = s.route(0, Message::ModifyChatMembers {
        addrem: MemberDiff::Add,
        chat: chat("other"),
        members: IdSet::new(),
    });
    assert_eq!(out, vec![reply(0, Message::Error(MessageError::DstNexists))]);
}

#[test]
fn answers_are_not_answered() {
    let mut s = Server::new();
    assert!(s.route(0, Message::Acknowledge).is_empty());
    assert!(s.route(0, Message::Success).is_empty());
    assert!(s.route(0, Message::Error(MessageError::MsgNexists)).is_empty());
    assert!(s.route(0, Message::GetResponse(Vec::new())).is_empty());
}

#[test]
fn disconnected_clients_are_swapped_out() {
    let mut clients = vec![1, 2, 3, 4];
    assert_eq!(after_read(&mut clients, 1, true), 1);
    assert_eq!(clients, vec![1, 4, 3]);
    assert_eq!(after_read(&mut clients, 1, false), 2);
    assert_eq!(clients, vec![1, 4, 3]);
}

#[test]
fn destinations_parse_by_prefix() {
    assert_eq!(Destination::parse("#general", None), Ok(Destination::Chat(chat("general"))));
    assert_eq!(Destination::parse("@bob", None), Ok(Destination::Client(user("bob"))));
    assert_eq!(
        Destination::parse("10.0.0.1:80", Some(addr(1, 80))),
        Ok(Destination::Client(Identifier::Socket(addr(1, 80))))
    );
    assert_eq!(Destination::parse("nonsense", None), Err(ParseDestinationError::Socket));
    assert_eq!(
        Destination::parse("#Bad", None),
        Err(ParseDestinationError::Chat(ParseChatNameError::BadChar))
    );
}

#[test]
fn identifiers_parse_by_colon() {
    assert_eq!(Identifier::parse("bob", None), Ok(user("bob")));
    assert_eq!(Identifier::parse("1.2.3.4:5", None), Err(ParseIdentifierError::Socket));
    assert_eq!(
        Identifier::parse("1.2.3.4:5", Some(addr(9, 5))),
        Ok(Identifier::Socket(addr(9, 5)))
    );
}

#[test]
fn error_texts() {
    assert_eq!(MessageError::SelfSend.message(), "cannot send messages to yourself");
    assert_eq!(MessageError::WrongPassword.message(), "incorrect password, try again");
}

fn all_args(line: &str) -> Vec<(String, bool)> {
    let mut args = CliArgs::new(line);
    let mut v = Vec::new();
    while let Some(a) = args.next() {
        v.push(a);
    }
    v
}

#[test]
fn command_lines_split_into_arguments() {
    let args = all_args("chat.new \"my chat\" 'x y'   `z` plain  ");
    let texts: Vec<&str> = args.iter().map(|(a, _)| a.as_str()).collect();
    assert_eq!(texts, vec!["chat.new", "my chat", "x y", "z", "plain"]);
    assert!(args.iter().all(|(_, missing)| !missing));
}

#[test]
fn escaped_quotes_stay_inside_arguments() {
    let args = all_args(r#"say "a \"b\" c" d"#);
    assert_eq!(args[1].0, r#"a \"b\" c"#);
    assert_eq!(args[2].0, "d");
}

#[test]
fn unclosed_quote_runs_to_the_end() {
    let args = all_args("atch.add -a \"no end here");
    assert_eq!(args[2], ("no end here".to_string(), true));
    assert!(all_args("   ").is_empty());
}

#[test]
fn member_edits_need_a_named_chat() {
    let dm = Destination::Client(user("bob"));
    assert_eq!(
        edit_chat_membership(&dm, None, IdSet::new(), MemberDiff::Add),
        Err(CommandError::EditDm)
    );
    let global = Destination::Chat(ChatName::global());
    assert_eq!(
        edit_chat_membership(&global, None, IdSet::new(), MemberDiff::Add),
        Err(CommandError::EditGlobal)
    );
    let team = chat("team");
    assert_eq!(
        edit_chat_membership(&dm, Some(&team), IdSet::new(), MemberDiff::Remove),
        Ok(Message::ModifyChatMembers { addrem: MemberDiff::Remove, chat: chat("team"), members: IdSet::new() })
    );
    assert_eq!(member_diff(false, false), MemberDiff::Add);
    assert_eq!(member_diff(false, true), MemberDiff::Remove);
}

#[test]
fn switching_and_creating_change_destination() {
    let mut dest = Destination::default();
    let req = switch_chat(&mut dest, Destination::Chat(chat("team")));
    assert_eq!(dest, Destination::Chat(chat("team")));
    assert_eq!(req, Message::Get { source: Destination::Chat(chat("team")), range: (0, 10) });
    let req = create_chat(&mut dest, chat("new"), IdSet::new());
    assert_eq!(dest, Destination::Chat(chat("new")));
    assert_eq!(req, Message::CreateChat { chat: chat("new"), members: IdSet::new() });
    assert_eq!(
        log_in(Username::parse("amy").unwrap(), "pw".to_string()),
        Message::Login { username: Username::parse("amy").unwrap(), password: "pw".to_string() }
    );
}

#[test]
fn attachments_are_chosen_from_the_newest_message() {
    let mut m = message(Destination::default(), "files");
    for name in ["a.txt", "b.txt"] {
        m.attachments.push(Attachment { filename: name.to_string(), alt_text: String::new(), data: vec![] });
    }
    let history = vec![message(Destination::default(), "old"), m];
    assert_eq!(save_attachment(&history, None, Some("b.txt")), Ok(1));
    assert_eq!(save_attachment(&history, Some(0), None), Ok(0));
    assert_eq!(save_attachment(&history, Some(5), None), Err(CommandError::AtchNexists));
    assert_eq!(save_attachment(&history, None, Some("c.txt")), Err(CommandError::AtchNexists));
    assert_eq!(save_attachment(&[], Some(0), None), Err(CommandError::AtchNexists));
}

#[test]
fn attachments_are_limited() {
    let mut m = UserMessage::default();
    for _ in 0..MAX_ATTACHMENTS {
        let a = Attachment { filename: "f".to_string(), alt_text: String::new(), data: vec![0] };
        assert_eq!(attach_to_message(&mut m, a), Ok(()));
    }
    let extra = Attachment { filename: "g".to_string(), alt_text: String::new(), data: vec![] };
    assert_eq!(attach_to_message(&mut m, extra), Err(CommandError::TooManyAttachments));
    assert_eq!(m.attachments.len(), MAX_ATTACHMENTS);
}

#[test]
fn typed_lines_build_a_message() {
    let mut m = UserMessage::default();
    add_line(&mut m, "first line  ");
    add_line(&mut m, "second\t");
    assert_eq!(m.text, "first line\nsecond");
    let sent = take_message(&mut m, &Destination::Chat(chat("team")));
    match sent {
        Message::User(u) => {
            assert_eq!(u.text, "first line\nsecond");
            assert_eq!(u.destination, Destination::Chat(chat("team")));
        },
        other => panic!("unexpected message {other:?}"),
    }
    assert_eq!(m, UserMessage::default());
}

#[test]
fn received_messages_are_displayed() {
    let mut m = message(Destination::Chat(ChatName::global()), "hi");
    m.sender = Some(user("bob"));
    m.attachments.push(Attachment { filename: "a.png".to_string(), alt_text: "cat".to_string(), data: vec![] });
    assert_eq!(
        display_message(&m, "", "12:00"),
        "\x1b[90mfrom \x1b[96mbob\x1b[90m in \x1b[92mglobal\x1b[90m at 12:00\x1b[90m:\x1b[0m\nhi\n\x1b[90mattachments:\x1b[94m\n- [cat](a.png)\n\x1b[90m------\x1b[0m\n"
    );
    let mut d = message(Destination::Client(user("amy")), "yo");
    d.sender = Some(Identifier::Socket(addr(1, 2)));
    assert_eq!(
        display_message(&d, "10.0.0.1:2", "t"),
        "\x1b[90mfrom \x1b[94m10.0.0.1:2\x1b[90m at t\x1b[90m:\x1b[0m\nyo\n\x1b[90m------\x1b[0m\n"
    );
}

#[test]
fn input_lines_lose_their_breaks() {
    assert_eq!(input_line("hello\r\n"), Some("hello".to_string()));
    assert_eq!(input_line("exit\n"), None);
    assert_eq!(input_line("/exit\r\n"), None);
    assert_eq!(input_line("exit now\n"), Some("exit now".to_string()));
}

#[test]
fn new_messages_have_no_sender() {
    let at = Timestamp { secs: 1_700_000_000, nanos: 5 };
    let m = UserMessage::new(Destination::default(), "x".to_string(), Vec::new(), at);
    assert!(m.sender.is_none());
    assert_eq!(m.text, "x");
    assert_eq!(m.timestamp, at);
}

#[test]
fn typed_lines_are_sorted() {
    assert_eq!(classify_input("/iam bob pw"), Input::Command("iam bob pw".to_string()));
    assert_eq!(classify_input(""), Input::Send);
    assert_eq!(classify_input("hello"), Input::Line("hello".to_string()));
}

#[test]
fn commands_decide_their_action() {
    let mut dest = Destination::default();
    let blank = UserMessage::default();
    let history: Vec<UserMessage> = Vec::new();
    let action = Command::SetChat { destination: Destination::Client(user("bob")) }
        .run(&mut dest, &blank, &history);
    assert_eq!(
        action,
        Ok(Action::Send(Message::Get { source: Destination::Client(user("bob")), range: (0, 10) }))
    );
    assert_eq!(dest, Destination::Client(user("bob")));
    let action = Command::ModifyChat { chat: None, add: true, remove: false, members: vec![user("amy")] }
        .run(&mut dest, &blank, &history);
    assert_eq!(action, Err(CommandError::EditDm));
    let action = Command::CreateChat { name: chat("club"), members: vec![user("zed"), user("amy")] }
        .run(&mut dest, &blank, &history);
    assert_eq!(
        action,
        Ok(Action::Send(Message::CreateChat {
            chat: chat("club"),
            members: IdSet::from_vec(vec![user("amy"), user("zed")]),
        }))
    );
    assert_eq!(dest, Destination::Chat(chat("club")));
    let action = Command::Attach { alt_text: "pic".to_string(), file: "a.png".to_string() }
        .run(&mut dest, &blank, &history);
    assert_eq!(
        action,
        Ok(Action::Attach { file: "a.png".to_string(), alt_text: "pic".to_string() })
    );
}

#[test]
fn saving_names_the_file() {
    let mut dest = Destination::default();
    let mut m = message(Destination::default(), "files");
    m.attachments.push(Attachment { filename: "a.txt".to_string(), alt_text: String::new(), data: vec![7] });
    let history = vec![m];
    let blank = UserMessage::default();
    let action = Command::SaveAttachment { file_index: Some(0), filename: None, output: None }
        .run(&mut dest, &blank, &history);
    assert_eq!(action, Ok(Action::Save { path: "a.txt".to_string(), data: vec![7] }));
    let action = Command::SaveAttachment {
        file_index: None,
        filename: Some("a.txt".to_string()),
        output: Some("copy.txt".to_string()),
    }
    .run(&mut dest, &blank, &history);
    assert_eq!(action, Ok(Action::Save { path: "copy.txt".to_string(), data: vec![7] }));
}

#[test]
fn disconnected_sockets_leave_chats() {
    let mut s = Server::new();
    s.route(1, Message::CreateChat {
        chat: chat("team"),
        members: IdSet::from_vec(vec![Identifier::Socket(addr(3, 5000))]),
    });
    assert!(s.chats[0].chat.members.contains(&Identifier::Socket(addr(3, 5000))));
    forget_socket(&mut s.chats, addr(3, 5000));
    assert!(!s.chats[0].chat.members.contains(&Identifier::Socket(addr(3, 5000))));
    assert!(s.chats[0].chat.members.contains(&user("bob")));
}

#[test]
fn alt_text_escapes_are_converted() {
    let args = all_args(r#"atch.add -a "a\x41b" f.txt"#);
    assert_eq!(args[2].0, r#"a\x41b"#);
    let mut dest = Destination::default();
    let blank = UserMessage::default();
    let action = Command::Attach { alt_text: args[2].0.clone(), file: "f.txt".to_string() }
        .run(&mut dest, &blank, &[]);
    assert_eq!(
        action,
        Ok(Action::Attach { file: "f.txt".to_string(), alt_text: "aAb".to_string() })
    );
    let action = Command::Attach { alt_text: r#"bad\q"#.to_string(), file: "f.txt".to_string() }
        .run(&mut dest, &blank, &[]);
    assert_eq!(action, Err(CommandError::BadAltText(UnescapeError::BadEsc('q'))));
}

#[test]
fn logins_with_invalid_names_are_refused() {
    let mut s = Server::new();
    for name in ["9lives", "bad name", "x!"] {
        let out = route_login_text(
            &mut s.clients,
            &mut s.users,
            &mut s.chats,
            &mut s.dms,
            0,
            name,
            "pw".to_string(),
            Timestamp { secs: 1, nanos: 0 },
        );
        assert_eq!(out, vec![reply(0, Message::Error(MessageError::BadUsername))]);
        assert!(s.users.is_empty());
        assert_eq!(s.clients[0].username, None);
    }
    let out = route_login_text(
        &mut s.clients,
        &mut s.users,
        &mut s.chats,
        &mut s.dms,
        0,
        "ann_1",
        "pw".to_string(),
        Timestamp { secs: 1, nanos: 0 },
    );
    assert_eq!(out, vec![reply(0, Message::Success)]);
    assert_eq!(s.clients[0].username, Some(Username::parse("ann_1").unwrap()));
}

#[test]
fn shown_messages_carry_their_utc_time() {
    let mut m = message(Destination::default(), "hi");
    m.timestamp = Timestamp { secs: 86_400 + 3_661, nanos: 0 };
    let text = show_message(&m, "");
    assert!(text.contains(" at 1970-01-02 01:01:01\x1b[90m:"), "{text:?}");
    m.timestamp = Timestamp { secs: i64::MAX, nanos: 0 };
    assert!(show_message(&m, "").contains(" at ?\x1b[90m:"));
}

#[test]
fn a_polling_pass_keeps_the_connected() {
    let mut clients = vec![1, 2, 3, 4, 5, 6];
    let gone = |c: i32| c % 2 == 0 || c == 5;
    let mut polled = Vec::new();
    let mut i = 0;
    while i < clients.len() {
        polled.push(clients[i]);
        let d = gone(clients[i]);
        i = after_read(&mut clients, i, d);
    }
    polled.sort();
    assert_eq!(polled, vec![1, 2, 3, 4, 5, 6]);
    clients.sort();
    assert_eq!(clients, vec![1, 3]);
}
