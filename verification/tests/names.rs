use terminal_chat::names::{ChatName, ParseChatNameError, ParseUserNameError, Username};

#[test]
fn chat_names_are_sanitized() {
    assert_eq!(ChatName::sanitize("  Hello World!"), "ello__orld_");
    assert_eq!(ChatName::sanitize("general chat  "), "general_chat");
    assert_eq!(ChatName::sanitize("f𝓻𝓲𝓮𝓷𝓭𝓼"), "f______");
    assert_eq!(ChatName::sanitize("book-club 2"), "book-club_2");
    assert_eq!(ChatName::is_valid(&ChatName::sanitize("  Hello World!")), Err(ParseChatNameError::BadChar));
    assert!(ChatName::is_valid(&ChatName::sanitize("  hello-world")).is_ok());
}

#[test]
fn long_chat_names_are_cut() {
    let long = "a".repeat(300);
    assert_eq!(ChatName::sanitize(&long).len(), ChatName::MAX_BYTES);
}

#[test]
fn user_names_are_sanitized() {
    assert_eq!(Username::sanitize("42 bob smith"), "bob_smith");
    assert_eq!(Username::sanitize("Ünïcode"), "_n_code");
    assert!(Username::is_valid(&Username::sanitize("42 bob smith")).is_ok());
}

#[test]
fn chat_name_validity() {
    assert_eq!(ChatName::is_valid("general"), Ok(()));
    assert_eq!(ChatName::is_valid("dev-2"), Ok(()));
    assert_eq!(ChatName::is_valid("General"), Err(ParseChatNameError::BadChar));
    assert_eq!(ChatName::is_valid("2dev"), Err(ParseChatNameError::BadChar));
    assert_eq!(ChatName::is_valid(""), Err(ParseChatNameError::BadChar));
    assert_eq!(
        ChatName::is_valid(&"a".repeat(256)),
        Err(ParseChatNameError::TooLong)
    );
    assert_eq!(ChatName::is_valid(&"a".repeat(255)), Ok(()));
}

#[test]
fn user_name_validity() {
    assert_eq!(Username::is_valid("bob_1"), Ok(()));
    assert_eq!(Username::is_valid("Bob"), Ok(()));
    assert_eq!(Username::is_valid("9lives"), Err(ParseUserNameError::BadChar));
    assert_eq!(Username::is_valid("a b"), Err(ParseUserNameError::BadChar));
    assert_eq!(
        Username::is_valid(&"x".repeat(256)),
        Err(ParseUserNameError::TooLong)
    );
}

#[test]
fn names_parse_only_when_valid() {
    assert_eq!(ChatName::parse("team").unwrap().as_str(), "team");
    assert!(ChatName::parse("Team").is_err());
    assert_eq!(
        Username::try_from_string("alice".to_string()).unwrap().as_str(),
        "alice"
    );
    assert!(ChatName::global().is_empty());
}

#[test]
fn name_error_messages() {
    assert_eq!(
        ParseChatNameError::TooLong.message(),
        "chat names have a maximum length of 255"
    );
    assert_eq!(
        ParseUserNameError::BadChar.message(),
        "usernames may only contain a-z, A-Z, 0-9, or _, and cannot start with a number"
    );
}

#[test]
fn sanitizing_keeps_valid_names_and_settles() {
    assert_eq!(Username::sanitize("Alice_1"), "Alice_1");
    let once = Username::sanitize("  42 bob smith! ");
    assert_eq!(Username::sanitize(&once), once);
    assert_eq!(ChatName::sanitize("book-club"), "book-club");
    let once = ChatName::sanitize("9 Book Club");
    assert_eq!(ChatName::sanitize(&once), once);
    assert_eq!(ChatName::sanitize(&ChatName::sanitize("123")), "");
}
