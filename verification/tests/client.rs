use chat_relay::client::{is_own_echo, join_banner, websocket_url};
use chat_relay::codec::ServerMessage;
use chat_relay::text::{chars_of, same_text};

#[test]
fn a_secure_page_gets_a_secure_socket() {
    assert_eq!(websocket_url("https:", "chat.example"), "wss://chat.example/websocket");
}

#[test]
fn any_other_page_gets_a_plain_socket() {
    assert_eq!(websocket_url("http:", "localhost:3000"), "ws://localhost:3000/websocket");
    assert_eq!(websocket_url("", "h"), "ws://h/websocket");
    assert_eq!(websocket_url("https", "h"), "ws://h/websocket");
    assert_eq!(websocket_url("HTTPS:", ""), "ws:///websocket");
}

#[test]
fn an_echo_bears_the_users_name() {
    let m = ServerMessage { sender: "alice".to_string(), msg: "hi".to_string() };
    assert!(is_own_echo("alice", &m));
    assert!(!is_own_echo("bob", &m));
    assert!(!is_own_echo("Alice", &m));
    assert!(!is_own_echo("", &m));
}

#[test]
fn the_banner_names_the_user() {
    let banner = join_banner("alice");
    assert_eq!(banner.sender, "Server");
    assert_eq!(banner.msg, "alice has joined");
    assert_eq!(join_banner("").msg, " has joined");
}

#[test]
fn chars_of_keeps_every_character() {
    assert_eq!(chars_of(""), Vec::<char>::new());
    assert_eq!(chars_of("aé🦀"), vec!['a', 'é', '🦀']);
}

#[test]
fn same_text_compares_characters() {
    assert!(same_text("", ""));
    assert!(same_text("abc", "abc"));
    assert!(!same_text("abc", "abd"));
    assert!(!same_text("abc", "ab"));
}
