use chat_relay::codec::{decode, encode, ServerMessage};

fn message(sender: &str, msg: &str) -> ServerMessage {
    ServerMessage { sender: sender.to_string(), msg: msg.to_string() }
}

fn round_trips(sender: &str, msg: &str) {
    let frame = encode(&message(sender, msg));
    let back = decode(&frame).expect("the frame of an envelope is decoded");
    assert_eq!(back.sender, sender);
    assert_eq!(back.msg, msg);
}

#[test]
fn encode_plain_envelope() {
    assert_eq!(encode(&message("alice", "hi")), r#"{"sender":"alice","msg":"hi"}"#);
}

#[test]
fn encode_empty_texts() {
    assert_eq!(encode(&message("", "")), r#"{"sender":"","msg":""}"#);
}

#[test]
fn encode_escapes_quote_and_backslash() {
    assert_eq!(
        encode(&message("a\"b", "c\\d")),
        "{\"sender\":\"a\\\"b\",\"msg\":\"c\\\\d\"}"
    );
}

#[test]
fn encode_escapes_named_controls() {
    assert_eq!(
        encode(&message("x", "\u{8}\u{c}\n\r\t")),
        "{\"sender\":\"x\",\"msg\":\"\\b\\f\\n\\r\\t\"}"
    );
}

#[test]
fn encode_escapes_other_controls_in_hex() {
    assert_eq!(
        encode(&message("x", "\u{0}\u{1}\u{b}\u{e}\u{1f}")),
        "{\"sender\":\"x\",\"msg\":\"\\u0000\\u0001\\u000b\\u000e\\u001f\"}"
    );
}

#[test]
fn encode_leaves_other_characters_alone() {
    assert_eq!(
        encode(&message("zoë", "/ \u{7f} é 日本 🦀")),
        "{\"sender\":\"zoë\",\"msg\":\"/ \u{7f} é 日本 🦀\"}"
    );
}

#[test]
fn encode_cannot_be_broken_by_a_forged_name() {
    let forged = message("eve\",\"msg\":\"x\"}", "y");
    let frame = encode(&forged);
    let back = decode(&frame).expect("the frame of an envelope is decoded");
    assert_eq!(back.sender, "eve\",\"msg\":\"x\"}");
    assert_eq!(back.msg, "y");
}

#[test]
fn decode_plain_envelope() {
    let m = decode(r#"{"sender":"alice","msg":"hi"}"#).expect("a frame");
    assert_eq!(m.sender, "alice");
    assert_eq!(m.msg, "hi");
}

#[test]
fn decode_unescapes() {
    let m = decode("{\"sender\":\"a\\\"b\\\\\",\"msg\":\"\\b\\f\\n\\r\\t\\u0000\\u001f\"}")
        .expect("a frame");
    assert_eq!(m.sender, "a\"b\\");
    assert_eq!(m.msg, "\u{8}\u{c}\n\r\t\u{0}\u{1f}");
}

#[test]
fn decode_refuses_notices() {
    assert!(decode("alice joined.").is_none());
    assert!(decode("alice left.").is_none());
    assert!(decode("Username already taken.").is_none());
    assert!(decode("").is_none());
}

#[test]
fn decode_refuses_what_encode_never_writes() {
    // white space between the tokens
    assert!(decode(r#"{"sender": "alice", "msg": "hi"}"#).is_none());
    // the members the other way round
    assert!(decode(r#"{"msg":"hi","sender":"alice"}"#).is_none());
    // something after the closing brace
    assert!(decode(r#"{"sender":"alice","msg":"hi"} "#).is_none());
    // a member missing
    assert!(decode(r#"{"sender":"alice"}"#).is_none());
    // no closing brace
    assert!(decode(r#"{"sender":"alice","msg":"hi""#).is_none());
    // a string that does not end
    assert!(decode(r#"{"sender":"alice","msg":"hi}"#).is_none());
}

#[test]
fn decode_refuses_other_escapes() {
    assert!(decode("{\"sender\":\"a\",\"msg\":\"\\/\"}").is_none());
    assert!(decode("{\"sender\":\"a\",\"msg\":\"\\x\"}").is_none());
    assert!(decode("{\"sender\":\"a\",\"msg\":\"\\u000B\"}").is_none());
    assert!(decode("{\"sender\":\"a\",\"msg\":\"\\u0041\"}").is_none());
    assert!(decode("{\"sender\":\"a\",\"msg\":\"\\u000a\"}").is_none());
    assert!(decode("{\"sender\":\"a\",\"msg\":\"\\u00\"}").is_none());
    assert!(decode("{\"sender\":\"a\",\"msg\":\"\\\"}").is_none());
}

#[test]
fn decode_refuses_raw_controls() {
    assert!(decode("{\"sender\":\"a\",\"msg\":\"\n\"}").is_none());
    assert!(decode("{\"sender\":\"a\",\"msg\":\"\u{1}\"}").is_none());
}

#[test]
fn round_trip_plain() {
    round_trips("alice", "hi");
    round_trips("", "");
    round_trips("bob", "");
}

#[test]
fn round_trip_quotes_backslashes_controls() {
    round_trips("a\"b", "say \"hi\"");
    round_trips("back\\slash", "\\\\\\");
    round_trips("\\\"", "\"\\");
    round_trips("ctl", "\u{0}\u{1}\u{7}\u{8}\t\n\u{b}\u{c}\r\u{e}\u{1f} \u{7f}");
    round_trips("{\"sender\":\"x\",\"msg\":\"y\"}", "},\"msg\":\"");
    round_trips("\\u0041", "\\n is not a line feed");
}

#[test]
fn round_trip_every_character_below_two_hundred_and_fifty_six() {
    for code in 0u32..256 {
        let c = char::from_u32(code).expect("a character");
        let text = format!("a{}b", c);
        round_trips(&text, &text);
    }
}

#[test]
fn round_trip_beyond_ascii() {
    round_trips("zoë", "日本語 🦀 \u{10ffff} \u{e000} \u{d7ff}");
}

#[test]
fn decode_of_encode_is_the_only_frame() {
    let frame = encode(&message("alice", "hi"));
    let back = decode(&frame).expect("a frame");
    assert_eq!(encode(&back), frame);
}

#[test]
fn a_copy_of_a_message_holds_the_same_texts() {
    let m = message("alice", "hi \"there\"");
    let copy = m.clone();
    assert_eq!(copy.sender, "alice");
    assert_eq!(copy.msg, "hi \"there\"");
    assert_eq!(encode(&copy), encode(&m));
}
