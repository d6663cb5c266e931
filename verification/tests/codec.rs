use claw_transport::codec::{encode_jsonl_line, parse_jsonl_line, ChatMessage, Role};

fn msg(role: Role, content: &[u8]) -> ChatMessage {
    ChatMessage { role, content: content.to_vec() }
}

#[test]
fn encode_produces_expected_line() {
    let line = encode_jsonl_line(&msg(Role::User, b"hi"));
    assert_eq!(
        line,
        br#"{"type":"message","message":{"role":"user","content":[{"type":"text","text":"hi"}]}}"#
            .to_vec()
    );
}

#[test]
fn round_trip_user() {
    let m = msg(Role::User, b"hi");
    let back = parse_jsonl_line(&encode_jsonl_line(&m)).unwrap();
    assert_eq!(back, m);
}

#[test]
fn round_trip_assistant() {
    let m = msg(Role::Assistant, b"hello there");
    let back = parse_jsonl_line(&encode_jsonl_line(&m)).unwrap();
    assert_eq!(back, m);
}

#[test]
fn round_trip_special_characters() {
    let m = msg(Role::User, b"a \"quoted\" \\ line\nwith\ttabs\rand \x01 control");
    let back = parse_jsonl_line(&encode_jsonl_line(&m)).unwrap();
    assert_eq!(back, m);
}

#[test]
fn round_trip_non_ascii() {
    let m = msg(Role::Assistant, "héllo → 🎯".as_bytes());
    let back = parse_jsonl_line(&encode_jsonl_line(&m)).unwrap();
    assert_eq!(back, m);
}

#[test]
fn encoded_line_has_no_line_break() {
    let line = encode_jsonl_line(&msg(Role::User, b"one\ntwo\nthree"));
    assert!(!line.contains(&b'\n'));
}

#[test]
fn parse_accepts_spaced_format() {
    let line = br#"{"type": "message", "message": {"role": "user", "content": [{"type": "text", "text": "hi"}]}}"#;
    let m = parse_jsonl_line(line).unwrap();
    assert_eq!(m.role, Role::User);
    assert_eq!(m.content, b"hi".to_vec());
}

#[test]
fn parse_concatenates_text_segments() {
    let line = br#"{"type":"message","message":{"role":"assistant","content":[{"type":"text","text":"ab"},{"type":"text","text":"cd"}]}}"#;
    let m = parse_jsonl_line(line).unwrap();
    assert_eq!(m.content, b"abcd".to_vec());
}

#[test]
fn parse_skips_non_text_segments() {
    let line = br#"{"type":"message","message":{"role":"user","content":[{"type":"image","text":"x"},{"type":"text","text":"ok"}]}}"#;
    let m = parse_jsonl_line(line).unwrap();
    assert_eq!(m.content, b"ok".to_vec());
}

#[test]
fn parse_rejects_other_record_kinds() {
    let line = br#"{"type":"event","message":{"role":"user","content":[{"type":"text","text":"hi"}]}}"#;
    assert!(parse_jsonl_line(line).is_none());
}

#[test]
fn parse_rejects_unknown_role() {
    let line = br#"{"type":"message","message":{"role":"system","content":[{"type":"text","text":"hi"}]}}"#;
    assert!(parse_jsonl_line(line).is_none());
}

#[test]
fn parse_rejects_empty_text() {
    let line = br#"{"type":"message","message":{"role":"user","content":[{"type":"text","text":""}]}}"#;
    assert!(parse_jsonl_line(line).is_none());
}

#[test]
fn parse_rejects_empty_content_list() {
    let line = br#"{"type":"message","message":{"role":"user","content":[]}}"#;
    assert!(parse_jsonl_line(line).is_none());
}

#[test]
fn parse_rejects_malformed_lines() {
    assert!(parse_jsonl_line(b"").is_none());
    assert!(parse_jsonl_line(b"not json at all").is_none());
    assert!(parse_jsonl_line(br#"{"type":"message""#).is_none());
    assert!(parse_jsonl_line(br#"{"type":"message","message":{"role":"user"}}"#).is_none());
}

#[test]
fn parse_decodes_escapes() {
    let line = br#"{"type":"message","message":{"role":"user","content":[{"type":"text","text":"a\"b\\c\ndAe"}]}}"#;
    let m = parse_jsonl_line(line).unwrap();
    assert_eq!(m.content, b"a\"b\\c\ndAe".to_vec());
}

#[test]
fn parse_decodes_unicode_escape_multibyte() {
    let line = br#"{"type":"message","message":{"role":"user","content":[{"type":"text","text":"\u00e9\u20ac"}]}}"#;
    let m = parse_jsonl_line(line).unwrap();
    assert_eq!(m.content, "\u{e9}\u{20ac}".as_bytes().to_vec());
}
