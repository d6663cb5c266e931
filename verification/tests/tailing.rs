use claw_transport::codec::{encode_jsonl_line, ChatMessage, Role};
use claw_transport::log::{decode_content, record_line, scan_from};
use claw_transport::registry::WatcherState;
use claw_transport::tailer::{poll_session, start_session_watch};

fn msg(role: Role, content: &[u8]) -> ChatMessage {
    ChatMessage { role, content: content.to_vec() }
}

fn append(log: &mut Vec<u8>, m: &ChatMessage) {
    log.extend_from_slice(&record_line(m));
}

#[test]
fn empty_log_decodes_to_no_messages() {
    assert!(decode_content(b"").is_empty());
}

#[test]
fn decode_preserves_order_and_skips_junk() {
    let mut log = Vec::new();
    append(&mut log, &msg(Role::User, b"one"));
    log.extend_from_slice(b"garbage line\n");
    append(&mut log, &msg(Role::Assistant, b"two"));
    let msgs = decode_content(&log);
    assert_eq!(msgs.len(), 2);
    assert_eq!(msgs[0].content, b"one".to_vec());
    assert_eq!(msgs[1].content, b"two".to_vec());
}

#[test]
fn partial_line_is_not_consumed() {
    let mut log = Vec::new();
    append(&mut log, &msg(Role::User, b"done"));
    let boundary = log.len();
    let mut fragment = encode_jsonl_line(&msg(Role::Assistant, b"pending"));
    log.extend_from_slice(&fragment);

    // the fragment has no terminator: nothing delivered, offset unmoved
    let (msgs, off) = scan_from(&log, boundary);
    assert_eq!(msgs.len(), 0);
    assert_eq!(off, boundary);

    // completing the line delivers exactly it and advances past it
    log.push(b'\n');
    let (msgs, off) = scan_from(&log, boundary);
    assert_eq!(msgs.len(), 1);
    assert_eq!(msgs[0].content, b"pending".to_vec());
    fragment.push(b'\n');
    assert_eq!(off, boundary + fragment.len());
}

#[test]
fn no_double_delivery_across_appends() {
    let mut reg = WatcherState::new();
    let mut log: Vec<u8> = Vec::new();
    let (replay, started) = start_session_watch(&mut reg, b"s1", &log);
    assert!(started);
    assert!(replay.is_empty());

    let mut delivered: Vec<ChatMessage> = Vec::new();
    let texts: [&[u8]; 3] = [b"first", b"second", b"third"];
    for t in texts {
        append(&mut log, &msg(Role::User, t));
        delivered.extend(poll_session(&mut reg, b"s1", &log));
    }
    assert_eq!(delivered.len(), 3);
    assert_eq!(delivered[0].content, b"first".to_vec());
    assert_eq!(delivered[1].content, b"second".to_vec());
    assert_eq!(delivered[2].content, b"third".to_vec());

    // a notification with no new content delivers nothing more
    let again = poll_session(&mut reg, b"s1", &log);
    assert!(again.is_empty());
}

#[test]
fn idempotent_start_delivers_once() {
    let mut reg = WatcherState::new();
    let mut log: Vec<u8> = Vec::new();
    append(&mut log, &msg(Role::User, b"hi"));

    let (replay1, started1) = start_session_watch(&mut reg, b"s1", &log);
    assert!(started1);
    assert_eq!(replay1.len(), 1);

    // a second start for the same session is a no-op: nothing replayed again
    let (replay2, started2) = start_session_watch(&mut reg, b"s1", &log);
    assert!(!started2);
    assert!(replay2.is_empty());

    // and the live side has nothing new either
    let live = poll_session(&mut reg, b"s1", &log);
    assert!(live.is_empty());
}

#[test]
fn idempotent_stop_of_unwatched_session() {
    let mut reg = WatcherState::new();
    reg.stop_watching(b"never-started");
    assert!(!reg.is_watched(b"never-started"));
}

#[test]
fn stop_then_restart_replays() {
    let mut reg = WatcherState::new();
    let mut log: Vec<u8> = Vec::new();
    append(&mut log, &msg(Role::User, b"hi"));
    let (_, started) = start_session_watch(&mut reg, b"s1", &log);
    assert!(started);
    assert!(reg.is_watched(b"s1"));
    reg.stop_watching(b"s1");
    assert!(!reg.is_watched(b"s1"));
    let (replay, started) = start_session_watch(&mut reg, b"s1", &log);
    assert!(started);
    assert_eq!(replay.len(), 1);
}

#[test]
fn watches_are_per_session() {
    let mut reg = WatcherState::new();
    let log1: Vec<u8> = record_line(&msg(Role::User, b"a"));
    let log2: Vec<u8> = Vec::new();
    start_session_watch(&mut reg, b"s1", &log1);
    start_session_watch(&mut reg, b"s2", &log2);
    assert_eq!(reg.get_offset(b"s1"), Some(log1.len() as u64));
    assert_eq!(reg.get_offset(b"s2"), Some(0));
    reg.stop_watching(b"s1");
    assert!(!reg.is_watched(b"s1"));
    assert!(reg.is_watched(b"s2"));
}

#[test]
fn scenario_empty_load_append_watch() {
    // empty log: history is an empty sequence, no error
    let mut log: Vec<u8> = Vec::new();
    assert!(decode_content(&log).is_empty());

    // append one user message "hi": history holds exactly it
    append(&mut log, &msg(Role::User, b"hi"));
    let history = decode_content(&log);
    assert_eq!(history.len(), 1);
    assert_eq!(history[0].role, Role::User);
    assert_eq!(history[0].content, b"hi".to_vec());

    // start a watch, then another process appends an assistant line:
    // the callback sees exactly that message once
    let mut reg = WatcherState::new();
    let (replay, _) = start_session_watch(&mut reg, b"s", &log);
    assert_eq!(replay.len(), 1);
    append(&mut log, &msg(Role::Assistant, b"hello"));
    let live = poll_session(&mut reg, b"s", &log);
    assert_eq!(live.len(), 1);
    assert_eq!(live[0].role, Role::Assistant);
    assert_eq!(live[0].content, b"hello".to_vec());
    let more = poll_session(&mut reg, b"s", &log);
    assert!(more.is_empty());
}
