use claw_transport::facade::{
    assistant_message, extract_response_text, user_message, OpenClawOutput, Payload, Transport,
};
use claw_transport::link::LinkError;
use claw_transport::paths::session_path_in;
use claw_transport::vault::{
    collect_section_text, extract_description, parse_frontmatter, strip_wiki_links, truncate,
};
use claw_transport::codec::Role;

fn lines(ls: &[&str]) -> Vec<Vec<u8>> {
    ls.iter().map(|l| l.as_bytes().to_vec()).collect()
}

#[test]
fn session_path_shape() {
    let p = session_path_in(b"/home/u", b"main", b"abc");
    assert_eq!(p, b"/home/u/.openclaw/agents/main/sessions/abc.jsonl".to_vec());
}

#[test]
fn truncate_short_text_unchanged() {
    assert_eq!(truncate(b"short", 300), b"short".to_vec());
    assert_eq!(truncate(b"equal", 5), b"equal".to_vec());
}

#[test]
fn truncate_cuts_and_marks() {
    assert_eq!(truncate(b"abcdef", 4), "abcd…".as_bytes().to_vec());
}

#[test]
fn truncate_respects_character_boundaries() {
    // "aé" is one byte then two; a cut at 2 would split the é
    let s = "aébc".as_bytes();
    assert_eq!(truncate(s, 2), "a…".as_bytes().to_vec());
}

#[test]
fn strip_wiki_links_plain_and_linked() {
    assert_eq!(strip_wiki_links(b"no links here"), b"no links here".to_vec());
    assert_eq!(strip_wiki_links(b"see [[Target]] now"), b"see Target now".to_vec());
    assert_eq!(strip_wiki_links(b"see [[Target|shown]] now"), b"see shown now".to_vec());
    assert_eq!(strip_wiki_links(b"[[a]][[b|c]]"), b"ac".to_vec());
    assert_eq!(strip_wiki_links(b"open [[never"), b"open never".to_vec());
    assert_eq!(strip_wiki_links(b"half [x] bracket"), b"half [x] bracket".to_vec());
}

#[test]
fn frontmatter_parsed_between_rules() {
    let ls = lines(&["---", "Title: \"My Project\"", "tags: a", "empty:", "---", "body"]);
    let (pairs, body_start) = parse_frontmatter(&ls);
    assert_eq!(body_start, 5);
    assert_eq!(pairs.len(), 2);
    assert_eq!(pairs[0].0, b"title".to_vec());
    assert_eq!(pairs[0].1, b"My Project".to_vec());
    assert_eq!(pairs[1].0, b"tags".to_vec());
    assert_eq!(pairs[1].1, b"a".to_vec());
}

#[test]
fn frontmatter_absent_or_unclosed() {
    let ls = lines(&["# Heading", "text"]);
    let (pairs, body_start) = parse_frontmatter(&ls);
    assert!(pairs.is_empty());
    assert_eq!(body_start, 0);

    let ls = lines(&["---", "k: v"]);
    let (pairs, body_start) = parse_frontmatter(&ls);
    assert_eq!(pairs.len(), 1);
    assert_eq!(body_start, 0);
}

#[test]
fn section_text_joins_first_paragraph() {
    let ls = lines(&["", "first line", "second line", "", "not this"]);
    assert_eq!(collect_section_text(&ls), b"first line second line".to_vec());

    let ls = lines(&["runs into", "## next heading"]);
    assert_eq!(collect_section_text(&ls), b"runs into".to_vec());
}

#[test]
fn description_prefers_objective_section() {
    let ls = lines(&["# T", "## Objective", "the goal here", "", "**Concept:** other"]);
    assert_eq!(extract_description(&ls), Some(b"the goal here".to_vec()));
}

#[test]
fn description_falls_back_to_concept() {
    let ls = lines(&["# T", "**Concept:** a neat idea", "more text"]);
    assert_eq!(extract_description(&ls), Some(b"a neat idea".to_vec()));
}

#[test]
fn description_falls_back_to_first_paragraph() {
    let ls = lines(&["# T", "---", "**Status:** active", "  actual words  "]);
    assert_eq!(extract_description(&ls), Some(b"actual words".to_vec()));
}

#[test]
fn description_none_when_nothing_qualifies() {
    let ls = lines(&["# T", "## Other", "", "---"]);
    assert_eq!(extract_description(&ls), None);
}

#[test]
fn transport_mode_flag_round_trips() {
    let mut t = Transport::new();
    assert!(!t.get_remote_mode());
    t.set_remote_mode(true);
    assert!(t.get_remote_mode());
    t.set_remote_mode(false);
    assert!(!t.get_remote_mode());
}

#[test]
fn remote_operations_demand_connection() {
    let t = Transport::new();
    assert_eq!(
        t.remote_send_command(b"main", b"s", b"hi"),
        Err(LinkError::NotConnected)
    );
    assert_eq!(t.remote_history_command(b"main", b"s"), Err(LinkError::NotConnected));
}

#[test]
fn remote_send_command_when_connected() {
    let mut t = Transport::new();
    t.link.connect_begin();
    t.link.connect_finish(Ok(())).unwrap();
    let cmd = t.remote_send_command(b"main", b"s", b"hi").unwrap();
    assert_eq!(cmd, b"openclaw agent --agent 'main' --session-id 's' --message 'hi'".to_vec());
}

#[test]
fn local_send_builds_both_halves() {
    let u = user_message(b"question");
    assert_eq!(u.role, Role::User);
    assert_eq!(u.content, b"question".to_vec());
    let a = assistant_message(b"answer");
    assert_eq!(a.role, Role::Assistant);
    assert_eq!(a.content, b"answer".to_vec());
}

#[test]
fn response_text_joins_payloads() {
    let out = OpenClawOutput {
        payloads: vec![
            Payload { text: Some(b"one".to_vec()) },
            Payload { text: None },
            Payload { text: Some(b"two".to_vec()) },
        ],
    };
    assert_eq!(extract_response_text(&out), Some(b"one\ntwo".to_vec()));
}

#[test]
fn empty_response_is_a_failure() {
    let out = OpenClawOutput { payloads: vec![Payload { text: None }] };
    assert_eq!(extract_response_text(&out), None);
    let out = OpenClawOutput { payloads: vec![Payload { text: Some(Vec::new()) }] };
    assert_eq!(extract_response_text(&out), None);
}

#[test]
fn project_record_strips_links() {
    let d = b"uses [[Tool|the tool]] daily".to_vec();
    let p = claw_transport::vault::make_project(
        b"[[Home]] base",
        Some(&d),
        b"#2563eb",
        b"Work/home.md",
    );
    assert_eq!(p.name, b"Home base".to_vec());
    assert_eq!(p.description, Some(b"uses the tool daily".to_vec()));
    assert_eq!(p.color, b"#2563eb".to_vec());
    assert_eq!(p.obsidian_source, b"Work/home.md".to_vec());
}

#[test]
fn message_event_carries_session_and_message() {
    let m = user_message(b"hi");
    let e = claw_transport::tailer::message_event(b"s9", m);
    assert_eq!(e.session_id, b"s9".to_vec());
    assert_eq!(e.message.role, Role::User);
    assert_eq!(e.message.content, b"hi".to_vec());
}
