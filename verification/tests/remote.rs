use claw_transport::link::{
    build_cat_command, build_dest, build_send_command, build_tail_command, exec_result,
    expand_path_with, probe_command, trim_bytes, ConnectionStatus, ExecOutcome, LinkError,
    SshConfig, SshSession,
};

#[test]
fn link_starts_disconnected() {
    let link = SshSession::new();
    assert_eq!(link.status, ConnectionStatus::Disconnected);
    assert_eq!(link.config.port, 22);
}

#[test]
fn disconnect_from_any_state_yields_disconnected() {
    let mut link = SshSession::new();
    link.disconnect();
    assert_eq!(link.status, ConnectionStatus::Disconnected);

    link.connect_begin();
    assert_eq!(link.status, ConnectionStatus::Connecting);
    link.disconnect();
    assert_eq!(link.status, ConnectionStatus::Disconnected);

    link.connect_begin();
    link.connect_finish(Ok(())).unwrap();
    assert_eq!(link.status, ConnectionStatus::Connected);
    link.disconnect();
    assert_eq!(link.status, ConnectionStatus::Disconnected);

    link.connect_begin();
    let _ = link.connect_finish(Err(b"no route".to_vec()));
    assert_eq!(link.status, ConnectionStatus::Error(b"no route".to_vec()));
    link.disconnect();
    assert_eq!(link.status, ConnectionStatus::Disconnected);
}

#[test]
fn failed_connect_records_error_and_reconnect_recovers() {
    let mut link = SshSession::new();
    link.connect_begin();
    let r = link.connect_finish(Err(b"handshake failed".to_vec()));
    assert_eq!(r, Err(LinkError::ConnectFailed(b"handshake failed".to_vec())));
    assert_eq!(link.status, ConnectionStatus::Error(b"handshake failed".to_vec()));

    // a later successful connect from Error yields Connected
    link.connect_begin();
    assert_eq!(link.status, ConnectionStatus::Connecting);
    link.connect_finish(Ok(())).unwrap();
    assert_eq!(link.status, ConnectionStatus::Connected);
}

#[test]
fn exec_requires_connection() {
    let link = SshSession::new();
    assert_eq!(link.exec_check(), Err(LinkError::NotConnected));
    let mut link = link;
    link.connect_begin();
    link.connect_finish(Ok(())).unwrap();
    assert_eq!(link.exec_check(), Ok(()));
}

#[test]
fn exec_result_trims_stdout_on_success() {
    let out = ExecOutcome { success: true, stdout: b"  hi there\n".to_vec(), stderr: Vec::new() };
    assert_eq!(exec_result(&out), Ok(b"hi there".to_vec()));
}

#[test]
fn exec_result_carries_stderr_on_failure() {
    let out = ExecOutcome { success: false, stdout: Vec::new(), stderr: b"boom".to_vec() };
    assert_eq!(exec_result(&out), Err(LinkError::CommandFailed(b"boom".to_vec())));
}

#[test]
fn trim_strips_blanks_both_ends() {
    assert_eq!(trim_bytes(b" \t\r\n x y \n"), b"x y".to_vec());
    assert_eq!(trim_bytes(b""), Vec::<u8>::new());
    assert_eq!(trim_bytes(b"   "), Vec::<u8>::new());
}

#[test]
fn dest_is_user_host_port() {
    let c = SshConfig {
        host: b"example.com".to_vec(),
        port: 2222,
        user: b"alice".to_vec(),
        key_path: b"/k".to_vec(),
    };
    assert_eq!(build_dest(&c), b"ssh://alice@example.com:2222".to_vec());
}

#[test]
fn expand_path_replaces_leading_tilde() {
    assert_eq!(expand_path_with(b"~/.ssh/id", b"/home/u"), b"/home/u/.ssh/id".to_vec());
    assert_eq!(expand_path_with(b"/abs/path", b"/home/u"), b"/abs/path".to_vec());
}

#[test]
fn send_command_escapes_single_quotes() {
    let cmd = build_send_command(b"main", b"s-1", b"it's a 'test'");
    assert_eq!(
        cmd,
        b"openclaw agent --agent 'main' --session-id 's-1' --message 'it'\\''s a '\\''test'\\'''"
            .to_vec()
    );
}

#[test]
fn shell_sees_message_as_one_word() {
    // tokenize the command the way a POSIX shell would and check the
    // message survives as a single intact argument
    let message: &[u8] = b"it's 'quoted' and  spaced";
    let cmd = build_send_command(b"main", b"s1", message);
    let mut words: Vec<Vec<u8>> = Vec::new();
    let mut cur: Vec<u8> = Vec::new();
    let mut started = false;
    let mut in_quote = false;
    let mut i = 0;
    while i < cmd.len() {
        let b = cmd[i];
        if in_quote {
            if b == b'\'' {
                in_quote = false;
            } else {
                cur.push(b);
            }
            i += 1;
        } else if b == b' ' {
            if started {
                words.push(std::mem::take(&mut cur));
                started = false;
            }
            i += 1;
        } else if b == b'\'' {
            in_quote = true;
            started = true;
            i += 1;
        } else if b == b'\\' {
            cur.push(cmd[i + 1]);
            started = true;
            i += 2;
        } else {
            cur.push(b);
            started = true;
            i += 1;
        }
    }
    assert!(!in_quote);
    if started {
        words.push(cur);
    }
    assert_eq!(words.len(), 8);
    assert_eq!(words[0], b"openclaw".to_vec());
    assert_eq!(words[6], b"--message".to_vec());
    assert_eq!(words[7], message.to_vec());
}

#[test]
fn remote_read_command_shape() {
    let cmd = build_cat_command(b"main", b"abc");
    assert_eq!(
        cmd,
        b"cat '~/.openclaw/agents/main/sessions/abc.jsonl' 2>/dev/null || echo ''".to_vec()
    );
}

#[test]
fn remote_tail_command_shape() {
    let cmd = build_tail_command(b"main", b"abc");
    assert_eq!(cmd, b"tail -f '~/.openclaw/agents/main/sessions/abc.jsonl'".to_vec());
}

#[test]
fn probe_command_shape() {
    assert_eq!(probe_command(), b"echo connected && hostname".to_vec());
}
