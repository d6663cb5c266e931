//! Remote link: the state machine of the one shared secure-shell connection,
//! and the exact byte strings of the remote commands it runs. The handshake,
//! the remote processes and the wire belong to the surrounding application;
//! everything decided here — state transitions, command construction,
//! shell escaping, output handling — is pure and verified.
use vstd::prelude::*;
use crate::bytes::push_all;

verus! {

pub const B_SQ: u8 = 39;
pub const B_SP: u8 = 32;
pub const B_BS: u8 = 92;

/// Lifecycle of the remote link. It starts `Disconnected`; `connect` moves
/// through `Connecting` to `Connected` or to `Error`; `disconnect` moves to
/// `Disconnected` from any state.
#[derive(Clone, PartialEq, Eq, Debug)]
pub enum ConnectionStatus {
    Disconnected,
    Connecting,
    Connected,
    Error(Vec<u8>),
}

/// Plain configuration of the secure-shell destination. Replacing it does
/// not touch an open connection; it is read at the next `connect`.
#[derive(Clone, PartialEq, Eq, Debug)]
pub struct SshConfig {
    pub host: Vec<u8>,
    pub port: u16,
    pub user: Vec<u8>,
    pub key_path: Vec<u8>,
}

impl Default for SshConfig {
    /// The out-of-the-box destination.
    fn default() -> (r: SshConfig)
        ensures
            r.host@ == lit_host_default(),
            r.port == 22,
            r.user@ == lit_user_default(),
            r.key_path@ == lit_key_default(),
    {
        let host: Vec<u8> = vec![109u8, 97u8, 99u8, 45u8, 109u8, 105u8, 110u8, 105u8, 46u8,
            108u8, 111u8, 99u8, 97u8, 108u8];
        let user: Vec<u8> = vec![99u8, 108u8, 97u8, 119u8, 100u8, 98u8, 111u8, 116u8, 49u8];
        let key_path: Vec<u8> = vec![126u8, 47u8, 46u8, 115u8, 115u8, 104u8, 47u8, 105u8,
            100u8, 95u8, 101u8, 100u8, 50u8, 53u8, 53u8, 49u8, 57u8];
        proof {
            assert(host@ =~= lit_host_default());
            assert(user@ =~= lit_user_default());
            assert(key_path@ =~= lit_key_default());
        }
        SshConfig { host, port: 22, user, key_path }
    }
}

/// The bytes of `mac-mini.local`.
pub open spec fn lit_host_default() -> Seq<u8> {
    seq![109u8, 97u8, 99u8, 45u8, 109u8, 105u8, 110u8, 105u8, 46u8, 108u8, 111u8, 99u8,
        97u8, 108u8]
}

/// The bytes of `clawdbot1`.
pub open spec fn lit_user_default() -> Seq<u8> {
    seq![99u8, 108u8, 97u8, 119u8, 100u8, 98u8, 111u8, 116u8, 49u8]
}

/// The bytes of `~/.ssh/id_ed25519`.
pub open spec fn lit_key_default() -> Seq<u8> {
    seq![126u8, 47u8, 46u8, 115u8, 115u8, 104u8, 47u8, 105u8, 100u8, 95u8, 101u8, 100u8,
        50u8, 53u8, 53u8, 49u8, 57u8]
}

/// Why a remote operation failed. `NotConnected` is its own kind so a
/// caller can decide to connect and try again; a failed command carries
/// the remote error text verbatim.
#[derive(Clone, PartialEq, Eq, Debug)]
pub enum LinkError {
    NotConnected,
    ConnectFailed(Vec<u8>),
    CommandFailed(Vec<u8>),
}

/// What running a remote command came back with: whether it exited
/// successfully, and its two output streams.
#[derive(Clone, Debug)]
pub struct ExecOutcome {
    pub success: bool,
    pub stdout: Vec<u8>,
    pub stderr: Vec<u8>,
}

/// The state of the one shared remote link: its configuration and where it
/// stands in the connection lifecycle. The live connection handle itself is
/// owned by the caller driving the handshake.
pub struct SshSession {
    pub config: SshConfig,
    pub status: ConnectionStatus,
}

impl SshSession {
    /// A fresh link: default configuration, disconnected.
    pub fn new() -> (r: SshSession)
        ensures
            r.status is Disconnected,
            r.config.host@ == lit_host_default(),
            r.config.port == 22,
            r.config.user@ == lit_user_default(),
            r.config.key_path@ == lit_key_default(),
    {
        SshSession { config: SshConfig::default(), status: ConnectionStatus::Disconnected }
    }

    /// Begin a connection attempt: the link turns `Connecting` and the
    /// destination to dial is built from the configuration.
    pub fn connect_begin(&mut self) -> (dest: Vec<u8>)
        ensures
            final(self).status is Connecting,
            final(self).config == old(self).config,
            dest@ == dest_spec(old(self).config),
    {
        let dest = build_dest(&self.config);
        self.status = ConnectionStatus::Connecting;
        dest
    }

    /// End a connection attempt: success turns the link `Connected`,
    /// failure records the reason in `Error` and hands it back.
    pub fn connect_finish(&mut self, outcome: Result<(), Vec<u8>>) -> (r: Result<(), LinkError>)
        ensures
            outcome is Ok ==> final(self).status is Connected && r is Ok,
            outcome is Err ==> (final(self).status matches ConnectionStatus::Error(e)
                && e@ == outcome->Err_0@),
            outcome is Err ==> (r matches Err(LinkError::ConnectFailed(e))
                && e@ == outcome->Err_0@),
            final(self).config == old(self).config,
    {
        match outcome {
            Ok(()) => {
                self.status = ConnectionStatus::Connected;
                Ok(())
            },
            Err(msg) => {
                let msg2 = clone_bytes(&msg);
                self.status = ConnectionStatus::Error(msg);
                Err(LinkError::ConnectFailed(msg2))
            },
        }
    }

    /// Drop the connection: from any state the link is `Disconnected`
    /// afterwards, and this never fails.
    pub fn disconnect(&mut self)
        ensures
            final(self).status is Disconnected,
            final(self).config == old(self).config,
    {
        self.status = ConnectionStatus::Disconnected;
    }

    /// Expand a leading `~/` in a path under the user's home directory,
    /// whatever the platform reports that to be (empty when it reports
    /// none); any other path stands as it is.
    pub fn expand_path(path: &[u8]) -> (r: Vec<u8>)
        ensures
            !(path@.len() >= 2 && path@[0] == 126 && path@[1] == 47) ==> r@ == path@,
            exists|h: Seq<u8>| r@ == expand_path_spec(path@, h),
    {
        let home = match crate::paths::home_dir_bytes() {
            Some(h) => h,
            None => Vec::new(),
        };
        let r = expand_path_with(path, home.as_slice());
        proof {
            assert(r@ == expand_path_spec(path@, home@));
        }
        r
    }

    /// Whether a remote command may run now: only on a connected link;
    /// anywhere else the failure is the distinct `NotConnected` kind.
    pub fn exec_check(&self) -> (r: Result<(), LinkError>)
        ensures
            self.status is Connected <==> r is Ok,
            !(self.status is Connected) ==> r == Result::<(), LinkError>::Err(
                LinkError::NotConnected,
            ),
    {
        match self.status {
            ConnectionStatus::Connected => Ok(()),
            _ => Err(LinkError::NotConnected),
        }
    }
}

/// Copy a byte string.
fn clone_bytes(v: &Vec<u8>) -> (r: Vec<u8>)
    ensures
        r@ == v@,
{
    let mut out: Vec<u8> = Vec::new();
    push_all(&mut out, v.as_slice());
    proof {
        assert(Seq::<u8>::empty() + v@ =~= v@);
    }
    out
}

/// The decimal digits of a number, most significant first.
pub open spec fn dec_of(n: nat) -> Seq<u8>
    decreases n,
{
    if n < 10 { seq![(48 + n) as u8] } else { dec_of(n / 10) + seq![(48 + n % 10) as u8] }
}

/// Render a port number in decimal.
pub fn u16_dec(n: u16) -> (r: Vec<u8>)
    ensures
        r@ == dec_of(n as nat),
    decreases n,
{
    if n < 10 {
        let v: Vec<u8> = vec![48 + (n as u8)];
        proof {
            assert(v@ =~= dec_of(n as nat));
        }
        v
    } else {
        let mut v = u16_dec(n / 10);
        v.push(48 + ((n % 10) as u8));
        proof {
            assert(v@ =~= dec_of((n / 10) as nat) + seq![(48 + (n as nat) % 10) as u8]);
        }
        v
    }
}

/// The bytes of `ssh://`.
pub open spec fn lit_ssh_scheme() -> Seq<u8> {
    seq![115u8, 115u8, 104u8, 58u8, 47u8, 47u8]
}

/// The destination a connection attempt dials:
/// `ssh://<user>@<host>:<port>`.
pub open spec fn dest_spec(c: SshConfig) -> Seq<u8> {
    lit_ssh_scheme() + c.user@ + seq![64u8] + c.host@ + seq![58u8] + dec_of(c.port as nat)
}

/// Build the destination string for a configuration.
pub fn build_dest(c: &SshConfig) -> (r: Vec<u8>)
    ensures
        r@ == dest_spec(*c),
{
    let mut out: Vec<u8> = vec![115u8, 115u8, 104u8, 58u8, 47u8, 47u8];
    proof {
        assert(out@ =~= lit_ssh_scheme());
    }
    push_all(&mut out, c.user.as_slice());
    out.push(64);
    push_all(&mut out, c.host.as_slice());
    out.push(58);
    let port = u16_dec(c.port);
    push_all(&mut out, port.as_slice());
    proof {
        assert(out@ =~= dest_spec(*c));
    }
    out
}

/// A path with a leading `~/` expanded under the given home directory;
/// any other path stands as it is.
pub open spec fn expand_path_spec(path: Seq<u8>, home: Seq<u8>) -> Seq<u8> {
    if path.len() >= 2 && path[0] == 126 && path[1] == 47 {
        home + seq![47u8] + path.skip(2)
    } else {
        path
    }
}

/// Expand a leading `~/` in a path under the given home directory.
pub fn expand_path_with(path: &[u8], home: &[u8]) -> (r: Vec<u8>)
    ensures
        r@ == expand_path_spec(path@, home@),
{
    if path.len() >= 2 && path[0] == 126 && path[1] == 47 {
        let mut out: Vec<u8> = Vec::new();
        push_all(&mut out, home);
        out.push(47);
        let rest = vstd::slice::slice_subrange(path, 2, path.len());
        push_all(&mut out, rest);
        proof {
            assert(Seq::<u8>::empty() + home@ =~= home@);
            assert(out@ =~= expand_path_spec(path@, home@));
        }
        out
    } else {
        let mut out: Vec<u8> = Vec::new();
        push_all(&mut out, path);
        proof {
            assert(Seq::<u8>::empty() + path@ =~= path@);
        }
        out
    }
}

/// Whether a byte is blank for trimming purposes.
pub open spec fn is_blank(b: u8) -> bool {
    b == 32 || b == 9 || b == 10 || b == 13
}

/// The text without leading and trailing blanks.
pub open spec fn trim_spec(s: Seq<u8>) -> Seq<u8>
    decreases s.len(),
{
    if s.len() == 0 {
        s
    } else if is_blank(s[0]) {
        trim_spec(s.drop_first())
    } else if is_blank(s[s.len() - 1]) {
        trim_spec(s.drop_last())
    } else {
        s
    }
}

/// Trim leading and trailing blanks from command output.
pub fn trim_bytes(s: &[u8]) -> (r: Vec<u8>)
    ensures
        r@ == trim_spec(s@),
{
    let n = s.len();
    let mut lo: usize = 0;
    let mut hi: usize = n;
    proof {
        assert(s@.subrange(0, n as int) =~= s@);
    }
    while lo < hi && (s[lo] == 32 || s[lo] == 9 || s[lo] == 10 || s[lo] == 13)
        invariant
            lo <= hi <= n,
            n == s@.len(),
            trim_spec(s@) == trim_spec(s@.subrange(lo as int, hi as int)),
            hi == n,
        decreases hi - lo,
    {
        proof {
            let t = s@.subrange(lo as int, hi as int);
            assert(t[0] == s@[lo as int]);
            assert(t.drop_first() =~= s@.subrange(lo + 1, hi as int));
        }
        lo = lo + 1;
    }
    while lo < hi && (s[hi - 1] == 32 || s[hi - 1] == 9 || s[hi - 1] == 10 || s[hi - 1] == 13)
        invariant
            lo <= hi <= n,
            n == s@.len(),
            trim_spec(s@) == trim_spec(s@.subrange(lo as int, hi as int)),
            lo < hi ==> !is_blank(s@[lo as int]),
        decreases hi - lo,
    {
        proof {
            let t = s@.subrange(lo as int, hi as int);
            assert(t[0] == s@[lo as int]);
            assert(t[t.len() - 1] == s@[hi - 1]);
            assert(t.drop_last() =~= s@.subrange(lo as int, hi - 1));
        }
        hi = hi - 1;
    }
    let out = vstd::slice::slice_to_vec(vstd::slice::slice_subrange(s, lo, hi));
    proof {
        let t = s@.subrange(lo as int, hi as int);
        if t.len() > 0 {
            assert(t[0] == s@[lo as int]);
            assert(t[t.len() - 1] == s@[hi - 1]);
        }
        assert(trim_spec(t) == t);
        assert(out@ =~= t);
    }
    out
}

/// Map what a finished remote command came back with, as `exec` hands it
/// to its caller: on success the trimmed standard output; on failure the
/// remote standard error, verbatim, as a `CommandFailed`.
pub fn exec_result(outcome: &ExecOutcome) -> (r: Result<Vec<u8>, LinkError>)
    ensures
        outcome.success ==> r is Ok && r->Ok_0@ == trim_spec(outcome.stdout@),
        !outcome.success ==> (r matches Err(LinkError::CommandFailed(e)) && e@
            == outcome.stderr@),
{
    if outcome.success {
        Ok(trim_bytes(outcome.stdout.as_slice()))
    } else {
        let err = clone_bytes(&outcome.stderr);
        Err(LinkError::CommandFailed(err))
    }
}

// ---------------------------------------------------------------------------
// Remote commands, and the shell escaping that keeps a message one argument.
// ---------------------------------------------------------------------------

/// Single-quote escaping: each quote in the text becomes `'\''` — close the
/// quotes, write an escaped quote, open them again. Every other byte stands
/// for itself, since single quotes make the shell read it literally.
pub open spec fn sq_escape(s: Seq<u8>) -> Seq<u8>
    decreases s.len(),
{
    if s.len() == 0 {
        Seq::empty()
    } else if s[0] == B_SQ {
        seq![B_SQ, B_BS, B_SQ, B_SQ] + sq_escape(s.drop_first())
    } else {
        seq![s[0]] + sq_escape(s.drop_first())
    }
}

/// Escaping grows by the head.
pub proof fn lemma_sq_escape_snoc(s: Seq<u8>, b: u8)
    ensures
        sq_escape(s.push(b)) == sq_escape(s) + (if b == B_SQ { seq![B_SQ, B_BS, B_SQ, B_SQ] }
            else { seq![b] }),
    decreases s.len(),
{
    let tail: Seq<u8> = if b == B_SQ { seq![B_SQ, B_BS, B_SQ, B_SQ] } else { seq![b] };
    if s.len() == 0 {
        assert(s.push(b)[0] == b);
        assert(s.push(b).drop_first() =~= Seq::<u8>::empty());
        assert(sq_escape(Seq::<u8>::empty()) =~= Seq::<u8>::empty());
        assert(sq_escape(s.push(b)) == tail + sq_escape(s.push(b).drop_first()));
        assert(sq_escape(s.push(b)) =~= tail);
        assert(sq_escape(s) + tail =~= tail);
    } else {
        assert(s.push(b).drop_first() =~= s.drop_first().push(b));
        lemma_sq_escape_snoc(s.drop_first(), b);
        assert(sq_escape(s.push(b)) =~= sq_escape(s) + tail);
    }
}

/// Append the single-quote escaping of `msg` to a buffer.
fn push_sq_escaped(out: &mut Vec<u8>, msg: &[u8])
    ensures
        final(out)@ == old(out)@ + sq_escape(msg@),
{
    let n = msg.len();
    let mut i: usize = 0;
    proof {
        assert(out@ + sq_escape(msg@.take(0)) =~= out@);
    }
    while i < n
        invariant
            i <= n,
            n == msg@.len(),
            out@ == old(out)@ + sq_escape(msg@.take(i as int)),
        decreases n - i,
    {
        let b = msg[i];
        if b == B_SQ {
            out.push(B_SQ);
            out.push(B_BS);
            out.push(B_SQ);
            out.push(B_SQ);
        } else {
            out.push(b);
        }
        proof {
            lemma_sq_escape_snoc(msg@.take(i as int), msg@[i as int]);
            assert(msg@.take(i + 1) =~= msg@.take(i as int).push(msg@[i as int]));
            assert(out@ =~= old(out)@ + sq_escape(msg@.take(i + 1)));
        }
        i = i + 1;
    }
    proof {
        assert(msg@.take(n as int) =~= msg@);
    }
}

/// The bytes of `openclaw agent --agent '`.
pub open spec fn lit_send_head() -> Seq<u8> {
    seq![111u8, 112u8, 101u8, 110u8, 99u8, 108u8, 97u8, 119u8, 32u8, 97u8, 103u8, 101u8,
        110u8, 116u8, 32u8, 45u8, 45u8, 97u8, 103u8, 101u8, 110u8, 116u8, 32u8, 39u8]
}

/// The bytes of `' --session-id '`.
pub open spec fn lit_send_mid_session() -> Seq<u8> {
    seq![39u8, 32u8, 45u8, 45u8, 115u8, 101u8, 115u8, 115u8, 105u8, 111u8, 110u8, 45u8,
        105u8, 100u8, 32u8, 39u8]
}

/// The bytes of `' --message '`.
pub open spec fn lit_send_mid_message() -> Seq<u8> {
    seq![39u8, 32u8, 45u8, 45u8, 109u8, 101u8, 115u8, 115u8, 97u8, 103u8, 101u8, 32u8, 39u8]
}

/// The command that hands a message to the remote agent, with the message
/// single-quoted and escaped:
/// `openclaw agent --agent '<a>' --session-id '<s>' --message '<escaped>'`.
pub open spec fn send_cmd_spec(agent: Seq<u8>, session: Seq<u8>, msg: Seq<u8>) -> Seq<u8> {
    lit_send_head() + agent + lit_send_mid_session() + session + lit_send_mid_message()
        + sq_escape(msg) + seq![B_SQ]
}

/// Build the remote send command for a message.
pub fn build_send_command(agent: &[u8], session: &[u8], msg: &[u8]) -> (r: Vec<u8>)
    ensures
        r@ == send_cmd_spec(agent@, session@, msg@),
{
    let mut out: Vec<u8> = vec![111u8, 112u8, 101u8, 110u8, 99u8, 108u8, 97u8, 119u8, 32u8,
        97u8, 103u8, 101u8, 110u8, 116u8, 32u8, 45u8, 45u8, 97u8, 103u8, 101u8, 110u8,
        116u8, 32u8, 39u8];
    proof {
        assert(out@ =~= lit_send_head());
    }
    push_all(&mut out, agent);
    let mid1: Vec<u8> = vec![39u8, 32u8, 45u8, 45u8, 115u8, 101u8, 115u8, 115u8, 105u8,
        111u8, 110u8, 45u8, 105u8, 100u8, 32u8, 39u8];
    proof {
        assert(mid1@ =~= lit_send_mid_session());
    }
    push_all(&mut out, mid1.as_slice());
    push_all(&mut out, session);
    let mid2: Vec<u8> = vec![39u8, 32u8, 45u8, 45u8, 109u8, 101u8, 115u8, 115u8, 97u8,
        103u8, 101u8, 32u8, 39u8];
    proof {
        assert(mid2@ =~= lit_send_mid_message());
    }
    push_all(&mut out, mid2.as_slice());
    push_sq_escaped(&mut out, msg);
    out.push(B_SQ);
    proof {
        assert(out@ =~= send_cmd_spec(agent@, session@, msg@));
    }
    out
}

/// The bytes of `~/.openclaw/agents/`.
pub open spec fn lit_remote_home() -> Seq<u8> {
    seq![126u8, 47u8, 46u8, 111u8, 112u8, 101u8, 110u8, 99u8, 108u8, 97u8, 119u8, 47u8,
        97u8, 103u8, 101u8, 110u8, 116u8, 115u8, 47u8]
}

/// A session's log path as written into remote commands:
/// `~/.openclaw/agents/<agent>/sessions/<session>.jsonl`.
pub open spec fn remote_log_path(agent: Seq<u8>, session: Seq<u8>) -> Seq<u8> {
    lit_remote_home() + agent + crate::paths::lit_rel_sessions() + session
        + crate::paths::lit_rel_ext()
}

fn push_remote_log_path(out: &mut Vec<u8>, agent: &[u8], session: &[u8])
    ensures
        final(out)@ == old(out)@ + remote_log_path(agent@, session@),
{
    let home: Vec<u8> = vec![126u8, 47u8, 46u8, 111u8, 112u8, 101u8, 110u8, 99u8, 108u8,
        97u8, 119u8, 47u8, 97u8, 103u8, 101u8, 110u8, 116u8, 115u8, 47u8];
    let sess: Vec<u8> = vec![47u8, 115u8, 101u8, 115u8, 115u8, 105u8, 111u8, 110u8, 115u8,
        47u8];
    let ext: Vec<u8> = vec![46u8, 106u8, 115u8, 111u8, 110u8, 108u8];
    proof {
        assert(home@ =~= lit_remote_home());
        assert(sess@ =~= crate::paths::lit_rel_sessions());
        assert(ext@ =~= crate::paths::lit_rel_ext());
    }
    push_all(out, home.as_slice());
    push_all(out, agent);
    push_all(out, sess.as_slice());
    push_all(out, session);
    push_all(out, ext.as_slice());
    proof {
        assert(out@ =~= old(out)@ + remote_log_path(agent@, session@));
    }
}

/// The bytes of `cat '`.
pub open spec fn lit_cat_head() -> Seq<u8> {
    seq![99u8, 97u8, 116u8, 32u8, 39u8]
}

/// The bytes of `' 2>/dev/null || echo ''`.
pub open spec fn lit_cat_tail() -> Seq<u8> {
    seq![39u8, 32u8, 50u8, 62u8, 47u8, 100u8, 101u8, 118u8, 47u8, 110u8, 117u8, 108u8,
        108u8, 32u8, 124u8, 124u8, 32u8, 101u8, 99u8, 104u8, 111u8, 32u8, 39u8, 39u8]
}

/// The command that reads a remote session log, printing empty text rather
/// than failing when the file is absent.
pub open spec fn cat_cmd_spec(agent: Seq<u8>, session: Seq<u8>) -> Seq<u8> {
    lit_cat_head() + remote_log_path(agent, session) + lit_cat_tail()
}

/// Build the remote read command for a session log.
pub fn build_cat_command(agent: &[u8], session: &[u8]) -> (r: Vec<u8>)
    ensures
        r@ == cat_cmd_spec(agent@, session@),
{
    let mut out: Vec<u8> = vec![99u8, 97u8, 116u8, 32u8, 39u8];
    proof {
        assert(out@ =~= lit_cat_head());
    }
    push_remote_log_path(&mut out, agent, session);
    let tail: Vec<u8> = vec![39u8, 32u8, 50u8, 62u8, 47u8, 100u8, 101u8, 118u8, 47u8, 110u8,
        117u8, 108u8, 108u8, 32u8, 124u8, 124u8, 32u8, 101u8, 99u8, 104u8, 111u8, 32u8,
        39u8, 39u8];
    proof {
        assert(tail@ =~= lit_cat_tail());
    }
    push_all(&mut out, tail.as_slice());
    proof {
        assert(out@ =~= cat_cmd_spec(agent@, session@));
    }
    out
}

/// The bytes of `tail -f '`.
pub open spec fn lit_tail_head() -> Seq<u8> {
    seq![116u8, 97u8, 105u8, 108u8, 32u8, 45u8, 102u8, 32u8, 39u8]
}

/// The command that streams a remote session log as it grows.
pub open spec fn tail_cmd_spec(agent: Seq<u8>, session: Seq<u8>) -> Seq<u8> {
    lit_tail_head() + remote_log_path(agent, session) + seq![B_SQ]
}

/// Build the remote streaming command for a session log.
pub fn build_tail_command(agent: &[u8], session: &[u8]) -> (r: Vec<u8>)
    ensures
        r@ == tail_cmd_spec(agent@, session@),
{
    let mut out: Vec<u8> = vec![116u8, 97u8, 105u8, 108u8, 32u8, 45u8, 102u8, 32u8, 39u8];
    proof {
        assert(out@ =~= lit_tail_head());
    }
    push_remote_log_path(&mut out, agent, session);
    out.push(B_SQ);
    proof {
        assert(out@ =~= tail_cmd_spec(agent@, session@));
    }
    out
}

/// The bytes of `echo connected && hostname`: the one-shot reachability probe.
pub open spec fn lit_probe_cmd() -> Seq<u8> {
    seq![101u8, 99u8, 104u8, 111u8, 32u8, 99u8, 111u8, 110u8, 110u8, 101u8, 99u8, 116u8,
        101u8, 100u8, 32u8, 38u8, 38u8, 32u8, 104u8, 111u8, 115u8, 116u8, 110u8, 97u8,
        109u8, 101u8]
}

/// The command `test_connection` runs after connecting.
pub fn probe_command() -> (r: Vec<u8>)
    ensures
        r@ == lit_probe_cmd(),
{
    let v: Vec<u8> = vec![101u8, 99u8, 104u8, 111u8, 32u8, 99u8, 111u8, 110u8, 110u8, 101u8,
        99u8, 116u8, 101u8, 100u8, 32u8, 38u8, 38u8, 32u8, 104u8, 111u8, 115u8, 116u8,
        110u8, 97u8, 109u8, 101u8];
    proof {
        assert(v@ =~= lit_probe_cmd());
    }
    v
}

// ---------------------------------------------------------------------------
// What a POSIX shell makes of these commands.
// ---------------------------------------------------------------------------

/// Lexing a command into words, as a shell reads it: unquoted blanks split
/// words, single quotes group bytes literally, a backslash outside quotes
/// escapes the next byte. `cur` is the word being read, `started` whether
/// any of it has begun. `None` for an unterminated quote or a trailing
/// backslash.
pub open spec fn sh_lex(s: Seq<u8>, cur: Seq<u8>, started: bool) -> Option<Seq<Seq<u8>>>
    decreases s.len(),
{
    if s.len() == 0 {
        if started { Some(seq![cur]) } else { Some(Seq::empty()) }
    } else if s[0] == B_SP {
        if started {
            match sh_lex(s.drop_first(), Seq::empty(), false) {
                Some(ws) => Some(seq![cur] + ws),
                None => None,
            }
        } else {
            sh_lex(s.drop_first(), cur, false)
        }
    } else if s[0] == B_SQ {
        sh_lex_q(s.drop_first(), cur)
    } else if s[0] == B_BS {
        if s.len() < 2 { None } else { sh_lex(s.skip(2), cur.push(s[1]), true) }
    } else {
        sh_lex(s.drop_first(), cur.push(s[0]), true)
    }
}

/// Inside single quotes: every byte is literal until the closing quote.
pub open spec fn sh_lex_q(s: Seq<u8>, cur: Seq<u8>) -> Option<Seq<Seq<u8>>>
    decreases s.len(),
{
    if s.len() == 0 {
        None
    } else if s[0] == B_SQ {
        sh_lex(s.drop_first(), cur, true)
    } else {
        sh_lex_q(s.drop_first(), cur.push(s[0]))
    }
}

/// The words of a whole command as the shell reads them.
pub open spec fn sh_words(s: Seq<u8>) -> Option<Seq<Seq<u8>>> {
    sh_lex(s, Seq::empty(), false)
}

/// Bytes that pass through the lexer untouched outside quotes.
pub open spec fn sh_plain(s: Seq<u8>) -> bool {
    forall|i: int| 0 <= i < s.len() ==> s[i] != B_SP && s[i] != B_SQ && s[i] != B_BS
}

/// Escaping changes nothing when the text holds no single quote.
pub proof fn lemma_sq_escape_id(s: Seq<u8>)
    requires
        forall|i: int| 0 <= i < s.len() ==> s[i] != B_SQ,
    ensures
        sq_escape(s) == s,
    decreases s.len(),
{
    if s.len() > 0 {
        assert(forall|i: int| 0 <= i < s.drop_first().len() ==> s.drop_first()[i] == s[i + 1]);
        lemma_sq_escape_id(s.drop_first());
        assert(sq_escape(s) =~= s);
    }
}

/// Reading a plain word: its bytes join the current word one by one.
pub proof fn lemma_lex_word(w: Seq<u8>, rest: Seq<u8>, cur: Seq<u8>, started: bool)
    requires
        w.len() > 0,
        sh_plain(w),
    ensures
        sh_lex(w + rest, cur, started) == sh_lex(rest, cur + w, true),
    decreases w.len(),
{
    let s = w + rest;
    assert(s[0] == w[0]);
    assert(s.drop_first() =~= w.drop_first() + rest);
    if w.len() == 1 {
        assert(w.drop_first() + rest =~= rest);
        assert(cur + w =~= cur.push(w[0]));
    } else {
        assert(forall|i: int| 0 <= i < w.drop_first().len() ==> w.drop_first()[i] == w[i + 1]);
        lemma_lex_word(w.drop_first(), rest, cur.push(w[0]), true);
        assert(cur + w =~= cur.push(w[0]) + w.drop_first());
    }
}

/// Reading a single-quoted, escaped text: the original bytes — quotes,
/// blanks, backslashes and all — join the current word, and reading goes
/// on after the closing quote.
pub proof fn lemma_lex_quoted(m: Seq<u8>, rest: Seq<u8>, cur: Seq<u8>)
    ensures
        sh_lex_q(sq_escape(m) + (seq![B_SQ] + rest), cur) == sh_lex(rest, cur + m, true),
    decreases m.len(),
{
    let t = sq_escape(m) + (seq![B_SQ] + rest);
    if m.len() == 0 {
        assert(t =~= seq![B_SQ] + rest);
        assert(t[0] == B_SQ);
        assert(t.drop_first() =~= rest);
        assert(cur + m =~= cur);
    } else {
        let b = m[0];
        let m1 = m.drop_first();
        let t1 = sq_escape(m1) + (seq![B_SQ] + rest);
        if b == B_SQ {
            assert(t =~= seq![B_SQ, B_BS, B_SQ, B_SQ] + t1);
            assert(t[0] == B_SQ);
            let u1 = t.drop_first();
            assert(u1 =~= seq![B_BS, B_SQ, B_SQ] + t1);
            assert(sh_lex_q(t, cur) == sh_lex(u1, cur, true));
            assert(u1[0] == B_BS && u1.len() >= 2 && u1[1] == B_SQ);
            let u2 = u1.skip(2);
            assert(u2 =~= seq![B_SQ] + t1);
            assert(sh_lex(u1, cur, true) == sh_lex(u2, cur.push(B_SQ), true));
            assert(u2[0] == B_SQ);
            assert(u2.drop_first() =~= t1);
            assert(sh_lex(u2, cur.push(B_SQ), true) == sh_lex_q(t1, cur.push(B_SQ)));
            lemma_lex_quoted(m1, rest, cur.push(B_SQ));
            assert(cur + m =~= cur.push(B_SQ) + m1);
        } else {
            assert(t =~= seq![b] + t1);
            assert(t[0] == b && b != B_SQ);
            assert(t.drop_first() =~= t1);
            lemma_lex_quoted(m1, rest, cur.push(b));
            assert(cur + m =~= cur.push(b) + m1);
        }
    }
}

/// The bytes of `openclaw`.
pub open spec fn lit_w_openclaw() -> Seq<u8> {
    seq![111u8, 112u8, 101u8, 110u8, 99u8, 108u8, 97u8, 119u8]
}

/// The bytes of `agent`.
pub open spec fn lit_w_agent() -> Seq<u8> {
    seq![97u8, 103u8, 101u8, 110u8, 116u8]
}

/// The bytes of `--agent`.
pub open spec fn lit_f_agent() -> Seq<u8> {
    seq![45u8, 45u8, 97u8, 103u8, 101u8, 110u8, 116u8]
}

/// The bytes of `--session-id`.
pub open spec fn lit_f_session() -> Seq<u8> {
    seq![45u8, 45u8, 115u8, 101u8, 115u8, 115u8, 105u8, 111u8, 110u8, 45u8, 105u8, 100u8]
}

/// The bytes of `--message`.
pub open spec fn lit_f_message() -> Seq<u8> {
    seq![45u8, 45u8, 109u8, 101u8, 115u8, 115u8, 97u8, 103u8, 101u8]
}

/// Shell-escaping law: a shell reading the send command sees exactly the
/// words `openclaw agent --agent <agent> --session-id <session> --message
/// <message>` — the message text arrives as one intact word, byte for
/// byte, whatever quotes, blanks or backslashes it holds. The two
/// identifiers must hold no single quote, since only the message text is
/// escaped.
#[verifier::rlimit(100)]
#[verifier::spinoff_prover]
pub proof fn lemma_send_command_words(agent: Seq<u8>, session: Seq<u8>, msg: Seq<u8>)
    requires
        forall|i: int| 0 <= i < agent.len() ==> agent[i] != B_SQ,
        forall|i: int| 0 <= i < session.len() ==> session[i] != B_SQ,
    ensures
        sh_words(send_cmd_spec(agent, session, msg)) == Some(seq![
            lit_w_openclaw(),
            lit_w_agent(),
            lit_f_agent(),
            agent,
            lit_f_session(),
            session,
            lit_f_message(),
            msg,
        ]),
{
    let e = Seq::<u8>::empty();
    // the command, chopped at every word boundary, innermost last
    let t9 = sq_escape(msg) + (seq![B_SQ] + e);
    let t8 = seq![B_SQ] + t9;
    let t7 = lit_f_message() + (seq![B_SP] + t8);
    let t6 = sq_escape(session) + (seq![B_SQ] + (seq![B_SP] + t7));
    let t5 = seq![B_SQ] + t6;
    let t4 = lit_f_session() + (seq![B_SP] + t5);
    let t3 = sq_escape(agent) + (seq![B_SQ] + (seq![B_SP] + t4));
    let t2 = seq![B_SQ] + t3;
    let t1 = lit_f_agent() + (seq![B_SP] + t2);
    let t0 = lit_w_agent() + (seq![B_SP] + t1);
    let c = lit_w_openclaw() + (seq![B_SP] + t0);
    lemma_sq_escape_id(agent);
    lemma_sq_escape_id(session);
    assert(send_cmd_spec(agent, session, msg) =~= c);

    assert(sh_plain(lit_w_openclaw()));
    assert(sh_plain(lit_w_agent()));
    assert(sh_plain(lit_f_agent()));
    assert(sh_plain(lit_f_session()));
    assert(sh_plain(lit_f_message()));

    // the message word
    lemma_lex_quoted(msg, e, e);
    assert(e + msg =~= msg);
    assert(sh_lex(e, msg, true) == Some(seq![msg]));
    assert(t8[0] == B_SQ);
    assert(t8.drop_first() =~= t9);
    assert(sh_lex(t8, e, false) == Some(seq![msg]));
    // `--message`
    lemma_lex_word(lit_f_message(), seq![B_SP] + t8, e, false);
    assert(e + lit_f_message() =~= lit_f_message());
    assert((seq![B_SP] + t8)[0] == B_SP);
    assert((seq![B_SP] + t8).drop_first() =~= t8);
    assert(sh_lex(t7, e, false) == Some(seq![lit_f_message(), msg])) by {
        assert(seq![lit_f_message()] + seq![msg] =~= seq![lit_f_message(), msg]);
    }
    // the session word
    lemma_lex_quoted(session, seq![B_SP] + t7, e);
    assert(e + session =~= session);
    assert((seq![B_SP] + t7)[0] == B_SP);
    assert((seq![B_SP] + t7).drop_first() =~= t7);
    assert(t5[0] == B_SQ);
    assert(t5.drop_first() =~= t6);
    assert(sh_lex(t5, e, false) == Some(seq![session, lit_f_message(), msg])) by {
        assert(seq![session] + seq![lit_f_message(), msg] =~= seq![session, lit_f_message(),
            msg]);
    }
    // `--session-id`
    lemma_lex_word(lit_f_session(), seq![B_SP] + t5, e, false);
    assert(e + lit_f_session() =~= lit_f_session());
    assert((seq![B_SP] + t5)[0] == B_SP);
    assert((seq![B_SP] + t5).drop_first() =~= t5);
    assert(sh_lex(t4, e, false) == Some(seq![lit_f_session(), session, lit_f_message(), msg]))
        by {
        assert(seq![lit_f_session()] + seq![session, lit_f_message(), msg] =~= seq![
            lit_f_session(), session, lit_f_message(), msg]);
    }
    // the agent word
    lemma_lex_quoted(agent, seq![B_SP] + t4, e);
    assert(e + agent =~= agent);
    assert((seq![B_SP] + t4)[0] == B_SP);
    assert((seq![B_SP] + t4).drop_first() =~= t4);
    assert(t2[0] == B_SQ);
    assert(t2.drop_first() =~= t3);
    assert(sh_lex(t2, e, false) == Some(seq![agent, lit_f_session(), session, lit_f_message(),
        msg])) by {
        assert(seq![agent] + seq![lit_f_session(), session, lit_f_message(), msg] =~= seq![
            agent, lit_f_session(), session, lit_f_message(), msg]);
    }
    // `--agent`
    lemma_lex_word(lit_f_agent(), seq![B_SP] + t2, e, false);
    assert(e + lit_f_agent() =~= lit_f_agent());
    assert((seq![B_SP] + t2)[0] == B_SP);
    assert((seq![B_SP] + t2).drop_first() =~= t2);
    assert(sh_lex(t1, e, false) == Some(seq![lit_f_agent(), agent, lit_f_session(), session,
        lit_f_message(), msg])) by {
        assert(seq![lit_f_agent()] + seq![agent, lit_f_session(), session, lit_f_message(),
            msg] =~= seq![lit_f_agent(), agent, lit_f_session(), session, lit_f_message(),
            msg]);
    }
    // `agent`
    lemma_lex_word(lit_w_agent(), seq![B_SP] + t1, e, false);
    assert(e + lit_w_agent() =~= lit_w_agent());
    assert((seq![B_SP] + t1)[0] == B_SP);
    assert((seq![B_SP] + t1).drop_first() =~= t1);
    assert(sh_lex(t0, e, false) == Some(seq![lit_w_agent(), lit_f_agent(), agent,
        lit_f_session(), session, lit_f_message(), msg])) by {
        assert(seq![lit_w_agent()] + seq![lit_f_agent(), agent, lit_f_session(), session,
            lit_f_message(), msg] =~= seq![lit_w_agent(), lit_f_agent(), agent,
            lit_f_session(), session, lit_f_message(), msg]);
    }
    // `openclaw`
    lemma_lex_word(lit_w_openclaw(), seq![B_SP] + t0, e, false);
    assert(e + lit_w_openclaw() =~= lit_w_openclaw());
    assert((seq![B_SP] + t0)[0] == B_SP);
    assert((seq![B_SP] + t0).drop_first() =~= t0);
    assert(sh_lex(c, e, false) == Some(seq![lit_w_openclaw(), lit_w_agent(), lit_f_agent(),
        agent, lit_f_session(), session, lit_f_message(), msg])) by {
        assert(seq![lit_w_openclaw()] + seq![lit_w_agent(), lit_f_agent(), agent,
            lit_f_session(), session, lit_f_message(), msg] =~= seq![lit_w_openclaw(),
            lit_w_agent(), lit_f_agent(), agent, lit_f_session(), session, lit_f_message(),
            msg]);
    }
}

} // verus!
