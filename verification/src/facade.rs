//! Transport facade: the one entry point the rest of an application sees.
//! It bundles the remote-mode flag, the watch registry and the remote link,
//! and decides per call which side does the work: local mode goes through
//! the log store and the tailer, remote mode through the remote link. The
//! flag is explicit state read on every call, never cached.
use vstd::prelude::*;
use crate::codec::{ChatMessage, Role};
use crate::bytes::push_all;
use crate::link::{SshSession, LinkError, send_cmd_spec, cat_cmd_spec};
use crate::registry::WatcherState;

verus! {

/// The transport state: delivery mode, watch registry, remote link.
pub struct Transport {
    pub remote_mode: bool,
    pub watchers: WatcherState,
    pub link: SshSession,
}

impl Transport {
    /// A fresh transport: local mode, nothing watched, link disconnected.
    pub fn new() -> (r: Transport)
        ensures
            !r.remote_mode,
            r.watchers@ == Map::<Seq<u8>, u64>::empty(),
            r.watchers.wf(),
            r.link.status is Disconnected,
    {
        Transport {
            remote_mode: false,
            watchers: WatcherState::new(),
            link: SshSession::new(),
        }
    }

    /// Switch between local and remote delivery. Nothing else moves: an
    /// open connection stays open, active watches stay active.
    pub fn set_remote_mode(&mut self, enabled: bool)
        ensures
            final(self).remote_mode == enabled,
            final(self).watchers == old(self).watchers,
            final(self).link == old(self).link,
    {
        self.remote_mode = enabled;
    }

    /// The current delivery mode.
    pub fn get_remote_mode(&self) -> (r: bool)
        ensures
            r == self.remote_mode,
    {
        self.remote_mode
    }

    /// The remote command behind a remote-mode `send`: only on a connected
    /// link, and then exactly the escaped agent invocation; anywhere else
    /// the distinct `NotConnected` failure, so the caller may connect and
    /// try again.
    pub fn remote_send_command(&self, agent: &[u8], session: &[u8], msg: &[u8]) -> (r: Result<
        Vec<u8>,
        LinkError,
    >)
        ensures
            self.link.status is Connected ==> r is Ok && r->Ok_0@ == send_cmd_spec(
                agent@,
                session@,
                msg@,
            ),
            !(self.link.status is Connected) ==> r == Result::<Vec<u8>, LinkError>::Err(
                LinkError::NotConnected,
            ),
    {
        match self.link.exec_check() {
            Ok(()) => Ok(crate::link::build_send_command(agent, session, msg)),
            Err(e) => Err(e),
        }
    }

    /// The remote command behind a remote-mode `loadHistory`: only on a
    /// connected link, and then exactly the read that prints empty text for
    /// an absent file.
    pub fn remote_history_command(&self, agent: &[u8], session: &[u8]) -> (r: Result<
        Vec<u8>,
        LinkError,
    >)
        ensures
            self.link.status is Connected ==> r is Ok && r->Ok_0@ == cat_cmd_spec(
                agent@,
                session@,
            ),
            !(self.link.status is Connected) ==> r == Result::<Vec<u8>, LinkError>::Err(
                LinkError::NotConnected,
            ),
    {
        match self.link.exec_check() {
            Ok(()) => Ok(crate::link::build_cat_command(agent, session)),
            Err(e) => Err(e),
        }
    }
}

/// The user half of a local `send`: the message appended to the log before
/// the agent is invoked.
pub fn user_message(text: &[u8]) -> (r: ChatMessage)
    ensures
        r.role is User,
        r.content@ == text@,
{
    let mut content: Vec<u8> = Vec::new();
    push_all(&mut content, text);
    proof {
        assert(Seq::<u8>::empty() + text@ =~= text@);
    }
    ChatMessage { role: Role::User, content }
}

/// The assistant half of a local `send`: the agent's response appended to
/// the log after it returns.
pub fn assistant_message(text: &[u8]) -> (r: ChatMessage)
    ensures
        r.role is Assistant,
        r.content@ == text@,
{
    let mut content: Vec<u8> = Vec::new();
    push_all(&mut content, text);
    proof {
        assert(Seq::<u8>::empty() + text@ =~= text@);
    }
    ChatMessage { role: Role::Assistant, content }
}

/// One payload of the agent's reply, as the collaborator reports it.
pub struct Payload {
    pub text: Option<Vec<u8>>,
}

/// The agent collaborator's whole reply.
pub struct OpenClawOutput {
    pub payloads: Vec<Payload>,
}

/// The payload texts that are present, in order.
pub open spec fn texts_of(ps: Seq<Payload>) -> Seq<Seq<u8>>
    decreases ps.len(),
{
    if ps.len() == 0 {
        Seq::empty()
    } else {
        let rest = texts_of(ps.drop_first());
        match ps[0].text {
            Some(t) => seq![t@] + rest,
            None => rest,
        }
    }
}

/// Texts joined with one line feed between each pair.
pub open spec fn joined(ts: Seq<Seq<u8>>) -> Seq<u8>
    decreases ts.len(),
{
    if ts.len() == 0 {
        Seq::empty()
    } else if ts.len() == 1 {
        ts[0]
    } else {
        ts[0] + seq![10u8] + joined(ts.drop_first())
    }
}

/// Joining the remaining texts onto what is already accumulated: `any`
/// says whether a separator is owed before the next text.
pub open spec fn joined_from(acc: Seq<u8>, any: bool, ts: Seq<Seq<u8>>) -> Seq<u8>
    decreases ts.len(),
{
    if ts.len() == 0 {
        acc
    } else if any {
        joined_from(acc + seq![10u8] + ts[0], true, ts.drop_first())
    } else {
        joined_from(acc + ts[0], true, ts.drop_first())
    }
}

/// With a separator owed, the rest joins after the accumulator and one
/// line feed.
proof fn lemma_joined_from_true(acc: Seq<u8>, ts: Seq<Seq<u8>>)
    ensures
        ts.len() == 0 ==> joined_from(acc, true, ts) == acc,
        ts.len() > 0 ==> joined_from(acc, true, ts) == acc + seq![10u8] + joined(ts),
    decreases ts.len(),
{
    if ts.len() == 1 {
        assert(joined_from(acc + seq![10u8] + ts[0], true, ts.drop_first()) == acc
            + seq![10u8] + ts[0]);
    } else if ts.len() > 1 {
        lemma_joined_from_true(acc + seq![10u8] + ts[0], ts.drop_first());
        assert(joined(ts) == ts[0] + seq![10u8] + joined(ts.drop_first()));
        assert((acc + seq![10u8] + ts[0]) + seq![10u8] + joined(ts.drop_first()) =~= acc
            + seq![10u8] + (ts[0] + seq![10u8] + joined(ts.drop_first())));
    }
}

/// Starting with nothing accumulated, the join is the join.
proof fn lemma_joined_from_start(ts: Seq<Seq<u8>>)
    ensures
        joined_from(Seq::<u8>::empty(), false, ts) == joined(ts),
{
    let e = Seq::<u8>::empty();
    if ts.len() > 0 {
        assert(e + ts[0] =~= ts[0]);
        lemma_joined_from_true(ts[0], ts.drop_first());
        if ts.len() == 1 {
        } else {
            assert(ts[0] + seq![10u8] + joined(ts.drop_first()) == joined(ts));
        }
    }
}

/// The agent's reply collapsed to one text: the present payload texts
/// joined with line feeds. `None` when that text is empty — an empty
/// reply is a failure, not a message.
pub fn extract_response_text(out: &OpenClawOutput) -> (r: Option<Vec<u8>>)
    ensures
        joined(texts_of(out.payloads@)).len() > 0 ==> (r matches Some(t) && t@ == joined(
            texts_of(out.payloads@),
        )),
        joined(texts_of(out.payloads@)).len() == 0 ==> r is None,
{
    let n = out.payloads.len();
    let mut acc: Vec<u8> = Vec::new();
    let mut any = false;
    let mut i: usize = 0;
    proof {
        assert(out.payloads@.skip(0) =~= out.payloads@);
        lemma_joined_from_start(texts_of(out.payloads@));
        assert(acc@ =~= Seq::<u8>::empty());
    }
    while i < n
        invariant
            i <= n,
            n == out.payloads@.len(),
            joined(texts_of(out.payloads@)) == joined_from(
                acc@,
                any,
                texts_of(out.payloads@.skip(i as int)),
            ),
        decreases n - i,
    {
        let ghost pre = out.payloads@.skip(i as int);
        proof {
            assert(pre[0] == out.payloads@[i as int]);
            assert(pre.drop_first() =~= out.payloads@.skip(i + 1));
        }
        match &out.payloads[i].text {
            Some(t) => {
                proof {
                    assert(texts_of(pre) == seq![t@] + texts_of(out.payloads@.skip(i + 1)));
                    assert(texts_of(pre)[0] == t@);
                    assert(texts_of(pre).drop_first() =~= texts_of(out.payloads@.skip(i + 1)));
                }
                let ghost acc_old = acc@;
                if any {
                    acc.push(10);
                }
                push_all(&mut acc, t.as_slice());
                proof {
                    if any {
                        assert(acc@ =~= acc_old + seq![10u8] + t@);
                    } else {
                        assert(acc@ =~= acc_old + t@);
                    }
                }
                any = true;
            },
            None => {
                proof {
                    assert(texts_of(pre) == texts_of(out.payloads@.skip(i + 1)));
                }
            },
        }
        i = i + 1;
    }
    proof {
        assert(out.payloads@.skip(n as int).len() == 0);
        assert(texts_of(out.payloads@.skip(n as int)) =~= Seq::<Seq<u8>>::empty());
    }
    if acc.len() == 0 {
        None
    } else {
        Some(acc)
    }
}

} // verus!
