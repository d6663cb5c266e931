//! Session tailer: what happens when a watch starts and on every
//! file-change notification afterwards. Reading the file and waiting for
//! notifications is the surrounding application's work; every decision —
//! whether to start, what to replay, which lines to deliver, where the
//! offset moves — is made and verified here.
use vstd::prelude::*;
use crate::codec::ChatMessage;
use crate::log::{all_msgs, complete_len, term_msgs, views_of, scan_from, decode_content};
use crate::registry::WatcherState;

verus! {

/// One message delivered for one session, as handed to a subscriber.
pub struct MessageEvent {
    pub session_id: Vec<u8>,
    pub message: ChatMessage,
}

/// Wrap one delivered message with the session it belongs to.
pub fn message_event(session_id: &[u8], message: ChatMessage) -> (r: MessageEvent)
    ensures
        r.session_id@ == session_id@,
        r.message == message,
{
    let mut sid: Vec<u8> = Vec::new();
    crate::bytes::push_all(&mut sid, session_id);
    proof {
        assert(Seq::<u8>::empty() + session_id@ =~= session_id@);
    }
    MessageEvent { session_id: sid, message }
}

/// Start a session's watch over the log's current content.
///
/// With no watch active, every line of the current content is delivered as
/// a replay, and the watch is registered with its offset at the end of that
/// content — live delivery afterwards begins exactly where the replay
/// ended. With a watch already active the call is an idempotent no-op: no
/// replay, nothing registered twice, so a second caller cannot cause a
/// second delivery of the same lines.
pub fn start_session_watch(reg: &mut WatcherState, session_id: &[u8], content: &[u8]) -> (r: (
    Vec<ChatMessage>,
    bool,
))
    requires
        old(reg).wf(),
    ensures
        final(reg).wf(),
        old(reg)@.contains_key(session_id@) ==> final(reg)@ == old(reg)@ && !r.1
            && r.0@.len() == 0,
        !old(reg)@.contains_key(session_id@) ==> final(reg)@ == old(reg)@.insert(
            session_id@,
            content@.len() as u64,
        ) && r.1 && views_of(r.0@) == all_msgs(content@),
{
    if reg.is_watched(session_id) {
        (Vec::new(), false)
    } else {
        let msgs = decode_content(content);
        let started = reg.start_watch(session_id, content.len() as u64);
        (msgs, started)
    }
}

/// One delivery step of an active watch, on a change notification: read
/// the log's unread tail, deliver exactly its terminated lines in order,
/// and move the offset past them. A notification with no new complete line
/// delivers nothing and moves nothing; the offset never goes backwards, so
/// nothing already delivered is ever delivered again.
pub fn poll_session(reg: &mut WatcherState, session_id: &[u8], content: &[u8]) -> (msgs: Vec<
    ChatMessage,
>)
    requires
        old(reg).wf(),
        old(reg)@.contains_key(session_id@),
        old(reg)@[session_id@] <= content@.len(),
    ensures
        final(reg).wf(),
        views_of(msgs@) == term_msgs(content@.skip(old(reg)@[session_id@] as int)),
        final(reg)@ == old(reg)@.insert(
            session_id@,
            (old(reg)@[session_id@] + complete_len(
                content@.skip(old(reg)@[session_id@] as int),
            )) as u64,
        ),
{
    let offset64 = match reg.get_offset(session_id) {
        Some(o) => o,
        None => {
            proof {
                assert(false);
            }
            0
        },
    };
    let n = content.len();
    proof {
        assert(offset64 <= n as u64);
    }
    let offset = offset64 as usize;
    proof {
        assert(offset == offset64);
    }
    let (msgs, new_offset) = scan_from(content, offset);
    reg.update_offset(session_id, new_offset as u64);
    msgs
}

} // verus!
