//! Where a session's log lives: a deterministic path below the user's home
//! directory, `<home>/.openclaw/agents/<agent>/sessions/<session>.jsonl`.
use vstd::prelude::*;
use crate::bytes::push_all;

verus! {

/// The bytes of `.openclaw/agents/`.
pub open spec fn lit_rel_agents() -> Seq<u8> {
    seq![46u8, 111u8, 112u8, 101u8, 110u8, 99u8, 108u8, 97u8, 119u8, 47u8, 97u8, 103u8,
        101u8, 110u8, 116u8, 115u8, 47u8]
}

/// The bytes of `/sessions/`.
pub open spec fn lit_rel_sessions() -> Seq<u8> {
    seq![47u8, 115u8, 101u8, 115u8, 115u8, 105u8, 111u8, 110u8, 115u8, 47u8]
}

/// The bytes of `.jsonl`.
pub open spec fn lit_rel_ext() -> Seq<u8> {
    seq![46u8, 106u8, 115u8, 111u8, 110u8, 108u8]
}

/// The path of a session's log below a home directory. Pure in the two
/// identifiers: the same session always maps to the same path.
pub open spec fn rel_session_path(agent: Seq<u8>, session: Seq<u8>) -> Seq<u8> {
    lit_rel_agents() + agent + lit_rel_sessions() + session + lit_rel_ext()
}

/// Relies on `dirs::home_dir`: the user's home directory, when the platform
/// reports one, as UTF-8 path bytes. The result depends on the environment,
/// so nothing is promised of it.
#[verifier::external_body]
pub(crate) fn home_dir_bytes() -> (r: Option<Vec<u8>>) {
    dirs::home_dir().map(|p| p.to_string_lossy().into_owned().into_bytes())
}

/// The log path of a session under the given home directory.
pub fn session_path_in(home: &[u8], agent: &[u8], session: &[u8]) -> (r: Vec<u8>)
    ensures
        r@ == home@ + seq![47u8] + rel_session_path(agent@, session@),
{
    let mut out: Vec<u8> = Vec::new();
    push_all(&mut out, home);
    out.push(47);
    let rel: Vec<u8> = vec![46u8, 111u8, 112u8, 101u8, 110u8, 99u8, 108u8, 97u8, 119u8,
        47u8, 97u8, 103u8, 101u8, 110u8, 116u8, 115u8, 47u8];
    proof {
        assert(rel@ =~= lit_rel_agents());
    }
    push_all(&mut out, rel.as_slice());
    push_all(&mut out, agent);
    let sess: Vec<u8> = vec![47u8, 115u8, 101u8, 115u8, 115u8, 105u8, 111u8, 110u8, 115u8,
        47u8];
    proof {
        assert(sess@ =~= lit_rel_sessions());
    }
    push_all(&mut out, sess.as_slice());
    push_all(&mut out, session);
    let ext: Vec<u8> = vec![46u8, 106u8, 115u8, 111u8, 110u8, 108u8];
    proof {
        assert(ext@ =~= lit_rel_ext());
    }
    push_all(&mut out, ext.as_slice());
    proof {
        assert(out@ =~= home@ + seq![47u8] + rel_session_path(agent@, session@));
    }
    out
}

/// The log path of a session under the user's home directory, whatever the
/// platform reports that to be (empty when it reports none).
pub fn session_path(agent: &[u8], session: &[u8]) -> (r: Vec<u8>)
    ensures
        exists|h: Seq<u8>| r@ == h + seq![47u8] + rel_session_path(agent@, session@),
{
    let home = match home_dir_bytes() {
        Some(h) => h,
        None => Vec::new(),
    };
    let r = session_path_in(home.as_slice(), agent, session);
    proof {
        assert(r@ == home@ + seq![47u8] + rel_session_path(agent@, session@));
    }
    r
}

} // verus!
