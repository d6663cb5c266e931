//! Tailer registry: the process-wide table from session identifier to that
//! session's tail position. It holds at most one entry per session — the
//! at-most-one-active-watch invariant that keeps two tailers from racing on
//! one log — and it alone decides whether a watch starts, is already there,
//! or stops. Starting an already-watched session is a no-op; stopping an
//! unwatched one is too.
use vstd::prelude::*;
use crate::bytes::push_all;

verus! {

/// One session's tail position: how many bytes of its log have been
/// delivered. The offset only ever grows, and it is moved only by the one
/// delivery task that owns the watch.
pub struct TailState {
    pub session_id: Vec<u8>,
    pub byte_offset: u64,
}

/// The registry. Its abstract value is a map from session identifier to
/// delivered byte offset; one entry per session.
pub struct WatcherState {
    entries: Vec<TailState>,
}

/// Index of the entry with the given identifier.
pub open spec fn idx_of(entries: Seq<TailState>, sid: Seq<u8>) -> int {
    choose|i: int| 0 <= i < entries.len() && entries[i].session_id@ == sid
}

/// Whether some entry has the given identifier.
pub open spec fn has_sid(entries: Seq<TailState>, sid: Seq<u8>) -> bool {
    exists|i: int| 0 <= i < entries.len() && entries[i].session_id@ == sid
}

/// No two entries share a session identifier.
pub open spec fn entries_wf(es: Seq<TailState>) -> bool {
    forall|i: int, j: int|
        #![trigger es[i], es[j]]
        0 <= i < j < es.len() ==> es[i].session_id@ != es[j].session_id@
}

impl WatcherState {
    /// No two entries share a session identifier. Established by `new`,
    /// kept by every method.
    pub closed spec fn wf(self) -> bool {
        entries_wf(self.entries@)
    }

    /// The registry as a map from session identifier to offset.
    pub closed spec fn view(&self) -> Map<Seq<u8>, u64> {
        Map::new(
            |s: Seq<u8>| has_sid(self.entries@, s),
            |s: Seq<u8>| self.entries@[idx_of(self.entries@, s)].byte_offset,
        )
    }

    /// A fresh registry watches nothing.
    pub fn new() -> (r: WatcherState)
        ensures
            r@ == Map::<Seq<u8>, u64>::empty(),
            r.wf(),
    {
        let r = WatcherState { entries: Vec::new() };
        proof {
            assert(r@ =~= Map::<Seq<u8>, u64>::empty());
        }
        r
    }

    /// Find the entry for a session.
    fn find(&self, session_id: &[u8]) -> (r: Option<usize>)
        requires
            self.wf(),
        ensures
            match r {
                Some(i) => i < self.entries@.len() && self.entries@[i as int].session_id@
                    == session_id@ && self@.contains_key(session_id@) && self@[session_id@]
                    == self.entries@[i as int].byte_offset,
                None => !self@.contains_key(session_id@),
            },
    {
        let n = self.entries.len();
        let mut i: usize = 0;
        while i < n
            invariant
                self.wf(),
                i <= n,
                n == self.entries@.len(),
                forall|k: int| 0 <= k < i ==> self.entries@[k].session_id@ != session_id@,
            decreases n - i,
        {
            if crate::codec::bytes_eq(self.entries[i].session_id.as_slice(), session_id) {
                proof {
                    assert(self.entries@[i as int].session_id@ == session_id@);
                    assert(has_sid(self.entries@, session_id@));
                    assert(self@.contains_key(session_id@));
                    let j = idx_of(self.entries@, session_id@);
                    assert(0 <= j < self.entries@.len() && self.entries@[j].session_id@
                        == session_id@);
                    if j > i as int {
                        assert(self.entries@[i as int].session_id@
                            != self.entries@[j].session_id@);
                    }
                    assert(j == i);
                }
                return Some(i);
            }
            i = i + 1;
        }
        proof {
            assert(!has_sid(self.entries@, session_id@));
        }
        None
    }

    /// Whether a session has an active watch.
    pub fn is_watched(&self, session_id: &[u8]) -> (r: bool)
        requires
            self.wf(),
        ensures
            r == self@.contains_key(session_id@),
    {
        self.find(session_id).is_some()
    }

    /// The delivered offset of a session's watch, if one is active.
    pub fn get_offset(&self, session_id: &[u8]) -> (r: Option<u64>)
        requires
            self.wf(),
        ensures
            self@.contains_key(session_id@) ==> r == Some(self@[session_id@]),
            !self@.contains_key(session_id@) ==> r is None,
    {
        match self.find(session_id) {
            Some(i) => Some(self.entries[i].byte_offset),
            None => None,
        }
    }

    /// Start a watch for a session at the given initial offset. When the
    /// session is already watched this is a no-op that leaves the existing
    /// watch — and its offset — untouched, and says so: an idempotent
    /// start, so a second caller cannot set up a second delivery.
    pub fn start_watch(&mut self, session_id: &[u8], initial_offset: u64) -> (started: bool)
        requires
            old(self).wf(),
        ensures
            final(self).wf(),
            old(self)@.contains_key(session_id@) ==> final(self)@ == old(self)@ && !started,
            !old(self)@.contains_key(session_id@) ==> final(self)@ == old(self)@.insert(
                session_id@,
                initial_offset,
            ) && started,
    {
        match self.find(session_id) {
            Some(_) => false,
            None => {
                let mut sid: Vec<u8> = Vec::new();
                push_all(&mut sid, session_id);
                proof {
                    assert(Seq::<u8>::empty() + session_id@ =~= session_id@);
                }
                let ghost old_entries = self.entries@;
                self.entries.push(TailState { session_id: sid, byte_offset: initial_offset });
                proof {
                    let es = self.entries@;
                    let n = old_entries.len() as int;
                    assert(es[n].session_id@ == session_id@);
                    assert(forall|k: int| 0 <= k < n ==> es[k] == old_entries[k]);
                    assert(self.wf());
                    assert forall|s: Seq<u8>| #[trigger] has_sid(es, s) implies (has_sid(
                        old_entries,
                        s,
                    ) || s == session_id@) by {
                        let i = choose|i: int| 0 <= i < es.len() && es[i].session_id@ == s;
                        if i < n {
                            assert(has_sid(old_entries, s));
                        }
                    }
                    assert forall|s: Seq<u8>| has_sid(old_entries, s) implies #[trigger]
                        has_sid(es, s) by {
                        let i = choose|i: int| 0 <= i < old_entries.len()
                            && old_entries[i].session_id@ == s;
                        assert(es[i].session_id@ == s);
                    }
                    assert(has_sid(es, session_id@));
                    assert forall|s: Seq<u8>| true implies #[trigger] self@.contains_key(s)
                        == old(self)@.insert(session_id@, initial_offset).contains_key(s) by {
                    }
                    assert forall|s: Seq<u8>| self@.contains_key(s) implies #[trigger] self@[s]
                        == old(self)@.insert(session_id@, initial_offset)[s] by {
                        let j = idx_of(es, s);
                        assert(0 <= j < es.len() && es[j].session_id@ == s);
                        if s == session_id@ {
                            assert(j == n) by {
                                if j < n {
                                    assert(has_sid(old_entries, s));
                                }
                            }
                        } else {
                            assert(j < n);
                            let j0 = idx_of(old_entries, s);
                            assert(0 <= j0 < n && old_entries[j0].session_id@ == s);
                            assert(j == j0) by {
                                if j != j0 {
                                    assert(es[j0].session_id@ == s);
                                }
                            }
                        }
                    }
                    assert(final(self)@ =~= old(self)@.insert(session_id@, initial_offset));
                }
                true
            },
        }
    }

    /// Move a session's offset forward to what a tail read consumed. The
    /// offset never moves backwards: already-delivered content stays
    /// delivered.
    pub fn update_offset(&mut self, session_id: &[u8], new_offset: u64)
        requires
            old(self).wf(),
            old(self)@.contains_key(session_id@),
            new_offset >= old(self)@[session_id@],
        ensures
            final(self).wf(),
            final(self)@ == old(self)@.insert(session_id@, new_offset),
    {
        match self.find(session_id) {
            Some(i) => {
                let ghost old_entries = self.entries@;
                let entry = &mut self.entries[i];
                entry.byte_offset = new_offset;
                proof {
                    let es = self.entries@;
                    assert(es[i as int].session_id@ == session_id@);
                    assert(forall|k: int| 0 <= k < es.len() && k != i ==> es[k]
                        == old_entries[k]);
                    assert(self.wf());
                    assert forall|s: Seq<u8>| #[trigger] has_sid(es, s) == has_sid(
                        old_entries,
                        s,
                    ) by {
                        if has_sid(es, s) {
                            let k = choose|k: int| 0 <= k < es.len() && es[k].session_id@ == s;
                            assert(old_entries[k].session_id@ == s);
                        }
                        if has_sid(old_entries, s) {
                            let k = choose|k: int| 0 <= k < old_entries.len()
                                && old_entries[k].session_id@ == s;
                            assert(es[k].session_id@ == s);
                        }
                    }
                    assert forall|s: Seq<u8>| self@.contains_key(s) implies #[trigger] self@[s]
                        == old(self)@.insert(session_id@, new_offset)[s] by {
                        let j = idx_of(es, s);
                        assert(0 <= j < es.len() && es[j].session_id@ == s);
                        if s == session_id@ {
                            assert(j == i) by {
                                if j != i as int {
                                    assert(es[i as int].session_id@ == s);
                                }
                            }
                        } else {
                            assert(j != i);
                            let j0 = idx_of(old_entries, s);
                            assert(0 <= j0 < old_entries.len() && old_entries[j0].session_id@
                                == s);
                            assert(j == j0) by {
                                if j != j0 {
                                    assert(es[j0].session_id@ == s);
                                }
                            }
                        }
                    }
                    assert(final(self)@ =~= old(self)@.insert(session_id@, new_offset));
                }
            },
            None => {
                proof {
                    assert(false);
                }
            },
        }
    }

    /// Stop a session's watch: its entry leaves the registry. Stopping a
    /// session with no active watch changes nothing and never fails.
    pub fn stop_watching(&mut self, session_id: &[u8])
        requires
            old(self).wf(),
        ensures
            final(self).wf(),
            final(self)@ == old(self)@.remove(session_id@),
            !old(self)@.contains_key(session_id@) ==> final(self)@ == old(self)@,
    {
        match self.find(session_id) {
            Some(i) => {
                let ghost old_entries = self.entries@;
                self.entries.remove(i);
                proof {
                    let es = self.entries@;
                    assert(es =~= old_entries.remove(i as int));
                    assert(forall|k: int| 0 <= k < i ==> es[k] == old_entries[k]);
                    assert(forall|k: int| i <= k < es.len() ==> es[k] == old_entries[k + 1]);
                    assert(self.wf());
                    assert forall|s: Seq<u8>| #[trigger] has_sid(es, s) implies has_sid(
                        old_entries,
                        s,
                    ) && s != session_id@ by {
                        let k = choose|k: int| 0 <= k < es.len() && es[k].session_id@ == s;
                        if k < i as int {
                            assert(old_entries[k].session_id@ == s);
                        } else {
                            assert(old_entries[k + 1].session_id@ == s);
                        }
                    }
                    assert forall|s: Seq<u8>| has_sid(old_entries, s) && s != session_id@
                        implies #[trigger] has_sid(es, s) by {
                        let k = choose|k: int| 0 <= k < old_entries.len()
                            && old_entries[k].session_id@ == s;
                        assert(k != i);
                        if k < i as int {
                            assert(es[k].session_id@ == s);
                        } else {
                            assert(es[k - 1].session_id@ == s);
                        }
                    }
                    assert forall|s: Seq<u8>| self@.contains_key(s) implies #[trigger] self@[s]
                        == old(self)@.remove(session_id@)[s] by {
                        let j = idx_of(es, s);
                        assert(0 <= j < es.len() && es[j].session_id@ == s);
                        let j0 = idx_of(old_entries, s);
                        assert(has_sid(old_entries, s));
                        assert(0 <= j0 < old_entries.len() && old_entries[j0].session_id@
                            == s);
                        if j < i as int {
                            assert(j == j0) by {
                                if j0 != j {
                                    assert(old_entries[j].session_id@ == s);
                                }
                            }
                        } else {
                            assert(j + 1 == j0) by {
                                if j0 != j + 1 {
                                    assert(old_entries[j + 1].session_id@ == s);
                                }
                            }
                        }
                    }
                    assert(final(self)@ =~= old(self)@.remove(session_id@));
                }
            },
            None => {
                proof {
                    assert(final(self)@ =~= old(self)@.remove(session_id@));
                    assert(final(self)@ =~= old(self)@);
                }
            },
        }
    }
}

} // verus!
