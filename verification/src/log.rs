//! Log store: the pure reading side of an append-only per-session log.
//! A log is a byte sequence of lines separated by line feeds. `decode_content`
//! reads every line of a whole log; `scan_from` reads only the tail after a
//! byte offset, consumes exactly the terminated lines there, and reports the
//! new offset — the mechanism that keeps a partial trailing line unread until
//! it is completed, so nothing is delivered twice and nothing mid-line is
//! ever parsed.
use vstd::prelude::*;
use crate::codec::{B_NL, ChatMessage, SpecMessage, parse_line_spec, parse_jsonl_line};
use vstd::slice::slice_subrange;

verus! {

/// The views of a sequence of messages.
pub open spec fn views_of(ms: Seq<ChatMessage>) -> Seq<SpecMessage> {
    ms.map_values(|m: ChatMessage| m@)
}

/// Position of the first line feed, or the length when there is none.
pub open spec fn first_nl(s: Seq<u8>) -> nat
    decreases s.len(),
{
    if s.len() == 0 { 0 } else if s[0] == B_NL { 0 } else { 1 + first_nl(s.drop_first()) }
}

/// Every line of the log, in order: each terminated line without its line
/// feed, and the trailing unterminated fragment if one is there.
pub open spec fn split_lines(s: Seq<u8>) -> Seq<Seq<u8>>
    decreases s.len(),
{
    if s.len() == 0 {
        Seq::empty()
    } else {
        let k = first_nl(s);
        if k >= s.len() {
            seq![s]
        } else {
            seq![s.take(k as int)] + split_lines(s.skip(k + 1 as int))
        }
    }
}

/// Only the terminated lines, in order, without their line feeds.
pub open spec fn term_lines(s: Seq<u8>) -> Seq<Seq<u8>>
    decreases s.len(),
{
    if s.len() == 0 {
        Seq::empty()
    } else {
        let k = first_nl(s);
        if k >= s.len() {
            Seq::empty()
        } else {
            seq![s.take(k as int)] + term_lines(s.skip(k + 1 as int))
        }
    }
}

/// How many leading bytes lie in terminated lines: the length through the
/// last line feed, or zero when there is none.
pub open spec fn complete_len(s: Seq<u8>) -> nat
    decreases s.len(),
{
    if s.len() == 0 {
        0
    } else {
        let k = first_nl(s);
        if k >= s.len() {
            0
        } else {
            k + 1 + complete_len(s.skip(k + 1 as int))
        }
    }
}

/// The messages the codec finds in the given lines, unparseable ones skipped.
pub open spec fn msgs_of_lines(ls: Seq<Seq<u8>>) -> Seq<SpecMessage>
    decreases ls.len(),
{
    if ls.len() == 0 {
        Seq::empty()
    } else {
        let rest = msgs_of_lines(ls.drop_first());
        match parse_line_spec(ls[0]) {
            Some(m) => seq![m] + rest,
            None => rest,
        }
    }
}

/// All messages a full read of the log yields.
pub open spec fn all_msgs(s: Seq<u8>) -> Seq<SpecMessage> {
    msgs_of_lines(split_lines(s))
}

/// All messages a tail read yields: those of the terminated lines only.
pub open spec fn term_msgs(s: Seq<u8>) -> Seq<SpecMessage> {
    msgs_of_lines(term_lines(s))
}

/// Where the bytes before `d` hold no line feed and byte `d` is one, the
/// first line feed is at `d`.
pub proof fn lemma_first_nl_at(s: Seq<u8>, d: int)
    requires
        0 <= d < s.len(),
        s[d] == B_NL,
        forall|k: int| 0 <= k < d ==> s[k] != B_NL,
    ensures
        first_nl(s) == d,
    decreases d,
{
    if d == 0 {
    } else {
        assert(s[0] != B_NL);
        let t = s.drop_first();
        assert(t[d - 1] == B_NL);
        assert(forall|k: int| 0 <= k < d - 1 ==> t[k] == s[k + 1] && t[k] != B_NL);
        lemma_first_nl_at(t, d - 1);
    }
}

/// Where no byte is a line feed, there is no first one.
pub proof fn lemma_first_nl_none(s: Seq<u8>)
    requires
        forall|k: int| 0 <= k < s.len() ==> s[k] != B_NL,
    ensures
        first_nl(s) == s.len(),
    decreases s.len(),
{
    if s.len() > 0 {
        let t = s.drop_first();
        assert(forall|k: int| 0 <= k < t.len() ==> t[k] == s[k + 1] && t[k] != B_NL);
        lemma_first_nl_none(t);
    }
}

/// Before the first line feed there is no line feed, and it is one.
pub proof fn lemma_first_nl_spec(s: Seq<u8>)
    ensures
        first_nl(s) <= s.len(),
        first_nl(s) < s.len() ==> s[first_nl(s) as int] == B_NL,
        forall|j: int| 0 <= j < first_nl(s) ==> s[j] != B_NL,
    decreases s.len(),
{
    if s.len() > 0 && s[0] != B_NL {
        lemma_first_nl_spec(s.drop_first());
        assert(forall|j: int| 1 <= j < first_nl(s) ==> s[j] == s.drop_first()[j - 1]);
    }
}

/// An offset is a line boundary when everything before it lies in
/// terminated lines.
pub open spec fn is_boundary(s: Seq<u8>, off: int) -> bool {
    0 <= off <= s.len() && complete_len(s.take(off)) == off
}

/// The terminated prefix never passes the length.
pub proof fn lemma_complete_le(s: Seq<u8>)
    ensures
        complete_len(s) <= s.len(),
    decreases s.len(),
{
    if s.len() > 0 {
        lemma_first_nl_spec(s);
        let k = first_nl(s);
        if k < s.len() {
            lemma_complete_le(s.skip(k + 1 as int));
        }
    }
}

/// Concatenating line lists concatenates their messages.
#[verifier::rlimit(100)]
#[verifier::spinoff_prover]
pub proof fn lemma_msgs_concat(l1: Seq<Seq<u8>>, l2: Seq<Seq<u8>>)
    ensures
        msgs_of_lines(l1 + l2) == msgs_of_lines(l1) + msgs_of_lines(l2),
    decreases l1.len(),
{
    if l1.len() == 0 {
        assert(l1 + l2 =~= l2);
        assert(msgs_of_lines(l1) + msgs_of_lines(l2) =~= msgs_of_lines(l2));
    } else {
        lemma_msgs_concat(l1.drop_first(), l2);
        assert((l1 + l2).drop_first() =~= l1.drop_first() + l2);
        assert((l1 + l2)[0] == l1[0]);
        match parse_line_spec(l1[0]) {
            Some(m) => {
                assert(seq![m] + (msgs_of_lines(l1.drop_first()) + msgs_of_lines(l2))
                    =~= (seq![m] + msgs_of_lines(l1.drop_first())) + msgs_of_lines(l2));
            },
            None => {},
        }
    }
}

/// Splitting a log at a line boundary splits its terminated lines and its
/// terminated length. This is what makes repeated tail reads safe: the
/// lines before the boundary and the lines after it are exactly all lines.
pub proof fn lemma_split_at_boundary(s: Seq<u8>, off: int)
    requires
        is_boundary(s, off),
    ensures
        term_lines(s) == term_lines(s.take(off)) + term_lines(s.skip(off)),
        complete_len(s) == off + complete_len(s.skip(off)),
    decreases off,
{
    if off == 0 {
        assert(s.skip(0) =~= s);
        assert(s.take(0).len() == 0);
        assert(term_lines(s.take(0)) + term_lines(s) =~= term_lines(s));
    } else {
        let p = s.take(off);
        assert(p.len() == off);
        lemma_first_nl_spec(p);
        let k = first_nl(p) as int;
        assert(k < off) by {
            if k >= p.len() {
                assert(complete_len(p) == 0);
            }
        }
        assert(p[k] == B_NL);
        assert(forall|j: int| 0 <= j < k ==> p[j] != B_NL);
        assert(forall|j: int| 0 <= j < off ==> s[j] == p[j]);
        lemma_first_nl_at(s, k);
        assert(complete_len(p) == k + 1 + complete_len(p.skip(k + 1)));
        let s1 = s.skip(k + 1);
        assert(p.skip(k + 1) =~= s1.take(off - k - 1));
        assert(complete_len(s1.take(off - k - 1)) == off - k - 1);
        assert(s1.len() == s.len() - k - 1);
        assert(is_boundary(s1, off - k - 1));
        lemma_split_at_boundary(s1, off - k - 1);
        assert(s1.skip(off - k - 1) =~= s.skip(off));
        assert(term_lines(s) == seq![s.take(k)] + term_lines(s1));
        assert(term_lines(p) == seq![p.take(k)] + term_lines(p.skip(k + 1)));
        assert(p.take(k) =~= s.take(k));
        assert(seq![s.take(k)] + (term_lines(s1.take(off - k - 1)) + term_lines(s.skip(off)))
            =~= (seq![s.take(k)] + term_lines(s1.take(off - k - 1))) + term_lines(s.skip(off)));
        assert(complete_len(s) == k + 1 + complete_len(s1));
    }
}

/// The terminated prefix of a log is itself bounded by a line boundary.
pub proof fn lemma_complete_is_boundary(s: Seq<u8>)
    ensures
        is_boundary(s, complete_len(s) as int),
    decreases s.len(),
{
    lemma_first_nl_spec(s);
    let cl = complete_len(s) as int;
    if s.len() == 0 || first_nl(s) >= s.len() {
        assert(s.take(0).len() == 0);
    } else {
        let k = first_nl(s) as int;
        let s1 = s.skip(k + 1);
        lemma_complete_is_boundary(s1);
        assert(cl == k + 1 + complete_len(s1));
        let t = s.take(cl);
        assert(forall|j: int| 0 <= j < cl ==> t[j] == s[j]);
        lemma_first_nl_at(t, k);
        assert(t.skip(k + 1) =~= s1.take(complete_len(s1) as int));
        assert(complete_len(t) == k + 1 + complete_len(t.skip(k + 1)));
    }
}

/// Tail reads compose: reading from a boundary delivers exactly the
/// messages of the terminated lines after it — all messages of the log's
/// terminated part, less those already delivered before the boundary —
/// and the offset it reaches is again a boundary. No line is delivered
/// twice and none is skipped.
pub proof fn lemma_tail_reads_compose(s: Seq<u8>, off: int)
    requires
        is_boundary(s, off),
    ensures
        term_msgs(s) == term_msgs(s.take(off)) + term_msgs(s.skip(off)),
        is_boundary(s, off + complete_len(s.skip(off))),
    decreases s.len(),
{
    lemma_split_at_boundary(s, off);
    lemma_msgs_concat(term_lines(s.take(off)), term_lines(s.skip(off)));
    lemma_complete_le(s.skip(off));
    let cl = complete_len(s.skip(off)) as int;
    let new_off = off + cl;
    assert(new_off <= s.len());
    let t = s.take(new_off);
    assert(t.take(off) =~= s.take(off));
    assert(is_boundary(t, off));
    lemma_split_at_boundary(t, off);
    assert(t.skip(off) =~= s.skip(off).take(cl));
    lemma_complete_is_boundary(s.skip(off));
    assert(complete_len(t) == off + complete_len(s.skip(off).take(cl)));
    assert(complete_len(t) == new_off);
}

/// A tail read at the end of the log delivers nothing and stays put.
pub proof fn lemma_no_new_content(s: Seq<u8>, off: int)
    requires
        off == s.len(),
    ensures
        complete_len(s.skip(off)) == 0,
        term_msgs(s.skip(off)) == Seq::<SpecMessage>::empty(),
{
    assert(s.skip(off).len() == 0);
}

/// A trailing fragment without a line feed yields nothing: the offset does
/// not advance and no message is delivered, however the fragment reads.
pub proof fn lemma_partial_line_safety(frag: Seq<u8>)
    requires
        forall|k: int| 0 <= k < frag.len() ==> frag[k] != B_NL,
    ensures
        complete_len(frag) == 0,
        term_msgs(frag) == Seq::<SpecMessage>::empty(),
{
    lemma_first_nl_none(frag);
}

/// Completing that fragment with its line feed delivers exactly that one
/// line, and the offset advances past it.
pub proof fn lemma_completed_line(frag: Seq<u8>)
    requires
        forall|k: int| 0 <= k < frag.len() ==> frag[k] != B_NL,
    ensures
        complete_len(frag + seq![B_NL]) == frag.len() + 1,
        term_lines(frag + seq![B_NL]) == seq![frag],
        term_msgs(frag + seq![B_NL]) == msgs_of_lines(seq![frag]),
{
    let s = frag + seq![B_NL];
    let d = frag.len() as int;
    assert(s[d] == B_NL);
    assert(forall|k: int| 0 <= k < frag.len() ==> s[k] == frag[k] && s[k] != B_NL);
    lemma_first_nl_at(s, d);
    assert(first_nl(s) < s.len());
    let tail = s.skip(d + 1);
    assert(tail.len() == 0);
    assert(complete_len(tail) == 0);
    assert(term_lines(tail) =~= Seq::<Seq<u8>>::empty());
    assert(complete_len(s) == d + 1 + complete_len(tail));
    assert(s.take(d) =~= frag);
    assert(term_lines(s) == seq![frag] + term_lines(tail));
    assert(seq![frag] + term_lines(tail) =~= seq![frag]);
}

/// Appending one encoded line and its line feed to a fully terminated log:
/// the next tail read from the old end delivers exactly that message, once,
/// and the log stands fully terminated again. With `lemma_tail_reads_compose`
/// this is why a watch delivers each appended message exactly once, in order.
pub proof fn lemma_append_delivery(s: Seq<u8>, m: SpecMessage)
    requires
        complete_len(s) == s.len(),
        m.content.len() > 0,
    ensures
        complete_len((s + crate::codec::encode_line_spec(m) + seq![B_NL]).skip(s.len() as int))
            == crate::codec::encode_line_spec(m).len() + 1,
        term_msgs((s + crate::codec::encode_line_spec(m) + seq![B_NL]).skip(s.len() as int))
            == seq![m],
        complete_len(s + crate::codec::encode_line_spec(m) + seq![B_NL])
            == (s + crate::codec::encode_line_spec(m) + seq![B_NL]).len(),
{
    let line = crate::codec::encode_line_spec(m);
    let s2 = s + line + seq![B_NL];
    assert(s2.skip(s.len() as int) =~= line + seq![B_NL]);
    crate::codec::lemma_encode_no_nl(m);
    lemma_completed_line(line);
    crate::codec::lemma_parse_encode_roundtrip(m);
    assert(seq![line].drop_first() =~= Seq::<Seq<u8>>::empty());
    assert(seq![line][0] == line);
    assert(msgs_of_lines(seq![line]) == seq![m] + msgs_of_lines(Seq::<Seq<u8>>::empty()));
    assert(seq![m] + Seq::<SpecMessage>::empty() =~= seq![m]);
    assert(s2.take(s.len() as int) =~= s);
    assert(is_boundary(s2, s.len() as int));
    lemma_split_at_boundary(s2, s.len() as int);
}

/// A log built by appending each message's encoded line and line feed,
/// one after another.
pub open spec fn encoded_log(ms: Seq<SpecMessage>) -> Seq<u8>
    decreases ms.len(),
{
    if ms.len() == 0 {
        Seq::empty()
    } else {
        encoded_log(ms.drop_last()) + crate::codec::encode_line_spec(ms.last()) + seq![B_NL]
    }
}

/// No double delivery, no loss: a log of appended messages is fully
/// terminated, and a tail read over all of it delivers exactly those
/// messages, in append order. With `lemma_tail_reads_compose`, the same
/// holds across any series of tail reads from successive offsets: each
/// message arrives exactly once.
pub proof fn lemma_log_delivers_all(ms: Seq<SpecMessage>)
    requires
        forall|i: int| 0 <= i < ms.len() ==> ms[i].content.len() > 0,
    ensures
        complete_len(encoded_log(ms)) == encoded_log(ms).len(),
        term_msgs(encoded_log(ms)) == ms,
    decreases ms.len(),
{
    if ms.len() == 0 {
        assert(term_msgs(encoded_log(ms)) =~= ms);
    } else {
        let init = ms.drop_last();
        assert(forall|i: int| 0 <= i < init.len() ==> init[i] == ms[i]);
        lemma_log_delivers_all(init);
        let s = encoded_log(init);
        let m = ms.last();
        lemma_append_delivery(s, m);
        let s2 = encoded_log(ms);
        assert(s2 == s + crate::codec::encode_line_spec(m) + seq![B_NL]);
        assert(s2.take(s.len() as int) =~= s);
        assert(is_boundary(s2, s.len() as int));
        lemma_tail_reads_compose(s2, s.len() as int);
        assert(term_msgs(s2) == term_msgs(s) + term_msgs(s2.skip(s.len() as int)));
        assert(init + seq![m] =~= ms);
    }
}

/// One serialized record ready to append: the encoded line and its line feed.
pub fn record_line(msg: &ChatMessage) -> (r: Vec<u8>)
    ensures
        r@ == crate::codec::encode_line_spec(msg@) + seq![B_NL],
{
    let mut v = crate::codec::encode_jsonl_line(msg);
    v.push(B_NL);
    proof {
        assert(v@ =~= crate::codec::encode_line_spec(msg@) + seq![B_NL]);
    }
    v
}

/// Read the tail of a log from a byte offset. Exactly the terminated lines
/// after `offset` are parsed, in order; the new offset advances past them
/// and no further, so a trailing fragment stays for a later read. An offset
/// at the end yields no messages and stands still.
#[verifier::rlimit(100)]
#[verifier::spinoff_prover]
pub fn scan_from(content: &[u8], offset: usize) -> (r: (Vec<ChatMessage>, usize))
    requires
        offset <= content@.len(),
    ensures
        offset <= r.1 <= content@.len(),
        r.1 == offset + complete_len(content@.skip(offset as int)),
        views_of(r.0@) == term_msgs(content@.skip(offset as int)),
{
    let n = content.len();
    let mut msgs: Vec<ChatMessage> = Vec::new();
    let mut line_start = offset;
    let mut i = offset;
    proof {
        assert(views_of(msgs@) =~= Seq::<SpecMessage>::empty());
    }
    while i < n
        invariant
            offset <= line_start <= i <= n,
            n == content@.len(),
            forall|k: int| line_start <= k < i ==> content@[k] != B_NL,
            complete_len(content@.skip(offset as int)) == (line_start - offset)
                + complete_len(content@.skip(line_start as int)),
            term_msgs(content@.skip(offset as int)) == views_of(msgs@) + term_msgs(
                content@.skip(line_start as int),
            ),
        decreases n - i,
    {
        if content[i] == B_NL {
            let line = slice_subrange(content, line_start, i);
            let ghost t = content@.skip(line_start as int);
            proof {
                assert(forall|k: int| 0 <= k < i - line_start ==> t[k] == content@[
                    line_start + k] && t[k] != B_NL);
                assert(t[i - line_start] == B_NL);
                lemma_first_nl_at(t, i - line_start);
                assert(line@ =~= t.take(i - line_start));
                assert(t.skip(i - line_start + 1) =~= content@.skip(i + 1));
                assert(term_lines(t) == seq![line@] + term_lines(content@.skip(i + 1)));
                assert(complete_len(t) == (i + 1 - line_start) + complete_len(
                    content@.skip(i + 1)));
                assert((seq![line@] + term_lines(content@.skip(i + 1))).drop_first()
                    =~= term_lines(content@.skip(i + 1)));
                assert((seq![line@] + term_lines(content@.skip(i + 1)))[0] == line@);
            }
            match parse_jsonl_line(line) {
                Some(m) => {
                    let ghost old_msgs = msgs@;
                    msgs.push(m);
                    proof {
                        assert(views_of(msgs@) =~= views_of(old_msgs).push(m@));
                        assert(views_of(old_msgs) + (seq![m@] + term_msgs(content@.skip(i + 1)))
                            =~= views_of(old_msgs).push(m@) + term_msgs(content@.skip(i + 1)));
                    }
                },
                None => {},
            }
            i = i + 1;
            line_start = i;
        } else {
            i = i + 1;
        }
    }
    proof {
        let t = content@.skip(line_start as int);
        assert(forall|k: int| 0 <= k < t.len() ==> t[k] == content@[line_start + k]
            && t[k] != B_NL);
        lemma_first_nl_none(t);
        assert(complete_len(t) == 0);
        assert(term_msgs(t) =~= Seq::<SpecMessage>::empty());
        assert(views_of(msgs@) + term_msgs(t) =~= views_of(msgs@));
    }
    (msgs, line_start)
}

/// Read a whole log: every line, terminated or not, through the codec,
/// in order, unparseable lines skipped.
#[verifier::rlimit(100)]
#[verifier::spinoff_prover]
pub fn decode_content(content: &[u8]) -> (r: Vec<ChatMessage>)
    ensures
        views_of(r@) == all_msgs(content@),
{
    let n = content.len();
    let mut msgs: Vec<ChatMessage> = Vec::new();
    let mut line_start: usize = 0;
    let mut i: usize = 0;
    proof {
        assert(views_of(msgs@) =~= Seq::<SpecMessage>::empty());
        assert(content@.skip(0) =~= content@);
        assert(views_of(msgs@) + all_msgs(content@) =~= all_msgs(content@));
    }
    while i < n
        invariant
            line_start <= i <= n,
            n == content@.len(),
            forall|k: int| line_start <= k < i ==> content@[k] != B_NL,
            all_msgs(content@) == views_of(msgs@) + all_msgs(content@.skip(line_start as int)),
        decreases n - i,
    {
        if content[i] == B_NL {
            let line = slice_subrange(content, line_start, i);
            let ghost t = content@.skip(line_start as int);
            proof {
                assert(forall|k: int| 0 <= k < i - line_start ==> t[k] == content@[
                    line_start + k] && t[k] != B_NL);
                assert(t[i - line_start] == B_NL);
                lemma_first_nl_at(t, i - line_start);
                assert(line@ =~= t.take(i - line_start));
                assert(t.skip(i - line_start + 1) =~= content@.skip(i + 1));
                assert(split_lines(t) == seq![line@] + split_lines(content@.skip(i + 1)));
                assert((seq![line@] + split_lines(content@.skip(i + 1))).drop_first()
                    =~= split_lines(content@.skip(i + 1)));
                assert((seq![line@] + split_lines(content@.skip(i + 1)))[0] == line@);
            }
            match parse_jsonl_line(line) {
                Some(m) => {
                    let ghost old_msgs = msgs@;
                    msgs.push(m);
                    proof {
                        assert(views_of(msgs@) =~= views_of(old_msgs).push(m@));
                        assert(views_of(old_msgs) + (seq![m@] + all_msgs(content@.skip(i + 1)))
                            =~= views_of(old_msgs).push(m@) + all_msgs(content@.skip(i + 1)));
                    }
                },
                None => {},
            }
            i = i + 1;
            line_start = i;
        } else {
            i = i + 1;
        }
    }
    let ghost t = content@.skip(line_start as int);
    proof {
        assert(forall|k: int| 0 <= k < t.len() ==> t[k] == content@[line_start + k]
            && t[k] != B_NL);
        lemma_first_nl_none(t);
    }
    if line_start < n {
        let line = slice_subrange(content, line_start, n);
        proof {
            assert(line@ =~= t);
            assert(split_lines(t) =~= seq![t]);
            assert(seq![t].drop_first() =~= Seq::<Seq<u8>>::empty());
            assert(msgs_of_lines(Seq::<Seq<u8>>::empty()) =~= Seq::<SpecMessage>::empty());
        }
        match parse_jsonl_line(line) {
            Some(m) => {
                let ghost old_msgs = msgs@;
                msgs.push(m);
                proof {
                    assert(views_of(msgs@) =~= views_of(old_msgs).push(m@));
                    assert(seq![m@] + Seq::<SpecMessage>::empty() =~= seq![m@]);
                    assert(views_of(old_msgs) + seq![m@] =~= views_of(old_msgs).push(m@));
                }
            },
            None => {
                proof {
                    assert(views_of(msgs@) + Seq::<SpecMessage>::empty() =~= views_of(msgs@));
                }
            },
        }
    } else {
        proof {
            assert(t.len() == 0);
            assert(all_msgs(t) =~= Seq::<SpecMessage>::empty());
            assert(views_of(msgs@) + all_msgs(t) =~= views_of(msgs@));
        }
    }
    msgs
}

} // verus!
