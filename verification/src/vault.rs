//! Text utilities for the note-vault collaborator: reading a note's
//! frontmatter, pulling a short description out of its body, and tidying
//! titles. The directory walking and file reading around them belong to
//! the surrounding application; everything here is pure text.
use vstd::prelude::*;
use crate::bytes::{push_all, starts_with, starts_with_bytes};
use crate::link::trim_spec;

verus! {

/// One project found in the vault.
pub struct ObsidianProject {
    pub name: Vec<u8>,
    pub description: Option<Vec<u8>>,
    pub color: Vec<u8>,
    pub obsidian_source: Vec<u8>,
}

/// The bytes of `…`, appended where a description was cut.
pub open spec fn ellipsis() -> Seq<u8> {
    seq![226u8, 128u8, 166u8]
}

/// Whether a cut at `e` would fall between the bytes of one character.
pub open spec fn is_char_start(b: u8) -> bool {
    b < 128 || b >= 192
}

/// The nearest cut at or before `e` that does not split a character.
pub open spec fn boundary_back(s: Seq<u8>, e: int) -> int
    decreases e,
{
    if e <= 0 {
        0
    } else if 0 <= e < s.len() && is_char_start(s[e]) {
        e
    } else {
        boundary_back(s, e - 1)
    }
}

/// What truncation yields: the text itself when it fits, else the longest
/// whole-character prefix within `max` with an ellipsis appended.
pub open spec fn truncate_spec(s: Seq<u8>, max: int) -> Seq<u8> {
    if s.len() <= max {
        s
    } else {
        s.take(boundary_back(s, max)) + ellipsis()
    }
}

/// Cut a text to at most `max` bytes, never splitting a character, and
/// mark the cut with an ellipsis.
pub fn truncate(s: &[u8], max: usize) -> (r: Vec<u8>)
    ensures
        r@ == truncate_spec(s@, max as int),
{
    if s.len() <= max {
        let r = vstd::slice::slice_to_vec(s);
        return r;
    }
    let mut end = max;
    while end > 0 && !(s[end] < 128 || s[end] >= 192)
        invariant
            end <= max < s@.len(),
            boundary_back(s@, max as int) == boundary_back(s@, end as int),
        decreases end,
    {
        end = end - 1;
    }
    proof {
        assert(boundary_back(s@, end as int) == end as int);
    }
    let mut out = vstd::slice::slice_to_vec(vstd::slice::slice_subrange(s, 0, end));
    out.push(226);
    out.push(128);
    out.push(166);
    proof {
        assert(s@.subrange(0, end as int) =~= s@.take(end as int));
        assert(out@ =~= s@.take(end as int) + ellipsis());
    }
    out
}

/// The views of a list of lines.
pub open spec fn lines_view(ls: Seq<Vec<u8>>) -> Seq<Seq<u8>> {
    ls.map_values(|l: Vec<u8>| l@)
}

/// The bytes of `---`.
pub open spec fn lit_dashes() -> Seq<u8> {
    seq![45u8, 45u8, 45u8]
}

/// The bytes of `## `.
pub open spec fn lit_h2() -> Seq<u8> {
    seq![35u8, 35u8, 32u8]
}

/// The bytes of `# `.
pub open spec fn lit_h1() -> Seq<u8> {
    seq![35u8, 32u8]
}

/// Whether a trimmed line ends the paragraph a section collects: another
/// heading or a rule.
pub open spec fn section_stop(t: Seq<u8>) -> bool {
    starts_with(t, lit_h2()) || starts_with(t, lit_h1()) || t == lit_dashes()
}

/// The trimmed, nonempty lines of a section's first paragraph: reading
/// stops at a heading, a rule, or the first blank line after content.
pub open spec fn section_parts(ls: Seq<Seq<u8>>, started: bool) -> Seq<Seq<u8>>
    decreases ls.len(),
{
    if ls.len() == 0 {
        Seq::empty()
    } else {
        let t = trim_spec(ls[0]);
        if section_stop(t) {
            Seq::empty()
        } else if t.len() > 0 {
            seq![t] + section_parts(ls.drop_first(), true)
        } else if started {
            Seq::empty()
        } else {
            section_parts(ls.drop_first(), false)
        }
    }
}

/// Parts joined with single blanks.
pub open spec fn sp_joined(ts: Seq<Seq<u8>>) -> Seq<u8>
    decreases ts.len(),
{
    if ts.len() == 0 {
        Seq::empty()
    } else if ts.len() == 1 {
        ts[0]
    } else {
        ts[0] + seq![32u8] + sp_joined(ts.drop_first())
    }
}

/// Joining the remaining parts onto what is already accumulated.
pub open spec fn sp_joined_from(acc: Seq<u8>, any: bool, ts: Seq<Seq<u8>>) -> Seq<u8>
    decreases ts.len(),
{
    if ts.len() == 0 {
        acc
    } else if any {
        sp_joined_from(acc + seq![32u8] + ts[0], true, ts.drop_first())
    } else {
        sp_joined_from(acc + ts[0], true, ts.drop_first())
    }
}

proof fn lemma_sp_joined_from_true(acc: Seq<u8>, ts: Seq<Seq<u8>>)
    ensures
        ts.len() == 0 ==> sp_joined_from(acc, true, ts) == acc,
        ts.len() > 0 ==> sp_joined_from(acc, true, ts) == acc + seq![32u8] + sp_joined(ts),
    decreases ts.len(),
{
    if ts.len() == 1 {
        assert(sp_joined_from(acc + seq![32u8] + ts[0], true, ts.drop_first()) == acc
            + seq![32u8] + ts[0]);
    } else if ts.len() > 1 {
        lemma_sp_joined_from_true(acc + seq![32u8] + ts[0], ts.drop_first());
        assert((acc + seq![32u8] + ts[0]) + seq![32u8] + sp_joined(ts.drop_first()) =~= acc
            + seq![32u8] + (ts[0] + seq![32u8] + sp_joined(ts.drop_first())));
    }
}

proof fn lemma_sp_joined_from_start(ts: Seq<Seq<u8>>)
    ensures
        sp_joined_from(Seq::<u8>::empty(), false, ts) == sp_joined(ts),
{
    let e = Seq::<u8>::empty();
    if ts.len() > 0 {
        assert(e + ts[0] =~= ts[0]);
        lemma_sp_joined_from_true(ts[0], ts.drop_first());
    }
}

/// The first paragraph under a heading: trimmed nonempty lines up to the
/// next heading, rule, or blank line after content, joined with blanks.
pub fn collect_section_text(lines: &[Vec<u8>]) -> (r: Vec<u8>)
    ensures
        r@ == sp_joined(section_parts(lines_view(lines@), false)),
{
    let dashes: Vec<u8> = vec![45u8, 45u8, 45u8];
    let h2: Vec<u8> = vec![35u8, 35u8, 32u8];
    let h1: Vec<u8> = vec![35u8, 32u8];
    proof {
        assert(dashes@ =~= lit_dashes());
        assert(h2@ =~= lit_h2());
        assert(h1@ =~= lit_h1());
    }
    let n = lines.len();
    let mut acc: Vec<u8> = Vec::new();
    let mut any = false;
    let mut i: usize = 0;
    proof {
        assert(lines_view(lines@).skip(0) =~= lines_view(lines@));
        lemma_sp_joined_from_start(section_parts(lines_view(lines@), false));
        assert(acc@ =~= Seq::<u8>::empty());
    }
    while i < n
        invariant
            i <= n,
            n == lines@.len(),
            dashes@ == lit_dashes(),
            h2@ == lit_h2(),
            h1@ == lit_h1(),
            sp_joined(section_parts(lines_view(lines@), false)) == sp_joined_from(
                acc@,
                any,
                section_parts(lines_view(lines@).skip(i as int), any),
            ),
        decreases n - i,
    {
        let ghost lv = lines_view(lines@);
        let ghost pre = lv.skip(i as int);
        proof {
            assert(pre[0] == lines@[i as int]@);
            assert(pre.drop_first() =~= lv.skip(i + 1));
        }
        let t = crate::link::trim_bytes(lines[i].as_slice());
        if starts_with_bytes(t.as_slice(), h2.as_slice()) || starts_with_bytes(
            t.as_slice(),
            h1.as_slice(),
        ) || crate::codec::bytes_eq(t.as_slice(), dashes.as_slice()) {
            proof {
                assert(section_stop(trim_spec(pre[0])));
                assert(section_parts(pre, any) =~= Seq::<Seq<u8>>::empty());
            }
            return acc;
        }
        if t.len() > 0 {
            let ghost acc_old = acc@;
            if any {
                acc.push(32);
            }
            push_all(&mut acc, t.as_slice());
            proof {
                assert(section_parts(pre, any) == seq![t@] + section_parts(
                    lv.skip(i + 1),
                    true,
                ));
                assert(section_parts(pre, any)[0] == t@);
                assert(section_parts(pre, any).drop_first() =~= section_parts(
                    lv.skip(i + 1),
                    true,
                ));
                if any {
                    assert(acc@ =~= acc_old + seq![32u8] + t@);
                } else {
                    assert(acc@ =~= acc_old + t@);
                }
            }
            any = true;
        } else {
            if any {
                proof {
                    assert(section_parts(pre, any) =~= Seq::<Seq<u8>>::empty());
                }
                return acc;
            }
            proof {
                assert(section_parts(pre, false) == section_parts(lv.skip(i + 1), false));
            }
        }
        i = i + 1;
    }
    proof {
        assert(lines_view(lines@).skip(n as int).len() == 0);
        assert(section_parts(lines_view(lines@).skip(n as int), any)
            =~= Seq::<Seq<u8>>::empty());
    }
    acc
}

/// Assemble a project record from what a note yielded: wiki links are
/// stripped from the name and from the description, the colour and source
/// pass through.
pub fn make_project(
    name: &[u8],
    description: Option<&Vec<u8>>,
    color: &[u8],
    source: &[u8],
) -> (r: ObsidianProject)
    ensures
        r.name@ == strip_spec(name@),
        match description {
            Some(d) => r.description matches Some(rd) && rd@ == strip_spec(d@),
            None => r.description is None,
        },
        r.color@ == color@,
        r.obsidian_source@ == source@,
{
    let stripped = match description {
        Some(d) => Some(strip_wiki_links(d.as_slice())),
        None => None,
    };
    let mut color_v: Vec<u8> = Vec::new();
    push_all(&mut color_v, color);
    let mut source_v: Vec<u8> = Vec::new();
    push_all(&mut source_v, source);
    proof {
        assert(Seq::<u8>::empty() + color@ =~= color@);
        assert(Seq::<u8>::empty() + source@ =~= source@);
    }
    ObsidianProject {
        name: strip_wiki_links(name),
        description: stripped,
        color: color_v,
        obsidian_source: source_v,
    }
}

// ---------------------------------------------------------------------------
// Frontmatter.
// ---------------------------------------------------------------------------

/// Position of the first colon, or the length when there is none.
pub open spec fn first_colon(s: Seq<u8>) -> nat
    decreases s.len(),
{
    if s.len() == 0 { 0 } else if s[0] == 58 { 0 } else { 1 + first_colon(s.drop_first()) }
}

proof fn lemma_first_colon_at(s: Seq<u8>, d: int)
    requires
        0 <= d < s.len(),
        s[d] == 58,
        forall|k: int| 0 <= k < d ==> s[k] != 58,
    ensures
        first_colon(s) == d,
    decreases d,
{
    if d > 0 {
        let t = s.drop_first();
        assert(forall|k: int| 0 <= k < d - 1 ==> t[k] == s[k + 1] && t[k] != 58);
        assert(t[d - 1] == 58);
        lemma_first_colon_at(t, d - 1);
    }
}

proof fn lemma_first_colon_none(s: Seq<u8>)
    requires
        forall|k: int| 0 <= k < s.len() ==> s[k] != 58,
    ensures
        first_colon(s) == s.len(),
    decreases s.len(),
{
    if s.len() > 0 {
        let t = s.drop_first();
        assert(forall|k: int| 0 <= k < t.len() ==> t[k] == s[k + 1] && t[k] != 58);
        lemma_first_colon_none(t);
    }
}

/// ASCII letters lowered; everything else untouched.
pub open spec fn ascii_lower(s: Seq<u8>) -> Seq<u8> {
    s.map_values(|b: u8| if 65 <= b && b <= 90 { (b + 32) as u8 } else { b })
}

/// Lower the ASCII letters of a text.
pub fn ascii_lower_bytes(s: &[u8]) -> (r: Vec<u8>)
    ensures
        r@ == ascii_lower(s@),
{
    let n = s.len();
    let mut out: Vec<u8> = Vec::new();
    let mut i: usize = 0;
    proof {
        assert(out@ =~= ascii_lower(s@.take(0)));
    }
    while i < n
        invariant
            i <= n,
            n == s@.len(),
            out@ == ascii_lower(s@.take(i as int)),
        decreases n - i,
    {
        let b = s[i];
        if 65 <= b && b <= 90 {
            out.push(b + 32);
        } else {
            out.push(b);
        }
        proof {
            assert(out@ =~= ascii_lower(s@.take(i + 1)));
        }
        i = i + 1;
    }
    proof {
        assert(s@.take(n as int) =~= s@);
    }
    out
}

/// The text without leading and trailing double quotes.
pub open spec fn trim_quotes(s: Seq<u8>) -> Seq<u8>
    decreases s.len(),
{
    if s.len() == 0 {
        s
    } else if s[0] == 34 {
        trim_quotes(s.drop_first())
    } else if s[s.len() - 1] == 34 {
        trim_quotes(s.drop_last())
    } else {
        s
    }
}

/// Strip double quotes from both ends.
pub fn trim_quotes_bytes(s: &[u8]) -> (r: Vec<u8>)
    ensures
        r@ == trim_quotes(s@),
{
    let n = s.len();
    let mut lo: usize = 0;
    let mut hi: usize = n;
    proof {
        assert(s@.subrange(0, n as int) =~= s@);
    }
    while lo < hi && s[lo] == 34
        invariant
            lo <= hi <= n,
            n == s@.len(),
            trim_quotes(s@) == trim_quotes(s@.subrange(lo as int, hi as int)),
            hi == n,
        decreases hi - lo,
    {
        proof {
            let t = s@.subrange(lo as int, hi as int);
            assert(t[0] == s@[lo as int]);
            assert(t.drop_first() =~= s@.subrange(lo + 1, hi as int));
        }
        lo = lo + 1;
    }
    while lo < hi && s[hi - 1] == 34
        invariant
            lo <= hi <= n,
            n == s@.len(),
            trim_quotes(s@) == trim_quotes(s@.subrange(lo as int, hi as int)),
            lo < hi ==> s@[lo as int] != 34,
        decreases hi - lo,
    {
        proof {
            let t = s@.subrange(lo as int, hi as int);
            assert(t[0] == s@[lo as int]);
            assert(t[t.len() - 1] == s@[hi - 1]);
            assert(t.drop_last() =~= s@.subrange(lo as int, hi - 1));
        }
        hi = hi - 1;
    }
    let out = vstd::slice::slice_to_vec(vstd::slice::slice_subrange(s, lo, hi));
    proof {
        let t = s@.subrange(lo as int, hi as int);
        if t.len() > 0 {
            assert(t[0] == s@[lo as int]);
            assert(t[t.len() - 1] == s@[hi - 1]);
        }
        assert(trim_quotes(t) == t);
        assert(out@ =~= t);
    }
    out
}

/// The key and value of one frontmatter line, when it has a colon and a
/// nonempty value: the key trimmed and lowered, the value trimmed and
/// stripped of quotes.
pub open spec fn kv_spec(line: Seq<u8>) -> Option<(Seq<u8>, Seq<u8>)> {
    let c = first_colon(line) as int;
    if c >= line.len() {
        None
    } else {
        let key = ascii_lower(trim_spec(line.take(c)));
        let val = trim_quotes(trim_spec(line.skip(c + 1)));
        if val.len() > 0 {
            Some((key, val))
        } else {
            None
        }
    }
}

/// The frontmatter pairs from line `i` on, and the body's first line: a
/// closing rule ends the frontmatter just after itself; with no closing
/// rule the collected pairs stand but the body starts at the top.
pub open spec fn fm_scan(ls: Seq<Seq<u8>>, i: int) -> (Seq<(Seq<u8>, Seq<u8>)>, int)
    decreases ls.len() - i,
{
    if i < 0 || i >= ls.len() {
        (Seq::empty(), 0)
    } else if trim_spec(ls[i]) == lit_dashes() {
        (Seq::empty(), i + 1)
    } else {
        let rec = fm_scan(ls, i + 1);
        match kv_spec(ls[i]) {
            Some(p) => (seq![p] + rec.0, rec.1),
            None => rec,
        }
    }
}

/// What `parse_frontmatter` yields over a whole note.
pub open spec fn frontmatter_spec(ls: Seq<Seq<u8>>) -> (Seq<(Seq<u8>, Seq<u8>)>, int) {
    if ls.len() == 0 || trim_spec(ls[0]) != lit_dashes() {
        (Seq::empty(), 0)
    } else {
        fm_scan(ls, 1)
    }
}

/// The views of key-value pairs.
pub open spec fn pairs_view(ps: Seq<(Vec<u8>, Vec<u8>)>) -> Seq<(Seq<u8>, Seq<u8>)> {
    ps.map_values(|p: (Vec<u8>, Vec<u8>)| (p.0@, p.1@))
}

/// The key and value of one line, executable side.
fn kv_of_line(line: &[u8]) -> (r: Option<(Vec<u8>, Vec<u8>)>)
    ensures
        match r {
            Some(p) => kv_spec(line@) == Some((p.0@, p.1@)),
            None => kv_spec(line@) is None,
        },
{
    let n = line.len();
    let mut c: usize = 0;
    while c < n && line[c] != 58
        invariant
            c <= n,
            n == line@.len(),
            forall|k: int| 0 <= k < c ==> line@[k] != 58,
        decreases n - c,
    {
        c = c + 1;
    }
    if c == n {
        proof {
            lemma_first_colon_none(line@);
        }
        return None;
    }
    proof {
        lemma_first_colon_at(line@, c as int);
    }
    let keyraw = vstd::slice::slice_subrange(line, 0, c);
    let valraw = vstd::slice::slice_subrange(line, c + 1, n);
    proof {
        assert(keyraw@ =~= line@.take(c as int));
        assert(valraw@ =~= line@.skip(c + 1));
    }
    let keytrim = crate::link::trim_bytes(keyraw);
    let key = ascii_lower_bytes(keytrim.as_slice());
    let valtrim = crate::link::trim_bytes(valraw);
    let val = trim_quotes_bytes(valtrim.as_slice());
    if val.len() > 0 {
        Some((key, val))
    } else {
        None
    }
}

/// Read a note's frontmatter: the key-value pairs between an opening and a
/// closing rule, and the index of the first body line. A note that does
/// not open with a rule has no frontmatter; one whose frontmatter never
/// closes keeps its pairs but its body starts at the top.
pub fn parse_frontmatter(lines: &[Vec<u8>]) -> (r: (Vec<(Vec<u8>, Vec<u8>)>, usize))
    ensures
        pairs_view(r.0@) == frontmatter_spec(lines_view(lines@)).0,
        r.1 == frontmatter_spec(lines_view(lines@)).1,
{
    let dashes: Vec<u8> = vec![45u8, 45u8, 45u8];
    proof {
        assert(dashes@ =~= lit_dashes());
    }
    let n = lines.len();
    let mut pairs: Vec<(Vec<u8>, Vec<u8>)> = Vec::new();
    proof {
        assert(pairs_view(pairs@) =~= Seq::<(Seq<u8>, Seq<u8>)>::empty());
    }
    if n == 0 {
        return (pairs, 0);
    }
    let t0 = crate::link::trim_bytes(lines[0].as_slice());
    if !crate::codec::bytes_eq(t0.as_slice(), dashes.as_slice()) {
        proof {
            assert(lines_view(lines@)[0] == lines@[0]@);
        }
        return (pairs, 0);
    }
    let ghost lv = lines_view(lines@);
    proof {
        assert(lv[0] == lines@[0]@);
        assert(frontmatter_spec(lv) == fm_scan(lv, 1));
    }
    let mut i: usize = 1;
    while i < n
        invariant
            1 <= i <= n,
            n == lines@.len(),
            lv == lines_view(lines@),
            dashes@ == lit_dashes(),
            frontmatter_spec(lv) == fm_scan(lv, 1),
            fm_scan(lv, 1).0 == pairs_view(pairs@) + fm_scan(lv, i as int).0,
            fm_scan(lv, 1).1 == fm_scan(lv, i as int).1,
        decreases n - i,
    {
        proof {
            assert(lv[i as int] == lines@[i as int]@);
        }
        let t = crate::link::trim_bytes(lines[i].as_slice());
        if crate::codec::bytes_eq(t.as_slice(), dashes.as_slice()) {
            proof {
                assert(fm_scan(lv, i as int) == (Seq::<(Seq<u8>, Seq<u8>)>::empty(), i as int + 1));
                assert(pairs_view(pairs@) + Seq::<(Seq<u8>, Seq<u8>)>::empty()
                    =~= pairs_view(pairs@));
            }
            return (pairs, i + 1);
        }
        match kv_of_line(lines[i].as_slice()) {
            Some(p) => {
                let ghost pv = (p.0@, p.1@);
                let ghost old_pairs = pairs@;
                pairs.push(p);
                proof {
                    assert(fm_scan(lv, i as int).0 == seq![pv] + fm_scan(lv, i + 1).0);
                    assert(fm_scan(lv, i as int).1 == fm_scan(lv, i + 1).1);
                    assert(pairs_view(pairs@) =~= pairs_view(old_pairs).push(pv));
                    assert(pairs_view(old_pairs) + (seq![pv] + fm_scan(lv, i + 1).0)
                        =~= pairs_view(old_pairs).push(pv) + fm_scan(lv, i + 1).0);
                }
            },
            None => {
                proof {
                    assert(fm_scan(lv, i as int) == fm_scan(lv, i + 1));
                }
            },
        }
        i = i + 1;
    }
    proof {
        assert(fm_scan(lv, n as int) == (Seq::<(Seq<u8>, Seq<u8>)>::empty(), 0int));
        assert(pairs_view(pairs@) + Seq::<(Seq<u8>, Seq<u8>)>::empty() =~= pairs_view(pairs@));
    }
    (pairs, 0)
}

// ---------------------------------------------------------------------------
// Descriptions.
// ---------------------------------------------------------------------------

/// The bytes of `## objective`.
pub open spec fn lit_objective() -> Seq<u8> {
    seq![35u8, 35u8, 32u8, 111u8, 98u8, 106u8, 101u8, 99u8, 116u8, 105u8, 118u8, 101u8]
}

/// The bytes of the target-marker heading prefix.
pub open spec fn lit_target() -> Seq<u8> {
    seq![35u8, 35u8, 32u8, 240u8, 159u8, 142u8, 175u8]
}

/// The bytes of `**Concept:**`.
pub open spec fn lit_concept() -> Seq<u8> {
    seq![42u8, 42u8, 67u8, 111u8, 110u8, 99u8, 101u8, 112u8, 116u8, 58u8, 42u8, 42u8]
}

/// The bytes of `**Status:**`.
pub open spec fn lit_status() -> Seq<u8> {
    seq![42u8, 42u8, 83u8, 116u8, 97u8, 116u8, 117u8, 115u8, 58u8, 42u8, 42u8]
}

/// The bytes of `**Owner:**`.
pub open spec fn lit_owner() -> Seq<u8> {
    seq![42u8, 42u8, 79u8, 119u8, 110u8, 101u8, 114u8, 58u8, 42u8, 42u8]
}

/// The bytes of `**Type:**`.
pub open spec fn lit_type() -> Seq<u8> {
    seq![42u8, 42u8, 84u8, 121u8, 112u8, 101u8, 58u8, 42u8, 42u8]
}

/// The bytes of `**Created:**`.
pub open spec fn lit_created() -> Seq<u8> {
    seq![42u8, 42u8, 67u8, 114u8, 101u8, 97u8, 116u8, 101u8, 100u8, 58u8, 42u8, 42u8]
}

/// Whether a line opens an objective section.
pub open spec fn objective_heading(l: Seq<u8>) -> bool {
    starts_with(ascii_lower(l), lit_objective()) || starts_with(l, lit_target())
}

/// The first objective section with text, from line `i` on: its first
/// paragraph, cut to three hundred bytes.
pub open spec fn desc_objective(ls: Seq<Seq<u8>>, i: int) -> Option<Seq<u8>>
    decreases ls.len() - i,
{
    if i < 0 || i >= ls.len() {
        None
    } else {
        let text = sp_joined(section_parts(ls.skip(i + 1), false));
        if objective_heading(ls[i]) && text.len() > 0 {
            Some(truncate_spec(text, 300))
        } else {
            desc_objective(ls, i + 1)
        }
    }
}

/// The first concept annotation with a value, from line `i` on.
pub open spec fn desc_concept(ls: Seq<Seq<u8>>, i: int) -> Option<Seq<u8>>
    decreases ls.len() - i,
{
    if i < 0 || i >= ls.len() {
        None
    } else {
        let val = trim_spec(ls[i].skip(lit_concept().len() as int));
        if starts_with(ls[i], lit_concept()) && val.len() > 0 {
            Some(truncate_spec(val, 300))
        } else {
            desc_concept(ls, i + 1)
        }
    }
}

/// Whether a trimmed line is passed over when looking for a first
/// paragraph: blank, a heading, a rule, or a metadata annotation.
pub open spec fn para_skip(t: Seq<u8>) -> bool {
    t.len() == 0 || t[0] == 35 || t == lit_dashes() || starts_with(t, lit_status())
        || starts_with(t, lit_owner()) || starts_with(t, lit_type()) || starts_with(
        t,
        lit_created(),
    )
}

/// The first plain paragraph line, from line `i` on.
pub open spec fn desc_paragraph(ls: Seq<Seq<u8>>, i: int) -> Option<Seq<u8>>
    decreases ls.len() - i,
{
    if i < 0 || i >= ls.len() {
        None
    } else {
        let t = trim_spec(ls[i]);
        if para_skip(t) {
            desc_paragraph(ls, i + 1)
        } else {
            Some(truncate_spec(t, 300))
        }
    }
}

/// What `extract_description` yields: the objective section first, then a
/// concept annotation, then the first plain paragraph line.
pub open spec fn description_spec(ls: Seq<Seq<u8>>) -> Option<Seq<u8>> {
    match desc_objective(ls, 0) {
        Some(d) => Some(d),
        None => match desc_concept(ls, 0) {
            Some(d) => Some(d),
            None => desc_paragraph(ls, 0),
        },
    }
}

/// Pull a short description out of a note's body: the paragraph under an
/// objective heading, else a concept annotation's value, else the first
/// plain paragraph line; each cut to three hundred bytes.
pub fn extract_description(lines: &[Vec<u8>]) -> (r: Option<Vec<u8>>)
    ensures
        match r {
            Some(d) => description_spec(lines_view(lines@)) == Some(d@),
            None => description_spec(lines_view(lines@)) is None,
        },
{
    let ghost lv = lines_view(lines@);
    let n = lines.len();
    let objective: Vec<u8> = vec![35u8, 35u8, 32u8, 111u8, 98u8, 106u8, 101u8, 99u8, 116u8,
        105u8, 118u8, 101u8];
    let target: Vec<u8> = vec![35u8, 35u8, 32u8, 240u8, 159u8, 142u8, 175u8];
    let concept: Vec<u8> = vec![42u8, 42u8, 67u8, 111u8, 110u8, 99u8, 101u8, 112u8, 116u8,
        58u8, 42u8, 42u8];
    let status: Vec<u8> = vec![42u8, 42u8, 83u8, 116u8, 97u8, 116u8, 117u8, 115u8, 58u8,
        42u8, 42u8];
    let owner: Vec<u8> = vec![42u8, 42u8, 79u8, 119u8, 110u8, 101u8, 114u8, 58u8, 42u8, 42u8];
    let tykey: Vec<u8> = vec![42u8, 42u8, 84u8, 121u8, 112u8, 101u8, 58u8, 42u8, 42u8];
    let created: Vec<u8> = vec![42u8, 42u8, 67u8, 114u8, 101u8, 97u8, 116u8, 101u8, 100u8,
        58u8, 42u8, 42u8];
    let dashes: Vec<u8> = vec![45u8, 45u8, 45u8];
    proof {
        assert(objective@ =~= lit_objective());
        assert(target@ =~= lit_target());
        assert(concept@ =~= lit_concept());
        assert(status@ =~= lit_status());
        assert(owner@ =~= lit_owner());
        assert(tykey@ =~= lit_type());
        assert(created@ =~= lit_created());
        assert(dashes@ =~= lit_dashes());
    }
    let mut i: usize = 0;
    while i < n
        invariant
            i <= n,
            n == lines@.len(),
            lv == lines_view(lines@),
            objective@ == lit_objective(),
            target@ == lit_target(),
            desc_objective(lv, 0) == desc_objective(lv, i as int),
        decreases n - i,
    {
        proof {
            assert(lv[i as int] == lines@[i as int]@);
        }
        let lower = ascii_lower_bytes(lines[i].as_slice());
        if starts_with_bytes(lower.as_slice(), objective.as_slice()) || starts_with_bytes(
            lines[i].as_slice(),
            target.as_slice(),
        ) {
            let rest = vstd::slice::slice_subrange(lines, i + 1, n);
            proof {
                assert(lines_view(rest@) =~= lv.skip(i + 1));
            }
            let text = collect_section_text(rest);
            if text.len() > 0 {
                let d = truncate(text.as_slice(), 300);
                return Some(d);
            }
            proof {
                assert(desc_objective(lv, i as int) == desc_objective(lv, i + 1));
            }
        } else {
            proof {
                assert(!objective_heading(lv[i as int]));
                assert(desc_objective(lv, i as int) == desc_objective(lv, i + 1));
            }
        }
        i = i + 1;
    }
    proof {
        assert(desc_objective(lv, 0) is None);
    }
    let mut i: usize = 0;
    while i < n
        invariant
            i <= n,
            n == lines@.len(),
            lv == lines_view(lines@),
            concept@ == lit_concept(),
            desc_objective(lv, 0) is None,
            desc_concept(lv, 0) == desc_concept(lv, i as int),
        decreases n - i,
    {
        proof {
            assert(lv[i as int] == lines@[i as int]@);
        }
        if starts_with_bytes(lines[i].as_slice(), concept.as_slice()) {
            let m = lines[i].len();
            let rest = vstd::slice::slice_subrange(lines[i].as_slice(), 12, m);
            proof {
                assert(rest@ =~= lv[i as int].skip(12));
            }
            let val = crate::link::trim_bytes(rest);
            if val.len() > 0 {
                let d = truncate(val.as_slice(), 300);
                return Some(d);
            }
        }
        proof {
            assert(desc_concept(lv, i as int) == desc_concept(lv, i + 1));
        }
        i = i + 1;
    }
    proof {
        assert(desc_concept(lv, 0) is None);
    }
    let mut i: usize = 0;
    while i < n
        invariant
            i <= n,
            n == lines@.len(),
            lv == lines_view(lines@),
            status@ == lit_status(),
            owner@ == lit_owner(),
            tykey@ == lit_type(),
            created@ == lit_created(),
            dashes@ == lit_dashes(),
            desc_objective(lv, 0) is None,
            desc_concept(lv, 0) is None,
            desc_paragraph(lv, 0) == desc_paragraph(lv, i as int),
        decreases n - i,
    {
        proof {
            assert(lv[i as int] == lines@[i as int]@);
        }
        let t = crate::link::trim_bytes(lines[i].as_slice());
        let skip_it = t.len() == 0 || (t.len() > 0 && t[0] == 35) || crate::codec::bytes_eq(
            t.as_slice(),
            dashes.as_slice(),
        ) || starts_with_bytes(t.as_slice(), status.as_slice()) || starts_with_bytes(
            t.as_slice(),
            owner.as_slice(),
        ) || starts_with_bytes(t.as_slice(), tykey.as_slice()) || starts_with_bytes(
            t.as_slice(),
            created.as_slice(),
        );
        if !skip_it {
            proof {
                assert(!para_skip(trim_spec(lv[i as int])));
            }
            let d = truncate(t.as_slice(), 300);
            return Some(d);
        }
        proof {
            assert(para_skip(trim_spec(lv[i as int])));
            assert(desc_paragraph(lv, i as int) == desc_paragraph(lv, i + 1));
        }
        i = i + 1;
    }
    proof {
        assert(desc_paragraph(lv, 0) is None);
    }
    None
}

// ---------------------------------------------------------------------------
// Wiki links.
// ---------------------------------------------------------------------------

/// Position of the first `]]` pair, or at least the length when there is
/// none.
pub open spec fn first_close(t: Seq<u8>) -> nat
    decreases t.len(),
{
    if t.len() == 0 {
        0
    } else if t[0] == 93 && t.len() >= 2 && t[1] == 93 {
        0
    } else {
        1 + first_close(t.drop_first())
    }
}

proof fn lemma_first_close_at(t: Seq<u8>, d: int)
    requires
        0 <= d,
        d + 1 < t.len(),
        t[d] == 93 && t[d + 1] == 93,
        forall|k: int| 0 <= k < d ==> !(#[trigger] t[k] == 93 && t[k + 1] == 93),
    ensures
        first_close(t) == d,
    decreases d,
{
    if d > 0 {
        let u = t.drop_first();
        assert(!(t[0] == 93 && t[1] == 93));
        assert(forall|k: int| 0 <= k < u.len() ==> u[k] == t[k + 1]);
        assert(forall|k: int| 0 <= k < d - 1 ==> !(#[trigger] u[k] == 93 && u[k + 1] == 93));
        lemma_first_close_at(u, d - 1);
    }
}

proof fn lemma_first_close_none(t: Seq<u8>)
    requires
        forall|k: int| 0 <= k && k + 1 < t.len() ==> !(#[trigger] t[k] == 93 && t[k + 1] == 93),
    ensures
        first_close(t) >= t.len(),
    decreases t.len(),
{
    if t.len() > 0 {
        let u = t.drop_first();
        assert(forall|k: int| 0 <= k < u.len() ==> u[k] == t[k + 1]);
        assert(forall|k: int| 0 <= k && k + 1 < u.len() ==> !(#[trigger] u[k] == 93 && u[k + 1] == 93));
        lemma_first_close_none(u);
    }
}

/// Position of the first `|`, or the length when there is none.
pub open spec fn first_pipe(t: Seq<u8>) -> nat
    decreases t.len(),
{
    if t.len() == 0 { 0 } else if t[0] == 124 { 0 } else { 1 + first_pipe(t.drop_first()) }
}

proof fn lemma_first_pipe_at(t: Seq<u8>, d: int)
    requires
        0 <= d < t.len(),
        t[d] == 124,
        forall|k: int| 0 <= k < d ==> t[k] != 124,
    ensures
        first_pipe(t) == d,
    decreases d,
{
    if d > 0 {
        let u = t.drop_first();
        assert(forall|k: int| 0 <= k < d - 1 ==> u[k] == t[k + 1] && u[k] != 124);
        assert(u[d - 1] == 124);
        lemma_first_pipe_at(u, d - 1);
    }
}

proof fn lemma_first_pipe_none(t: Seq<u8>)
    requires
        forall|k: int| 0 <= k < t.len() ==> t[k] != 124,
    ensures
        first_pipe(t) == t.len(),
    decreases t.len(),
{
    if t.len() > 0 {
        let u = t.drop_first();
        assert(forall|k: int| 0 <= k < u.len() ==> u[k] == t[k + 1] && u[k] != 124);
        lemma_first_pipe_none(u);
    }
}

/// What a link body shows: the text after its first `|`, or the whole body
/// when it has none.
pub open spec fn display_of(body: Seq<u8>) -> Seq<u8> {
    let p = first_pipe(body) as int;
    if p >= body.len() {
        body
    } else {
        body.skip(p + 1)
    }
}

/// The text with every `[[...]]` link replaced by what it displays. A link
/// that never closes runs to the end of the text and is still replaced.
pub open spec fn strip_spec(s: Seq<u8>) -> Seq<u8>
    decreases s.len(),
{
    if s.len() == 0 {
        Seq::empty()
    } else if s[0] == 91 && s.len() >= 2 && s[1] == 91 {
        let body_all = s.skip(2);
        let k = first_close(body_all) as int;
        if k + 2 <= body_all.len() {
            display_of(body_all.take(k)) + strip_spec(body_all.skip(k + 2))
        } else {
            display_of(body_all)
        }
    } else {
        seq![s[0]] + strip_spec(s.drop_first())
    }
}

/// The display text of a link body, executable side.
fn display_part(s: &[u8], lo: usize, hi: usize) -> (r: Vec<u8>)
    requires
        lo <= hi <= s@.len(),
    ensures
        r@ == display_of(s@.subrange(lo as int, hi as int)),
{
    let ghost body = s@.subrange(lo as int, hi as int);
    let mut p = lo;
    while p < hi && s[p] != 124
        invariant
            lo <= p <= hi <= s@.len(),
            forall|k: int| lo <= k < p ==> s@[k] != 124,
        decreases hi - p,
    {
        p = p + 1;
    }
    proof {
        assert(forall|k: int| 0 <= k < body.len() ==> body[k] == s@[lo + k]);
    }
    if p == hi {
        proof {
            lemma_first_pipe_none(body);
        }
        let r = vstd::slice::slice_to_vec(vstd::slice::slice_subrange(s, lo, hi));
        proof {
            assert(r@ =~= body);
        }
        r
    } else {
        proof {
            assert(body[p - lo] == 124);
            lemma_first_pipe_at(body, p - lo);
        }
        let r = vstd::slice::slice_to_vec(vstd::slice::slice_subrange(s, p + 1, hi));
        proof {
            assert(r@ =~= body.skip(p - lo + 1));
        }
        r
    }
}

/// Replace every `[[target]]` or `[[target|shown]]` wiki link in a title
/// with the text it displays.
pub fn strip_wiki_links(s: &[u8]) -> (r: Vec<u8>)
    ensures
        r@ == strip_spec(s@),
{
    let n = s.len();
    let mut out: Vec<u8> = Vec::new();
    let mut i: usize = 0;
    proof {
        assert(s@.skip(0) =~= s@);
        assert(out@ + strip_spec(s@) =~= strip_spec(s@));
    }
    while i < n
        invariant
            i <= n,
            n == s@.len(),
            strip_spec(s@) == out@ + strip_spec(s@.skip(i as int)),
        decreases n - i,
    {
        let ghost suf = s@.skip(i as int);
        proof {
            assert(suf[0] == s@[i as int]);
            assert(suf.drop_first() =~= s@.skip(i + 1));
        }
        if s[i] == 91 && i + 1 < n && s[i + 1] == 91 {
            proof {
                assert(suf.len() >= 2 && suf[1] == s@[i + 1]);
            }
            let ghost body_all = suf.skip(2);
            proof {
                assert(body_all =~= s@.skip(i + 2));
                assert(forall|k: int| 0 <= k < body_all.len() ==> body_all[k] == s@[i + 2 + k]);
            }
            let mut j = i + 2;
            while j < n - 1 && !(s[j] == 93 && s[j + 1] == 93)
                invariant
                    i + 2 <= j <= n,
                    n == s@.len(),
                    forall|k: int| i + 2 <= k < j ==> !(#[trigger] s@[k] == 93 && s@[k + 1] == 93),
                decreases n - j,
            {
                j = j + 1;
            }
            if j < n - 1 {
                // a closing pair at j
                proof {
                    assert(body_all[j - i - 2] == 93 && body_all[j - i - 1] == 93);
                    assert(forall|k: int| 0 <= k < j - i - 2 ==> !(#[trigger] body_all[k] == 93
                        && body_all[k + 1] == 93));
                    lemma_first_close_at(body_all, j - i - 2);
                    assert(body_all.take(j - i - 2) =~= s@.subrange(i + 2, j as int));
                    assert(body_all.skip(j - i) =~= s@.skip(j + 2));
                }
                let mut shown = display_part(s, i + 2, j);
                let ghost out_old = out@;
                out.append(&mut shown);
                proof {
                    assert(strip_spec(suf) == display_of(s@.subrange(i + 2, j as int))
                        + strip_spec(s@.skip(j + 2)));
                    assert(out@ =~= out_old + display_of(s@.subrange(i + 2, j as int)));
                    assert(out_old + (display_of(s@.subrange(i + 2, j as int)) + strip_spec(
                        s@.skip(j + 2))) =~= out@ + strip_spec(s@.skip(j + 2)));
                }
                i = j + 2;
            } else {
                // no closing pair: the link runs to the end
                proof {
                    assert(forall|k: int| 0 <= k && k + 1 < body_all.len() ==> !(
                        #[trigger] body_all[k] == 93 && body_all[k + 1] == 93));
                    lemma_first_close_none(body_all);
                    assert(strip_spec(suf) == display_of(body_all));
                    assert(body_all =~= s@.subrange(i + 2, n as int));
                }
                let mut shown = display_part(s, i + 2, n);
                let ghost out_old = out@;
                out.append(&mut shown);
                proof {
                    assert(s@.skip(n as int).len() == 0);
                    assert(strip_spec(s@.skip(n as int)) =~= Seq::<u8>::empty());
                    assert(out_old + display_of(body_all) =~= out@ + strip_spec(
                        s@.skip(n as int)));
                }
                i = n;
            }
        } else {
            proof {
                if suf.len() >= 2 {
                    assert(suf[1] == s@[i + 1]);
                }
                assert(strip_spec(suf) == seq![s@[i as int]] + strip_spec(s@.skip(i + 1)));
            }
            out.push(s[i]);
            proof {
                assert(out@ + strip_spec(s@.skip(i + 1)) =~= strip_spec(s@));
            }
            i = i + 1;
        }
    }
    proof {
        assert(s@.skip(n as int).len() == 0);
        assert(strip_spec(s@.skip(n as int)) =~= Seq::<u8>::empty());
        assert(out@ + strip_spec(s@.skip(n as int)) =~= out@);
    }
    out
}

} // verus!
