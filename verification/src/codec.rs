//! Message codec for the persisted log format: one JSON record per line,
//! `{"type":"message","message":{"role":R,"content":[{"type":"text","text":T},...]}}`.
//! `parse_jsonl_line` decodes one line into a `ChatMessage` (or `None` for
//! records of another kind, an unknown role, empty text, or malformed text);
//! `encode_jsonl_line` emits one self-contained line that decodes back to the
//! same message.
use vstd::prelude::*;

verus! {

pub const B_QUOTE: u8 = 34;
pub const B_BSLASH: u8 = 92;
pub const B_SLASH: u8 = 47;
pub const B_LBRACE: u8 = 123;
pub const B_RBRACE: u8 = 125;
pub const B_LBRACK: u8 = 91;
pub const B_RBRACK: u8 = 93;
pub const B_COLON: u8 = 58;
pub const B_COMMA: u8 = 44;
pub const B_SPACE: u8 = 32;
pub const B_TAB: u8 = 9;
pub const B_NL: u8 = 10;
pub const B_CR: u8 = 13;

/// The author of a message; the log format admits exactly these two roles.
#[derive(Clone, Copy, PartialEq, Eq, Structural, Debug)]
pub enum Role {
    User,
    Assistant,
}

/// One chat message: who said it and the raw UTF-8 text of what was said.
#[derive(Clone, PartialEq, Eq, Debug)]
pub struct ChatMessage {
    pub role: Role,
    pub content: Vec<u8>,
}

/// Mathematical model of a chat message: the role and the text as a byte sequence.
pub ghost struct SpecMessage {
    pub role: Role,
    pub content: Seq<u8>,
}

impl View for ChatMessage {
    type V = SpecMessage;

    open spec fn view(&self) -> SpecMessage {
        SpecMessage { role: self.role, content: self.content@ }
    }
}

impl ChatMessage {
    /// A message the codec will round-trip: it must carry some text.
    pub open spec fn valid(self) -> bool {
        self.content@.len() > 0
    }
}

// ---------------------------------------------------------------------------
// Byte-sequence literals of the record grammar.
// ---------------------------------------------------------------------------

/// The bytes of `type`.
pub open spec fn lit_key_type() -> Seq<u8> {
    seq![116u8, 121u8, 112u8, 101u8]
}

/// The bytes of `message`.
pub open spec fn lit_key_message() -> Seq<u8> {
    seq![109u8, 101u8, 115u8, 115u8, 97u8, 103u8, 101u8]
}

/// The bytes of `role`.
pub open spec fn lit_key_role() -> Seq<u8> {
    seq![114u8, 111u8, 108u8, 101u8]
}

/// The bytes of `content`.
pub open spec fn lit_key_content() -> Seq<u8> {
    seq![99u8, 111u8, 110u8, 116u8, 101u8, 110u8, 116u8]
}

/// The bytes of `text`.
pub open spec fn lit_key_text() -> Seq<u8> {
    seq![116u8, 101u8, 120u8, 116u8]
}

/// The bytes of `user`.
pub open spec fn lit_role_user() -> Seq<u8> {
    seq![117u8, 115u8, 101u8, 114u8]
}

/// The bytes of `assistant`.
pub open spec fn lit_role_assistant() -> Seq<u8> {
    seq![97u8, 115u8, 115u8, 105u8, 115u8, 116u8, 97u8, 110u8, 116u8]
}

/// The bytes of `{"type":"message","message":{"role":"`.
pub open spec fn lit_open() -> Seq<u8> {
    seq![123u8, 34u8, 116u8, 121u8, 112u8, 101u8, 34u8, 58u8, 34u8, 109u8, 101u8, 115u8,
        115u8, 97u8, 103u8, 101u8, 34u8, 44u8, 34u8, 109u8, 101u8, 115u8, 115u8, 97u8,
        103u8, 101u8, 34u8, 58u8, 123u8, 34u8, 114u8, 111u8, 108u8, 101u8, 34u8, 58u8, 34u8]
}

/// The bytes of `","content":[{"type":"text","text":"`.
pub open spec fn lit_mid() -> Seq<u8> {
    seq![34u8, 44u8, 34u8, 99u8, 111u8, 110u8, 116u8, 101u8, 110u8, 116u8, 34u8, 58u8,
        91u8, 123u8, 34u8, 116u8, 121u8, 112u8, 101u8, 34u8, 58u8, 34u8, 116u8, 101u8,
        120u8, 116u8, 34u8, 44u8, 34u8, 116u8, 101u8, 120u8, 116u8, 34u8, 58u8, 34u8]
}

/// The bytes of `"}]}}`.
pub open spec fn lit_close() -> Seq<u8> {
    seq![34u8, 125u8, 93u8, 125u8, 125u8]
}

/// The serialized role name.
pub open spec fn role_lit(r: Role) -> Seq<u8> {
    match r {
        Role::User => lit_role_user(),
        Role::Assistant => lit_role_assistant(),
    }
}

// ---------------------------------------------------------------------------
// String escaping.
// ---------------------------------------------------------------------------

/// The lower-case hex digit of `n` (for `n < 16`).
pub open spec fn hex_digit(n: u8) -> u8 {
    if n < 10 { (48 + n) as u8 } else { (87 + n) as u8 }
}

/// How one byte is written inside a JSON string: quote, backslash and the
/// named controls get a two-byte escape, other controls a `\u00XX` escape,
/// everything else stands for itself.
pub open spec fn esc1(b: u8) -> Seq<u8> {
    if b == B_QUOTE { seq![B_BSLASH, B_QUOTE] }
    else if b == B_BSLASH { seq![B_BSLASH, B_BSLASH] }
    else if b == 8 { seq![B_BSLASH, 98u8] }
    else if b == 12 { seq![B_BSLASH, 102u8] }
    else if b == B_NL { seq![B_BSLASH, 110u8] }
    else if b == B_CR { seq![B_BSLASH, 114u8] }
    else if b == B_TAB { seq![B_BSLASH, 116u8] }
    else if b < 32 { seq![B_BSLASH, 117u8, 48u8, 48u8, hex_digit(b / 16), hex_digit(b % 16)] }
    else { seq![b] }
}

/// JSON string escaping of a whole byte sequence.
pub open spec fn esc(s: Seq<u8>) -> Seq<u8>
    decreases s.len(),
{
    if s.len() == 0 { Seq::empty() } else { esc1(s[0]) + esc(s.drop_first()) }
}

/// The encoded line for a message: the fixed record skeleton around the
/// serialized role and the escaped text.
pub open spec fn encode_line_spec(m: SpecMessage) -> Seq<u8> {
    lit_open() + role_lit(m.role) + lit_mid() + esc(m.content) + lit_close()
}

/// Escaping grows by the head: escaping `s` with `b` appended is the
/// escaping of `s` followed by the escape of `b`.
pub proof fn lemma_esc_snoc(s: Seq<u8>, b: u8)
    ensures
        esc(s.push(b)) == esc(s) + esc1(b),
    decreases s.len(),
{
    if s.len() == 0 {
        assert(s.push(b)[0] == b);
        assert(s.push(b).drop_first() =~= Seq::<u8>::empty());
        assert(esc(s.push(b)) == esc1(b) + esc(Seq::<u8>::empty()));
        assert(esc1(b) + esc(Seq::<u8>::empty()) =~= esc1(b));
        assert(esc(s) + esc1(b) =~= esc1(b));
    } else {
        assert(s.push(b).drop_first() =~= s.drop_first().push(b));
        lemma_esc_snoc(s.drop_first(), b);
        assert(esc(s.push(b)) =~= esc(s) + esc1(b));
    }
}

fn lit_open_vec() -> (r: Vec<u8>)
    ensures
        r@ == lit_open(),
{
    let v: Vec<u8> = vec![123u8, 34u8, 116u8, 121u8, 112u8, 101u8, 34u8, 58u8, 34u8, 109u8,
        101u8, 115u8, 115u8, 97u8, 103u8, 101u8, 34u8, 44u8, 34u8, 109u8, 101u8, 115u8,
        115u8, 97u8, 103u8, 101u8, 34u8, 58u8, 123u8, 34u8, 114u8, 111u8, 108u8, 101u8,
        34u8, 58u8, 34u8];
    proof { assert(v@ =~= lit_open()); }
    v
}

fn lit_mid_vec() -> (r: Vec<u8>)
    ensures
        r@ == lit_mid(),
{
    let v: Vec<u8> = vec![34u8, 44u8, 34u8, 99u8, 111u8, 110u8, 116u8, 101u8, 110u8, 116u8,
        34u8, 58u8, 91u8, 123u8, 34u8, 116u8, 121u8, 112u8, 101u8, 34u8, 58u8, 34u8,
        116u8, 101u8, 120u8, 116u8, 34u8, 44u8, 34u8, 116u8, 101u8, 120u8, 116u8, 34u8,
        58u8, 34u8];
    proof { assert(v@ =~= lit_mid()); }
    v
}

fn lit_close_vec() -> (r: Vec<u8>)
    ensures
        r@ == lit_close(),
{
    let v: Vec<u8> = vec![34u8, 125u8, 93u8, 125u8, 125u8];
    proof { assert(v@ =~= lit_close()); }
    v
}

fn role_vec(r: Role) -> (v: Vec<u8>)
    ensures
        v@ == role_lit(r),
{
    match r {
        Role::User => {
            let v: Vec<u8> = vec![117u8, 115u8, 101u8, 114u8];
            proof { assert(v@ =~= lit_role_user()); }
            v
        }
        Role::Assistant => {
            let v: Vec<u8> = vec![97u8, 115u8, 115u8, 105u8, 115u8, 116u8, 97u8, 110u8, 116u8];
            proof { assert(v@ =~= lit_role_assistant()); }
            v
        }
    }
}

/// Serialize one message as one line of the log format (without the trailing
/// line terminator). The result is exactly `encode_line_spec` of the message.
pub fn encode_jsonl_line(msg: &ChatMessage) -> (r: Vec<u8>)
    ensures
        r@ == encode_line_spec(msg@),
{
    let mut out = lit_open_vec();
    let mut role = role_vec(msg.role);
    out.append(&mut role);
    let mut mid = lit_mid_vec();
    out.append(&mut mid);
    let ghost prefix = lit_open() + role_lit(msg@.role) + lit_mid();
    proof { assert(out@ =~= prefix + esc(msg@.content.take(0))); }
    let n = msg.content.len();
    let mut i: usize = 0;
    while i < n
        invariant
            n == msg.content.len(),
            i <= n,
            out@ == prefix + esc(msg@.content.take(i as int)),
        decreases n - i,
    {
        let b = msg.content[i];
        if b == B_QUOTE || b == B_BSLASH {
            out.push(B_BSLASH);
            out.push(b);
        } else if b == 8 {
            out.push(B_BSLASH);
            out.push(98);
        } else if b == 12 {
            out.push(B_BSLASH);
            out.push(102);
        } else if b == B_NL {
            out.push(B_BSLASH);
            out.push(110);
        } else if b == B_CR {
            out.push(B_BSLASH);
            out.push(114);
        } else if b == B_TAB {
            out.push(B_BSLASH);
            out.push(116);
        } else if b < 32 {
            out.push(B_BSLASH);
            out.push(117);
            out.push(48);
            out.push(48);
            let hi = b / 16;
            let lo = b % 16;
            out.push(if hi < 10 { 48 + hi } else { 87 + hi });
            out.push(if lo < 10 { 48 + lo } else { 87 + lo });
        } else {
            out.push(b);
        }
        proof {
            lemma_esc_snoc(msg@.content.take(i as int), msg@.content[i as int]);
            assert(msg@.content.take(i + 1) =~= msg@.content.take(i as int).push(
                msg@.content[i as int]));
            assert(out@ =~= prefix + esc(msg@.content.take(i + 1)));
        }
        i = i + 1;
    }
    proof { assert(msg@.content.take(n as int) =~= msg@.content); }
    let mut close = lit_close_vec();
    out.append(&mut close);
    proof { assert(out@ =~= encode_line_spec(msg@)); }
    out
}

// ---------------------------------------------------------------------------
// The grammar, as spec functions. Each parser consumes a prefix of its input
// and hands back what it read together with the unread rest.
// ---------------------------------------------------------------------------

/// JSON insignificant whitespace.
pub open spec fn is_ws(b: u8) -> bool {
    b == B_SPACE || b == B_TAB || b == B_NL || b == B_CR
}

/// The input with its leading whitespace removed.
pub open spec fn skip_ws(s: Seq<u8>) -> Seq<u8>
    decreases s.len(),
{
    if s.len() > 0 && is_ws(s[0]) { skip_ws(s.drop_first()) } else { s }
}

/// After optional whitespace, the byte `b` must come next; the rest follows it.
pub open spec fn expect_byte(s: Seq<u8>, b: u8) -> Option<Seq<u8>> {
    let t = skip_ws(s);
    if t.len() > 0 && t[0] == b { Some(t.drop_first()) } else { None }
}

/// The value of one hex digit, if `b` is one.
pub open spec fn hex_val(b: u8) -> Option<u8> {
    if 48 <= b && b <= 57 { Some((b - 48) as u8) }
    else if 97 <= b && b <= 102 { Some((b - 87) as u8) }
    else if 65 <= b && b <= 70 { Some((b - 55) as u8) }
    else { None }
}

/// UTF-8 encoding of a scalar value below 0x10000.
pub open spec fn utf8_of(cp: int) -> Seq<u8> {
    if cp < 0x80 { seq![cp as u8] }
    else if cp < 0x800 { seq![(192 + cp / 64) as u8, (128 + cp % 64) as u8] }
    else { seq![(224 + cp / 4096) as u8, (128 + (cp / 64) % 64) as u8, (128 + cp % 64) as u8] }
}

/// The body of a JSON string, after its opening quote: the decoded bytes and
/// the rest after the closing quote. Escapes are decoded; a raw control byte,
/// a bad escape, a surrogate `\u` value or a missing closing quote fail.
pub open spec fn parse_string_body(s: Seq<u8>) -> Option<(Seq<u8>, Seq<u8>)>
    decreases s.len(),
{
    if s.len() == 0 {
        None
    } else if s[0] == B_QUOTE {
        Some((Seq::empty(), s.drop_first()))
    } else if s[0] == B_BSLASH {
        if s.len() < 2 {
            None
        } else {
            let e = s[1];
            if e == B_QUOTE || e == B_BSLASH || e == B_SLASH {
                prepend1(e, parse_string_body(s.skip(2)))
            } else if e == 98 {
                prepend1(8, parse_string_body(s.skip(2)))
            } else if e == 102 {
                prepend1(12, parse_string_body(s.skip(2)))
            } else if e == 110 {
                prepend1(B_NL, parse_string_body(s.skip(2)))
            } else if e == 114 {
                prepend1(B_CR, parse_string_body(s.skip(2)))
            } else if e == 116 {
                prepend1(B_TAB, parse_string_body(s.skip(2)))
            } else if e == 117 {
                if s.len() < 6 {
                    None
                } else {
                    match (hex_val(s[2]), hex_val(s[3]), hex_val(s[4]), hex_val(s[5])) {
                        (Some(h0), Some(h1), Some(h2), Some(h3)) => {
                            let cp = h0 * 0x1000 + h1 * 0x100 + h2 * 16 + h3;
                            if 0xD800 <= cp && cp < 0xE000 {
                                None
                            } else {
                                prepend(utf8_of(cp as int), parse_string_body(s.skip(6)))
                            }
                        }
                        _ => None,
                    }
                }
            } else {
                None
            }
        }
    } else if s[0] < 32 {
        None
    } else {
        prepend1(s[0], parse_string_body(s.drop_first()))
    }
}

/// Prepend one decoded byte to a string-parse result.
pub open spec fn prepend1(b: u8, o: Option<(Seq<u8>, Seq<u8>)>) -> Option<(Seq<u8>, Seq<u8>)> {
    prepend(seq![b], o)
}

/// Prepend decoded bytes to a string-parse result.
pub open spec fn prepend(pre: Seq<u8>, o: Option<(Seq<u8>, Seq<u8>)>) -> Option<(Seq<u8>, Seq<u8>)> {
    match o {
        Some((d, r)) => Some((pre + d, r)),
        None => None,
    }
}

/// A whole JSON string: optional whitespace, a quote, then the body.
pub open spec fn parse_string(s: Seq<u8>) -> Option<(Seq<u8>, Seq<u8>)> {
    match expect_byte(s, B_QUOTE) {
        Some(t) => parse_string_body(t),
        None => None,
    }
}

/// An object member's opening: the key string, which must decode to `name`,
/// then a colon; the rest follows the colon.
pub open spec fn parse_key(s: Seq<u8>, name: Seq<u8>) -> Option<Seq<u8>> {
    match parse_string(s) {
        Some((k, r)) => if k == name { expect_byte(r, B_COLON) } else { None },
        None => None,
    }
}

/// One content segment: an object `{"type":T}` or `{"type":T,"text":X}`.
/// It contributes its text when its type is `text`, else nothing.
pub open spec fn parse_segment(s: Seq<u8>) -> Option<(Seq<u8>, Seq<u8>)> {
    match expect_byte(s, B_LBRACE) {
        Some(t) => match parse_key(t, lit_key_type()) {
            Some(u) => match parse_string(u) {
                Some((ty, v)) => {
                    let w = skip_ws(v);
                    if w.len() > 0 && w[0] == B_COMMA {
                        match parse_key(w.drop_first(), lit_key_text()) {
                            Some(x) => match parse_string(x) {
                                Some((tx, y)) => match expect_byte(y, B_RBRACE) {
                                    Some(z) => Some(
                                        (if ty == lit_key_text() { tx } else { Seq::empty() }, z),
                                    ),
                                    None => None,
                                },
                                None => None,
                            },
                            None => None,
                        }
                    } else {
                        match expect_byte(v, B_RBRACE) {
                            Some(z) => Some((Seq::empty(), z)),
                            None => None,
                        }
                    }
                },
                None => None,
            },
            None => None,
        },
        None => None,
    }
}

/// The content segments after the opening bracket: their texts concatenated
/// in order, and the rest after the closing bracket. `fuel` bounds the
/// number of segments; one unit per segment is always enough because every
/// segment consumes input.
pub open spec fn parse_segments(s: Seq<u8>, fuel: nat) -> Option<(Seq<u8>, Seq<u8>)>
    decreases fuel,
{
    if fuel == 0 {
        None
    } else {
        let t = skip_ws(s);
        if t.len() > 0 && t[0] == B_RBRACK {
            Some((Seq::empty(), t.drop_first()))
        } else {
            match parse_segment(s) {
                Some((txt, r)) => {
                    let u = skip_ws(r);
                    if u.len() > 0 && u[0] == B_COMMA {
                        match parse_segments(u.drop_first(), (fuel - 1) as nat) {
                            Some((txt2, r2)) => Some((txt + txt2, r2)),
                            None => None,
                        }
                    } else if u.len() > 0 && u[0] == B_RBRACK {
                        Some((txt, u.drop_first()))
                    } else {
                        None
                    }
                },
                None => None,
            }
        }
    }
}

/// Decode one line of the log. `Some` exactly for a record of kind
/// `message` whose role is `user` or `assistant` and whose concatenated
/// text segments are nonempty; `None` for every other line.
pub open spec fn parse_line_spec(s: Seq<u8>) -> Option<SpecMessage> {
    match expect_byte(s, B_LBRACE) {
        Some(t1) => match parse_key(t1, lit_key_type()) {
            Some(t2) => match parse_string(t2) {
                Some((ty, t3)) => if ty != lit_key_message() { None } else {
                    match expect_byte(t3, B_COMMA) {
                        Some(t4) => match parse_key(t4, lit_key_message()) {
                            Some(t5) => match expect_byte(t5, B_LBRACE) {
                                Some(t6) => parse_line_inner(t6),
                                None => None,
                            },
                            None => None,
                        },
                        None => None,
                    }
                },
                None => None,
            },
            None => None,
        },
        None => None,
    }
}

/// The inner message object, after its opening brace.
pub open spec fn parse_line_inner(t6: Seq<u8>) -> Option<SpecMessage> {
    match parse_key(t6, lit_key_role()) {
        Some(t7) => match parse_string(t7) {
            Some((rb, t8)) => {
                let role = if rb == lit_role_user() { Some(Role::User) }
                    else if rb == lit_role_assistant() { Some(Role::Assistant) }
                    else { None };
                match role {
                    Some(role) => match expect_byte(t8, B_COMMA) {
                        Some(t9) => match parse_key(t9, lit_key_content()) {
                            Some(t10) => match expect_byte(t10, B_LBRACK) {
                                Some(t11) => match parse_segments(t11, t11.len()) {
                                    Some((txt, t12)) => match expect_byte(t12, B_RBRACE) {
                                        Some(t13) => match expect_byte(t13, B_RBRACE) {
                                            Some(t14) => if skip_ws(t14).len() == 0
                                                && txt.len() > 0 {
                                                Some(SpecMessage { role, content: txt })
                                            } else {
                                                None
                                            },
                                            None => None,
                                        },
                                        None => None,
                                    },
                                    None => None,
                                },
                                None => None,
                            },
                            None => None,
                        },
                        None => None,
                    },
                    None => None,
                }
            },
            None => None,
        },
        None => None,
    }
}

// ---------------------------------------------------------------------------
// Round-trip: a parse of an encoded line gives the message back.
// ---------------------------------------------------------------------------

/// Bytes that escaping leaves alone: printable, no quote, no backslash.
pub open spec fn clean(s: Seq<u8>) -> bool {
    forall|i: int| 0 <= i < s.len() ==> 32 <= s[i] && s[i] != B_QUOTE && s[i] != B_BSLASH
}

/// Escaping a clean sequence changes nothing.
pub proof fn lemma_esc_clean(s: Seq<u8>)
    requires
        clean(s),
    ensures
        esc(s) == s,
    decreases s.len(),
{
    if s.len() == 0 {
        assert(esc(s) =~= s);
    } else {
        assert(forall|i: int| 0 <= i < s.drop_first().len() ==> s.drop_first()[i] == s[i + 1]);
        assert(clean(s.drop_first()));
        lemma_esc_clean(s.drop_first());
        assert(32 <= s[0] && s[0] != B_QUOTE && s[0] != B_BSLASH);
        assert(esc1(s[0]) == seq![s[0]]);
        assert(esc(s) =~= s);
    }
}

/// Parsing a string body over escaped text: the decoded text is the original,
/// and the input after the closing quote is handed back untouched.
pub proof fn lemma_psb_esc(s: Seq<u8>, rest: Seq<u8>)
    ensures
        parse_string_body(esc(s) + (seq![B_QUOTE] + rest)) == Some((s, rest)),
    decreases s.len(),
{
    let t = esc(s) + (seq![B_QUOTE] + rest);
    if s.len() == 0 {
        assert(t =~= seq![B_QUOTE] + rest);
        assert(t[0] == B_QUOTE);
        assert(t.drop_first() =~= rest);
        assert(Seq::<u8>::empty() =~= s);
    } else {
        let b = s[0];
        let s1 = s.drop_first();
        lemma_psb_esc(s1, rest);
        let t1 = esc(s1) + (seq![B_QUOTE] + rest);
        assert(t =~= esc1(b) + t1);
        assert(seq![b] + s1 =~= s);
        if b == B_QUOTE || b == B_BSLASH {
            assert(t[0] == B_BSLASH && t[1] == b);
            assert(t.skip(2) =~= t1);
            assert(parse_string_body(t) == prepend1(b, parse_string_body(t1)));
        } else if b == 8 {
            assert(t[0] == B_BSLASH && t[1] == 98);
            assert(t.skip(2) =~= t1);
            assert(parse_string_body(t) == prepend1(8, parse_string_body(t1)));
        } else if b == 12 {
            assert(t[0] == B_BSLASH && t[1] == 102);
            assert(t.skip(2) =~= t1);
            assert(parse_string_body(t) == prepend1(12, parse_string_body(t1)));
        } else if b == B_NL {
            assert(t[0] == B_BSLASH && t[1] == 110);
            assert(t.skip(2) =~= t1);
            assert(parse_string_body(t) == prepend1(B_NL, parse_string_body(t1)));
        } else if b == B_CR {
            assert(t[0] == B_BSLASH && t[1] == 114);
            assert(t.skip(2) =~= t1);
            assert(parse_string_body(t) == prepend1(B_CR, parse_string_body(t1)));
        } else if b == B_TAB {
            assert(t[0] == B_BSLASH && t[1] == 116);
            assert(t.skip(2) =~= t1);
            assert(parse_string_body(t) == prepend1(B_TAB, parse_string_body(t1)));
        } else if b < 32 {
            assert(t[0] == B_BSLASH && t[1] == 117);
            assert(t[2] == 48 && t[3] == 48);
            assert(t[4] == hex_digit(b / 16) && t[5] == hex_digit(b % 16));
            assert(hex_val(48) == Some(0u8));
            assert(hex_val(hex_digit(b / 16)) == Some(b / 16)) by {
                if b / 16 < 10 {
                } else {
                }
            }
            assert(hex_val(hex_digit(b % 16)) == Some(b % 16)) by {
                if b % 16 < 10 {
                } else {
                }
            }
            assert(t.len() >= 6);
            assert(t.skip(6) =~= t1);
            let cp = (b / 16) * 0x10 + (b % 16);
            assert(cp == b as int);
            assert(utf8_of(cp as int) == seq![b]);
            assert(parse_string_body(t) == prepend(seq![b], parse_string_body(t1)));
        } else {
            assert(esc1(b) == seq![b]);
            assert(t[0] == b);
            assert(t.drop_first() =~= t1);
            assert(parse_string_body(t) == prepend1(b, parse_string_body(t1)));
        }
        assert(parse_string_body(t) == Some((seq![b] + s1, rest)));
    }
}

/// A string literal in the input: quote, clean name, quote; parsing hands
/// back the name and the rest.
pub proof fn lemma_parse_string_front(name: Seq<u8>, rest: Seq<u8>, s: Seq<u8>)
    requires
        clean(name),
        s == seq![B_QUOTE] + name + seq![B_QUOTE] + rest,
    ensures
        parse_string(s) == Some((name, rest)),
{
    assert(s[0] == B_QUOTE);
    assert(!is_ws(B_QUOTE));
    assert(skip_ws(s) == s);
    assert(expect_byte(s, B_QUOTE) == Some(s.drop_first()));
    lemma_esc_clean(name);
    lemma_psb_esc(name, rest);
    assert(s.drop_first() =~= esc(name) + (seq![B_QUOTE] + rest));
}

/// A member key in the input: `"name":` with a clean name; parsing hands
/// back the rest after the colon.
pub proof fn lemma_parse_key_front(name: Seq<u8>, rest: Seq<u8>, s: Seq<u8>)
    requires
        clean(name),
        s == seq![B_QUOTE] + name + seq![B_QUOTE, B_COLON] + rest,
    ensures
        parse_key(s, name) == Some(rest),
{
    let mid = seq![B_COLON] + rest;
    assert(s =~= seq![B_QUOTE] + name + seq![B_QUOTE] + mid);
    lemma_parse_string_front(name, mid, seq![B_QUOTE] + name + seq![B_QUOTE] + mid);
    assert(parse_string(s) == Some((name, mid)));
    assert(mid[0] == B_COLON);
    assert(!is_ws(B_COLON));
    assert(skip_ws(mid) == mid);
    assert(mid.drop_first() =~= rest);
    assert(expect_byte(mid, B_COLON) == Some(rest));
}

// ---------------------------------------------------------------------------
// The encoded line, written as the chain of tokens the parser walks.
// ---------------------------------------------------------------------------

/// A key token: `"name":`.
pub open spec fn key_tok(name: Seq<u8>) -> Seq<u8> {
    seq![B_QUOTE] + name + seq![B_QUOTE, B_COLON]
}

/// A string token: `"name"`.
pub open spec fn str_tok(name: Seq<u8>) -> Seq<u8> {
    seq![B_QUOTE] + name + seq![B_QUOTE]
}

/// The one content segment the encoder writes, followed by `rest`.
pub open spec fn seg_chain(c: Seq<u8>, rest: Seq<u8>) -> Seq<u8> {
    seq![B_LBRACE] + (key_tok(lit_key_type()) + (str_tok(lit_key_text()) + (seq![B_COMMA]
        + (key_tok(lit_key_text()) + (seq![B_QUOTE] + (esc(c) + (seq![B_QUOTE] + (seq![B_RBRACE]
        + rest))))))))
}

/// The inner message object after its opening brace, to the line's end.
pub open spec fn inner_chain(rl: Seq<u8>, c: Seq<u8>) -> Seq<u8> {
    key_tok(lit_key_role()) + (str_tok(rl) + (seq![B_COMMA] + (key_tok(lit_key_content())
        + (seq![B_LBRACK] + seg_chain(c, seq![B_RBRACK, B_RBRACE, B_RBRACE])))))
}

/// The whole encoded line as a token chain.
pub open spec fn full_chain(m: SpecMessage) -> Seq<u8> {
    seq![B_LBRACE] + (key_tok(lit_key_type()) + (str_tok(lit_key_message()) + (seq![B_COMMA]
        + (key_tok(lit_key_message()) + (seq![B_LBRACE] + inner_chain(role_lit(m.role),
        m.content))))))
}

/// The encoder's output is that token chain.
#[verifier::rlimit(100)]
#[verifier::spinoff_prover]
pub proof fn lemma_encode_decomp(m: SpecMessage)
    ensures
        encode_line_spec(m) == full_chain(m),
{
    assert(encode_line_spec(m) =~= full_chain(m));
}

/// The key names and role names hold no byte that escaping would touch.
pub proof fn lemma_lits_clean()
    ensures
        clean(lit_key_type()),
        clean(lit_key_message()),
        clean(lit_key_role()),
        clean(lit_key_content()),
        clean(lit_key_text()),
        clean(lit_role_user()),
        clean(lit_role_assistant()),
{
}

/// Parsing the encoder's one segment yields the text and the rest.
#[verifier::spinoff_prover]
pub proof fn lemma_parse_seg_chain(c: Seq<u8>, rest: Seq<u8>)
    ensures
        parse_segment(seg_chain(c, rest)) == Some((c, rest)),
{
    lemma_lits_clean();
    let b6 = seq![B_RBRACE] + rest;
    let b5 = seq![B_QUOTE] + (esc(c) + (seq![B_QUOTE] + b6));
    let b4 = key_tok(lit_key_text()) + b5;
    let b3 = seq![B_COMMA] + b4;
    let b2 = str_tok(lit_key_text()) + b3;
    let b1 = key_tok(lit_key_type()) + b2;
    let s = seg_chain(c, rest);
    assert(s == seq![B_LBRACE] + b1);
    // { -> b1
    assert(!is_ws(B_LBRACE) && s[0] == B_LBRACE);
    assert(skip_ws(s) == s);
    assert(s.drop_first() =~= b1);
    assert(expect_byte(s, B_LBRACE) == Some(b1));
    // "type": -> b2
    assert(b1 =~= seq![B_QUOTE] + lit_key_type() + seq![B_QUOTE, B_COLON] + b2);
    lemma_parse_key_front(lit_key_type(), b2, seq![B_QUOTE] + lit_key_type()
        + seq![B_QUOTE, B_COLON] + b2);
    // "text" -> b3
    assert(b2 =~= seq![B_QUOTE] + lit_key_text() + seq![B_QUOTE] + b3);
    lemma_parse_string_front(lit_key_text(), b3, seq![B_QUOTE] + lit_key_text()
        + seq![B_QUOTE] + b3);
    // , -> b4
    assert(!is_ws(B_COMMA) && b3[0] == B_COMMA);
    assert(skip_ws(b3) == b3);
    assert(b3.drop_first() =~= b4);
    // "text": -> b5
    assert(b4 =~= seq![B_QUOTE] + lit_key_text() + seq![B_QUOTE, B_COLON] + b5);
    lemma_parse_key_front(lit_key_text(), b5, seq![B_QUOTE] + lit_key_text()
        + seq![B_QUOTE, B_COLON] + b5);
    // the text value -> b6
    assert(!is_ws(B_QUOTE) && b5[0] == B_QUOTE);
    assert(skip_ws(b5) == b5);
    assert(b5.drop_first() =~= esc(c) + (seq![B_QUOTE] + b6));
    assert(expect_byte(b5, B_QUOTE) == Some(esc(c) + (seq![B_QUOTE] + b6)));
    lemma_psb_esc(c, b6);
    assert(parse_string(b5) == Some((c, b6)));
    // } closes the segment
    assert(!is_ws(B_RBRACE) && b6[0] == B_RBRACE);
    assert(skip_ws(b6) == b6);
    assert(b6.drop_first() =~= rest);
    assert(expect_byte(b6, B_RBRACE) == Some(rest));
    assert(parse_segment(s) == Some((c, rest)));
}

/// Parsing the inner message object of an encoded line yields the message.
#[verifier::rlimit(100)]
#[verifier::spinoff_prover]
pub proof fn lemma_parse_inner_chain(m: SpecMessage)
    requires
        m.content.len() > 0,
    ensures
        parse_line_inner(inner_chain(role_lit(m.role), m.content)) == Some(m),
{
    lemma_lits_clean();
    let rl = role_lit(m.role);
    let c = m.content;
    assert(clean(rl));
    let a11 = seg_chain(c, seq![B_RBRACK, B_RBRACE, B_RBRACE]);
    let a10 = seq![B_LBRACK] + a11;
    let a9 = key_tok(lit_key_content()) + a10;
    let a8 = seq![B_COMMA] + a9;
    let a7 = str_tok(rl) + a8;
    let a6 = inner_chain(rl, c);
    assert(a6 == key_tok(lit_key_role()) + a7);
    // "role": -> a7
    assert(a6 =~= seq![B_QUOTE] + lit_key_role() + seq![B_QUOTE, B_COLON] + a7);
    lemma_parse_key_front(lit_key_role(), a7, seq![B_QUOTE] + lit_key_role()
        + seq![B_QUOTE, B_COLON] + a7);
    // the role value -> a8
    assert(a7 =~= seq![B_QUOTE] + rl + seq![B_QUOTE] + a8);
    lemma_parse_string_front(rl, a8, seq![B_QUOTE] + rl + seq![B_QUOTE] + a8);
    assert(lit_role_user().len() != lit_role_assistant().len());
    // , -> a9
    assert(!is_ws(B_COMMA) && a8[0] == B_COMMA);
    assert(skip_ws(a8) == a8);
    assert(a8.drop_first() =~= a9);
    // "content": -> a10
    assert(a9 =~= seq![B_QUOTE] + lit_key_content() + seq![B_QUOTE, B_COLON] + a10);
    lemma_parse_key_front(lit_key_content(), a10, seq![B_QUOTE] + lit_key_content()
        + seq![B_QUOTE, B_COLON] + a10);
    // [ -> a11
    assert(!is_ws(B_LBRACK) && a10[0] == B_LBRACK);
    assert(skip_ws(a10) == a10);
    assert(a10.drop_first() =~= a11);
    assert(expect_byte(a10, B_LBRACK) == Some(a11));
    // the single segment, then ]
    let b7 = seq![B_RBRACK, B_RBRACE, B_RBRACE];
    lemma_parse_seg_chain(c, b7);
    let b8 = seq![B_RBRACE, B_RBRACE];
    assert(a11[0] == B_LBRACE && !is_ws(B_LBRACE));
    assert(skip_ws(a11) == a11);
    assert(a11[0] != B_RBRACK);
    assert(skip_ws(b7) == b7);
    assert(b7[0] == B_RBRACK && b7[0] != B_COMMA);
    assert(b7.drop_first() =~= b8);
    assert(a11.len() > 0);
    assert(parse_segments(a11, a11.len()) == Some((c, b8)));
    // }} and the end of the line
    let b9 = seq![B_RBRACE];
    assert(!is_ws(B_RBRACE) && b8[0] == B_RBRACE);
    assert(skip_ws(b8) == b8);
    assert(b8.drop_first() =~= b9);
    assert(expect_byte(b8, B_RBRACE) == Some(b9));
    assert(b9[0] == B_RBRACE);
    assert(skip_ws(b9) == b9);
    assert(b9.drop_first() =~= Seq::<u8>::empty());
    assert(expect_byte(b9, B_RBRACE) == Some(Seq::<u8>::empty()));
    assert(skip_ws(Seq::<u8>::empty()).len() == 0);
    assert(parse_line_inner(a6) == Some(SpecMessage { role: m.role, content: c }));
}

/// Round-trip: parsing an encoded line gives exactly the encoded message.
/// This is the codec's central law; it holds for every message that carries
/// some text, whatever bytes the text holds.
#[verifier::rlimit(100)]
#[verifier::spinoff_prover]
pub proof fn lemma_parse_encode_roundtrip(m: SpecMessage)
    requires
        m.content.len() > 0,
    ensures
        parse_line_spec(encode_line_spec(m)) == Some(m),
{
    lemma_lits_clean();
    lemma_encode_decomp(m);
    let rl = role_lit(m.role);
    let c = m.content;
    let a6 = inner_chain(rl, c);
    let a5 = seq![B_LBRACE] + a6;
    let a4 = key_tok(lit_key_message()) + a5;
    let a3 = seq![B_COMMA] + a4;
    let a2 = str_tok(lit_key_message()) + a3;
    let a1 = key_tok(lit_key_type()) + a2;
    let e = encode_line_spec(m);
    assert(e == seq![B_LBRACE] + a1);
    // { -> a1
    assert(!is_ws(B_LBRACE) && e[0] == B_LBRACE);
    assert(skip_ws(e) == e);
    assert(e.drop_first() =~= a1);
    assert(expect_byte(e, B_LBRACE) == Some(a1));
    // "type": -> a2
    assert(a1 =~= seq![B_QUOTE] + lit_key_type() + seq![B_QUOTE, B_COLON] + a2);
    lemma_parse_key_front(lit_key_type(), a2, seq![B_QUOTE] + lit_key_type()
        + seq![B_QUOTE, B_COLON] + a2);
    // "message" -> a3
    assert(a2 =~= seq![B_QUOTE] + lit_key_message() + seq![B_QUOTE] + a3);
    lemma_parse_string_front(lit_key_message(), a3, seq![B_QUOTE] + lit_key_message()
        + seq![B_QUOTE] + a3);
    // , -> a4
    assert(!is_ws(B_COMMA) && a3[0] == B_COMMA);
    assert(skip_ws(a3) == a3);
    assert(a3.drop_first() =~= a4);
    assert(expect_byte(a3, B_COMMA) == Some(a4));
    // "message": -> a5
    assert(a4 =~= seq![B_QUOTE] + lit_key_message() + seq![B_QUOTE, B_COLON] + a5);
    lemma_parse_key_front(lit_key_message(), a5, seq![B_QUOTE] + lit_key_message()
        + seq![B_QUOTE, B_COLON] + a5);
    // { -> a6
    assert(!is_ws(B_LBRACE) && a5[0] == B_LBRACE);
    assert(skip_ws(a5) == a5);
    assert(a5.drop_first() =~= a6);
    assert(expect_byte(a5, B_LBRACE) == Some(a6));
    lemma_parse_inner_chain(m);
    assert(parse_line_spec(e) == Some(m));
}

/// Escaped text holds no line feed: every byte that could be one is
/// rewritten as an escape.
pub proof fn lemma_esc_no_nl(s: Seq<u8>)
    ensures
        forall|i: int| 0 <= i < esc(s).len() ==> esc(s)[i] != B_NL,
    decreases s.len(),
{
    if s.len() > 0 {
        lemma_esc_no_nl(s.drop_first());
        let b = s[0];
        assert(forall|i: int| 0 <= i < esc1(b).len() ==> esc1(b)[i] != B_NL) by {
            if b < 32 && b != B_QUOTE && b != B_BSLASH && b != 8 && b != 12 && b != B_NL
                && b != B_CR && b != B_TAB {
                assert(hex_digit(b / 16) != B_NL);
                assert(hex_digit(b % 16) != B_NL);
            }
        }
        assert(forall|i: int| 0 <= i < esc(s).len() ==> esc(s)[i] == (esc1(b) + esc(
            s.drop_first()))[i]);
    }
}

/// An encoded line is self-contained: it holds no line feed, so appending
/// it plus one line feed to a log adds exactly one line.
#[verifier::spinoff_prover]
pub proof fn lemma_encode_no_nl(m: SpecMessage)
    ensures
        forall|i: int| 0 <= i < encode_line_spec(m).len() ==> encode_line_spec(m)[i] != B_NL,
{
    lemma_esc_no_nl(m.content);
    assert(forall|i: int| 0 <= i < lit_open().len() ==> lit_open()[i] != B_NL);
    assert(forall|i: int| 0 <= i < lit_mid().len() ==> lit_mid()[i] != B_NL);
    assert(forall|i: int| 0 <= i < lit_close().len() ==> lit_close()[i] != B_NL);
    assert(forall|i: int| 0 <= i < role_lit(m.role).len() ==> role_lit(m.role)[i] != B_NL) by {
        match m.role {
            Role::User => {},
            Role::Assistant => {},
        }
    }
}

// ---------------------------------------------------------------------------
// The executable parser. Each function implements the spec parser of the
// same name exactly, reporting positions into the input.
// ---------------------------------------------------------------------------

/// Whether two byte slices hold the same bytes.
pub fn bytes_eq(a: &[u8], b: &[u8]) -> (r: bool)
    ensures
        r == (a@ == b@),
{
    if a.len() != b.len() {
        proof {
            assert(a@.len() != b@.len());
        }
        return false;
    }
    let n = a.len();
    let mut i: usize = 0;
    while i < n
        invariant
            n == a@.len() && n == b@.len(),
            i <= n,
            forall|k: int| 0 <= k < i ==> a@[k] == b@[k],
        decreases n - i,
    {
        if a[i] != b[i] {
            return false;
        }
        i = i + 1;
    }
    proof {
        assert(a@ =~= b@);
    }
    true
}

/// Move past JSON whitespace, starting at `i`.
fn skip_ws_x(s: &[u8], i: usize) -> (j: usize)
    requires
        i <= s@.len(),
    ensures
        i <= j <= s@.len(),
        s@.skip(j as int) == skip_ws(s@.skip(i as int)),
{
    let n = s.len();
    let mut j = i;
    while j < n && (s[j] == B_SPACE || s[j] == B_TAB || s[j] == B_NL || s[j] == B_CR)
        invariant
            i <= j <= n,
            n == s@.len(),
            skip_ws(s@.skip(i as int)) == skip_ws(s@.skip(j as int)),
        decreases n - j,
    {
        proof {
            assert(s@.skip(j as int)[0] == s@[j as int]);
            assert(is_ws(s@[j as int]));
            assert(s@.skip(j as int).drop_first() =~= s@.skip(j + 1));
        }
        j = j + 1;
    }
    proof {
        if j < n {
            assert(s@.skip(j as int)[0] == s@[j as int]);
            assert(!is_ws(s@[j as int]));
        }
        assert(skip_ws(s@.skip(j as int)) == s@.skip(j as int));
    }
    j
}

/// After whitespace, demand the byte `b`; hand back the position after it.
fn expect_byte_x(s: &[u8], i: usize, b: u8) -> (r: Option<usize>)
    requires
        i <= s@.len(),
    ensures
        match r {
            Some(j) => i <= j <= s@.len() && expect_byte(s@.skip(i as int), b) == Some(
                s@.skip(j as int),
            ),
            None => expect_byte(s@.skip(i as int), b) is None,
        },
{
    let j = skip_ws_x(s, i);
    if j < s.len() && s[j] == b {
        proof {
            assert(s@.skip(j as int)[0] == s@[j as int]);
            assert(s@.skip(j as int).drop_first() =~= s@.skip(j + 1));
        }
        Some(j + 1)
    } else {
        proof {
            if j < s@.len() {
                assert(s@.skip(j as int)[0] == s@[j as int]);
            }
        }
        None
    }
}

/// The value of one hex digit byte, if it is one.
fn hex_val_x(b: u8) -> (r: Option<u8>)
    ensures
        r == hex_val(b),
{
    if 48 <= b && b <= 57 {
        Some(b - 48)
    } else if 97 <= b && b <= 102 {
        Some(b - 87)
    } else if 65 <= b && b <= 70 {
        Some(b - 55)
    } else {
        None
    }
}

/// Decode a string body starting at `i` (just after the opening quote).
#[verifier::rlimit(60)]
fn parse_string_body_x(s: &[u8], i: usize) -> (r: Option<(Vec<u8>, usize)>)
    requires
        i <= s@.len(),
    ensures
        match r {
            Some((d, j)) => i <= j <= s@.len() && parse_string_body(s@.skip(i as int)) == Some(
                (d@, s@.skip(j as int)),
            ),
            None => parse_string_body(s@.skip(i as int)) is None,
        },
{
    let n = s.len();
    let mut acc: Vec<u8> = Vec::new();
    let mut cur = i;
    proof {
        assert(acc@ =~= Seq::<u8>::empty());
    }
    loop
        invariant
            i <= cur <= n,
            n == s@.len(),
            parse_string_body(s@.skip(i as int)) == prepend(
                acc@,
                parse_string_body(s@.skip(cur as int)),
            ),
        decreases n - cur,
    {
        proof {
            assert(s@.skip(cur as int).len() == n - cur);
        }
        if cur == n {
            return None;
        }
        let b = s[cur];
        proof {
            assert(s@.skip(cur as int)[0] == b);
        }
        if b == B_QUOTE {
            proof {
                assert(s@.skip(cur as int).drop_first() =~= s@.skip(cur + 1));
                assert(parse_string_body(s@.skip(cur as int)) == Some(
                    (Seq::<u8>::empty(), s@.skip(cur + 1)),
                ));
                assert(acc@ + Seq::<u8>::empty() =~= acc@);
            }
            return Some((acc, cur + 1));
        } else if b == B_BSLASH {
            if cur + 1 == n {
                proof {
                    assert(s@.skip(cur as int).len() < 2);
                }
                return None;
            }
            let e = s[cur + 1];
            proof {
                assert(s@.skip(cur as int)[1] == e);
                assert(s@.skip(cur as int).len() >= 2);
                assert(s@.skip(cur as int).skip(2) =~= s@.skip(cur + 2));
            }
            if e == B_QUOTE || e == B_BSLASH || e == B_SLASH || e == 98 || e == 102 || e == 110
                || e == 114 || e == 116 {
                let d: u8 = if e == 98 { 8 } else if e == 102 { 12 } else if e == 110 { B_NL }
                    else if e == 114 { B_CR } else if e == 116 { B_TAB } else { e };
                proof {
                    assert(parse_string_body(s@.skip(cur as int)) == prepend1(
                        d,
                        parse_string_body(s@.skip(cur + 2)),
                    ));
                    lemma_prepend_assoc(acc@, seq![d], parse_string_body(s@.skip(cur + 2)));
                    assert(acc@.push(d) =~= acc@ + seq![d]);
                }
                acc.push(d);
                cur = cur + 2;
            } else if e == 117 {
                if n - cur < 6 {
                    proof {
                        assert(s@.skip(cur as int).len() < 6);
                    }
                    return None;
                }
                proof {
                    assert(s@.skip(cur as int)[2] == s@[cur + 2]);
                    assert(s@.skip(cur as int)[3] == s@[cur + 3]);
                    assert(s@.skip(cur as int)[4] == s@[cur + 4]);
                    assert(s@.skip(cur as int)[5] == s@[cur + 5]);
                    assert(s@.skip(cur as int).skip(6) =~= s@.skip(cur + 6));
                }
                let h0 = hex_val_x(s[cur + 2]);
                let h1 = hex_val_x(s[cur + 3]);
                let h2 = hex_val_x(s[cur + 4]);
                let h3 = hex_val_x(s[cur + 5]);
                match (h0, h1, h2, h3) {
                    (Some(h0), Some(h1), Some(h2), Some(h3)) => {
                        let cp: u32 = (h0 as u32) * 0x1000 + (h1 as u32) * 0x100 + (h2 as u32)
                            * 16 + (h3 as u32);
                        if 0xD800 <= cp && cp < 0xE000 {
                            return None;
                        }
                        let ghost pre = utf8_of(cp as int);
                        if cp < 0x80 {
                            acc.push(cp as u8);
                            proof {
                                assert(acc@ =~= old_acc_plus(acc@, pre));
                            }
                        } else if cp < 0x800 {
                            acc.push((192 + cp / 64) as u8);
                            acc.push((128 + cp % 64) as u8);
                            proof {
                                assert(acc@ =~= old_acc_plus(acc@, pre));
                            }
                        } else {
                            acc.push((224 + cp / 4096) as u8);
                            acc.push((128 + (cp / 64) % 64) as u8);
                            acc.push((128 + cp % 64) as u8);
                            proof {
                                assert(acc@ =~= old_acc_plus(acc@, pre));
                            }
                        }
                        proof {
                            lemma_prepend_assoc(
                                acc@.subrange(0, acc@.len() - pre.len()),
                                pre,
                                parse_string_body(s@.skip(cur + 6)),
                            );
                        }
                        cur = cur + 6;
                    },
                    _ => {
                        return None;
                    },
                }
            } else {
                return None;
            }
        } else if b < 32 {
            return None;
        } else {
            proof {
                assert(s@.skip(cur as int).drop_first() =~= s@.skip(cur + 1));
                assert(parse_string_body(s@.skip(cur as int)) == prepend1(
                    b,
                    parse_string_body(s@.skip(cur + 1)),
                ));
                lemma_prepend_assoc(acc@, seq![b], parse_string_body(s@.skip(cur + 1)));
                assert(acc@.push(b) =~= acc@ + seq![b]);
            }
            acc.push(b);
            cur = cur + 1;
        }
    }
}

/// The sequence `a + pre`, used to phrase what pushes added.
pub open spec fn old_acc_plus(now: Seq<u8>, pre: Seq<u8>) -> Seq<u8> {
    now.subrange(0, now.len() - pre.len()) + pre
}

/// Prepending in two steps is prepending the concatenation.
proof fn lemma_prepend_assoc(a: Seq<u8>, b: Seq<u8>, o: Option<(Seq<u8>, Seq<u8>)>)
    ensures
        prepend(a, prepend(b, o)) == prepend(a + b, o),
{
    match o {
        Some((d, r)) => {
            assert(a + (b + d) =~= (a + b) + d);
        },
        None => {},
    }
}

/// A whole string: whitespace, quote, body.
fn parse_string_x(s: &[u8], i: usize) -> (r: Option<(Vec<u8>, usize)>)
    requires
        i <= s@.len(),
    ensures
        match r {
            Some((d, j)) => i <= j <= s@.len() && parse_string(s@.skip(i as int)) == Some(
                (d@, s@.skip(j as int)),
            ),
            None => parse_string(s@.skip(i as int)) is None,
        },
{
    match expect_byte_x(s, i, B_QUOTE) {
        Some(j) => parse_string_body_x(s, j),
        None => None,
    }
}

fn key_type_vec() -> (r: Vec<u8>)
    ensures
        r@ == lit_key_type(),
{
    let v: Vec<u8> = vec![116u8, 121u8, 112u8, 101u8];
    proof { assert(v@ =~= lit_key_type()); }
    v
}

fn key_message_vec() -> (r: Vec<u8>)
    ensures
        r@ == lit_key_message(),
{
    let v: Vec<u8> = vec![109u8, 101u8, 115u8, 115u8, 97u8, 103u8, 101u8];
    proof { assert(v@ =~= lit_key_message()); }
    v
}

fn key_role_vec() -> (r: Vec<u8>)
    ensures
        r@ == lit_key_role(),
{
    let v: Vec<u8> = vec![114u8, 111u8, 108u8, 101u8];
    proof { assert(v@ =~= lit_key_role()); }
    v
}

fn key_content_vec() -> (r: Vec<u8>)
    ensures
        r@ == lit_key_content(),
{
    let v: Vec<u8> = vec![99u8, 111u8, 110u8, 116u8, 101u8, 110u8, 116u8];
    proof { assert(v@ =~= lit_key_content()); }
    v
}

fn key_text_vec() -> (r: Vec<u8>)
    ensures
        r@ == lit_key_text(),
{
    let v: Vec<u8> = vec![116u8, 101u8, 120u8, 116u8];
    proof { assert(v@ =~= lit_key_text()); }
    v
}

/// A member key equal to `name`, then its colon.
fn parse_key_x(s: &[u8], i: usize, name: &[u8]) -> (r: Option<usize>)
    requires
        i <= s@.len(),
    ensures
        match r {
            Some(j) => i <= j <= s@.len() && parse_key(s@.skip(i as int), name@) == Some(
                s@.skip(j as int),
            ),
            None => parse_key(s@.skip(i as int), name@) is None,
        },
{
    match parse_string_x(s, i) {
        Some((k, j)) => {
            if bytes_eq(k.as_slice(), name) {
                expect_byte_x(s, j, B_COLON)
            } else {
                None
            }
        },
        None => None,
    }
}

/// One content segment, starting at `i`.
fn parse_segment_x(s: &[u8], i: usize) -> (r: Option<(Vec<u8>, usize)>)
    requires
        i <= s@.len(),
    ensures
        match r {
            Some((t, j)) => i <= j <= s@.len() && parse_segment(s@.skip(i as int)) == Some(
                (t@, s@.skip(j as int)),
            ),
            None => parse_segment(s@.skip(i as int)) is None,
        },
{
    let ktype = key_type_vec();
    let ktext = key_text_vec();
    let t = match expect_byte_x(s, i, B_LBRACE) {
        Some(t) => t,
        None => { return None; },
    };
    let u = match parse_key_x(s, t, ktype.as_slice()) {
        Some(u) => u,
        None => { return None; },
    };
    let (ty, v) = match parse_string_x(s, u) {
        Some(p) => p,
        None => { return None; },
    };
    let w = skip_ws_x(s, v);
    if w < s.len() && s[w] == B_COMMA {
        proof {
            assert(s@.skip(w as int)[0] == s@[w as int]);
            assert(s@.skip(w as int).drop_first() =~= s@.skip(w + 1));
        }
        let x = match parse_key_x(s, w + 1, ktext.as_slice()) {
            Some(x) => x,
            None => { return None; },
        };
        let (tx, y) = match parse_string_x(s, x) {
            Some(p) => p,
            None => { return None; },
        };
        let z = match expect_byte_x(s, y, B_RBRACE) {
            Some(z) => z,
            None => { return None; },
        };
        if bytes_eq(ty.as_slice(), ktext.as_slice()) {
            Some((tx, z))
        } else {
            let e: Vec<u8> = Vec::new();
            proof {
                assert(e@ =~= Seq::<u8>::empty());
            }
            Some((e, z))
        }
    } else {
        proof {
            if w < s@.len() {
                assert(s@.skip(w as int)[0] == s@[w as int]);
            } else {
                assert(s@.skip(w as int).len() == 0);
            }
        }
        match expect_byte_x(s, v, B_RBRACE) {
            Some(z) => {
                let e: Vec<u8> = Vec::new();
                proof {
                    assert(e@ =~= Seq::<u8>::empty());
                }
                Some((e, z))
            },
            None => None,
        }
    }
}

/// The segment list after the opening bracket, with its concatenated text.
fn parse_segments_x(s: &[u8], i: usize) -> (r: Option<(Vec<u8>, usize)>)
    requires
        i <= s@.len(),
    ensures
        match r {
            Some((t, j)) => i <= j <= s@.len() && parse_segments(
                s@.skip(i as int),
                s@.skip(i as int).len(),
            ) == Some((t@, s@.skip(j as int))),
            None => parse_segments(s@.skip(i as int), s@.skip(i as int).len()) is None,
        },
{
    let n = s.len();
    let mut acc: Vec<u8> = Vec::new();
    let mut cur = i;
    let mut fuel: usize = n - i;
    proof {
        assert(acc@ =~= Seq::<u8>::empty());
        assert(s@.skip(i as int).len() == n - i);
    }
    loop
        invariant
            i <= cur <= n,
            n == s@.len(),
            parse_segments(s@.skip(i as int), (n - i) as nat) == seg_prepend(
                acc@,
                parse_segments(s@.skip(cur as int), fuel as nat),
            ),
        decreases fuel,
    {
        if fuel == 0 {
            return None;
        }
        let j = skip_ws_x(s, cur);
        if j < n && s[j] == B_RBRACK {
            proof {
                assert(s@.skip(j as int)[0] == s@[j as int]);
                assert(s@.skip(j as int).drop_first() =~= s@.skip(j + 1));
                assert(acc@ + Seq::<u8>::empty() =~= acc@);
            }
            return Some((acc, j + 1));
        }
        proof {
            if j < n {
                assert(s@.skip(j as int)[0] == s@[j as int]);
            }
        }
        let (txt, r1) = match parse_segment_x(s, cur) {
            Some(p) => p,
            None => { return None; },
        };
        let u = skip_ws_x(s, r1);
        if u < n && s[u] == B_COMMA {
            proof {
                assert(s@.skip(u as int)[0] == s@[u as int]);
                assert(s@.skip(u as int).drop_first() =~= s@.skip(u + 1));
            }
            let ghost acc_old = acc@;
            let mut txt2 = txt;
            acc.append(&mut txt2);
            proof {
                lemma_seg_prepend_assoc(
                    acc_old,
                    txt@,
                    parse_segments(s@.skip(u + 1), (fuel - 1) as nat),
                );
            }
            cur = u + 1;
            fuel = fuel - 1;
        } else if u < n && s[u] == B_RBRACK {
            proof {
                assert(s@.skip(u as int)[0] == s@[u as int]);
                assert(s@.skip(u as int).drop_first() =~= s@.skip(u + 1));
            }
            let ghost acc_old = acc@;
            let mut txt2 = txt;
            acc.append(&mut txt2);
            proof {
                assert(acc@ =~= acc_old + txt@);
            }
            return Some((acc, u + 1));
        } else {
            proof {
                if u < n {
                    assert(s@.skip(u as int)[0] == s@[u as int]);
                } else {
                    assert(s@.skip(u as int).len() == 0);
                }
            }
            return None;
        }
    }
}

/// What a segment list's text means under an already-read prefix.
pub open spec fn seg_prepend(pre: Seq<u8>, o: Option<(Seq<u8>, Seq<u8>)>) -> Option<
    (Seq<u8>, Seq<u8>),
> {
    match o {
        Some((t, r)) => Some((pre + t, r)),
        None => None,
    }
}

/// Accumulating in two steps is accumulating the concatenation.
proof fn lemma_seg_prepend_assoc(a: Seq<u8>, b: Seq<u8>, o: Option<(Seq<u8>, Seq<u8>)>)
    ensures
        seg_prepend(a, seg_prepend(b, o)) == seg_prepend(a + b, o),
{
    match o {
        Some((t, r)) => {
            assert(a + (b + t) =~= (a + b) + t);
        },
        None => {},
    }
}

/// Decode one line of the log. `Some` exactly when the line is a record of
/// kind `message` with role `user` or `assistant` whose concatenated text
/// segments are nonempty; every other line — another record kind, an unknown
/// role, empty text, malformed bytes — gives `None` and is thereby skipped.
pub fn parse_jsonl_line(line: &[u8]) -> (r: Option<ChatMessage>)
    ensures
        match r {
            Some(m) => parse_line_spec(line@) == Some(m@) && m@.content.len() > 0,
            None => parse_line_spec(line@) is None,
        },
{
    proof {
        assert(line@.skip(0) =~= line@);
    }
    let kmessage = key_message_vec();
    let t1 = match expect_byte_x(line, 0, B_LBRACE) {
        Some(t) => t,
        None => { return None; },
    };
    let ktype = key_type_vec();
    let t2 = match parse_key_x(line, t1, ktype.as_slice()) {
        Some(t) => t,
        None => { return None; },
    };
    let (ty, t3) = match parse_string_x(line, t2) {
        Some(p) => p,
        None => { return None; },
    };
    if !bytes_eq(ty.as_slice(), kmessage.as_slice()) {
        return None;
    }
    let t4 = match expect_byte_x(line, t3, B_COMMA) {
        Some(t) => t,
        None => { return None; },
    };
    let t5 = match parse_key_x(line, t4, kmessage.as_slice()) {
        Some(t) => t,
        None => { return None; },
    };
    let t6 = match expect_byte_x(line, t5, B_LBRACE) {
        Some(t) => t,
        None => { return None; },
    };
    let krole = key_role_vec();
    let t7 = match parse_key_x(line, t6, krole.as_slice()) {
        Some(t) => t,
        None => { return None; },
    };
    let (rb, t8) = match parse_string_x(line, t7) {
        Some(p) => p,
        None => { return None; },
    };
    let user = role_vec(Role::User);
    let assistant = role_vec(Role::Assistant);
    let role: Role = if bytes_eq(rb.as_slice(), user.as_slice()) {
        Role::User
    } else if bytes_eq(rb.as_slice(), assistant.as_slice()) {
        Role::Assistant
    } else {
        return None;
    };
    let t9 = match expect_byte_x(line, t8, B_COMMA) {
        Some(t) => t,
        None => { return None; },
    };
    let kcontent = key_content_vec();
    let t10 = match parse_key_x(line, t9, kcontent.as_slice()) {
        Some(t) => t,
        None => { return None; },
    };
    let t11 = match expect_byte_x(line, t10, B_LBRACK) {
        Some(t) => t,
        None => { return None; },
    };
    let (txt, t12) = match parse_segments_x(line, t11) {
        Some(p) => p,
        None => { return None; },
    };
    let t13 = match expect_byte_x(line, t12, B_RBRACE) {
        Some(t) => t,
        None => { return None; },
    };
    let t14 = match expect_byte_x(line, t13, B_RBRACE) {
        Some(t) => t,
        None => { return None; },
    };
    let j = skip_ws_x(line, t14);
    if j != line.len() {
        proof {
            assert(skip_ws(line@.skip(t14 as int)).len() == line@.len() - j);
        }
        return None;
    }
    if txt.len() == 0 {
        return None;
    }
    proof {
        assert(skip_ws(line@.skip(t14 as int)).len() == 0);
    }
    Some(ChatMessage { role, content: txt })
}

} // verus!
