use vstd::prelude::*;
use vstd::string::StringExecFns;
use crate::util::hex_digit;
use crate::util::hex_digit_char;
use crate::util::lemma_char_eq;
use crate::util::lemma_hex_digit_injective;
use crate::util::unhex;
use crate::util::chars_of;
use crate::util::push_char;

verus! {

/// One inter-agent notification. The wire form is a JSON object whose first
/// member, named "type", carries the variant name, followed by the variant's
/// fields in declaration order.
#[derive(Clone, Debug)]
pub enum AgentMessage {
    Chat { content: String },
    SwapExecuted { agent: String, direction: String, amount: String, tx_hash: String },
    SwapRequest { direction: String, amount: String },
}

/// Mathematical model of a message: the same closed variant set over
/// character sequences.
pub enum MessageView {
    Chat { content: Seq<char> },
    SwapExecuted { agent: Seq<char>, direction: Seq<char>, amount: Seq<char>, tx_hash: Seq<char> },
    SwapRequest { direction: Seq<char>, amount: Seq<char> },
}

impl View for AgentMessage {
    type V = MessageView;

    open spec fn view(&self) -> MessageView {
        match self {
            AgentMessage::Chat { content } => MessageView::Chat { content: content@ },
            AgentMessage::SwapExecuted { agent, direction, amount, tx_hash } => {
                MessageView::SwapExecuted {
                    agent: agent@,
                    direction: direction@,
                    amount: amount@,
                    tx_hash: tx_hash@,
                }
            },
            AgentMessage::SwapRequest { direction, amount } => {
                MessageView::SwapRequest { direction: direction@, amount: amount@ }
            },
        }
    }
}

/// Raised when bytes on the topic are not a canonical wire form. The consumer
/// falls back to showing the raw text; this error never aborts the loop.
#[derive(Clone, Copy, PartialEq, Eq, Structural, Debug)]
pub enum DecodeError {
    Malformed,
}

/// Characters that may not stand bare inside a JSON string literal:
/// control characters, the quote and the backslash.
pub open spec fn is_escaped_char(c: char) -> bool {
    (c as u32) < 0x20 || c == '"' || c == '\\'
}

/// Canonical escape of one character: `\u00xy` for the characters that need
/// escaping, the character itself otherwise.
pub open spec fn esc_char(c: char) -> Seq<char> {
    if is_escaped_char(c) {
        seq!['\\', 'u', '0', '0', hex_digit((c as u32) as int / 16), hex_digit(
            (c as u32) as int % 16,
        )]
    } else {
        seq![c]
    }
}

/// Canonical escape of a whole string body.
pub open spec fn escape(s: Seq<char>) -> Seq<char>
    decreases s.len(),
{
    if s.len() == 0 {
        Seq::empty()
    } else {
        esc_char(s[0]) + escape(s.drop_first())
    }
}

/// A JSON string literal: the escaped body between two quotes.
pub open spec fn quoted(s: Seq<char>) -> Seq<char> {
    seq!['"'] + escape(s) + seq!['"']
}

pub open spec fn enc_chat(content: Seq<char>) -> Seq<char> {
    "{\"type\":\"Chat\",\"content\":"@ + (quoted(content) + "}"@)
}

pub open spec fn enc_swap_executed(
    agent: Seq<char>,
    direction: Seq<char>,
    amount: Seq<char>,
    tx_hash: Seq<char>,
) -> Seq<char> {
    "{\"type\":\"SwapExecuted\",\"agent\":"@ + (quoted(agent) + (",\"direction\":"@ + (quoted(
        direction,
    ) + (",\"amount\":"@ + (quoted(amount) + (",\"tx_hash\":"@ + (quoted(tx_hash) + "}"@)))))))
}

pub open spec fn enc_swap_request(direction: Seq<char>, amount: Seq<char>) -> Seq<char> {
    "{\"type\":\"SwapRequest\",\"direction\":"@ + (quoted(direction) + (",\"amount\":"@ + (quoted(
        amount,
    ) + "}"@)))
}

/// The canonical wire form of a message.
pub open spec fn spec_encode(m: MessageView) -> Seq<char> {
    match m {
        MessageView::Chat { content } => enc_chat(content),
        MessageView::SwapExecuted { agent, direction, amount, tx_hash } => enc_swap_executed(
            agent,
            direction,
            amount,
            tx_hash,
        ),
        MessageView::SwapRequest { direction, amount } => enc_swap_request(direction, amount),
    }
}

pub proof fn lemma_escape_app(a: Seq<char>, b: Seq<char>)
    ensures
        escape(a + b) == escape(a) + escape(b),
    decreases a.len(),
{
    if a.len() == 0 {
        assert(a + b =~= b);
        assert(escape(a) + escape(b) =~= escape(b));
    } else {
        assert((a + b)[0] == a[0]);
        assert((a + b).drop_first() =~= a.drop_first() + b);
        lemma_escape_app(a.drop_first(), b);
        assert(escape(a + b) =~= escape(a) + escape(b));
    }
}

pub proof fn lemma_escape_snoc(s: Seq<char>, c: char)
    ensures
        escape(s.push(c)) == escape(s) + esc_char(c),
{
    assert(s.push(c) =~= s + seq![c]);
    lemma_escape_app(s, seq![c]);
    assert(seq![c].len() == 1 && seq![c][0] == c);
    assert(seq![c].drop_first() =~= Seq::<char>::empty());
    assert(escape(Seq::<char>::empty()) == Seq::<char>::empty());
    assert(escape(seq![c]) == esc_char(c) + Seq::<char>::empty());
    assert(esc_char(c) + Seq::<char>::empty() =~= esc_char(c));
}

proof fn lemma_cons_eq(a: Seq<char>, b: Seq<char>)
    requires
        a.len() > 0,
        b.len() > 0,
        a[0] == b[0],
        a.drop_first() == b.drop_first(),
    ensures
        a == b,
{
    assert(a.drop_first().len() == a.len() - 1);
    assert(b.drop_first().len() == b.len() - 1);
    assert(a.len() == b.len());
    assert forall|i: int| 0 <= i < a.len() implies a[i] == b[i] by {
        if i > 0 {
            assert(0 <= i - 1 < a.drop_first().len());
            assert(a.drop_first()[i - 1] == a[i]);
            assert(b.drop_first()[i - 1] == b[i]);
        }
    }
    assert(a =~= b);
}

proof fn lemma_strip_prefix(p: Seq<char>, u: Seq<char>, v: Seq<char>)
    requires
        p + u == p + v,
    ensures
        u == v,
{
    assert((p + u).len() == (p + v).len());
    assert((p + u).len() == p.len() + u.len());
    assert((p + v).len() == p.len() + v.len());
    assert(u.len() == v.len());
    assert forall|i: int| 0 <= i < u.len() implies u[i] == v[i] by {
        assert(0 <= p.len() + i < (p + u).len());
        assert((p + u)[p.len() + i] == u[i]);
        assert((p + v)[p.len() + i] == v[i]);
    }
    assert(u =~= v);
}

/// Splits a suffix of a sequence around an interior point.
pub proof fn lemma_split_at(w: Seq<char>, i: int, j: int)
    requires
        0 <= i <= j <= w.len(),
    ensures
        w.subrange(i, w.len() as int) == w.subrange(i, j) + w.subrange(j, w.len() as int),
{
    assert(w.subrange(i, w.len() as int) =~= w.subrange(i, j) + w.subrange(j, w.len() as int));
}

/// When a suffix of `w` is `a + b`, the two parts stand at known positions.
pub proof fn lemma_tail_chop(w: Seq<char>, p: int, a: Seq<char>, b: Seq<char>)
    requires
        0 <= p <= w.len(),
        w.subrange(p, w.len() as int) == a + b,
    ensures
        p + a.len() <= w.len(),
        w.subrange(p, p + a.len()) == a,
        w.subrange(p + a.len(), w.len() as int) == b,
{
    assert(w.subrange(p, w.len() as int).len() == a.len() + b.len());
    assert(p + a.len() <= w.len());
    assert forall|i: int| 0 <= i < a.len() implies w.subrange(p, p + a.len())[i] == a[i] by {
        assert(w.subrange(p, w.len() as int)[i] == (a + b)[i]);
        assert(w.subrange(p, w.len() as int)[i] == w[p + i]);
        assert(w.subrange(p, p + a.len())[i] == w[p + i]);
    }
    assert(w.subrange(p, p + a.len()) =~= a);
    assert forall|i: int|
        0 <= i < b.len() implies w.subrange(p + a.len(), w.len() as int)[i] == b[i] by {
        assert(w.subrange(p, w.len() as int)[a.len() + i] == (a + b)[a.len() + i]);
        assert(w.subrange(p, w.len() as int)[a.len() + i] == w[p + a.len() + i]);
        assert(w.subrange(p + a.len(), w.len() as int)[i] == w[p + a.len() + i]);
    }
    assert(w.subrange(p + a.len(), w.len() as int) =~= b);
}

/// Core uniqueness of the escape coding: a canonically escaped body followed
/// by a closing quote determines the body and everything after it.
proof fn lemma_escape_quote_unique(a: Seq<char>, b: Seq<char>, x: Seq<char>, y: Seq<char>)
    requires
        escape(a) + seq!['"'] + x == escape(b) + seq!['"'] + y,
    ensures
        a == b,
        x == y,
    decreases a.len(),
{
    let z = escape(a) + seq!['"'] + x;
    lemma_escape_head(a, x);
    lemma_escape_head(b, y);
    if a.len() == 0 && b.len() == 0 {
        lemma_strip_prefix(seq!['"'], x, y);
        assert(a =~= b);
    } else if a.len() == 0 || b.len() == 0 {
        assert(false);
    } else {
        let ca = a[0];
        let cb = b[0];
        if !is_escaped_char(ca) && !is_escaped_char(cb) {
            assert(ca == cb);
            assert(escape(a.drop_first()) + seq!['"'] + x == escape(b.drop_first()) + seq!['"']
                + y) by {
                assert(z.subrange(1, z.len() as int) == escape(a.drop_first()) + seq!['"'] + x);
                assert(z.subrange(1, z.len() as int) == escape(b.drop_first()) + seq!['"'] + y);
            }
            lemma_escape_quote_unique(a.drop_first(), b.drop_first(), x, y);
            lemma_cons_eq(a, b);
        } else if is_escaped_char(ca) && is_escaped_char(cb) {
            assert(z[4] == hex_digit((ca as u32) as int / 16));
            assert(z[4] == hex_digit((cb as u32) as int / 16));
            assert(z[5] == hex_digit((ca as u32) as int % 16));
            assert(z[5] == hex_digit((cb as u32) as int % 16));
            assert(ca as u32 <= 0x5c && cb as u32 <= 0x5c);
            lemma_hex_digit_injective((ca as u32) as int / 16, (cb as u32) as int / 16);
            lemma_hex_digit_injective((ca as u32) as int % 16, (cb as u32) as int % 16);
            assert(ca as u32 == cb as u32);
            lemma_char_eq(ca, cb);
            assert(escape(a.drop_first()) + seq!['"'] + x == escape(b.drop_first()) + seq!['"']
                + y) by {
                assert(z.subrange(6, z.len() as int) == escape(a.drop_first()) + seq!['"'] + x);
                assert(z.subrange(6, z.len() as int) == escape(b.drop_first()) + seq!['"'] + y);
            }
            lemma_escape_quote_unique(a.drop_first(), b.drop_first(), x, y);
            lemma_cons_eq(a, b);
        } else {
            assert(false);
        }
    }
}

/// Shape of the stream `escape(u) + '"' + rest` at its front.
proof fn lemma_escape_head(u: Seq<char>, rest: Seq<char>)
    ensures
        ({
            let z = escape(u) + seq!['"'] + rest;
            &&& z.len() >= 1 + rest.len()
            &&& (u.len() == 0 ==> z[0] == '"' && z == seq!['"'] + rest)
            &&& (u.len() > 0 && !is_escaped_char(u[0]) ==> z[0] == u[0] && u[0] != '"' && u[0]
                != '\\' && z.subrange(1, z.len() as int) == escape(u.drop_first()) + seq!['"']
                + rest)
            &&& (u.len() > 0 && is_escaped_char(u[0]) ==> z.len() >= 7 && z[0] == '\\' && z[1]
                == 'u' && z[2] == '0' && z[3] == '0' && z[4] == hex_digit(
                (u[0] as u32) as int / 16,
            ) && z[5] == hex_digit((u[0] as u32) as int % 16) && z.subrange(6, z.len() as int)
                == escape(u.drop_first()) + seq!['"'] + rest)
        }),
{
    let z = escape(u) + seq!['"'] + rest;
    if u.len() == 0 {
        assert(z =~= seq!['"'] + rest);
    } else {
        assert(escape(u) == esc_char(u[0]) + escape(u.drop_first()));
        if !is_escaped_char(u[0]) {
            assert(z[0] == u[0]);
            assert(z.subrange(1, z.len() as int) =~= escape(u.drop_first()) + seq!['"'] + rest);
        } else {
            assert(z[0] == '\\');
            assert(z[1] == 'u');
            assert(z[2] == '0');
            assert(z[3] == '0');
            assert(z[4] == hex_digit((u[0] as u32) as int / 16));
            assert(z[5] == hex_digit((u[0] as u32) as int % 16));
            assert(z.subrange(6, z.len() as int) =~= escape(u.drop_first()) + seq!['"'] + rest);
        }
    }
}

/// A quoted string segment is prefix-free: it determines both the string and
/// the remainder of the stream.
pub proof fn lemma_quoted_prefix_free(a: Seq<char>, b: Seq<char>, x: Seq<char>, y: Seq<char>)
    requires
        quoted(a) + x == quoted(b) + y,
    ensures
        a == b,
        x == y,
{
    assert(quoted(a) + x =~= seq!['"'] + (escape(a) + seq!['"'] + x));
    assert(quoted(b) + y =~= seq!['"'] + (escape(b) + seq!['"'] + y));
    lemma_strip_prefix(seq!['"'], escape(a) + seq!['"'] + x, escape(b) + seq!['"'] + y);
    lemma_escape_quote_unique(a, b, x, y);
}

/// The characters that tell the three wire templates apart.
proof fn lemma_tag_chars(m: MessageView)
    ensures
        spec_encode(m).len() > 13,
        m is Chat ==> spec_encode(m)[9] == 'C',
        m is SwapExecuted ==> spec_encode(m)[9] == 'S' && spec_encode(m)[13] == 'E',
        m is SwapRequest ==> spec_encode(m)[9] == 'S' && spec_encode(m)[13] == 'R',
{
    reveal_strlit("{\"type\":\"Chat\",\"content\":");
    reveal_strlit("{\"type\":\"SwapExecuted\",\"agent\":");
    reveal_strlit("{\"type\":\"SwapRequest\",\"direction\":");
}

/// Law: the wire form is injective — two messages with the same encoding are
/// the same message. Together with the decoder's contract this gives the
/// round trip: decoding an encoded message yields the message itself.
pub proof fn lemma_encode_injective(m1: MessageView, m2: MessageView)
    requires
        spec_encode(m1) == spec_encode(m2),
    ensures
        m1 == m2,
{
    let w = spec_encode(m1);
    lemma_tag_chars(m1);
    lemma_tag_chars(m2);
    match m1 {
        MessageView::Chat { content: c1 } => {
            let c2 = m2->Chat_content;
            assert(m2 is Chat);
            lemma_strip_prefix(
                "{\"type\":\"Chat\",\"content\":"@,
                quoted(c1) + "}"@,
                quoted(c2) + "}"@,
            );
            lemma_quoted_prefix_free(c1, c2, "}"@, "}"@);
        },
        MessageView::SwapExecuted { agent: a1, direction: d1, amount: am1, tx_hash: h1 } => {
            assert(m2 is SwapExecuted);
            let a2 = m2->SwapExecuted_agent;
            let d2 = m2->SwapExecuted_direction;
            let am2 = m2->SwapExecuted_amount;
            let h2 = m2->SwapExecuted_tx_hash;
            lemma_strip_prefix(
                "{\"type\":\"SwapExecuted\",\"agent\":"@,
                quoted(a1) + (",\"direction\":"@ + (quoted(d1) + (",\"amount\":"@ + (quoted(am1)
                    + (",\"tx_hash\":"@ + (quoted(h1) + "}"@)))))),
                quoted(a2) + (",\"direction\":"@ + (quoted(d2) + (",\"amount\":"@ + (quoted(am2)
                    + (",\"tx_hash\":"@ + (quoted(h2) + "}"@)))))),
            );
            lemma_quoted_prefix_free(
                a1,
                a2,
                ",\"direction\":"@ + (quoted(d1) + (",\"amount\":"@ + (quoted(am1) + (
                ",\"tx_hash\":"@ + (quoted(h1) + "}"@))))),
                ",\"direction\":"@ + (quoted(d2) + (",\"amount\":"@ + (quoted(am2) + (
                ",\"tx_hash\":"@ + (quoted(h2) + "}"@))))),
            );
            lemma_strip_prefix(
                ",\"direction\":"@,
                quoted(d1) + (",\"amount\":"@ + (quoted(am1) + (",\"tx_hash\":"@ + (quoted(h1)
                    + "}"@)))),
                quoted(d2) + (",\"amount\":"@ + (quoted(am2) + (",\"tx_hash\":"@ + (quoted(h2)
                    + "}"@)))),
            );
            lemma_quoted_prefix_free(
                d1,
                d2,
                ",\"amount\":"@ + (quoted(am1) + (",\"tx_hash\":"@ + (quoted(h1) + "}"@))),
                ",\"amount\":"@ + (quoted(am2) + (",\"tx_hash\":"@ + (quoted(h2) + "}"@))),
            );
            lemma_strip_prefix(
                ",\"amount\":"@,
                quoted(am1) + (",\"tx_hash\":"@ + (quoted(h1) + "}"@)),
                quoted(am2) + (",\"tx_hash\":"@ + (quoted(h2) + "}"@)),
            );
            lemma_quoted_prefix_free(
                am1,
                am2,
                ",\"tx_hash\":"@ + (quoted(h1) + "}"@),
                ",\"tx_hash\":"@ + (quoted(h2) + "}"@),
            );
            lemma_strip_prefix(",\"tx_hash\":"@, quoted(h1) + "}"@, quoted(h2) + "}"@);
            lemma_quoted_prefix_free(h1, h2, "}"@, "}"@);
        },
        MessageView::SwapRequest { direction: d1, amount: am1 } => {
            assert(m2 is SwapRequest);
            let d2 = m2->SwapRequest_direction;
            let am2 = m2->SwapRequest_amount;
            lemma_strip_prefix(
                "{\"type\":\"SwapRequest\",\"direction\":"@,
                quoted(d1) + (",\"amount\":"@ + (quoted(am1) + "}"@)),
                quoted(d2) + (",\"amount\":"@ + (quoted(am2) + "}"@)),
            );
            lemma_quoted_prefix_free(
                d1,
                d2,
                ",\"amount\":"@ + (quoted(am1) + "}"@),
                ",\"amount\":"@ + (quoted(am2) + "}"@),
            );
            lemma_strip_prefix(",\"amount\":"@, quoted(am1) + "}"@, quoted(am2) + "}"@);
            lemma_quoted_prefix_free(am1, am2, "}"@, "}"@);
        },
    }
}

/// Law: the wire form's discriminant member spells the variant's name.
pub proof fn lemma_encode_discriminant(m: MessageView)
    ensures
        m is Chat ==> spec_encode(m).subrange(0, 14) == "{\"type\":\"Chat\""@,
        m is SwapExecuted ==> spec_encode(m).subrange(0, 22) == "{\"type\":\"SwapExecuted\""@,
        m is SwapRequest ==> spec_encode(m).subrange(0, 21) == "{\"type\":\"SwapRequest\""@,
{
    reveal_strlit("{\"type\":\"Chat\",\"content\":");
    reveal_strlit("{\"type\":\"SwapExecuted\",\"agent\":");
    reveal_strlit("{\"type\":\"SwapRequest\",\"direction\":");
    reveal_strlit("{\"type\":\"Chat\"");
    reveal_strlit("{\"type\":\"SwapExecuted\"");
    reveal_strlit("{\"type\":\"SwapRequest\"");
    match m {
        MessageView::Chat { content } => {
            assert(spec_encode(m).subrange(0, 14) =~= "{\"type\":\"Chat\""@);
        },
        MessageView::SwapExecuted { agent, direction, amount, tx_hash } => {
            assert(spec_encode(m).subrange(0, 22) =~= "{\"type\":\"SwapExecuted\""@);
        },
        MessageView::SwapRequest { direction, amount } => {
            assert(spec_encode(m).subrange(0, 21) =~= "{\"type\":\"SwapRequest\""@);
        },
    }
}

/// Appends the canonical quoted form of `s` to `out`.
fn append_quoted(out: &mut String, s: &str)
    ensures
        final(out)@ == old(out)@ + quoted(s@),
{
    push_char(out, '"');
    let v = chars_of(s);
    let n = v.len();
    let mut i: usize = 0;
    while i < n
        invariant
            i <= n,
            n == s@.len(),
            v@ == s@,
            out@ == old(out)@ + seq!['"'] + escape(s@.take(i as int)),
        decreases n - i,
    {
        let ghost out0 = out@;
        let c = v[i];
        let cv = c as u32;
        if cv < 0x20 || c == '"' || c == '\\' {
            push_char(out, '\\');
            push_char(out, 'u');
            push_char(out, '0');
            push_char(out, '0');
            push_char(out, hex_digit_char(cv / 16));
            push_char(out, hex_digit_char(cv % 16));
            proof {
                assert(out@ =~= out0 + esc_char(c));
            }
        } else {
            push_char(out, c);
            proof {
                assert(out@ =~= out0 + esc_char(c));
            }
        }
        proof {
            assert(s@.take(i as int + 1) =~= s@.take(i as int).push(s@[i as int]));
            lemma_escape_snoc(s@.take(i as int), s@[i as int]);
            assert(out@ =~= old(out)@ + seq!['"'] + escape(s@.take(i as int + 1)));
        }
        i += 1;
    }
    push_char(out, '"');
    proof {
        assert(s@.take(n as int) =~= s@);
        assert(out@ =~= old(out)@ + quoted(s@));
    }
}

/// Encodes a message into its canonical wire form.
pub fn encode(m: &AgentMessage) -> (s: String)
    ensures
        s@ == spec_encode(m@),
{
    let mut out = String::new();
    match m {
        AgentMessage::Chat { content } => {
            out.append("{\"type\":\"Chat\",\"content\":");
            append_quoted(&mut out, content.as_str());
            out.append("}");
            proof {
                assert(out@ =~= enc_chat(content@));
            }
        },
        AgentMessage::SwapExecuted { agent, direction, amount, tx_hash } => {
            out.append("{\"type\":\"SwapExecuted\",\"agent\":");
            append_quoted(&mut out, agent.as_str());
            out.append(",\"direction\":");
            append_quoted(&mut out, direction.as_str());
            out.append(",\"amount\":");
            append_quoted(&mut out, amount.as_str());
            out.append(",\"tx_hash\":");
            append_quoted(&mut out, tx_hash.as_str());
            out.append("}");
            proof {
                assert(out@ =~= enc_swap_executed(agent@, direction@, amount@, tx_hash@));
            }
        },
        AgentMessage::SwapRequest { direction, amount } => {
            out.append("{\"type\":\"SwapRequest\",\"direction\":");
            append_quoted(&mut out, direction.as_str());
            out.append(",\"amount\":");
            append_quoted(&mut out, amount.as_str());
            out.append("}");
            proof {
                assert(out@ =~= enc_swap_request(direction@, amount@));
            }
        },
    }
    out
}

/// A literal stands at a given position of a stream.
pub open spec fn has_lit_at(w: Seq<char>, pos: int, lit: Seq<char>) -> bool {
    pos + lit.len() <= w.len() && w.subrange(pos, pos + lit.len()) == lit
}

/// The suffix of `w` at `pos` opens with the quoted form of `t`.
pub open spec fn qdecomp(w: Seq<char>, pos: int, t: Seq<char>, rest: Seq<char>) -> bool {
    w.subrange(pos, w.len() as int) == quoted(t) + rest
}

/// Checks for an exact literal at a position.
fn expect_lit(v: &Vec<char>, pos: usize, lit: &str) -> (r: Option<usize>)
    requires
        pos <= v@.len(),
    ensures
        r matches Some(j) ==> j == pos + lit@.len() && j <= v@.len() && v@.subrange(
            pos as int,
            j as int,
        ) == lit@,
        r is None ==> !has_lit_at(v@, pos as int, lit@),
{
    let w = chars_of(lit);
    let k = w.len();
    let nv = v.len();
    if nv - pos < k {
        return None;
    }
    let mut i: usize = 0;
    while i < k
        invariant
            i <= k,
            k == lit@.len(),
            w@ == lit@,
            pos + k <= nv,
            nv == v@.len(),
            forall|j: int| 0 <= j < i ==> v@[pos + j] == lit@[j],
        decreases k - i,
    {
        if v[pos + i] != w[i] {
            proof {
                assert(!has_lit_at(v@, pos as int, lit@)) by {
                    if has_lit_at(v@, pos as int, lit@) {
                        let li = i as int;
                        assert(v@.subrange(pos as int, pos + lit@.len())[li] == lit@[li]);
                    }
                }
            }
            return None;
        }
        i += 1;
    }
    proof {
        assert(v@.subrange(pos as int, (pos + k) as int) =~= lit@);
    }
    Some(pos + k)
}

/// Relates a scanner state to every possible quoted decomposition: the
/// decoded prefix agrees with any string whose quoted form opens the suffix.
proof fn lemma_qstr_at(w: Seq<char>, pos: int, i: int, out: Seq<char>, t: Seq<char>, rest: Seq<char>)
    requires
        0 <= pos,
        pos + 1 <= i <= w.len(),
        qdecomp(w, pos, t, rest),
        w.subrange(pos + 1, i) == escape(out),
        out.len() <= t.len(),
        t.take(out.len() as int) == out,
    ensures
        ({
            let u = t.skip(out.len() as int);
            &&& (u.len() == 0 ==> i < w.len() && w[i] == '"')
            &&& (u.len() > 0 && !is_escaped_char(u[0]) ==> i < w.len() && w[i] == u[0] && u[0]
                == t[out.len() as int] && u[0] != '"' && u[0] != '\\')
            &&& (u.len() > 0 && is_escaped_char(u[0]) ==> i + 6 < w.len() && w[i] == '\\' && w[i
                + 1] == 'u' && w[i + 2] == '0' && w[i + 3] == '0' && w[i + 4] == hex_digit(
                (u[0] as u32) as int / 16,
            ) && w[i + 5] == hex_digit((u[0] as u32) as int % 16) && u[0] == t[out.len() as int])
        }),
{
    let n = w.len() as int;
    let k = out.len() as int;
    let u = t.skip(k);
    assert(t =~= t.take(k) + u);
    lemma_escape_app(t.take(k), u);
    let z = escape(u) + seq!['"'] + rest;
    lemma_escape_head(u, rest);
    assert(w.subrange(pos, n) =~= (seq!['"'] + escape(out)) + z);
    assert(n - pos == 1 + escape(out).len() + z.len());
    assert(escape(out).len() == i - pos - 1);
    assert(n - i == z.len());
    assert forall|j: int| 0 <= j < z.len() implies w[i + j] == z[j] by {
        assert(w.subrange(pos, n)[i - pos + j] == z[j]);
        assert(w.subrange(pos, n)[i - pos + j] == w[pos + (i - pos + j)]);
    }
    if u.len() > 0 {
        assert(u[0] == t[k]);
    }
}

/// Scans one canonical quoted string starting at `pos`. Returns the decoded
/// string and the position just past the closing quote; returns nothing
/// exactly when no quoted string opens the suffix there.
fn parse_qstr(v: &Vec<char>, pos: usize) -> (r: Option<(String, usize)>)
    requires
        pos <= v@.len(),
    ensures
        r matches Some(p) ==> pos < p.1 <= v@.len() && v@.subrange(pos as int, p.1 as int)
            == quoted(p.0@),
        r is None ==> forall|t: Seq<char>, rest: Seq<char>| !qdecomp(v@, pos as int, t, rest),
{
    let ghost w = v@;
    let n = v.len();
    if pos == n {
        proof {
            assert forall|t: Seq<char>, rest: Seq<char>| !qdecomp(w, pos as int, t, rest) by {
                if qdecomp(w, pos as int, t, rest) {
                    assert((quoted(t) + rest).len() >= 2);
                    assert(w.subrange(pos as int, n as int).len() == 0);
                }
            }
        }
        return None;
    }
    if v[pos] != '"' {
        proof {
            assert forall|t: Seq<char>, rest: Seq<char>| !qdecomp(w, pos as int, t, rest) by {
                if qdecomp(w, pos as int, t, rest) {
                    assert(w.subrange(pos as int, n as int)[0] == w[pos as int]);
                    assert((quoted(t) + rest)[0] == '"');
                }
            }
        }
        return None;
    }
    let mut out = String::new();
    let mut i: usize = pos + 1;
    while i < n
        invariant
            pos + 1 <= i <= n,
            n == w.len(),
            w == v@,
            pos < n,
            w[pos as int] == '"',
            w.subrange(pos as int + 1, i as int) == escape(out@),
            forall|t: Seq<char>, rest: Seq<char>|
                qdecomp(w, pos as int, t, rest) ==> out@.len() <= t.len() && t.take(
                    out@.len() as int,
                ) == out@,
        decreases n - i,
    {
        let ghost out0 = out@;
        let c = v[i];
        if c == '"' {
            proof {
                assert(w.subrange(pos as int, i as int + 1) =~= quoted(out@));
            }
            return Some((out, i + 1));
        }
        let cv = c as u32;
        if cv >= 0x20 && c != '\\' {
            // a bare character, legal unescaped
            push_char(&mut out, c);
            proof {
                lemma_escape_snoc(out0, c);
                assert(w.subrange(pos as int + 1, i as int + 1) =~= escape(out0) + esc_char(c));
                assert forall|t: Seq<char>, rest: Seq<char>|
                    qdecomp(w, pos as int, t, rest) implies out@.len() <= t.len() && t.take(
                    out@.len() as int,
                ) == out@ by {
                    lemma_qstr_at(w, pos as int, i as int, out0, t, rest);
                    let u = t.skip(out0.len() as int);
                    assert(u.len() > 0 && !is_escaped_char(u[0]));
                    assert(t.take(out0.len() as int + 1) =~= t.take(out0.len() as int).push(
                        t[out0.len() as int],
                    ));
                }
            }
            i += 1;
        } else if c == '\\' {
            // a canonical \u00xy escape
            if n - i < 6 {
                proof {
                    assert forall|t: Seq<char>, rest: Seq<char>|
                        !qdecomp(w, pos as int, t, rest) by {
                        if qdecomp(w, pos as int, t, rest) {
                            lemma_qstr_at(w, pos as int, i as int, out0, t, rest);
                        }
                    }
                }
                return None;
            }
            let ok_head = v[i + 1] == 'u' && v[i + 2] == '0' && v[i + 3] == '0';
            let d1 = unhex(v[i + 4]);
            let d2 = unhex(v[i + 5]);
            if !ok_head || d1.is_none() || d2.is_none() {
                proof {
                    assert forall|t: Seq<char>, rest: Seq<char>|
                        !qdecomp(w, pos as int, t, rest) by {
                        if qdecomp(w, pos as int, t, rest) {
                            lemma_qstr_at(w, pos as int, i as int, out0, t, rest);
                            let u = t.skip(out0.len() as int);
                            assert(u.len() > 0 && is_escaped_char(u[0]));
                            assert((u[0] as u32) as int / 16 < 16);
                            assert((u[0] as u32) as int % 16 < 16);
                        }
                    }
                }
                return None;
            }
            let h1 = d1.unwrap();
            let h2 = d2.unwrap();
            let val: u32 = h1 * 16 + h2;
            if !(val < 0x20 || val == 0x22 || val == 0x5c) {
                proof {
                    assert forall|t: Seq<char>, rest: Seq<char>|
                        !qdecomp(w, pos as int, t, rest) by {
                        if qdecomp(w, pos as int, t, rest) {
                            lemma_qstr_at(w, pos as int, i as int, out0, t, rest);
                            let u = t.skip(out0.len() as int);
                            assert(u.len() > 0 && is_escaped_char(u[0]));
                            lemma_hex_digit_injective((u[0] as u32) as int / 16, h1 as int);
                            lemma_hex_digit_injective((u[0] as u32) as int % 16, h2 as int);
                            assert(u[0] as u32 == val);
                        }
                    }
                }
                return None;
            }
            let c2 = (val as u8) as char;
            push_char(&mut out, c2);
            proof {
                assert(c2 as u32 == val);
                assert(is_escaped_char(c2));
                lemma_escape_snoc(out0, c2);
                assert(esc_char(c2) =~= seq![
                    '\\',
                    'u',
                    '0',
                    '0',
                    hex_digit(h1 as int),
                    hex_digit(h2 as int),
                ]);
                assert(w.subrange(pos as int + 1, i as int + 6) =~= escape(out0) + esc_char(c2));
                assert forall|t: Seq<char>, rest: Seq<char>|
                    qdecomp(w, pos as int, t, rest) implies out@.len() <= t.len() && t.take(
                    out@.len() as int,
                ) == out@ by {
                    lemma_qstr_at(w, pos as int, i as int, out0, t, rest);
                    let u = t.skip(out0.len() as int);
                    assert(u.len() > 0 && is_escaped_char(u[0]));
                    lemma_hex_digit_injective((u[0] as u32) as int / 16, h1 as int);
                    lemma_hex_digit_injective((u[0] as u32) as int % 16, h2 as int);
                    assert(u[0] as u32 == val);
                    lemma_char_eq(u[0], c2);
                    assert(t.take(out0.len() as int + 1) =~= t.take(out0.len() as int).push(
                        t[out0.len() as int],
                    ));
                }
            }
            i += 6;
        } else {
            // a bare control character is never canonical
            proof {
                assert forall|t: Seq<char>, rest: Seq<char>| !qdecomp(w, pos as int, t, rest) by {
                    if qdecomp(w, pos as int, t, rest) {
                        lemma_qstr_at(w, pos as int, i as int, out0, t, rest);
                        let u = t.skip(out0.len() as int);
                        if u.len() > 0 && !is_escaped_char(u[0]) {
                            assert(w[i as int] as u32 >= 0x20);
                        }
                    }
                }
            }
            return None;
        }
    }
    // the closing quote never came
    proof {
        assert forall|t: Seq<char>, rest: Seq<char>| !qdecomp(w, pos as int, t, rest) by {
            if qdecomp(w, pos as int, t, rest) {
                lemma_qstr_at(w, pos as int, i as int, out@, t, rest);
            }
        }
    }
    None
}

/// With a quoted segment scanned at `p..j`, any decomposition of the suffix
/// at `p` is determined: its string is the scanned one and its remainder
/// stands at `j`.
proof fn lemma_qstr_determined(w: Seq<char>, p: int, j: int, t: Seq<char>, f: Seq<char>, b: Seq<char>)
    requires
        0 <= p <= j <= w.len(),
        w.subrange(p, j) == quoted(t),
        w.subrange(p, w.len() as int) == quoted(f) + b,
    ensures
        t == f,
        w.subrange(j, w.len() as int) == b,
{
    lemma_split_at(w, p, j);
    lemma_quoted_prefix_free(t, f, w.subrange(j, w.len() as int), b);
}

/// Positions of the pieces of a chat wire form.
proof fn lemma_chat_decomp(w: Seq<char>, c: Seq<char>)
    requires
        w == enc_chat(c),
    ensures
        has_lit_at(w, 0, "{\"type\":\"Chat\",\"content\":"@),
        qdecomp(w, "{\"type\":\"Chat\",\"content\":"@.len() as int, c, "}"@),
{
    assert(w.subrange(0, w.len() as int) =~= w);
    lemma_tail_chop(w, 0, "{\"type\":\"Chat\",\"content\":"@, quoted(c) + "}"@);
}

/// Positions of the pieces of a swap-executed wire form.
proof fn lemma_se_decomp(w: Seq<char>, a: Seq<char>, d: Seq<char>, am: Seq<char>, h: Seq<char>)
    requires
        w == enc_swap_executed(a, d, am, h),
    ensures
        has_lit_at(w, 0, "{\"type\":\"SwapExecuted\",\"agent\":"@),
        qdecomp(
            w,
            "{\"type\":\"SwapExecuted\",\"agent\":"@.len() as int,
            a,
            ",\"direction\":"@ + (quoted(d) + (",\"amount\":"@ + (quoted(am) + (",\"tx_hash\":"@
                + (quoted(h) + "}"@))))),
        ),
{
    assert(w.subrange(0, w.len() as int) =~= w);
    lemma_tail_chop(
        w,
        0,
        "{\"type\":\"SwapExecuted\",\"agent\":"@,
        quoted(a) + (",\"direction\":"@ + (quoted(d) + (",\"amount\":"@ + (quoted(am) + (
        ",\"tx_hash\":"@ + (quoted(h) + "}"@)))))),
    );
}

/// Positions of the pieces of a swap-request wire form.
proof fn lemma_sr_decomp(w: Seq<char>, d: Seq<char>, am: Seq<char>)
    requires
        w == enc_swap_request(d, am),
    ensures
        has_lit_at(w, 0, "{\"type\":\"SwapRequest\",\"direction\":"@),
        qdecomp(
            w,
            "{\"type\":\"SwapRequest\",\"direction\":"@.len() as int,
            d,
            ",\"amount\":"@ + (quoted(am) + "}"@),
        ),
{
    assert(w.subrange(0, w.len() as int) =~= w);
    lemma_tail_chop(
        w,
        0,
        "{\"type\":\"SwapRequest\",\"direction\":"@,
        quoted(d) + (",\"amount\":"@ + (quoted(am) + "}"@)),
    );
}

/// A literal whose quoted-plus-remainder decomposition is known forces the
/// literal check after it: the remainder at `j` carries the next separator.
proof fn lemma_sep_next(w: Seq<char>, j: int, a: Seq<char>, b: Seq<char>)
    requires
        0 <= j <= w.len(),
        w.subrange(j, w.len() as int) == a + b,
    ensures
        has_lit_at(w, j, a),
        w.subrange(j + a.len(), w.len() as int) == b,
{
    lemma_tail_chop(w, j, a, b);
}

/// Decodes a canonical wire form. Strict: returns a message exactly when the
/// whole input is the encoding of one, and then that one message.
pub fn decode(s: &str) -> (r: Result<AgentMessage, DecodeError>)
    ensures
        r matches Ok(m) ==> s@ == spec_encode(m@),
        r matches Ok(m) ==> forall|mv: MessageView| s@ == spec_encode(mv) ==> mv == m@,
        r is Err ==> forall|mv: MessageView| s@ != spec_encode(mv),
{
    let v = chars_of(s);
    let n = v.len();
    let ghost w = s@;
    if let Some(p1) = expect_lit(&v, 0, "{\"type\":\"Chat\",\"content\":") {
        proof {
            reveal_strlit("{\"type\":\"Chat\",\"content\":");
        }
        match parse_qstr(&v, p1) {
            Some((content, p2)) => {
                let end_ok = match expect_lit(&v, p2, "}") {
                    Some(p3) => p3 == n,
                    None => false,
                };
                if end_ok {
                    proof {
                        assert(w =~= w.subrange(0, n as int));
                        lemma_split_at(w, 0, p1 as int);
                        lemma_split_at(w, p1 as int, p2 as int);
                        assert(w.subrange(p2 as int, n as int) =~= "}"@);
                        assert(w == enc_chat(content@));
                        assert forall|mv: MessageView| w == spec_encode(mv) implies mv
                            == (MessageView::Chat { content: content@ }) by {
                            lemma_encode_injective(mv, MessageView::Chat { content: content@ });
                        }
                    }
                    return Ok(AgentMessage::Chat { content });
                }
                proof {
                    assert forall|mv: MessageView| w != spec_encode(mv) by {
                        if w == spec_encode(mv) {
                            reveal_strlit("{\"type\":\"Chat\",\"content\":");
                            lemma_tag_chars(mv);
                            match mv {
                                MessageView::Chat { content: c } => {
                                    lemma_chat_decomp(w, c);
                                    lemma_qstr_determined(
                                        w,
                                        p1 as int,
                                        p2 as int,
                                        content@,
                                        c,
                                        "}"@,
                                    );
                                    assert(w.subrange(p2 as int, n as int) =~= "}"@
                                        + Seq::<char>::empty());
                                    lemma_sep_next(w, p2 as int, "}"@, Seq::<char>::empty());
                                },
                                _ => {
                                    assert(w[9] == w.subrange(0, p1 as int)[9]);
                                },
                            }
                        }
                    }
                }
                return Err(DecodeError::Malformed);
            },
            None => {
                proof {
                    assert forall|mv: MessageView| w != spec_encode(mv) by {
                        if w == spec_encode(mv) {
                            reveal_strlit("{\"type\":\"Chat\",\"content\":");
                            lemma_tag_chars(mv);
                            match mv {
                                MessageView::Chat { content: c } => {
                                    lemma_chat_decomp(w, c);
                                },
                                _ => {
                                    assert(w[9] == w.subrange(0, p1 as int)[9]);
                                },
                            }
                        }
                    }
                }
                return Err(DecodeError::Malformed);
            },
        }
    }
    if let Some(p1) = expect_lit(&v, 0, "{\"type\":\"SwapExecuted\",\"agent\":") {
        proof {
            reveal_strlit("{\"type\":\"SwapExecuted\",\"agent\":");
        }
        let r = decode_swap_executed_tail(&v, p1);
        proof {
            if r is Err {
                assert forall|mv: MessageView| w != spec_encode(mv) by {
                    if w == spec_encode(mv) {
                        reveal_strlit("{\"type\":\"SwapExecuted\",\"agent\":");
                        lemma_tag_chars(mv);
                        match mv {
                            MessageView::Chat { content: c } => {
                                lemma_chat_decomp(w, c);
                            },
                            MessageView::SwapExecuted { agent, direction, amount, tx_hash } => {
                                lemma_se_decomp(w, agent, direction, amount, tx_hash);
                            },
                            MessageView::SwapRequest { direction, amount } => {
                                assert(w[13] == w.subrange(0, p1 as int)[13]);
                            },
                        }
                    }
                }
            } else {
                let m = r->Ok_0;
                assert forall|mv: MessageView| w == spec_encode(mv) implies mv == m@ by {
                    lemma_encode_injective(mv, m@);
                }
            }
        }
        return r;
    }
    if let Some(p1) = expect_lit(&v, 0, "{\"type\":\"SwapRequest\",\"direction\":") {
        proof {
            reveal_strlit("{\"type\":\"SwapRequest\",\"direction\":");
        }
        let r = decode_swap_request_tail(&v, p1);
        proof {
            if r is Err {
                assert forall|mv: MessageView| w != spec_encode(mv) by {
                    if w == spec_encode(mv) {
                        lemma_tag_chars(mv);
                        match mv {
                            MessageView::Chat { content: c } => {
                                lemma_chat_decomp(w, c);
                            },
                            MessageView::SwapExecuted { agent, direction, amount, tx_hash } => {
                                lemma_se_decomp(w, agent, direction, amount, tx_hash);
                            },
                            MessageView::SwapRequest { direction, amount } => {
                                lemma_sr_decomp(w, direction, amount);
                            },
                        }
                    }
                }
            } else {
                let m = r->Ok_0;
                assert forall|mv: MessageView| w == spec_encode(mv) implies mv == m@ by {
                    lemma_encode_injective(mv, m@);
                }
            }
        }
        return r;
    }
    proof {
        assert forall|mv: MessageView| w != spec_encode(mv) by {
            if w == spec_encode(mv) {
                match mv {
                    MessageView::Chat { content: c } => {
                        lemma_chat_decomp(w, c);
                    },
                    MessageView::SwapExecuted { agent, direction, amount, tx_hash } => {
                        lemma_se_decomp(w, agent, direction, amount, tx_hash);
                    },
                    MessageView::SwapRequest { direction, amount } => {
                        lemma_sr_decomp(w, direction, amount);
                    },
                }
            }
        }
    }
    Err(DecodeError::Malformed)
}

/// Scans the four quoted fields of a swap-executed wire form after its
/// opening literal. Succeeds exactly on a whole, well-formed remainder.
fn decode_swap_executed_tail(v: &Vec<char>, p1: usize) -> (r: Result<AgentMessage, DecodeError>)
    requires
        p1 <= v@.len(),
        has_lit_at(v@, 0, "{\"type\":\"SwapExecuted\",\"agent\":"@),
        p1 == "{\"type\":\"SwapExecuted\",\"agent\":"@.len(),
    ensures
        r matches Ok(m) ==> v@ == spec_encode(m@) && m is SwapExecuted,
        r is Err ==> forall|a: Seq<char>, d: Seq<char>, am: Seq<char>, h: Seq<char>|
            v@ != #[trigger] enc_swap_executed(a, d, am, h),
{
    let ghost w = v@;
    let n = v.len();
    let ghost sep_d: Seq<char> = ",\"direction\":"@;
    let ghost sep_a: Seq<char> = ",\"amount\":"@;
    let ghost sep_h: Seq<char> = ",\"tx_hash\":"@;
    // each failure path must show that no field values fit the template
    if let Some((agent, p2)) = parse_qstr(v, p1) {
        if let Some(p3) = expect_lit(v, p2, ",\"direction\":") {
            if let Some((direction, p4)) = parse_qstr(v, p3) {
                if let Some(p5) = expect_lit(v, p4, ",\"amount\":") {
                    if let Some((amount, p6)) = parse_qstr(v, p5) {
                        if let Some(p7) = expect_lit(v, p6, ",\"tx_hash\":") {
                            if let Some((tx_hash, p8)) = parse_qstr(v, p7) {
                                let end_ok = match expect_lit(v, p8, "}") {
                                    Some(p9) => p9 == n,
                                    None => false,
                                };
                                if end_ok {
                                    proof {
                                        assert(w =~= w.subrange(0, n as int));
                                        lemma_split_at(w, 0, p1 as int);
                                        lemma_split_at(w, p1 as int, p2 as int);
                                        lemma_split_at(w, p2 as int, p3 as int);
                                        lemma_split_at(w, p3 as int, p4 as int);
                                        lemma_split_at(w, p4 as int, p5 as int);
                                        lemma_split_at(w, p5 as int, p6 as int);
                                        lemma_split_at(w, p6 as int, p7 as int);
                                        lemma_split_at(w, p7 as int, p8 as int);
                                        assert(w.subrange(p8 as int, n as int) =~= "}"@);
                                        assert(w == enc_swap_executed(
                                            agent@,
                                            direction@,
                                            amount@,
                                            tx_hash@,
                                        ));
                                    }
                                    return Ok(
                                        AgentMessage::SwapExecuted {
                                            agent,
                                            direction,
                                            amount,
                                            tx_hash,
                                        },
                                    );
                                }
                                proof {
                                    assert forall|a: Seq<char>, d: Seq<char>, am: Seq<char>, h: Seq<char>|
                                        w != #[trigger] enc_swap_executed(a, d, am, h) by {
                                        if w == enc_swap_executed(a, d, am, h) {
                                            lemma_se_decomp(w, a, d, am, h);
                                            lemma_qstr_determined(w, p1 as int, p2 as int, agent@, a, sep_d + (quoted(d) + (sep_a + (quoted(am) + (sep_h + (quoted(h) + ("}"@)))))));
                                            lemma_sep_next(w, p2 as int, sep_d, quoted(d) + (sep_a + (quoted(am) + (sep_h + (quoted(h) + ("}"@))))));
                                            lemma_qstr_determined(w, p3 as int, p4 as int, direction@, d, sep_a + (quoted(am) + (sep_h + (quoted(h) + ("}"@)))));
                                            lemma_sep_next(w, p4 as int, sep_a, quoted(am) + (sep_h + (quoted(h) + ("}"@))));
                                            lemma_qstr_determined(w, p5 as int, p6 as int, amount@, am, sep_h + (quoted(h) + ("}"@)));
                                            lemma_sep_next(w, p6 as int, sep_h, quoted(h) + ("}"@));
                                            lemma_qstr_determined(w, p7 as int, p8 as int, tx_hash@, h, "}"@);
                                            lemma_qstr_determined(w, p7 as int, p8 as int, tx_hash@, h, "}"@);
                                            assert(w.subrange(p8 as int, n as int) =~= "}"@ + Seq::<char>::empty());
                                            lemma_sep_next(w, p8 as int, "}"@, Seq::<char>::empty());
                                        }
                                    }
                                }
                                return Err(DecodeError::Malformed);
                            }
                            proof {
                                assert forall|a: Seq<char>, d: Seq<char>, am: Seq<char>, h: Seq<char>|
                                    w != #[trigger] enc_swap_executed(a, d, am, h) by {
                                    if w == enc_swap_executed(a, d, am, h) {
                                        lemma_se_decomp(w, a, d, am, h);
                                        lemma_qstr_determined(w, p1 as int, p2 as int, agent@, a, sep_d + (quoted(d) + (sep_a + (quoted(am) + (sep_h + (quoted(h) + ("}"@)))))));
                                        lemma_sep_next(w, p2 as int, sep_d, quoted(d) + (sep_a + (quoted(am) + (sep_h + (quoted(h) + ("}"@))))));
                                        lemma_qstr_determined(w, p3 as int, p4 as int, direction@, d, sep_a + (quoted(am) + (sep_h + (quoted(h) + ("}"@)))));
                                        lemma_sep_next(w, p4 as int, sep_a, quoted(am) + (sep_h + (quoted(h) + ("}"@))));
                                        lemma_qstr_determined(w, p5 as int, p6 as int, amount@, am, sep_h + (quoted(h) + ("}"@)));
                                        lemma_sep_next(w, p6 as int, sep_h, quoted(h) + ("}"@));
                                        assert(qdecomp(w, p7 as int, h, "}"@));
                                    }
                                }
                            }
                            return Err(DecodeError::Malformed);
                        }
                        proof {
                            assert forall|a: Seq<char>, d: Seq<char>, am: Seq<char>, h: Seq<char>|
                                w != #[trigger] enc_swap_executed(a, d, am, h) by {
                                if w == enc_swap_executed(a, d, am, h) {
                                    lemma_se_decomp(w, a, d, am, h);
                                    lemma_qstr_determined(w, p1 as int, p2 as int, agent@, a, sep_d + (quoted(d) + (sep_a + (quoted(am) + (sep_h + (quoted(h) + ("}"@)))))));
                                    lemma_sep_next(w, p2 as int, sep_d, quoted(d) + (sep_a + (quoted(am) + (sep_h + (quoted(h) + ("}"@))))));
                                    lemma_qstr_determined(w, p3 as int, p4 as int, direction@, d, sep_a + (quoted(am) + (sep_h + (quoted(h) + ("}"@)))));
                                    lemma_sep_next(w, p4 as int, sep_a, quoted(am) + (sep_h + (quoted(h) + ("}"@))));
                                    lemma_qstr_determined(w, p5 as int, p6 as int, amount@, am, sep_h + (quoted(h) + ("}"@)));
                                    lemma_sep_next(w, p6 as int, sep_h, quoted(h) + ("}"@));
                                }
                            }
                        }
                        return Err(DecodeError::Malformed);
                    }
                    proof {
                        assert forall|a: Seq<char>, d: Seq<char>, am: Seq<char>, h: Seq<char>|
                            w != #[trigger] enc_swap_executed(a, d, am, h) by {
                            if w == enc_swap_executed(a, d, am, h) {
                                lemma_se_decomp(w, a, d, am, h);
                                lemma_qstr_determined(w, p1 as int, p2 as int, agent@, a, sep_d + (quoted(d) + (sep_a + (quoted(am) + (sep_h + (quoted(h) + ("}"@)))))));
                                lemma_sep_next(w, p2 as int, sep_d, quoted(d) + (sep_a + (quoted(am) + (sep_h + (quoted(h) + ("}"@))))));
                                lemma_qstr_determined(w, p3 as int, p4 as int, direction@, d, sep_a + (quoted(am) + (sep_h + (quoted(h) + ("}"@)))));
                                lemma_sep_next(w, p4 as int, sep_a, quoted(am) + (sep_h + (quoted(h) + ("}"@))));
                                assert(qdecomp(w, p5 as int, am, sep_h + (quoted(h) + ("}"@))));
                            }
                        }
                    }
                    return Err(DecodeError::Malformed);
                }
                proof {
                    assert forall|a: Seq<char>, d: Seq<char>, am: Seq<char>, h: Seq<char>|
                        w != #[trigger] enc_swap_executed(a, d, am, h) by {
                        if w == enc_swap_executed(a, d, am, h) {
                            lemma_se_decomp(w, a, d, am, h);
                            lemma_qstr_determined(w, p1 as int, p2 as int, agent@, a, sep_d + (quoted(d) + (sep_a + (quoted(am) + (sep_h + (quoted(h) + ("}"@)))))));
                            lemma_sep_next(w, p2 as int, sep_d, quoted(d) + (sep_a + (quoted(am) + (sep_h + (quoted(h) + ("}"@))))));
                            lemma_qstr_determined(w, p3 as int, p4 as int, direction@, d, sep_a + (quoted(am) + (sep_h + (quoted(h) + ("}"@)))));
                            lemma_sep_next(w, p4 as int, sep_a, quoted(am) + (sep_h + (quoted(h) + ("}"@))));
                        }
                    }
                }
                return Err(DecodeError::Malformed);
            }
            proof {
                assert forall|a: Seq<char>, d: Seq<char>, am: Seq<char>, h: Seq<char>|
                    w != #[trigger] enc_swap_executed(a, d, am, h) by {
                    if w == enc_swap_executed(a, d, am, h) {
                        lemma_se_decomp(w, a, d, am, h);
                        lemma_qstr_determined(w, p1 as int, p2 as int, agent@, a, sep_d + (quoted(d) + (sep_a + (quoted(am) + (sep_h + (quoted(h) + ("}"@)))))));
                        lemma_sep_next(w, p2 as int, sep_d, quoted(d) + (sep_a + (quoted(am) + (sep_h + (quoted(h) + ("}"@))))));
                        assert(qdecomp(w, p3 as int, d, sep_a + (quoted(am) + (sep_h + (quoted(h) + ("}"@))))));
                    }
                }
            }
            return Err(DecodeError::Malformed);
        }
        proof {
            assert forall|a: Seq<char>, d: Seq<char>, am: Seq<char>, h: Seq<char>|
                w != #[trigger] enc_swap_executed(a, d, am, h) by {
                if w == enc_swap_executed(a, d, am, h) {
                    lemma_se_decomp(w, a, d, am, h);
                    lemma_qstr_determined(w, p1 as int, p2 as int, agent@, a, sep_d + (quoted(d) + (sep_a + (quoted(am) + (sep_h + (quoted(h) + ("}"@)))))));
                    lemma_sep_next(w, p2 as int, sep_d, quoted(d) + (sep_a + (quoted(am) + (sep_h + (quoted(h) + ("}"@))))));
                }
            }
        }
        return Err(DecodeError::Malformed);
    }
    proof {
        assert forall|a: Seq<char>, d: Seq<char>, am: Seq<char>, h: Seq<char>|
            w != #[trigger] enc_swap_executed(a, d, am, h) by {
            if w == enc_swap_executed(a, d, am, h) {
                lemma_se_decomp(w, a, d, am, h);
                assert(qdecomp(w, p1 as int, a, sep_d + (quoted(d) + (sep_a + (quoted(am) + (sep_h + (quoted(h) + ("}"@))))))));
            }
        }
    }
    Err(DecodeError::Malformed)
}

/// Scans the two quoted fields of a swap-request wire form after its opening
/// literal. Succeeds exactly on a whole, well-formed remainder.
fn decode_swap_request_tail(v: &Vec<char>, p1: usize) -> (r: Result<AgentMessage, DecodeError>)
    requires
        p1 <= v@.len(),
        has_lit_at(v@, 0, "{\"type\":\"SwapRequest\",\"direction\":"@),
        p1 == "{\"type\":\"SwapRequest\",\"direction\":"@.len(),
    ensures
        r matches Ok(m) ==> v@ == spec_encode(m@) && m is SwapRequest,
        r is Err ==> forall|d: Seq<char>, am: Seq<char>| v@ != #[trigger] enc_swap_request(d, am),
{
    let ghost w = v@;
    let n = v.len();
    let ghost sep_a: Seq<char> = ",\"amount\":"@;
    if let Some((direction, p2)) = parse_qstr(v, p1) {
        if let Some(p3) = expect_lit(v, p2, ",\"amount\":") {
            if let Some((amount, p4)) = parse_qstr(v, p3) {
                let end_ok = match expect_lit(v, p4, "}") {
                    Some(p5) => p5 == n,
                    None => false,
                };
                if end_ok {
                    proof {
                        assert(w =~= w.subrange(0, n as int));
                        lemma_split_at(w, 0, p1 as int);
                        lemma_split_at(w, p1 as int, p2 as int);
                        lemma_split_at(w, p2 as int, p3 as int);
                        lemma_split_at(w, p3 as int, p4 as int);
                        assert(w.subrange(p4 as int, n as int) =~= "}"@);
                        assert(w == enc_swap_request(direction@, amount@));
                    }
                    return Ok(AgentMessage::SwapRequest { direction, amount });
                }
                proof {
                    assert forall|d: Seq<char>, am: Seq<char>|
                        w != #[trigger] enc_swap_request(d, am) by {
                        if w == enc_swap_request(d, am) {
                            lemma_sr_decomp(w, d, am);
                            lemma_qstr_determined(w, p1 as int, p2 as int, direction@, d, sep_a + (quoted(am) + ("}"@)));
                            lemma_sep_next(w, p2 as int, sep_a, quoted(am) + ("}"@));
                            lemma_qstr_determined(w, p3 as int, p4 as int, amount@, am, "}"@);
                            assert(w.subrange(p4 as int, n as int) =~= "}"@ + Seq::<char>::empty());
                            lemma_sep_next(w, p4 as int, "}"@, Seq::<char>::empty());
                        }
                    }
                }
                return Err(DecodeError::Malformed);
            }
            proof {
                assert forall|d: Seq<char>, am: Seq<char>|
                    w != #[trigger] enc_swap_request(d, am) by {
                    if w == enc_swap_request(d, am) {
                        lemma_sr_decomp(w, d, am);
                        lemma_qstr_determined(w, p1 as int, p2 as int, direction@, d, sep_a + (quoted(am) + ("}"@)));
                        lemma_sep_next(w, p2 as int, sep_a, quoted(am) + ("}"@));
                        assert(qdecomp(w, p3 as int, am, "}"@));
                    }
                }
            }
            return Err(DecodeError::Malformed);
        }
        proof {
            assert forall|d: Seq<char>, am: Seq<char>|
                w != #[trigger] enc_swap_request(d, am) by {
                if w == enc_swap_request(d, am) {
                    lemma_sr_decomp(w, d, am);
                    lemma_qstr_determined(w, p1 as int, p2 as int, direction@, d, sep_a + (quoted(am) + ("}"@)));
                    lemma_sep_next(w, p2 as int, sep_a, quoted(am) + ("}"@));
                }
            }
        }
        return Err(DecodeError::Malformed);
    }
    proof {
        assert forall|d: Seq<char>, am: Seq<char>|
            w != #[trigger] enc_swap_request(d, am) by {
            if w == enc_swap_request(d, am) {
                lemma_sr_decomp(w, d, am);
                assert(qdecomp(w, p1 as int, d, sep_a + (quoted(am) + ("}"@))));
            }
        }
    }
    Err(DecodeError::Malformed)
}

} // verus!
