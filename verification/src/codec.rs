//! The wire format: a hand-rolled little-endian encoding of the session's
//! messages, with a verified round trip.
//!
//! Integers are fixed-width little-endian; byte strings and lists carry a
//! 64-bit length.  An envelope tag picks the message kind, in declaration
//! order.  Peers must run identical encodings to interoperate.

use vstd::prelude::*;

verus! {

use crate::Frame;
use crate::SerializedInput;
use crate::time::ClockMessage;
use crate::time::NetworkAnalysisMessage;
use crate::utils::Signed;

/// A datagram exchanged between peers.
#[derive(Debug, PartialEq, Eq, Clone)]
pub enum Message {
    /// A retransmission window of the sender's own inputs.
    Inputs(Vec<(Frame, SerializedInput)>),
    /// The frame just below the sender's unconfirmed horizon.
    Unconfirmed(Frame),
    /// Start-agreement and network-probe traffic.
    Clock(ClockMessage),
    /// An opaque payload addressed to the named plugin.
    Plugin(Vec<u8>, Vec<u8>),
}

/// The four little-endian bytes of a 32-bit integer.
pub open spec fn u32le(v: u32) -> Seq<u8> {
    seq![
        (v % 256) as u8,
        ((v / 256) % 256) as u8,
        ((v / 65536) % 256) as u8,
        (v / 16777216) as u8,
    ]
}

/// The eight little-endian bytes of a 64-bit integer.
pub open spec fn u64le(v: u64) -> Seq<u8> {
    seq![
        (v % 256) as u8,
        ((v / 256) % 256) as u8,
        ((v / 65536) % 256) as u8,
        ((v / 16777216) % 256) as u8,
        ((v / 0x1_0000_0000) % 256) as u8,
        ((v / 0x100_0000_0000) % 256) as u8,
        ((v / 0x1_0000_0000_0000) % 256) as u8,
        (v / 0x100_0000_0000_0000) as u8,
    ]
}

/// A length-prefixed byte string.
pub open spec fn bytes_enc(b: Seq<u8>) -> Seq<u8> {
    u64le(b.len() as u64) + b
}

/// One (frame, input) entry.
pub open spec fn entry_enc(e: (Frame, SerializedInput)) -> Seq<u8> {
    u32le(e.0) + bytes_enc(e.1@)
}

/// A list of entries, without its length prefix.
pub open spec fn entries_enc(es: Seq<(Frame, SerializedInput)>) -> Seq<u8>
    decreases es.len(),
{
    if es.len() == 0 {
        Seq::empty()
    } else {
        entry_enc(es[0]) + entries_enc(es.skip(1))
    }
}

/// A signed duration: direction tag, then magnitude.
pub open spec fn signed_enc(s: Signed) -> Seq<u8> {
    match s {
        Signed::Pos(t) => u32le(0) + u64le(t),
        Signed::Neg(t) => u32le(1) + u64le(t),
    }
}

/// A network probe or echo.
pub open spec fn na_enc(m: NetworkAnalysisMessage) -> Seq<u8> {
    match m {
        NetworkAnalysisMessage::Ping(id) => u32le(0) + u64le(id),
        NetworkAnalysisMessage::Pong(id, d) => u32le(1) + u64le(id) + u64le(d),
    }
}

/// A clock message.
pub open spec fn clock_enc(m: ClockMessage) -> Seq<u8> {
    match m {
        ClockMessage::Elapsed(s) => u32le(0) + signed_enc(s),
        ClockMessage::NetworkAnalysis(n) => u32le(1) + na_enc(n),
    }
}

/// The full encoding of a message: envelope tag, then payload.
pub open spec fn msg_bytes(m: Message) -> Seq<u8> {
    match m {
        Message::Inputs(es) => u32le(0) + u64le(es@.len() as u64) + entries_enc(es@),
        Message::Unconfirmed(f) => u32le(1) + u32le(f),
        Message::Clock(c) => u32le(2) + clock_enc(c),
        Message::Plugin(id, data) => u32le(3) + bytes_enc(id@) + bytes_enc(data@),
    }
}

/// Appends the four little-endian bytes of `v`.
pub fn put_u32(out: &mut Vec<u8>, v: u32)
    ensures
        final(out)@ == old(out)@ + u32le(v),
{
    out.push((v % 256) as u8);
    out.push(((v / 256) % 256) as u8);
    out.push(((v / 65536) % 256) as u8);
    out.push((v / 16777216) as u8);
    proof {
        assert(final(out)@ =~= old(out)@ + u32le(v));
    }
}

/// Appends the eight little-endian bytes of `v`.
pub fn put_u64(out: &mut Vec<u8>, v: u64)
    ensures
        final(out)@ == old(out)@ + u64le(v),
{
    out.push((v % 256) as u8);
    out.push(((v / 256) % 256) as u8);
    out.push(((v / 65536) % 256) as u8);
    out.push(((v / 16777216) % 256) as u8);
    out.push(((v / 0x1_0000_0000) % 256) as u8);
    out.push(((v / 0x100_0000_0000) % 256) as u8);
    out.push(((v / 0x1_0000_0000_0000) % 256) as u8);
    out.push((v / 0x100_0000_0000_0000) as u8);
    proof {
        assert(final(out)@ =~= old(out)@ + u64le(v));
    }
}

/// Appends a length-prefixed byte string.
fn put_bytes(out: &mut Vec<u8>, b: &Vec<u8>)
    ensures
        final(out)@ == old(out)@ + bytes_enc(b@),
{
    put_u64(out, b.len() as u64);
    let mut i: usize = 0;
    let ghost mid = out@;
    while i < b.len()
        invariant
            i <= b@.len(),
            out@ == mid + b@.take(i as int),
        decreases b@.len() - i,
    {
        out.push(b[i]);
        proof {
            assert(out@ =~= mid + b@.take(i as int + 1));
        }
        i += 1;
    }
    proof {
        assert(b@.take(b@.len() as int) =~= b@);
        assert(final(out)@ =~= old(out)@ + bytes_enc(b@));
    }
}

/// Encodes a message to bytes.
pub fn encode_message(m: &Message) -> (r: Vec<u8>)
    ensures
        r@ == msg_bytes(*m),
{
    let mut out: Vec<u8> = Vec::new();
    match m {
        Message::Inputs(es) => {
            put_u32(&mut out, 0);
            put_u64(&mut out, es.len() as u64);
            let mut i: usize = 0;
            let ghost mid = out@;
            while i < es.len()
                invariant
                    i <= es@.len(),
                    out@ == mid + entries_enc(es@.take(i as int)),
                decreases es@.len() - i,
            {
                let ghost before = out@;
                put_u32(&mut out, es[i].0);
                put_bytes(&mut out, &es[i].1);
                proof {
                    assert(out@ == before + entry_enc(es@[i as int]));
                    lemma_entries_enc_snoc(es@.take(i as int + 1));
                    assert(es@.take(i as int + 1).drop_last() =~= es@.take(i as int));
                    assert(out@ =~= mid + entries_enc(es@.take(i as int + 1)));
                }
                i += 1;
            }
            proof {
                assert(es@.take(es@.len() as int) =~= es@);
                assert(out@ =~= msg_bytes(*m));
            }
        },
        Message::Unconfirmed(f) => {
            put_u32(&mut out, 1);
            put_u32(&mut out, *f);
            proof {
                assert(out@ =~= msg_bytes(*m));
            }
        },
        Message::Clock(c) => {
            put_u32(&mut out, 2);
            match c {
                ClockMessage::Elapsed(s) => {
                    put_u32(&mut out, 0);
                    match s {
                        Signed::Pos(t) => {
                            put_u32(&mut out, 0);
                            put_u64(&mut out, *t);
                        },
                        Signed::Neg(t) => {
                            put_u32(&mut out, 1);
                            put_u64(&mut out, *t);
                        },
                    }
                },
                ClockMessage::NetworkAnalysis(n) => {
                    put_u32(&mut out, 1);
                    match n {
                        NetworkAnalysisMessage::Ping(id) => {
                            put_u32(&mut out, 0);
                            put_u64(&mut out, *id);
                        },
                        NetworkAnalysisMessage::Pong(id, d) => {
                            put_u32(&mut out, 1);
                            put_u64(&mut out, *id);
                            put_u64(&mut out, *d);
                        },
                    }
                },
            }
            proof {
                assert(out@ =~= msg_bytes(*m));
            }
        },
        Message::Plugin(id, data) => {
            put_u32(&mut out, 3);
            put_bytes(&mut out, id);
            put_bytes(&mut out, data);
            proof {
                assert(out@ =~= msg_bytes(*m));
            }
        },
    }
    out
}

/// A list's encoding grows at the tail, one entry at a time.
pub proof fn lemma_entries_enc_snoc(es: Seq<(Frame, SerializedInput)>)
    requires
        es.len() > 0,
    ensures
        entries_enc(es) == entries_enc(es.drop_last()) + entry_enc(es.last()),
    decreases es.len(),
{
    if es.len() == 1 {
        assert(entries_enc(es.skip(1)) =~= Seq::<u8>::empty());
        assert(entries_enc(es.drop_last()) =~= Seq::<u8>::empty());
        assert(entries_enc(es) =~= entries_enc(es.drop_last()) + entry_enc(es.last()));
    } else {
        let tl = es.skip(1);
        lemma_entries_enc_snoc(tl);
        assert(tl.drop_last() =~= es.drop_last().skip(1));
        assert(tl.last() == es.last());
        assert(entries_enc(es) =~= entries_enc(es.drop_last()) + entry_enc(es.last()));
    }
}

/// A parsed message at the specification level, byte strings as sequences.
pub enum MessageV {
    Inputs(Seq<(u32, Seq<u8>)>),
    Unconfirmed(u32),
    Clock(ClockMessage),
    Plugin(Seq<u8>, Seq<u8>),
}

/// The view of a message: every byte buffer replaced by its sequence.
pub open spec fn view_msg(m: Message) -> MessageV {
    match m {
        Message::Inputs(es) => MessageV::Inputs(
            es@.map_values(|e: (Frame, SerializedInput)| (e.0, e.1@)),
        ),
        Message::Unconfirmed(f) => MessageV::Unconfirmed(f),
        Message::Clock(c) => MessageV::Clock(c),
        Message::Plugin(id, data) => MessageV::Plugin(id@, data@),
    }
}

/// Reads four little-endian bytes at `p`.
pub open spec fn parse_u32(s: Seq<u8>, p: int) -> Option<(u32, int)> {
    if 0 <= p && p + 4 <= s.len() {
        Some(((s[p] + 256 * (s[p + 1] + 256 * (s[p + 2] + 256 * s[p + 3]))) as u32, p + 4))
    } else {
        None
    }
}

/// Reads eight little-endian bytes at `p`.
pub open spec fn parse_u64(s: Seq<u8>, p: int) -> Option<(u64, int)> {
    if 0 <= p && p + 8 <= s.len() {
        Some(
            (
                (s[p] + 256 * (s[p + 1] + 256 * (s[p + 2] + 256 * (s[p + 3] + 256 * (s[p + 4]
                    + 256 * (s[p + 5] + 256 * (s[p + 6] + 256 * s[p + 7]))))))) as u64,
                p + 8,
            ),
        )
    } else {
        None
    }
}

/// Reads a length-prefixed byte string at `p`.
pub open spec fn parse_bytes(s: Seq<u8>, p: int) -> Option<(Seq<u8>, int)> {
    match parse_u64(s, p) {
        None => None,
        Some((len, p1)) => if p1 + len <= s.len() {
            Some((s.subrange(p1, p1 + len), p1 + len))
        } else {
            None
        },
    }
}

/// Reads `count` (frame, input) entries at `p`.
pub open spec fn parse_entries(s: Seq<u8>, p: int, count: int) -> Option<
    (Seq<(u32, Seq<u8>)>, int),
>
    decreases count,
{
    if count <= 0 {
        Some((Seq::empty(), p))
    } else {
        match parse_u32(s, p) {
            None => None,
            Some((f, p1)) => match parse_bytes(s, p1) {
                None => None,
                Some((b, p2)) => match parse_entries(s, p2, count - 1) {
                    None => None,
                    Some((rest, p3)) => Some((seq![(f, b)] + rest, p3)),
                },
            },
        }
    }
}

/// Reads a signed duration at `p`.
pub open spec fn parse_signed(s: Seq<u8>, p: int) -> Option<(Signed, int)> {
    match parse_u32(s, p) {
        None => None,
        Some((tag, p1)) => match parse_u64(s, p1) {
            None => None,
            Some((t, p2)) => if tag == 0 {
                Some((Signed::Pos(t), p2))
            } else if tag == 1 {
                Some((Signed::Neg(t), p2))
            } else {
                None
            },
        },
    }
}

/// Reads a probe or echo at `p`.
pub open spec fn parse_na(s: Seq<u8>, p: int) -> Option<(NetworkAnalysisMessage, int)> {
    match parse_u32(s, p) {
        None => None,
        Some((tag, p1)) => if tag == 0 {
            match parse_u64(s, p1) {
                None => None,
                Some((id, p2)) => Some((NetworkAnalysisMessage::Ping(id), p2)),
            }
        } else if tag == 1 {
            match parse_u64(s, p1) {
                None => None,
                Some((id, p2)) => match parse_u64(s, p2) {
                    None => None,
                    Some((d, p3)) => Some((NetworkAnalysisMessage::Pong(id, d), p3)),
                },
            }
        } else {
            None
        },
    }
}

/// Reads a clock message at `p`.
pub open spec fn parse_clock(s: Seq<u8>, p: int) -> Option<(ClockMessage, int)> {
    match parse_u32(s, p) {
        None => None,
        Some((tag, p1)) => if tag == 0 {
            match parse_signed(s, p1) {
                None => None,
                Some((sg, p2)) => Some((ClockMessage::Elapsed(sg), p2)),
            }
        } else if tag == 1 {
            match parse_na(s, p1) {
                None => None,
                Some((n, p2)) => Some((ClockMessage::NetworkAnalysis(n), p2)),
            }
        } else {
            None
        },
    }
}

/// Parses a whole datagram.  Succeeds only when every byte is consumed.
pub open spec fn parse_message(s: Seq<u8>) -> Option<MessageV> {
    match parse_u32(s, 0) {
        None => None,
        Some((tag, p1)) => if tag == 0 {
            match parse_u64(s, p1) {
                None => None,
                Some((count, p2)) => match parse_entries(s, p2, count as int) {
                    None => None,
                    Some((es, p3)) => if p3 == s.len() {
                        Some(MessageV::Inputs(es))
                    } else {
                        None
                    },
                },
            }
        } else if tag == 1 {
            match parse_u32(s, p1) {
                None => None,
                Some((f, p2)) => if p2 == s.len() {
                    Some(MessageV::Unconfirmed(f))
                } else {
                    None
                },
            }
        } else if tag == 2 {
            match parse_clock(s, p1) {
                None => None,
                Some((c, p2)) => if p2 == s.len() {
                    Some(MessageV::Clock(c))
                } else {
                    None
                },
            }
        } else if tag == 3 {
            match parse_bytes(s, p1) {
                None => None,
                Some((id, p2)) => match parse_bytes(s, p2) {
                    None => None,
                    Some((data, p3)) => if p3 == s.len() {
                        Some(MessageV::Plugin(id, data))
                    } else {
                        None
                    },
                },
            }
        } else {
            None
        },
    }
}

/// The little-endian bytes of a 32-bit integer reassemble to it.
proof fn lemma_u32_reassemble(v: u32)
    ensures
        (v % 256) + 256 * ((v / 256) % 256 + 256 * ((v / 65536) % 256 + 256 * (v / 16777216)))
            == v,
{
    assert((v % 256) + 256 * ((v / 256) % 256 + 256 * ((v / 65536) % 256 + 256 * (v
        / 16777216))) == v) by (bit_vector);
}

/// The little-endian bytes of a 64-bit integer reassemble to it.
proof fn lemma_u64_reassemble(v: u64)
    ensures
        (v % 256) + 256 * ((v / 256) % 256 + 256 * ((v / 65536) % 256 + 256 * ((v / 16777216)
            % 256 + 256 * ((v / 0x1_0000_0000) % 256 + 256 * ((v / 0x100_0000_0000) % 256 + 256
            * ((v / 0x1_0000_0000_0000) % 256 + 256 * (v / 0x100_0000_0000_0000))))))) == v,
{
    assert((v % 256) + 256 * ((v / 256) % 256 + 256 * ((v / 65536) % 256 + 256 * ((v / 16777216)
        % 256 + 256 * ((v / 0x1_0000_0000) % 256 + 256 * ((v / 0x100_0000_0000) % 256 + 256 * ((v
        / 0x1_0000_0000_0000) % 256 + 256 * (v / 0x100_0000_0000_0000))))))) == v)
        by (bit_vector);
}

/// Parsing four bytes that encode `v` yields `v`.
pub proof fn lemma_parse_u32_enc(s: Seq<u8>, p: int, v: u32)
    requires
        0 <= p,
        p + 4 <= s.len(),
        s.subrange(p, p + 4) == u32le(v),
    ensures
        parse_u32(s, p) == Some((v, p + 4)),
{
    assert(s[p] == u32le(v)[0] && s[p + 1] == u32le(v)[1] && s[p + 2] == u32le(v)[2] && s[p + 3]
        == u32le(v)[3]) by {
        assert(s.subrange(p, p + 4)[0] == s[p]);
        assert(s.subrange(p, p + 4)[1] == s[p + 1]);
        assert(s.subrange(p, p + 4)[2] == s[p + 2]);
        assert(s.subrange(p, p + 4)[3] == s[p + 3]);
    }
    lemma_u32_reassemble(v);
}

/// Parsing eight bytes that encode `v` yields `v`.
pub proof fn lemma_parse_u64_enc(s: Seq<u8>, p: int, v: u64)
    requires
        0 <= p,
        p + 8 <= s.len(),
        s.subrange(p, p + 8) == u64le(v),
    ensures
        parse_u64(s, p) == Some((v, p + 8)),
{
    assert forall|k: int| 0 <= k < 8 implies s[p + k] == u64le(v)[k] by {
        assert(s.subrange(p, p + 8)[k] == s[p + k]);
    }
    lemma_u64_reassemble(v);
}

/// Parsing a length-prefixed byte string that encodes `b` yields `b`.
pub proof fn lemma_parse_bytes_enc(s: Seq<u8>, p: int, b: Seq<u8>)
    requires
        0 <= p,
        b.len() <= u64::MAX,
        p + 8 + b.len() <= s.len(),
        s.subrange(p, p + 8 + b.len()) == bytes_enc(b),
    ensures
        parse_bytes(s, p) == Some((b, p + 8 + b.len())),
{
    let whole = s.subrange(p, p + 8 + b.len());
    assert(s.subrange(p, p + 8) =~= whole.subrange(0, 8));
    assert(whole.subrange(0, 8) =~= u64le(b.len() as u64));
    lemma_parse_u64_enc(s, p, b.len() as u64);
    assert(s.subrange(p + 8, p + 8 + b.len()) =~= whole.subrange(8int, 8 + b.len() as int));
    assert(whole.subrange(8int, 8 + b.len() as int) =~= b);
}

/// Parsing an encoded entry list embedded at `p` yields the entries' views
/// and stops right after them.
#[verifier::rlimit(100)]
proof fn lemma_parse_entries_enc(s: Seq<u8>, p: int, es: Seq<(Frame, SerializedInput)>)
    requires
        0 <= p,
        p + entries_enc(es).len() <= s.len(),
        s.subrange(p, p + entries_enc(es).len()) == entries_enc(es),
    ensures
        parse_entries(s, p, es.len() as int) == Some(
            (es.map_values(|e: (Frame, SerializedInput)| (e.0, e.1@)), p + entries_enc(es).len()),
        ),
    decreases es.len(),
{
    if es.len() == 0 {
        assert(es.map_values(|e: (Frame, SerializedInput)| (e.0, e.1@)) =~= Seq::<
            (u32, Seq<u8>),
        >::empty());
    } else {
        let e0 = es[0];
        assert(e0.1@.len() <= u64::MAX) by {
            vstd::std_specs::vec::axiom_spec_len(&e0.1);
        }
        let head = entry_enc(e0);
        let tail = entries_enc(es.skip(1));
        assert(entries_enc(es) == head + tail);
        let hl = head.len() as int;
        assert(hl == 12 + e0.1@.len());
        // The first entry sits at `p`.
        assert(s.subrange(p, p + 4) =~= u32le(e0.0)) by {
            assert forall|k: int| 0 <= k < 4 implies s.subrange(p, p + 4)[k] == u32le(e0.0)[k] by {
                assert(s[p + k] == s.subrange(p, p + entries_enc(es).len())[k]);
                assert((head + tail)[k] == head[k]);
            }
        }
        lemma_parse_u32_enc(s, p, e0.0);
        assert(s.subrange(p + 4, p + 4 + 8 + e0.1@.len()) =~= bytes_enc(e0.1@)) by {
            assert forall|k: int| 0 <= k < 8 + e0.1@.len() implies s.subrange(
                p + 4,
                p + 4 + 8 + e0.1@.len(),
            )[k] == bytes_enc(e0.1@)[k] by {
                assert(s[p + 4 + k] == s.subrange(p, p + entries_enc(es).len())[4 + k]);
                assert((head + tail)[4 + k] == head[4 + k]);
                assert(head[4 + k] == bytes_enc(e0.1@)[k]);
            }
        }
        lemma_parse_bytes_enc(s, p + 4, e0.1@);
        // The rest follows inductively.
        assert(s.subrange(p + hl, p + hl + tail.len()) =~= tail) by {
            assert forall|k: int| 0 <= k < tail.len() implies s.subrange(
                p + hl,
                p + hl + tail.len(),
            )[k] == tail[k] by {
                assert(s[p + hl + k] == s.subrange(p, p + entries_enc(es).len())[hl + k]);
                assert((head + tail)[hl + k] == tail[k]);
            }
        }
        lemma_parse_entries_enc(s, p + hl, es.skip(1));
        assert(parse_entries(s, p, es.len() as int) matches Some((got, _)) && got =~= es
            .map_values(|e: (Frame, SerializedInput)| (e.0, e.1@))) by {
            let tl_view = es.skip(1).map_values(|e: (Frame, SerializedInput)| (e.0, e.1@));
            let full_view = es.map_values(|e: (Frame, SerializedInput)| (e.0, e.1@));
            assert(full_view =~= seq![(e0.0, e0.1@)] + tl_view);
        }
    }
}

/// Serialisation round trip: parsing the encoding of any message yields that
/// message back.
pub proof fn lemma_msg_round_trip(m: Message)
    ensures
        parse_message(msg_bytes(m)) == Some(view_msg(m)),
{
    match m {
        Message::Inputs(es) => lemma_rt_inputs(es),
        Message::Unconfirmed(f) => lemma_rt_unconfirmed(f),
        Message::Clock(c) => lemma_rt_clock(c),
        Message::Plugin(id, data) => lemma_rt_plugin(id, data),
    }
}

#[verifier::spinoff_prover]
proof fn lemma_rt_inputs(es: Vec<(Frame, SerializedInput)>)
    ensures
        parse_message(msg_bytes(Message::Inputs(es))) == Some(view_msg(Message::Inputs(es))),
{
    let s = msg_bytes(Message::Inputs(es));
    let count = es@.len() as u64;
    vstd::std_specs::vec::axiom_spec_len(&es);
    assert(s == u32le(0) + u64le(count) + entries_enc(es@));
    assert(s.subrange(0, 4) =~= u32le(0u32));
    lemma_parse_u32_enc(s, 0, 0u32);
    assert(s.subrange(4, 12) =~= u64le(count));
    lemma_parse_u64_enc(s, 4, count);
    assert(s.subrange(12int, 12 + entries_enc(es@).len() as int) =~= entries_enc(es@));
    lemma_parse_entries_enc(s, 12, es@);
}

#[verifier::spinoff_prover]
proof fn lemma_rt_unconfirmed(f: Frame)
    ensures
        parse_message(msg_bytes(Message::Unconfirmed(f))) == Some(
            view_msg(Message::Unconfirmed(f)),
        ),
{
    let s = msg_bytes(Message::Unconfirmed(f));
    assert(s.subrange(0, 4) =~= u32le(1u32));
    lemma_parse_u32_enc(s, 0, 1u32);
    assert(s.subrange(4, 8) =~= u32le(f));
    lemma_parse_u32_enc(s, 4, f);
}

#[verifier::spinoff_prover]
#[verifier::rlimit(100)]
proof fn lemma_rt_clock(c: ClockMessage)
    ensures
        parse_message(msg_bytes(Message::Clock(c))) == Some(view_msg(Message::Clock(c))),
{
    let s = msg_bytes(Message::Clock(c));
    assert(s.subrange(0, 4) =~= u32le(2u32));
    lemma_parse_u32_enc(s, 0, 2u32);
    match c {
        ClockMessage::Elapsed(sg) => {
            assert(s.subrange(4, 8) =~= u32le(0u32));
            lemma_parse_u32_enc(s, 4, 0u32);
            match sg {
                Signed::Pos(t) => {
                    assert(s.subrange(8, 12) =~= u32le(0u32));
                    lemma_parse_u32_enc(s, 8, 0u32);
                    assert(s.subrange(12, 20) =~= u64le(t));
                    lemma_parse_u64_enc(s, 12, t);
                },
                Signed::Neg(t) => {
                    assert(s.subrange(8, 12) =~= u32le(1u32));
                    lemma_parse_u32_enc(s, 8, 1u32);
                    assert(s.subrange(12, 20) =~= u64le(t));
                    lemma_parse_u64_enc(s, 12, t);
                },
            }
        },
        ClockMessage::NetworkAnalysis(n) => {
            assert(s.subrange(4, 8) =~= u32le(1u32));
            lemma_parse_u32_enc(s, 4, 1u32);
            match n {
                NetworkAnalysisMessage::Ping(id) => {
                    assert(s.subrange(8, 12) =~= u32le(0u32));
                    lemma_parse_u32_enc(s, 8, 0u32);
                    assert(s.subrange(12, 20) =~= u64le(id));
                    lemma_parse_u64_enc(s, 12, id);
                },
                NetworkAnalysisMessage::Pong(id, d) => {
                    assert(s.subrange(8, 12) =~= u32le(1u32));
                    lemma_parse_u32_enc(s, 8, 1u32);
                    assert(s.subrange(12, 20) =~= u64le(id));
                    lemma_parse_u64_enc(s, 12, id);
                    assert(s.subrange(20, 28) =~= u64le(d));
                    lemma_parse_u64_enc(s, 20, d);
                },
            }
        },
    }
}

#[verifier::spinoff_prover]
#[verifier::rlimit(100)]
proof fn lemma_rt_plugin(id: Vec<u8>, data: Vec<u8>)
    ensures
        parse_message(msg_bytes(Message::Plugin(id, data))) == Some(
            view_msg(Message::Plugin(id, data)),
        ),
{
    let s = msg_bytes(Message::Plugin(id, data));
    vstd::std_specs::vec::axiom_spec_len(&id);
    vstd::std_specs::vec::axiom_spec_len(&data);
    assert(s.subrange(0, 4) =~= u32le(3u32));
    lemma_parse_u32_enc(s, 0, 3u32);
    let idl = 8 + id@.len() as int;
    assert(s.subrange(4int, 4 + idl) =~= bytes_enc(id@));
    lemma_parse_bytes_enc(s, 4, id@);
    assert(s.subrange(4 + idl, 4 + idl + 8 + data@.len() as int) =~= bytes_enc(data@));
    lemma_parse_bytes_enc(s, 4 + idl, data@);
}

/// Reads four little-endian bytes.
pub fn get_u32(buf: &Vec<u8>, pos: usize) -> (r: Option<(u32, usize)>)
    ensures
        r matches Some((v, p2)) ==> parse_u32(buf@, pos as int) == Some((v, p2 as int)),
        r is None ==> parse_u32(buf@, pos as int) is None,
{
    if buf.len() < 4 || pos > buf.len() - 4 {
        return None;
    }
    let b0 = buf[pos] as u32;
    let b1 = buf[pos + 1] as u32;
    let b2 = buf[pos + 2] as u32;
    let b3 = buf[pos + 3] as u32;
    Some((b0 + 256 * (b1 + 256 * (b2 + 256 * b3)), pos + 4))
}

/// Reads eight little-endian bytes.
pub fn get_u64(buf: &Vec<u8>, pos: usize) -> (r: Option<(u64, usize)>)
    ensures
        r matches Some((v, p2)) ==> parse_u64(buf@, pos as int) == Some((v, p2 as int)),
        r is None ==> parse_u64(buf@, pos as int) is None,
{
    if buf.len() < 8 || pos > buf.len() - 8 {
        return None;
    }
    let b0 = buf[pos] as u64;
    let b1 = buf[pos + 1] as u64;
    let b2 = buf[pos + 2] as u64;
    let b3 = buf[pos + 3] as u64;
    let b4 = buf[pos + 4] as u64;
    let b5 = buf[pos + 5] as u64;
    let b6 = buf[pos + 6] as u64;
    let b7 = buf[pos + 7] as u64;
    Some(
        (
            b0 + 256 * (b1 + 256 * (b2 + 256 * (b3 + 256 * (b4 + 256 * (b5 + 256 * (b6 + 256
                * b7)))))),
            pos + 8,
        ),
    )
}

/// Reads a length-prefixed byte string.
fn get_bytes(buf: &Vec<u8>, pos: usize) -> (r: Option<(Vec<u8>, usize)>)
    ensures
        r matches Some((b, p2)) ==> parse_bytes(buf@, pos as int) == Some((b@, p2 as int)),
        r is None ==> parse_bytes(buf@, pos as int) is None,
{
    let (len, p1) = match get_u64(buf, pos) {
        None => {
            return None;
        },
        Some(x) => x,
    };
    proof {
        assert(parse_u64(buf@, pos as int) == Some((len, p1 as int)));
        assert(p1 as int <= buf@.len());
    }
    if len > (buf.len() - p1) as u64 {
        return None;
    }
    let len = len as usize;
    let mut out: Vec<u8> = Vec::new();
    let mut i: usize = 0;
    while i < len
        invariant
            i <= len,
            p1 + len <= buf@.len(),
            buf@.len() <= usize::MAX,
            out@ =~= buf@.subrange(p1 as int, p1 as int + i as int),
        decreases len - i,
    {
        out.push(buf[p1 + i]);
        proof {
            assert(out@ =~= buf@.subrange(p1 as int, p1 as int + i as int + 1));
        }
        i += 1;
    }
    Some((out, p1 + len))
}

/// Reads `count` (frame, input) entries.
fn get_entries(buf: &Vec<u8>, pos: usize, count: u64) -> (r: Option<
    (Vec<(Frame, SerializedInput)>, usize),
>)
    ensures
        r matches Some((es, p2)) ==> parse_entries(buf@, pos as int, count as int) == Some(
            (es@.map_values(|e: (Frame, SerializedInput)| (e.0, e.1@)), p2 as int),
        ),
        r is None ==> parse_entries(buf@, pos as int, count as int) is None,
    decreases count,
{
    if count == 0 {
        let es: Vec<(Frame, SerializedInput)> = Vec::new();
        proof {
            assert(es@.map_values(|e: (Frame, SerializedInput)| (e.0, e.1@)) =~= Seq::<
                (u32, Seq<u8>),
            >::empty());
        }
        return Some((es, pos));
    }
    let (f, p1) = match get_u32(buf, pos) {
        None => {
            return None;
        },
        Some(x) => x,
    };
    let (b, p2) = match get_bytes(buf, p1) {
        None => {
            return None;
        },
        Some(x) => x,
    };
    let (mut rest, p3) = match get_entries(buf, p2, count - 1) {
        None => {
            return None;
        },
        Some(x) => x,
    };
    let ghost rest_view = rest@;
    rest.insert(0, (f, b));
    proof {
        assert(rest@.map_values(|e: (Frame, SerializedInput)| (e.0, e.1@)) =~= seq![(f, b@)]
            + rest_view.map_values(|e: (Frame, SerializedInput)| (e.0, e.1@)));
    }
    Some((rest, p3))
}

/// Decodes one datagram.  Returns `None` exactly when the bytes are not the
/// complete encoding of any message.
pub fn decode_message(buf: &Vec<u8>) -> (r: Option<Message>)
    ensures
        r matches Some(m) ==> parse_message(buf@) == Some(view_msg(m)),
        r is None ==> parse_message(buf@) is None,
{
    let (tag, p1) = match get_u32(buf, 0) {
        None => {
            return None;
        },
        Some(x) => x,
    };
    if tag == 0 {
        let (count, p2) = match get_u64(buf, p1) {
            None => {
                return None;
            },
            Some(x) => x,
        };
        let (es, p3) = match get_entries(buf, p2, count) {
            None => {
                return None;
            },
            Some(x) => x,
        };
        if p3 == buf.len() {
            Some(Message::Inputs(es))
        } else {
            None
        }
    } else if tag == 1 {
        let (f, p2) = match get_u32(buf, p1) {
            None => {
                return None;
            },
            Some(x) => x,
        };
        if p2 == buf.len() {
            Some(Message::Unconfirmed(f))
        } else {
            None
        }
    } else if tag == 2 {
        let (ctag, p2) = match get_u32(buf, p1) {
            None => {
                return None;
            },
            Some(x) => x,
        };
        if ctag == 0 {
            let (stag, p3) = match get_u32(buf, p2) {
                None => {
                    return None;
                },
                Some(x) => x,
            };
            let (t, p4) = match get_u64(buf, p3) {
                None => {
                    return None;
                },
                Some(x) => x,
            };
            let sg = if stag == 0 {
                Signed::Pos(t)
            } else if stag == 1 {
                Signed::Neg(t)
            } else {
                return None;
            };
            if p4 == buf.len() {
                Some(Message::Clock(ClockMessage::Elapsed(sg)))
            } else {
                None
            }
        } else if ctag == 1 {
            let (ntag, p3) = match get_u32(buf, p2) {
                None => {
                    return None;
                },
                Some(x) => x,
            };
            if ntag == 0 {
                let (id, p4) = match get_u64(buf, p3) {
                    None => {
                        return None;
                    },
                    Some(x) => x,
                };
                if p4 == buf.len() {
                    Some(Message::Clock(ClockMessage::NetworkAnalysis(
                        NetworkAnalysisMessage::Ping(id),
                    )))
                } else {
                    None
                }
            } else if ntag == 1 {
                let (id, p4) = match get_u64(buf, p3) {
                    None => {
                        return None;
                    },
                    Some(x) => x,
                };
                let (d, p5) = match get_u64(buf, p4) {
                    None => {
                        return None;
                    },
                    Some(x) => x,
                };
                if p5 == buf.len() {
                    Some(Message::Clock(ClockMessage::NetworkAnalysis(
                        NetworkAnalysisMessage::Pong(id, d),
                    )))
                } else {
                    None
                }
            } else {
                None
            }
        } else {
            None
        }
    } else if tag == 3 {
        let (id, p2) = match get_bytes(buf, p1) {
            None => {
                return None;
            },
            Some(x) => x,
        };
        let (data, p3) = match get_bytes(buf, p2) {
            None => {
                return None;
            },
            Some(x) => x,
        };
        if p3 == buf.len() {
            Some(Message::Plugin(id, data))
        } else {
            None
        }
    } else {
        None
    }
}

} // verus!
