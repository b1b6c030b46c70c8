//! Wire representation of everything that crosses the boundary between two
//! execution units: plain values, the spawn-handshake state transfer, request
//! triples carrying a reply address, and responses.
//!
//! Encoding is a little-endian byte format; decoding is proved to be its
//! exact inverse, so a value survives any number of trips over the wire.

use vstd::bytes::*;
use vstd::prelude::*;

verus! {

/// A plain message value. `Ref` embeds a process reference (the global
/// 128-bit identifier of an execution unit), which the codec carries
/// transparently so a reply address can travel inside a request.
#[derive(Clone, Copy, PartialEq, Eq, Structural, Debug)]
pub enum Value {
    /// The zero-sized value: a captured state with no data.
    Empty,
    /// An unsigned integer message.
    Int(u64),
    /// An embedded process reference, by global identifier.
    Ref(u128),
}

/// A captured-state type with no data needs no state-transfer handshake.
pub open spec fn is_zero_sized(v: Value) -> bool {
    v is Empty
}

/// What one delivered message carries.
#[derive(Clone, Copy, PartialEq, Eq, Structural, Debug)]
pub enum Payload {
    /// The captured state transferred during the spawn handshake.
    Init(Value),
    /// A request: the sender's global identifier (its reply address) and the
    /// message itself. The correlation tag travels in the packet.
    Request(u128, Value),
    /// A response to the request that carried the same correlation tag.
    Response(Value),
}

/// One message as it sits in a mailbox: a correlation tag plus a payload.
#[derive(Clone, Copy, PartialEq, Eq, Structural, Debug)]
pub struct Packet {
    /// The correlation tag; `0` where no correlation is intended.
    pub tag: u64,
    /// The carried payload.
    pub payload: Payload,
}

pub open spec fn spec_encode_value(v: Value) -> Seq<u8> {
    match v {
        Value::Empty => seq![0u8],
        Value::Int(x) => seq![1u8] + spec_u64_to_le_bytes(x),
        Value::Ref(u) => seq![2u8] + spec_u128_to_le_bytes(u),
    }
}

pub open spec fn spec_decode_value(s: Seq<u8>) -> Option<Value> {
    if s.len() == 1 && s[0] == 0u8 {
        Some(Value::Empty)
    } else if s.len() == 9 && s[0] == 1u8 {
        Some(Value::Int(spec_u64_from_le_bytes(s.subrange(1, 9))))
    } else if s.len() == 17 && s[0] == 2u8 {
        Some(Value::Ref(spec_u128_from_le_bytes(s.subrange(1, 17))))
    } else {
        None
    }
}

pub open spec fn spec_encode_payload(p: Payload) -> Seq<u8> {
    match p {
        Payload::Init(v) => seq![0u8] + spec_encode_value(v),
        Payload::Request(r, v) => seq![1u8] + spec_u128_to_le_bytes(r) + spec_encode_value(v),
        Payload::Response(v) => seq![2u8] + spec_encode_value(v),
    }
}

pub open spec fn spec_decode_payload(s: Seq<u8>) -> Option<Payload> {
    if s.len() >= 2 && s[0] == 0u8 {
        match spec_decode_value(s.subrange(1, s.len() as int)) {
            Some(v) => Some(Payload::Init(v)),
            None => None,
        }
    } else if s.len() >= 18 && s[0] == 1u8 {
        match spec_decode_value(s.subrange(17, s.len() as int)) {
            Some(v) => Some(
                Payload::Request(spec_u128_from_le_bytes(s.subrange(1, 17)), v),
            ),
            None => None,
        }
    } else if s.len() >= 2 && s[0] == 2u8 {
        match spec_decode_value(s.subrange(1, s.len() as int)) {
            Some(v) => Some(Payload::Response(v)),
            None => None,
        }
    } else {
        None
    }
}

pub open spec fn spec_encode_packet(p: Packet) -> Seq<u8> {
    spec_u64_to_le_bytes(p.tag) + spec_encode_payload(p.payload)
}

pub open spec fn spec_decode_packet(s: Seq<u8>) -> Option<Packet> {
    if s.len() >= 10 {
        match spec_decode_payload(s.subrange(8, s.len() as int)) {
            Some(pl) => Some(
                Packet { tag: spec_u64_from_le_bytes(s.subrange(0, 8)), payload: pl },
            ),
            None => None,
        }
    } else {
        None
    }
}

pub fn encode_value(v: &Value) -> (out: Vec<u8>)
    ensures
        out@ == spec_encode_value(*v),
{
    let mut out: Vec<u8> = Vec::new();
    match v {
        Value::Empty => {
            out.push(0u8);
        },
        Value::Int(x) => {
            out.push(1u8);
            let mut tail = u64_to_le_bytes(*x);
            out.append(&mut tail);
        },
        Value::Ref(u) => {
            out.push(2u8);
            let mut tail = u128_to_le_bytes(*u);
            out.append(&mut tail);
        },
    }
    proof {
        assert(out@ =~= spec_encode_value(*v));
    }
    out
}

pub fn decode_value(s: &[u8]) -> (r: Option<Value>)
    ensures
        r == spec_decode_value(s@),
{
    if s.len() == 1 && s[0] == 0u8 {
        Some(Value::Empty)
    } else if s.len() == 9 && s[0] == 1u8 {
        let sub = vstd::slice::slice_subrange(s, 1, 9);
        Some(Value::Int(u64_from_le_bytes(sub)))
    } else if s.len() == 17 && s[0] == 2u8 {
        let sub = vstd::slice::slice_subrange(s, 1, 17);
        Some(Value::Ref(u128_from_le_bytes(sub)))
    } else {
        None
    }
}

pub fn encode_packet(p: &Packet) -> (out: Vec<u8>)
    ensures
        out@ == spec_encode_packet(*p),
{
    let mut out = u64_to_le_bytes(p.tag);
    match &p.payload {
        Payload::Init(v) => {
            out.push(0u8);
            let mut tail = encode_value(v);
            out.append(&mut tail);
        },
        Payload::Request(r, v) => {
            out.push(1u8);
            let mut addr = u128_to_le_bytes(*r);
            out.append(&mut addr);
            let mut tail = encode_value(v);
            out.append(&mut tail);
        },
        Payload::Response(v) => {
            out.push(2u8);
            let mut tail = encode_value(v);
            out.append(&mut tail);
        },
    }
    proof {
        assert(out@ =~= spec_encode_packet(*p));
    }
    out
}

pub fn decode_packet(s: &[u8]) -> (r: Option<Packet>)
    ensures
        r == spec_decode_packet(s@),
{
    if s.len() < 10 {
        return None;
    }
    let tag_bytes = vstd::slice::slice_subrange(s, 0, 8);
    let tag = u64_from_le_bytes(tag_bytes);
    let body = vstd::slice::slice_subrange(s, 8, s.len());
    let kind = body[0];
    let payload: Option<Payload> = if kind == 0u8 && body.len() >= 2 {
        let rest = vstd::slice::slice_subrange(body, 1, body.len());
        proof {
            assert(rest@ =~= s@.subrange(8, s@.len() as int).subrange(
                1,
                s@.subrange(8, s@.len() as int).len() as int,
            ));
        }
        match decode_value(rest) {
            Some(v) => Some(Payload::Init(v)),
            None => None,
        }
    } else if kind == 1u8 && body.len() >= 18 {
        let addr_bytes = vstd::slice::slice_subrange(body, 1, 17);
        proof {
            assert(addr_bytes@ =~= s@.subrange(8, s@.len() as int).subrange(1, 17));
        }
        let addr = u128_from_le_bytes(addr_bytes);
        let rest = vstd::slice::slice_subrange(body, 17, body.len());
        proof {
            assert(rest@ =~= s@.subrange(8, s@.len() as int).subrange(
                17,
                s@.subrange(8, s@.len() as int).len() as int,
            ));
        }
        match decode_value(rest) {
            Some(v) => Some(Payload::Request(addr, v)),
            None => None,
        }
    } else if kind == 2u8 && body.len() >= 2 {
        let rest = vstd::slice::slice_subrange(body, 1, body.len());
        proof {
            assert(rest@ =~= s@.subrange(8, s@.len() as int).subrange(
                1,
                s@.subrange(8, s@.len() as int).len() as int,
            ));
        }
        match decode_value(rest) {
            Some(v) => Some(Payload::Response(v)),
            None => None,
        }
    } else {
        None
    };
    match payload {
        Some(pl) => Some(Packet { tag, payload: pl }),
        None => None,
    }
}

/// Decoding inverts encoding exactly, for every value, including one that
/// embeds a process reference.
pub proof fn lemma_value_round_trip(v: Value)
    ensures
        spec_decode_value(spec_encode_value(v)) == Some(v),
{
    lemma_auto_spec_u64_to_from_le_bytes();
    lemma_auto_spec_u128_to_from_le_bytes();
    match v {
        Value::Empty => {},
        Value::Int(x) => {
            let e = spec_encode_value(v);
            assert(e.subrange(1, 9) =~= spec_u64_to_le_bytes(x));
        },
        Value::Ref(u) => {
            let e = spec_encode_value(v);
            assert(e.subrange(1, 17) =~= spec_u128_to_le_bytes(u));
        },
    }
}

/// Decoding inverts encoding for every payload kind.
pub proof fn lemma_payload_round_trip(p: Payload)
    ensures
        spec_decode_payload(spec_encode_payload(p)) == Some(p),
{
    lemma_auto_spec_u64_to_from_le_bytes();
    lemma_auto_spec_u128_to_from_le_bytes();
    match p {
        Payload::Init(v) => {
            lemma_value_round_trip(v);
            let e = spec_encode_payload(p);
            assert(e.subrange(1, e.len() as int) =~= spec_encode_value(v));
        },
        Payload::Request(r, v) => {
            lemma_value_round_trip(v);
            let e = spec_encode_payload(p);
            assert(e.subrange(1, 17) =~= spec_u128_to_le_bytes(r));
            assert(e.subrange(17, e.len() as int) =~= spec_encode_value(v));
        },
        Payload::Response(v) => {
            lemma_value_round_trip(v);
            let e = spec_encode_payload(p);
            assert(e.subrange(1, e.len() as int) =~= spec_encode_value(v));
        },
    }
}

/// Decoding inverts encoding for a whole packet.
pub proof fn lemma_packet_round_trip(p: Packet)
    ensures
        spec_decode_packet(spec_encode_packet(p)) == Some(p),
{
    lemma_auto_spec_u64_to_from_le_bytes();
    lemma_payload_round_trip(p.payload);
    let e = spec_encode_packet(p);
    assert(spec_encode_payload(p.payload).len() >= 2);
    assert(e.subrange(0, 8) =~= spec_u64_to_le_bytes(p.tag));
    assert(e.subrange(8, e.len() as int) =~= spec_encode_payload(p.payload));
}

/// Re-encoding what was decoded from an encoding gives the same bytes:
/// `encode(decode(encode(p))) == encode(p)`.
pub proof fn lemma_encode_decode_encode(p: Packet)
    ensures
        spec_decode_packet(spec_encode_packet(p)) matches Some(q) && spec_encode_packet(q)
            == spec_encode_packet(p),
{
    lemma_packet_round_trip(p);
}

} // verus!
