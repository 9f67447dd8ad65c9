//! Wire message codec: the binary shape of a message (header + tagged
//! body) and its encode/decode operations.
//!
//! The format is a fixed-width little-endian encoding: eight bytes for the
//! header's sequence number, then four bytes for the body tag.  It is
//! self-delimiting (every valid message is exactly [`MESSAGE_LEN`] bytes)
//! and deterministic, so `decode` inverts `encode` exactly.

use vstd::prelude::*;

verus! {

/// The part of every message that carries the sender's sequence number.
#[derive(Clone, Copy, Debug, PartialEq, Eq, Structural)]
pub struct MessageHeader {
    pub seq: u64,
}

/// The closed set of message bodies.  Heartbeats carry no payload; the
/// tag-based encoding leaves room for further variants.
#[derive(Clone, Copy, Debug, PartialEq, Eq, Structural)]
pub enum MessageBody {
    Heartbeat,
}

/// The unit of wire transfer: a header followed by a tagged body.
#[derive(Clone, Copy, Debug, PartialEq, Eq, Structural)]
pub struct Message {
    pub header: MessageHeader,
    pub body: MessageBody,
}

/// Why a byte sequence failed to decode.
#[derive(Clone, Copy, Debug, PartialEq, Eq, Structural)]
pub enum DecodingError {
    /// Fewer bytes than a complete header and body tag.
    Truncated,
    /// The body tag does not name a known variant.
    UnknownTag,
    /// Bytes remain after a complete message.
    TrailingBytes,
}

/// Encoding cannot fail for the closed body set above; the type makes the
/// codec's error surface explicit for callers that match on it.
#[derive(Clone, Copy, Debug, PartialEq, Eq, Structural)]
pub struct EncodingError;

/// Bytes of an encoded header.
pub const HEADER_LEN: usize = 8;

/// Bytes of an encoded body tag.
pub const TAG_LEN: usize = 4;

/// Bytes of a complete encoded message.
pub const MESSAGE_LEN: usize = HEADER_LEN + TAG_LEN;

/// The eight little-endian bytes of a 64-bit sequence number.
pub open spec fn u64_le_bytes(v: u64) -> Seq<u8> {
    seq![
        (v & 0xff) as u8,
        ((v >> 8) & 0xff) as u8,
        ((v >> 16) & 0xff) as u8,
        ((v >> 24) & 0xff) as u8,
        ((v >> 32) & 0xff) as u8,
        ((v >> 40) & 0xff) as u8,
        ((v >> 48) & 0xff) as u8,
        ((v >> 56) & 0xff) as u8,
    ]
}

/// The 64-bit value read back from eight little-endian bytes.
pub open spec fn u64_from_le(b: Seq<u8>) -> u64
    recommends
        b.len() == 8,
{
    ((b[0] as u64) | ((b[1] as u64) << 8) | ((b[2] as u64) << 16) | ((b[3] as u64) << 24)
        | ((b[4] as u64) << 32) | ((b[5] as u64) << 40) | ((b[6] as u64) << 48)
        | ((b[7] as u64) << 56)) as u64
}

/// The wire bytes of a message: the header's sequence number in little-endian
/// order, then the body tag (Heartbeat is tag zero).
pub open spec fn spec_encode(m: Message) -> Seq<u8> {
    u64_le_bytes(m.header.seq) + seq![0u8, 0u8, 0u8, 0u8]
}

/// What decoding yields on any byte sequence: the unique message whose
/// encoding the bytes are, or the error that says how they fail to be one.
pub open spec fn spec_decode(b: Seq<u8>) -> Result<Message, DecodingError> {
    if b.len() < MESSAGE_LEN {
        Err(DecodingError::Truncated)
    } else if !(b[8] == 0u8 && b[9] == 0u8 && b[10] == 0u8 && b[11] == 0u8) {
        Err(DecodingError::UnknownTag)
    } else if b.len() > MESSAGE_LEN {
        Err(DecodingError::TrailingBytes)
    } else {
        Ok(Message {
            header: MessageHeader { seq: u64_from_le(b.subrange(0, HEADER_LEN as int)) },
            body: MessageBody::Heartbeat,
        })
    }
}

/// One little-endian byte of a 64-bit value.
fn le_byte(v: u64, shift: u64) -> (r: u8)
    requires
        shift < 64,
    ensures
        r == ((v >> shift) & 0xff) as u8,
{
    proof {
        assert((v >> shift) & 0xff < 256) by (bit_vector);
    }
    ((v >> shift) & 0xff) as u8
}

/// Encode a message into its wire bytes.  With the closed body set every
/// message is representable, so the result is always `Ok`.
pub fn encode(m: &Message) -> (r: Result<Vec<u8>, EncodingError>)
    ensures
        r is Ok,
        r->Ok_0@ == spec_encode(*m),
{
    let seq = m.header.seq;
    let mut bytes: Vec<u8> = Vec::new();
    bytes.push(le_byte(seq, 0));
    bytes.push(le_byte(seq, 8));
    bytes.push(le_byte(seq, 16));
    bytes.push(le_byte(seq, 24));
    bytes.push(le_byte(seq, 32));
    bytes.push(le_byte(seq, 40));
    bytes.push(le_byte(seq, 48));
    bytes.push(le_byte(seq, 56));
    bytes.push(0u8);
    bytes.push(0u8);
    bytes.push(0u8);
    bytes.push(0u8);
    proof {
        assert(seq >> 0 == seq) by (bit_vector);
        assert(bytes@ =~= spec_encode(*m));
    }
    Ok(bytes)
}

/// Decode wire bytes back into a message, reporting exactly how malformed
/// input fails: too short, unknown body tag, or trailing bytes.
pub fn decode(bytes: &Vec<u8>) -> (r: Result<Message, DecodingError>)
    ensures
        r == spec_decode(bytes@),
{
    if bytes.len() < MESSAGE_LEN {
        return Err(DecodingError::Truncated);
    }
    if !(bytes[8] == 0u8 && bytes[9] == 0u8 && bytes[10] == 0u8 && bytes[11] == 0u8) {
        return Err(DecodingError::UnknownTag);
    }
    if bytes.len() > MESSAGE_LEN {
        return Err(DecodingError::TrailingBytes);
    }
    let seq: u64 = (bytes[0] as u64) | ((bytes[1] as u64) << 8) | ((bytes[2] as u64) << 16)
        | ((bytes[3] as u64) << 24) | ((bytes[4] as u64) << 32) | ((bytes[5] as u64) << 40)
        | ((bytes[6] as u64) << 48) | ((bytes[7] as u64) << 56);
    proof {
        let head = bytes@.subrange(0, HEADER_LEN as int);
        assert(head[0] == bytes@[0] && head[1] == bytes@[1] && head[2] == bytes@[2]
            && head[3] == bytes@[3] && head[4] == bytes@[4] && head[5] == bytes@[5]
            && head[6] == bytes@[6] && head[7] == bytes@[7]);
    }
    Ok(Message { header: MessageHeader { seq }, body: MessageBody::Heartbeat })
}

/// Reading back the little-endian bytes of a value gives the value.
pub proof fn lemma_u64_le_round_trip(v: u64)
    ensures
        u64_from_le(u64_le_bytes(v)) == v,
{
    let b = u64_le_bytes(v);
    assert(b[0] == (v & 0xff) as u8);
    assert(b[1] == ((v >> 8) & 0xff) as u8);
    assert(b[2] == ((v >> 16) & 0xff) as u8);
    assert(b[3] == ((v >> 24) & 0xff) as u8);
    assert(b[4] == ((v >> 32) & 0xff) as u8);
    assert(b[5] == ((v >> 40) & 0xff) as u8);
    assert(b[6] == ((v >> 48) & 0xff) as u8);
    assert(b[7] == ((v >> 56) & 0xff) as u8);
    assert((((v & 0xff) as u8 as u64) | (((v >> 8) & 0xff) as u8 as u64) << 8
        | (((v >> 16) & 0xff) as u8 as u64) << 16 | (((v >> 24) & 0xff) as u8 as u64) << 24
        | (((v >> 32) & 0xff) as u8 as u64) << 32 | (((v >> 40) & 0xff) as u8 as u64) << 40
        | (((v >> 48) & 0xff) as u8 as u64) << 48 | (((v >> 56) & 0xff) as u8 as u64) << 56) as u64
        == v) by (bit_vector);
}

/// Round-trip law: decoding the encoding of any constructible message
/// yields that message again.
pub proof fn lemma_round_trip(m: Message)
    ensures
        spec_decode(spec_encode(m)) == Ok::<Message, DecodingError>(m),
{
    let b = spec_encode(m);
    assert(b.len() == MESSAGE_LEN);
    assert(b[8] == 0u8 && b[9] == 0u8 && b[10] == 0u8 && b[11] == 0u8);
    assert(b.subrange(0, HEADER_LEN as int) =~= u64_le_bytes(m.header.seq));
    lemma_u64_le_round_trip(m.header.seq);
}

} // verus!
