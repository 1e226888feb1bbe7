//! Protocol header and its fixed-layout wire codec.
//!
//! Every datagram on the wire is a 40-byte header followed by the sealed
//! payload.  The header is encoded little-endian field by field:
//! sequence number (8 bytes), packet type code (4), timestamp (8),
//! client id (16), reserved (4).

use crate::error::{OneboxError, OneboxResult};
use vstd::bytes::*;
use vstd::prelude::*;
use vstd::slice::slice_subrange;
use vstd::string::StringExecFns;

verus! {

/// Width of the encoded header in bytes.
pub const HEADER_SIZE: usize = 40;

/// Opaque 128-bit identifier chosen by a client.
#[derive(Debug, Clone, Copy, PartialEq, Eq, Structural)]
pub struct ClientId(pub u128);

impl Default for ClientId {
    /// The all-zero identifier.
    fn default() -> (r: Self)
        ensures
            r.0 == 0,
    {
        ClientId(0)
    }
}

/// Types of packets in the tunnel protocol.
#[derive(Debug, Clone, Copy, PartialEq, Eq, Structural)]
pub enum PacketType {
    /// Data packet carrying actual network traffic.
    Data,
    /// Probe packet for link health monitoring.
    Probe,
    /// Authentication request packet.
    AuthRequest,
    /// Authentication response packet.
    AuthResponse,
    /// Control packet for session management.
    Control,
}

impl PacketType {
    /// The 32-bit code of this packet type on the wire.
    pub open spec fn code_spec(self) -> u32 {
        match self {
            PacketType::Data => 1,
            PacketType::Probe => 2,
            PacketType::AuthRequest => 3,
            PacketType::AuthResponse => 4,
            PacketType::Control => 5,
        }
    }

    /// Encode this packet type as its wire code.
    pub fn code(self) -> (r: u32)
        ensures
            r == self.code_spec(),
    {
        match self {
            PacketType::Data => 1,
            PacketType::Probe => 2,
            PacketType::AuthRequest => 3,
            PacketType::AuthResponse => 4,
            PacketType::Control => 5,
        }
    }

    /// Whether a 32-bit value is the code of some packet type.
    pub open spec fn valid_code(c: u32) -> bool {
        1 <= c <= 5
    }

    /// The packet type a valid wire code denotes.
    pub open spec fn of_code_spec(c: u32) -> PacketType
        recommends
            PacketType::valid_code(c),
    {
        if c == 1 {
            PacketType::Data
        } else if c == 2 {
            PacketType::Probe
        } else if c == 3 {
            PacketType::AuthRequest
        } else if c == 4 {
            PacketType::AuthResponse
        } else {
            PacketType::Control
        }
    }

    /// Decode a wire code; fails exactly on the codes no type owns.
    pub fn of_code(c: u32) -> (r: Option<PacketType>)
        ensures
            r is Some <==> PacketType::valid_code(c),
            r is Some ==> r.unwrap() == PacketType::of_code_spec(c)
                && r.unwrap().code_spec() == c,
    {
        match c {
            1 => Some(PacketType::Data),
            2 => Some(PacketType::Probe),
            3 => Some(PacketType::AuthRequest),
            4 => Some(PacketType::AuthResponse),
            5 => Some(PacketType::Control),
            _ => None,
        }
    }
}

/// Packet header prepended to every datagram sent through the tunnel.
#[derive(Debug, Clone, Copy, PartialEq, Eq, Structural)]
pub struct PacketHeader {
    /// Monotonic per-direction sequence number; wraps with unsigned
    /// arithmetic.
    pub sequence_number: u64,
    /// Packet type identifier.
    pub packet_type: PacketType,
    /// Sender wall clock at emission, in milliseconds; informational.
    pub timestamp: u64,
    /// Client identifier.
    pub client_id: ClientId,
    /// Reserved field: zero on send, ignored on receive.
    pub reserved: u32,
}

/// The 40 bytes that encode a header.
pub open spec fn header_bytes(h: PacketHeader) -> Seq<u8> {
    spec_u64_to_le_bytes(h.sequence_number) + spec_u32_to_le_bytes(h.packet_type.code_spec())
        + spec_u64_to_le_bytes(h.timestamp) + spec_u128_to_le_bytes(h.client_id.0)
        + spec_u32_to_le_bytes(h.reserved)
}

/// The header encoded in the first 40 bytes of `b`, if they are well
/// formed: `b` holds at least 40 bytes and the type code is valid.
pub open spec fn parse_header(b: Seq<u8>) -> Option<PacketHeader> {
    if b.len() >= 40 && PacketType::valid_code(spec_u32_from_le_bytes(b.subrange(8, 12))) {
        Some(
            PacketHeader {
                sequence_number: spec_u64_from_le_bytes(b.subrange(0, 8)),
                packet_type: PacketType::of_code_spec(spec_u32_from_le_bytes(b.subrange(8, 12))),
                timestamp: spec_u64_from_le_bytes(b.subrange(12, 20)),
                client_id: ClientId(spec_u128_from_le_bytes(b.subrange(20, 36))),
                reserved: spec_u32_from_le_bytes(b.subrange(36, 40)),
            },
        )
    } else {
        None
    }
}

/// Relies on std::time::SystemTime: milliseconds since the Unix epoch at
/// the moment of the call.  The result depends on the wall clock, so
/// nothing is promised of it.
#[verifier::external_body]
fn now_unix_millis() -> u64 {
    match std::time::SystemTime::now().duration_since(std::time::UNIX_EPOCH) {
        Ok(d) => d.as_millis() as u64,
        Err(_) => 0,
    }
}

impl Default for PacketHeader {
    /// A data header with sequence zero, the current wall clock, and the
    /// all-zero client id.
    fn default() -> (r: Self)
        ensures
            r.sequence_number == 0,
            r.packet_type == PacketType::Data,
            r.client_id.0 == 0,
            r.reserved == 0,
    {
        PacketHeader {
            sequence_number: 0,
            packet_type: PacketType::Data,
            timestamp: now_unix_millis(),
            client_id: ClientId(0),
            reserved: 0,
        }
    }
}

impl PacketHeader {
    /// Create a new packet header with the given sequence number, type and
    /// client id, stamped with the current wall clock.
    pub fn new(sequence_number: u64, packet_type: PacketType, client_id: ClientId) -> (r: Self)
        ensures
            r.sequence_number == sequence_number,
            r.packet_type == packet_type,
            r.client_id == client_id,
            r.reserved == 0,
    {
        PacketHeader {
            sequence_number,
            packet_type,
            timestamp: now_unix_millis(),
            client_id,
            reserved: 0,
        }
    }

    /// The size of the encoded packet header in bytes.
    pub fn size() -> (r: usize)
        ensures
            r == HEADER_SIZE,
    {
        40
    }

    /// Encode this header into its 40-byte wire form.
    pub fn serialize(&self) -> (r: Vec<u8>)
        ensures
            r@ == header_bytes(*self),
            r@.len() == 40,
    {
        proof {
            lemma_auto_spec_u64_to_from_le_bytes();
            lemma_auto_spec_u32_to_from_le_bytes();
            lemma_auto_spec_u128_to_from_le_bytes();
        }
        let mut out = u64_to_le_bytes(self.sequence_number);
        let mut t = u32_to_le_bytes(self.packet_type.code());
        out.append(&mut t);
        let mut ts = u64_to_le_bytes(self.timestamp);
        out.append(&mut ts);
        let mut cid = u128_to_le_bytes(self.client_id.0);
        out.append(&mut cid);
        let mut res = u32_to_le_bytes(self.reserved);
        out.append(&mut res);
        out
    }

    /// Decode a header from the first 40 bytes of a buffer.  Fails exactly
    /// on runt buffers and on invalid type codes; trailing bytes are left
    /// for the payload.
    pub fn deserialize(buf: &[u8]) -> (r: OneboxResult<PacketHeader>)
        ensures
            r is Ok <==> parse_header(buf@) is Some,
            r is Ok ==> r.unwrap() == parse_header(buf@).unwrap(),
            r is Err ==> r.unwrap_err() is Serialization,
    {
        if buf.len() < 40 {
            return Err(
                OneboxError::Serialization(String::from_str("packet shorter than the header")),
            );
        }
        let sequence_number = u64_from_le_bytes(slice_subrange(buf, 0, 8));
        let code = u32_from_le_bytes(slice_subrange(buf, 8, 12));
        let timestamp = u64_from_le_bytes(slice_subrange(buf, 12, 20));
        let client_id = u128_from_le_bytes(slice_subrange(buf, 20, 36));
        let reserved = u32_from_le_bytes(slice_subrange(buf, 36, 40));
        match PacketType::of_code(code) {
            Some(packet_type) => Ok(
                PacketHeader { sequence_number, packet_type, timestamp, client_id: ClientId(client_id), reserved },
            ),
            None => Err(
                OneboxError::Serialization(String::from_str("unknown packet type code")),
            ),
        }
    }
}

/// Header codec round trip at the fixed 40-byte layout: every header
/// encodes to exactly 40 bytes, and decoding those bytes gives the same
/// header back.
pub proof fn lemma_header_codec_round_trip(h: PacketHeader)
    ensures
        header_bytes(h).len() == 40,
        parse_header(header_bytes(h)) == Some(h),
{
    lemma_auto_spec_u64_to_from_le_bytes();
    lemma_auto_spec_u32_to_from_le_bytes();
    lemma_auto_spec_u128_to_from_le_bytes();
    let b = header_bytes(h);
    assert(b.subrange(0, 8) =~= spec_u64_to_le_bytes(h.sequence_number));
    assert(b.subrange(8, 12) =~= spec_u32_to_le_bytes(h.packet_type.code_spec()));
    assert(b.subrange(12, 20) =~= spec_u64_to_le_bytes(h.timestamp));
    assert(b.subrange(20, 36) =~= spec_u128_to_le_bytes(h.client_id.0));
    assert(b.subrange(36, 40) =~= spec_u32_to_le_bytes(h.reserved));
}

/// A datagram built as an encoded header followed by a payload parses
/// back to that header, with the payload left after the header.
pub proof fn lemma_parse_header_extends(h: PacketHeader, rest: Seq<u8>)
    ensures
        parse_header(header_bytes(h) + rest) == Some(h),
        (header_bytes(h) + rest).skip(40) == rest,
{
    lemma_header_codec_round_trip(h);
    let hb = header_bytes(h);
    let b = hb + rest;
    assert(b.subrange(0, 8) =~= hb.subrange(0, 8));
    assert(b.subrange(8, 12) =~= hb.subrange(8, 12));
    assert(b.subrange(12, 20) =~= hb.subrange(12, 20));
    assert(b.subrange(20, 36) =~= hb.subrange(20, 36));
    assert(b.subrange(36, 40) =~= hb.subrange(36, 40));
    assert(b.skip(40) =~= rest);
}

/// Decoding reads only the first 40 bytes: a parsed header re-encodes to
/// exactly the prefix it was read from.
pub proof fn lemma_parse_header_prefix(b: Seq<u8>)
    requires
        parse_header(b) is Some,
    ensures
        header_bytes(parse_header(b).unwrap()) == b.subrange(0, 40),
{
    lemma_auto_spec_u64_to_from_le_bytes();
    lemma_auto_spec_u32_to_from_le_bytes();
    lemma_auto_spec_u128_to_from_le_bytes();
    let h = parse_header(b).unwrap();
    assert(h.packet_type.code_spec() == spec_u32_from_le_bytes(b.subrange(8, 12)));
    assert(header_bytes(h) =~= b.subrange(0, 40));
}

} // verus!
