//! Building whole datagrams: a 40-byte header followed by the sealed
//! payload.
//!
//! Every datagram on the wire is `header ‖ seal(key, nonce(sequence),
//! payload)`.  The handshake payloads are fixed byte strings.

use crate::crypto::{encrypt, nonce_of, seal_of};
use crate::packet::{
    header_bytes, lemma_parse_header_extends, parse_header, ClientId, PacketHeader, PacketType,
};
use vstd::prelude::*;

verus! {

/// The fixed payload of an authentication request.
pub open spec fn auth_request_bytes() -> Seq<u8> {
    seq![65u8, 85u8, 84u8, 72u8, 95u8, 82u8, 69u8, 81u8, 85u8, 69u8, 83u8, 84u8]
}

/// The fixed payload of an authentication response.
pub open spec fn auth_ok_bytes() -> Seq<u8> {
    seq![65u8, 85u8, 84u8, 72u8, 95u8, 79u8, 75u8]
}

/// The authentication request payload, `AUTH_REQUEST` in ASCII.
pub fn auth_request_payload() -> (r: Vec<u8>)
    ensures
        r@ == auth_request_bytes(),
{
    let mut r: Vec<u8> = Vec::new();
    r.push(65);
    r.push(85);
    r.push(84);
    r.push(72);
    r.push(95);
    r.push(82);
    r.push(69);
    r.push(81);
    r.push(85);
    r.push(69);
    r.push(83);
    r.push(84);
    proof {
        assert(r@ =~= auth_request_bytes());
    }
    r
}

/// The authentication response payload, `AUTH_OK` in ASCII.
pub fn auth_ok_payload() -> (r: Vec<u8>)
    ensures
        r@ == auth_ok_bytes(),
{
    let mut r: Vec<u8> = Vec::new();
    r.push(65);
    r.push(85);
    r.push(84);
    r.push(72);
    r.push(95);
    r.push(79);
    r.push(75);
    proof {
        assert(r@ =~= auth_ok_bytes());
    }
    r
}

/// Build one datagram: the encoded header followed by the payload sealed
/// under the header's sequence number.
pub fn build_datagram(
    key: &[u8; 32],
    sequence_number: u64,
    packet_type: PacketType,
    client_id: ClientId,
    payload: &[u8],
) -> (r: Vec<u8>)
    requires
        payload@.len() <= 0xffff_ffff,
    ensures
        parse_header(r@) is Some,
        ({
            let h = parse_header(r@).unwrap();
            &&& h.sequence_number == sequence_number
            &&& h.packet_type == packet_type
            &&& h.client_id == client_id
            &&& h.reserved == 0
        }),
        r@.skip(40) == seal_of(key@, nonce_of(sequence_number), payload@),
        r@.len() == 40 + payload@.len() + 16,
    {
    let header = PacketHeader::new(sequence_number, packet_type, client_id);
    let mut out = header.serialize();
    let sealed = match encrypt(key, payload, sequence_number) {
        Ok(s) => s,
        Err(_) => vstd::pervasive::unreached(),
    };
    let ghost sealed_view = sealed@;
    let mut sealed_mut = sealed;
    out.append(&mut sealed_mut);
    proof {
        lemma_parse_header_extends(header, sealed_view);
        assert(out@ == header_bytes(header) + sealed_view);
    }
    out
}

/// Build the client's authentication request: sequence zero, the chosen
/// client id, and the fixed request payload.
pub fn build_auth_request(key: &[u8; 32], client_id: ClientId) -> (r: Vec<u8>)
    ensures
        parse_header(r@) is Some,
        ({
            let h = parse_header(r@).unwrap();
            &&& h.sequence_number == 0
            &&& h.packet_type == PacketType::AuthRequest
            &&& h.client_id == client_id
        }),
        r@.skip(40) == seal_of(key@, nonce_of(0), auth_request_bytes()),
{
    let payload = auth_request_payload();
    build_datagram(key, 0, PacketType::AuthRequest, client_id, payload.as_slice())
}

/// Whether a byte string is the server's authentication response to a
/// client id under a key.
pub open spec fn is_auth_response(b: Seq<u8>, key: Seq<u8>, id: u128) -> bool {
    &&& parse_header(b) is Some
    &&& parse_header(b).unwrap().packet_type == PacketType::AuthResponse
    &&& parse_header(b).unwrap().sequence_number == 0
    &&& parse_header(b).unwrap().client_id.0 == id
    &&& b.skip(40) == seal_of(key, nonce_of(0), auth_ok_bytes())
}

/// Build the server's authentication response: sequence zero, the
/// requesting client's id, and the fixed response payload.
pub fn build_auth_response(key: &[u8; 32], client_id: ClientId) -> (r: Vec<u8>)
    ensures
        is_auth_response(r@, key@, client_id.0),
{
    let payload = auth_ok_payload();
    build_datagram(key, 0, PacketType::AuthResponse, client_id, payload.as_slice())
}

/// Build a probe: an empty payload sealed under the probe's sequence
/// number, to be echoed verbatim for round-trip measurement.
pub fn build_probe(key: &[u8; 32], sequence_number: u64, client_id: ClientId) -> (r: Vec<u8>)
    ensures
        parse_header(r@) is Some,
        ({
            let h = parse_header(r@).unwrap();
            &&& h.sequence_number == sequence_number
            &&& h.packet_type == PacketType::Probe
            &&& h.client_id == client_id
        }),
        r@.skip(40) == seal_of(key@, nonce_of(sequence_number), Seq::<u8>::empty()),
        r@.len() == 56,
{
    let payload: Vec<u8> = Vec::new();
    proof {
        assert(payload@ =~= Seq::<u8>::empty());
    }
    build_datagram(key, sequence_number, PacketType::Probe, client_id, payload.as_slice())
}

/// Build a data datagram carrying one packet read from the virtual
/// interface.
pub fn build_data(key: &[u8; 32], sequence_number: u64, client_id: ClientId, payload: &[u8]) -> (r:
    Vec<u8>)
    requires
        payload@.len() <= 0xffff_ffff,
    ensures
        parse_header(r@) is Some,
        ({
            let h = parse_header(r@).unwrap();
            &&& h.sequence_number == sequence_number
            &&& h.packet_type == PacketType::Data
            &&& h.client_id == client_id
        }),
        r@.skip(40) == seal_of(key@, nonce_of(sequence_number), payload@),
        r@.len() == 40 + payload@.len() + 16,
{
    build_datagram(key, sequence_number, PacketType::Data, client_id, payload)
}

} // verus!
