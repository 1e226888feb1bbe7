//! AEAD seal/open with nonce-from-sequence, and key derivation.
//!
//! Every payload on the wire is sealed with ChaCha20-Poly1305 under a
//! 256-bit key derived from the pre-shared key by BLAKE3 in key-derivation
//! mode.  The 12-byte nonce is four zero bytes followed by the big-endian
//! sequence number, so nonce uniqueness follows from per-direction sequence
//! uniqueness.
//!
//! The AEAD and hash primitives are outside calls.  Their results are
//! named by the uninterpreted functions [`seal_of`] and [`derived_key_of`]:
//! both are deterministic functions of their arguments alone, and every
//! contract in the library speaks of the names exactly.

use aead::{Aead, AeadInOut, KeyInit};
use chacha20poly1305::{ChaCha20Poly1305, Key, Nonce};
use vstd::prelude::*;
use vstd::string::StringExecFns;

use crate::error::{OneboxError, OneboxResult};

verus! {

/// Width of the Poly1305 authentication tag in bytes.
pub const TAG_SIZE: usize = 16;

/// Plaintexts at most this long are guaranteed to seal; far above any
/// datagram, and well inside the ChaCha20 block-counter range.
pub const MAX_SEAL_LEN: usize = 0xffff_ffff;

/// The ciphertext-with-tag that ChaCha20-Poly1305 produces for a key, a
/// nonce and a plaintext: a deterministic function of the three alone.
pub uninterp spec fn seal_of(key: Seq<u8>, nonce: Seq<u8>, plaintext: Seq<u8>) -> Seq<u8>;

/// The 32 bytes BLAKE3 key derivation yields for a context string and key
/// material: a deterministic function of the two alone.
pub uninterp spec fn derived_key_of(context: Seq<char>, material: Seq<char>) -> Seq<u8>;

/// The big-endian bytes of a 64-bit value, most significant first.
pub open spec fn spec_u64_to_be_bytes(x: u64) -> Seq<u8> {
    seq![
        ((x >> 56) & 0xff) as u8,
        ((x >> 48) & 0xff) as u8,
        ((x >> 40) & 0xff) as u8,
        ((x >> 32) & 0xff) as u8,
        ((x >> 24) & 0xff) as u8,
        ((x >> 16) & 0xff) as u8,
        ((x >> 8) & 0xff) as u8,
        (x & 0xff) as u8,
    ]
}

/// The 12-byte nonce a sequence number derives: four zero bytes followed
/// by the sequence number in big-endian.
pub open spec fn nonce_of(sequence_number: u64) -> Seq<u8> {
    seq![0u8, 0u8, 0u8, 0u8] + spec_u64_to_be_bytes(sequence_number)
}

/// Generate the 12-byte nonce for a sequence number: four zero bytes
/// followed by the sequence number in big-endian.
pub fn generate_nonce(sequence_number: u64) -> (r: [u8; 12])
    ensures
        r@ == nonce_of(sequence_number),
{
    let x = sequence_number;
    let r: [u8; 12] = [
        0,
        0,
        0,
        0,
        ((x >> 56) & 0xff) as u8,
        ((x >> 48) & 0xff) as u8,
        ((x >> 40) & 0xff) as u8,
        ((x >> 32) & 0xff) as u8,
        ((x >> 24) & 0xff) as u8,
        ((x >> 16) & 0xff) as u8,
        ((x >> 8) & 0xff) as u8,
        (x & 0xff) as u8,
    ];
    proof {
        assert(r@ =~= nonce_of(sequence_number));
    }
    r
}

/// Relies on blake3::derive_key: a deterministic 32-byte key from a
/// context string and key material.
#[verifier::external_body]
fn blake3_kdf(context: &str, material: &str) -> (r: [u8; 32])
    ensures
        r@ == derived_key_of(context@, material@),
{
    blake3::derive_key(context, material.as_bytes())
}

/// Derive the 256-bit AEAD key from a pre-shared key string, using BLAKE3
/// in key-derivation mode under the tunnel's fixed context string.
pub fn derive_key(psk: &str) -> (r: [u8; 32])
    ensures
        r@ == derived_key_of("onebox-rs-encryption-key-context"@, psk@),
        r@.len() == 32,
{
    blake3_kdf("onebox-rs-encryption-key-context", psk)
}

/// Relies on chacha20poly1305's `encrypt`: sealing is deterministic in
/// key, nonce and plaintext; the result is the ciphertext followed by the
/// 16-byte tag; the only failure is a plaintext beyond the ChaCha20
/// block-counter range, far above `MAX_SEAL_LEN`.
#[verifier::external_body]
fn aead_seal(key: &[u8; 32], nonce: &[u8; 12], plaintext: &[u8]) -> (r: Result<Vec<u8>, ()>)
    ensures
        r is Ok ==> r.unwrap()@ == seal_of(key@, nonce@, plaintext@),
        r is Ok ==> r.unwrap()@.len() == plaintext@.len() + 16,
        plaintext@.len() <= 0xffff_ffff ==> r is Ok,
{
    let cipher = ChaCha20Poly1305::new(&Key::from(*key));
    cipher.encrypt(&Nonce::from(*nonce), plaintext).map_err(|_e| ())
}

/// Relies on chacha20poly1305's `decrypt`: it succeeds exactly on inputs
/// the seal function produces, returns the plaintext that seals to the
/// input, and checks the tag before anything else.
#[verifier::external_body]
fn aead_open(key: &[u8; 32], nonce: &[u8; 12], ciphertext: &[u8]) -> (r: Result<Vec<u8>, ()>)
    ensures
        r is Ok ==> ciphertext@ == seal_of(key@, nonce@, r.unwrap()@),
        r is Ok ==> r.unwrap()@.len() + 16 == ciphertext@.len(),
        forall|p: Seq<u8>|
            p.len() <= 0xffff_ffff && ciphertext@ == seal_of(key@, nonce@, p) ==> r is Ok
                && r.unwrap()@ == p,
{
    let cipher = ChaCha20Poly1305::new(&Key::from(*key));
    cipher.decrypt(&Nonce::from(*nonce), ciphertext).map_err(|_e| ())
}

/// Whether a ciphertext is one the seal function produces for this key and
/// sequence number, for some plaintext.
pub open spec fn opens(key: Seq<u8>, sequence_number: u64, ciphertext: Seq<u8>) -> bool {
    exists|p: Seq<u8>|
        p.len() <= 0xffff_ffff && ciphertext == seal_of(key, nonce_of(sequence_number), p)
}

/// The plaintext a ciphertext opens to, when [`opens`] holds.
pub open spec fn opened(key: Seq<u8>, sequence_number: u64, ciphertext: Seq<u8>) -> Seq<u8> {
    choose|p: Seq<u8>|
        p.len() <= 0xffff_ffff && ciphertext == seal_of(key, nonce_of(sequence_number), p)
}

/// A ciphertext sealed from a payload opens: one half of the AEAD round
/// trip, stated over the seal name.  That it opens back to exactly the
/// payload is the ensured value of [`decrypt`] on it.
pub proof fn lemma_seal_opens(key: Seq<u8>, sequence_number: u64, payload: Seq<u8>)
    requires
        payload.len() <= 0xffff_ffff,
    ensures
        opens(key, sequence_number, seal_of(key, nonce_of(sequence_number), payload)),
{
    let ct = seal_of(key, nonce_of(sequence_number), payload);
    assert(payload.len() <= 0xffff_ffff && ct == seal_of(key, nonce_of(sequence_number), payload));
}

/// Seal a plaintext under the key and the nonce its sequence number
/// derives.  Succeeds on every plaintext up to `MAX_SEAL_LEN`; the result
/// is the ciphertext followed by the 16-byte tag.
pub fn encrypt(key: &[u8; 32], plaintext: &[u8], sequence_number: u64) -> (r: OneboxResult<
    Vec<u8>,
>)
    ensures
        r is Ok ==> r.unwrap()@ == seal_of(key@, nonce_of(sequence_number), plaintext@),
        r is Ok ==> r.unwrap()@.len() == plaintext@.len() + 16,
        plaintext@.len() <= MAX_SEAL_LEN ==> r is Ok,
        r is Err ==> r.unwrap_err() is Crypto,
{
    let nonce = generate_nonce(sequence_number);
    match aead_seal(key, &nonce, plaintext) {
        Ok(ciphertext) => Ok(ciphertext),
        Err(_) => Err(OneboxError::Crypto(String::from_str("Encryption failed"))),
    }
}

/// Open a sealed payload with the key and the nonce its sequence number
/// derives.  Succeeds exactly on ciphertexts the seal function produces
/// for this key and sequence number — so tampering, a wrong key or a
/// wrong sequence number fails — and then returns the payload that was
/// sealed.
pub fn decrypt(key: &[u8; 32], ciphertext: &[u8], sequence_number: u64) -> (r: OneboxResult<
    Vec<u8>,
>)
    requires
        ciphertext@.len() <= 0xffff_ffff,
    ensures
        r is Ok <==> opens(key@, sequence_number, ciphertext@),
        r is Ok ==> ciphertext@ == seal_of(key@, nonce_of(sequence_number), r.unwrap()@),
        r is Ok ==> r.unwrap()@.len() + 16 == ciphertext@.len(),
        r is Ok ==> r.unwrap()@ == opened(key@, sequence_number, ciphertext@),
        r is Err ==> r.unwrap_err() is Crypto,
{
    let nonce = generate_nonce(sequence_number);
    match aead_open(key, &nonce, ciphertext) {
        Ok(plaintext) => {
            proof {
                let pv = plaintext@;
                assert(pv.len() <= 0xffff_ffff && ciphertext@ == seal_of(
                    key@,
                    nonce_of(sequence_number),
                    pv,
                ));
                let q = opened(key@, sequence_number, ciphertext@);
                assert(q.len() <= 0xffff_ffff && ciphertext@ == seal_of(
                    key@,
                    nonce_of(sequence_number),
                    q,
                ));
            }
            Ok(plaintext)
        },
        Err(_) => {
            proof {
                if opens(key@, sequence_number, ciphertext@) {
                    let p = choose|p: Seq<u8>|
                        p.len() <= 0xffff_ffff && ciphertext@ == seal_of(
                            key@,
                            nonce_of(sequence_number),
                            p,
                        );
                    assert(false);
                }
            }
            Err(
                OneboxError::Crypto(
                    String::from_str("Decryption failed (authentication tag mismatch)"),
                ),
            )
        },
    }
}

/// Relies on aead's `encrypt_in_place` for ChaCha20-Poly1305 with empty
/// associated data, as the crate's plain `encrypt` uses: the buffer
/// becomes its old contents sealed, growing by the 16-byte tag.
#[verifier::external_body]
fn aead_seal_in_place(key: &[u8; 32], nonce: &[u8; 12], buf: &mut Vec<u8>) -> (r: Result<(), ()>)
    ensures
        r is Ok ==> final(buf)@ == seal_of(key@, nonce@, old(buf)@),
        r is Ok ==> final(buf)@.len() == old(buf)@.len() + 16,
        old(buf)@.len() <= 0xffff_ffff ==> r is Ok,
{
    let cipher = ChaCha20Poly1305::new(&Key::from(*key));
    cipher.encrypt_in_place(&Nonce::from(*nonce), b"", buf).map_err(|_e| ())
}

/// Relies on aead's `decrypt_in_place` for ChaCha20-Poly1305: the tag is
/// checked before the buffer is touched, so failure leaves the buffer
/// unchanged; success strips the tag and leaves the plaintext that seals
/// to the old contents.
#[verifier::external_body]
fn aead_open_in_place(key: &[u8; 32], nonce: &[u8; 12], buf: &mut Vec<u8>) -> (r: Result<(), ()>)
    ensures
        r is Ok ==> old(buf)@ == seal_of(key@, nonce@, final(buf)@),
        r is Ok ==> final(buf)@.len() + 16 == old(buf)@.len(),
        forall|p: Seq<u8>|
            p.len() <= 0xffff_ffff && old(buf)@ == seal_of(key@, nonce@, p) ==> r is Ok
                && final(buf)@ == p,
        r is Err ==> final(buf)@ == old(buf)@,
{
    let cipher = ChaCha20Poly1305::new(&Key::from(*key));
    cipher.decrypt_in_place(&Nonce::from(*nonce), b"", buf).map_err(|_e| ())
}

/// Seal a buffer in place, avoiding a per-packet allocation on the hot
/// path: the buffer becomes its old contents sealed, growing by the
/// 16-byte tag.
pub fn encrypt_in_place(key: &[u8; 32], buf: &mut Vec<u8>, sequence_number: u64) -> (r:
    OneboxResult<()>)
    requires
        old(buf)@.len() <= MAX_SEAL_LEN,
    ensures
        r is Ok,
        final(buf)@ == seal_of(key@, nonce_of(sequence_number), old(buf)@),
        final(buf)@.len() == old(buf)@.len() + 16,
{
    let nonce = generate_nonce(sequence_number);
    match aead_seal_in_place(key, &nonce, buf) {
        Ok(()) => Ok(()),
        Err(_) => Err(OneboxError::Crypto(String::from_str("Encryption failed"))),
    }
}

/// Open a sealed buffer in place.  Succeeds exactly on contents the seal
/// function produces for this key and sequence number, leaving the
/// payload; failure leaves the buffer unchanged.
pub fn decrypt_in_place(key: &[u8; 32], buf: &mut Vec<u8>, sequence_number: u64) -> (r:
    OneboxResult<()>)
    requires
        old(buf)@.len() <= 0xffff_ffff,
    ensures
        r is Ok <==> opens(key@, sequence_number, old(buf)@),
        r is Ok ==> old(buf)@ == seal_of(key@, nonce_of(sequence_number), final(buf)@),
        r is Ok ==> final(buf)@ == opened(key@, sequence_number, old(buf)@),
        r is Ok ==> final(buf)@.len() + 16 == old(buf)@.len(),
        r is Err ==> final(buf)@ == old(buf)@ && r.unwrap_err() is Crypto,
{
    let nonce = generate_nonce(sequence_number);
    let ghost before = buf@;
    match aead_open_in_place(key, &nonce, buf) {
        Ok(()) => {
            proof {
                let pv = buf@;
                assert(pv.len() <= 0xffff_ffff && before == seal_of(
                    key@,
                    nonce_of(sequence_number),
                    pv,
                ));
                let q = opened(key@, sequence_number, before);
                assert(q.len() <= 0xffff_ffff && before == seal_of(
                    key@,
                    nonce_of(sequence_number),
                    q,
                ));
            }
            Ok(())
        },
        Err(_) => {
            proof {
                if opens(key@, sequence_number, before) {
                    let p = choose|p: Seq<u8>|
                        p.len() <= 0xffff_ffff && before == seal_of(
                            key@,
                            nonce_of(sequence_number),
                            p,
                        );
                    assert(false);
                }
            }
            Err(
                OneboxError::Crypto(
                    String::from_str("Decryption failed (authentication tag mismatch)"),
                ),
            )
        },
    }
}

} // verus!
