//! Server worker logic: what one worker does with one received datagram,
//! and what the downstream emitter sends.
//!
//! Workers deserialize the header, upsert the session for the client id,
//! and act by packet type: an authentication request that decrypts
//! upgrades the session and is answered; data from an authenticated
//! client is opened and fed to the reordering engine; a probe from an
//! authenticated client that decrypts is echoed verbatim.  Everything
//! else is dropped.

use crate::crypto::{decrypt, nonce_of, opened, opens, seal_of};
use crate::packet::{parse_header, ClientId, PacketHeader, PacketType};
use crate::reorder::accept_model;
use crate::session::{AuthStatus, SessionTable};
use crate::wire::{build_auth_response, build_data, is_auth_response};
use vstd::prelude::*;
use vstd::slice::{slice_subrange, slice_to_vec};

verus! {

/// What a worker hands back for one datagram: at most one reply to the
/// peer, and the payloads released for delivery to the virtual
/// interface, in order.
pub struct WorkerOutput {
    /// A datagram to send back to the source address, if any.
    pub reply: Option<Vec<u8>>,
    /// Payloads to write to the virtual interface, in sequence order.
    pub deliver: Vec<Vec<u8>>,
}

impl WorkerOutput {
    /// An output that neither replies nor delivers.
    fn silent() -> (r: WorkerOutput)
        ensures
            r.reply is None,
            r.deliver@.len() == 0,
    {
        WorkerOutput { reply: None, deliver: Vec::new() }
    }
}

/// Process one received datagram against the session table.  The session for the header's client id is created on first
/// sight and its last-seen address refreshed on every datagram whose
/// header parses; the reply and deliveries depend on the packet type,
/// the session's authentication, and whether the payload opens.
pub fn handle_datagram<A: Copy>(
    table: &mut SessionTable<A>,
    key: &[u8; 32],
    datagram: &[u8],
    peer: A,
) -> (r: WorkerOutput)
    requires
        old(table).wf(),
        datagram@.len() <= 65535,
    ensures
        final(table).wf(),
        parse_header(datagram@) is None ==> *final(table) == *old(table) && r.reply is None
            && r.deliver@.len() == 0,
        parse_header(datagram@) is Some ==> ({
            let h = parse_header(datagram@).unwrap();
            let id = h.client_id.0;
            let ct = datagram@.skip(40);
            let ok = opens(key@, h.sequence_number, ct);
            let old_auth = match old(table).lookup(id) {
                Some(t) => t.auth_status,
                None => AuthStatus::Pending,
            };
            let old_buf = match old(table).lookup(id) {
                Some(t) => t.reorder.buf(),
                None => Map::<u64, Seq<u8>>::empty(),
            };
            let old_next = match old(table).lookup(id) {
                Some(t) => t.reorder.next_seq,
                None => None,
            };
            let s = final(table).lookup(id).unwrap();
            &&& final(table).lookup(id) is Some
            &&& s.last_seen_addr == peer
            &&& (forall|q: u128| q != id ==> final(table).lookup(q) == old(table).lookup(q))
            &&& s.auth_status == (if h.packet_type == PacketType::AuthRequest && ok {
                AuthStatus::Authenticated
            } else {
                old_auth
            })
            &&& (if h.packet_type == PacketType::Data && old_auth == AuthStatus::Authenticated
                && ok {
                let m = accept_model(
                    old_buf,
                    old_next,
                    h.sequence_number,
                    opened(key@, h.sequence_number, ct),
                );
                &&& s.reorder.buf() == m.0
                &&& s.reorder.next_seq == Some(m.1)
                &&& r.deliver.deep_view() == m.2
            } else {
                &&& s.reorder.buf() == old_buf
                &&& s.reorder.next_seq == old_next
                &&& r.deliver@.len() == 0
            })
            &&& (if h.packet_type == PacketType::AuthRequest && ok {
                r.reply is Some && is_auth_response(r.reply.unwrap()@, key@, id)
            } else if h.packet_type == PacketType::Probe && old_auth == AuthStatus::Authenticated
                && ok {
                r.reply is Some && r.reply.unwrap()@ == datagram@
            } else {
                r.reply is None
            })
        }),
{
    let header = match PacketHeader::deserialize(datagram) {
        Ok(h) => h,
        Err(_) => {
            return WorkerOutput::silent();
        },
    };
    let id = header.client_id.0;
    table.upsert_addr(id, peer);
    let ciphertext = slice_subrange(datagram, 40, datagram.len());
    proof {
        assert(ciphertext@ =~= datagram@.skip(40));
    }
    match header.packet_type {
        PacketType::AuthRequest => {
            match decrypt(key, ciphertext, header.sequence_number) {
                Ok(_plain) => {
                    table.authenticate(id);
                    let reply = build_auth_response(key, header.client_id);
                    WorkerOutput { reply: Some(reply), deliver: Vec::new() }
                },
                Err(_) => WorkerOutput::silent(),
            }
        },
        PacketType::Data => {
            if table.auth_status_of(id) == AuthStatus::Authenticated {
                match decrypt(key, ciphertext, header.sequence_number) {
                    Ok(plain) => {
                        let out = table.accept_data(id, header.sequence_number, plain);
                        WorkerOutput { reply: None, deliver: out }
                    },
                    Err(_) => WorkerOutput::silent(),
                }
            } else {
                WorkerOutput::silent()
            }
        },
        PacketType::Probe => {
            if table.auth_status_of(id) == AuthStatus::Authenticated {
                match decrypt(key, ciphertext, header.sequence_number) {
                    Ok(_plain) => {
                        let echo = slice_to_vec(datagram);
                        WorkerOutput { reply: Some(echo), deliver: Vec::new() }
                    },
                    Err(_) => WorkerOutput::silent(),
                }
            } else {
                WorkerOutput::silent()
            }
        },
        _ => WorkerOutput::silent(),
    }
}

/// What the downstream emitter sends for one packet read from the
/// virtual interface: the first authenticated session's address, and a
/// data datagram sealed under the next downstream sequence number.
/// Nothing is sent while no client is authenticated.
pub fn build_downstream<A: Copy>(
    table: &SessionTable<A>,
    key: &[u8; 32],
    sequence_number: u64,
    payload: &[u8],
) -> (r: Option<(A, Vec<u8>)>)
    requires
        payload@.len() <= 0xffff_ffff,
    ensures
        r is None <==> (forall|i: int|
            0 <= i < table.sessions@.len() ==> (#[trigger] table.sessions@[i].1).auth_status
                != AuthStatus::Authenticated),
        r is Some ==> ({
            let b = r.unwrap().1;
            &&& parse_header(b@) is Some
            &&& parse_header(b@).unwrap().sequence_number == sequence_number
            &&& parse_header(b@).unwrap().packet_type == PacketType::Data
            &&& b@.skip(40) == seal_of(key@, nonce_of(sequence_number), payload@)
            &&& (exists|i: int|
                0 <= i < table.sessions@.len() && (#[trigger] table.sessions@[i].1).auth_status
                    == AuthStatus::Authenticated && parse_header(b@).unwrap().client_id.0
                    == table.sessions@[i].0 && r.unwrap().0 == table.sessions@[i].1.last_seen_addr)
        }),
{
    match table.first_authenticated() {
        Some((id, addr)) => {
            let b = build_data(key, sequence_number, ClientId(id), payload);
            Some((addr, b))
        },
        None => None,
    }
}

/// Whether a byte separates words in route-command output.
pub open spec fn is_space(b: u8) -> bool {
    b == 32 || b == 9 || b == 10 || b == 13
}

/// Length of the leading run of non-space bytes.
pub open spec fn token_len(s: Seq<u8>) -> int
    decreases s.len(),
{
    if s.len() == 0 {
        0
    } else if is_space(s[0]) {
        0
    } else {
        1 + token_len(s.drop_first())
    }
}

/// What `token_len` measures: a maximal non-space prefix.
proof fn lemma_token_len(s: Seq<u8>)
    ensures
        0 <= token_len(s) <= s.len(),
        forall|k: int| 0 <= k < token_len(s) ==> !is_space(s[k]),
        token_len(s) < s.len() ==> is_space(s[token_len(s)]),
    decreases s.len(),
{
    if s.len() > 0 && !is_space(s[0]) {
        lemma_token_len(s.drop_first());
        assert forall|k: int| 0 <= k < token_len(s) implies !is_space(s[k]) by {
            if k > 0 {
                assert(s.drop_first()[k - 1] == s[k]);
            }
        }
        if token_len(s) < s.len() {
            assert(s.drop_first()[token_len(s) - 1] == s[token_len(s)]);
        }
    }
}

/// The length of the leading non-space run is pinned down by its
/// endpoints: all non-space before, space or the end at it.
proof fn lemma_token_len_eq(s: Seq<u8>, l: int)
    requires
        0 <= l <= s.len(),
        forall|k: int| 0 <= k < l ==> !is_space(s[k]),
        l < s.len() ==> is_space(s[l]),
    ensures
        token_len(s) == l,
    decreases s.len(),
{
    if l == 0 {
    } else {
        assert(!is_space(s[0]));
        let d = s.drop_first();
        assert forall|k: int| 0 <= k < l - 1 implies !is_space(d[k]) by {
            assert(d[k] == s[k + 1]);
        }
        if l - 1 < d.len() {
            assert(d[l - 1] == s[l]);
        }
        lemma_token_len_eq(d, l - 1);
    }
}

/// The whitespace-separated words of a byte string, in order.
pub open spec fn tokenize(s: Seq<u8>) -> Seq<Seq<u8>>
    decreases s.len(),
    via tokenize_decreases
{
    if s.len() == 0 {
        Seq::empty()
    } else if is_space(s[0]) {
        tokenize(s.drop_first())
    } else {
        seq![s.take(token_len(s))] + tokenize(s.skip(token_len(s)))
    }
}

#[via_fn]
proof fn tokenize_decreases(s: Seq<u8>) {
    if s.len() > 0 && !is_space(s[0]) {
        lemma_token_len(s);
    }
}

/// The word `dev` in ASCII, as route-command output names the device.
pub open spec fn dev_bytes() -> Seq<u8> {
    seq![100u8, 101u8, 118u8]
}

/// The device name in route-command output: the word that follows the
/// first `dev` word, if both exist.
pub open spec fn parse_dev_spec(s: Seq<u8>) -> Option<Seq<u8>> {
    let toks = tokenize(s);
    match toks.index_of_first(dev_bytes()) {
        Option::Some(i) => if i + 1 < toks.len() {
            Some(toks[i + 1])
        } else {
            None
        },
        Option::None => None,
    }
}

/// Whether two byte strings hold the same bytes.
fn bytes_eq(a: &[u8], b: &[u8]) -> (r: bool)
    ensures
        r == (a@ == b@),
{
    let n = a.len();
    if n != b.len() {
        proof {
            assert(a@.len() != b@.len());
        }
        return false;
    }
    let mut i: usize = 0;
    while i < n
        invariant
            n == a@.len() && n == b@.len(),
            0 <= i <= n,
            forall|k: int| 0 <= k < i ==> a@[k] == b@[k],
        decreases n - i,
    {
        if *vstd::slice::slice_index_get(a, i) != *vstd::slice::slice_index_get(b, i) {
            return false;
        }
        i = i + 1;
    }
    proof {
        assert(a@ =~= b@);
    }
    true
}

/// Split route-command output into its whitespace-separated words.
pub fn tokenize_bytes(s: &[u8]) -> (r: Vec<Vec<u8>>)
    ensures
        r.deep_view() == tokenize(s@),
{
    let n = s.len();
    let mut out: Vec<Vec<u8>> = Vec::new();
    let mut i: usize = 0;
    proof {
        assert(s@.skip(0) =~= s@);
        assert(out.deep_view() =~= Seq::<Seq<u8>>::empty());
        assert(out.deep_view() + tokenize(s@) =~= tokenize(s@));
    }
    while i < n
        invariant
            n == s@.len(),
            0 <= i <= n,
            tokenize(s@) == out.deep_view() + tokenize(s@.skip(i as int)),
        decreases n - i,
    {
        let c = *vstd::slice::slice_index_get(s, i);
        if c == 32 || c == 9 || c == 10 || c == 13 {
            proof {
                let rem = s@.skip(i as int);
                assert(rem[0] == s@[i as int]);
                assert(is_space(rem[0]));
                assert(rem.drop_first() =~= s@.skip(i as int + 1));
            }
            i = i + 1;
        } else {
            let start = i;
            let mut j = i;
            while j < n
                invariant
                    n == s@.len(),
                    start <= j <= n,
                    0 <= start < n,
                    forall|k: int| start <= k < j ==> !is_space(s@[k]),
                ensures
                    start <= j <= n,
                    forall|k: int| start <= k < j ==> !is_space(s@[k]),
                    j < n ==> is_space(s@[j as int]),
                decreases n - j,
            {
                let c2 = *vstd::slice::slice_index_get(s, j);
                if c2 == 32 || c2 == 9 || c2 == 10 || c2 == 13 {
                    proof {
                        assert(is_space(s@[j as int]));
                    }
                    break ;
                }
                proof {
                    assert(!is_space(s@[j as int]));
                }
                j = j + 1;
            }
            let token = vstd::slice::slice_to_vec(slice_subrange(s, start, j));
            let ghost rem = s@.skip(start as int);
            proof {
                let l = j - start;
                assert forall|k: int| 0 <= k < l implies !is_space(rem[k]) by {
                    assert(rem[k] == s@[start + k]);
                }
                if l < rem.len() {
                    assert(rem[l] == s@[j as int]);
                }
                lemma_token_len_eq(rem, l);
                assert(!is_space(rem[0]));
                assert(tokenize(rem) == seq![rem.take(l)] + tokenize(rem.skip(l)));
                assert(rem.take(l) =~= s@.subrange(start as int, j as int));
                assert(rem.skip(l) =~= s@.skip(j as int));
                assert(token@ == rem.take(l));
            }
            let ghost before = out.deep_view();
            out.push(token);
            proof {
                assert(out.deep_view() =~~= before.push(token@));
                assert(out.deep_view() + tokenize(s@.skip(j as int)) =~~= before + (seq![
                    token@,
                ] + tokenize(s@.skip(j as int))));
            }
            i = j;
        }
    }
    proof {
        assert(s@.skip(n as int) =~= Seq::<u8>::empty());
        assert(tokenize(Seq::<u8>::empty()) =~= Seq::<Seq<u8>>::empty());
        assert(out.deep_view() + Seq::<Seq<u8>>::empty() =~~= out.deep_view());
    }
    out
}

/// The compute half of finding the default interface: parse the output
/// of the host's route query and return the device name that follows
/// the first `dev` word.  The caller runs the query and hands the bytes
/// in.
pub fn parse_device_token(output: &[u8]) -> (r: Option<Vec<u8>>)
    ensures
        r is Some <==> parse_dev_spec(output@) is Some,
        r is Some ==> r.unwrap()@ == parse_dev_spec(output@).unwrap(),
{
    let tokens = tokenize_bytes(output);
    let dev: [u8; 3] = [100, 101, 118];
    proof {
        assert(dev@ =~= dev_bytes());
        tokenize(output@).index_of_first_ensures(dev_bytes());
    }
    let n = tokens.len();
    let mut i: usize = 0;
    while i < n
        invariant
            n == tokens.deep_view().len(),
            n == tokens@.len(),
            0 <= i <= n,
            tokens.deep_view() == tokenize(output@),
            forall|k: int| 0 <= k < i ==> tokens.deep_view()[k] != dev_bytes(),
            dev@ == dev_bytes(),
        decreases n - i,
    {
        if bytes_eq(tokens[i].as_slice(), dev.as_slice()) {
            proof {
                assert(tokens.deep_view()[i as int] =~= tokens@[i as int]@);
                assert(tokens.deep_view()[i as int] == dev_bytes());
                tokenize(output@).index_of_first_ensures(dev_bytes());
                let fi = tokenize(output@).index_of_first(dev_bytes());
                assert(fi is Some && fi.unwrap() == i as int);
            }
            if i + 1 < n {
                let token = vstd::slice::slice_to_vec(tokens[i + 1].as_slice());
                proof {
                    assert(token@ =~= tokens.deep_view()[i as int + 1]);
                }
                return Some(token);
            } else {
                return None;
            }
        }
        proof {
            assert(tokens.deep_view()[i as int] =~= tokens@[i as int]@);
        }
        i = i + 1;
    }
    proof {
        tokenize(output@).index_of_first_ensures(dev_bytes());
        let fi = tokenize(output@).index_of_first(dev_bytes());
        if fi is Some {
            assert(tokenize(output@)[fi.unwrap()] == dev_bytes());
            assert(false);
        }
    }
    None
}

} // verus!
