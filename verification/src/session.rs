//! Server-side per-client session state and the session table.
//!
//! Sessions are keyed by the 128-bit client id carried in every header.
//! A session is created Pending on first sight of a client id, records
//! the source address of the most recent datagram, and is never evicted.
//! The address type is a parameter: the table never looks inside it.

use crate::reorder::{accept_model, ReorderEngine};
use vstd::prelude::*;

verus! {

/// Authentication progress of one client session.
#[derive(Debug, Clone, Copy, PartialEq, Eq, Structural)]
pub enum AuthStatus {
    /// Created, but no authentication request has decrypted yet.
    Pending,
    /// An authentication request decrypted; data and probes are served.
    Authenticated,
}

/// Server-side state for one client id.
#[derive(Debug)]
pub struct ClientSession<A> {
    /// Whether the client has authenticated.
    pub auth_status: AuthStatus,
    /// The per-client reordering engine.
    pub reorder: ReorderEngine,
    /// Source address of the most recently received datagram.
    pub last_seen_addr: A,
}

impl<A> ClientSession<A> {
    /// The session invariant: its reordering engine is well formed.
    pub open spec fn wf(self) -> bool {
        self.reorder.wf()
    }

    /// A fresh Pending session for a client first seen at `addr`.
    pub fn new(addr: A) -> (r: Self)
        ensures
            r.wf(),
            r.auth_status == AuthStatus::Pending,
            r.reorder.next_seq is None,
            r.reorder.entries@.len() == 0,
            r.last_seen_addr == addr,
    {
        ClientSession {
            auth_status: AuthStatus::Pending,
            reorder: ReorderEngine::new(),
            last_seen_addr: addr,
        }
    }
}

/// Whether no client id appears twice among the entries.
pub open spec fn unique_ids<A>(s: Seq<(u128, ClientSession<A>)>) -> bool {
    forall|i: int, j: int| 0 <= i < j < s.len() ==> s[i].0 != s[j].0
}

/// The session a sequence of keyed entries holds for a client id.
pub open spec fn lookup_seq<A>(s: Seq<(u128, ClientSession<A>)>, id: u128) -> Option<
    ClientSession<A>,
> {
    if exists|i: int| 0 <= i < s.len() && s[i].0 == id {
        Some(s[choose|i: int| 0 <= i < s.len() && s[i].0 == id].1)
    } else {
        None
    }
}

/// Replacing the session of one entry changes that client's lookup and
/// no other.
proof fn lemma_update_lookup<A>(before: Seq<(u128, ClientSession<A>)>, at: int, s: ClientSession<
    A,
>)
    requires
        0 <= at < before.len(),
        unique_ids(before),
    ensures
        ({
            let after = before.update(at, (before[at].0, s));
            &&& unique_ids(after)
            &&& lookup_seq(after, before[at].0) == Some(s)
            &&& forall|q: u128| q != before[at].0 ==> lookup_seq(after, q) == lookup_seq(before, q)
        }),
{
    let id = before[at].0;
    let after = before.update(at, (id, s));
    assert(forall|i: int| 0 <= i < after.len() && i != at ==> after[i] == before[i]);
    assert(after[at] == (id, s));
    assert forall|i: int, j: int| 0 <= i < j < after.len() implies after[i].0 != after[j].0 by {
        assert(after[i].0 == before[i].0 && after[j].0 == before[j].0);
    }
    assert(lookup_seq(after, id) == Some(s)) by {
        assert(after[at].0 == id);
        let k = choose|k: int| 0 <= k < after.len() && after[k].0 == id;
        if k != at {
            assert(before[k].0 == after[k].0);
        }
    }
    assert forall|q: u128| q != id implies lookup_seq(after, q) == lookup_seq(before, q) by {
        if exists|k: int| 0 <= k < after.len() && after[k].0 == q {
            let k = choose|k: int| 0 <= k < after.len() && after[k].0 == q;
            assert(k != at);
            assert(before[k] == after[k]);
            let k2 = choose|k2: int| 0 <= k2 < before.len() && before[k2].0 == q;
            assert(k2 != at);
            assert(after[k2] == before[k2]);
            if k2 != k {
                assert(after[k2].0 != after[k].0);
            }
        } else {
            if exists|k: int| 0 <= k < before.len() && before[k].0 == q {
                let k = choose|k: int| 0 <= k < before.len() && before[k].0 == q;
                assert(k != at);
                assert(after[k] == before[k]);
                assert(false);
            }
        }
    }
}

/// The session table: per-client state, keyed by client id.
#[derive(Debug)]
pub struct SessionTable<A> {
    /// One entry per client id ever seen.
    pub sessions: Vec<(u128, ClientSession<A>)>,
}

impl<A> SessionTable<A> {
    /// The table invariant: one entry per client id, every session well
    /// formed.
    pub open spec fn wf(self) -> bool {
        &&& unique_ids(self.sessions@)
        &&& forall|i: int| 0 <= i < self.sessions@.len() ==> (#[trigger] self.sessions@[i].1).wf()
    }

    /// The session stored for a client id, if any.
    pub open spec fn lookup(self, id: u128) -> Option<ClientSession<A>> {
        lookup_seq(self.sessions@, id)
    }

    /// An empty table.
    pub fn new() -> (r: Self)
        ensures
            r.wf(),
            r.sessions@.len() == 0,
            forall|id: u128| r.lookup(id) is None,
    {
        SessionTable { sessions: Vec::new() }
    }

    /// The index of the entry for a client id.
    fn find_idx(&self, id: u128) -> (r: Option<usize>)
        requires
            unique_ids(self.sessions@),
        ensures
            r is Some ==> r.unwrap() < self.sessions@.len() && self.sessions@[
                r.unwrap() as int
            ].0 == id && self.lookup(id) == Some(self.sessions@[r.unwrap() as int].1),
            r is None <==> self.lookup(id) is None,
    {
        let n = self.sessions.len();
        let mut i: usize = 0;
        while i < n
            invariant
                n == self.sessions@.len(),
                0 <= i <= n,
                unique_ids(self.sessions@),
                forall|k: int| 0 <= k < i ==> self.sessions@[k].0 != id,
            decreases n - i,
        {
            if self.sessions[i].0 == id {
                proof {
                    assert(self.sessions@[i as int].0 == id);
                    let j = choose|j: int|
                        0 <= j < self.sessions@.len() && self.sessions@[j].0 == id;
                    if j != i as int {
                        assert(self.sessions@[j].0 == self.sessions@[i as int].0);
                        assert(false);
                    }
                }
                return Some(i);
            }
            i = i + 1;
        }
        proof {
            if self.lookup(id) is Some {
                let j = choose|j: int| 0 <= j < self.sessions@.len() && self.sessions@[j].0 == id;
                assert(false);
            }
        }
        None
    }

    /// Create or refresh the session for a client id: a fresh Pending
    /// session on first sight, and in either case the source address of
    /// this datagram recorded.
    pub fn upsert_addr(&mut self, id: u128, peer: A)
        requires
            old(self).wf(),
        ensures
            final(self).wf(),
            final(self).lookup(id) is Some,
            ({
                let s = final(self).lookup(id).unwrap();
                &&& s.last_seen_addr == peer
                &&& s.auth_status == (match old(self).lookup(id) {
                    Some(t) => t.auth_status,
                    None => AuthStatus::Pending,
                })
                &&& (match old(self).lookup(id) {
                    Some(t) => s.reorder == t.reorder,
                    None => s.reorder.next_seq is None && s.reorder.entries@.len() == 0,
                })
            }),
            forall|q: u128| q != id ==> final(self).lookup(q) == old(self).lookup(q),
    {
        match self.find_idx(id) {
            Some(at) => {
                let ghost before = self.sessions@;
                let (key, mut s) = self.sessions.remove(at);
                s.last_seen_addr = peer;
                self.sessions.insert(at, (key, s));
                proof {
                    let after = self.sessions@;
                    assert(after =~= before.update(at as int, after[at as int]));
                    assert(after[at as int].0 == id);
                    lemma_update_lookup(before, at as int, after[at as int].1);
                }
            },
            None => {
                let ghost before = self.sessions@;
                self.sessions.push((id, ClientSession::new(peer)));
                proof {
                    let after = self.sessions@;
                    assert(after.drop_last() =~= before);
                    assert forall|i: int, j: int| 0 <= i < j < after.len() implies after[i].0
                        != after[j].0 by {
                        if j == after.len() - 1 {
                            assert(after[i] == before[i]);
                            if after[i].0 == id {
                                assert(lookup_seq(before, id) is Some);
                            }
                        } else {
                            assert(after[i] == before[i] && after[j] == before[j]);
                        }
                    }
                    assert(lookup_seq(after, id) == Some(after[after.len() - 1].1)) by {
                        assert(after[after.len() - 1].0 == id);
                        let k = choose|k: int| 0 <= k < after.len() && after[k].0 == id;
                        if k != after.len() - 1 {
                            assert(before[k] == after[k]);
                            assert(lookup_seq(before, id) is Some);
                        }
                    }
                    assert forall|q: u128| q != id implies lookup_seq(after, q) == lookup_seq(
                        before,
                        q,
                    ) by {
                        if exists|k: int| 0 <= k < after.len() && after[k].0 == q {
                            let k = choose|k: int| 0 <= k < after.len() && after[k].0 == q;
                            assert(k != after.len() - 1);
                            assert(before[k] == after[k]);
                            let k2 = choose|k2: int|
                                0 <= k2 < before.len() && before[k2].0 == q;
                            assert(after[k2] == before[k2]);
                            if k2 != k {
                                assert(after[k2].0 != after[k].0);
                            }
                        } else {
                            if exists|k: int| 0 <= k < before.len() && before[k].0 == q {
                                let k = choose|k: int|
                                    0 <= k < before.len() && before[k].0 == q;
                                assert(after[k] == before[k]);
                                assert(false);
                            }
                        }
                    }
                }
            },
        }
    }

    /// The authentication status of a known client.
    pub fn auth_status_of(&self, id: u128) -> (r: AuthStatus)
        requires
            self.wf(),
            self.lookup(id) is Some,
        ensures
            r == self.lookup(id).unwrap().auth_status,
    {
        match self.find_idx(id) {
            Some(at) => self.sessions[at].1.auth_status,
            None => vstd::pervasive::unreached(),
        }
    }

    /// Mark a known client authenticated: an authentication request that
    /// decrypts upgrades the session, and doing it again is harmless.
    pub fn authenticate(&mut self, id: u128)
        requires
            old(self).wf(),
            old(self).lookup(id) is Some,
        ensures
            final(self).wf(),
            final(self).lookup(id) is Some,
            ({
                let s = final(self).lookup(id).unwrap();
                let t = old(self).lookup(id).unwrap();
                &&& s.auth_status == AuthStatus::Authenticated
                &&& s.reorder == t.reorder
                &&& s.last_seen_addr == t.last_seen_addr
            }),
            forall|q: u128| q != id ==> final(self).lookup(q) == old(self).lookup(q),
    {
        match self.find_idx(id) {
            Some(at) => {
                let ghost before = self.sessions@;
                let (key, mut s) = self.sessions.remove(at);
                s.auth_status = AuthStatus::Authenticated;
                self.sessions.insert(at, (key, s));
                proof {
                    let after = self.sessions@;
                    assert(after =~= before.update(at as int, after[at as int]));
                    assert(after[at as int].0 == id);
                    lemma_update_lookup(before, at as int, after[at as int].1);
                }
            },
            None => vstd::pervasive::unreached(),
        }
    }

    /// Feed a decrypted data payload to a known client's reordering
    /// engine and return the payloads released for delivery, in strictly
    /// increasing sequence order.
    pub fn accept_data(&mut self, id: u128, seq: u64, payload: Vec<u8>) -> (out: Vec<Vec<u8>>)
        requires
            old(self).wf(),
            old(self).lookup(id) is Some,
        ensures
            final(self).wf(),
            final(self).lookup(id) is Some,
            ({
                let s = final(self).lookup(id).unwrap();
                let t = old(self).lookup(id).unwrap();
                let m = accept_model(t.reorder.buf(), t.reorder.next_seq, seq, payload@);
                &&& s.auth_status == t.auth_status
                &&& s.last_seen_addr == t.last_seen_addr
                &&& s.reorder.buf() == m.0
                &&& s.reorder.next_seq == Some(m.1)
                &&& out.deep_view() == m.2
            }),
            forall|q: u128| q != id ==> final(self).lookup(q) == old(self).lookup(q),
    {
        match self.find_idx(id) {
            Some(at) => {
                let ghost before = self.sessions@;
                let (key, mut s) = self.sessions.remove(at);
                let out = s.reorder.accept(seq, payload);
                self.sessions.insert(at, (key, s));
                proof {
                    let after = self.sessions@;
                    assert(after =~= before.update(at as int, after[at as int]));
                    assert(after[at as int].0 == id);
                    lemma_update_lookup(before, at as int, after[at as int].1);
                }
                out
            },
            None => vstd::pervasive::unreached(),
        }
    }
}

impl<A: Copy> SessionTable<A> {
    /// The first authenticated session in table order, as the downstream
    /// emitter picks it: its client id and last-seen address.
    pub fn first_authenticated(&self) -> (r: Option<(u128, A)>)
        ensures
            r is None <==> (forall|i: int|
                0 <= i < self.sessions@.len() ==> (#[trigger] self.sessions@[i].1).auth_status
                    != AuthStatus::Authenticated),
            r is Some ==> (exists|i: int|
                0 <= i < self.sessions@.len() && (#[trigger] self.sessions@[i].1).auth_status
                    == AuthStatus::Authenticated && r.unwrap().0 == self.sessions@[i].0
                    && r.unwrap().1 == self.sessions@[i].1.last_seen_addr && (forall|j: int|
                    0 <= j < i ==> self.sessions@[j].1.auth_status != AuthStatus::Authenticated)),
    {
        let n = self.sessions.len();
        let mut i: usize = 0;
        while i < n
            invariant
                n == self.sessions@.len(),
                0 <= i <= n,
                forall|k: int|
                    0 <= k < i ==> (#[trigger] self.sessions@[k].1).auth_status
                        != AuthStatus::Authenticated,
            decreases n - i,
        {
            if self.sessions[i].1.auth_status == AuthStatus::Authenticated {
                return Some((self.sessions[i].0, self.sessions[i].1.last_seen_addr));
            }
            i = i + 1;
        }
        None
    }
}

} // verus!
