//! Health monitoring for network links.
//!
//! One prober per bound socket ticks every 500 ms: it reaps timed-out
//! probes, marks the link down once the consecutive-failure threshold is
//! reached, and emits a fresh probe.  Probe echoes routed back by the
//! demultiplexer reset the failure count and mark the link up.

use vstd::prelude::*;
use vstd::seq_lib::group_seq_properties;

verus! {

/// A link goes down the first tick its consecutive failures reach this
/// threshold.
pub const MAX_CONSECUTIVE_FAILURES: u32 = 4;

/// Represents the status of a network link.
#[derive(Debug, Clone, Copy, PartialEq, Eq, Structural)]
pub enum LinkStatus {
    /// The link is considered up and healthy.
    Up,
    /// The link is considered down due to probe failures.
    Down,
    /// The link is in an unknown state, awaiting first probe result.
    Unknown,
}

/// Whether a probe sent at `sent_at_ms` has timed out by `now_ms`.
pub open spec fn probe_timed_out(sent_at_ms: u64, now_ms: u64, timeout_ms: u64) -> bool {
    now_ms - sent_at_ms > timeout_ms
}

/// Whether no probe sequence number appears twice among the pairs.
pub open spec fn unique_probe_seqs(s: Seq<(u64, u64)>) -> bool {
    forall|i: int, j: int| 0 <= i < j < s.len() ==> s[i].0 != s[j].0
}

/// Filtering pairs keeps their probe sequence numbers distinct.
proof fn lemma_filter_keeps_unique_seqs(s: Seq<(u64, u64)>, pred: spec_fn((u64, u64)) -> bool)
    requires
        unique_probe_seqs(s),
    ensures
        unique_probe_seqs(s.filter(pred)),
        forall|i: int|
            0 <= i < s.filter(pred).len() ==> s.contains(#[trigger] s.filter(pred)[i]),
    decreases s.len(),
{
    reveal(Seq::filter);
    if s.len() > 0 {
        let d = s.drop_last();
        assert(unique_probe_seqs(d)) by {
            assert(forall|i: int, j: int|
                0 <= i < j < d.len() ==> d[i] == s[i] && d[j] == s[j]);
        }
        lemma_filter_keeps_unique_seqs(d, pred);
        let f = s.filter(pred);
        let fd = d.filter(pred);
        assert(forall|i: int| 0 <= i < fd.len() ==> d.contains(#[trigger] fd[i]) ==> s.contains(
            fd[i],
        )) by {
            assert(forall|k: int| 0 <= k < d.len() ==> d[k] == s[k]);
        }
        if pred(s.last()) {
            assert(f == fd.push(s.last()));
            assert forall|i: int, j: int| 0 <= i < j < f.len() implies f[i].0 != f[j].0 by {
                if j < f.len() - 1 {
                    assert(f[i] == fd[i] && f[j] == fd[j]);
                } else {
                    assert(f[j] == s.last());
                    assert(f[i] == fd[i]);
                    assert(d.contains(fd[i]));
                    let k = choose|k: int| 0 <= k < d.len() && d[k] == fd[i];
                    assert(s[k] == d[k]);
                    assert(s[k].0 != s[s.len() - 1].0);
                }
            }
        } else {
            assert(f == fd);
        }
    }
}

/// Holds health statistics for a single network link.
#[derive(Debug, Clone)]
pub struct LinkStats {
    /// The current status of the link.
    pub status: LinkStatus,
    /// The last measured round-trip time, in milliseconds.
    pub rtt_ms: u64,
    /// The number of probes sent.
    pub probes_sent: u64,
    /// The number of probe echoes received.
    pub probes_received: u64,
    /// Sent probes still awaiting an echo: pairs of probe sequence number
    /// and the instant the probe was sent, in milliseconds.
    pub in_flight_probes: Vec<(u64, u64)>,
    /// The next sequence number to use for a probe on this link.
    pub next_probe_seq: u64,
    /// Failures (timeouts and send errors) since the last good echo.
    pub consecutive_failures: u32,
}

/// The outcome of routing a probe echo to a link's statistics.
#[derive(Debug, Clone, Copy, PartialEq, Eq, Structural)]
pub enum EchoOutcome {
    /// No in-flight probe matched the echo; nothing changed.
    NoMatch,
    /// The echo matched an in-flight probe and the link was already up.
    Matched,
    /// The echo matched an in-flight probe and brought the link up.
    MatchedBecameUp,
}

impl LinkStats {
    /// No probe sequence number appears twice among the in-flight probes.
    pub open spec fn wf(self) -> bool {
        unique_probe_seqs(self.in_flight_probes@)
    }

    /// Whether a probe with this sequence number is in flight.
    pub open spec fn has_in_flight(self, seq: u64) -> bool {
        exists|i: int|
            0 <= i < self.in_flight_probes@.len() && self.in_flight_probes@[i].0 == seq
    }

    /// The instant the in-flight probe with this sequence number was sent.
    pub open spec fn sent_at_of(self, seq: u64) -> u64 {
        self.in_flight_probes@[choose|i: int|
            0 <= i < self.in_flight_probes@.len() && self.in_flight_probes@[i].0 == seq].1
    }

    /// Creates a new `LinkStats` with default values.
    pub fn new() -> (r: Self)
        ensures
            r.status == LinkStatus::Unknown,
            r.rtt_ms == 0,
            r.probes_sent == 0,
            r.probes_received == 0,
            r.in_flight_probes@.len() == 0,
            r.next_probe_seq == 0,
            r.consecutive_failures == 0,
            r.wf(),
    {
        LinkStats {
            status: LinkStatus::Unknown,
            rtt_ms: 0,
            probes_sent: 0,
            probes_received: 0,
            in_flight_probes: Vec::new(),
            next_probe_seq: 0,
            consecutive_failures: 0,
        }
    }

    /// The whole-percent packet loss this link reports: lost probes over
    /// sent probes, or zero before the first probe.
    pub open spec fn packet_loss_percent_spec(self) -> int {
        if self.probes_sent == 0 {
            0
        } else if self.probes_received <= self.probes_sent {
            (self.probes_sent - self.probes_received) * 100 / self.probes_sent as int
        } else {
            0
        }
    }

    /// Calculates the current packet loss percentage, in whole percent.
    pub fn packet_loss_percent(&self) -> (r: u64)
        ensures
            r == self.packet_loss_percent_spec(),
            r <= 100,
    {
        if self.probes_sent == 0 {
            0
        } else {
            let lost = self.probes_sent.saturating_sub(self.probes_received);
            let pct = (lost as u128 * 100) / (self.probes_sent as u128);
            proof {
                assert(lost as int * 100 / (self.probes_sent as int) <= 100) by (nonlinear_arith)
                    requires
                        0 < self.probes_sent as int,
                        0 <= lost as int <= self.probes_sent as int,
                ;
            }
            pct as u64
        }
    }

    /// Hand out the next probe sequence number, advancing the wrapping
    /// per-link counter.
    pub fn begin_probe(&mut self) -> (seq: u64)
        ensures
            seq == old(self).next_probe_seq,
            final(self).next_probe_seq == old(self).next_probe_seq.wrapping_add(1),
            *final(self) == (LinkStats { next_probe_seq: final(self).next_probe_seq, ..*old(self) }),
    {
        let seq = self.next_probe_seq;
        self.next_probe_seq = self.next_probe_seq.wrapping_add(1);
        seq
    }

    /// Record that the probe with this sequence number was handed to the
    /// socket successfully: count it and start its round-trip clock.
    pub fn record_probe_sent(&mut self, seq: u64, now_ms: u64)
        requires
            old(self).wf(),
            !old(self).has_in_flight(seq),
        ensures
            final(self).wf(),
            final(self).probes_sent == old(self).probes_sent.wrapping_add(1),
            final(self).in_flight_probes@ == old(self).in_flight_probes@.push((seq, now_ms)),
            final(self).has_in_flight(seq),
            final(self).sent_at_of(seq) == now_ms,
            *final(self) == (LinkStats {
                probes_sent: final(self).probes_sent,
                in_flight_probes: final(self).in_flight_probes,
                ..*old(self)
            }),
    {
        self.probes_sent = self.probes_sent.wrapping_add(1);
        self.in_flight_probes.push((seq, now_ms));
        proof {
            let s = self.in_flight_probes@;
            let i = choose|i: int| 0 <= i < s.len() && s[i].0 == seq;
            assert(s[s.len() - 1].0 == seq);
            assert(s[i] == (seq, now_ms));
        }
    }

    /// Record that handing a probe to the socket failed.
    pub fn record_send_failure(&mut self)
        ensures
            final(self).consecutive_failures == old(self).consecutive_failures.saturating_add(1),
            *final(self) == (LinkStats {
                consecutive_failures: final(self).consecutive_failures,
                ..*old(self)
            }),
    {
        self.consecutive_failures = self.consecutive_failures.saturating_add(1);
    }

    /// Remove every in-flight probe older than the timeout, counting one
    /// consecutive failure per reaped probe.
    pub fn reap_timeouts(&mut self, now_ms: u64, timeout_ms: u64) -> (reaped: usize)
        requires
            old(self).wf(),
        ensures
            final(self).wf(),
            final(self).in_flight_probes@ == old(self).in_flight_probes@.filter(
                (|e: (u64, u64)| !probe_timed_out(e.1, now_ms, timeout_ms)),
            ),
            reaped == old(self).in_flight_probes@.len() - final(self).in_flight_probes@.len(),
            final(self).consecutive_failures == (if old(self).consecutive_failures + reaped
                <= u32::MAX {
                (old(self).consecutive_failures + reaped) as u32
            } else {
                u32::MAX
            }),
            reaped <= old(self).in_flight_probes@.len(),
            *final(self) == (LinkStats {
                in_flight_probes: final(self).in_flight_probes,
                consecutive_failures: final(self).consecutive_failures,
                ..*old(self)
            }),
    {
        broadcast use group_seq_properties;

        let ghost keep = |e: (u64, u64)| !probe_timed_out(e.1, now_ms, timeout_ms);
        let n = self.in_flight_probes.len();
        let mut kept: Vec<(u64, u64)> = Vec::new();
        let mut i: usize = 0;
        while i < n
            invariant
                n == self.in_flight_probes@.len(),
                0 <= i <= n,
                kept@ == self.in_flight_probes@.subrange(0, i as int).filter(keep),
                keep == (|e: (u64, u64)| !probe_timed_out(e.1, now_ms, timeout_ms)),
            decreases n - i,
        {
            let (seq, sent_at) = *vstd::slice::slice_index_get(self.in_flight_probes.as_slice(), i);
            let ghost prefix = self.in_flight_probes@.subrange(0, i as int);
            let ghost prefix1 = self.in_flight_probes@.subrange(0, i as int + 1);
            let timed_out = now_ms >= sent_at && now_ms - sent_at > timeout_ms;
            if !timed_out {
                kept.push((seq, sent_at));
            }
            proof {
                reveal(Seq::filter);
                assert(prefix1.drop_last() =~= prefix);
                assert(prefix1.last() == (seq, sent_at));
                assert(prefix1.filter(keep) == if keep((seq, sent_at)) {
                    prefix.filter(keep).push((seq, sent_at))
                } else {
                    prefix.filter(keep)
                });
                assert(timed_out == !keep((seq, sent_at)));
            }
            i = i + 1;
        }
        proof {
            assert(self.in_flight_probes@.subrange(0, n as int) =~= self.in_flight_probes@);
            lemma_filter_keeps_unique_seqs(self.in_flight_probes@, keep);
            self.in_flight_probes@.lemma_filter_len(keep);
        }
        let reaped = n - kept.len();
        self.in_flight_probes = kept;
        let reaped_u32: u32 = if reaped > 0xffff_ffff {
            0xffff_ffff
        } else {
            reaped as u32
        };
        self.consecutive_failures = self.consecutive_failures.saturating_add(reaped_u32);
        reaped
    }

    /// Mark the link down if its consecutive failures have reached the
    /// threshold and it is not already down.  Returns whether the link
    /// went down on this call, so the caller can drop it from the active
    /// set.
    pub fn check_down(&mut self, threshold: u32) -> (went_down: bool)
        ensures
            went_down == (old(self).consecutive_failures >= threshold && old(self).status
                != LinkStatus::Down),
            final(self).status == (if went_down {
                LinkStatus::Down
            } else {
                old(self).status
            }),
            *final(self) == (LinkStats { status: final(self).status, ..*old(self) }),
    {
        if self.consecutive_failures >= threshold && self.status != LinkStatus::Down {
            self.status = LinkStatus::Down;
            true
        } else {
            false
        }
    }

    /// Route a probe echo to this link's statistics.  An echo with a
    /// matching in-flight probe records the round trip, resets the
    /// consecutive failures to zero, and marks the link up; an echo with
    /// no matching in-flight probe cannot authenticate a round trip and
    /// changes nothing.
    pub fn on_probe_echo(&mut self, seq: u64, now_ms: u64) -> (r: EchoOutcome)
        requires
            old(self).wf(),
        ensures
            final(self).wf(),
            r == EchoOutcome::NoMatch <==> !old(self).has_in_flight(seq),
            r == EchoOutcome::NoMatch ==> *final(self) == *old(self),
            old(self).has_in_flight(seq) ==> ({
                &&& final(self).consecutive_failures == 0
                &&& final(self).status == LinkStatus::Up
                &&& final(self).probes_received == old(self).probes_received.wrapping_add(1)
                &&& final(self).rtt_ms == now_ms.saturating_sub(old(self).sent_at_of(seq))
                &&& !final(self).has_in_flight(seq)
                &&& (r == EchoOutcome::MatchedBecameUp <==> old(self).status != LinkStatus::Up)
                &&& final(self).next_probe_seq == old(self).next_probe_seq
                &&& final(self).probes_sent == old(self).probes_sent
                &&& forall|q: u64|
                    q != seq ==> (final(self).has_in_flight(q) <==> old(self).has_in_flight(q))
            }),
    {
        let n = self.in_flight_probes.len();
        let mut idx: usize = 0;
        let mut found = false;
        let mut sent_at: u64 = 0;
        while idx < n && !found
            invariant
                n == self.in_flight_probes@.len(),
                0 <= idx <= n,
                !found ==> forall|k: int|
                    0 <= k < idx ==> self.in_flight_probes@[k].0 != seq,
                found ==> idx < n && self.in_flight_probes@[idx as int].0 == seq
                    && sent_at == self.in_flight_probes@[idx as int].1,
            decreases n - idx + (if found { 0int } else { 1int }),
        {
            let e = *vstd::slice::slice_index_get(self.in_flight_probes.as_slice(), idx);
            if e.0 == seq {
                found = true;
                sent_at = e.1;
            } else {
                idx = idx + 1;
            }
        }
        if !found {
            proof {
                assert(!self.has_in_flight(seq));
            }
            return EchoOutcome::NoMatch;
        }
        proof {
            assert(self.has_in_flight(seq));
            let j = choose|j: int|
                0 <= j < self.in_flight_probes@.len() && self.in_flight_probes@[j].0 == seq;
            assert(j == idx as int);
            assert(self.sent_at_of(seq) == sent_at);
        }
        let ghost before = self.in_flight_probes@;
        self.in_flight_probes.remove(idx);
        proof {
            let after = self.in_flight_probes@;
            assert(after =~= before.subrange(0, idx as int) + before.subrange(
                idx as int + 1,
                before.len() as int,
            ));
            assert forall|i: int, j: int| 0 <= i < j < after.len() implies after[i].0
                != after[j].0 by {
                let oi = if i < idx as int { i } else { i + 1 };
                let oj = if j < idx as int { j } else { j + 1 };
                assert(after[i] == before[oi] && after[j] == before[oj]);
            }
            assert forall|q: u64| q != seq && old(self).has_in_flight(q) implies exists|i: int|
                0 <= i < after.len() && after[i].0 == q by {
                let k = choose|k: int| 0 <= k < before.len() && before[k].0 == q;
                let k2 = if k < idx as int { k } else { k - 1 };
                assert(after[k2] == before[k]);
            }
            assert forall|i: int| 0 <= i < after.len() implies after[i].0 != seq by {
                let oi = if i < idx as int { i } else { i + 1 };
                assert(after[i] == before[oi]);
            }
        }
        self.probes_received = self.probes_received.wrapping_add(1);
        self.rtt_ms = now_ms.saturating_sub(sent_at);
        self.consecutive_failures = 0;
        if self.status != LinkStatus::Up {
            self.status = LinkStatus::Up;
            EchoOutcome::MatchedBecameUp
        } else {
            EchoOutcome::Matched
        }
    }
}

impl Default for LinkStats {
    /// Same as [`LinkStats::new`].
    fn default() -> (r: Self)
        ensures
            r.status == LinkStatus::Unknown,
            r.probes_sent == 0,
            r.probes_received == 0,
            r.in_flight_probes@.len() == 0,
            r.next_probe_seq == 0,
            r.consecutive_failures == 0,
            r.wf(),
    {
        LinkStats::new()
    }
}

} // verus!
