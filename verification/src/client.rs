//! Client-side engine: per-link health, the active set, dispatch and
//! demultiplex decisions, handshake bookkeeping, and WAN interface
//! filtering.
//!
//! The engine owns one [`LinkStats`] per discovered link and the active
//! set over those links.  The prober, the upstream dispatcher and the
//! downstream demultiplexer all decide here; sockets, timers and the
//! virtual interface stay with the caller, which hands in plain values
//! (link indices, instants in milliseconds, datagram bytes).

use crate::active::ActiveLinks;
use crate::crypto::{opened, opens};
use crate::error::OneboxResult;
use crate::health::{probe_timed_out, EchoOutcome, LinkStats, LinkStatus};
use crate::packet::{parse_header, PacketType};
use vstd::prelude::*;
use vstd::slice::slice_subrange;

verus! {

/// How often a prober ticks, in milliseconds.
pub const PROBE_INTERVAL_MS: u64 = 500;

/// How long a probe may stay in flight before it counts as lost, in
/// milliseconds.
pub const PROBE_TIMEOUT_MS: u64 = 2000;

/// How many times the handshake is attempted before startup fails.
pub const HANDSHAKE_ATTEMPTS: u32 = 5;

/// What the downstream demultiplexer does with one received datagram.
#[derive(Debug, Clone, Copy, PartialEq, Eq, Structural)]
pub enum Demux {
    /// The header did not parse; drop the datagram.
    Malformed,
    /// A probe echo carrying this sequence number: route it to the
    /// originating link's statistics.
    ProbeEcho(u64),
    /// A data packet carrying this sequence number: open it and write
    /// the payload to the virtual interface.
    DataPacket(u64),
    /// Any other packet type; drop the datagram.
    Ignored,
}

/// Classify one received datagram by its header.
pub fn classify_datagram(datagram: &[u8]) -> (r: Demux)
    ensures
        r == (match parse_header(datagram@) {
            Option::None => Demux::Malformed,
            Option::Some(h) => match h.packet_type {
                PacketType::Probe => Demux::ProbeEcho(h.sequence_number),
                PacketType::Data => Demux::DataPacket(h.sequence_number),
                _ => Demux::Ignored,
            },
        }),
{
    match crate::packet::PacketHeader::deserialize(datagram) {
        Ok(h) => match h.packet_type {
            PacketType::Probe => Demux::ProbeEcho(h.sequence_number),
            PacketType::Data => Demux::DataPacket(h.sequence_number),
            _ => Demux::Ignored,
        },
        Err(_) => Demux::Malformed,
    }
}

/// Open the payload of a received data datagram: everything after the
/// header, under the nonce of the header's sequence number.  Succeeds
/// exactly when the header parses and the payload opens; tampering, a
/// wrong key, a wrong sequence number or a runt datagram all fail.
pub fn open_data_datagram(key: &[u8; 32], datagram: &[u8]) -> (r: OneboxResult<Vec<u8>>)
    requires
        datagram@.len() <= 65535,
    ensures
        r is Ok <==> (parse_header(datagram@) is Some && opens(
            key@,
            parse_header(datagram@).unwrap().sequence_number,
            datagram@.skip(40),
        )),
        r is Ok ==> r.unwrap()@ == opened(
            key@,
            parse_header(datagram@).unwrap().sequence_number,
            datagram@.skip(40),
        ),
{
    let header = match crate::packet::PacketHeader::deserialize(datagram) {
        Ok(h) => h,
        Err(e) => {
            return Err(e);
        },
    };
    let ciphertext = slice_subrange(datagram, 40, datagram.len());
    proof {
        assert(ciphertext@ =~= datagram@.skip(40));
    }
    crate::crypto::decrypt(key, ciphertext, header.sequence_number)
}

/// Whether a received datagram concludes the handshake: any datagram
/// whose header parses as an authentication response.
pub fn handshake_response_ok(datagram: &[u8]) -> (r: bool)
    ensures
        r == (parse_header(datagram@) is Some && parse_header(datagram@).unwrap().packet_type
            == PacketType::AuthResponse),
{
    match crate::packet::PacketHeader::deserialize(datagram) {
        Ok(h) => h.packet_type == PacketType::AuthResponse,
        Err(_) => false,
    }
}

/// Handshake retry bookkeeping: a fixed number of attempts, each with
/// its own timeout, no back-off; running out is fatal.
#[derive(Debug, Clone, Copy, PartialEq, Eq, Structural)]
pub struct HandshakeDriver {
    /// Attempts not yet used up.
    pub attempts_left: u32,
}

impl HandshakeDriver {
    /// A fresh driver with all attempts available.
    pub fn new() -> (r: Self)
        ensures
            r.attempts_left == HANDSHAKE_ATTEMPTS,
    {
        HandshakeDriver { attempts_left: HANDSHAKE_ATTEMPTS }
    }

    /// Record one failed attempt; returns whether another may be made.
    pub fn on_attempt_failed(&mut self) -> (retry: bool)
        ensures
            final(self).attempts_left == (if old(self).attempts_left > 0 {
                (old(self).attempts_left - 1) as u32
            } else {
                0u32
            }),
            retry == (final(self).attempts_left > 0),
    {
        if self.attempts_left > 0 {
            self.attempts_left = self.attempts_left - 1;
        }
        self.attempts_left > 0
    }
}

/// The client engine: per-link statistics and the active-link set.
#[derive(Debug)]
pub struct ClientEngine {
    /// One statistics record per discovered link, in discovery order.
    pub stats: Vec<LinkStats>,
    /// The links currently eligible to carry data.
    pub active: ActiveLinks,
}

impl ClientEngine {
    /// The engine invariant: the active set ranges over exactly the
    /// discovered links and is well formed, and so is every statistics
    /// record.
    pub open spec fn wf(self) -> bool {
        &&& self.active.wf()
        &&& self.active.link_count == self.stats@.len()
        &&& forall|i: int| 0 <= i < self.stats@.len() ==> (#[trigger] self.stats@[i]).wf()
    }

    /// The startup state: fresh statistics for each discovered link, and
    /// every link active.
    pub fn new(link_count: usize) -> (r: Self)
        ensures
            r.wf(),
            r.stats@.len() == link_count,
            r.active.links@.len() == link_count,
            forall|i: int| 0 <= i < link_count ==> r.active.links@[i] == i,
            forall|i: int|
                0 <= i < link_count ==> (#[trigger] r.stats@[i]).status == LinkStatus::Unknown
                    && r.stats@[i].probes_sent == 0 && r.stats@[i].probes_received == 0
                    && r.stats@[i].in_flight_probes@.len() == 0 && r.stats@[i].next_probe_seq == 0
                    && r.stats@[i].consecutive_failures == 0,
    {
        let mut stats: Vec<LinkStats> = Vec::new();
        let mut i: usize = 0;
        while i < link_count
            invariant
                0 <= i <= link_count,
                stats@.len() == i,
                forall|k: int|
                    0 <= k < i ==> (#[trigger] stats@[k]).status == LinkStatus::Unknown
                        && stats@[k].probes_sent == 0 && stats@[k].probes_received == 0
                        && stats@[k].in_flight_probes@.len() == 0 && stats@[k].next_probe_seq == 0
                        && stats@[k].consecutive_failures == 0 && stats@[k].wf(),
            decreases link_count - i,
        {
            stats.push(LinkStats::new());
            i = i + 1;
        }
        ClientEngine { stats, active: ActiveLinks::all_active(link_count) }
    }

    /// One prober tick for one link: reap
    /// timed-out probes, counting a consecutive failure for each; mark
    /// the link down and drop it from the active set once the failures
    /// reach the threshold; and hand out the sequence number for the
    /// probe to emit now.  Returns that sequence number and whether the
    /// link went down on this tick.
    pub fn prober_tick(
        &mut self,
        link: usize,
        now_ms: u64,
        timeout_ms: u64,
        threshold: u32,
    ) -> (r: (u64, bool))
        requires
            old(self).wf(),
            link < old(self).stats@.len(),
        ensures
            final(self).wf(),
            final(self).stats@.len() == old(self).stats@.len(),
            forall|m: int|
                0 <= m < old(self).stats@.len() && m != link ==> final(self).stats@[m] == old(
                    self,
                ).stats@[m],
            ({
                let pre = old(self).stats@[link as int];
                let post = final(self).stats@[link as int];
                let kept = pre.in_flight_probes@.filter(
                    (|e: (u64, u64)| !probe_timed_out(e.1, now_ms, timeout_ms)),
                );
                let reaped = pre.in_flight_probes@.len() - kept.len();
                let cf1 = if pre.consecutive_failures + reaped <= u32::MAX {
                    (pre.consecutive_failures + reaped) as u32
                } else {
                    u32::MAX
                };
                &&& r.0 == pre.next_probe_seq
                &&& r.1 == (cf1 >= threshold && pre.status != LinkStatus::Down)
                &&& post.next_probe_seq == pre.next_probe_seq.wrapping_add(1)
                &&& post.in_flight_probes@ == kept
                &&& post.consecutive_failures == cf1
                &&& post.status == (if r.1 {
                    LinkStatus::Down
                } else {
                    pre.status
                })
                &&& post.probes_sent == pre.probes_sent
                &&& post.probes_received == pre.probes_received
                &&& post.rtt_ms == pre.rtt_ms
                &&& (if r.1 {
                    &&& !final(self).active.contains_link(link)
                    &&& (forall|q: usize|
                        q != link ==> (final(self).active.contains_link(q) <==> old(
                            self,
                        ).active.contains_link(q)))
                } else {
                    final(self).active == old(self).active
                })
            }),
    {
        let st = &mut self.stats[link];
        let _reaped = st.reap_timeouts(now_ms, timeout_ms);
        let went_down = st.check_down(threshold);
        let seq = st.begin_probe();
        if went_down {
            self.active.remove_link(link);
        }
        (seq, went_down)
    }

    /// Whether a probe with this sequence number is still in flight on a
    /// link.
    pub fn is_in_flight(&self, link: usize, seq: u64) -> (r: bool)
        requires
            link < self.stats@.len(),
        ensures
            r == self.stats@[link as int].has_in_flight(seq),
    {
        let entries = &self.stats[link].in_flight_probes;
        let n = entries.len();
        let mut i: usize = 0;
        while i < n
            invariant
                link < self.stats@.len(),
                entries@ == self.stats@[link as int].in_flight_probes@,
                n == entries@.len(),
                0 <= i <= n,
                forall|k: int| 0 <= k < i ==> entries@[k].0 != seq,
            decreases n - i,
        {
            if entries[i].0 == seq {
                proof {
                    assert(entries@[i as int].0 == seq);
                }
                return true;
            }
            i = i + 1;
        }
        proof {
            if self.stats@[link as int].has_in_flight(seq) {
                let k = choose|k: int|
                    0 <= k < self.stats@[link as int].in_flight_probes@.len()
                        && self.stats@[link as int].in_flight_probes@[k].0 == seq;
                assert(false);
            }
        }
        false
    }

    /// Record that the probe with this sequence number was handed to the
    /// link's socket successfully.
    pub fn record_probe_sent(&mut self, link: usize, seq: u64, now_ms: u64)
        requires
            old(self).wf(),
            link < old(self).stats@.len(),
            !old(self).stats@[link as int].has_in_flight(seq),
        ensures
            final(self).wf(),
            final(self).stats@.len() == old(self).stats@.len(),
            final(self).active == old(self).active,
            forall|m: int|
                0 <= m < old(self).stats@.len() && m != link ==> final(self).stats@[m] == old(
                    self,
                ).stats@[m],
            ({
                let pre = old(self).stats@[link as int];
                let post = final(self).stats@[link as int];
                &&& post.probes_sent == pre.probes_sent.wrapping_add(1)
                &&& post.in_flight_probes@ == pre.in_flight_probes@.push((seq, now_ms))
                &&& post.status == pre.status
                &&& post.consecutive_failures == pre.consecutive_failures
                &&& post.probes_received == pre.probes_received
                &&& post.next_probe_seq == pre.next_probe_seq
            }),
    {
        let st = &mut self.stats[link];
        st.record_probe_sent(seq, now_ms);
    }

    /// Record that handing a probe to the link's socket failed: one more
    /// consecutive failure, and no probe in flight.
    pub fn record_send_failure(&mut self, link: usize)
        requires
            old(self).wf(),
            link < old(self).stats@.len(),
        ensures
            final(self).wf(),
            final(self).stats@.len() == old(self).stats@.len(),
            final(self).active == old(self).active,
            forall|m: int|
                0 <= m < old(self).stats@.len() && m != link ==> final(self).stats@[m] == old(
                    self,
                ).stats@[m],
            final(self).stats@[link as int].consecutive_failures == old(self).stats@[
                link as int
            ].consecutive_failures.saturating_add(1),
            final(self).stats@[link as int] == (LinkStats {
                consecutive_failures: final(self).stats@[link as int].consecutive_failures,
                ..old(self).stats@[link as int]
            }),
    {
        let st = &mut self.stats[link];
        st.record_send_failure();
    }

    /// Route a probe echo to the originating link: a
    /// matching echo resets the failure count, marks the link up, and
    /// puts a recovered link back into the active set; an echo with no
    /// matching in-flight probe changes nothing.
    pub fn on_probe_echo(&mut self, link: usize, seq: u64, now_ms: u64) -> (r: EchoOutcome)
        requires
            old(self).wf(),
            link < old(self).stats@.len(),
        ensures
            final(self).wf(),
            final(self).stats@.len() == old(self).stats@.len(),
            forall|m: int|
                0 <= m < old(self).stats@.len() && m != link ==> final(self).stats@[m] == old(
                    self,
                ).stats@[m],
            r == EchoOutcome::NoMatch <==> !old(self).stats@[link as int].has_in_flight(seq),
            r == EchoOutcome::NoMatch ==> final(self).stats@[link as int] == old(self).stats@[
                link as int
            ] && final(self).active == old(self).active,
            old(self).stats@[link as int].has_in_flight(seq) ==> ({
                let pre = old(self).stats@[link as int];
                let post = final(self).stats@[link as int];
                &&& post.consecutive_failures == 0
                &&& post.status == LinkStatus::Up
                &&& post.probes_received == pre.probes_received.wrapping_add(1)
                &&& post.rtt_ms == now_ms.saturating_sub(pre.sent_at_of(seq))
                &&& !post.has_in_flight(seq)
                &&& (r == EchoOutcome::MatchedBecameUp <==> pre.status != LinkStatus::Up)
                &&& final(self).active.contains_link(link)
                &&& (forall|q: usize|
                    q != link ==> (final(self).active.contains_link(q) <==> old(
                        self,
                    ).active.contains_link(q)))
            }),
    {
        let r = {
            let st = &mut self.stats[link];
            st.on_probe_echo(seq, now_ms)
        };
        match r {
            EchoOutcome::NoMatch => {},
            EchoOutcome::Matched => {
                self.active.add_link(link);
            },
            EchoOutcome::MatchedBecameUp => {
                self.active.add_link(link);
            },
        }
        r
    }

    /// The link the upstream dispatcher sends on for this round-robin
    /// counter value: nothing while the active set is empty.
    pub fn pick_link(&self, counter: u64) -> (r: Option<usize>)
        ensures
            r is None <==> self.active.links@.len() == 0,
            r is Some ==> r.unwrap() == self.active.links@[counter as int % self.active.links@.len() as int],
    {
        self.active.pick(counter)
    }

    /// How many links were discovered at startup.
    pub fn link_count(&self) -> (r: usize)
        ensures
            r == self.stats@.len(),
    {
        self.stats.len()
    }

    /// The reported status of one link.
    pub fn link_status(&self, link: usize) -> (r: LinkStatus)
        requires
            link < self.stats@.len(),
        ensures
            r == self.stats@[link as int].status,
    {
        self.stats[link].status
    }

    /// The last measured round trip of one link, in milliseconds.
    pub fn link_rtt_ms(&self, link: usize) -> (r: u64)
        requires
            link < self.stats@.len(),
        ensures
            r == self.stats@[link as int].rtt_ms,
    {
        self.stats[link].rtt_ms
    }

    /// The whole-percent packet loss of one link.
    pub fn link_loss_percent(&self, link: usize) -> (r: u64)
        requires
            link < self.stats@.len(),
        ensures
            r == self.stats@[link as int].packet_loss_percent_spec(),
            r <= 100,
    {
        self.stats[link].packet_loss_percent()
    }
}

/// Whether `p` is a prefix of `s`.
pub open spec fn bytes_has_prefix(s: Seq<u8>, p: Seq<u8>) -> bool {
    p.len() <= s.len() && s.subrange(0, p.len() as int) == p
}

/// Whether `p` occurs anywhere in `s`.
pub open spec fn bytes_contains(s: Seq<u8>, p: Seq<u8>) -> bool {
    exists|i: int| 0 <= i <= s.len() - p.len() && #[trigger] s.subrange(i, i + p.len() as int) == p
}

/// Whether `s` starts with `p`.
pub fn starts_with_bytes(s: &[u8], p: &[u8]) -> (r: bool)
    ensures
        r == bytes_has_prefix(s@, p@),
{
    let pn = p.len();
    if pn > s.len() {
        return false;
    }
    let mut i: usize = 0;
    while i < pn
        invariant
            pn == p@.len(),
            pn <= s@.len(),
            0 <= i <= pn,
            forall|k: int| 0 <= k < i ==> s@[k] == p@[k],
        decreases pn - i,
    {
        if s[i] != p[i] {
            proof {
                assert(s@.subrange(0, pn as int)[i as int] == s@[i as int]);
                assert(s@.subrange(0, pn as int) != p@);
            }
            return false;
        }
        i = i + 1;
    }
    proof {
        assert(s@.subrange(0, pn as int) =~= p@);
    }
    true
}

/// Whether `p` occurs anywhere in `s`.
pub fn contains_bytes(s: &[u8], p: &[u8]) -> (r: bool)
    ensures
        r == bytes_contains(s@, p@),
{
    let pn = p.len();
    if pn == 0 {
        proof {
            assert(s@.subrange(0, 0 + p@.len() as int) =~= p@);
            assert(bytes_contains(s@, p@));
        }
        return true;
    }
    if pn > s.len() {
        proof {
            if bytes_contains(s@, p@) {
                let i = choose|i: int|
                    0 <= i <= s@.len() - p@.len() && #[trigger] s@.subrange(
                        i,
                        i + p@.len() as int,
                    ) == p@;
                assert(false);
            }
        }
        return false;
    }
    let mut i: usize = 0;
    let last = s.len() - pn;
    while i <= last
        invariant
            pn == p@.len(),
            1 <= pn <= s@.len(),
            s@.len() <= usize::MAX,
            last == s@.len() - pn,
            0 <= i <= last + 1,
            forall|k: int| 0 <= k < i ==> #[trigger] s@.subrange(k, k + pn as int) != p@,
        decreases last + 1 - i,
    {
        if starts_with_bytes(slice_subrange(s, i, i + pn), p) {
            proof {
                let sub = s@.subrange(i as int, (i + pn) as int);
                assert(sub.subrange(0, pn as int) =~= sub);
                assert(s@.subrange(i as int, i as int + pn as int) == p@);
            }
            return true;
        }
        proof {
            let sub = s@.subrange(i as int, (i + pn) as int);
            assert(sub.subrange(0, pn as int) =~= sub);
        }
        i = i + 1;
    }
    proof {
        if bytes_contains(s@, p@) {
            let j = choose|j: int|
                0 <= j <= s@.len() - p@.len() && #[trigger] s@.subrange(
                    j,
                    j + p@.len() as int,
                ) == p@;
            assert(false);
        }
    }
    false
}

/// The loopback name prefix that WAN discovery skips.
pub open spec fn loopback_prefix() -> Seq<u8> {
    seq![108u8, 111u8]
}

/// The container-bridge name fragment that WAN discovery skips.
pub open spec fn container_fragment() -> Seq<u8> {
    seq![100u8, 111u8, 99u8, 107u8, 101u8, 114u8]
}

/// The tunnel's own name prefix that WAN discovery skips.
pub open spec fn tunnel_prefix() -> Seq<u8> {
    seq![111u8, 110u8, 101u8, 98u8, 111u8, 120u8]
}

/// Whether an interface name, as bytes, may carry WAN traffic: not a
/// loopback (`lo*`), not a container bridge (`*docker*`), and not the
/// tunnel's own interface (`onebox*`).
pub open spec fn wan_candidate(name: Seq<u8>) -> bool {
    &&& !bytes_has_prefix(name, loopback_prefix())
    &&& !bytes_contains(name, container_fragment())
    &&& !bytes_has_prefix(name, tunnel_prefix())
}

/// Decide whether a discovered interface may carry WAN traffic, by its
/// name in bytes.
pub fn is_wan_candidate(name: &[u8]) -> (r: bool)
    ensures
        r == wan_candidate(name@),
{
    let lo: [u8; 2] = [108, 111];
    let docker: [u8; 6] = [100, 111, 99, 107, 101, 114];
    let onebox: [u8; 6] = [111, 110, 101, 98, 111, 120];
    proof {
        assert(lo@ =~= loopback_prefix());
        assert(docker@ =~= container_fragment());
        assert(onebox@ =~= tunnel_prefix());
    }
    if starts_with_bytes(name, lo.as_slice()) {
        return false;
    }
    if contains_bytes(name, docker.as_slice()) {
        return false;
    }
    if starts_with_bytes(name, onebox.as_slice()) {
        return false;
    }
    true
}

} // verus!
