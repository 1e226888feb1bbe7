//! Tests for the reordering engine, the active-link set, link health,
//! the session table, and the worker and demultiplexer decisions.

use onebox_core::active::ActiveLinks;
use onebox_core::client::{
    classify_datagram, handshake_response_ok, is_wan_candidate, open_data_datagram, ClientEngine,
    Demux, HandshakeDriver,
};
use onebox_core::crypto::derive_key;
use onebox_core::health::{EchoOutcome, LinkStats, LinkStatus, MAX_CONSECUTIVE_FAILURES};
use onebox_core::packet::{ClientId, PacketHeader, PacketType};
use onebox_core::reorder::ReorderEngine;
use onebox_core::server::{build_downstream, handle_datagram, parse_device_token};
use onebox_core::session::{AuthStatus, SessionTable};
use onebox_core::types::SeqCounter;
use onebox_core::wire::{build_auth_request, build_data, build_probe};

fn payload(tag: u8) -> Vec<u8> {
    vec![tag, tag, tag]
}

#[test]
fn reorder_delivers_in_order_for_permutation() {
    // Sequences 10, 12, 11, 14, 13 arrive; writes come out as
    // 10, 11, 12, 13, 14 exactly.
    let mut engine = ReorderEngine::new();
    let mut written: Vec<Vec<u8>> = Vec::new();
    for (seq, tag) in [(10u64, 0u8), (12, 2), (11, 1), (14, 4), (13, 3)] {
        written.extend(engine.accept(seq, payload(tag)));
    }
    assert_eq!(
        written,
        vec![payload(0), payload(1), payload(2), payload(3), payload(4)]
    );
    assert!(engine.entries.is_empty());
    assert_eq!(engine.next_seq, Some(15));
}

#[test]
fn reorder_blocks_on_gap() {
    let mut engine = ReorderEngine::new();
    assert_eq!(engine.accept(5, payload(5)), vec![payload(5)]);
    // 7 arrives while 6 is missing: nothing may be written.
    assert!(engine.accept(7, payload(7)).is_empty());
    // 6 arrives: both 6 and 7 come out, in order.
    assert_eq!(engine.accept(6, payload(6)), vec![payload(6), payload(7)]);
}

#[test]
fn reorder_first_arrival_fixes_expectation() {
    // The expectation is fixed by the first arrival; anything below it
    // stays buffered.
    let mut engine = ReorderEngine::new();
    assert_eq!(engine.accept(3, payload(3)), vec![payload(3)]);
    assert!(engine.accept(1, payload(1)).is_empty());
    assert_eq!(engine.next_seq, Some(4));
}

#[test]
fn reorder_replaces_duplicate_sequence() {
    // A duplicate of a still-buffered sequence replaces the payload.
    let mut engine = ReorderEngine::new();
    assert_eq!(engine.accept(2, payload(2)), vec![payload(2)]);
    assert!(engine.accept(4, payload(4)).is_empty());
    assert!(engine.accept(4, payload(9)).is_empty());
    assert_eq!(engine.accept(3, payload(3)), vec![payload(3), payload(9)]);
}

#[test]
fn active_set_no_duplicates_after_interleaving() {
    let mut active = ActiveLinks::all_active(3);
    assert_eq!(active.len(), 3);
    // Interleave removals and re-additions, including repeats.
    active.remove_link(1);
    active.add_link(1);
    active.add_link(1);
    active.remove_link(0);
    active.add_link(0);
    active.remove_link(2);
    active.add_link(2);
    active.add_link(2);
    assert_eq!(active.len(), 3);
    for idx in 0..3 {
        assert!(active.contains(idx));
        assert_eq!(active.links.iter().filter(|&&l| l == idx).count(), 1);
    }
}

#[test]
fn active_set_round_robin_pick() {
    let mut active = ActiveLinks::all_active(3);
    assert_eq!(active.pick(0), Some(0));
    assert_eq!(active.pick(1), Some(1));
    assert_eq!(active.pick(2), Some(2));
    assert_eq!(active.pick(3), Some(0));
    active.remove_link(1);
    assert_eq!(active.pick(0), Some(0));
    assert_eq!(active.pick(1), Some(2));
    active.remove_link(0);
    active.remove_link(2);
    assert_eq!(active.pick(7), None);
}

#[test]
fn echo_resets_consecutive_failures() {
    // Any number of timeouts, then one valid echo with a matching
    // in-flight probe: the failure count returns to zero.
    let mut stats = LinkStats::new();
    for probe in 0..3u64 {
        stats.record_probe_sent(probe, 0);
    }
    // All three probes time out.
    assert_eq!(stats.reap_timeouts(5000, 2000), 3);
    assert_eq!(stats.consecutive_failures, 3);
    stats.record_send_failure();
    assert_eq!(stats.consecutive_failures, 4);
    // A matching echo arrives.
    stats.record_probe_sent(3, 6000);
    let outcome = stats.on_probe_echo(3, 6150);
    assert_eq!(outcome, EchoOutcome::MatchedBecameUp);
    assert_eq!(stats.consecutive_failures, 0);
    assert_eq!(stats.status, LinkStatus::Up);
    assert_eq!(stats.rtt_ms, 150);
    assert_eq!(stats.probes_received, 1);
}

#[test]
fn unmatched_echo_changes_nothing() {
    let mut stats = LinkStats::new();
    stats.record_probe_sent(0, 0);
    let before_status = stats.status;
    let outcome = stats.on_probe_echo(99, 10);
    assert_eq!(outcome, EchoOutcome::NoMatch);
    assert_eq!(stats.status, before_status);
    assert_eq!(stats.probes_received, 0);
    assert_eq!(stats.consecutive_failures, 0);
}

#[test]
fn link_goes_down_at_failure_threshold() {
    // Four probes in flight, all timed out on one tick: the link goes
    // down and leaves the active set.
    let mut engine = ClientEngine::new(2);
    for probe in 0..4u64 {
        let (seq, went_down) = engine.prober_tick(1, 0, 2000, MAX_CONSECUTIVE_FAILURES);
        assert!(!went_down);
        assert_eq!(seq, probe);
        engine.record_probe_sent(1, seq, 0);
    }
    let (_seq, went_down) = engine.prober_tick(1, 3000, 2000, MAX_CONSECUTIVE_FAILURES);
    assert!(went_down);
    assert_eq!(engine.link_status(1), LinkStatus::Down);
    assert!(!engine.active.contains(1));
    assert!(engine.active.contains(0));
    // Recovery: a probe echo brings it back.
    engine.record_probe_sent(1, 99, 4000);
    let outcome = engine.on_probe_echo(1, 99, 4300);
    assert_eq!(outcome, EchoOutcome::MatchedBecameUp);
    assert_eq!(engine.link_status(1), LinkStatus::Up);
    assert_eq!(engine.link_rtt_ms(1), 300);
    assert!(engine.active.contains(1));
}

#[test]
fn flapping_link_keeps_other_link_dispatching() {
    let mut engine = ClientEngine::new(2);
    for round in 0..3u64 {
        // wan1 times out to the threshold and drops out.
        let base = round * 100;
        for probe in 0..4u64 {
            let (seq, _d) = engine.prober_tick(1, base, 10, 4);
            engine.record_probe_sent(1, seq, base);
        }
        let (_seq, went_down) = engine.prober_tick(1, base + 50, 10, 4);
        assert!(went_down);
        // Dispatch still works on the remaining link.
        assert_eq!(engine.pick_link(round), Some(0));
        // wan1 recovers.
        engine.record_probe_sent(1, 1000 + round, base + 60);
        assert_eq!(
            engine.on_probe_echo(1, 1000 + round, base + 61),
            EchoOutcome::MatchedBecameUp
        );
        assert!(engine.active.contains(1));
    }
}

#[test]
fn send_failures_alone_bring_link_down() {
    let mut engine = ClientEngine::new(1);
    for _ in 0..4 {
        engine.record_send_failure(0);
    }
    let (_seq, went_down) = engine.prober_tick(0, 0, 2000, MAX_CONSECUTIVE_FAILURES);
    assert!(went_down);
    assert_eq!(engine.link_status(0), LinkStatus::Down);
    assert!(!engine.active.contains(0));
}

#[test]
fn echo_on_link_already_up_stays_matched() {
    let mut stats = LinkStats::new();
    stats.record_probe_sent(0, 0);
    assert_eq!(stats.on_probe_echo(0, 100), EchoOutcome::MatchedBecameUp);
    stats.record_probe_sent(1, 200);
    assert_eq!(stats.on_probe_echo(1, 260), EchoOutcome::Matched);
    assert_eq!(stats.rtt_ms, 60);
    assert_eq!(stats.probes_received, 2);
}

#[test]
fn packet_loss_percent_formula() {
    let mut stats = LinkStats::new();
    assert_eq!(stats.packet_loss_percent(), 0);
    stats.probes_sent = 10;
    stats.probes_received = 8;
    assert_eq!(stats.packet_loss_percent(), 20);
    stats.probes_sent = 3;
    stats.probes_received = 0;
    assert_eq!(stats.packet_loss_percent(), 100);
    stats.probes_sent = 3;
    stats.probes_received = 2;
    assert_eq!(stats.packet_loss_percent(), 33);
}

#[test]
fn server_auth_then_data_flow() {
    let key = derive_key("flow-psk");
    let mut table: SessionTable<u32> = SessionTable::new();
    let client = ClientId(1);

    // Data before authentication is dropped, but the session appears.
    let early = build_data(&key, 0, client, b"too early");
    let out = handle_datagram(&mut table, &key, &early, 7u32);
    assert!(out.reply.is_none());
    assert!(out.deliver.is_empty());
    assert_eq!(table.auth_status_of(1), AuthStatus::Pending);

    // An authentication request that decrypts upgrades the session and
    // is answered with an authentication response.
    let auth = build_auth_request(&key, client);
    let out = handle_datagram(&mut table, &key, &auth, 7u32);
    assert_eq!(table.auth_status_of(1), AuthStatus::Authenticated);
    let reply = out.reply.expect("an authentication response is owed");
    assert!(handshake_response_ok(&reply));
    let reply_header = PacketHeader::deserialize(&reply).unwrap();
    assert_eq!(reply_header.packet_type, PacketType::AuthResponse);
    assert_eq!(reply_header.sequence_number, 0);
    assert_eq!(reply_header.client_id.0, 1);

    // The first data arrival fixes the expectation; later data is
    // reordered per session.
    let d0 = build_data(&key, 0, client, b"first");
    let d1 = build_data(&key, 1, client, b"second");
    let d2 = build_data(&key, 2, client, b"third");
    let out = handle_datagram(&mut table, &key, &d0, 7u32);
    assert_eq!(out.deliver, vec![b"first".to_vec()]);
    let out = handle_datagram(&mut table, &key, &d2, 7u32);
    assert!(out.deliver.is_empty());
    let out = handle_datagram(&mut table, &key, &d1, 7u32);
    assert_eq!(out.deliver, vec![b"second".to_vec(), b"third".to_vec()]);
}

#[test]
fn server_drops_bad_psk_auth_request() {
    // A client with a pre-shared key differing from the server's never
    // authenticates and gets no response.
    let server_key = derive_key("server-psk");
    let client_key = derive_key("server-psl");
    let mut table: SessionTable<u32> = SessionTable::new();
    let auth = build_auth_request(&client_key, ClientId(5));
    for _ in 0..5 {
        let out = handle_datagram(&mut table, &server_key, &auth, 9u32);
        assert!(out.reply.is_none());
        assert!(out.deliver.is_empty());
    }
    assert_eq!(table.auth_status_of(5), AuthStatus::Pending);
    // And the handshake driver gives up after its five attempts.
    let mut driver = HandshakeDriver::new();
    let mut attempts = 1;
    while driver.on_attempt_failed() {
        attempts += 1;
    }
    assert_eq!(attempts, 5);
}

#[test]
fn server_echoes_probe_verbatim_when_authenticated() {
    let key = derive_key("probe-psk");
    let mut table: SessionTable<u32> = SessionTable::new();
    let client = ClientId(3);
    let probe = build_probe(&key, 11, client);

    // Unauthenticated: the probe is dropped.
    let out = handle_datagram(&mut table, &key, &probe, 4u32);
    assert!(out.reply.is_none());

    // Authenticated: the original received bytes come back verbatim.
    let auth = build_auth_request(&key, client);
    handle_datagram(&mut table, &key, &auth, 4u32);
    let out = handle_datagram(&mut table, &key, &probe, 4u32);
    assert_eq!(out.reply.unwrap(), probe);
}

#[test]
fn server_ignores_malformed_datagrams() {
    let key = derive_key("malformed-psk");
    let mut table: SessionTable<u32> = SessionTable::new();
    let out = handle_datagram(&mut table, &key, &[1, 2, 3], 1u32);
    assert!(out.reply.is_none());
    assert!(out.deliver.is_empty());
    assert!(table.sessions.is_empty());
}

#[test]
fn downstream_needs_an_authenticated_session() {
    let key = derive_key("downstream-psk");
    let mut table: SessionTable<u32> = SessionTable::new();
    assert!(build_downstream(&table, &key, 0, b"ip packet").is_none());

    let auth = build_auth_request(&key, ClientId(8));
    handle_datagram(&mut table, &key, &auth, 42u32);
    let (addr, datagram) = build_downstream(&table, &key, 6, b"ip packet").unwrap();
    assert_eq!(addr, 42);
    let header = PacketHeader::deserialize(&datagram).unwrap();
    assert_eq!(header.packet_type, PacketType::Data);
    assert_eq!(header.sequence_number, 6);
    assert_eq!(header.client_id.0, 8);
    // The client side opens it back to the packet.
    let opened = open_data_datagram(&key, &datagram).unwrap();
    assert_eq!(opened, b"ip packet");
}

#[test]
fn session_table_tracks_last_seen_addr() {
    let key = derive_key("addr-psk");
    let mut table: SessionTable<u32> = SessionTable::new();
    let auth = build_auth_request(&key, ClientId(2));
    handle_datagram(&mut table, &key, &auth, 10u32);
    let data = build_data(&key, 0, ClientId(2), b"x");
    handle_datagram(&mut table, &key, &data, 11u32);
    let (id, addr) = table.first_authenticated().unwrap();
    assert_eq!(id, 2);
    assert_eq!(addr, 11);
}

#[test]
fn demux_classifies_by_packet_type() {
    let key = derive_key("demux-psk");
    let probe = build_probe(&key, 4, ClientId(1));
    assert_eq!(classify_datagram(&probe), Demux::ProbeEcho(4));
    let data = build_data(&key, 9, ClientId(1), b"p");
    assert_eq!(classify_datagram(&data), Demux::DataPacket(9));
    let auth = build_auth_request(&key, ClientId(1));
    assert_eq!(classify_datagram(&auth), Demux::Ignored);
    assert_eq!(classify_datagram(&[0u8; 10]), Demux::Malformed);
}

#[test]
fn open_data_datagram_rejects_tampering() {
    let key = derive_key("open-psk");
    let data = build_data(&key, 13, ClientId(6), b"payload");
    assert_eq!(open_data_datagram(&key, &data).unwrap(), b"payload");
    let mut tampered = data.clone();
    let last = tampered.len() - 1;
    tampered[last] ^= 0x80;
    assert!(open_data_datagram(&key, &tampered).is_err());
    // A runt datagram is rejected before any AEAD work.
    assert!(open_data_datagram(&key, &data[..30]).is_err());
}

#[test]
fn wan_candidate_filter() {
    assert!(is_wan_candidate(b"eth0"));
    assert!(is_wan_candidate(b"wan1"));
    assert!(is_wan_candidate(b"wlp3s0"));
    assert!(!is_wan_candidate(b"lo"));
    assert!(!is_wan_candidate(b"lo0"));
    assert!(!is_wan_candidate(b"docker0"));
    assert!(!is_wan_candidate(b"br-docker-x"));
    assert!(!is_wan_candidate(b"onebox0"));
}

#[test]
fn parse_device_token_from_route_output() {
    let output = b"8.8.8.8 via 192.168.1.1 dev enp0s3 src 192.168.1.100 uid 0";
    assert_eq!(parse_device_token(output).unwrap(), b"enp0s3");
    assert!(parse_device_token(b"8.8.8.8 via 192.168.1.1").is_none());
    assert!(parse_device_token(b"something dev").is_none());
    assert!(parse_device_token(b"").is_none());
    assert_eq!(
        parse_device_token(b"  dev\teth1\nmore").unwrap(),
        b"eth1"
    );
}

#[test]
fn seq_counter_hands_out_increasing_values_and_wraps() {
    let mut counter = SeqCounter::new();
    assert_eq!(counter.fetch_add(), 0);
    assert_eq!(counter.fetch_add(), 1);
    assert_eq!(counter.fetch_add(), 2);
    counter.next = u64::MAX;
    assert_eq!(counter.fetch_add(), u64::MAX);
    assert_eq!(counter.next, 0);
}

#[test]
fn pick_link_none_when_no_links_active() {
    let mut engine = ClientEngine::new(1);
    assert_eq!(engine.pick_link(0), Some(0));
    for probe in 0..4u64 {
        let (seq, _d) = engine.prober_tick(0, 0, 10, 4);
        engine.record_probe_sent(0, seq, 0);
        let _ = probe;
    }
    let (_seq, went_down) = engine.prober_tick(0, 100, 10, 4);
    assert!(went_down);
    assert_eq!(engine.pick_link(0), None);
}
