use std::collections::HashSet;

use l4scope::address::IpAddr;
use l4scope::capture::CaptureSource;
use l4scope::config::{Config, DetectConfig};
use l4scope::detectors;
use l4scope::detectors::{Debounce, OutOfOrderDetector, Rule};
use l4scope::engine::Engine;
use l4scope::flow;
use l4scope::flow::{EngineState, TcpState};
use l4scope::number::{Decimal, Ratio, Scale};
use l4scope::synthetic::SyntheticSource;
use l4scope::types::{
    Direction, Endpoint, EventKind, FlowKey, L4Event, PacketMeta, Protocol, Severity, TcpFlags,
};
use l4scope::window::RollingRate;

const NS_PER_SEC: u64 = 1_000_000_000;

fn ep(a: u8, p: u16) -> Endpoint {
    Endpoint::new(IpAddr::v4(10, 0, 0, a), p)
}

fn tcp(
    ts: u64,
    s: Endpoint,
    d: Endpoint,
    flags: u8,
    seq: u32,
    ack: u32,
    win: u32,
    plen: u32,
) -> PacketMeta {
    let (key, dir): (FlowKey, Direction) = FlowKey::canonical(s, d, Protocol::Tcp);
    PacketMeta {
        ts_nanos: ts,
        key,
        dir,
        proto: Protocol::Tcp,
        flags: TcpFlags(flags),
        seq,
        ack,
        window: win,
        payload_len: plen,
        ttl: 64,
        iface: 0,
    }
}

#[test]
fn detects_retransmissions() {
    let mut eng = Engine::new(DetectConfig {
        retransmit_ratio_warn: Decimal::scaled(1, 1),
        ..Config::default().detect
    });
    let c = ep(1, 5000);
    let s = ep(2, 80);
    eng.process(&tcp(0, c, s, TcpFlags::SYN, 100, 0, 64240, 0));
    eng.process(&tcp(1, s, c, TcpFlags::SYN | TcpFlags::ACK, 900, 101, 65160, 0));
    eng.process(&tcp(2, c, s, TcpFlags::ACK, 101, 901, 64240, 0));
    // first data segment (not a retransmit)
    let _ = eng.process(&tcp(3, c, s, TcpFlags::ACK | TcpFlags::PSH, 101, 901, 64240, 100));
    // retransmit same segment
    let events = eng.process(&tcp(4, c, s, TcpFlags::ACK | TcpFlags::PSH, 101, 901, 64240, 100));
    assert!(events.iter().any(|e| e.kind == EventKind::Retransmission));
}

#[test]
fn detects_zero_window() {
    let mut eng = Engine::new(Config::default().detect);
    let c = ep(1, 5001);
    let s = ep(2, 5432);
    eng.process(&tcp(0, c, s, TcpFlags::SYN, 100, 0, 64240, 0));
    eng.process(&tcp(1, s, c, TcpFlags::SYN | TcpFlags::ACK, 900, 101, 65160, 0));
    eng.process(&tcp(2, c, s, TcpFlags::ACK, 101, 901, 64240, 0));
    let events = eng.process(&tcp(3, c, s, TcpFlags::ACK, 101, 901, 0, 0));
    assert!(events.iter().any(|e| e.kind == EventKind::ZeroWindow));
}

#[test]
fn detects_handshake_timeout_via_sweep() {
    let mut eng = Engine::new(Config::default().detect);
    let c = ep(1, 5002);
    let s = ep(2, 3306);
    eng.process(&tcp(0, c, s, TcpFlags::SYN, 100, 0, 64240, 0));
    let events = eng.sweep(10 * NS_PER_SEC);
    assert!(events.iter().any(|e| e.kind == EventKind::HandshakeTimeout));
}

#[test]
fn detects_handshake_failure_on_rst() {
    let mut eng = Engine::new(Config::default().detect);
    let c = ep(1, 5003);
    let s = ep(2, 8080);
    eng.process(&tcp(0, c, s, TcpFlags::SYN, 100, 0, 64240, 0));
    let events = eng.process(&tcp(1, s, c, TcpFlags::RST | TcpFlags::ACK, 0, 101, 0, 0));
    assert!(events.iter().any(|e| e.kind == EventKind::HandshakeFailure));
}

#[test]
fn detects_duplicate_acks() {
    let mut eng = Engine::new(Config::default().detect);
    let c = ep(1, 5004);
    let s = ep(2, 80);
    eng.process(&tcp(0, c, s, TcpFlags::SYN, 100, 0, 64240, 0));
    eng.process(&tcp(1, s, c, TcpFlags::SYN | TcpFlags::ACK, 900, 101, 65160, 0));
    eng.process(&tcp(2, c, s, TcpFlags::ACK, 101, 901, 64240, 0));
    // 1 baseline ack + 3 duplicates from the server (same ack, no payload).
    eng.process(&tcp(3, s, c, TcpFlags::ACK, 901, 200, 65160, 0));
    eng.process(&tcp(4, s, c, TcpFlags::ACK, 901, 200, 65160, 0));
    eng.process(&tcp(5, s, c, TcpFlags::ACK, 901, 200, 65160, 0));
    let events = eng.process(&tcp(6, s, c, TcpFlags::ACK, 901, 200, 65160, 0));
    assert!(events.iter().any(|e| e.kind == EventKind::DuplicateAck));
}

#[test]
fn detects_rst_storm() {
    let mut eng = Engine::new(Config::default().detect);
    let s = ep(9, 8080);
    // 25 resets within the same second exceeds the default 20/s threshold.
    let mut fired = false;
    for i in 0..25u32 {
        let c = ep((i % 200) as u8 + 20, 40000 + i as u16);
        let evs = eng.process(&tcp(i as u64 * 1_000_000, s, c, TcpFlags::RST, 0, 0, 0, 0));
        if evs.iter().any(|e| e.kind == EventKind::RstStorm) {
            fired = true;
        }
    }
    assert!(fired, "rst storm should trigger");
}

#[test]
fn synthetic_traffic_trips_every_major_detector() {
    let mut src = SyntheticSource::new();
    let mut engine = Engine::new(Config::default().detect);

    let mut kinds: HashSet<EventKind> = HashSet::new();
    let mut last_ts = 0u64;
    while let Some(pkt) = src.next_packet().expect("synthetic never errors") {
        last_ts = pkt.ts_nanos;
        for ev in engine.process(&pkt) {
            kinds.insert(ev.kind);
        }
    }
    // Final sweep flushes handshake timeouts.
    for ev in engine.sweep(last_ts) {
        kinds.insert(ev.kind);
    }

    for expected in [
        EventKind::HighRtt,
        EventKind::Retransmission,
        EventKind::DuplicateAck,
        EventKind::ZeroWindow,
        EventKind::RstStorm,
        EventKind::HandshakeFailure,
        EventKind::SynBacklog,
        EventKind::HandshakeTimeout,
    ] {
        assert!(kinds.contains(&expected), "expected {expected:?} to fire; got {kinds:?}");
    }
}

// ---------------------------------------------------------------------------
// Sequence numbers and windows
// ---------------------------------------------------------------------------

#[test]
fn sequence_distances_wrap() {
    assert_eq!(flow::seq_diff(5, 3), 2);
    assert_eq!(flow::seq_diff(3, 5), -2);
    assert_eq!(flow::seq_diff(2, u32::MAX), 3);
    assert_eq!(flow::seq_diff(u32::MAX, 2), -3);
    assert_eq!(flow::seq_diff(0x8000_0000, 0), i32::MIN);
}

#[test]
fn rolling_rate_counts_its_window() {
    let mut r = RollingRate::new(3);
    for s in [10, 10, 11, 12, 12, 12] {
        assert!(r.room());
        r.record(s * NS_PER_SEC + 5);
    }
    assert_eq!(r.count_window(12 * NS_PER_SEC), 6);
    assert_eq!(r.count_window(13 * NS_PER_SEC), 4);
    assert_eq!(r.count_window(14 * NS_PER_SEC), 3);
    assert_eq!(r.count_window(15 * NS_PER_SEC), 0);
    assert_eq!(r.per_sec(12 * NS_PER_SEC), Ratio::new(6, 3));
    // A second that shares its bucket with an older one takes its place.
    r.record(13 * NS_PER_SEC);
    assert_eq!(r.count_window(13 * NS_PER_SEC), 5);
}

#[test]
fn rolling_rate_has_at_least_one_second() {
    let mut r = RollingRate::new(0);
    r.record(7);
    r.record(8);
    assert_eq!(r.count_window(NS_PER_SEC - 1), 2);
    assert_eq!(r.per_sec(0), Ratio::new(2, 1));
    r.record(NS_PER_SEC);
    assert_eq!(r.count_window(NS_PER_SEC), 1);
    r.record(NS_PER_SEC);
    assert_eq!(r.count_window(NS_PER_SEC), 2);
    assert_eq!(r.count_window(0), 0);
}

#[test]
fn debounce_keeps_its_gap() {
    let mut d = Debounce::new(10);
    assert!(d.ready(5));
    assert!(!d.ready(5 + 10 * NS_PER_SEC - 1));
    assert!(d.ready(5 + 10 * NS_PER_SEC));
    assert!(!d.ready(0));
    // The epoch is a time like any other.
    let mut d = Debounce::new(10);
    assert!(d.ready(0));
    assert!(!d.ready(1));
    assert!(!d.ready(10 * NS_PER_SEC - 1));
    assert!(d.ready(10 * NS_PER_SEC));
}

#[test]
fn debounce_is_silent_throughout_its_gap() {
    let mut d = Debounce::new(10);
    assert!(d.ready(1));
    for t in 1..10 {
        assert!(!d.ready(t * NS_PER_SEC));
    }
    assert!(d.ready(10 * NS_PER_SEC + 1));
}

// ---------------------------------------------------------------------------
// Flow state
// ---------------------------------------------------------------------------

fn state() -> EngineState {
    EngineState::new(Config::default().detect)
}

#[test]
fn handshake_settles_the_backlog() {
    let mut st = state();
    let c = ep(1, 5000);
    let s = ep(2, 80);
    let (key, d) = st.update(&tcp(10, c, s, TcpFlags::SYN, 100, 0, 64240, 0));
    assert!(d.new_flow);
    assert_eq!(d.service, Some(s));
    assert_eq!(st.globals.half_open_for(&s), 1);
    // A repeated request is counted once.
    st.update(&tcp(11, c, s, TcpFlags::SYN, 100, 0, 64240, 0));
    assert_eq!(st.globals.half_open_for(&s), 1);
    let (_, d) = st.update(&tcp(40, s, c, TcpFlags::SYN | TcpFlags::ACK, 900, 101, 1, 0));
    assert_eq!(d.rtt_sample_ns, Some(30));
    let (_, d) = st.update(&tcp(50, c, s, TcpFlags::ACK, 101, 901, 64240, 0));
    assert!(d.established_now && !d.new_flow);
    assert_eq!(st.globals.half_open_for(&s), 0);
    assert_eq!(st.globals.half_open_max(), 0);
    let f = st.flows.get(&key).expect("tracked");
    assert_eq!(f.state, TcpState::Established);
    assert!(f.established);
    assert_eq!(f.rtt_ns, Some(30));
    assert_eq!((f.first_seen_ns, f.last_seen_ns), (10, 50));
    assert_eq!(st.flows.len(), 1);
}

#[test]
fn closing_and_resetting_settle_the_backlog() {
    let s = ep(2, 80);
    for flags in [TcpFlags::FIN, TcpFlags::RST, TcpFlags::RST | TcpFlags::FIN] {
        let mut st = state();
        st.update(&tcp(0, ep(1, 5000), s, TcpFlags::SYN, 1, 0, 1, 0));
        st.update(&tcp(0, ep(1, 5001), s, TcpFlags::SYN, 1, 0, 1, 0));
        assert_eq!(st.globals.half_open_for(&s), 2);
        let (key, d) = st.update(&tcp(1, ep(1, 5000), s, flags, 1, 0, 1, 0));
        assert_eq!(st.globals.half_open_for(&s), 1);
        assert_eq!(st.globals.half_open_max(), 1);
        let f = st.flows.get(&key).expect("tracked");
        if flags & TcpFlags::RST != 0 {
            assert!(d.rst && d.handshake_refused);
            assert_eq!(f.state, TcpState::Reset);
        } else {
            assert_eq!(f.state, TcpState::Closing);
        }
    }
}

#[test]
fn segments_are_behind_ahead_or_expected() {
    let mut st = state();
    let c = ep(1, 5000);
    let s = ep(2, 80);
    let data = TcpFlags::ACK | TcpFlags::PSH;
    let near = u32::MAX - 49;
    let (_, d) = st.update(&tcp(0, c, s, data, near, 0, 1, 100));
    assert!(!d.is_retransmit && !d.is_out_of_order);
    // The sequence has wrapped: 50 is expected.
    let (_, d) = st.update(&tcp(0, c, s, data, near, 0, 1, 100));
    assert!(d.is_retransmit && !d.is_out_of_order);
    let (_, d) = st.update(&tcp(0, c, s, data, 50, 0, 1, 10));
    assert!(!d.is_retransmit && !d.is_out_of_order);
    let (key, d) = st.update(&tcp(0, c, s, data, 70, 0, 1, 10));
    assert!(!d.is_retransmit && d.is_out_of_order);
    let f = st.flows.get(&key).expect("tracked");
    assert_eq!((f.retransmits, f.data_segments), (1, 4));
    assert_eq!(f.retransmit_ratio(), Ratio::new(1, 4));
    assert_eq!(f.next_seq, [Some(80), None]);
}

#[test]
fn udp_only_starts_flows() {
    let mut st = state();
    let (key, dir) = FlowKey::canonical(ep(1, 9000), ep(2, 53), Protocol::Udp);
    let mut p = tcp(3, ep(1, 9000), ep(2, 53), TcpFlags::RST, 0, 0, 0, 9);
    p.key = key;
    p.dir = dir;
    p.proto = Protocol::Udp;
    let (_, d) = st.update(&p);
    assert!(d.new_flow && !d.rst && !d.is_retransmit && !d.zero_window_edge);
    assert_eq!(d.service, Some(ep(2, 53)));
    let (_, d) = st.update(&p);
    assert!(!d.new_flow);
}

#[test]
fn a_request_tells_the_service() {
    let mut st = state();
    let c = ep(1, 80);
    let s = ep(2, 8080);
    let (_, d) = st.update(&tcp(1, c, s, TcpFlags::ACK, 1, 1, 100, 0));
    assert_eq!(d.service, Some(c));
    let (key, d) = st.update(&tcp(2, c, s, TcpFlags::SYN, 9, 0, 100, 0));
    assert_eq!(d.service, Some(s));
    assert_eq!(st.globals.half_open_for(&s), 1);
    assert_eq!(st.globals.half_open_for(&c), 0);
    // A later request the other way round changes nothing.
    st.update(&tcp(3, s, c, TcpFlags::SYN, 9, 0, 100, 0));
    assert_eq!(st.flows.get(&key).expect("tracked").service, s);
    assert_eq!(st.globals.half_open_for(&s), 1);
    st.update(&tcp(4, s, c, TcpFlags::RST, 0, 0, 0, 0));
    assert_eq!(st.globals.half_open_for(&s), 0);
}

#[test]
fn the_lower_port_is_taken_for_the_service() {
    let mut st = state();
    let (_, d) = st.update(&tcp(0, ep(2, 80), ep(1, 5000), TcpFlags::ACK, 0, 0, 1, 0));
    assert_eq!(d.service, Some(ep(2, 80)));
    let (_, d) = st.update(&tcp(0, ep(2, 80), ep(3, 5000), TcpFlags::SYN, 0, 0, 1, 0));
    assert_eq!(d.service, Some(ep(3, 5000)));
}

#[test]
fn a_zero_window_is_reported_on_its_edge() {
    let mut st = state();
    let c = ep(1, 5000);
    let s = ep(2, 80);
    st.update(&tcp(0, c, s, TcpFlags::SYN, 1, 0, 1, 0));
    st.update(&tcp(0, s, c, TcpFlags::SYN | TcpFlags::ACK, 1, 2, 1, 0));
    let mut edge = |dir: bool, win| {
        let (a, b) = if dir { (c, s) } else { (s, c) };
        st.update(&tcp(1, a, b, TcpFlags::ACK, 2, 2, win, 0)).1.zero_window_edge
    };
    assert!(edge(true, 0));
    assert!(!edge(true, 0));
    assert!(edge(false, 0));
    assert!(!edge(true, 9));
    assert!(edge(true, 0));
}

#[test]
fn counters_that_are_full_are_noticed() {
    let st = state();
    assert!(st.has_room(&tcp(0, ep(1, 1), ep(2, 2), TcpFlags::SYN, 0, 0, 0, 0)));
    let eng = Engine::new(Config::default().detect);
    assert!(eng.has_room(&tcp(0, ep(1, 1), ep(2, 2), TcpFlags::RST, 0, 0, 0, 0)));
    assert_eq!(eng.detector_count(), 9);
}

#[test]
fn many_flows_are_kept_apart() {
    let mut st = state();
    let s = ep(200, 443);
    for i in 0..1000u16 {
        let c = ep((i % 100) as u8, 10_000 + i);
        st.update(&tcp(i as u64, c, s, TcpFlags::SYN, 1, 0, 1, 0));
    }
    assert_eq!(st.flows.len(), 1000);
    assert_eq!(st.globals.half_open_for(&s), 1000);
    let keys = st.flows.keys();
    assert_eq!(keys.len(), 1000);
    for i in 0..1000u16 {
        let c = ep((i % 100) as u8, 10_000 + i);
        let (key, _) = FlowKey::canonical(c, s, Protocol::Tcp);
        let f = st.flows.get(&key).expect("tracked");
        assert_eq!(f.syn_time_ns, Some(i as u64));
    }
    for k in &keys[..400] {
        st.evict(*k);
    }
    assert_eq!(st.flows.len(), 600);
    assert_eq!(st.globals.half_open_for(&s), 600);
    for k in &keys[400..600] {
        st.flag_timeout(*k);
    }
    assert_eq!(st.flows.len(), 600);
    assert_eq!(st.globals.half_open_for(&s), 400);
}

// ---------------------------------------------------------------------------
// Events
// ---------------------------------------------------------------------------

fn only(events: &[L4Event]) -> &L4Event {
    assert_eq!(events.len(), 1, "{events:?}");
    &events[0]
}

fn established(eng: &mut Engine, c: Endpoint, s: Endpoint) {
    assert!(eng.process(&tcp(0, c, s, TcpFlags::SYN, 100, 0, 64240, 0)).is_empty());
    assert!(eng
        .process(&tcp(1, s, c, TcpFlags::SYN | TcpFlags::ACK, 900, 101, 65160, 0))
        .is_empty());
    assert!(eng.process(&tcp(2, c, s, TcpFlags::ACK, 101, 901, 64240, 0)).is_empty());
}

#[test]
fn retransmission_event_is_exact() {
    let mut eng = Engine::new(Config::default().detect);
    let c = ep(1, 5000);
    let s = ep(2, 80);
    established(&mut eng, c, s);
    let data = TcpFlags::ACK | TcpFlags::PSH;
    assert!(eng.process(&tcp(3, c, s, data, 101, 901, 64240, 100)).is_empty());
    assert!(eng.process(&tcp(4, c, s, data, 201, 901, 64240, 100)).is_empty());
    let events = eng.process(&tcp(5, c, s, data, 101, 901, 64240, 100));
    let e = only(&events);
    assert_eq!(e.severity, Severity::Warning);
    assert_eq!(e.value, Ratio::new(1, 3));
    assert_eq!(
        e.detail,
        "TCP retransmissions on tcp 10.0.0.1:5000 <-> 10.0.0.2:80: 1/3 segments (33.3% loss/retx)"
    );
}

#[test]
fn retransmissions_below_the_ratio_are_quiet() {
    let mut eng = Engine::new(DetectConfig {
        retransmit_ratio_warn: Decimal::scaled(26, 2),
        ..Config::default().detect
    });
    let c = ep(1, 5000);
    let s = ep(2, 80);
    established(&mut eng, c, s);
    for seq in [101, 201, 301] {
        eng.process(&tcp(3, c, s, TcpFlags::ACK, seq, 901, 64240, 100));
    }
    // One in four, then two in five.
    assert!(eng.process(&tcp(4, c, s, TcpFlags::ACK, 301, 901, 64240, 100)).is_empty());
    let events = eng.process(&tcp(5, c, s, TcpFlags::ACK, 301, 901, 64240, 100));
    assert_eq!(only(&events).value, Ratio::new(2, 5));
}

#[test]
fn out_of_order_event_is_exact() {
    let mut eng = Engine::new(Config::default().detect);
    let c = ep(1, 5000);
    let s = ep(2, 80);
    established(&mut eng, c, s);
    let events = eng.process(&tcp(3, c, s, TcpFlags::ACK, 301, 901, 64240, 100));
    let e = only(&events);
    assert_eq!(e.kind, EventKind::OutOfOrder);
    assert_eq!(e.severity, Severity::Info);
    assert_eq!(e.value, Ratio::whole(1));
    assert_eq!(
        e.detail,
        "Out-of-order / gap in segment stream on tcp 10.0.0.1:5000 <-> 10.0.0.2:80"
    );
}

#[test]
fn duplicate_ack_burst_is_reported_once() {
    let mut eng = Engine::new(Config::default().detect);
    let c = ep(1, 5000);
    let s = ep(2, 80);
    established(&mut eng, c, s);
    let mut reports = Vec::new();
    for t in 0..10 {
        reports.extend(eng.process(&tcp(3 + t, s, c, TcpFlags::ACK, 901, 200, 65160, 0)));
    }
    let e = only(&reports);
    assert_eq!(e.ts_nanos, 6);
    assert_eq!(
        e.detail,
        "3 duplicate ACKs on tcp 10.0.0.1:5000 <-> 10.0.0.2:80 (fast-retransmit / loss signal)"
    );
    // Another run is reported again.
    let mut again = Vec::new();
    for t in 0..4 {
        again.extend(eng.process(&tcp(20 + t, s, c, TcpFlags::ACK, 901, 300, 65160, 0)));
    }
    assert_eq!(only(&again).kind, EventKind::DuplicateAck);
}

#[test]
fn zero_window_event_is_exact() {
    let mut eng = Engine::new(Config::default().detect);
    let c = ep(1, 5000);
    let s = ep(2, 80);
    established(&mut eng, c, s);
    let events = eng.process(&tcp(3, s, c, TcpFlags::ACK, 901, 101, 0, 0));
    let e = only(&events);
    assert_eq!(e.value, Ratio::whole(0));
    assert_eq!(
        e.detail,
        "Zero receive window on tcp 10.0.0.1:5000 <-> 10.0.0.2:80 \u{2014} receiver stalled / app \
         not draining"
    );
}

fn rtt_events(warn: Decimal, ms: u64) -> Vec<L4Event> {
    let mut eng =
        Engine::new(DetectConfig { rtt_warn_ms: warn, ..Config::default().detect });
    let c = ep(1, 5000);
    let s = ep(2, 80);
    eng.process(&tcp(0, c, s, TcpFlags::SYN, 100, 0, 64240, 0));
    let mut events =
        eng.process(&tcp(ms * 1_000_000, s, c, TcpFlags::SYN | TcpFlags::ACK, 9, 101, 1, 0));
    events.retain(|e| e.kind == EventKind::HighRtt);
    events
}

#[test]
fn high_rtt_grows_from_info_to_warning() {
    assert!(rtt_events(Decimal::scaled(250, 0), 249).is_empty());
    let events = rtt_events(Decimal::scaled(250, 0), 250);
    let e = only(&events);
    assert_eq!(e.severity, Severity::Info);
    assert_eq!(e.value, Ratio::scaled(250_000_000, NS_PER_SEC, Scale::Thousand));
    assert_eq!(e.detail, "High handshake RTT on tcp 10.0.0.1:5000 <-> 10.0.0.2:80: 250 ms");
    assert_eq!(only(&rtt_events(Decimal::scaled(250, 0), 999)).severity, Severity::Info);
    assert_eq!(only(&rtt_events(Decimal::scaled(250, 0), 1000)).severity, Severity::Warning);
    let nan: Vec<char> = "NaN".chars().collect();
    let events = rtt_events(Decimal::parse(&nan).expect("a number's text"), 1);
    assert_eq!(only(&events).severity, Severity::Info);
}

#[test]
fn handshake_failure_event_is_exact() {
    let mut eng = Engine::new(Config::default().detect);
    let c = ep(1, 5000);
    let s = ep(2, 80);
    eng.process(&tcp(0, c, s, TcpFlags::SYN, 100, 0, 64240, 0));
    let events = eng.process(&tcp(1, s, c, TcpFlags::RST, 0, 101, 0, 0));
    assert_eq!(
        only(&events).detail,
        "Connection refused (RST during handshake) on tcp 10.0.0.1:5000 <-> 10.0.0.2:80"
    );
    // A reset of an established connection is no refusal.
    let mut eng = Engine::new(Config::default().detect);
    established(&mut eng, c, s);
    assert!(eng.process(&tcp(3, s, c, TcpFlags::RST, 0, 101, 0, 0)).is_empty());
}

#[test]
fn rst_storm_is_debounced() {
    let mut eng = Engine::new(Config::default().detect);
    let s = ep(9, 8080);
    let mut storms = Vec::new();
    for i in 0..60u64 {
        // 50 ms apart: 20 in each second.
        let c = ep(20, 40000 + i as u16);
        let t = 5 * NS_PER_SEC + i * 50_000_000;
        storms.extend(eng.process(&tcp(t, s, c, TcpFlags::RST, 0, 0, 0, 0)));
    }
    let e = only(&storms);
    assert_eq!(e.severity, Severity::Critical);
    assert_eq!(e.ts_nanos, 5 * NS_PER_SEC + 950_000_000);
    assert_eq!(e.value, Ratio::new(20, 1));
    assert_eq!(
        e.detail,
        "RST storm: 20 resets/s host-wide (near tcp 10.0.0.9:8080 <-> 10.0.0.20:40019)"
    );
}

#[test]
fn syn_backlog_event_is_exact() {
    let mut eng = Engine::new(DetectConfig {
        syn_backlog_threshold: 3,
        ..Config::default().detect
    });
    let s = ep(9, 3306);
    let mut events = Vec::new();
    for i in 0..5u16 {
        events.extend(eng.process(&tcp(1, ep(1, 6000 + i), s, TcpFlags::SYN, 1, 0, 1, 0)));
    }
    let e = only(&events);
    assert_eq!(e.kind, EventKind::SynBacklog);
    assert_eq!(e.value, Ratio::whole(3));
    assert_eq!(
        e.detail,
        "SYN backlog to 10.0.0.9:3306: 3 half-open connections (possible SYN flood / accept-queue \
         exhaustion)"
    );
}

#[test]
fn connection_churn_event_is_exact() {
    let mut eng = Engine::new(DetectConfig {
        churn_per_sec: Decimal::scaled(25, 1),
        ..Config::default().detect
    });
    let mut events = Vec::new();
    for i in 0..4u16 {
        events.extend(eng.process(&tcp(9, ep(1, 6000 + i), ep(2, 80), TcpFlags::ACK, 1, 0, 1, 0)));
    }
    let e = only(&events);
    assert_eq!(e.kind, EventKind::ConnectionChurn);
    assert_eq!(e.severity, Severity::Info);
    assert_eq!(e.value, Ratio::new(3, 1));
    assert_eq!(e.detail, "Connection churn: 3 new flows/s host-wide");
}

#[test]
fn sweep_reports_once_and_evicts() {
    let mut eng = Engine::new(Config::default().detect);
    let c = ep(1, 5002);
    let s = ep(2, 3306);
    eng.process(&tcp(0, c, s, TcpFlags::SYN, 100, 0, 64240, 0));
    assert!(eng.sweep(3 * NS_PER_SEC).is_empty());
    let events = eng.sweep(3 * NS_PER_SEC + 500_000_000);
    let e = only(&events);
    assert_eq!(e.severity, Severity::Warning);
    assert_eq!(e.value, Ratio::new(3_500_000_000, NS_PER_SEC));
    assert_eq!(e.detail, "SYN to 10.0.0.2:3306 unanswered for 3.5s (handshake timeout)");
    assert!(eng.sweep(3 * NS_PER_SEC + 500_000_000).is_empty());
    let st = eng.stats(0);
    assert_eq!((st.active_flows, st.half_open_max), (1, 0));
    assert_eq!(st.new_flow_per_sec, Ratio::new(1, 1));
    assert_eq!(st.rst_per_sec, Ratio::new(0, 1));
    assert!(eng.sweep(120 * NS_PER_SEC).is_empty());
    assert_eq!(eng.stats(0).active_flows, 1);
    assert!(eng.sweep(120 * NS_PER_SEC + 1).is_empty());
    assert_eq!(eng.stats(0).active_flows, 0);
}

#[test]
fn backlog_is_exact_through_packets_and_sweeps() {
    let mut eng = Engine::new(Config::default().detect);
    let s = ep(2, 80);
    let most = |eng: &Engine| eng.stats(0).half_open_max;
    for p in 0..4u16 {
        eng.process(&tcp(1, ep(1, 5000 + p), s, TcpFlags::SYN, 1, 0, 1, 0));
    }
    assert_eq!(most(&eng), 4);
    eng.process(&tcp(2, s, ep(1, 5000), TcpFlags::SYN | TcpFlags::ACK, 9, 2, 1, 0));
    assert_eq!(most(&eng), 4);
    eng.process(&tcp(3, ep(1, 5000), s, TcpFlags::ACK, 2, 10, 1, 0));
    assert_eq!(most(&eng), 3);
    eng.process(&tcp(4, s, ep(1, 5001), TcpFlags::RST, 0, 2, 0, 0));
    assert_eq!(most(&eng), 2);
    // The two that are left time out, once each.
    assert_eq!(eng.sweep(4 * NS_PER_SEC).len(), 2);
    assert_eq!(most(&eng), 0);
    eng.process(&tcp(5 * NS_PER_SEC, ep(1, 5002), s, TcpFlags::SYN, 1, 0, 1, 0));
    assert_eq!(most(&eng), 0);
    assert!(eng.sweep(9 * NS_PER_SEC).is_empty());
    assert_eq!(eng.flow_count(), 4);
}

#[test]
fn synthetic_traffic_raises_every_kind() {
    let mut eng = Engine::new(Config::default().detect);
    let mut source = SyntheticSource::new();
    let mut kinds: HashSet<EventKind> = HashSet::new();
    while let Ok(Some(p)) = source.next_packet() {
        for e in eng.process(&p) {
            kinds.insert(e.kind);
        }
    }
    assert_eq!(kinds.len(), 10);
}

#[test]
fn a_sweep_for_an_earlier_time_changes_nothing() {
    let mut eng = Engine::new(Config::default().detect);
    eng.process(&tcp(0, ep(1, 5002), ep(2, 3306), TcpFlags::SYN, 100, 0, 64240, 0));
    eng.process(&tcp(9, ep(1, 5003), ep(2, 3306), TcpFlags::SYN, 100, 0, 64240, 0));
    assert_eq!(eng.sweep(3 * NS_PER_SEC + 5).len(), 1);
    assert!(eng.sweep(3 * NS_PER_SEC + 2).is_empty());
    assert_eq!(eng.sweep(4 * NS_PER_SEC).len(), 1);
}

#[test]
fn the_capture_path_plays_no_part() {
    let run = |iface: u32, ttl: u8| -> Vec<String> {
        let mut eng = Engine::new(Config::default().detect);
        let mut source = SyntheticSource::new();
        let mut out = Vec::new();
        while let Ok(Some(p)) = source.next_packet() {
            for e in eng.process(&PacketMeta { iface, ttl, ..p }) {
                out.push(e.detail);
            }
        }
        out
    };
    let plain = run(0, 64);
    assert!(!plain.is_empty());
    assert_eq!(plain, run(7, 3));
}

#[test]
fn packets_set_off_sweeps() {
    let mut eng = Engine::new(Config::default().detect);
    eng.process(&tcp(0, ep(1, 5002), ep(2, 3306), TcpFlags::SYN, 100, 0, 64240, 0));
    let late = tcp(4 * NS_PER_SEC, ep(1, 1), ep(2, 2), TcpFlags::ACK, 0, 0, 1, 0);
    let events = eng.process(&late);
    assert_eq!(only(&events).kind, EventKind::HandshakeTimeout);
    assert!(eng.process(&late).is_empty());
}

#[test]
fn detector_chains_can_be_replaced() {
    let mut eng = Engine::new(Config::default().detect);
    eng.set_detectors(vec![Rule { detector: Box::new(OutOfOrderDetector) }]);
    assert_eq!(eng.detector_count(), 1);
    let c = ep(1, 5000);
    let s = ep(2, 80);
    eng.process(&tcp(0, c, s, TcpFlags::SYN, 100, 0, 64240, 0));
    assert!(eng.process(&tcp(1, s, c, TcpFlags::RST, 0, 101, 0, 0)).is_empty());
    let events = eng.process(&tcp(2, c, s, TcpFlags::ACK, 500, 901, 64240, 100));
    assert_eq!(only(&events).kind, EventKind::OutOfOrder);
}

#[test]
fn default_chain_is_in_order() {
    let chain = detectors::default_detectors(&Config::default().detect);
    let names: Vec<&str> = chain.iter().map(|r| r.detector.name()).collect();
    assert_eq!(
        names,
        [
            "retransmission",
            "out_of_order",
            "duplicate_ack",
            "zero_window",
            "high_rtt",
            "handshake_failure",
            "rst_storm",
            "syn_backlog",
            "connection_churn"
        ]
    );
}
