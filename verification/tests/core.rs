use l4scope::address::IpAddr;
use l4scope::clock;
use l4scope::config::{Backend, Config};
use l4scope::error::Error;
use l4scope::number::Ratio;
use l4scope::types::{
    Direction, Endpoint, EventKind, FlowKey, L4Event, Protocol, Severity, TcpFlags,
};

fn ep(a: u8, p: u16) -> Endpoint {
    Endpoint::new(IpAddr::v4(10, 0, 0, a), p)
}

fn chars(s: &str) -> Vec<char> {
    s.chars().collect()
}

#[test]
fn canonical_key_is_direction_independent() {
    let a = ep(1, 5000);
    let b = ep(2, 80);
    let (k1, d1) = FlowKey::canonical(a, b, Protocol::Tcp);
    let (k2, d2) = FlowKey::canonical(b, a, Protocol::Tcp);
    assert_eq!(k1, k2, "both directions map to one key");
    assert_ne!(d1, d2, "directions differ");
}

#[test]
fn canonical_key_orders_by_address_then_port() {
    let (k, d) = FlowKey::canonical(ep(7, 90), ep(7, 80), Protocol::Udp);
    assert_eq!(k.low.port, 80);
    assert_eq!(d, Direction::Reverse);
    let v6 = Endpoint::new(IpAddr::V6(1), 1);
    let (k, d) = FlowKey::canonical(v6, ep(9, 65535), Protocol::Tcp);
    assert_eq!(k.low, ep(9, 65535));
    assert_eq!(d, Direction::Reverse);
    let (same, d) = FlowKey::canonical(ep(1, 1), ep(1, 1), Protocol::Tcp);
    assert_eq!(same.low, same.high);
    assert_eq!(d, Direction::Forward);
}

#[test]
fn tcp_flags_decode() {
    let f = TcpFlags(TcpFlags::SYN);
    assert!(f.is_syn_only());
    assert!(!f.is_syn_ack());
    let sa = TcpFlags(TcpFlags::SYN | TcpFlags::ACK);
    assert!(sa.is_syn_ack());
    assert!(TcpFlags(TcpFlags::RST).rst());
}

#[test]
fn every_flag_is_told_apart() {
    let f = TcpFlags(TcpFlags::FIN | TcpFlags::PSH);
    assert!(f.fin() && f.psh() && !f.syn() && !f.ack() && !f.rst());
    assert!(f.has(TcpFlags::FIN | TcpFlags::URG));
    assert!(!f.has(TcpFlags::URG));
    assert_eq!(TcpFlags::default(), TcpFlags(0));
}

#[test]
fn event_json_has_fields() {
    let (k, _) = FlowKey::canonical(ep(1, 5000), ep(2, 80), Protocol::Tcp);
    let ev = L4Event::new(
        42,
        EventKind::ZeroWindow,
        Severity::Warning,
        k,
        Ratio::whole(0),
        "stall\"x".to_string(),
    );
    let j = ev.to_json();
    assert!(j.contains("\"kind\":\"zero_window\""));
    assert!(j.contains("\"severity\":\"warning\""));
    assert!(j.contains("stall\\\"x"), "detail is escaped");
}

#[test]
fn event_json_is_exact() {
    let (k, _) = FlowKey::canonical(ep(2, 80), ep(1, 5000), Protocol::Tcp);
    let ev = L4Event::new(
        7,
        EventKind::Retransmission,
        Severity::Critical,
        k,
        Ratio::new(1, 3),
        "a\nb\tc\r\\".to_string(),
    );
    assert_eq!(
        ev.to_json(),
        "{\"ts_ns\":7,\"kind\":\"retransmission\",\"severity\":\"critical\",\"proto\":\"tcp\",\
         \"low\":\"10.0.0.1:5000\",\"high\":\"10.0.0.2:80\",\"value\":0.333,\
         \"detail\":\"a\\nb\\tc\\r\\\\\"}"
    );
    assert!(!ev.to_json().contains('\n'));
}

#[test]
fn names_of_kinds_severities_and_protocols() {
    let kinds = [
        (EventKind::Retransmission, "retransmission"),
        (EventKind::DuplicateAck, "duplicate_ack"),
        (EventKind::OutOfOrder, "out_of_order"),
        (EventKind::ZeroWindow, "zero_window"),
        (EventKind::RstStorm, "rst_storm"),
        (EventKind::HandshakeFailure, "handshake_failure"),
        (EventKind::HandshakeTimeout, "handshake_timeout"),
        (EventKind::SynBacklog, "syn_backlog"),
        (EventKind::HighRtt, "high_rtt"),
        (EventKind::ConnectionChurn, "connection_churn"),
    ];
    for (kind, name) in kinds {
        assert_eq!(kind.as_str(), name);
    }
    assert_eq!(Severity::Info.as_str(), "info");
    assert_eq!(Severity::Warning.as_str(), "warning");
    assert_eq!(Severity::Critical.as_str(), "critical");
    assert_eq!(Protocol::Tcp.as_str(), "tcp");
    assert_eq!(Protocol::Udp.as_str(), "udp");
    assert_eq!(Direction::Forward.index(), 0);
    assert_eq!(Direction::Reverse.index(), 1);
    assert!(Severity::Info < Severity::Critical);
}

#[test]
fn texts_of_endpoints_and_flows() {
    assert_eq!(ep(3, 443).to_text(), "10.0.0.3:443");
    let six = Endpoint::new(IpAddr::V6(1), 53);
    assert_eq!(six.to_text(), "[::1]:53");
    let (k, _) = FlowKey::canonical(six, ep(3, 443), Protocol::Udp);
    assert_eq!(k.to_text(), "udp 10.0.0.3:443 <-> [::1]:53");
}

#[test]
fn parses_sections_and_types() {
    let cfg = Config::from_str(
        r#"
            [capture]
            backend = "ebpf"
            interface = "eth0"
            [detect]
            rst_storm_per_sec = 12.5
            dup_ack_threshold = 5
            [otlp]
            enabled = true
            endpoint = "http://collector:4318"
            pod_attribution = true
            pod_cidrs = "10.244.0.0/16"
            "#,
    )
    .expect("valid config");
    assert_eq!(cfg.capture.backend, Backend::Ebpf);
    assert_eq!(cfg.capture.interface, "eth0");
    // 12.5 and nothing next to it.
    assert!(Ratio::new(25, 2).reaches(&cfg.detect.rst_storm_per_sec));
    // The next double down does not reach it: the threshold is 12.5.
    let down = Ratio::new(7_036_874_417_766_399, 562_949_953_421_312);
    assert!(!down.reaches(&cfg.detect.rst_storm_per_sec));
    assert_eq!(cfg.detect.dup_ack_threshold, 5);
    assert!(cfg.otlp.enabled);
    assert!(cfg.otlp.pod_attribution);
    assert_eq!(cfg.otlp.endpoint, "http://collector:4318");
}

#[test]
fn rejects_unknown_key() {
    let err = Config::from_str("[detect]\nbogus = 1\n");
    assert!(err.is_err());
}

#[test]
fn defaults_are_conservative() {
    let cfg = Config::default();
    assert!(!cfg.otlp.enabled);
    assert_eq!(cfg.export.prometheus_addr, "127.0.0.1:9560");
}

fn config_error(text: &str) -> String {
    match Config::from_str(text) {
        Ok(_) => String::new(),
        Err(e) => e.to_text(),
    }
}

#[test]
fn config_errors_name_the_line() {
    assert_eq!(
        config_error("[detect]\nbogus = 1\n"),
        "config error: line 2: config error: unknown key '[detect] bogus'"
    );
    assert_eq!(config_error("\n# c\nwhat"), "config error: line 3: expected key = value");
    assert_eq!(
        config_error("x = 1"),
        "config error: line 1: config error: unknown key '[] x'"
    );
    assert_eq!(
        config_error("[capture]\nbackend = \"carrier pigeon\""),
        "config error: line 2: config error: unknown backend 'carrier pigeon'"
    );
    assert_eq!(
        config_error("[otlp]\nenabled = yes"),
        "config error: line 2: config error: expected true/false, got 'yes'"
    );
    assert_eq!(
        config_error("[detect]\nflow_ttl_secs = -1"),
        "config error: line 2: config error: expected integer, got '-1'"
    );
    assert_eq!(
        config_error("[detect]\ndup_ack_threshold = 4294967296"),
        "config error: line 2: config error: expected integer, got '4294967296'"
    );
    assert_eq!(
        config_error("[detect]\nrtt_warn_ms = fast"),
        "config error: line 2: config error: expected number, got 'fast'"
    );
    assert_eq!(config_error("["), "config error: line 1: expected key = value");
}

#[test]
fn every_key_is_settable() {
    let cfg = Config::from_str(
        "[capture]\r\nbackend = pcap\r\ninterface = \"en0\"\r\nfilter = \"tcp\"\r\n\
         pcap_path = \"/a b.pcap\"\r\nlive_command = \"x y\"\r\n\
         [ detect ]\nflow_ttl_secs = 1\nretransmit_ratio_warn = .5\ndup_ack_threshold = +2\n\
         rst_storm_per_sec = 1e2\nsyn_backlog_threshold = 3\nrtt_warn_ms = 4.\n\
         handshake_timeout_secs = 5\nchurn_per_sec = inf\nalert_debounce_secs = 6\n\
         [export]\nprometheus_addr = \"\"\njson_events = off # to nowhere\n\
         [otlp]\nenabled = \"true\"\nendpoint = \"h\"\npath = \"/p\"\ninterval_secs = 7\n\
         headers = \"a=b\"\nresource_attributes = \"c=d\"\nservice_name = \"s\"\n\
         pod_cidrs = \"1.0.0.0/8\"\npod_attribution = false\n",
    )
    .expect("valid config");
    assert_eq!(cfg.capture.backend, Backend::PcapFile);
    assert_eq!(cfg.capture.interface, "en0");
    assert_eq!(cfg.capture.filter, "tcp");
    assert_eq!(cfg.capture.pcap_path, "/a b.pcap");
    assert_eq!(cfg.capture.live_command, "x y");
    assert_eq!(cfg.detect.flow_ttl_secs, 1);
    assert!(Ratio::new(1, 2).reaches(&cfg.detect.retransmit_ratio_warn));
    assert!(!Ratio::new(49, 100).reaches(&cfg.detect.retransmit_ratio_warn));
    assert_eq!(cfg.detect.dup_ack_threshold, 2);
    assert!(Ratio::new(100, 1).reaches(&cfg.detect.rst_storm_per_sec));
    assert!(!Ratio::new(99, 1).reaches(&cfg.detect.rst_storm_per_sec));
    assert_eq!(cfg.detect.syn_backlog_threshold, 3);
    assert!(Ratio::new(4, 1).reaches(&cfg.detect.rtt_warn_ms));
    assert_eq!(cfg.detect.handshake_timeout_secs, 5);
    assert!(!Ratio::new(u64::MAX, 1).reaches(&cfg.detect.churn_per_sec));
    assert_eq!(cfg.detect.alert_debounce_secs, 6);
    assert_eq!(cfg.export.prometheus_addr, "");
    assert_eq!(cfg.export.json_events, "off");
    assert!(cfg.otlp.enabled);
    assert_eq!(cfg.otlp.endpoint, "h");
    assert_eq!(cfg.otlp.path, "/p");
    assert_eq!(cfg.otlp.interval_secs, 7);
    assert_eq!(cfg.otlp.headers, "a=b");
    assert_eq!(cfg.otlp.resource_attributes, "c=d");
    assert_eq!(cfg.otlp.service_name, "s");
    assert_eq!(cfg.otlp.pod_cidrs, "1.0.0.0/8");
    assert!(!cfg.otlp.pod_attribution);
    assert!(cfg.detect.is_within_clock());
}

#[test]
fn blank_text_means_defaults() {
    let cfg = Config::from_str("\n  # nothing\n[detect]\n\n").expect("valid config");
    assert_eq!(cfg.capture.backend, Backend::Synthetic);
    assert_eq!(cfg.capture.filter, "tcp or udp");
    assert_eq!(cfg.detect.flow_ttl_secs, 120);
    assert_eq!(cfg.detect.dup_ack_threshold, 3);
    assert_eq!(cfg.detect.syn_backlog_threshold, 64);
    assert_eq!(cfg.detect.handshake_timeout_secs, 3);
    assert_eq!(cfg.detect.alert_debounce_secs, 10);
    assert!(Ratio::new(5, 100).reaches(&cfg.detect.retransmit_ratio_warn));
    assert!(!Ratio::new(4, 100).reaches(&cfg.detect.retransmit_ratio_warn));
    assert_eq!(cfg.otlp.path, "/v1/metrics");
    assert_eq!(cfg.otlp.interval_secs, 15);
}

#[test]
fn spans_beyond_the_clock_are_noticed() {
    let cfg = Config::from_str("[detect]\nflow_ttl_secs = 18446744074").expect("valid config");
    assert!(!cfg.detect.is_within_clock());
    let cfg = Config::from_str("[detect]\nflow_ttl_secs = 18446744073").expect("valid config");
    assert!(cfg.detect.is_within_clock());
}

#[test]
fn every_backend_has_its_names() {
    let names = [
        ("pcap_file", Backend::PcapFile),
        ("pcap", Backend::PcapFile),
        ("synthetic", Backend::Synthetic),
        ("demo", Backend::Synthetic),
        ("live", Backend::Live),
        ("tcpdump", Backend::Live),
        ("ebpf", Backend::Ebpf),
        ("etw", Backend::Etw),
    ];
    for (name, backend) in names {
        assert_eq!(Backend::parse(&chars(name)).expect("known"), backend);
    }
    assert!(Backend::parse(&chars("PCAP")).is_err());
}

#[test]
fn errors_have_their_prefixes() {
    assert_eq!(Error::Io("x".to_string()).to_text(), "io error: x");
    assert_eq!(Error::Parse("x".to_string()).to_text(), "parse error: x");
    assert_eq!(Error::Config("x".to_string()).to_text(), "config error: x");
    assert_eq!(
        Error::UnsupportedBackend("x".to_string()).to_text(),
        "unsupported capture backend: x"
    );
}

#[test]
fn clock_readings_become_nanoseconds() {
    assert_eq!(clock::now_nanos(None), 0);
    assert_eq!(clock::now_nanos(Some(5)), 5);
    assert_eq!(clock::now_nanos(Some((1u128 << 64) + 9)), 9);
    assert_eq!(clock::nanos_to_secs(2_999_999_999), 2);
}
