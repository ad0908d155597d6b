use l4scope::address;
use l4scope::address::IpAddr;
use l4scope::attribution::PodMatcher;
use l4scope::config::Config;
use l4scope::http;
use l4scope::http::Page;
use l4scope::metrics::{MetricsSnapshot, Registry};
use l4scope::number::Ratio;
use l4scope::otlp;
use l4scope::sink::JsonSink;
use l4scope::types::{Endpoint, EventKind, FlowKey, L4Event, Protocol, Severity};

fn chars(s: &str) -> Vec<char> {
    s.chars().collect()
}

fn ip(s: &str) -> IpAddr {
    IpAddr::parse(&chars(s)).unwrap()
}

#[test]
fn matches_pod_endpoint_in_cidr() {
    let m = PodMatcher::new("10.244.0.0/16, 192.168.0.0/24");
    let pod = Endpoint::new(ip("10.244.5.7"), 5000);
    let peer = Endpoint::new(ip("8.8.8.8"), 443);
    let (key, _) = FlowKey::canonical(pod, peer, Protocol::Tcp);
    assert_eq!(m.local_pod_ip(&key).as_deref(), Some("10.244.5.7"));
}

#[test]
fn no_match_outside_cidr() {
    let m = PodMatcher::new("10.244.0.0/16");
    let a = Endpoint::new(IpAddr::v4(172, 16, 0, 1), 1);
    let b = Endpoint::new(IpAddr::v4(8, 8, 8, 8), 2);
    let (key, _) = FlowKey::canonical(a, b, Protocol::Tcp);
    assert!(m.local_pod_ip(&key).is_none());
}

#[test]
fn empty_and_invalid_specs() {
    assert!(PodMatcher::new("").is_empty());
    assert!(PodMatcher::new("garbage,10/x").is_empty());
}

#[test]
fn cidrs_of_both_families_match() {
    let m = PodMatcher::new(" fd00:1:: / 32 ,, 10.0.0.0/8,1.2.3.4/33,5.6.7.8/32,fd00::/129");
    assert_eq!(m.cidrs, vec![(ip("fd00:1::"), 32), (ip("10.0.0.0"), 8), (ip("5.6.7.8"), 32)]);
    assert!(PodMatcher::new("10.0.0.0/33,fd00::/129").is_empty());
    assert!(!PodMatcher::new("fd00::/128").is_empty());
    let key = |a: &str, b: &str| {
        FlowKey::canonical(Endpoint::new(ip(a), 1), Endpoint::new(ip(b), 2), Protocol::Udp).0
    };
    assert_eq!(m.local_pod_ip(&key("fd00:1::5", "fe80::1")).as_deref(), Some("fd00:1::5"));
    assert_eq!(m.local_pod_ip(&key("fd00:2::5", "fe80::1")), None);
    // Of two pods the low endpoint's is taken.
    assert_eq!(m.local_pod_ip(&key("10.9.9.9", "10.1.1.1")).as_deref(), Some("10.1.1.1"));
    assert_eq!(m.local_pod_ip(&key("1.2.3.4", "9.9.9.9")), None);
}

#[test]
fn prefixes_compare_leading_bits() {
    assert!(address::cidr_contains(ip("0.0.0.0"), 0, ip("255.1.2.3")));
    assert!(address::cidr_contains(ip("1.2.3.4"), 32, ip("1.2.3.4")));
    assert!(!address::cidr_contains(ip("1.2.3.4"), 32, ip("1.2.3.5")));
    assert!(address::cidr_contains(ip("1.2.3.4"), 31, ip("1.2.3.5")));
    assert!(!address::cidr_contains(ip("1.2.3.4"), 33, ip("1.2.3.4")));
    assert!(!address::cidr_contains(ip("::"), 0, ip("1.2.3.4")));
    assert!(address::cidr_contains(ip("::"), 0, ip("ffff::")));
    assert!(address::cidr_contains(ip("fd00::"), 128, ip("fd00::")));
    assert!(!address::cidr_contains(ip("fd00::"), 129, ip("fd00::")));
}

fn sample_event() -> L4Event {
    let a = Endpoint::new(IpAddr::v4(10, 244, 0, 5), 5000);
    let b = Endpoint::new(IpAddr::v4(10, 0, 0, 9), 80);
    let (k, _) = FlowKey::canonical(a, b, Protocol::Tcp);
    L4Event::new(
        1,
        EventKind::Retransmission,
        Severity::Warning,
        k,
        Ratio::new(1, 2),
        "x".to_string(),
    )
}

#[test]
fn records_and_renders() {
    let mut r = Registry::new();
    r.record_packet(Some("10.244.0.5"));
    r.record_event(&sample_event(), Some("10.244.0.5"));
    r.set_gauges(3, 7, Ratio::new(3, 2), Ratio::whole(2));

    let text = r.render_prometheus();
    assert!(text.contains("l4scope_events{kind=\"retransmission\",severity=\"warning\"} 1"));
    assert!(text.contains("l4scope_pod_events{pod_ip=\"10.244.0.5\""));
    assert!(text.contains("l4scope_active_flows 3"));

    let snap = r.snapshot();
    assert_eq!(snap.packets_total, 1);
    assert_eq!(snap.events_total, 1);
    assert_eq!(snap.pod_event_counts.len(), 1);
    assert_eq!(snap.half_open_max, 7);
}

#[test]
fn prometheus_text_is_exact() {
    let mut r = Registry::default();
    r.record_packet(None);
    r.record_packet(Some("10.0.0.2"));
    let mut e = sample_event();
    e.kind = EventKind::ZeroWindow;
    r.record_event(&e, None);
    r.record_event(&sample_event(), Some("10.0.0.2"));
    r.record_event(&sample_event(), Some("10.0.0.10"));
    r.set_gauges(3, 7, Ratio::new(3, 2), Ratio::new(2, 3));
    assert_eq!(
        r.render_prometheus(),
        "# HELP l4scope_packets_total Packets processed by the engine.\n\
         # TYPE l4scope_packets_total counter\n\
         l4scope_packets_total 2\n\
         # HELP l4scope_events_total L4 anomaly events emitted.\n\
         # TYPE l4scope_events_total counter\n\
         l4scope_events_total 3\n\
         # HELP l4scope_events Anomaly events by kind and severity.\n\
         # TYPE l4scope_events counter\n\
         l4scope_events{kind=\"retransmission\",severity=\"warning\"} 2\n\
         l4scope_events{kind=\"zero_window\",severity=\"warning\"} 1\n\
         # HELP l4scope_pod_events Anomaly events by pod, kind and severity.\n\
         # TYPE l4scope_pod_events counter\n\
         l4scope_pod_events{pod_ip=\"10.0.0.10\",kind=\"retransmission\",severity=\"warning\"} 1\n\
         l4scope_pod_events{pod_ip=\"10.0.0.2\",kind=\"retransmission\",severity=\"warning\"} 1\n\
         # HELP l4scope_pod_packets_total Packets processed per pod.\n\
         # TYPE l4scope_pod_packets_total counter\n\
         l4scope_pod_packets_total{pod_ip=\"10.0.0.2\"} 1\n\
         # HELP l4scope_active_flows Flows currently tracked.\n\
         # TYPE l4scope_active_flows gauge\n\
         l4scope_active_flows 3\n\
         # HELP l4scope_half_open_max Max concurrent half-open connections to one service.\n\
         # TYPE l4scope_half_open_max gauge\n\
         l4scope_half_open_max 7\n\
         # HELP l4scope_rst_per_second Host-wide TCP RST rate.\n\
         # TYPE l4scope_rst_per_second gauge\n\
         l4scope_rst_per_second 1.500\n\
         # HELP l4scope_new_flows_per_second Host-wide new-flow rate.\n\
         # TYPE l4scope_new_flows_per_second gauge\n\
         l4scope_new_flows_per_second 0.667\n"
    );
    assert_eq!(r.totals(), (2, 3));
}

#[test]
fn snapshots_are_sorted_and_add_up() {
    let mut r = Registry::new();
    let order = [
        EventKind::ZeroWindow,
        EventKind::HighRtt,
        EventKind::ConnectionChurn,
        EventKind::HighRtt,
        EventKind::RstStorm,
    ];
    for (i, kind) in order.iter().enumerate() {
        let mut e = sample_event();
        e.kind = *kind;
        e.severity = if i % 2 == 0 { Severity::Warning } else { Severity::Info };
        r.record_event(&e, Some("b"));
    }
    r.record_packet(Some("b"));
    r.record_packet(Some("a"));
    let snap = r.snapshot();
    assert_eq!(
        snap.event_counts,
        vec![
            ("connection_churn", "warning", 1),
            ("high_rtt", "info", 2),
            ("rst_storm", "warning", 1),
            ("zero_window", "warning", 1),
        ]
    );
    let sum: u64 = snap.event_counts.iter().map(|e| e.2).sum();
    assert_eq!(sum, snap.events_total);
    assert_eq!(snap.pod_packets, vec![("a".to_string(), 1), ("b".to_string(), 1)]);
    assert_eq!(snap.pod_event_counts.len(), 4);
}

fn braces_balanced(s: &str) -> bool {
    let mut depth = 0i32;
    for c in s.chars() {
        match c {
            '{' | '[' => depth += 1,
            '}' | ']' => depth -= 1,
            _ => {}
        }
        if depth < 0 {
            return false;
        }
    }
    depth == 0
}

fn sample_snapshot() -> MetricsSnapshot {
    MetricsSnapshot {
        packets_total: 100,
        events_total: 2,
        event_counts: vec![("retransmission", "warning", 2)],
        pod_event_counts: vec![("10.244.0.5".to_string(), "zero_window", "warning", 1)],
        pod_packets: vec![("10.244.0.5".to_string(), 50)],
        active_flows: 4,
        half_open_max: 1,
        rst_per_sec: Ratio::whole(0),
        new_flow_per_sec: Ratio::whole(3),
    }
}

#[test]
fn build_body_is_well_formed() {
    let snap = sample_snapshot();
    let attrs = vec![
        ("service.name".to_string(), "l4scope".to_string()),
        ("k8s.node.name".to_string(), "node-1".to_string()),
    ];
    let body = otlp::build_body(&snap, &attrs, 1, 2);
    assert!(braces_balanced(&body), "JSON braces/brackets balanced");
    assert!(body.contains("\"resourceMetrics\""));
    assert!(body.contains("l4scope.events"));
    assert!(body.contains("l4scope.pod.events"));
    assert!(body.contains("\"k8s.pod.ip\""));
    assert!(body.contains("\"aggregationTemporality\":2"));
    assert!(body.contains("k8s.node.name"));
}

#[test]
fn otlp_body_is_exact() {
    let mut snap = sample_snapshot();
    snap.pod_event_counts.clear();
    snap.pod_packets.clear();
    snap.rst_per_sec = Ratio::new(5, 2);
    let attrs = vec![("a\"b".to_string(), "c\\d".to_string())];
    let sum = "\"sum\":{\"aggregationTemporality\":2,\"isMonotonic\":true,\"dataPoints\":[";
    let want = [
        "{\"resourceMetrics\":[{\"resource\":{\"attributes\":[",
        "{\"key\":\"a\\\"b\",\"value\":{\"stringValue\":\"c\\\\d\"}}",
        "]},\"scopeMetrics\":[{\"scope\":{\"name\":\"l4scope\",\"version\":\"0.1.0\"},\"metrics\":[",
        "{\"name\":\"l4scope.packets\",\"unit\":\"1\",",
        sum,
        "{\"asInt\":\"100\",\"startTimeUnixNano\":\"1\",\"timeUnixNano\":\"2\",\"attributes\":[]}",
        "]}},{\"name\":\"l4scope.events\",\"unit\":\"1\",",
        sum,
        "{\"asInt\":\"2\",\"startTimeUnixNano\":\"1\",\"timeUnixNano\":\"2\",\"attributes\":[",
        "{\"key\":\"l4.kind\",\"value\":{\"stringValue\":\"retransmission\"}},",
        "{\"key\":\"severity\",\"value\":{\"stringValue\":\"warning\"}}]}",
        "]}},{\"name\":\"l4scope.active_flows\",\"unit\":\"1\",\"gauge\":{\"dataPoints\":[",
        "{\"asInt\":\"4\",\"timeUnixNano\":\"2\",\"attributes\":[]}",
        "]}},{\"name\":\"l4scope.half_open_max\",\"unit\":\"1\",\"gauge\":{\"dataPoints\":[",
        "{\"asInt\":\"1\",\"timeUnixNano\":\"2\",\"attributes\":[]}",
        "]}},{\"name\":\"l4scope.rst_per_second\",\"unit\":\"1/s\",\"gauge\":{\"dataPoints\":[",
        "{\"asDouble\":2.5,\"timeUnixNano\":\"2\",\"attributes\":[]}",
        "]}},{\"name\":\"l4scope.new_flows_per_second\",\"unit\":\"1/s\",\"gauge\":{\"dataPoints\":[",
        "{\"asDouble\":3,\"timeUnixNano\":\"2\",\"attributes\":[]}",
        "]}}]}]}]}",
    ]
    .concat();
    assert_eq!(otlp::build_body(&snap, &attrs, 1, 2), want);
}

#[test]
fn https_endpoint_is_rejected() {
    let mut cfg = Config::default().otlp;
    cfg.endpoint = "https://example:4318".to_string();
    assert!(otlp::parse_target(&cfg).is_err());
}

fn target_of(endpoint: &str) -> Result<(String, u16), String> {
    let mut cfg = Config::default().otlp;
    cfg.endpoint = endpoint.to_string();
    match otlp::parse_target(&cfg) {
        Ok(t) => Ok((t.host, t.port)),
        Err(e) => Err(e.to_text()),
    }
}

#[test]
fn endpoints_give_host_and_port() {
    assert_eq!(target_of("http://localhost:4318"), Ok(("localhost".to_string(), 4318)));
    assert_eq!(target_of(" collector:99/x:1 "), Ok(("collector".to_string(), 99)));
    assert_eq!(target_of("http://h"), Ok(("h".to_string(), 4318)));
    assert_eq!(target_of("http://h:port"), Ok(("h".to_string(), 4318)));
    assert_eq!(target_of("http://[::1]:70000"), Ok(("[::1]".to_string(), 4318)));
    assert_eq!(target_of("http://:1"), Err("config error: otlp endpoint has no host".to_string()));
    assert_eq!(target_of(""), Err("config error: otlp endpoint has no host".to_string()));
    assert_eq!(
        target_of("https://h"),
        Err("config error: otlp endpoint must be http:// (run a node-local Collector for TLS/cloud)"
            .to_string())
    );
}

#[test]
fn requests_carry_headers_and_length() {
    let mut cfg = Config::default().otlp;
    cfg.headers = "Authorization = Bearer x=y, =lost,junk,X-A=".to_string();
    let t = otlp::parse_target(&cfg).expect("valid");
    assert_eq!(
        t.headers,
        vec![
            ("Authorization".to_string(), "Bearer x=y".to_string()),
            (String::new(), "lost".to_string()),
            ("X-A".to_string(), String::new()),
        ]
    );
    assert_eq!(
        otlp::request_head(&t, "{\u{e9}}"),
        "POST /v1/metrics HTTP/1.1\r\nHost: localhost:4318\r\nContent-Type: application/json\r\n\
         Content-Length: 4\r\nAuthorization: Bearer x=y\r\nX-A: \r\nConnection: close\r\n\r\n"
    );
}

#[test]
fn collector_answers_are_checked() {
    assert_eq!(otlp::check_response("HTTP/1.1 200 OK\r\n"), Ok(()));
    assert_eq!(otlp::check_response(""), Ok(()));
    assert_eq!(otlp::check_response("HTTP/1.1"), Ok(()));
    assert_eq!(
        otlp::check_response("HTTP/1.1 503 Service Unavailable"),
        Err("collector returned HTTP 503".to_string())
    );
}

#[test]
fn pages_are_routed() {
    assert_eq!(http::route("GET /metrics HTTP/1.1\r\n"), Page::Metrics);
    assert_eq!(http::route("GET /metrics?x=1 HTTP/1.1\r\n"), Page::Metrics);
    assert_eq!(http::route("GET /healthz HTTP/1.1\r\n"), Page::Health);
    assert_eq!(http::route("GET / HTTP/1.1\r\n"), Page::Missing);
    assert_eq!(http::route(""), Page::Missing);
    assert!(http::ends_head("") && http::ends_head("\n") && http::ends_head("\r\n"));
    assert!(!http::ends_head("Host: x\r\n"));
}

#[test]
fn responses_are_exact() {
    assert_eq!(
        http::respond(Page::Metrics, "a\u{e9}\n"),
        "HTTP/1.1 200 OK\r\nContent-Type: text/plain; version=0.0.4\r\nContent-Length: 4\r\n\
         Connection: close\r\n\r\na\u{e9}\n"
    );
    assert_eq!(
        http::respond(Page::Health, "unused"),
        "HTTP/1.1 200 OK\r\nContent-Type: text/plain\r\nContent-Length: 3\r\n\
         Connection: close\r\n\r\nok\n"
    );
    assert_eq!(
        http::respond(Page::Missing, "unused"),
        "HTTP/1.1 404 Not Found\r\nContent-Type: text/plain\r\nContent-Length: 10\r\n\
         Connection: close\r\n\r\nnot found\n"
    );
}

#[test]
fn sinks_are_named() {
    assert!(matches!(JsonSink::from_target(" "), JsonSink::Off));
    assert!(matches!(JsonSink::from_target("off"), JsonSink::Off));
    assert!(matches!(JsonSink::from_target("none"), JsonSink::Off));
    assert!(matches!(JsonSink::from_target("stdout "), JsonSink::Stdout));
    assert!(matches!(JsonSink::from_target("stderr"), JsonSink::Stderr));
    match JsonSink::from_target(" /var/log/e.json ") {
        JsonSink::File(path) => assert_eq!(path, "/var/log/e.json"),
        other => panic!("not a file: {other:?}"),
    }
    let line = JsonSink::Stdout.line(&sample_event()).expect("a line");
    assert_eq!(line, format!("{}\n", sample_event().to_json()));
    assert!(JsonSink::Off.line(&sample_event()).is_none());
}
