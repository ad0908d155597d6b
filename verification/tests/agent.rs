use l4scope::attribution::PodMatcher;
use l4scope::capture::CaptureSource;
use l4scope::cli;
use l4scope::cli::{Args, Request};
use l4scope::config::{Backend, Config};
use l4scope::engine::Engine;
use l4scope::error::Error;
use l4scope::metrics::Registry;
use l4scope::otlp;
use l4scope::pipeline;
use l4scope::pipeline::Pipeline;
use l4scope::synthetic::SyntheticSource;
use l4scope::types::Severity;

fn words(v: &[&str]) -> Vec<String> {
    v.iter().map(|s| s.to_string()).collect()
}

fn run_args(v: &[&str]) -> Args {
    match cli::parse_args(&words(v)) {
        Ok(Request::Run(a)) => a,
        other => panic!("not a run: {other:?}"),
    }
}

fn complaint(v: &[&str]) -> String {
    match cli::parse_args(&words(v)) {
        Ok(_) => String::new(),
        Err(e) => e,
    }
}

#[test]
fn arguments_are_read() {
    let a = run_args(&[]);
    assert!(a.config.is_none() && a.backend.is_none() && !a.no_metrics && !a.quiet);
    let a = run_args(&[
        "--config", "c.toml", "--backend", "live", "--pcap", "f.pcap", "--iface", "--quiet",
        "--live-cmd", "x y", "--json", "off", "--no-metrics", "--quiet",
    ]);
    assert_eq!(a.config.as_deref(), Some("c.toml"));
    assert_eq!(a.backend.as_deref(), Some("live"));
    assert_eq!(a.pcap.as_deref(), Some("f.pcap"));
    assert_eq!(a.iface.as_deref(), Some("--quiet"));
    assert_eq!(a.live_cmd.as_deref(), Some("x y"));
    assert_eq!(a.json.as_deref(), Some("off"));
    assert!(a.no_metrics && a.quiet);
    assert_eq!(run_args(&["--backend", "live", "--demo"]).backend.as_deref(), Some("synthetic"));
}

#[test]
fn bad_arguments_are_named() {
    assert_eq!(complaint(&["--bogus"]), "unknown argument '--bogus' (try --help)");
    assert_eq!(complaint(&["--quiet", "--pcap"]), "--pcap needs a value");
    assert_eq!(complaint(&["--config"]), "--config needs a value");
    assert!(matches!(cli::parse_args(&words(&["--quiet", "-h", "--bogus"])), Ok(Request::Help)));
    assert!(matches!(cli::parse_args(&words(&["--help"])), Ok(Request::Help)));
    assert!(cli::help().contains("--live-cmd \"<CMD>\"     Override the live capture command\n"));
}

#[test]
fn arguments_override_the_configuration() {
    let mut cfg = Config::default();
    cli::layer(&mut cfg, &run_args(&[])).expect("nothing to object to");
    assert_eq!(cfg.capture.backend, Backend::Synthetic);
    cli::layer(
        &mut cfg,
        &run_args(&["--backend", "tcpdump", "--iface", "en0", "--live-cmd", "z", "--json", "off"]),
    )
    .expect("known backend");
    assert_eq!(cfg.capture.backend, Backend::Live);
    assert_eq!(cfg.capture.interface, "en0");
    assert_eq!(cfg.capture.live_command, "z");
    assert_eq!(cfg.export.json_events, "off");
    // A capture file wins over the backend.
    cli::layer(&mut cfg, &run_args(&["--pcap", "a.pcap", "--backend", "etw"])).expect("known");
    assert_eq!(cfg.capture.backend, Backend::PcapFile);
    assert_eq!(cfg.capture.pcap_path, "a.pcap");
    assert_eq!(
        cli::layer(&mut cfg, &run_args(&["--backend", "x"])),
        Err("unknown backend 'x'".to_string())
    );
    assert_eq!(cli::apply_backend(&mut cfg, "ebpf"), Ok(()));
    assert_eq!(cfg.capture.backend, Backend::Ebpf);
}

fn pairs(v: &[(&str, &str)]) -> Vec<(String, String)> {
    v.iter().map(|(k, x)| (k.to_string(), x.to_string())).collect()
}

#[test]
fn resource_attributes_are_assembled() {
    let mut cfg = Config::default().otlp;
    cfg.resource_attributes = "team = net , =x, junk,env=prod=1".to_string();
    let env = pairs(&[
        ("CLOUD_REGION", "eu"),
        ("HOSTNAME", ""),
        ("NODE_NAME", "n2"),
        ("K8S_NODE_NAME", "n1"),
        ("OTEL_RESOURCE_ATTRIBUTES", "a=b"),
        ("PATH", "/bin"),
    ]);
    assert_eq!(
        cli::build_resource_attrs(&cfg, &env),
        pairs(&[
            ("service.name", "l4scope"),
            ("k8s.node.name", "n1"),
            ("k8s.node.name", "n2"),
            ("cloud.region", "eu"),
            ("team", "net"),
            ("env", "prod=1"),
            ("a", "b"),
        ])
    );
    let mut v = pairs(&[("x", "y")]);
    cli::push_kv_list(&mut v, "");
    assert_eq!(v, pairs(&[("x", "y")]));
}

#[test]
fn small_decisions_of_a_run() {
    let args = run_args(&[]);
    let mut cfg = Config::default();
    assert!(cli::serves_metrics(&args, &cfg));
    assert!(!cli::serves_metrics(&run_args(&["--no-metrics"]), &cfg));
    cfg.export.prometheus_addr = " \t".to_string();
    assert!(!cli::serves_metrics(&args, &cfg));
    assert!(cli::pod_matcher(&cfg.otlp).is_none());
    cfg.otlp.pod_attribution = true;
    cfg.otlp.pod_cidrs = "  ".to_string();
    assert!(cli::pod_matcher(&cfg.otlp).is_none());
    cfg.otlp.pod_cidrs = "10.0.0.0/8".to_string();
    assert_eq!(cli::pod_matcher(&cfg.otlp).expect("named").cidrs.len(), 1);
    assert_eq!(otlp::push_interval(0), 1);
    assert_eq!(otlp::push_interval(15), 15);
    let packet = SyntheticSource::new().next_packet();
    assert_eq!(pipeline::exit_after(&packet), None);
    assert_eq!(pipeline::exit_after(&Ok(None)), Some(true));
    assert_eq!(pipeline::exit_after(&Err(Error::Io("gone".to_string()))), Some(false));
    assert!(format!("{cfg:?}").contains("dup_ack_threshold: 3"));
}

#[test]
fn pipeline_counts_a_whole_run() {
    let mut registry = Registry::new();
    let engine = Engine::new(Config::default().detect);
    let mut run = Pipeline::new(engine, Some(PodMatcher::new("10.0.2.0/24")));
    let mut src = SyntheticSource::new();
    let mut events = Vec::new();
    while let Some(p) = src.next_packet().unwrap() {
        assert!(run.has_room(&p, &registry));
        events.extend(run.ingest(&p, &mut registry));
    }
    assert_eq!(run.packets(), 400);
    // Nothing refreshed the gauges yet.
    assert_eq!(registry.snapshot().active_flows, 0);
    assert!(run.has_room_for_events(&registry));
    events.extend(run.finish(&mut registry));
    let snap = registry.snapshot();
    assert_eq!(snap.packets_total, 400);
    assert_eq!(snap.events_total, events.len() as u64);
    assert_eq!(snap.active_flows, 344);
    assert_eq!(snap.half_open_max, 1);
    // The 80 half-open clients are pods, one packet each.
    assert_eq!(snap.pod_packets.len(), 80);
    let timeouts = ("handshake_timeout", "warning", 80);
    assert!(snap.event_counts.contains(&timeouts), "{:?}", snap.event_counts);
    let lines = run.summary_lines();
    assert_eq!(lines.len(), 10);
    assert!(lines.contains(&"   handshake_timeout: 80".to_string()), "{lines:?}");
    assert!(lines.contains(&"           rst_storm: 1".to_string()), "{lines:?}");
    assert!(lines.contains(&"        out_of_order: 1".to_string()), "{lines:?}");
    assert!(lines.contains(&"    connection_churn: 1".to_string()), "{lines:?}");
}

#[test]
fn event_lines_are_tagged() {
    let mut registry = Registry::new();
    let mut run = Pipeline::new(Engine::new(Config::default().detect), None);
    let mut src = SyntheticSource::new();
    let mut events = Vec::new();
    while let Some(p) = src.next_packet().unwrap() {
        events.extend(run.ingest(&p, &mut registry));
    }
    assert!(registry.snapshot().pod_packets.is_empty());
    let storm = events.iter().find(|e| e.severity == Severity::Critical).expect("a storm");
    assert!(pipeline::event_line(storm).starts_with("[CRIT] rst_storm: RST storm: 20 resets/s"));
    let info = events.iter().find(|e| e.severity == Severity::Info).expect("a note");
    assert_eq!(
        pipeline::event_line(info),
        "[INFO] high_rtt: High handshake RTT on tcp 10.0.0.5:40001 <-> 10.0.0.9:443: 300 ms"
    );
    let warn = events.iter().find(|e| e.severity == Severity::Warning).expect("a warning");
    assert!(pipeline::event_line(warn).starts_with("[WARN] retransmission: "));
}
