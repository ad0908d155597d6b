//! Configuration model and a tiny, dependency-free TOML-subset parser.
//!
//! Supported syntax (enough for this agent):
//!   `# comment`
//!   `[section]`
//!   `key = value`   where value is: bare int, `true`/`false`, or "quoted string"
//!
//! Unknown keys are rejected so typos surface immediately (fail-fast config).

use vstd::prelude::*;
use vstd::slice::slice_subrange;

use crate::error::{Error, Failure};
use crate::number;
use crate::number::{Decimal, Threshold};
use crate::text;
use crate::window::MAX_SECS;

verus! {

/// Which capture backend to use.
#[derive(Clone, Copy, Debug, PartialEq, Eq, Structural)]
pub enum Backend {
    /// Replay a classic `.pcap` file (always available, all platforms).
    PcapFile,
    /// Deterministic synthetic traffic that exercises every detector (demo/CI).
    Synthetic,
    /// Live capture by spawning `tcpdump`/`tshark`/`pktmon` and parsing its pcap stream.
    /// Zero FFI; works wherever the tool is installed.
    Live,
    /// Native eBPF/CO-RE capture (Linux only).
    Ebpf,
    /// Native Windows ETW/pktmon capture.
    Etw,
}

/// Top-level agent configuration.
#[derive(Clone, Debug)]
pub struct Config {
    pub capture: CaptureConfig,
    pub detect: DetectConfig,
    pub export: ExportConfig,
    pub otlp: OtlpConfig,
}

/// Where packets come from.
#[derive(Clone, Debug)]
pub struct CaptureConfig {
    pub backend: Backend,
    /// Interface name for live/eBPF/ETW backends (e.g. `eth0`, `en0`, `Ethernet`).
    pub interface: String,
    /// BPF filter expression for the live backend.
    pub filter: String,
    /// Path for the pcap_file backend.
    pub pcap_path: String,
    /// Override the live capture command (else auto-selected per OS).
    pub live_command: String,
}

/// Detection thresholds.
#[derive(Clone, Debug)]
pub struct DetectConfig {
    /// Idle flows older than this (seconds) are garbage-collected.
    pub flow_ttl_secs: u64,
    /// Retransmit ratio (retransmits / data-segments) above which we warn.
    pub retransmit_ratio_warn: Decimal,
    /// Number of duplicate ACKs that signals fast-retransmit / loss.
    pub dup_ack_threshold: u32,
    /// RST events per second across the host above which we raise an RST storm.
    pub rst_storm_per_sec: Decimal,
    /// Concurrent half-open (SYN_SENT/SYN_RCVD) flows to one service above which we flag
    /// possible SYN backlog exhaustion / SYN flood.
    pub syn_backlog_threshold: u32,
    /// Handshake RTT (ms) above which we flag high latency.
    pub rtt_warn_ms: Decimal,
    /// Seconds a SYN may go unanswered before we call it a handshake timeout.
    pub handshake_timeout_secs: u64,
    /// New-flow rate (flows/sec) above which we flag connection churn.
    pub churn_per_sec: Decimal,
    /// Minimum seconds between repeated emissions of the same global event.
    pub alert_debounce_secs: u64,
}

/// A [`DetectConfig`] with the values of its numbers.
pub ghost struct DetectView {
    pub flow_ttl_secs: u64,
    pub retransmit_ratio_warn: Threshold,
    pub dup_ack_threshold: u32,
    pub rst_storm_per_sec: Threshold,
    pub syn_backlog_threshold: u32,
    pub rtt_warn_ms: Threshold,
    pub handshake_timeout_secs: u64,
    pub churn_per_sec: Threshold,
    pub alert_debounce_secs: u64,
}

impl DetectView {
    /// Every span of seconds can be counted in nanoseconds.
    pub open spec fn within_clock(self) -> bool {
        &&& self.flow_ttl_secs <= MAX_SECS
        &&& self.handshake_timeout_secs <= MAX_SECS
        &&& self.alert_debounce_secs <= MAX_SECS
    }
}

impl DetectConfig {
    /// Whether every span of seconds can be counted in nanoseconds.
    pub fn is_within_clock(&self) -> (r: bool)
        ensures
            r == self@.within_clock(),
    {
        self.flow_ttl_secs <= MAX_SECS && self.handshake_timeout_secs <= MAX_SECS
            && self.alert_debounce_secs <= MAX_SECS
    }
}

impl View for DetectConfig {
    type V = DetectView;

    open spec fn view(&self) -> DetectView {
        DetectView {
            flow_ttl_secs: self.flow_ttl_secs,
            retransmit_ratio_warn: self.retransmit_ratio_warn@,
            dup_ack_threshold: self.dup_ack_threshold,
            rst_storm_per_sec: self.rst_storm_per_sec@,
            syn_backlog_threshold: self.syn_backlog_threshold,
            rtt_warn_ms: self.rtt_warn_ms@,
            handshake_timeout_secs: self.handshake_timeout_secs,
            churn_per_sec: self.churn_per_sec@,
            alert_debounce_secs: self.alert_debounce_secs,
        }
    }
}

/// Where events and metrics go.
#[derive(Clone, Debug)]
pub struct ExportConfig {
    /// `host:port` to serve Prometheus `/metrics` and `/healthz`. Empty = off.
    pub prometheus_addr: String,
    /// Where to write NDJSON events: `stdout`, `stderr`, empty (off), or a path.
    pub json_events: String,
}

/// OpenTelemetry (OTLP/HTTP + JSON) metrics push. Consumable by any OTel Collector.
#[derive(Clone, Debug)]
pub struct OtlpConfig {
    /// Enable the OTLP push exporter.
    pub enabled: bool,
    /// Collector base endpoint, e.g. `http://localhost:4318` (a node-local
    /// Collector/agent). HTTP only from the agent; use a Collector for TLS/cloud.
    pub endpoint: String,
    /// Metrics path appended to `endpoint` (OTLP/HTTP default).
    pub path: String,
    /// Push interval in seconds.
    pub interval_secs: u64,
    /// Extra HTTP headers as `k=v,k=v` (e.g. auth for a gateway Collector).
    pub headers: String,
    /// Resource attributes as `k=v,k=v` (merged with env `OTEL_RESOURCE_ATTRIBUTES`).
    pub resource_attributes: String,
    /// `service.name` resource attribute.
    pub service_name: String,
    /// Emit pod-level series: attribute datapoints with `k8s.pod.ip` when a flow endpoint
    /// falls inside one of these CIDRs (comma-separated). Empty = off.
    pub pod_cidrs: String,
    /// Master switch for pod-level attribution (requires `pod_cidrs`).
    pub pod_attribution: bool,
}

// ---------------------------------------------------------------------------
// What a configuration says
// ---------------------------------------------------------------------------

/// A [`CaptureConfig`] with its texts.
pub ghost struct CaptureView {
    pub backend: Backend,
    pub interface: Seq<char>,
    pub filter: Seq<char>,
    pub pcap_path: Seq<char>,
    pub live_command: Seq<char>,
}

/// An [`ExportConfig`] with its texts.
pub ghost struct ExportView {
    pub prometheus_addr: Seq<char>,
    pub json_events: Seq<char>,
}

/// An [`OtlpConfig`] with its texts.
pub ghost struct OtlpView {
    pub enabled: bool,
    pub endpoint: Seq<char>,
    pub path: Seq<char>,
    pub interval_secs: u64,
    pub headers: Seq<char>,
    pub resource_attributes: Seq<char>,
    pub service_name: Seq<char>,
    pub pod_cidrs: Seq<char>,
    pub pod_attribution: bool,
}

/// A [`Config`] with its texts and numbers.
pub ghost struct ConfigView {
    pub capture: CaptureView,
    pub detect: DetectView,
    pub export: ExportView,
    pub otlp: OtlpView,
}

impl View for CaptureConfig {
    type V = CaptureView;

    open spec fn view(&self) -> CaptureView {
        CaptureView {
            backend: self.backend,
            interface: self.interface@,
            filter: self.filter@,
            pcap_path: self.pcap_path@,
            live_command: self.live_command@,
        }
    }
}

impl View for ExportConfig {
    type V = ExportView;

    open spec fn view(&self) -> ExportView {
        ExportView { prometheus_addr: self.prometheus_addr@, json_events: self.json_events@ }
    }
}

impl View for OtlpConfig {
    type V = OtlpView;

    open spec fn view(&self) -> OtlpView {
        OtlpView {
            enabled: self.enabled,
            endpoint: self.endpoint@,
            path: self.path@,
            interval_secs: self.interval_secs,
            headers: self.headers@,
            resource_attributes: self.resource_attributes@,
            service_name: self.service_name@,
            pod_cidrs: self.pod_cidrs@,
            pod_attribution: self.pod_attribution,
        }
    }
}

impl View for Config {
    type V = ConfigView;

    open spec fn view(&self) -> ConfigView {
        ConfigView {
            capture: self.capture@,
            detect: self.detect@,
            export: self.export@,
            otlp: self.otlp@,
        }
    }
}

/// The number `mantissa * 10^-places`.
pub open spec fn decimal(mantissa: nat, places: int) -> Threshold {
    Threshold::Finite { negative: false, mantissa, exponent: -places }
}

impl ConfigView {
    /// The configuration of an agent that is told nothing.
    pub open spec fn defaults() -> ConfigView {
        ConfigView {
            capture: CaptureView {
                backend: Backend::Synthetic,
                interface: Seq::empty(),
                filter: "tcp or udp"@,
                pcap_path: Seq::empty(),
                live_command: Seq::empty(),
            },
            detect: DetectView {
                flow_ttl_secs: 120,
                retransmit_ratio_warn: decimal(5, 2),
                dup_ack_threshold: 3,
                rst_storm_per_sec: decimal(20, 0),
                syn_backlog_threshold: 64,
                rtt_warn_ms: decimal(250, 0),
                handshake_timeout_secs: 3,
                churn_per_sec: decimal(200, 0),
                alert_debounce_secs: 10,
            },
            export: ExportView {
                prometheus_addr: "127.0.0.1:9560"@,
                json_events: "stdout"@,
            },
            otlp: OtlpView {
                enabled: false,
                endpoint: "http://localhost:4318"@,
                path: "/v1/metrics"@,
                interval_secs: 15,
                headers: Seq::empty(),
                resource_attributes: Seq::empty(),
                service_name: "l4scope"@,
                pod_cidrs: Seq::empty(),
                pod_attribution: false,
            },
        }
    }
}

impl Default for Config {
    fn default() -> (c: Config)
        ensures
            c@ == ConfigView::defaults(),
    {
        Config {
            capture: CaptureConfig {
                backend: Backend::Synthetic,
                interface: String::new(),
                filter: "tcp or udp".to_owned(),
                pcap_path: String::new(),
                live_command: String::new(),
            },
            detect: DetectConfig {
                flow_ttl_secs: 120,
                retransmit_ratio_warn: Decimal::scaled(5, 2),
                dup_ack_threshold: 3,
                rst_storm_per_sec: Decimal::scaled(20, 0),
                syn_backlog_threshold: 64,
                rtt_warn_ms: Decimal::scaled(250, 0),
                handshake_timeout_secs: 3,
                churn_per_sec: Decimal::scaled(200, 0),
                alert_debounce_secs: 10,
            },
            export: ExportConfig {
                prometheus_addr: "127.0.0.1:9560".to_owned(),
                json_events: "stdout".to_owned(),
            },
            otlp: OtlpConfig {
                enabled: false,
                endpoint: "http://localhost:4318".to_owned(),
                path: "/v1/metrics".to_owned(),
                interval_secs: 15,
                headers: String::new(),
                resource_attributes: String::new(),
                service_name: "l4scope".to_owned(),
                pod_cidrs: String::new(),
                pod_attribution: false,
            },
        }
    }
}

// ---------------------------------------------------------------------------
// What a line says
// ---------------------------------------------------------------------------

/// The line up to its comment.
pub open spec fn without_comment(s: Seq<char>) -> Seq<char> {
    s.take(text::first_at(s, '#'))
}

/// The value without white space around it and without the quotes, if it is quoted.
pub open spec fn unquoted(s: Seq<char>) -> Seq<char> {
    let v = text::trimmed(s);
    if v.len() >= 2 && v[0] == '"' && v.last() == '"' {
        v.subrange(1, v.len() - 1)
    } else {
        v
    }
}

/// A complaint about a value.
pub open spec fn complaint<T>(about: Seq<char>, v: Seq<char>) -> Result<T, Failure> {
    Err(Failure::Config(about + v + "'"@))
}

pub open spec fn backend_value(v: Seq<char>) -> Result<Backend, Failure> {
    if v == "pcap_file"@ || v == "pcap"@ {
        Ok(Backend::PcapFile)
    } else if v == "synthetic"@ || v == "demo"@ {
        Ok(Backend::Synthetic)
    } else if v == "live"@ || v == "tcpdump"@ {
        Ok(Backend::Live)
    } else if v == "ebpf"@ {
        Ok(Backend::Ebpf)
    } else if v == "etw"@ {
        Ok(Backend::Etw)
    } else {
        complaint("unknown backend '"@, v)
    }
}

pub open spec fn bool_value(v: Seq<char>) -> Result<bool, Failure> {
    if v == "true"@ {
        Ok(true)
    } else if v == "false"@ {
        Ok(false)
    } else {
        complaint("expected true/false, got '"@, v)
    }
}

pub open spec fn u64_value(v: Seq<char>) -> Result<u64, Failure> {
    match text::unsigned_value(v, u64::MAX as nat) {
        Some(n) => Ok(n as u64),
        None => complaint("expected integer, got '"@, v),
    }
}

pub open spec fn u32_value(v: Seq<char>) -> Result<u32, Failure> {
    match text::unsigned_value(v, u32::MAX as nat) {
        Some(n) => Ok(n as u32),
        None => complaint("expected integer, got '"@, v),
    }
}

pub open spec fn number_setting(v: Seq<char>) -> Result<Threshold, Failure> {
    match number::number_value(v) {
        Some(t) => Ok(t),
        None => complaint("expected number, got '"@, v),
    }
}

pub open spec fn unknown_key<T>(section: Seq<char>, key: Seq<char>) -> Result<T, Failure> {
    Err(Failure::Config("unknown key '["@ + section + "] "@ + key + "'"@))
}

/// The `[capture]` section with one key set.
pub open spec fn capture_with(c: CaptureView, key: Seq<char>, val: Seq<char>) -> Result<
    CaptureView,
    Failure,
> {
    if key == "backend"@ {
        match backend_value(unquoted(val)) {
            Ok(b) => Ok(CaptureView { backend: b, ..c }),
            Err(e) => Err(e),
        }
    } else if key == "interface"@ {
        Ok(CaptureView { interface: unquoted(val), ..c })
    } else if key == "filter"@ {
        Ok(CaptureView { filter: unquoted(val), ..c })
    } else if key == "pcap_path"@ {
        Ok(CaptureView { pcap_path: unquoted(val), ..c })
    } else if key == "live_command"@ {
        Ok(CaptureView { live_command: unquoted(val), ..c })
    } else {
        unknown_key("capture"@, key)
    }
}

/// The `[detect]` section with one key set.
pub open spec fn detect_with(c: DetectView, key: Seq<char>, val: Seq<char>) -> Result<
    DetectView,
    Failure,
> {
    if key == "flow_ttl_secs"@ {
        match u64_value(val) {
            Ok(n) => Ok(DetectView { flow_ttl_secs: n, ..c }),
            Err(e) => Err(e),
        }
    } else if key == "retransmit_ratio_warn"@ {
        match number_setting(val) {
            Ok(n) => Ok(DetectView { retransmit_ratio_warn: n, ..c }),
            Err(e) => Err(e),
        }
    } else if key == "dup_ack_threshold"@ {
        match u32_value(val) {
            Ok(n) => Ok(DetectView { dup_ack_threshold: n, ..c }),
            Err(e) => Err(e),
        }
    } else if key == "rst_storm_per_sec"@ {
        match number_setting(val) {
            Ok(n) => Ok(DetectView { rst_storm_per_sec: n, ..c }),
            Err(e) => Err(e),
        }
    } else if key == "syn_backlog_threshold"@ {
        match u32_value(val) {
            Ok(n) => Ok(DetectView { syn_backlog_threshold: n, ..c }),
            Err(e) => Err(e),
        }
    } else if key == "rtt_warn_ms"@ {
        match number_setting(val) {
            Ok(n) => Ok(DetectView { rtt_warn_ms: n, ..c }),
            Err(e) => Err(e),
        }
    } else if key == "handshake_timeout_secs"@ {
        match u64_value(val) {
            Ok(n) => Ok(DetectView { handshake_timeout_secs: n, ..c }),
            Err(e) => Err(e),
        }
    } else if key == "churn_per_sec"@ {
        match number_setting(val) {
            Ok(n) => Ok(DetectView { churn_per_sec: n, ..c }),
            Err(e) => Err(e),
        }
    } else if key == "alert_debounce_secs"@ {
        match u64_value(val) {
            Ok(n) => Ok(DetectView { alert_debounce_secs: n, ..c }),
            Err(e) => Err(e),
        }
    } else {
        unknown_key("detect"@, key)
    }
}

/// The `[export]` section with one key set.
pub open spec fn export_with(c: ExportView, key: Seq<char>, val: Seq<char>) -> Result<
    ExportView,
    Failure,
> {
    if key == "prometheus_addr"@ {
        Ok(ExportView { prometheus_addr: unquoted(val), ..c })
    } else if key == "json_events"@ {
        Ok(ExportView { json_events: unquoted(val), ..c })
    } else {
        unknown_key("export"@, key)
    }
}

/// The `[otlp]` section with one key set.
pub open spec fn otlp_with(c: OtlpView, key: Seq<char>, val: Seq<char>) -> Result<
    OtlpView,
    Failure,
> {
    if key == "enabled"@ {
        match bool_value(unquoted(val)) {
            Ok(b) => Ok(OtlpView { enabled: b, ..c }),
            Err(e) => Err(e),
        }
    } else if key == "endpoint"@ {
        Ok(OtlpView { endpoint: unquoted(val), ..c })
    } else if key == "path"@ {
        Ok(OtlpView { path: unquoted(val), ..c })
    } else if key == "interval_secs"@ {
        match u64_value(val) {
            Ok(n) => Ok(OtlpView { interval_secs: n, ..c }),
            Err(e) => Err(e),
        }
    } else if key == "headers"@ {
        Ok(OtlpView { headers: unquoted(val), ..c })
    } else if key == "resource_attributes"@ {
        Ok(OtlpView { resource_attributes: unquoted(val), ..c })
    } else if key == "service_name"@ {
        Ok(OtlpView { service_name: unquoted(val), ..c })
    } else if key == "pod_cidrs"@ {
        Ok(OtlpView { pod_cidrs: unquoted(val), ..c })
    } else if key == "pod_attribution"@ {
        match bool_value(unquoted(val)) {
            Ok(b) => Ok(OtlpView { pod_attribution: b, ..c }),
            Err(e) => Err(e),
        }
    } else {
        unknown_key("otlp"@, key)
    }
}

/// The configuration with one key of one section set.
pub open spec fn config_with(
    c: ConfigView,
    section: Seq<char>,
    key: Seq<char>,
    val: Seq<char>,
) -> Result<ConfigView, Failure> {
    if section == "capture"@ {
        match capture_with(c.capture, key, val) {
            Ok(capture) => Ok(ConfigView { capture, ..c }),
            Err(e) => Err(e),
        }
    } else if section == "detect"@ {
        match detect_with(c.detect, key, val) {
            Ok(detect) => Ok(ConfigView { detect, ..c }),
            Err(e) => Err(e),
        }
    } else if section == "export"@ {
        match export_with(c.export, key, val) {
            Ok(export) => Ok(ConfigView { export, ..c }),
            Err(e) => Err(e),
        }
    } else if section == "otlp"@ {
        match otlp_with(c.otlp, key, val) {
            Ok(otlp) => Ok(ConfigView { otlp, ..c }),
            Err(e) => Err(e),
        }
    } else {
        unknown_key(section, key)
    }
}

/// What a line means.
pub ghost enum Line {
    Blank,
    Section(Seq<char>),
    Setting(Seq<char>, Seq<char>),
    Malformed,
}

pub open spec fn line_meaning(raw: Seq<char>) -> Line {
    let line = text::trimmed(without_comment(raw));
    if line.len() == 0 {
        Line::Blank
    } else if line.len() >= 2 && line[0] == '[' && line.last() == ']' {
        Line::Section(text::trimmed(line.subrange(1, line.len() - 1)))
    } else {
        match text::cut_first(line, '=') {
            Some((k, v)) => Line::Setting(text::trimmed(k), text::trimmed(v)),
            None => Line::Malformed,
        }
    }
}

/// A failure on the line with the given number.
pub open spec fn on_line(n: nat, what: Seq<char>) -> Failure {
    Failure::Config("line "@ + text::dec_text(n) + ": "@ + what)
}

/// The configuration after the lines from number `at` (from zero) on.
pub open spec fn config_from(
    c: ConfigView,
    section: Seq<char>,
    lines: Seq<Seq<char>>,
    at: nat,
) -> Result<ConfigView, Failure>
    decreases lines.len() - at,
{
    if at >= lines.len() {
        Ok(c)
    } else {
        match line_meaning(lines[at as int]) {
            Line::Blank => config_from(c, section, lines, at + 1),
            Line::Section(name) => config_from(c, name, lines, at + 1),
            Line::Setting(key, val) => match config_with(c, section, key, val) {
                Ok(next) => config_from(next, section, lines, at + 1),
                Err(e) => Err(on_line(at + 1, e.text())),
            },
            Line::Malformed => Err(on_line(at + 1, "expected key = value"@)),
        }
    }
}

/// The configuration that a text describes, layered over the defaults.
pub open spec fn config_value(s: Seq<char>) -> Result<ConfigView, Failure> {
    config_from(ConfigView::defaults(), Seq::empty(), text::split_on(s, '\n'), 0)
}

// ---------------------------------------------------------------------------
// Laws
// ---------------------------------------------------------------------------

/// The keys that the sections have.
pub open spec fn is_known(section: Seq<char>, key: Seq<char>) -> bool {
    ||| section == "capture"@ && (key == "backend"@ || key == "interface"@ || key == "filter"@
        || key == "pcap_path"@ || key == "live_command"@)
    ||| section == "detect"@ && (key == "flow_ttl_secs"@ || key == "retransmit_ratio_warn"@ || key
        == "dup_ack_threshold"@ || key == "rst_storm_per_sec"@ || key == "syn_backlog_threshold"@
        || key == "rtt_warn_ms"@ || key == "handshake_timeout_secs"@ || key == "churn_per_sec"@
        || key == "alert_debounce_secs"@)
    ||| section == "export"@ && (key == "prometheus_addr"@ || key == "json_events"@)
    ||| section == "otlp"@ && (key == "enabled"@ || key == "endpoint"@ || key == "path"@ || key
        == "interval_secs"@ || key == "headers"@ || key == "resource_attributes"@ || key
        == "service_name"@ || key == "pod_cidrs"@ || key == "pod_attribution"@)
}

/// Unknown keys are rejected, whatever their value.
pub proof fn law_unknown_keys_are_rejected(
    c: ConfigView,
    section: Seq<char>,
    key: Seq<char>,
    val: Seq<char>,
)
    requires
        !is_known(section, key),
    ensures
        config_with(c, section, key, val) == unknown_key::<ConfigView>(section, key),
{
}

/// A text that holds an unknown key is rejected as a whole.
pub proof fn law_text_with_unknown_key_is_rejected(
    c: ConfigView,
    section: Seq<char>,
    lines: Seq<Seq<char>>,
    at: nat,
    bad: nat,
)
    requires
        at <= bad < lines.len(),
        match line_meaning(lines[bad as int]) {
            Line::Setting(key, _) => forall|s: Seq<char>| !is_known(s, key),
            _ => false,
        },
    ensures
        config_from(c, section, lines, at) is Err,
    decreases bad - at,
{
    match line_meaning(lines[at as int]) {
        Line::Blank => {
            law_text_with_unknown_key_is_rejected(c, section, lines, at + 1, bad);
        },
        Line::Section(name) => {
            law_text_with_unknown_key_is_rejected(c, name, lines, at + 1, bad);
        },
        Line::Setting(key, val) => {
            if at < bad {
                match config_with(c, section, key, val) {
                    Ok(next) => {
                        law_text_with_unknown_key_is_rejected(next, section, lines, at + 1, bad);
                    },
                    Err(_) => {},
                }
            } else {
                law_unknown_keys_are_rejected(c, section, key, val);
            }
        },
        Line::Malformed => {},
    }
}

/// Blank lines, comments and section headers change no setting.
pub proof fn law_lines_without_settings_change_nothing(
    c: ConfigView,
    section: Seq<char>,
    lines: Seq<Seq<char>>,
    at: nat,
)
    requires
        forall|i: int|
            at <= i < lines.len() ==> line_meaning(#[trigger] lines[i]) is Blank || line_meaning(
                lines[i],
            ) is Section,
    ensures
        config_from(c, section, lines, at) == Ok::<ConfigView, Failure>(c),
    decreases lines.len() - at,
{
    if at < lines.len() {
        match line_meaning(lines[at as int]) {
            Line::Section(name) => {
                law_lines_without_settings_change_nothing(c, name, lines, at + 1);
            },
            _ => {
                law_lines_without_settings_change_nothing(c, section, lines, at + 1);
            },
        }
    }
}

/// Setting a key of one section leaves the others as they were.
pub proof fn law_setting_stays_in_its_section(
    c: ConfigView,
    section: Seq<char>,
    key: Seq<char>,
    val: Seq<char>,
)
    ensures
        match config_with(c, section, key, val) {
            Ok(next) => {
                &&& section != "capture"@ ==> next.capture == c.capture
                &&& section != "detect"@ ==> next.detect == c.detect
                &&& section != "export"@ ==> next.export == c.export
                &&& section != "otlp"@ ==> next.otlp == c.otlp
            },
            Err(_) => true,
        },
{
}

/// The default spans of time can all be counted in nanoseconds.
pub proof fn law_defaults_within_clock()
    ensures
        ConfigView::defaults().detect.within_clock(),
{
}

// ---------------------------------------------------------------------------
// Parsing
// ---------------------------------------------------------------------------

/// The error of a complaint about a value.
fn complain(about: &str, v: &[char]) -> (e: Error)
    ensures
        e@ == Failure::Config(about@ + v@ + "'"@),
{
    let mut s = about.to_owned();
    s.append(text::string_of(v).as_str());
    s.append("'");
    Error::Config(s)
}

fn reject_key(section: &[char], key: &[char]) -> (e: Error)
    ensures
        e@ == Failure::Config("unknown key '["@ + section@ + "] "@ + key@ + "'"@),
{
    let mut s = "unknown key '[".to_owned();
    s.append(text::string_of(section).as_str());
    s.append("] ");
    s.append(text::string_of(key).as_str());
    s.append("'");
    Error::Config(s)
}

impl Backend {
    /// The backend that a configuration names.
    pub fn parse(s: &[char]) -> (r: Result<Backend, Error>)
        ensures
            match r {
                Ok(b) => backend_value(s@) == Ok::<Backend, Failure>(b),
                Err(e) => backend_value(s@) == Err::<Backend, Failure>(e@),
            },
    {
        if text::text_is(s, "pcap_file") || text::text_is(s, "pcap") {
            Ok(Backend::PcapFile)
        } else if text::text_is(s, "synthetic") || text::text_is(s, "demo") {
            Ok(Backend::Synthetic)
        } else if text::text_is(s, "live") || text::text_is(s, "tcpdump") {
            Ok(Backend::Live)
        } else if text::text_is(s, "ebpf") {
            Ok(Backend::Ebpf)
        } else if text::text_is(s, "etw") {
            Ok(Backend::Etw)
        } else {
            Err(complain("unknown backend '", s))
        }
    }
}

/// The line up to its comment. A `#` starts a comment wherever it stands.
pub fn strip_comment<'a>(line: &'a [char]) -> (r: &'a [char])
    ensures
        r@ == without_comment(line@),
{
    let i: usize = text::find(line, '#');
    let r = slice_subrange(line, 0, i);
    assert(r@ =~= line@.take(i as int));
    r
}

/// The value without white space around it and without the quotes, if it is quoted.
pub fn unquote<'a>(v: &'a [char]) -> (r: &'a [char])
    ensures
        r@ == unquoted(v@),
{
    let v = text::trim(v);
    if v.len() >= 2 && v[0] == '"' && v[v.len() - 1] == '"' {
        slice_subrange(v, 1, v.len() - 1)
    } else {
        v
    }
}

pub fn parse_bool(v: &[char]) -> (r: Result<bool, Error>)
    ensures
        match r {
            Ok(b) => bool_value(v@) == Ok::<bool, Failure>(b),
            Err(e) => bool_value(v@) == Err::<bool, Failure>(e@),
        },
{
    if text::text_is(v, "true") {
        Ok(true)
    } else if text::text_is(v, "false") {
        Ok(false)
    } else {
        Err(complain("expected true/false, got '", v))
    }
}

pub fn parse_u64(v: &[char]) -> (r: Result<u64, Error>)
    ensures
        match r {
            Ok(n) => u64_value(v@) == Ok::<u64, Failure>(n),
            Err(e) => u64_value(v@) == Err::<u64, Failure>(e@),
        },
{
    match text::parse_unsigned(v, u64::MAX) {
        Some(n) => Ok(n),
        None => Err(complain("expected integer, got '", v)),
    }
}

pub fn parse_u32(v: &[char]) -> (r: Result<u32, Error>)
    ensures
        match r {
            Ok(n) => u32_value(v@) == Ok::<u32, Failure>(n),
            Err(e) => u32_value(v@) == Err::<u32, Failure>(e@),
        },
{
    match text::parse_unsigned(v, u32::MAX as u64) {
        Some(n) => Ok(n as u32),
        None => Err(complain("expected integer, got '", v)),
    }
}

/// Reads a number with a fraction or an exponent.
pub fn parse_number(v: &[char]) -> (r: Result<Decimal, Error>)
    ensures
        match r {
            Ok(n) => number_setting(v@) == Ok::<Threshold, Failure>(n@),
            Err(e) => number_setting(v@) == Err::<Threshold, Failure>(e@),
        },
{
    match Decimal::parse(v) {
        Some(d) => Ok(d),
        None => Err(complain("expected number, got '", v)),
    }
}

fn unquoted_string(v: &[char]) -> (s: String)
    ensures
        s@ == unquoted(v@),
{
    text::string_of(unquote(v))
}

fn apply_capture(c: &mut CaptureConfig, key: &[char], val: &[char]) -> (r: Result<(), Error>)
    ensures
        match r {
            Ok(_) => capture_with(old(c)@, key@, val@) == Ok::<CaptureView, Failure>(final(c)@),
            Err(e) => capture_with(old(c)@, key@, val@) == Err::<CaptureView, Failure>(e@) && final(c)@
                == old(c)@,
        },
{
    if text::text_is(key, "backend") {
        match Backend::parse(unquote(val)) {
            Ok(b) => {
                c.backend = b;
            },
            Err(e) => {
                return Err(e);
            },
        }
    } else if text::text_is(key, "interface") {
        c.interface = unquoted_string(val);
    } else if text::text_is(key, "filter") {
        c.filter = unquoted_string(val);
    } else if text::text_is(key, "pcap_path") {
        c.pcap_path = unquoted_string(val);
    } else if text::text_is(key, "live_command") {
        c.live_command = unquoted_string(val);
    } else {
        return Err(reject_key(text::chars_of("capture").as_slice(), key));
    }
    Ok(())
}

fn apply_detect(c: &mut DetectConfig, key: &[char], val: &[char]) -> (r: Result<(), Error>)
    ensures
        match r {
            Ok(_) => detect_with(old(c)@, key@, val@) == Ok::<DetectView, Failure>(final(c)@),
            Err(e) => detect_with(old(c)@, key@, val@) == Err::<DetectView, Failure>(e@) && final(c)@
                == old(c)@,
        },
{
    if text::text_is(key, "flow_ttl_secs") {
        match parse_u64(val) {
            Ok(n) => {
                c.flow_ttl_secs = n;
            },
            Err(e) => {
                return Err(e);
            },
        }
    } else if text::text_is(key, "retransmit_ratio_warn") {
        match parse_number(val) {
            Ok(n) => {
                c.retransmit_ratio_warn = n;
            },
            Err(e) => {
                return Err(e);
            },
        }
    } else if text::text_is(key, "dup_ack_threshold") {
        match parse_u32(val) {
            Ok(n) => {
                c.dup_ack_threshold = n;
            },
            Err(e) => {
                return Err(e);
            },
        }
    } else if text::text_is(key, "rst_storm_per_sec") {
        match parse_number(val) {
            Ok(n) => {
                c.rst_storm_per_sec = n;
            },
            Err(e) => {
                return Err(e);
            },
        }
    } else if text::text_is(key, "syn_backlog_threshold") {
        match parse_u32(val) {
            Ok(n) => {
                c.syn_backlog_threshold = n;
            },
            Err(e) => {
                return Err(e);
            },
        }
    } else if text::text_is(key, "rtt_warn_ms") {
        match parse_number(val) {
            Ok(n) => {
                c.rtt_warn_ms = n;
            },
            Err(e) => {
                return Err(e);
            },
        }
    } else if text::text_is(key, "handshake_timeout_secs") {
        match parse_u64(val) {
            Ok(n) => {
                c.handshake_timeout_secs = n;
            },
            Err(e) => {
                return Err(e);
            },
        }
    } else if text::text_is(key, "churn_per_sec") {
        match parse_number(val) {
            Ok(n) => {
                c.churn_per_sec = n;
            },
            Err(e) => {
                return Err(e);
            },
        }
    } else if text::text_is(key, "alert_debounce_secs") {
        match parse_u64(val) {
            Ok(n) => {
                c.alert_debounce_secs = n;
            },
            Err(e) => {
                return Err(e);
            },
        }
    } else {
        return Err(reject_key(text::chars_of("detect").as_slice(), key));
    }
    Ok(())
}

fn apply_export(c: &mut ExportConfig, key: &[char], val: &[char]) -> (r: Result<(), Error>)
    ensures
        match r {
            Ok(_) => export_with(old(c)@, key@, val@) == Ok::<ExportView, Failure>(final(c)@),
            Err(e) => export_with(old(c)@, key@, val@) == Err::<ExportView, Failure>(e@) && final(c)@
                == old(c)@,
        },
{
    if text::text_is(key, "prometheus_addr") {
        c.prometheus_addr = unquoted_string(val);
    } else if text::text_is(key, "json_events") {
        c.json_events = unquoted_string(val);
    } else {
        return Err(reject_key(text::chars_of("export").as_slice(), key));
    }
    Ok(())
}

fn apply_otlp(c: &mut OtlpConfig, key: &[char], val: &[char]) -> (r: Result<(), Error>)
    ensures
        match r {
            Ok(_) => otlp_with(old(c)@, key@, val@) == Ok::<OtlpView, Failure>(final(c)@),
            Err(e) => otlp_with(old(c)@, key@, val@) == Err::<OtlpView, Failure>(e@) && final(c)@
                == old(c)@,
        },
{
    if text::text_is(key, "enabled") {
        match parse_bool(unquote(val)) {
            Ok(b) => {
                c.enabled = b;
            },
            Err(e) => {
                return Err(e);
            },
        }
    } else if text::text_is(key, "endpoint") {
        c.endpoint = unquoted_string(val);
    } else if text::text_is(key, "path") {
        c.path = unquoted_string(val);
    } else if text::text_is(key, "interval_secs") {
        match parse_u64(val) {
            Ok(n) => {
                c.interval_secs = n;
            },
            Err(e) => {
                return Err(e);
            },
        }
    } else if text::text_is(key, "headers") {
        c.headers = unquoted_string(val);
    } else if text::text_is(key, "resource_attributes") {
        c.resource_attributes = unquoted_string(val);
    } else if text::text_is(key, "service_name") {
        c.service_name = unquoted_string(val);
    } else if text::text_is(key, "pod_cidrs") {
        c.pod_cidrs = unquoted_string(val);
    } else if text::text_is(key, "pod_attribution") {
        match parse_bool(unquote(val)) {
            Ok(b) => {
                c.pod_attribution = b;
            },
            Err(e) => {
                return Err(e);
            },
        }
    } else {
        return Err(reject_key(text::chars_of("otlp").as_slice(), key));
    }
    Ok(())
}

/// Sets one key of one section.
pub fn apply(cfg: &mut Config, section: &[char], key: &[char], val: &[char]) -> (r: Result<
    (),
    Error,
>)
    ensures
        match r {
            Ok(_) => config_with(old(cfg)@, section@, key@, val@) == Ok::<ConfigView, Failure>(
                final(cfg)@,
            ),
            Err(e) => config_with(old(cfg)@, section@, key@, val@) == Err::<ConfigView, Failure>(
                e@,
            ) && final(cfg)@ == old(cfg)@,
        },
{
    if text::text_is(section, "capture") {
        apply_capture(&mut cfg.capture, key, val)
    } else if text::text_is(section, "detect") {
        apply_detect(&mut cfg.detect, key, val)
    } else if text::text_is(section, "export") {
        apply_export(&mut cfg.export, key, val)
    } else if text::text_is(section, "otlp") {
        apply_otlp(&mut cfg.otlp, key, val)
    } else {
        Err(reject_key(section, key))
    }
}

/// An error on the line with the given number.
fn line_error(n: usize, what: &str) -> (e: Error)
    ensures
        e@ == on_line(n as nat, what@),
{
    let mut s = "line ".to_owned();
    s.append(text::decimal(n as u128).as_str());
    s.append(": ");
    s.append(what);
    Error::Config(s)
}

impl Config {
    /// Parse from an in-memory string, layering over defaults.
    pub fn from_str(text: &str) -> (r: Result<Config, Error>)
        ensures
            match r {
                Ok(c) => config_value(text@) == Ok::<ConfigView, Failure>(c@),
                Err(e) => config_value(text@) == Err::<ConfigView, Failure>(e@),
            },
    {
        let chars = text::chars_of(text);
        let lines = text::split(chars.as_slice(), '\n');
        let ghost all = text::split_on(text@, '\n');
        let mut cfg = Config::default();
        let mut section: &[char] = slice_subrange(chars.as_slice(), 0, 0);
        assert(section@ =~= Seq::empty());
        let mut i: usize = 0;
        while i < lines.len()
            invariant
                i <= lines@.len(),
                text::texts(lines@) == all,
                config_value(text@) == config_from(cfg@, section@, all, i as nat),
            decreases lines@.len() - i,
        {
            assert(text::texts(lines@)[i as int] == lines@[i as int]@);
            let line = text::trim(strip_comment(lines[i]));
            if line.len() == 0 {
                i = i + 1;
                continue;
            }
            if line.len() >= 2 && line[0] == '[' && line[line.len() - 1] == ']' {
                section = text::trim(slice_subrange(line, 1, line.len() - 1));
                i = i + 1;
                continue;
            }
            match text::split_once(line, '=') {
                Some((k, v)) => {
                    match apply(&mut cfg, section, text::trim(k), text::trim(v)) {
                        Ok(_) => {},
                        Err(e) => {
                            return Err(line_error(i + 1, e.to_text().as_str()));
                        },
                    }
                },
                None => {
                    return Err(line_error(i + 1, "expected key = value"));
                },
            }
            i = i + 1;
        }
        Ok(cfg)
    }
}

} // verus!
