//! The agent's command line, how it overrides the configuration, and the attributes that
//! describe the agent in exported metrics.

use vstd::prelude::*;

use crate::attribution;
use crate::attribution::PodMatcher;
use crate::config;
use crate::config::{Backend, CaptureView, Config, ConfigView, ExportView, OtlpConfig, OtlpView};
use crate::otlp;
use crate::text;

verus! {

// ---------------------------------------------------------------------------
// Arguments
// ---------------------------------------------------------------------------

/// What the command line asks for.
#[derive(Clone, Debug)]
pub struct Args {
    pub config: Option<String>,
    pub backend: Option<String>,
    pub pcap: Option<String>,
    pub iface: Option<String>,
    pub live_cmd: Option<String>,
    pub json: Option<String>,
    pub no_metrics: bool,
    pub quiet: bool,
}

/// An [`Args`] with its texts.
pub ghost struct ArgsView {
    pub config: Option<Seq<char>>,
    pub backend: Option<Seq<char>>,
    pub pcap: Option<Seq<char>>,
    pub iface: Option<Seq<char>>,
    pub live_cmd: Option<Seq<char>>,
    pub json: Option<Seq<char>>,
    pub no_metrics: bool,
    pub quiet: bool,
}

/// The text of an optional string.
pub open spec fn text_in(s: Option<String>) -> Option<Seq<char>> {
    match s {
        Some(t) => Some(t@),
        None => None,
    }
}

impl View for Args {
    type V = ArgsView;

    open spec fn view(&self) -> ArgsView {
        ArgsView {
            config: text_in(self.config),
            backend: text_in(self.backend),
            pcap: text_in(self.pcap),
            iface: text_in(self.iface),
            live_cmd: text_in(self.live_cmd),
            json: text_in(self.json),
            no_metrics: self.no_metrics,
            quiet: self.quiet,
        }
    }
}

impl ArgsView {
    /// An empty command line.
    pub open spec fn none() -> ArgsView {
        ArgsView {
            config: None,
            backend: None,
            pcap: None,
            iface: None,
            live_cmd: None,
            json: None,
            no_metrics: false,
            quiet: false,
        }
    }

    /// The arguments with the value of an option that takes one.
    pub open spec fn with_value(self, option: Seq<char>, value: Seq<char>) -> ArgsView {
        if option == "--config"@ {
            ArgsView { config: Some(value), ..self }
        } else if option == "--backend"@ {
            ArgsView { backend: Some(value), ..self }
        } else if option == "--pcap"@ {
            ArgsView { pcap: Some(value), ..self }
        } else if option == "--iface"@ {
            ArgsView { iface: Some(value), ..self }
        } else if option == "--live-cmd"@ {
            ArgsView { live_cmd: Some(value), ..self }
        } else {
            ArgsView { json: Some(value), ..self }
        }
    }

    /// The arguments with a switch thrown; `None` for any other word.
    pub open spec fn with_switch(self, switch: Seq<char>) -> Option<ArgsView> {
        if switch == "--demo"@ {
            Some(ArgsView { backend: Some("synthetic"@), ..self })
        } else if switch == "--no-metrics"@ {
            Some(ArgsView { no_metrics: true, ..self })
        } else if switch == "--quiet"@ {
            Some(ArgsView { quiet: true, ..self })
        } else {
            None
        }
    }
}

/// The options that take a value.
pub open spec fn is_valued(word: Seq<char>) -> bool {
    word == "--config"@ || word == "--backend"@ || word == "--pcap"@ || word == "--iface"@ || word
        == "--live-cmd"@ || word == "--json"@
}

/// What a command line asks for.
#[derive(Clone, Debug)]
pub enum Request {
    /// The help text, and nothing else.
    Help,
    /// A run of the agent.
    Run(Args),
}

/// What a command line asks for, with its texts.
pub ghost enum RequestView {
    Help,
    Run(ArgsView),
}

impl View for Request {
    type V = RequestView;

    open spec fn view(&self) -> RequestView {
        match *self {
            Request::Help => RequestView::Help,
            Request::Run(a) => RequestView::Run(a@),
        }
    }
}

/// What the words from number `at` on ask for, after `a`, or what is wrong with them.
pub open spec fn request_from(a: ArgsView, words: Seq<Seq<char>>, at: nat) -> Result<
    RequestView,
    Seq<char>,
>
    decreases words.len() - at,
{
    if at >= words.len() {
        Ok(RequestView::Run(a))
    } else {
        let word = words[at as int];
        if word == "-h"@ || word == "--help"@ {
            Ok(RequestView::Help)
        } else if is_valued(word) {
            if at + 1 >= words.len() {
                Err(word + " needs a value"@)
            } else {
                request_from(a.with_value(word, words[at as int + 1]), words, at + 2)
            }
        } else {
            match a.with_switch(word) {
                Some(next) => request_from(next, words, at + 1),
                None => Err("unknown argument '"@ + word + "' (try --help)"@),
            }
        }
    }
}

/// Reads the words of the command line, without the program's name.
pub fn parse_args(words: &Vec<String>) -> (r: Result<Request, String>)
    ensures
        match r {
            Ok(q) => request_from(ArgsView::none(), text::string_texts(words@), 0) == Ok::<
                RequestView,
                Seq<char>,
            >(q@),
            Err(e) => request_from(ArgsView::none(), text::string_texts(words@), 0) == Err::<
                RequestView,
                Seq<char>,
            >(e@),
        },
{
    let ghost all = text::string_texts(words@);
    let len: usize = words.len();
    let mut a = Args {
        config: None,
        backend: None,
        pcap: None,
        iface: None,
        live_cmd: None,
        json: None,
        no_metrics: false,
        quiet: false,
    };
    let mut i: usize = 0;
    while i < len
        invariant
            all == text::string_texts(words@),
            len == words@.len(),
            i <= len,
            request_from(ArgsView::none(), all, 0) == request_from(a@, all, i as nat),
        decreases len - i,
    {
        assert(all[i as int] == words@[i as int]@);
        let chars = text::chars_of(words[i].as_str());
        let word = chars.as_slice();
        if text::text_is(word, "-h") || text::text_is(word, "--help") {
            return Ok(Request::Help);
        }
        if takes_value(word) {
            if i + 1 >= len {
                let mut s = words[i].clone();
                s.append(" needs a value");
                return Err(s);
            }
            assert(all[i + 1] == words@[i + 1]@);
            set_value(&mut a, word, words[i + 1].clone());
            i = i + 2;
        } else {
            if text::text_is(word, "--demo") {
                a.backend = Some("synthetic".to_owned());
            } else if text::text_is(word, "--no-metrics") {
                a.no_metrics = true;
            } else if text::text_is(word, "--quiet") {
                a.quiet = true;
            } else {
                let mut s = "unknown argument '".to_owned();
                s.append(words[i].as_str());
                s.append("' (try --help)");
                return Err(s);
            }
            i = i + 1;
        }
    }
    Ok(Request::Run(a))
}

fn takes_value(word: &[char]) -> (r: bool)
    ensures
        r == is_valued(word@),
{
    text::text_is(word, "--config") || text::text_is(word, "--backend") || text::text_is(
        word,
        "--pcap",
    ) || text::text_is(word, "--iface") || text::text_is(word, "--live-cmd") || text::text_is(
        word,
        "--json",
    )
}

fn set_value(a: &mut Args, option: &[char], value: String)
    ensures
        final(a)@ == old(a)@.with_value(option@, value@),
{
    if text::text_is(option, "--config") {
        a.config = Some(value);
    } else if text::text_is(option, "--backend") {
        a.backend = Some(value);
    } else if text::text_is(option, "--pcap") {
        a.pcap = Some(value);
    } else if text::text_is(option, "--iface") {
        a.iface = Some(value);
    } else if text::text_is(option, "--live-cmd") {
        a.live_cmd = Some(value);
    } else {
        a.json = Some(value);
    }
}

/// The help text.
pub fn help() -> (s: &'static str)
    ensures
        s@ == help_text(),
{
    "l4scope — cross-platform Layer-4 network health agent\n\nUSAGE:\n  l4scope [OPTIONS]\n\nOPTIONS:\n  --demo                 Run the built-in synthetic traffic (no privileges needed)\n  --pcap <FILE>          Replay a classic .pcap file\n  --backend <NAME>       pcap_file | synthetic | live | ebpf | etw\n  --iface <NAME>         Interface for live/ebpf/etw backends (eth0, en0, Ethernet)\n  --live-cmd \"<CMD>\"     Override the live capture command\n  --config <FILE>        Load a TOML config file\n  --json <TARGET>        Event sink: stdout | stderr | <path> | off\n  --no-metrics           Do not start the Prometheus endpoint\n  --quiet                Do not print events to stderr\n  -h, --help             Show this help\n"
}

/// The help text.
pub open spec fn help_text() -> Seq<char> {
    "l4scope — cross-platform Layer-4 network health agent\n\nUSAGE:\n  l4scope [OPTIONS]\n\nOPTIONS:\n  --demo                 Run the built-in synthetic traffic (no privileges needed)\n  --pcap <FILE>          Replay a classic .pcap file\n  --backend <NAME>       pcap_file | synthetic | live | ebpf | etw\n  --iface <NAME>         Interface for live/ebpf/etw backends (eth0, en0, Ethernet)\n  --live-cmd \"<CMD>\"     Override the live capture command\n  --config <FILE>        Load a TOML config file\n  --json <TARGET>        Event sink: stdout | stderr | <path> | off\n  --no-metrics           Do not start the Prometheus endpoint\n  --quiet                Do not print events to stderr\n  -h, --help             Show this help\n"@
}

// ---------------------------------------------------------------------------
// Layering
// ---------------------------------------------------------------------------

/// The configuration with the backend that the command line names.
pub open spec fn with_backend(c: ConfigView, name: Seq<char>) -> Result<ConfigView, Seq<char>> {
    match config::backend_value(name) {
        Ok(backend) => Ok(
            ConfigView { capture: CaptureView { backend, ..c.capture }, ..c },
        ),
        Err(_) => Err("unknown backend '"@ + name + "'"@),
    }
}

/// The configuration with the command line's overrides other than the backend.
pub open spec fn with_overrides(c: ConfigView, a: ArgsView) -> ConfigView {
    ConfigView {
        capture: CaptureView {
            backend: if a.pcap is Some {
                Backend::PcapFile
            } else {
                c.capture.backend
            },
            pcap_path: match a.pcap {
                Some(p) => p,
                None => c.capture.pcap_path,
            },
            interface: match a.iface {
                Some(i) => i,
                None => c.capture.interface,
            },
            live_command: match a.live_cmd {
                Some(l) => l,
                None => c.capture.live_command,
            },
            ..c.capture
        },
        export: ExportView {
            json_events: match a.json {
                Some(j) => j,
                None => c.export.json_events,
            },
            ..c.export
        },
        ..c
    }
}

/// The configuration with all of the command line's overrides. A capture file wins over
/// the backend.
pub open spec fn layered(c: ConfigView, a: ArgsView) -> Result<ConfigView, Seq<char>> {
    match a.backend {
        Some(name) => match with_backend(c, name) {
            Ok(next) => Ok(with_overrides(next, a)),
            Err(e) => Err(e),
        },
        None => Ok(with_overrides(c, a)),
    }
}

/// An empty command line leaves the configuration as it is.
pub proof fn law_no_arguments_no_overrides(c: ConfigView)
    ensures
        layered(c, ArgsView::none()) == Ok::<ConfigView, Seq<char>>(c),
{
}

/// The command line never changes thresholds or the metrics push.
pub proof fn law_overrides_keep_detection(c: ConfigView, a: ArgsView)
    ensures
        match layered(c, a) {
            Ok(next) => next.detect == c.detect && next.otlp == c.otlp,
            Err(_) => true,
        },
{
}

/// Sets the backend that the command line names.
pub fn apply_backend(cfg: &mut Config, name: &str) -> (r: Result<(), String>)
    ensures
        match r {
            Ok(_) => with_backend(old(cfg)@, name@) == Ok::<ConfigView, Seq<char>>(final(cfg)@),
            Err(e) => with_backend(old(cfg)@, name@) == Err::<ConfigView, Seq<char>>(e@)
                && final(cfg)@ == old(cfg)@,
        },
{
    let chars = text::chars_of(name);
    match Backend::parse(chars.as_slice()) {
        Ok(b) => {
            cfg.capture.backend = b;
            Ok(())
        },
        Err(_) => {
            let mut s = "unknown backend '".to_owned();
            s.append(name);
            s.append("'");
            Err(s)
        },
    }
}

/// Layers the command line over a configuration.
pub fn layer(cfg: &mut Config, args: &Args) -> (r: Result<(), String>)
    ensures
        match r {
            Ok(_) => layered(old(cfg)@, args@) == Ok::<ConfigView, Seq<char>>(final(cfg)@),
            Err(e) => layered(old(cfg)@, args@) == Err::<ConfigView, Seq<char>>(e@) && final(cfg)@
                == old(cfg)@,
        },
{
    if let Some(b) = &args.backend {
        match apply_backend(cfg, b.as_str()) {
            Ok(_) => {},
            Err(e) => {
                return Err(e);
            },
        }
    }
    if let Some(p) = &args.pcap {
        cfg.capture.backend = Backend::PcapFile;
        cfg.capture.pcap_path = p.clone();
    }
    if let Some(i) = &args.iface {
        cfg.capture.interface = i.clone();
    }
    if let Some(c) = &args.live_cmd {
        cfg.capture.live_command = c.clone();
    }
    if let Some(j) = &args.json {
        cfg.export.json_events = j.clone();
    }
    Ok(())
}

/// Whether metrics are served: the command line does not switch them off, and there is an
/// address to serve them on.
pub fn serves_metrics(args: &Args, cfg: &Config) -> (r: bool)
    ensures
        r == (!args@.no_metrics && text::trimmed(cfg@.export.prometheus_addr).len() > 0),
{
    let addr = text::chars_of(cfg.export.prometheus_addr.as_str());
    !args.no_metrics && text::trim(addr.as_slice()).len() > 0
}

/// The networks that tell pods apart, where pod attribution is on and networks are named.
pub fn pod_matcher(cfg: &OtlpConfig) -> (r: Option<PodMatcher>)
    ensures
        match r {
            Some(m) => cfg@.pod_attribution && text::trimmed(cfg@.pod_cidrs).len() > 0 && m.cidrs@
                == attribution::cidr_list(cfg@.pod_cidrs),
            None => !cfg@.pod_attribution || text::trimmed(cfg@.pod_cidrs).len() == 0,
        },
{
    let cidrs = text::chars_of(cfg.pod_cidrs.as_str());
    if cfg.pod_attribution && text::trim(cidrs.as_slice()).len() > 0 {
        Some(PodMatcher::new(cfg.pod_cidrs.as_str()))
    } else {
        None
    }
}

// ---------------------------------------------------------------------------
// Resource attributes
// ---------------------------------------------------------------------------

/// The pairs that the first `n` entries write as `key=value`, in order; entries without
/// `=` or without a key are skipped.
pub open spec fn kv_values(entries: Seq<Seq<char>>, n: nat) -> Seq<(Seq<char>, Seq<char>)>
    decreases n,
{
    if n == 0 {
        Seq::empty()
    } else {
        let before = kv_values(entries, (n - 1) as nat);
        match text::cut_first(entries[n - 1], '=') {
            Some((k, v)) => if text::trimmed(k).len() == 0 {
                before
            } else {
                before.push((text::trimmed(k), text::trimmed(v)))
            },
            None => before,
        }
    }
}

/// The pairs of a list `k=v,k=v`.
pub open spec fn kv_list(s: Seq<char>) -> Seq<(Seq<char>, Seq<char>)> {
    let entries = text::split_on(s, ',');
    kv_values(entries, entries.len())
}

/// The value of a variable among the environment's; the first counts.
pub open spec fn env_value(env: Seq<(Seq<char>, Seq<char>)>, name: Seq<char>) -> Option<Seq<char>>
    decreases env.len(),
{
    if env.len() == 0 {
        None
    } else if env[0].0 == name {
        Some(env[0].1)
    } else {
        env_value(env.skip(1), name)
    }
}

/// Well-known environment variables and the attributes they set.
pub open spec fn env_map() -> Seq<(Seq<char>, Seq<char>)> {
    seq![
        ("HOSTNAME"@, "host.name"@),
        ("K8S_NODE_NAME"@, "k8s.node.name"@),
        ("NODE_NAME"@, "k8s.node.name"@),
        ("K8S_CLUSTER_NAME"@, "k8s.cluster.name"@),
        ("CLOUD_PROVIDER"@, "cloud.provider"@),
        ("CLOUD_REGION"@, "cloud.region"@),
        ("CLOUD_ACCOUNT_ID"@, "cloud.account.id"@),
    ]
}

/// The attributes that the first `n` of the well-known variables set; those that are unset
/// or empty set none.
pub open spec fn env_attributes(env: Seq<(Seq<char>, Seq<char>)>, n: nat) -> Seq<
    (Seq<char>, Seq<char>),
>
    decreases n,
{
    if n == 0 {
        Seq::empty()
    } else {
        let before = env_attributes(env, (n - 1) as nat);
        let (name, key) = env_map()[n - 1];
        match env_value(env, name) {
            Some(val) => if val.len() == 0 {
                before
            } else {
                before.push((key, val))
            },
            None => before,
        }
    }
}

/// The resource attributes of a configuration and an environment.
pub open spec fn resource_attrs(cfg: OtlpView, env: Seq<(Seq<char>, Seq<char>)>) -> Seq<
    (Seq<char>, Seq<char>),
> {
    seq![("service.name"@, cfg.service_name)] + env_attributes(env, env_map().len()) + kv_list(
        cfg.resource_attributes,
    ) + (match env_value(env, "OTEL_RESOURCE_ATTRIBUTES"@) {
        Some(s) => kv_list(s),
        None => Seq::empty(),
    })
}

/// The value of a variable among the environment's.
fn lookup<'a>(env: &'a Vec<(String, String)>, name: &str) -> (r: Option<&'a String>)
    ensures
        match r {
            Some(s) => env_value(otlp::pair_texts(env@), name@) == Some(s@),
            None => env_value(otlp::pair_texts(env@), name@) is None,
        },
{
    let ghost all = otlp::pair_texts(env@);
    let mut i: usize = 0;
    assert(all.skip(0) =~= all);
    while i < env.len()
        invariant
            all == otlp::pair_texts(env@),
            i <= env@.len(),
            env_value(all, name@) == env_value(all.skip(i as int), name@),
        decreases env@.len() - i,
    {
        let (n, v) = &env[i];
        assert(all.skip(i as int)[0] == (n@, v@));
        assert(all.skip(i as int).skip(1) =~= all.skip(i + 1));
        let chars = text::chars_of(n.as_str());
        if text::text_is(chars.as_slice(), name) {
            return Some(v);
        }
        i = i + 1;
    }
    None
}

/// Appends the pairs of a list `k=v,k=v`.
pub fn push_kv_list(v: &mut Vec<(String, String)>, s: &str)
    ensures
        otlp::pair_texts(final(v)@) == otlp::pair_texts(old(v)@) + kv_list(s@),
{
    let chars = text::chars_of(s);
    let entries = text::split(chars.as_slice(), ',');
    let ghost all = text::split_on(s@, ',');
    let ghost before = otlp::pair_texts(v@);
    let mut i: usize = 0;
    assert(otlp::pair_texts(v@) =~= before + kv_values(all, 0));
    while i < entries.len()
        invariant
            i <= entries@.len(),
            text::texts(entries@) == all,
            otlp::pair_texts(v@) == before + kv_values(all, i as nat),
        decreases entries@.len() - i,
    {
        assert(text::texts(entries@)[i as int] == entries@[i as int]@);
        let ghost now = v@;
        if let Some((k, val)) = text::split_once(entries[i], '=') {
            let k = text::trim(k);
            if k.len() > 0 {
                v.push((text::string_of(k), text::string_of(text::trim(val))));
                proof {
                    assert(otlp::pair_texts(v@) =~= otlp::pair_texts(now).push(
                        (k@, text::trimmed(val@)),
                    ));
                    assert((before + kv_values(all, i as nat)).push((k@, text::trimmed(val@)))
                        =~= before + kv_values(all, i as nat).push((k@, text::trimmed(val@))));
                }
            }
        }
        i = i + 1;
    }
}

/// Appends the attribute that a well-known variable sets, if it is set.
fn push_env(v: &mut Vec<(String, String)>, env: &Vec<(String, String)>, name: &str, key: &str)
    ensures
        otlp::pair_texts(final(v)@) == (match env_value(otlp::pair_texts(env@), name@) {
            Some(val) => if val.len() == 0 {
                otlp::pair_texts(old(v)@)
            } else {
                otlp::pair_texts(old(v)@).push((key@, val))
            },
            None => otlp::pair_texts(old(v)@),
        }),
{
    if let Some(val) = lookup(env, name) {
        let chars = text::chars_of(val.as_str());
        if chars.len() > 0 {
            let ghost before = otlp::pair_texts(v@);
            v.push((key.to_owned(), val.clone()));
            assert(otlp::pair_texts(v@) =~= before.push((key@, val@)));
        }
    }
}

/// Assemble OTLP resource attributes from config + environment. Works on VMs (host/cloud)
/// and Kubernetes (node/cluster). The Collector's k8sattributes processor turns
/// per-datapoint `k8s.pod.ip` into pod/namespace/workload.
pub fn build_resource_attrs(cfg: &OtlpConfig, env: &Vec<(String, String)>) -> (v: Vec<
    (String, String),
>)
    ensures
        otlp::pair_texts(v@) == resource_attrs(cfg@, otlp::pair_texts(env@)),
{
    let ghost e = otlp::pair_texts(env@);
    let mut v: Vec<(String, String)> = Vec::new();
    v.push(("service.name".to_owned(), cfg.service_name.clone()));
    let ghost first = seq![("service.name"@, cfg.service_name@)];
    assert(otlp::pair_texts(v@) =~= first + env_attributes(e, 0));
    // Well-known env → resource attribute mappings (set via DaemonSet/systemd).
    push_env(&mut v, env, "HOSTNAME", "host.name");
    assert(otlp::pair_texts(v@) =~= first + env_attributes(e, 1));
    push_env(&mut v, env, "K8S_NODE_NAME", "k8s.node.name");
    assert(otlp::pair_texts(v@) =~= first + env_attributes(e, 2));
    push_env(&mut v, env, "NODE_NAME", "k8s.node.name");
    assert(otlp::pair_texts(v@) =~= first + env_attributes(e, 3));
    push_env(&mut v, env, "K8S_CLUSTER_NAME", "k8s.cluster.name");
    assert(otlp::pair_texts(v@) =~= first + env_attributes(e, 4));
    push_env(&mut v, env, "CLOUD_PROVIDER", "cloud.provider");
    assert(otlp::pair_texts(v@) =~= first + env_attributes(e, 5));
    push_env(&mut v, env, "CLOUD_REGION", "cloud.region");
    assert(otlp::pair_texts(v@) =~= first + env_attributes(e, 6));
    push_env(&mut v, env, "CLOUD_ACCOUNT_ID", "cloud.account.id");
    assert(otlp::pair_texts(v@) =~= first + env_attributes(e, 7));
    // Config-provided attributes (k=v,k=v).
    push_kv_list(&mut v, cfg.resource_attributes.as_str());
    // Standard OTEL env (k=v,k=v).
    if let Some(s) = lookup(env, "OTEL_RESOURCE_ATTRIBUTES") {
        push_kv_list(&mut v, s.as_str());
    } else {
        assert(otlp::pair_texts(v@) =~= resource_attrs(cfg@, e));
    }
    v
}

} // verus!
