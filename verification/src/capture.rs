//! The pluggable capture layer.
//!
//! Every backend implements [`CaptureSource`] and yields normalized [`PacketMeta`] records,
//! giving the detection engine identical input whether packets come from a pcap file, a
//! live `tcpdump`/`tshark` process, native eBPF, or Windows ETW. This is the "parity"
//! contract: add a backend, get all detectors for free.

use vstd::prelude::*;

use crate::config::{Backend, CaptureConfig, CaptureView};
use crate::error::{Error, Failure};
use crate::text;
use crate::types::PacketMeta;

verus! {

/// A pull-based source of normalized packets. `next_packet` returns `Ok(None)` at end of
/// stream (file replay / synthetic) and blocks for live sources.
pub trait CaptureSource: Send {
    /// Stable identifier for logs/metrics (e.g. `"pcap_file"`, `"live:tcpdump"`).
    fn name(&self) -> &str;

    /// Next packet, `Ok(None)` at clean end of stream.
    fn next_packet(&mut self) -> Result<Option<PacketMeta>, Error>;
}

/// What the agent runs on and was built with.
#[derive(Clone, Copy, Debug)]
pub struct Platform {
    /// The operating system is Windows.
    pub windows: bool,
    /// The native eBPF backend is built in.
    pub ebpf: bool,
    /// The native ETW backend is built in.
    pub etw: bool,
}

/// What to open for a capture configuration.
#[derive(Clone, Debug)]
pub enum Opening {
    /// The synthetic script.
    Synthetic,
    /// A pcap file.
    PcapFile { name: String, path: String },
    /// A capture tool that writes a pcap stream to its standard output.
    Live { name: String, argv: Vec<String> },
    /// The eBPF program on an interface.
    Ebpf { name: String, iface: String },
}

/// An [`Opening`] with its texts.
pub ghost enum OpeningView {
    Synthetic,
    PcapFile { name: Seq<char>, path: Seq<char> },
    Live { name: Seq<char>, argv: Seq<Seq<char>> },
    Ebpf { name: Seq<char>, iface: Seq<char> },
}

impl View for Opening {
    type V = OpeningView;

    open spec fn view(&self) -> OpeningView {
        match *self {
            Opening::Synthetic => OpeningView::Synthetic,
            Opening::PcapFile { name, path } => OpeningView::PcapFile { name: name@, path: path@ },
            Opening::Live { name, argv } => OpeningView::Live {
                name: name@,
                argv: text::string_texts(argv@),
            },
            Opening::Ebpf { name, iface } => OpeningView::Ebpf { name: name@, iface: iface@ },
        }
    }
}

/// The default capture command:
///
///   Linux / macOS : `tcpdump -i <if> -w - -U -n -s 256 <filter>`
///   Windows       : `tshark  -i <if> -w - -F pcap -s 256 -f "<filter>"`
pub open spec fn default_argv(iface: Seq<char>, filter: Seq<char>, windows: bool) -> Seq<
    Seq<char>,
> {
    let on = if iface.len() == 0 {
        "any"@
    } else {
        iface
    };
    if windows {
        seq!["tshark"@, "-i"@, on, "-w"@, "-"@, "-F"@, "pcap"@, "-s"@, "256"@] + (if filter.len()
            == 0 {
            Seq::empty()
        } else {
            seq!["-f"@, filter]
        })
    } else {
        seq!["tcpdump"@, "-i"@, on, "-w"@, "-"@, "-U"@, "-n"@, "-s"@, "256"@] + text::words(filter)
    }
}

/// The capture command of a configuration: its own, or the default.
pub open spec fn live_argv(cfg: CaptureView, windows: bool) -> Seq<Seq<char>> {
    if text::trimmed(cfg.live_command).len() == 0 {
        default_argv(cfg.interface, cfg.filter, windows)
    } else {
        text::words(cfg.live_command)
    }
}

/// What a capture configuration opens on a platform.
pub open spec fn opening(cfg: CaptureView, platform: Platform) -> Result<OpeningView, Failure> {
    match cfg.backend {
        Backend::Synthetic => Ok(OpeningView::Synthetic),
        Backend::PcapFile => if text::trimmed(cfg.pcap_path).len() == 0 {
            Err(Failure::Config("pcap_file backend needs capture.pcap_path"@))
        } else {
            Ok(
                OpeningView::PcapFile {
                    name: "pcap_file:"@ + cfg.pcap_path,
                    path: cfg.pcap_path,
                },
            )
        },
        Backend::Live => {
            let argv = live_argv(cfg, platform.windows);
            if argv.len() == 0 {
                Err(Failure::Config("empty live_command"@))
            } else {
                Ok(OpeningView::Live { name: "live:"@ + argv[0], argv })
            }
        },
        Backend::Ebpf => if !platform.ebpf {
            Err(
                Failure::UnsupportedBackend(
                    "ebpf backend not built in; rebuild on Linux with `--features l4scope-agent/ebpf` (see docs/BUILD_NATIVE.md)"@,
                ),
            )
        } else {
            let iface = if text::trimmed(cfg.interface).len() == 0 {
                "eth0"@
            } else {
                cfg.interface
            };
            Ok(OpeningView::Ebpf { name: "ebpf:"@ + iface, iface })
        },
        Backend::Etw => if !platform.etw {
            Err(
                Failure::UnsupportedBackend(
                    "etw backend not built in; rebuild on Windows with `--features l4scope-agent/etw` (see docs/BUILD_NATIVE.md)"@,
                ),
            )
        } else {
            Err(
                Failure::UnsupportedBackend(
                    "etw backend requires a realtime ETW consumer (Microsoft-Windows-TCPIP) or pktmon session; use the `live` backend with tshark/pktmon until wired in."@,
                ),
            )
        },
    }
}

fn is_blank(s: &str) -> (r: bool)
    ensures
        r == (text::trimmed(s@).len() == 0),
{
    let chars = text::chars_of(s);
    text::trim(chars.as_slice()).len() == 0
}

/// The words of a text, as strings.
fn word_strings(s: &str) -> (v: Vec<String>)
    ensures
        text::string_texts(v@) == text::words(s@),
{
    let chars = text::chars_of(s);
    let words = text::split_whitespace(chars.as_slice());
    let mut v: Vec<String> = Vec::new();
    let mut i: usize = 0;
    while i < words.len()
        invariant
            i <= words@.len(),
            text::texts(words@) == text::words(s@),
            v@.len() == i,
            forall|j: int| 0 <= j < i ==> (#[trigger] v@[j])@ == text::words(s@)[j],
        decreases words@.len() - i,
    {
        assert(text::texts(words@)[i as int] == words@[i as int]@);
        v.push(text::string_of(words[i]));
        i = i + 1;
    }
    assert(text::string_texts(v@) =~= text::words(s@));
    v
}

/// Build the default argv.
pub fn default_command(iface: &str, filter: &str, windows: bool) -> (v: Vec<String>)
    ensures
        text::string_texts(v@) == default_argv(iface@, filter@, windows),
{
    let on = if iface.is_empty() {
        "any"
    } else {
        iface
    };
    let mut v: Vec<String> = Vec::new();
    if windows {
        v.push("tshark".to_owned());
        v.push("-i".to_owned());
        v.push(on.to_owned());
        v.push("-w".to_owned());
        v.push("-".to_owned());
        v.push("-F".to_owned());
        v.push("pcap".to_owned());
        v.push("-s".to_owned());
        v.push("256".to_owned());
        if !filter.is_empty() {
            v.push("-f".to_owned());
            v.push(filter.to_owned());
        }
        assert(text::string_texts(v@) =~= default_argv(iface@, filter@, windows));
    } else {
        v.push("tcpdump".to_owned());
        v.push("-i".to_owned());
        v.push(on.to_owned());
        v.push("-w".to_owned());
        v.push("-".to_owned());
        v.push("-U".to_owned());
        v.push("-n".to_owned());
        v.push("-s".to_owned());
        v.push("256".to_owned());
        // tcpdump takes the BPF filter as trailing expression tokens.
        let ghost head = v@;
        let mut tokens = word_strings(filter);
        let ghost tail = tokens@;
        v.append(&mut tokens);
        proof {
            assert(v@ =~= head + tail);
            assert(text::string_texts(v@) =~= text::string_texts(head) + text::string_texts(tail));
            assert(text::string_texts(head) =~= seq![
                "tcpdump"@,
                "-i"@,
                on@,
                "-w"@,
                "-"@,
                "-U"@,
                "-n"@,
                "-s"@,
                "256"@,
            ]);
        }
    }
    v
}

/// Decide what the configured capture backend opens. This is the single dispatch point that
/// maps configuration and platform to a concrete source.
pub fn open(cfg: &CaptureConfig, platform: Platform) -> (r: Result<Opening, Error>)
    ensures
        match r {
            Ok(o) => opening(cfg@, platform) == Ok::<OpeningView, Failure>(o@),
            Err(e) => opening(cfg@, platform) == Err::<OpeningView, Failure>(e@),
        },
{
    match cfg.backend {
        Backend::Synthetic => Ok(Opening::Synthetic),
        Backend::PcapFile => {
            if is_blank(cfg.pcap_path.as_str()) {
                return Err(
                    Error::Config("pcap_file backend needs capture.pcap_path".to_owned()),
                );
            }
            let mut name = "pcap_file:".to_owned();
            name.append(cfg.pcap_path.as_str());
            Ok(Opening::PcapFile { name, path: cfg.pcap_path.clone() })
        },
        Backend::Live => {
            let argv = if is_blank(cfg.live_command.as_str()) {
                default_command(cfg.interface.as_str(), cfg.filter.as_str(), platform.windows)
            } else {
                word_strings(cfg.live_command.as_str())
            };
            assert(text::string_texts(argv@) == live_argv(cfg@, platform.windows));
            assert(text::string_texts(argv@).len() == argv@.len());
            if argv.len() == 0 {
                return Err(Error::Config("empty live_command".to_owned()));
            }
            let mut name = "live:".to_owned();
            assert(text::string_texts(argv@)[0] == argv@[0]@);
            name.append(argv[0].as_str());
            Ok(Opening::Live { name, argv })
        },
        Backend::Ebpf => {
            if !platform.ebpf {
                return Err(
                    Error::UnsupportedBackend(
                        "ebpf backend not built in; rebuild on Linux with `--features l4scope-agent/ebpf` (see docs/BUILD_NATIVE.md)".to_owned(),
                    ),
                );
            }
            let iface = if is_blank(cfg.interface.as_str()) {
                "eth0".to_owned()
            } else {
                cfg.interface.clone()
            };
            let mut name = "ebpf:".to_owned();
            name.append(iface.as_str());
            Ok(Opening::Ebpf { name, iface })
        },
        Backend::Etw => {
            if !platform.etw {
                return Err(
                    Error::UnsupportedBackend(
                        "etw backend not built in; rebuild on Windows with `--features l4scope-agent/etw` (see docs/BUILD_NATIVE.md)".to_owned(),
                    ),
                );
            }
            Err(
                Error::UnsupportedBackend(
                    "etw backend requires a realtime ETW consumer (Microsoft-Windows-TCPIP) or pktmon session; use the `live` backend with tshark/pktmon until wired in.".to_owned(),
                ),
            )
        },
    }
}

} // verus!
