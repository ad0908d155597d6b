//! Normalized, backend-independent data model.
//!
//! Every capture backend (pcap file, live capture tool, eBPF, ETW) emits
//! [`PacketMeta`]. The detection engine reads nothing else, so it behaves the same on
//! every platform and with every capture technology.

use vstd::prelude::*;

use crate::address::IpAddr;
use crate::json;
use crate::json::Object;
use crate::number;
use crate::number::Ratio;
use crate::text;

verus! {

/// Transport-layer protocol we track.
#[derive(Clone, Copy, Debug, PartialEq, Eq, Hash, Structural)]
pub enum Protocol {
    Tcp,
    Udp,
}

impl Protocol {
    /// The protocol's name in output.
    pub open spec fn label(self) -> Seq<char> {
        match self {
            Protocol::Tcp => "tcp"@,
            Protocol::Udp => "udp"@,
        }
    }

    /// The protocol's name in output.
    pub fn as_str(&self) -> (s: &'static str)
        ensures
            s@ == self.label(),
    {
        match self {
            Protocol::Tcp => "tcp",
            Protocol::Udp => "udp",
        }
    }
}

/// One endpoint of a flow.
#[derive(Clone, Copy, Debug, PartialEq, Eq, Hash, PartialOrd, Ord, Structural)]
pub struct Endpoint {
    pub ip: IpAddr,
    pub port: u16,
}

impl Endpoint {
    /// `self` orders before `other` or is the same: by address, then by port.
    pub open spec fn before_or_same(self, other: Endpoint) -> bool {
        if self.ip == other.ip {
            self.port <= other.port
        } else {
            self.ip.before_or_same(other.ip)
        }
    }

    /// The endpoint's text: address and port, an IPv6 address in brackets.
    pub open spec fn text(self) -> Seq<char> {
        match self.ip {
            IpAddr::V4(_) => self.ip.text() + ":"@ + text::dec_text(self.port as nat),
            IpAddr::V6(_) => "["@ + self.ip.text() + "]:"@ + text::dec_text(self.port as nat),
        }
    }

    /// The endpoint with the given address and port.
    pub fn new(ip: IpAddr, port: u16) -> (r: Endpoint)
        ensures
            r == (Endpoint { ip, port }),
    {
        Endpoint { ip, port }
    }

    /// Whether this endpoint orders before `other` or is the same.
    pub fn le(&self, other: &Endpoint) -> (r: bool)
        ensures
            r == self.before_or_same(*other),
    {
        if self.ip == other.ip {
            self.port <= other.port
        } else {
            self.ip.le(&other.ip)
        }
    }

    /// The endpoint's text.
    pub fn to_text(&self) -> (s: String)
        ensures
            s@ == self.text(),
    {
        match self.ip {
            IpAddr::V4(_) => {
                let mut s = self.ip.to_text();
                s.append(":");
                s.append(text::decimal(self.port as u128).as_str());
                s
            },
            IpAddr::V6(_) => {
                let mut s = "[".to_owned();
                s.append(self.ip.to_text().as_str());
                s.append("]:");
                s.append(text::decimal(self.port as u128).as_str());
                s
            },
        }
    }
}

/// Which side of the canonical flow a packet travelled on.
#[derive(Clone, Copy, Debug, PartialEq, Eq, Structural)]
pub enum Direction {
    /// From the canonical "low" endpoint to the "high" endpoint.
    Forward,
    /// From "high" back to "low".
    Reverse,
}

impl Direction {
    /// The direction's position in per-direction arrays.
    pub open spec fn slot(self) -> int {
        match self {
            Direction::Forward => 0,
            Direction::Reverse => 1,
        }
    }

    /// The direction's position in per-direction arrays.
    pub fn index(&self) -> (i: usize)
        ensures
            i == self.slot(),
            i < 2,
    {
        match self {
            Direction::Forward => 0,
            Direction::Reverse => 1,
        }
    }
}

/// Direction-independent flow identity. Both packets of a conversation map to the same
/// key, so the engine keeps a single state per conversation.
#[derive(Clone, Copy, Debug, PartialEq, Eq, Hash, Structural)]
pub struct FlowKey {
    pub low: Endpoint,
    pub high: Endpoint,
    pub proto: Protocol,
}

impl FlowKey {
    /// The canonical key of an observed pair, and the direction it travelled.
    pub open spec fn canonical_of(src: Endpoint, dst: Endpoint, proto: Protocol) -> (
        FlowKey,
        Direction,
    ) {
        if src.before_or_same(dst) {
            (FlowKey { low: src, high: dst, proto }, Direction::Forward)
        } else {
            (FlowKey { low: dst, high: src, proto }, Direction::Reverse)
        }
    }

    /// The flow's text.
    pub open spec fn text(self) -> Seq<char> {
        self.proto.label() + " "@ + self.low.text() + " <-> "@ + self.high.text()
    }

    /// Builds a canonical key from an observed (src, dst) pair and returns the direction
    /// the observed packet travelled.
    pub fn canonical(src: Endpoint, dst: Endpoint, proto: Protocol) -> (r: (FlowKey, Direction))
        ensures
            r == FlowKey::canonical_of(src, dst, proto),
    {
        if src.le(&dst) {
            (FlowKey { low: src, high: dst, proto }, Direction::Forward)
        } else {
            (FlowKey { low: dst, high: src, proto }, Direction::Reverse)
        }
    }

    /// The flow's text.
    pub fn to_text(&self) -> (s: String)
        ensures
            s@ == self.text(),
    {
        let mut s = self.proto.as_str().to_owned();
        s.append(" ");
        s.append(self.low.to_text().as_str());
        s.append(" <-> ");
        s.append(self.high.to_text().as_str());
        s
    }
}

/// Both directions of a conversation map to one key.
pub proof fn law_canonical_key_is_direction_independent(a: Endpoint, b: Endpoint, proto: Protocol)
    ensures
        FlowKey::canonical_of(a, b, proto).0 == FlowKey::canonical_of(b, a, proto).0,
{
}

/// The two directions of a conversation between different endpoints are told apart.
pub proof fn law_canonical_directions_differ(a: Endpoint, b: Endpoint, proto: Protocol)
    requires
        a != b,
    ensures
        FlowKey::canonical_of(a, b, proto).1 != FlowKey::canonical_of(b, a, proto).1,
{
}

/// A canonical key and its direction give back the observed source and destination.
pub proof fn law_canonical_keeps_endpoints(src: Endpoint, dst: Endpoint, proto: Protocol)
    ensures
        ({
            let (key, dir) = FlowKey::canonical_of(src, dst, proto);
            &&& key.proto == proto
            &&& key.low.before_or_same(key.high)
            &&& dir == Direction::Forward ==> key.low == src && key.high == dst
            &&& dir == Direction::Reverse ==> key.high == src && key.low == dst
        }),
{
}

/// TCP control flags, packed. Newtype over the raw flags byte.
#[derive(Clone, Copy, Debug, PartialEq, Eq, Default, Structural)]
pub struct TcpFlags(pub u8);

impl TcpFlags {
    pub const FIN: u8 = 0x01;

    pub const SYN: u8 = 0x02;

    pub const RST: u8 = 0x04;

    pub const PSH: u8 = 0x08;

    pub const ACK: u8 = 0x10;

    pub const URG: u8 = 0x20;

    /// One of the bits of `bit` is set.
    pub open spec fn holds(self, bit: u8) -> bool {
        self.0 & bit != 0
    }

    /// A connection request: SYN without ACK.
    pub open spec fn opens(self) -> bool {
        self.holds(TcpFlags::SYN) && !self.holds(TcpFlags::ACK)
    }

    /// A connection acceptance: SYN with ACK.
    pub open spec fn accepts(self) -> bool {
        self.holds(TcpFlags::SYN) && self.holds(TcpFlags::ACK)
    }

    pub fn has(&self, bit: u8) -> (r: bool)
        ensures
            r == self.holds(bit),
    {
        self.0 & bit != 0
    }

    pub fn syn(&self) -> (r: bool)
        ensures
            r == self.holds(TcpFlags::SYN),
    {
        self.has(Self::SYN)
    }

    pub fn ack(&self) -> (r: bool)
        ensures
            r == self.holds(TcpFlags::ACK),
    {
        self.has(Self::ACK)
    }

    pub fn fin(&self) -> (r: bool)
        ensures
            r == self.holds(TcpFlags::FIN),
    {
        self.has(Self::FIN)
    }

    pub fn rst(&self) -> (r: bool)
        ensures
            r == self.holds(TcpFlags::RST),
    {
        self.has(Self::RST)
    }

    pub fn psh(&self) -> (r: bool)
        ensures
            r == self.holds(TcpFlags::PSH),
    {
        self.has(Self::PSH)
    }

    /// True for a bare SYN (connection request, not SYN-ACK).
    pub fn is_syn_only(&self) -> (r: bool)
        ensures
            r == self.opens(),
    {
        self.syn() && !self.ack()
    }

    /// True for a SYN-ACK (connection acceptance).
    pub fn is_syn_ack(&self) -> (r: bool)
        ensures
            r == self.accepts(),
    {
        self.syn() && self.ack()
    }
}

/// A normalized packet record: the single unit of currency flowing from capture
/// backends into the detection engine.
#[derive(Clone, Copy, Debug, PartialEq, Eq, Structural)]
pub struct PacketMeta {
    /// Capture timestamp, nanoseconds since UNIX epoch.
    pub ts_nanos: u64,
    /// Canonical flow key.
    pub key: FlowKey,
    /// Direction this packet travelled relative to the canonical key.
    pub dir: Direction,
    pub proto: Protocol,
    /// TCP flags (zeroed for UDP).
    pub flags: TcpFlags,
    /// TCP sequence number (0 for UDP).
    pub seq: u32,
    /// TCP acknowledgement number (0 for UDP).
    pub ack: u32,
    /// Advertised receive window. Raw value; scaling is best-effort.
    pub window: u32,
    /// L4 payload length in bytes (excludes headers).
    pub payload_len: u32,
    /// IP TTL / hop-limit, useful for path-change and spoofing heuristics.
    pub ttl: u8,
    /// Capture interface identifier (backend-defined; 0 when unknown).
    pub iface: u32,
}

/// Anomaly categories the engine can report.
#[derive(Clone, Copy, Debug, PartialEq, Eq, Hash, Structural)]
pub enum EventKind {
    Retransmission,
    DuplicateAck,
    OutOfOrder,
    ZeroWindow,
    RstStorm,
    HandshakeFailure,
    HandshakeTimeout,
    SynBacklog,
    HighRtt,
    ConnectionChurn,
}

impl EventKind {
    /// The category's name in output.
    pub open spec fn label(self) -> Seq<char> {
        match self {
            EventKind::Retransmission => "retransmission"@,
            EventKind::DuplicateAck => "duplicate_ack"@,
            EventKind::OutOfOrder => "out_of_order"@,
            EventKind::ZeroWindow => "zero_window"@,
            EventKind::RstStorm => "rst_storm"@,
            EventKind::HandshakeFailure => "handshake_failure"@,
            EventKind::HandshakeTimeout => "handshake_timeout"@,
            EventKind::SynBacklog => "syn_backlog"@,
            EventKind::HighRtt => "high_rtt"@,
            EventKind::ConnectionChurn => "connection_churn"@,
        }
    }

    /// The category's name in output.
    pub fn as_str(&self) -> (s: &'static str)
        ensures
            s@ == self.label(),
    {
        match self {
            EventKind::Retransmission => "retransmission",
            EventKind::DuplicateAck => "duplicate_ack",
            EventKind::OutOfOrder => "out_of_order",
            EventKind::ZeroWindow => "zero_window",
            EventKind::RstStorm => "rst_storm",
            EventKind::HandshakeFailure => "handshake_failure",
            EventKind::HandshakeTimeout => "handshake_timeout",
            EventKind::SynBacklog => "syn_backlog",
            EventKind::HighRtt => "high_rtt",
            EventKind::ConnectionChurn => "connection_churn",
        }
    }
}

/// Severity ranking for events and alert routing.
#[derive(Clone, Copy, Debug, PartialEq, Eq, PartialOrd, Ord, Structural)]
pub enum Severity {
    Info,
    Warning,
    Critical,
}

impl Severity {
    /// The severity's name in output.
    pub open spec fn label(self) -> Seq<char> {
        match self {
            Severity::Info => "info"@,
            Severity::Warning => "warning"@,
            Severity::Critical => "critical"@,
        }
    }

    /// The severity's name in output.
    pub fn as_str(&self) -> (s: &'static str)
        ensures
            s@ == self.label(),
    {
        match self {
            Severity::Info => "info",
            Severity::Warning => "warning",
            Severity::Critical => "critical",
        }
    }
}

/// An emitted L4 health event.
#[derive(Clone, Debug)]
pub struct L4Event {
    pub ts_nanos: u64,
    pub kind: EventKind,
    pub severity: Severity,
    /// The flow this event concerns (may be a representative flow for global events
    /// like RST storms).
    pub key: FlowKey,
    /// The primary metric value that triggered the event (e.g. retransmit rate, RTT in
    /// ms, half-open count).
    pub value: Ratio,
    /// Human-readable one-line explanation.
    pub detail: String,
}

/// An [`L4Event`] with the text of its explanation.
pub ghost struct EventView {
    pub ts_nanos: u64,
    pub kind: EventKind,
    pub severity: Severity,
    pub key: FlowKey,
    pub value: Ratio,
    pub detail: Seq<char>,
}

impl View for L4Event {
    type V = EventView;

    open spec fn view(&self) -> EventView {
        EventView {
            ts_nanos: self.ts_nanos,
            kind: self.kind,
            severity: self.severity,
            key: self.key,
            value: self.value,
            detail: self.detail@,
        }
    }
}

impl EventView {
    /// The members of the event's JSON object.
    pub open spec fn members(self) -> Seq<(Seq<char>, Seq<char>)> {
        seq![
            ("ts_ns"@, text::dec_text(self.ts_nanos as nat)),
            ("kind"@, json::string_text(self.kind.label())),
            ("severity"@, json::string_text(self.severity.label())),
            ("proto"@, json::string_text(self.key.proto.label())),
            ("low"@, json::string_text(self.key.low.text())),
            ("high"@, json::string_text(self.key.high.text())),
            ("value"@, self.value.fixed_text(3)),
            ("detail"@, json::string_text(self.detail)),
        ]
    }

    /// The event as one line of JSON.
    pub open spec fn json(self) -> Seq<char> {
        json::object_text(self.members())
    }
}

/// Whatever its explanation says, an event's JSON is one object of strings and numbers,
/// which closes what it opens and has no raw control characters, so it stands on one line;
/// and its explanation reads back.
pub proof fn law_event_json_is_one_object(e: EventView)
    ensures
        e.json() == json::object_text(e.members()),
        forall|i: int| 0 <= i < e.members().len() ==> json::is_scalar((#[trigger] e.members()[i]).1),
        json::is_balanced(e.json()),
        forall|i: int| 0 <= i < e.json().len() ==> !json::is_control(#[trigger] e.json()[i]),
        e.members()[7] == ("detail"@, json::string_text(e.detail)),
        json::decoded(text::json_text(e.detail)) == Some(e.detail),
{
    reveal(Ratio::fixed_text);
    json::lemma_decimal_is_number(e.ts_nanos as nat);
    json::lemma_fixed_is_number(e.value.double().num(), e.value.double().den(), 3);
    json::law_escaped_text_reads_back(e.detail);
    json::lemma_decimal_is_balanced(e.ts_nanos as nat);
    json::lemma_string_is_balanced(e.kind.label());
    json::lemma_string_is_balanced(e.severity.label());
    json::lemma_string_is_balanced(e.key.proto.label());
    json::lemma_string_is_balanced(e.key.low.text());
    json::lemma_string_is_balanced(e.key.high.text());
    json::lemma_quotient_is_balanced(e.value.double().num(), e.value.double().den(), 3);
    json::lemma_string_is_balanced(e.detail);
    json::lemma_object_is_balanced(e.members());
    json::lemma_balanced_is_printable(e.json());
}

/// The events held by a sequence.
pub open spec fn event_views(v: Seq<L4Event>) -> Seq<EventView> {
    v.map_values(|e: L4Event| e@)
}

impl L4Event {
    /// An event with the given fields.
    pub fn new(
        ts_nanos: u64,
        kind: EventKind,
        severity: Severity,
        key: FlowKey,
        value: Ratio,
        detail: String,
    ) -> (e: L4Event)
        ensures
            e == (L4Event { ts_nanos, kind, severity, key, value, detail }),
    {
        L4Event { ts_nanos, kind, severity, key, value, detail }
    }

    /// Renders the event as a single NDJSON line.
    pub fn to_json(&self) -> (s: String)
        ensures
            s@ == self@.json(),
    {
        let mut o = Object::new();
        o.set("ts_ns", text::decimal(self.ts_nanos as u128).as_str());
        o.set_text("kind", self.kind.as_str());
        o.set_text("severity", self.severity.as_str());
        o.set_text("proto", self.key.proto.as_str());
        o.set_text("low", self.key.low.to_text().as_str());
        o.set_text("high", self.key.high.to_text().as_str());
        o.set("value", self.value.fixed(3).as_str());
        o.set_text("detail", self.detail.as_str());
        assert(o@ =~= self@.members());
        o.render()
    }
}

} // verus!
