//! In-memory metrics registry with node-level and (optional) pod-level series. Renders
//! Prometheus text and provides a snapshot for the OTLP exporter.

use vstd::prelude::*;

use crate::number;
use crate::number::Ratio;
use crate::series;
use crate::series::{Counters, SeriesKey, SeriesView};
use crate::text;
use crate::types::L4Event;

verus! {

/// The labels of a node-level event series.
pub struct EventLabels {
    pub kind: &'static str,
    pub severity: &'static str,
}

impl SeriesKey for EventLabels {
    open spec fn labels(&self) -> Seq<Seq<char>> {
        seq![self.kind@, self.severity@]
    }

    fn label_chars(&self) -> (v: Vec<Vec<char>>) {
        let mut v: Vec<Vec<char>> = Vec::new();
        v.push(text::chars_of(self.kind));
        v.push(text::chars_of(self.severity));
        assert(series::char_texts(v@) =~= self.labels());
        v
    }
}

/// The labels of a pod-level event series.
pub struct PodEventLabels {
    pub pod_ip: String,
    pub kind: &'static str,
    pub severity: &'static str,
}

impl SeriesKey for PodEventLabels {
    open spec fn labels(&self) -> Seq<Seq<char>> {
        seq![self.pod_ip@, self.kind@, self.severity@]
    }

    fn label_chars(&self) -> (v: Vec<Vec<char>>) {
        let mut v: Vec<Vec<char>> = Vec::new();
        v.push(text::chars_of(self.pod_ip.as_str()));
        v.push(text::chars_of(self.kind));
        v.push(text::chars_of(self.severity));
        assert(series::char_texts(v@) =~= self.labels());
        v
    }
}

/// Everything that is counted and measured.
#[verifier::ext_equal]
pub ghost struct MetricsView {
    pub packets_total: u64,
    pub events_total: u64,
    /// Counts by kind and severity.
    pub event_counts: SeriesView,
    /// Counts by pod address, kind and severity.
    pub pod_event_counts: SeriesView,
    /// Packets by pod address.
    pub pod_packets: SeriesView,
    pub active_flows: u64,
    pub half_open_max: u64,
    pub rst_per_sec: Ratio,
    pub new_flow_per_sec: Ratio,
}

/// The text of an optional string.
pub open spec fn optional_text(s: Option<&str>) -> Option<Seq<char>> {
    match s {
        Some(t) => Some(t@),
        None => None,
    }
}

impl MetricsView {
    /// Nothing counted yet.
    pub open spec fn empty() -> MetricsView {
        MetricsView {
            packets_total: 0,
            events_total: 0,
            event_counts: Seq::empty(),
            pod_event_counts: Seq::empty(),
            pod_packets: Seq::empty(),
            active_flows: 0,
            half_open_max: 0,
            rst_per_sec: Ratio::of(0, 1),
            new_flow_per_sec: Ratio::of(0, 1),
        }
    }

    /// The invariant: every series is sorted, the node-level events add up to their
    /// total, and the pod-level series count no more than the totals.
    pub open spec fn consistent(self) -> bool {
        &&& series::is_sorted(self.event_counts)
        &&& series::is_sorted(self.pod_event_counts)
        &&& series::is_sorted(self.pod_packets)
        &&& series::total(self.event_counts) == self.events_total
        &&& series::total(self.pod_event_counts) <= self.events_total
        &&& series::total(self.pod_packets) <= self.packets_total
    }

    /// One more packet, of a pod's flow where `pod_ip` is given.
    pub open spec fn with_packet(self, pod_ip: Option<Seq<char>>) -> MetricsView {
        MetricsView {
            packets_total: (self.packets_total + 1) as u64,
            pod_packets: match pod_ip {
                Some(ip) => series::counted(self.pod_packets, seq![ip]),
                None => self.pod_packets,
            },
            ..self
        }
    }

    /// One more event, of a pod's flow where `pod_ip` is given.
    pub open spec fn with_event(
        self,
        kind: Seq<char>,
        severity: Seq<char>,
        pod_ip: Option<Seq<char>>,
    ) -> MetricsView {
        MetricsView {
            events_total: (self.events_total + 1) as u64,
            event_counts: series::counted(self.event_counts, seq![kind, severity]),
            pod_event_counts: match pod_ip {
                Some(ip) => series::counted(self.pod_event_counts, seq![ip, kind, severity]),
                None => self.pod_event_counts,
            },
            ..self
        }
    }

    /// The first `n` node-level event lines.
    pub open spec fn event_lines(self, n: nat) -> Seq<char>
        decreases n,
    {
        if n == 0 {
            Seq::empty()
        } else {
            let (labels, count) = self.event_counts[n - 1];
            self.event_lines((n - 1) as nat) + "l4scope_events{kind=\""@ + labels[0]
                + "\",severity=\""@ + labels[1] + "\"} "@ + text::dec_text(count as nat) + "\n"@
        }
    }

    /// The first `n` pod-level event lines.
    pub open spec fn pod_event_lines(self, n: nat) -> Seq<char>
        decreases n,
    {
        if n == 0 {
            Seq::empty()
        } else {
            let (labels, count) = self.pod_event_counts[n - 1];
            self.pod_event_lines((n - 1) as nat) + "l4scope_pod_events{pod_ip=\""@ + labels[0]
                + "\",kind=\""@ + labels[1] + "\",severity=\""@ + labels[2] + "\"} "@
                + text::dec_text(count as nat) + "\n"@
        }
    }

    /// The first `n` pod-level packet lines.
    pub open spec fn pod_packet_lines(self, n: nat) -> Seq<char>
        decreases n,
    {
        if n == 0 {
            Seq::empty()
        } else {
            let (labels, count) = self.pod_packets[n - 1];
            self.pod_packet_lines((n - 1) as nat) + "l4scope_pod_packets_total{pod_ip=\""@
                + labels[0] + "\"} "@ + text::dec_text(count as nat) + "\n"@
        }
    }

    /// The counters that the text starts with.
    pub open spec fn counters_text(self) -> Seq<char> {
        "# HELP l4scope_packets_total Packets processed by the engine.\n"@
            + "# TYPE l4scope_packets_total counter\n"@ + "l4scope_packets_total "@
            + text::dec_text(self.packets_total as nat) + "\n"@
            + "# HELP l4scope_events_total L4 anomaly events emitted.\n"@
            + "# TYPE l4scope_events_total counter\n"@ + "l4scope_events_total "@ + text::dec_text(
            self.events_total as nat,
        ) + "\n"@ + "# HELP l4scope_events Anomaly events by kind and severity.\n"@
            + "# TYPE l4scope_events counter\n"@ + self.event_lines(self.event_counts.len())
    }

    /// The pod-level series.
    pub open spec fn pods_text(self) -> Seq<char> {
        "# HELP l4scope_pod_events Anomaly events by pod, kind and severity.\n"@
            + "# TYPE l4scope_pod_events counter\n"@ + self.pod_event_lines(
            self.pod_event_counts.len(),
        ) + "# HELP l4scope_pod_packets_total Packets processed per pod.\n"@
            + "# TYPE l4scope_pod_packets_total counter\n"@ + self.pod_packet_lines(
            self.pod_packets.len(),
        )
    }

    /// The gauges that the text ends with.
    pub open spec fn gauges_text(self) -> Seq<char> {
        "# HELP l4scope_active_flows Flows currently tracked.\n"@
            + "# TYPE l4scope_active_flows gauge\n"@ + "l4scope_active_flows "@ + text::dec_text(
            self.active_flows as nat,
        ) + "\n"@
            + "# HELP l4scope_half_open_max Max concurrent half-open connections to one service.\n"@
            + "# TYPE l4scope_half_open_max gauge\n"@ + "l4scope_half_open_max "@ + text::dec_text(
            self.half_open_max as nat,
        ) + "\n"@ + "# HELP l4scope_rst_per_second Host-wide TCP RST rate.\n"@
            + "# TYPE l4scope_rst_per_second gauge\n"@ + "l4scope_rst_per_second "@
            + self.rst_per_sec.fixed_text(3) + "\n"@ + "# HELP l4scope_new_flows_per_second Host-wide new-flow rate.\n"@
            + "# TYPE l4scope_new_flows_per_second gauge\n"@ + "l4scope_new_flows_per_second "@
            + self.new_flow_per_sec.fixed_text(3) + "\n"@
    }

    /// The metrics in Prometheus text exposition format. Pod-level series stand in it
    /// where there are pod-level events.
    pub open spec fn prometheus(self) -> Seq<char> {
        self.counters_text() + (if self.pod_event_counts.len() > 0 {
            self.pods_text()
        } else {
            Seq::empty()
        }) + self.gauges_text()
    }
}

/// Recording keeps the invariant: packets and events add up as they are recorded.
pub proof fn law_recording_keeps_consistent(
    m: MetricsView,
    kind: Seq<char>,
    severity: Seq<char>,
    pod_ip: Option<Seq<char>>,
)
    requires
        m.consistent(),
        m.packets_total < u64::MAX,
        m.events_total < u64::MAX,
    ensures
        MetricsView::empty().consistent(),
        m.with_packet(pod_ip).consistent(),
        m.with_event(kind, severity, pod_ip).consistent(),
{
    series::law_counting_keeps_order(m.event_counts, seq![kind, severity]);
    series::law_counting_adds_one(m.event_counts, seq![kind, severity], seq![kind, severity]);
    if let Some(ip) = pod_ip {
        series::law_counting_keeps_order(m.pod_packets, seq![ip]);
        series::law_counting_adds_one(m.pod_packets, seq![ip], seq![ip]);
        series::law_counting_keeps_order(m.pod_event_counts, seq![ip, kind, severity]);
        series::law_counting_adds_one(
            m.pod_event_counts,
            seq![ip, kind, severity],
            seq![ip, kind, severity],
        );
    }
}

/// An event raises the count of its kind and severity by one, and no other count.
pub proof fn law_event_counts_once(
    m: MetricsView,
    kind: Seq<char>,
    severity: Seq<char>,
    pod_ip: Option<Seq<char>>,
    labels: Seq<Seq<char>>,
)
    requires
        m.consistent(),
        m.events_total < u64::MAX,
    ensures
        series::count_of(m.with_event(kind, severity, pod_ip).event_counts, labels)
            == series::count_of(m.event_counts, labels) + (if labels == seq![kind, severity] {
            1nat
        } else {
            0nat
        }),
{
    series::law_counting_adds_one(m.event_counts, seq![kind, severity], labels);
}

/// A consistent copy of the registry for the OTLP exporter.
pub struct MetricsSnapshot {
    pub packets_total: u64,
    pub events_total: u64,
    pub event_counts: Vec<(&'static str, &'static str, u64)>,
    pub pod_event_counts: Vec<(String, &'static str, &'static str, u64)>,
    pub pod_packets: Vec<(String, u64)>,
    pub active_flows: u64,
    pub half_open_max: u64,
    pub rst_per_sec: Ratio,
    pub new_flow_per_sec: Ratio,
}

impl View for MetricsSnapshot {
    type V = MetricsView;

    open spec fn view(&self) -> MetricsView {
        MetricsView {
            packets_total: self.packets_total,
            events_total: self.events_total,
            event_counts: self.event_counts@.map_values(
                |e: (&'static str, &'static str, u64)| (seq![e.0@, e.1@], e.2),
            ),
            pod_event_counts: self.pod_event_counts@.map_values(
                |e: (String, &'static str, &'static str, u64)| (seq![e.0@, e.1@, e.2@], e.3),
            ),
            pod_packets: self.pod_packets@.map_values(|e: (String, u64)| (seq![e.0@], e.1)),
            active_flows: self.active_flows,
            half_open_max: self.half_open_max,
            rst_per_sec: self.rst_per_sec,
            new_flow_per_sec: self.new_flow_per_sec,
        }
    }
}

/// The metrics registry.
pub struct Registry {
    packets_total: u64,
    events_total: u64,
    // node-level: (kind, severity) -> count
    event_counts: Counters<EventLabels>,
    // pod-level: (pod_ip, kind, severity) -> count
    pod_event_counts: Counters<PodEventLabels>,
    // pod-level: pod_ip -> packets
    pod_packets: Counters<String>,
    active_flows: u64,
    half_open_max: u64,
    rst_per_sec: Ratio,
    new_flow_per_sec: Ratio,
}

impl View for Registry {
    type V = MetricsView;

    closed spec fn view(&self) -> MetricsView {
        MetricsView {
            packets_total: self.packets_total,
            events_total: self.events_total,
            event_counts: self.event_counts@,
            pod_event_counts: self.pod_event_counts@,
            pod_packets: self.pod_packets@,
            active_flows: self.active_flows,
            half_open_max: self.half_open_max,
            rst_per_sec: self.rst_per_sec,
            new_flow_per_sec: self.new_flow_per_sec,
        }
    }
}

impl Default for Registry {
    fn default() -> (r: Registry)
        ensures
            r@ == MetricsView::empty(),
    {
        Registry::new()
    }
}

impl Registry {
    /// A registry with nothing in it.
    pub fn new() -> (r: Registry)
        ensures
            r@ == MetricsView::empty(),
            r@.consistent(),
    {
        Registry {
            packets_total: 0,
            events_total: 0,
            event_counts: Counters::new(),
            pod_event_counts: Counters::new(),
            pod_packets: Counters::new(),
            active_flows: 0,
            half_open_max: 0,
            rst_per_sec: Ratio::whole(0),
            new_flow_per_sec: Ratio::whole(0),
        }
    }

    /// The packets and events recorded so far.
    pub fn totals(&self) -> (r: (u64, u64))
        ensures
            r == (self@.packets_total, self@.events_total),
    {
        (self.packets_total, self.events_total)
    }

    pub fn record_packet(&mut self, pod_ip: Option<&str>)
        requires
            old(self)@.consistent(),
            old(self)@.packets_total < u64::MAX,
        ensures
            final(self)@ == old(self)@.with_packet(optional_text(pod_ip)),
            final(self)@.consistent(),
    {
        self.packets_total = self.packets_total + 1;
        if let Some(ip) = pod_ip {
            proof {
                series::law_counting_keeps_order(self.pod_packets@, seq![ip@]);
                series::law_counting_adds_one(self.pod_packets@, seq![ip@], seq![ip@]);
            }
            self.pod_packets.count(ip.to_owned());
        }
    }

    pub fn record_event(&mut self, ev: &L4Event, pod_ip: Option<&str>)
        requires
            old(self)@.consistent(),
            old(self)@.events_total < u64::MAX,
        ensures
            final(self)@ == old(self)@.with_event(
                ev.kind.label(),
                ev.severity.label(),
                optional_text(pod_ip),
            ),
            final(self)@.consistent(),
    {
        self.events_total = self.events_total + 1;
        let kind = ev.kind.as_str();
        let severity = ev.severity.as_str();
        proof {
            series::law_counting_keeps_order(self.event_counts@, seq![kind@, severity@]);
            series::law_counting_adds_one(
                self.event_counts@,
                seq![kind@, severity@],
                seq![kind@, severity@],
            );
        }
        self.event_counts.count(EventLabels { kind, severity });
        if let Some(ip) = pod_ip {
            proof {
                let labels = seq![ip@, kind@, severity@];
                series::law_counting_keeps_order(self.pod_event_counts@, labels);
                series::law_counting_adds_one(self.pod_event_counts@, labels, labels);
            }
            self.pod_event_counts.count(PodEventLabels { pod_ip: ip.to_owned(), kind, severity });
        }
    }

    pub fn set_gauges(
        &mut self,
        active_flows: u64,
        half_open_max: u64,
        rst_per_sec: Ratio,
        new_flow_per_sec: Ratio,
    )
        ensures
            final(self)@ == (MetricsView {
                active_flows,
                half_open_max,
                rst_per_sec,
                new_flow_per_sec,
                ..old(self)@
            }),
    {
        self.active_flows = active_flows;
        self.half_open_max = half_open_max;
        self.rst_per_sec = rst_per_sec;
        self.new_flow_per_sec = new_flow_per_sec;
    }

    /// Snapshot for the OTLP exporter.
    pub fn snapshot(&self) -> (s: MetricsSnapshot)
        ensures
            s@ == self@,
    {
        let mut event_counts: Vec<(&'static str, &'static str, u64)> = Vec::new();
        let mut i: usize = 0;
        while i < self.event_counts.entries.len()
            invariant
                i <= self.event_counts.entries@.len(),
                event_counts@.len() == i,
                forall|j: int|
                    0 <= j < i ==> (seq![event_counts@[j].0@, event_counts@[j].1@], event_counts@[j].2)
                        == #[trigger] self.event_counts@[j],
            decreases self.event_counts.entries@.len() - i,
        {
            let e = &self.event_counts.entries[i];
            event_counts.push((e.0.kind, e.0.severity, e.1));
            i = i + 1;
        }
        let mut pod_event_counts: Vec<(String, &'static str, &'static str, u64)> = Vec::new();
        i = 0;
        while i < self.pod_event_counts.entries.len()
            invariant
                i <= self.pod_event_counts.entries@.len(),
                pod_event_counts@.len() == i,
                forall|j: int|
                    0 <= j < i ==> (
                        seq![
                            pod_event_counts@[j].0@,
                            pod_event_counts@[j].1@,
                            pod_event_counts@[j].2@,
                        ],
                        pod_event_counts@[j].3,
                    ) == #[trigger] self.pod_event_counts@[j],
            decreases self.pod_event_counts.entries@.len() - i,
        {
            let e = &self.pod_event_counts.entries[i];
            pod_event_counts.push((e.0.pod_ip.clone(), e.0.kind, e.0.severity, e.1));
            i = i + 1;
        }
        let mut pod_packets: Vec<(String, u64)> = Vec::new();
        i = 0;
        while i < self.pod_packets.entries.len()
            invariant
                i <= self.pod_packets.entries@.len(),
                pod_packets@.len() == i,
                forall|j: int|
                    0 <= j < i ==> (seq![pod_packets@[j].0@], pod_packets@[j].1)
                        == #[trigger] self.pod_packets@[j],
            decreases self.pod_packets.entries@.len() - i,
        {
            let e = &self.pod_packets.entries[i];
            pod_packets.push((e.0.clone(), e.1));
            i = i + 1;
        }
        let s = MetricsSnapshot {
            packets_total: self.packets_total,
            events_total: self.events_total,
            event_counts,
            pod_event_counts,
            pod_packets,
            active_flows: self.active_flows,
            half_open_max: self.half_open_max,
            rst_per_sec: self.rst_per_sec,
            new_flow_per_sec: self.new_flow_per_sec,
        };
        proof {
            assert(s@.event_counts =~= self@.event_counts);
            assert(s@.pod_event_counts =~= self@.pod_event_counts);
            assert(s@.pod_packets =~= self@.pod_packets);
        }
        s
    }

    /// Render the current metrics in Prometheus text exposition format.
    pub fn render_prometheus(&self) -> (s: String)
        ensures
            s@ == self@.prometheus(),
    {
        let mut s = self.render_counters();
        if self.pod_event_counts.entries.len() > 0 {
            s.append(self.render_pods().as_str());
        } else {
            assert(s@ + Seq::<char>::empty() =~= s@);
        }
        s.append(self.render_gauges().as_str());
        s
    }

    fn render_counters(&self) -> (s: String)
        ensures
            s@ == self@.counters_text(),
    {
        let mut s = "# HELP l4scope_packets_total Packets processed by the engine.\n".to_owned();
        s.append("# TYPE l4scope_packets_total counter\n");
        s.append("l4scope_packets_total ");
        s.append(text::decimal(self.packets_total as u128).as_str());
        s.append("\n");
        s.append("# HELP l4scope_events_total L4 anomaly events emitted.\n");
        s.append("# TYPE l4scope_events_total counter\n");
        s.append("l4scope_events_total ");
        s.append(text::decimal(self.events_total as u128).as_str());
        s.append("\n");
        s.append("# HELP l4scope_events Anomaly events by kind and severity.\n");
        s.append("# TYPE l4scope_events counter\n");
        let mut lines = String::new();
        let mut i: usize = 0;
        assert(lines@ =~= self@.event_lines(0));
        while i < self.event_counts.entries.len()
            invariant
                i <= self.event_counts.entries@.len(),
                lines@ == self@.event_lines(i as nat),
            decreases self.event_counts.entries@.len() - i,
        {
            let e = &self.event_counts.entries[i];
            assert(self@.event_counts[i as int] == (e.0.labels(), e.1));
            lines.append("l4scope_events{kind=\"");
            lines.append(e.0.kind);
            lines.append("\",severity=\"");
            lines.append(e.0.severity);
            lines.append("\"} ");
            lines.append(text::decimal(e.1 as u128).as_str());
            lines.append("\n");
            i = i + 1;
        }
        s.append(lines.as_str());
        s
    }

    fn render_pods(&self) -> (s: String)
        ensures
            s@ == self@.pods_text(),
    {
        let mut s =
            "# HELP l4scope_pod_events Anomaly events by pod, kind and severity.\n".to_owned();
        s.append("# TYPE l4scope_pod_events counter\n");
        let mut lines = String::new();
        let mut i: usize = 0;
        assert(lines@ =~= self@.pod_event_lines(0));
        while i < self.pod_event_counts.entries.len()
            invariant
                i <= self.pod_event_counts.entries@.len(),
                lines@ == self@.pod_event_lines(i as nat),
            decreases self.pod_event_counts.entries@.len() - i,
        {
            let e = &self.pod_event_counts.entries[i];
            assert(self@.pod_event_counts[i as int] == (e.0.labels(), e.1));
            lines.append("l4scope_pod_events{pod_ip=\"");
            lines.append(e.0.pod_ip.as_str());
            lines.append("\",kind=\"");
            lines.append(e.0.kind);
            lines.append("\",severity=\"");
            lines.append(e.0.severity);
            lines.append("\"} ");
            lines.append(text::decimal(e.1 as u128).as_str());
            lines.append("\n");
            i = i + 1;
        }
        s.append(lines.as_str());
        s.append("# HELP l4scope_pod_packets_total Packets processed per pod.\n");
        s.append("# TYPE l4scope_pod_packets_total counter\n");
        let mut lines = String::new();
        i = 0;
        assert(lines@ =~= self@.pod_packet_lines(0));
        while i < self.pod_packets.entries.len()
            invariant
                i <= self.pod_packets.entries@.len(),
                lines@ == self@.pod_packet_lines(i as nat),
            decreases self.pod_packets.entries@.len() - i,
        {
            let e = &self.pod_packets.entries[i];
            assert(self@.pod_packets[i as int] == (e.0.labels(), e.1));
            lines.append("l4scope_pod_packets_total{pod_ip=\"");
            lines.append(e.0.as_str());
            lines.append("\"} ");
            lines.append(text::decimal(e.1 as u128).as_str());
            lines.append("\n");
            i = i + 1;
        }
        s.append(lines.as_str());
        s
    }

    fn render_gauges(&self) -> (s: String)
        ensures
            s@ == self@.gauges_text(),
    {
        let mut s = "# HELP l4scope_active_flows Flows currently tracked.\n".to_owned();
        s.append("# TYPE l4scope_active_flows gauge\n");
        s.append("l4scope_active_flows ");
        s.append(text::decimal(self.active_flows as u128).as_str());
        s.append("\n");
        s.append(
            "# HELP l4scope_half_open_max Max concurrent half-open connections to one service.\n",
        );
        s.append("# TYPE l4scope_half_open_max gauge\n");
        s.append("l4scope_half_open_max ");
        s.append(text::decimal(self.half_open_max as u128).as_str());
        s.append("\n");
        s.append("# HELP l4scope_rst_per_second Host-wide TCP RST rate.\n");
        s.append("# TYPE l4scope_rst_per_second gauge\n");
        s.append("l4scope_rst_per_second ");
        s.append(self.rst_per_sec.fixed(3).as_str());
        s.append("\n");
        s.append("# HELP l4scope_new_flows_per_second Host-wide new-flow rate.\n");
        s.append("# TYPE l4scope_new_flows_per_second gauge\n");
        s.append("l4scope_new_flows_per_second ");
        s.append(self.new_flow_per_sec.fixed(3).as_str());
        s.append("\n");
        s
    }
}

} // verus!
