//! The capture -> detect -> export pipeline: what each packet and the end of the stream do
//! to the engine, the metrics and the summary of a run.

use vstd::prelude::*;

use crate::address::IpAddr;
use crate::attribution;
use crate::attribution::PodMatcher;
use crate::detectors;
use crate::engine;
use crate::engine::{Engine, EngineView};
use crate::error::Error;
use crate::flow;
use crate::flow::StateView;
use crate::metrics::{MetricsView, Registry};
use crate::series;
use crate::series::{Counters, SeriesKey, SeriesView};
use crate::text;
use crate::types;
use crate::types::{EventKind, EventView, FlowKey, L4Event, PacketMeta, Severity};

verus! {

/// How many packets pass between two refreshes of the gauges.
pub const GAUGE_INTERVAL: u64 = 512;

/// The width that the summary gives an event's name.
pub const SUMMARY_WIDTH: usize = 18;

impl SeriesKey for EventKind {
    open spec fn labels(&self) -> Seq<Seq<char>> {
        seq![self.label()]
    }

    fn label_chars(&self) -> (v: Vec<Vec<char>>) {
        let mut v: Vec<Vec<char>> = Vec::new();
        v.push(text::chars_of(self.as_str()));
        assert(series::char_texts(v@) =~= self.labels());
        v
    }
}

// ---------------------------------------------------------------------------
// What a run does
// ---------------------------------------------------------------------------

/// A run: the engine, the pod networks where pods are told apart, and what was counted.
#[verifier::ext_equal]
pub ghost struct RunView {
    pub engine: EngineView,
    pub cidrs: Option<Seq<(IpAddr, u32)>>,
    pub summary: SeriesView,
    pub packets: u64,
    pub last_ts: u64,
}

/// The pod that a flow is attributed to.
pub open spec fn pod_of(cidrs: Option<Seq<(IpAddr, u32)>>, key: FlowKey) -> Option<Seq<char>> {
    match cidrs {
        Some(c) => attribution::pod_text(c, key),
        None => None,
    }
}

/// The metrics after some events.
pub open spec fn with_events(
    m: MetricsView,
    cidrs: Option<Seq<(IpAddr, u32)>>,
    events: Seq<EventView>,
) -> MetricsView
    decreases events.len(),
{
    if events.len() == 0 {
        m
    } else {
        let e = events.last();
        with_events(m, cidrs, events.drop_last()).with_event(
            e.kind.label(),
            e.severity.label(),
            pod_of(cidrs, e.key),
        )
    }
}

/// The summary after some events.
pub open spec fn summed(s: SeriesView, events: Seq<EventView>) -> SeriesView
    decreases events.len(),
{
    if events.len() == 0 {
        s
    } else {
        series::counted(summed(s, events.drop_last()), seq![events.last().kind.label()])
    }
}

/// `after` is `before` with the gauges of the engine's memory at a time.
pub open spec fn is_refreshed(
    before: MetricsView,
    after: MetricsView,
    state: StateView,
    now_ns: u64,
) -> bool {
    &&& after == (MetricsView {
        active_flows: state.flows.dom().len() as u64,
        half_open_max: after.half_open_max,
        rst_per_sec: state.rst_rate.rate(now_ns),
        new_flow_per_sec: state.new_flow_rate.rate(now_ns),
        ..before
    })
    &&& after.half_open_max <= u32::MAX
    &&& flow::is_most_half_open(state.half_open, after.half_open_max as u32)
}

impl RunView {
    /// The run after a packet that was answered with some events.
    pub open spec fn ingested(self, pkt: PacketMeta, events: Seq<EventView>) -> RunView {
        RunView {
            engine: self.engine.processed(pkt),
            cidrs: self.cidrs,
            summary: summed(self.summary, events),
            packets: (self.packets + 1) as u64,
            last_ts: pkt.ts_nanos,
        }
    }

    /// The run after its final sweep, which reported some events.
    pub open spec fn finished(self, events: Seq<EventView>) -> RunView {
        RunView {
            engine: EngineView {
                state: self.engine.state.swept(self.last_ts),
                ..self.engine
            },
            summary: summed(self.summary, events),
            ..self
        }
    }

    /// How many more events the totals must be able to take: one for each detector, and one
    /// for each flow, a new one among them.
    pub open spec fn most_events(self) -> nat {
        self.engine.rules.len() + self.engine.state.flows.dom().len() + 1
    }
}

/// The text that tells of an event: `[WARN] retransmission: ...`.
pub open spec fn event_line_text(e: EventView) -> Seq<char> {
    "["@ + (match e.severity {
        Severity::Info => "INFO"@,
        Severity::Warning => "WARN"@,
        Severity::Critical => "CRIT"@,
    }) + "] "@ + e.kind.label() + ": "@ + e.detail
}

/// `s` with spaces before it, up to a width.
pub open spec fn right_aligned(s: Seq<char>, width: nat) -> Seq<char> {
    if s.len() < width {
        Seq::new((width - s.len()) as nat, |i: int| ' ') + s
    } else {
        s
    }
}

/// The summary's line for a series.
pub open spec fn summary_line(entry: (Seq<Seq<char>>, u64)) -> Seq<char> {
    "  "@ + right_aligned(entry.0[0], SUMMARY_WIDTH as nat) + ": "@ + text::dec_text(entry.1 as nat)
}

// ---------------------------------------------------------------------------
// Bounds
// ---------------------------------------------------------------------------

proof fn lemma_verdicts_bounded(
    rules: Seq<detectors::RuleFn>,
    memories: Seq<Seq<u64>>,
    scene: detectors::Scene,
    pkt: PacketMeta,
    n: nat,
)
    ensures
        detectors::verdicts(rules, memories, scene, pkt, n).len() <= n,
    decreases n,
{
    if n > 0 {
        lemma_verdicts_bounded(rules, memories, scene, pkt, (n - 1) as nat);
    }
}

/// A sweep reports no more events than there are flows.
proof fn lemma_report_bounded(state: StateView, now: u64, events: Seq<EventView>)
    requires
        state.consistent(),
        engine::is_timeout_report(state, now, events),
    ensures
        events.len() <= state.flows.dom().len(),
{
    let keys = choose|keys: Seq<FlowKey>| #[trigger]
        engine::lists(keys, state.unanswered(now)) && events == engine::timeout_events(
            state,
            now,
            keys,
        );
    keys.unique_seq_to_set();
    assert(keys.to_set().subset_of(state.flows.dom()));
    vstd::set_lib::lemma_len_subset(keys.to_set(), state.flows.dom());
}

proof fn lemma_events_keep_consistent(
    m: MetricsView,
    cidrs: Option<Seq<(IpAddr, u32)>>,
    events: Seq<EventView>,
)
    requires
        m.consistent(),
        m.packets_total < u64::MAX,
        m.events_total + events.len() < u64::MAX,
    ensures
        with_events(m, cidrs, events).consistent(),
        with_events(m, cidrs, events).events_total == m.events_total + events.len(),
        with_events(m, cidrs, events).packets_total == m.packets_total,
    decreases events.len(),
{
    if events.len() > 0 {
        let e = events.last();
        lemma_events_keep_consistent(m, cidrs, events.drop_last());
        crate::metrics::law_recording_keeps_consistent(
            with_events(m, cidrs, events.drop_last()),
            e.kind.label(),
            e.severity.label(),
            pod_of(cidrs, e.key),
        );
    }
}

proof fn lemma_summary_grows(s: SeriesView, events: Seq<EventView>)
    requires
        series::is_sorted(s),
        series::total(s) + events.len() < u64::MAX,
    ensures
        series::is_sorted(summed(s, events)),
        series::total(summed(s, events)) == series::total(s) + events.len(),
    decreases events.len(),
{
    if events.len() > 0 {
        let rest = summed(s, events.drop_last());
        let labels = seq![events.last().kind.label()];
        lemma_summary_grows(s, events.drop_last());
        series::law_counting_keeps_order(rest, labels);
        series::law_counting_adds_one(rest, labels, labels);
    }
}

/// The summary counts every event of a run once, under its kind.
pub proof fn law_summary_counts_every_event(s: SeriesView, events: Seq<EventView>, kind: EventKind)
    requires
        series::is_sorted(s),
        series::total(s) + events.len() < u64::MAX,
    ensures
        series::total(summed(s, events)) == series::total(s) + events.len(),
        series::count_of(summed(s, events), seq![kind.label()]) == series::count_of(
            s,
            seq![kind.label()],
        ) + events.filter(|e: EventView| e.kind.label() == kind.label()).len(),
    decreases events.len(),
{
    reveal(Seq::filter);
    lemma_summary_grows(s, events);
    if events.len() > 0 {
        let rest = summed(s, events.drop_last());
        let labels = seq![events.last().kind.label()];
        let wanted = seq![kind.label()];
        law_summary_counts_every_event(s, events.drop_last(), kind);
        lemma_summary_grows(s, events.drop_last());
        series::law_counting_adds_one(rest, labels, wanted);
        assert(labels == wanted <==> events.last().kind.label() == kind.label()) by {
            if labels == wanted {
                assert(labels[0] == wanted[0]);
            }
        }
    }
}

/// Room for the events of `n` packets covers those of the first and of the rest.
proof fn lemma_spare_shrinks(n: nat, most: nat, next: nat, events: nat)
    requires
        n > 0,
        next <= most + 1,
        events <= most,
    ensures
        events + (n - 1) * (next + (n - 1)) <= n * (most + n),
{
    assert((n - 1) * (next + (n - 1)) <= (n - 1) * (most + n)) by (nonlinear_arith)
        requires
            n > 0,
            next <= most + 1,
    ;
    assert(n * (most + n) == (n - 1) * (most + n) + (most + n)) by (nonlinear_arith)
        requires
            n > 0,
    ;
}

// ---------------------------------------------------------------------------
// The pipeline
// ---------------------------------------------------------------------------

/// A run of the agent.
pub struct Pipeline {
    engine: Engine,
    pods: Option<PodMatcher>,
    summary: Counters<EventKind>,
    packets: u64,
    last_ts: u64,
}

impl View for Pipeline {
    type V = RunView;

    closed spec fn view(&self) -> RunView {
        RunView {
            engine: self.engine@,
            cidrs: match self.pods {
                Some(m) => Some(m.cidrs@),
                None => None,
            },
            summary: self.summary@,
            packets: self.packets,
            last_ts: self.last_ts,
        }
    }
}

impl Pipeline {
    /// The pipeline's invariant.
    pub closed spec fn wf(self) -> bool {
        &&& self.engine.wf()
        &&& series::is_sorted(self.summary@)
    }

    /// The counters can take one more packet and the events it may give rise to.
    pub closed spec fn room_for(self, pkt: PacketMeta, m: MetricsView) -> bool {
        &&& self.engine.room_for(pkt)
        &&& self.packets < u64::MAX
        &&& m.packets_total < u64::MAX - 1
        &&& self.room_for_events(m)
    }

    /// The counters can take the events of one packet or sweep.
    pub closed spec fn room_for_events(self, m: MetricsView) -> bool {
        &&& m.packets_total < u64::MAX
        &&& m.events_total + self@.most_events() < u64::MAX
        &&& series::total(self.summary@) + self@.most_events() < u64::MAX
    }

    /// How many more packets the engine can surely take, whatever they are.
    pub closed spec fn engine_spare(self) -> nat {
        self.engine.spare()
    }

    /// The counters can take `n` more packets, whatever they are, and the events these may
    /// give rise to: each adds at most one flow, and so one to the most events of the next.
    pub open spec fn has_spare(self, n: nat, m: MetricsView) -> bool {
        &&& self.engine_spare() >= n
        &&& self@.packets + n <= u64::MAX
        &&& m.packets_total + n < u64::MAX
        &&& m.events_total + n * (self@.most_events() + n) < u64::MAX
        &&& series::total(self@.summary) + n * (self@.most_events() + n) < u64::MAX
    }

    /// A run with room to spare has room for any packet, and for the events of a sweep.
    pub proof fn lemma_spare_is_room(self, n: nat, m: MetricsView)
        requires
            self.wf(),
            self.has_spare(n, m),
            n > 0,
        ensures
            self.room_for_events(m),
            forall|p: PacketMeta| #[trigger] self.room_for(p, m),
    {
        self.engine.lemma_spare_is_room();
        let most = self@.most_events();
        assert(n * (most + n) >= most) by (nonlinear_arith)
            requires
                n > 0,
        ;
    }

    /// Where there is room to spare, there is room for any packet and for a sweep.
    pub open spec fn spares(self) -> bool {
        forall|n: nat, m: MetricsView|
            n > 0 && #[trigger] self.has_spare(n, m) ==> self.room_for_events(m) && forall|
                p: PacketMeta,
            | #[trigger] self.room_for(p, m)
    }

    proof fn lemma_spares(self)
        requires
            self.wf(),
        ensures
            self.spares(),
    {
        assert forall|n: nat, m: MetricsView|
            n > 0 && #[trigger] self.has_spare(n, m) implies self.room_for_events(m) && forall|
            p: PacketMeta,
        | #[trigger] self.room_for(p, m) by {
            self.lemma_spare_is_room(n, m);
        }
    }

    /// A run that has seen nothing.
    pub fn new(engine: Engine, pods: Option<PodMatcher>) -> (p: Pipeline)
        requires
            engine.wf(),
        ensures
            p.wf(),
            p@ == (RunView {
                engine: engine@,
                cidrs: match pods {
                    Some(m) => Some(m.cidrs@),
                    None => None,
                },
                summary: Seq::empty(),
                packets: 0,
                last_ts: 0,
            }),
            p.engine_spare() == engine.spare(),
            p.spares(),
    {
        let p = Pipeline { engine, pods, summary: Counters::new(), packets: 0, last_ts: 0 };
        proof {
            p.lemma_spares();
        }
        p
    }

    /// The packets of the run so far.
    pub fn packets(&self) -> (n: u64)
        ensures
            n == self@.packets,
    {
        self.packets
    }

    /// Whether the counters can take one more packet and the events it may give rise to.
    pub fn has_room(&self, pkt: &PacketMeta, registry: &Registry) -> (r: bool)
        requires
            self.wf(),
        ensures
            r == self.room_for(*pkt, registry@),
    {
        self.engine.has_room(pkt) && self.packets < u64::MAX && registry.totals().0 < u64::MAX - 1
            && self.has_room_for_events(registry)
    }

    /// Whether the counters can take the events of one packet or sweep.
    pub fn has_room_for_events(&self, registry: &Registry) -> (r: bool)
        requires
            self.wf(),
        ensures
            r == self.room_for_events(registry@),
    {
        let (packets, events) = registry.totals();
        let most: u128 = self.engine.detector_count() as u128 + self.engine.flow_count() as u128
            + 1;
        packets < u64::MAX && events as u128 + most < u64::MAX as u128 && self.summary.fits(most)
    }

    fn pod_ip(&self, key: &FlowKey) -> (r: Option<String>)
        ensures
            match r {
                Some(s) => pod_of(self@.cidrs, *key) == Some(s@),
                None => pod_of(self@.cidrs, *key) is None,
            },
    {
        match &self.pods {
            Some(m) => m.local_pod_ip(key),
            None => None,
        }
    }

    /// Counts events in the metrics and in the summary.
    fn record(&mut self, events: &Vec<L4Event>, registry: &mut Registry)
        requires
            old(self).wf(),
            old(registry)@.consistent(),
            old(registry)@.packets_total < u64::MAX,
            old(registry)@.events_total + events@.len() < u64::MAX,
            series::total(old(self)@.summary) + events@.len() < u64::MAX,
        ensures
            final(self).wf(),
            final(self)@ == (RunView {
                summary: summed(old(self)@.summary, types::event_views(events@)),
                ..old(self)@
            }),
            final(registry)@ == with_events(
                old(registry)@,
                old(self)@.cidrs,
                types::event_views(events@),
            ),
            final(registry)@.consistent(),
            final(self).engine_spare() == old(self).engine_spare(),
    {
        let ghost all = types::event_views(events@);
        let ghost run = self@;
        let ghost start = registry@;
        let mut i: usize = 0;
        assert(all.take(0) =~= Seq::empty());
        while i < events.len()
            invariant
                i <= events@.len(),
                all == types::event_views(events@),
                self.wf(),
                start.consistent(),
                start.packets_total < u64::MAX,
                start.events_total + events@.len() < u64::MAX,
                series::is_sorted(run.summary),
                series::total(run.summary) + events@.len() < u64::MAX,
                self@ == (RunView { summary: summed(run.summary, all.take(i as int)), ..run }),
                self.engine == old(self).engine,
                registry@ == with_events(start, run.cidrs, all.take(i as int)),
            decreases events@.len() - i,
        {
            let ev = &events[i];
            proof {
                let done = all.take(i as int);
                assert(all.take(i + 1).drop_last() =~= done);
                assert(all.take(i + 1).last() == ev@);
                lemma_events_keep_consistent(start, run.cidrs, done);
                lemma_summary_grows(run.summary, done);
                lemma_summary_grows(run.summary, all.take(i + 1));
            }
            let pod_ip = self.pod_ip(&ev.key);
            match &pod_ip {
                Some(ip) => {
                    registry.record_event(ev, Some(ip.as_str()));
                },
                None => {
                    registry.record_event(ev, None);
                },
            }
            self.summary.count(ev.kind);
            i = i + 1;
        }
        proof {
            assert(all.take(i as int) =~= all);
            lemma_events_keep_consistent(start, run.cidrs, all);
        }
    }

    /// Takes in one packet: counts it, runs the engine, and counts the events. Every
    /// so many packets the gauges are refreshed.
    pub fn ingest(&mut self, pkt: &PacketMeta, registry: &mut Registry) -> (out: Vec<L4Event>)
        requires
            old(self).wf(),
            old(registry)@.consistent(),
            old(self).room_for(*pkt, old(registry)@),
        ensures
            final(self).wf(),
            final(registry)@.consistent(),
            old(self)@.engine.answers(*pkt, types::event_views(out@)),
            final(self)@ == old(self)@.ingested(*pkt, types::event_views(out@)),
            ({
                let m = with_events(
                    old(registry)@.with_packet(pod_of(old(self)@.cidrs, pkt.key)),
                    old(self)@.cidrs,
                    types::event_views(out@),
                );
                if final(self)@.packets % GAUGE_INTERVAL == 0 {
                    is_refreshed(m, final(registry)@, final(self)@.engine.state, pkt.ts_nanos)
                } else {
                    final(registry)@ == m
                }
            }),
            forall|n: nat|
                n > 0 && #[trigger] old(self).has_spare(n, old(registry)@)
                    ==> final(self).has_spare((n - 1) as nat, final(registry)@),
            final(self).spares(),
    {
        let ghost before = self@;
        let ghost totals = registry@;
        self.packets = self.packets + 1;
        self.last_ts = pkt.ts_nanos;
        let pod_ip = self.pod_ip(&pkt.key);
        match &pod_ip {
            Some(ip) => {
                registry.record_packet(Some(ip.as_str()));
            },
            None => {
                registry.record_packet(None);
            },
        }
        proof {
            self.engine.lemma_consistent();
            self.engine.lemma_observed_consistent(*pkt);
        }
        let out = self.engine.process(pkt);
        proof {
            let events = types::event_views(out@);
            let n = before.engine.findings(*pkt).len();
            lemma_verdicts_bounded(
                before.engine.rules,
                before.engine.memories,
                before.engine.scene(*pkt),
                *pkt,
                before.engine.rules.len(),
            );
            if before.engine.sweep_due(*pkt) {
                lemma_report_bounded(
                    before.engine.state.observed(*pkt),
                    pkt.ts_nanos,
                    events.skip(n as int),
                );
            }
            assert(events.len() == out@.len());
            let flows = before.engine.state.flows;
            assert(before.engine.state.observed(*pkt).flows.dom() =~= flows.dom().insert(pkt.key));
        }
        self.record(&out, registry);
        proof {
            lemma_events_keep_consistent(
                totals.with_packet(pod_of(before.cidrs, pkt.key)),
                before.cidrs,
                types::event_views(out@),
            );
            lemma_summary_grows(before.summary, types::event_views(out@));
            assert(types::event_views(out@).len() == out@.len());
        }
        if self.packets % GAUGE_INTERVAL == 0 {
            self.update_gauges(registry, pkt.ts_nanos);
        }
        proof {
            let most = before.most_events();
            let flows = before.engine.state.flows.dom();
            let seen = before.engine.state.observed(*pkt).flows.dom();
            let left = self@.engine.state.flows.dom();
            assert(seen =~= flows.insert(pkt.key));
            assert(left.subset_of(seen));
            vstd::set_lib::lemma_len_subset(left, seen);
            assert(self@.most_events() <= most + 1);
            assert forall|n: nat|
                n > 0 && #[trigger] old(self).has_spare(n, totals) implies self.has_spare(
                (n - 1) as nat,
                registry@,
            ) by {
                lemma_spare_shrinks(n, most, self@.most_events(), out@.len());
            }
            self.lemma_spares();
        }
        out
    }

    /// Ends the run: a final sweep flushes handshake timeouts, then the gauges are
    /// refreshed.
    pub fn finish(&mut self, registry: &mut Registry) -> (out: Vec<L4Event>)
        requires
            old(self).wf(),
            old(registry)@.consistent(),
            old(self).room_for_events(old(registry)@),
        ensures
            final(self).wf(),
            final(registry)@.consistent(),
            engine::is_timeout_report(
                old(self)@.engine.state,
                old(self)@.last_ts,
                types::event_views(out@),
            ),
            final(self)@ == old(self)@.finished(types::event_views(out@)),
            is_refreshed(
                with_events(old(registry)@, old(self)@.cidrs, types::event_views(out@)),
                final(registry)@,
                final(self)@.engine.state,
                old(self)@.last_ts,
            ),
            final(self).engine_spare() >= old(self).engine_spare(),
            final(self).spares(),
    {
        proof {
            self.engine.lemma_consistent();
        }
        let now: u64 = self.last_ts;
        let out = self.engine.sweep(now);
        proof {
            lemma_report_bounded(old(self)@.engine.state, now, types::event_views(out@));
            assert(types::event_views(out@).len() == out@.len());
        }
        self.record(&out, registry);
        self.update_gauges(registry, now);
        proof {
            self.lemma_spares();
        }
        out
    }

    fn update_gauges(&self, registry: &mut Registry, now_ns: u64)
        requires
            self.wf(),
            old(registry)@.consistent(),
        ensures
            final(registry)@.consistent(),
            is_refreshed(old(registry)@, final(registry)@, self@.engine.state, now_ns),
    {
        let s = self.engine.stats(now_ns);
        proof {
            self.engine.lemma_consistent();
        }
        registry.set_gauges(
            s.active_flows as u64,
            s.half_open_max as u64,
            s.rst_per_sec,
            s.new_flow_per_sec,
        );
    }

    /// The summary's lines, one for each kind of event that occurred.
    pub fn summary_lines(&self) -> (v: Vec<String>)
        ensures
            text::string_texts(v@) == self@.summary.map_values(
                |e: (Seq<Seq<char>>, u64)| summary_line(e),
            ),
    {
        let ghost want = self@.summary.map_values(|e: (Seq<Seq<char>>, u64)| summary_line(e));
        let mut v: Vec<String> = Vec::new();
        let mut i: usize = 0;
        while i < self.summary.entries.len()
            invariant
                i <= self.summary.entries@.len(),
                want == self@.summary.map_values(|e: (Seq<Seq<char>>, u64)| summary_line(e)),
                v@.len() == i,
                forall|j: int| 0 <= j < i ==> (#[trigger] v@[j])@ == want[j],
            decreases self.summary.entries@.len() - i,
        {
            let e = &self.summary.entries[i];
            assert(self@.summary[i as int] == (seq![e.0.label()], e.1));
            let mut s = "  ".to_owned();
            s.append(align_right(e.0.as_str(), SUMMARY_WIDTH).as_str());
            s.append(": ");
            s.append(text::decimal(e.1 as u128).as_str());
            v.push(s);
            i = i + 1;
        }
        assert(text::string_texts(v@) =~= want);
        v
    }
}

/// What a read of the source leads to: `None` to go on with the packet, else the end of the
/// run, clean or not.
pub fn exit_after(read: &Result<Option<PacketMeta>, Error>) -> (r: Option<bool>)
    ensures
        r == (match *read {
            Ok(Some(_)) => None,
            Ok(None) => Some(true),
            Err(_) => Some(false),
        }),
{
    match read {
        Ok(Some(_)) => None,
        Ok(None) => Some(true),
        Err(_) => Some(false),
    }
}

fn align_right(s: &str, width: usize) -> (r: String)
    ensures
        r@ == right_aligned(s@, width as nat),
{
    let n: usize = text::chars_of(s).len();
    let mut r = String::new();
    let mut i: usize = n;
    while i < width
        invariant
            n == s@.len(),
            n <= i,
            i <= width || i == n,
            r@ =~= Seq::new((i - n) as nat, |j: int| ' '),
        decreases width - i,
    {
        r.push(' ');
        i = i + 1;
    }
    let ghost pad = r@;
    r.append(s);
    proof {
        if n >= width {
            assert(pad + s@ =~= s@);
        }
    }
    r
}

/// The text that tells of an event.
pub fn event_line(ev: &L4Event) -> (s: String)
    ensures
        s@ == event_line_text(ev@),
{
    let tag = match ev.severity {
        Severity::Info => "INFO",
        Severity::Warning => "WARN",
        Severity::Critical => "CRIT",
    };
    let mut s = "[".to_owned();
    s.append(tag);
    s.append("] ");
    s.append(ev.kind.as_str());
    s.append(": ");
    s.append(ev.detail.as_str());
    s
}

} // verus!
