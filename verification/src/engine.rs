//! The detection engine: owns flow state + the detector chain, ingests packets, and
//! periodically sweeps for time-based conditions (handshake timeouts) and
//! garbage-collects idle flows.

use vstd::prelude::*;

use crate::config::{DetectConfig, DetectView};
use crate::detectors;
use crate::detectors::{DetectCtx, Rule, RuleFn, Scene};
use crate::flow;
use crate::flow::{EngineState, FlowState, StateView, TcpState};
use crate::number::Ratio;
use crate::types;
use crate::types::{EventKind, EventView, FlowKey, L4Event, PacketMeta, Severity};
use crate::window::NS_PER_SEC;

verus! {

/// Point-in-time gauges for export.
#[derive(Clone, Copy, Debug)]
pub struct EngineStats {
    pub active_flows: usize,
    pub half_open_max: u32,
    pub rst_per_sec: Ratio,
    pub new_flow_per_sec: Ratio,
}

/// The report of a flow's handshake timeout.
pub open spec fn timeout_event(now: u64, k: FlowKey, f: FlowState) -> EventView {
    let waited = Ratio::of(
        flow::monus(
            now,
            match f.syn_time_ns {
                Some(t) => t,
                None => now,
            },
        ),
        NS_PER_SEC,
    );
    EventView {
        ts_nanos: now,
        kind: EventKind::HandshakeTimeout,
        severity: Severity::Warning,
        key: k,
        value: waited,
        detail: "SYN to "@ + f.service.text() + " unanswered for "@ + waited.fixed_text(
            1,
        ) + "s (handshake timeout)"@,
    }
}

/// `keys` has every element of `set`, each once.
pub open spec fn lists(keys: Seq<FlowKey>, set: Set<FlowKey>) -> bool {
    keys.no_duplicates() && keys.to_set() == set
}

/// The handshake timeouts of some flows, in the order of `keys`.
pub open spec fn timeout_events(state: StateView, now: u64, keys: Seq<FlowKey>) -> Seq<EventView> {
    keys.map_values(|k: FlowKey| timeout_event(now, k, state.flows[k]))
}

/// The events report every handshake timeout that is due, each once, in some order.
pub open spec fn is_timeout_report(state: StateView, now: u64, events: Seq<EventView>) -> bool {
    exists|keys: Seq<FlowKey>| #[trigger]
        lists(keys, state.unanswered(now)) && events == timeout_events(state, now, keys)
}

/// The engine: its memory, its detector chain with what each detector remembers, and the
/// time of the last sweep that a packet set off.
#[verifier::ext_equal]
pub ghost struct EngineView {
    pub state: StateView,
    pub rules: Seq<RuleFn>,
    pub memories: Seq<Seq<u64>>,
    pub last_sweep_ns: u64,
}

impl EngineView {
    /// An engine with the default detectors that has seen nothing.
    pub open spec fn fresh(cfg: DetectView) -> EngineView {
        EngineView {
            state: StateView::empty(cfg),
            rules: detectors::default_rules(cfg),
            memories: detectors::default_memories(),
            last_sweep_ns: 0,
        }
    }

    /// What the detectors see of a packet.
    pub open spec fn scene(self, pkt: PacketMeta) -> Scene {
        Scene {
            state: self.state.observed(pkt),
            key: pkt.key,
            delta: self.state.delta(pkt),
            now_ns: pkt.ts_nanos,
        }
    }

    /// The events that the detectors find on a packet.
    pub open spec fn findings(self, pkt: PacketMeta) -> Seq<EventView> {
        detectors::verdicts(
            self.rules,
            self.memories,
            self.scene(pkt),
            pkt,
            self.rules.len(),
        )
    }

    /// The packet sets off a sweep: the last was a second ago or more.
    pub open spec fn sweep_due(self, pkt: PacketMeta) -> bool {
        flow::monus(pkt.ts_nanos, self.last_sweep_ns) >= NS_PER_SEC
    }

    /// The engine after a packet.
    pub open spec fn processed(self, pkt: PacketMeta) -> EngineView {
        let state = self.state.observed(pkt);
        EngineView {
            state: if self.sweep_due(pkt) {
                state.swept(pkt.ts_nanos)
            } else {
                state
            },
            rules: self.rules,
            memories: detectors::memories_after(
                self.rules,
                self.memories,
                self.scene(pkt),
                pkt,
            ),
            last_sweep_ns: if self.sweep_due(pkt) {
                pkt.ts_nanos
            } else {
                self.last_sweep_ns
            },
        }
    }

    /// The events that the engine answers a packet with: the detectors' findings, then,
    /// where a sweep is due, its handshake timeouts.
    pub open spec fn answers(self, pkt: PacketMeta, events: Seq<EventView>) -> bool {
        let n = self.findings(pkt).len();
        &&& events.len() >= n
        &&& events.take(n as int) == self.findings(pkt)
        &&& if self.sweep_due(pkt) {
            is_timeout_report(self.state.observed(pkt), pkt.ts_nanos, events.skip(n as int))
        } else {
            events.len() == n
        }
    }
}

/// The detection engine.
pub struct Engine {
    state: EngineState,
    detectors: Vec<Rule>,
    last_sweep_ns: u64,
    sweep_interval_ns: u64,
}

impl View for Engine {
    type V = EngineView;

    closed spec fn view(&self) -> EngineView {
        EngineView {
            state: self.state@,
            rules: detectors::chain_rules(self.detectors@),
            memories: detectors::chain_memories(self.detectors@),
            last_sweep_ns: self.last_sweep_ns,
        }
    }
}

impl Engine {
    /// The engine's invariant.
    pub closed spec fn wf(self) -> bool {
        &&& self.state.wf()
        &&& self.state@.cfg.within_clock()
        &&& self.sweep_interval_ns == NS_PER_SEC
    }

    /// How many more packets the engine's counters can surely take, whatever they are.
    pub closed spec fn spare(self) -> nat {
        self.state.spare()
    }

    /// The engine's counters can take one more packet.
    pub closed spec fn room_for(self, pkt: PacketMeta) -> bool {
        self.state.room_for(pkt)
    }

    /// A well-formed engine's memory is consistent.
    pub proof fn lemma_consistent(self)
        requires
            self.wf(),
        ensures
            self@.state.consistent(),
            self@.state.cfg.within_clock(),
    {
    }

    /// A packet that there is room for keeps the memory consistent.
    pub proof fn lemma_observed_consistent(self, pkt: PacketMeta)
        requires
            self.wf(),
            self.room_for(pkt),
        ensures
            self@.state.observed(pkt).consistent(),
    {
        flow::law_observed_keeps_consistent(self@.state, pkt);
    }

    /// An engine with room to spare has room for any packet.
    pub proof fn lemma_spare_is_room(self)
        requires
            self.wf(),
        ensures
            self.spare() > 0 ==> forall|p: PacketMeta| #[trigger] self.room_for(p),
    {
        if self.spare() > 0 {
            assert forall|p: PacketMeta| #[trigger] self.room_for(p) by {
                self.state.lemma_spare_is_room(p);
            }
        }
    }

    /// An engine with the default detectors.
    pub fn new(cfg: DetectConfig) -> (e: Engine)
        requires
            cfg@.within_clock(),
        ensures
            e.wf(),
            e@ == EngineView::fresh(cfg@),
            e.spare() == u32::MAX,
            forall|p: PacketMeta| #[trigger] e.room_for(p),
    {
        let detectors = detectors::default_detectors(&cfg);
        let e = Engine {
            state: EngineState::new(cfg),
            detectors,
            last_sweep_ns: 0,
            sweep_interval_ns: NS_PER_SEC,
        };
        proof {
            e.lemma_spare_is_room();
        }
        e
    }

    /// Replace the detector chain (custom rule sets, tests).
    pub fn set_detectors(&mut self, detectors: Vec<Rule>)
        requires
            old(self).wf(),
        ensures
            final(self).wf(),
            final(self)@ == (EngineView {
                rules: detectors::chain_rules(detectors@),
                memories: detectors::chain_memories(detectors@),
                ..old(self)@
            }),
            final(self).spare() == old(self).spare(),
            final(self).spare() > 0 ==> forall|p: PacketMeta| #[trigger] final(self).room_for(p),
    {
        self.detectors = detectors;
        proof {
            self.lemma_spare_is_room();
        }
    }

    /// The number of detectors in the chain.
    pub fn detector_count(&self) -> (n: usize)
        ensures
            n == self@.rules.len(),
    {
        self.detectors.len()
    }

    /// The number of flows tracked.
    pub fn flow_count(&self) -> (n: usize)
        requires
            self.wf(),
        ensures
            n == self@.state.flows.dom().len(),
    {
        self.state.flows.len()
    }

    /// Whether the engine's counters can take one more packet.
    pub fn has_room(&self, pkt: &PacketMeta) -> (r: bool)
        requires
            self.wf(),
        ensures
            r == self.room_for(*pkt),
    {
        self.state.has_room(pkt)
    }

    /// Ingest one packet and return any events it (and any due sweep) produced.
    pub fn process(&mut self, pkt: &PacketMeta) -> (out: Vec<L4Event>)
        requires
            old(self).wf(),
            old(self).room_for(*pkt),
        ensures
            final(self).wf(),
            final(self)@ == old(self)@.processed(*pkt),
            old(self)@.answers(*pkt, types::event_views(out@)),
            final(self).spare() + 1 >= old(self).spare(),
            final(self).spare() > 0 ==> forall|p: PacketMeta| #[trigger] final(self).room_for(p),
    {
        let (key, delta) = self.state.update(pkt);
        let mut out = {
            let ctx = DetectCtx { state: &self.state, key, delta, now_ns: pkt.ts_nanos };
            detectors::inspect_all(&mut self.detectors, &ctx, pkt)
        };
        let ghost findings = out@;
        let passed: u64 = if pkt.ts_nanos >= self.last_sweep_ns {
            pkt.ts_nanos - self.last_sweep_ns
        } else {
            0
        };
        if passed >= self.sweep_interval_ns {
            self.last_sweep_ns = pkt.ts_nanos;
            let mut late = self.sweep(pkt.ts_nanos);
            let ghost report = late@;
            out.append(&mut late);
            proof {
                let events = types::event_views(out@);
                assert(out@ =~= findings + report);
                assert(events.take(findings.len() as int) =~= types::event_views(findings));
                assert(events.skip(findings.len() as int) =~= types::event_views(report));
            }
        } else {
            assert(types::event_views(out@).take(out@.len() as int) =~= types::event_views(out@));
        }
        proof {
            self.lemma_spare_is_room();
        }
        out
    }

    /// Time-driven checks: flag unanswered SYNs and evict idle flows. Safe to call as often
    /// as desired; call it on a timer for live captures with gaps.
    pub fn sweep(&mut self, now_ns: u64) -> (out: Vec<L4Event>)
        requires
            old(self).wf(),
        ensures
            final(self).wf(),
            final(self)@ == (EngineView { state: old(self)@.state.swept(now_ns), ..old(self)@ }),
            is_timeout_report(old(self)@.state, now_ns, types::event_views(out@)),
            final(self).spare() >= old(self).spare(),
            final(self).spare() > 0 ==> forall|p: PacketMeta| #[trigger] final(self).room_for(p),
    {
        let ghost base = self.state@;
        let ttl: u64 = self.state.cfg.flow_ttl_secs * NS_PER_SEC;
        let hto: u64 = self.state.cfg.handshake_timeout_secs * NS_PER_SEC;
        let keys = self.state.flows.keys();
        let timeouts = self.due(&keys, now_ns, hto);
        let idle = self.idle(&keys, now_ns, ttl);

        let mut out: Vec<L4Event> = Vec::new();
        let mut i: usize = 0;
        proof {
            assert(types::event_views(out@) =~= timeout_events(base, now_ns, timeouts@.take(0)));
            assert(self.state@.flows =~= flagged(base.flows, timeouts@.take(0)));
        }
        while i < timeouts.len()
            invariant
                self.wf(),
                lists(timeouts@, base.unanswered(now_ns)),
                i <= timeouts@.len(),
                self.state@.flows == flagged(base.flows, timeouts@.take(i as int)),
                self.state@.half_open.dom() == base.half_open.dom(),
                self.state@.cfg == base.cfg,
                self.state.globals.rst_rate == old(self).state.globals.rst_rate,
                self.state.globals.new_flow_rate == old(self).state.globals.new_flow_rate,
                self.detectors == old(self).detectors,
                self.last_sweep_ns == old(self).last_sweep_ns,
                types::event_views(out@) == timeout_events(
                    base,
                    now_ns,
                    timeouts@.take(i as int),
                ),
            decreases timeouts@.len() - i,
        {
            let k = timeouts[i];
            let ghost done = timeouts@.take(i as int);
            let ghost events = out@;
            proof {
                assert(timeouts@.to_set().contains(k));
                assert(base.flows.contains_key(k));
                assert(!done.contains(k));
            }
            if let Some(f) = self.state.flows.get(&k) {
                out.push(timeout_report(now_ns, k, f));
                proof {
                    assert(types::event_views(out@) =~= types::event_views(events).push(
                        timeout_event(now_ns, k, base.flows[k]),
                    ));
                }
            }
            self.state.flag_timeout(k);
            i = i + 1;
            proof {
                let more = timeouts@.take(i as int);
                assert(more =~= done.push(k));
                assert(timeout_events(base, now_ns, more) =~= timeout_events(
                    base,
                    now_ns,
                    done,
                ).push(timeout_event(now_ns, k, base.flows[k])));
                assert forall|q: FlowKey| more.contains(q) == (done.contains(q) || q == k) by {
                    if more.contains(q) {
                        let j = choose|j: int| 0 <= j < more.len() && more[j] == q;
                        if j < done.len() {
                            assert(done[j] == q);
                        }
                    }
                    if done.contains(q) {
                        let j = choose|j: int| 0 <= j < done.len() && done[j] == q;
                        assert(more[j] == q);
                    }
                    assert(more[more.len() - 1] == k);
                }
                assert(self.state@.flows =~= flagged(base.flows, more));
            }
        }
        let ghost marked = self.state@.flows;
        proof {
            assert(timeouts@.take(i as int) =~= timeouts@);
        }
        i = 0;
        assert(marked =~= without(marked, idle@.take(0)));
        while i < idle.len()
            invariant
                self.wf(),
                lists(idle@, idle_flows(base, now_ns)),
                marked.dom() == base.flows.dom(),
                i <= idle@.len(),
                self.state@.flows == without(marked, idle@.take(i as int)),
                self.state@.half_open.dom() == base.half_open.dom(),
                self.state@.cfg == base.cfg,
                self.state.globals.rst_rate == old(self).state.globals.rst_rate,
                self.state.globals.new_flow_rate == old(self).state.globals.new_flow_rate,
                self.detectors == old(self).detectors,
                self.last_sweep_ns == old(self).last_sweep_ns,
            decreases idle@.len() - i,
        {
            let k = idle[i];
            let ghost done = idle@.take(i as int);
            proof {
                assert(idle@.to_set().contains(k));
                assert(base.flows.dom().contains(k));
                assert(!done.contains(k));
            }
            self.state.evict(k);
            i = i + 1;
            proof {
                let more = idle@.take(i as int);
                assert(more =~= done.push(k));
                assert forall|q: FlowKey| more.contains(q) == (done.contains(q) || q == k) by {
                    if more.contains(q) {
                        let j = choose|j: int| 0 <= j < more.len() && more[j] == q;
                        if j < done.len() {
                            assert(done[j] == q);
                        }
                    }
                    if done.contains(q) {
                        let j = choose|j: int| 0 <= j < done.len() && done[j] == q;
                        assert(more[j] == q);
                    }
                    assert(more[more.len() - 1] == k);
                }
                assert(self.state@.flows =~= without(marked, more));
            }
        }
        proof {
            assert(idle@.take(i as int) =~= idle@);
            assert forall|k: FlowKey| timeouts@.contains(k) == base.unanswered(now_ns).contains(k)
                && idle@.contains(k) == idle_flows(base, now_ns).contains(k) by {
                assert(timeouts@.to_set().contains(k) == timeouts@.contains(k));
                assert(idle@.to_set().contains(k) == idle@.contains(k));
            }
            assert(self.state@.flows =~= base.swept_flows(now_ns));
            let swept = base.swept(now_ns);
            assert(self.state@.half_open =~= swept.half_open) by {
                assert forall|ep: types::Endpoint| self.state@.half_open.contains_key(ep) implies
                    self.state@.half_open[ep] == swept.half_open[ep] by {
                    assert(flow::count_at(self.state@.half_open, ep) == flow::half_open_flows(
                        self.state@.flows,
                        ep,
                    ).len());
                }
            }
            assert(self.state@ =~= swept);
            assert forall|n: nat|
                0 < n <= u32::MAX && #[trigger] old(self).state.has_spare(
                    n,
                ) implies self.state.has_spare(n) by {
                flow::lemma_swept_has_spare(base, now_ns, n);
            }
            old(self).state.lemma_spare_kept(self.state);
            self.lemma_spare_is_room();
        }
        out
    }

    /// The flows of `keys` whose handshake timeout is due.
    fn due(&self, keys: &Vec<FlowKey>, now_ns: u64, hto: u64) -> (r: Vec<FlowKey>)
        requires
            self.wf(),
            lists(keys@, self.state@.flows.dom()),
            hto == self.state@.timeout_ns(),
        ensures
            lists(r@, self.state@.unanswered(now_ns)),
    {
        let mut r: Vec<FlowKey> = Vec::new();
        let mut i: usize = 0;
        while i < keys.len()
            invariant
                self.wf(),
                lists(keys@, self.state@.flows.dom()),
                hto == self.state@.timeout_ns(),
                i <= keys@.len(),
                is_selection(keys@, i as int, r@, self.state@.unanswered(now_ns)),
            decreases keys@.len() - i,
        {
            let k = keys[i];
            let mut take = false;
            if let Some(f) = self.state.flows.get(&k) {
                if f.state == TcpState::SynSent && !f.handshake_timeout_flagged {
                    if let Some(t) = f.syn_time_ns {
                        if now_ns >= t && now_ns - t > hto {
                            take = true;
                        }
                    }
                }
            }
            proof {
                assert(keys@.to_set().contains(k));
                assert(take == self.state@.unanswered(now_ns).contains(k));
                lemma_selection_step(keys@, i as int, r@, self.state@.unanswered(now_ns));
            }
            if take {
                r.push(k);
            }
            i = i + 1;
        }
        proof {
            lemma_selection_done(keys@, r@, self.state@.flows.dom(), self.state@.unanswered(now_ns));
        }
        r
    }

    /// The flows of `keys` that have been silent for too long.
    fn idle(&self, keys: &Vec<FlowKey>, now_ns: u64, ttl: u64) -> (r: Vec<FlowKey>)
        requires
            self.wf(),
            lists(keys@, self.state@.flows.dom()),
            ttl == self.state@.ttl_ns(),
        ensures
            lists(r@, idle_flows(self.state@, now_ns)),
    {
        let mut r: Vec<FlowKey> = Vec::new();
        let mut i: usize = 0;
        while i < keys.len()
            invariant
                self.wf(),
                lists(keys@, self.state@.flows.dom()),
                ttl == self.state@.ttl_ns(),
                i <= keys@.len(),
                is_selection(keys@, i as int, r@, idle_flows(self.state@, now_ns)),
            decreases keys@.len() - i,
        {
            let k = keys[i];
            let mut take = false;
            if let Some(f) = self.state.flows.get(&k) {
                if now_ns >= f.last_seen_ns && now_ns - f.last_seen_ns > ttl {
                    take = true;
                }
            }
            proof {
                assert(keys@.to_set().contains(k));
                assert(take == idle_flows(self.state@, now_ns).contains(k));
                lemma_selection_step(keys@, i as int, r@, idle_flows(self.state@, now_ns));
            }
            if take {
                r.push(k);
            }
            i = i + 1;
        }
        proof {
            lemma_selection_done(keys@, r@, self.state@.flows.dom(), idle_flows(self.state@, now_ns));
        }
        r
    }

    /// Current gauges.
    pub fn stats(&self, now_ns: u64) -> (s: EngineStats)
        requires
            self.wf(),
        ensures
            s.active_flows == self@.state.flows.dom().len(),
            flow::is_most_half_open(self@.state.half_open, s.half_open_max),
            s.rst_per_sec == self@.state.rst_rate.rate(now_ns),
            s.new_flow_per_sec == self@.state.new_flow_rate.rate(now_ns),
    {
        EngineStats {
            active_flows: self.state.flows.len(),
            half_open_max: self.state.globals.half_open_max(),
            rst_per_sec: self.state.globals.rst_rate.per_sec(now_ns),
            new_flow_per_sec: self.state.globals.new_flow_rate.per_sec(now_ns),
        }
    }
}

/// The event for a flow's handshake timeout.
fn timeout_report(now_ns: u64, k: FlowKey, f: &FlowState) -> (e: L4Event)
    ensures
        e@ == timeout_event(now_ns, k, *f),
{
    let since: u64 = match f.syn_time_ns {
        Some(t) => t,
        None => now_ns,
    };
    let waited = Ratio::new(
        if now_ns >= since {
            now_ns - since
        } else {
            0
        },
        NS_PER_SEC,
    );
    let mut s = "SYN to ".to_owned();
    s.append(f.service.to_text().as_str());
    s.append(" unanswered for ");
    s.append(waited.fixed(1).as_str());
    s.append("s (handshake timeout)");
    L4Event::new(now_ns, EventKind::HandshakeTimeout, Severity::Warning, k, waited, s)
}

/// The flows that have been silent for too long.
pub open spec fn idle_flows(state: StateView, now: u64) -> Set<FlowKey> {
    state.flows.dom().filter(|k: FlowKey| state.flows[k].is_idle(now, state.ttl_ns()))
}

/// The flows with the handshake timeouts of `keys` marked.
spec fn flagged(flows: Map<FlowKey, FlowState>, keys: Seq<FlowKey>) -> Map<FlowKey, FlowState> {
    Map::new(
        |k: FlowKey| flows.contains_key(k),
        |k: FlowKey|
            if keys.contains(k) {
                flows[k].timed_out()
            } else {
                flows[k]
            },
    )
}

/// The flows without those of `keys`.
spec fn without(flows: Map<FlowKey, FlowState>, keys: Seq<FlowKey>) -> Map<FlowKey, FlowState> {
    Map::new(|k: FlowKey| flows.contains_key(k) && !keys.contains(k), |k: FlowKey| flows[k])
}

/// `k` is one of the first `n` keys.
spec fn among(keys: Seq<FlowKey>, n: int, k: FlowKey) -> bool {
    exists|j: int| 0 <= j < n && #[trigger] keys[j] == k
}

/// `r` has those of the first `n` keys that are in `set`, each once.
spec fn is_selection(keys: Seq<FlowKey>, n: int, r: Seq<FlowKey>, set: Set<FlowKey>) -> bool {
    &&& r.no_duplicates()
    &&& forall|k: FlowKey| #[trigger]
        r.contains(k) <==> set.contains(k) && among(keys, n, k)
}

proof fn lemma_selection_step(keys: Seq<FlowKey>, n: int, r: Seq<FlowKey>, set: Set<FlowKey>)
    requires
        is_selection(keys, n, r, set),
        keys.no_duplicates(),
        0 <= n < keys.len(),
    ensures
        set.contains(keys[n]) ==> is_selection(keys, n + 1, r.push(keys[n]), set),
        !set.contains(keys[n]) ==> is_selection(keys, n + 1, r, set),
{
    let k = keys[n];
    assert(!r.contains(k));
    let more = r.push(k);
    assert forall|q: FlowKey| #[trigger] more.contains(q) == (r.contains(q) || q == k) by {
        if r.contains(q) {
            let j = choose|j: int| 0 <= j < r.len() && r[j] == q;
            assert(more[j] == q);
        }
        if more.contains(q) {
            let j = choose|j: int| 0 <= j < more.len() && more[j] == q;
            if j < r.len() {
                assert(r[j] == q);
            }
        }
        assert(more[more.len() - 1] == k);
    }
    assert forall|q: FlowKey| #[trigger]
        among(keys, n + 1, q) == (q == k || among(keys, n, q)) by {
        if q == k {
            assert(keys[n] == q);
        }
    }
}

proof fn lemma_selection_done(
    keys: Seq<FlowKey>,
    r: Seq<FlowKey>,
    all: Set<FlowKey>,
    set: Set<FlowKey>,
)
    requires
        lists(keys, all),
        is_selection(keys, keys.len() as int, r, set),
        set.subset_of(all),
    ensures
        lists(r, set),
{
    assert forall|k: FlowKey| r.to_set().contains(k) == set.contains(k) by {
        assert(r.to_set().contains(k) == r.contains(k));
        if set.contains(k) {
            assert(keys.to_set().contains(k));
            let j = choose|j: int| 0 <= j < keys.len() && keys[j] == k;
            assert(keys[j] == k && among(keys, keys.len() as int, k));
        }
    }
    assert(r.to_set() =~= set);
}

} // verus!
