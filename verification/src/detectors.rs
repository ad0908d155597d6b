//! The detector set. Each detector is a small, pluggable rule that turns the engine's
//! per-packet [`PacketDelta`] plus flow/host state into zero or one [`L4Event`]. Add a
//! detector by implementing [`Detector`] and registering it in [`default_detectors`].

use vstd::prelude::*;

use crate::config::{DetectConfig, DetectView};
use crate::flow;
use crate::flow::{EngineState, FlowState, Globals, PacketDelta, StateView};
use crate::number::{Ratio, Scale};
use crate::text;
use crate::types::{EventKind, EventView, FlowKey, L4Event, PacketMeta, Severity};
use crate::window::{MAX_SECS, NS_PER_SEC};

verus! {

/// Read-only view handed to every detector for one packet.
pub struct DetectCtx<'a> {
    pub state: &'a EngineState,
    pub key: FlowKey,
    pub delta: PacketDelta,
    pub now_ns: u64,
}

/// What a detector sees of one packet.
pub ghost struct Scene {
    pub state: StateView,
    pub key: FlowKey,
    pub delta: PacketDelta,
    pub now_ns: u64,
}

impl Scene {
    /// The packet's flow.
    pub open spec fn flow(self) -> Option<FlowState> {
        if self.state.flows.contains_key(self.key) {
            Some(self.state.flows[self.key])
        } else {
            None
        }
    }

    /// An event of now, about the packet's flow.
    pub open spec fn event(
        self,
        kind: EventKind,
        severity: Severity,
        value: Ratio,
        detail: Seq<char>,
    ) -> EventView {
        EventView { ts_nanos: self.now_ns, kind, severity, key: self.key, value, detail }
    }
}

impl<'a> View for DetectCtx<'a> {
    type V = Scene;

    open spec fn view(&self) -> Scene {
        Scene { state: self.state@, key: self.key, delta: self.delta, now_ns: self.now_ns }
    }
}

impl<'a> DetectCtx<'a> {
    /// The engine state is well-formed.
    pub open spec fn wf(self) -> bool {
        self.state.wf()
    }

    pub fn flow(&self) -> (r: Option<&FlowState>)
        requires
            self.wf(),
        ensures
            match r {
                Some(f) => self@.flow() == Some(*f),
                None => self@.flow() is None,
            },
    {
        self.state.flows.get(&self.key)
    }

    pub fn cfg(&self) -> (r: &DetectConfig)
        ensures
            *r == self.state.cfg,
    {
        &self.state.cfg
    }

    pub fn globals(&self) -> (r: &Globals)
        ensures
            *r == self.state.globals,
    {
        &self.state.globals
    }
}

/// What a detector decides on a packet, and what it remembers afterwards, from what it
/// remembered, the scene and the packet.
pub type RuleFn = spec_fn(Seq<u64>, Scene, PacketMeta) -> (Option<EventView>, Seq<u64>);

/// What an optional event says.
pub open spec fn event_view(e: Option<L4Event>) -> Option<EventView> {
    match e {
        Some(e) => Some(e@),
        None => None,
    }
}

/// A pluggable L4 anomaly rule.
pub trait Detector: Send {
    /// The rule that the detector follows.
    spec fn rule(&self) -> RuleFn;

    /// What the detector remembers between packets.
    spec fn memory(&self) -> Seq<u64>;

    /// The detector's name.
    spec fn label(&self) -> Seq<char>;

    fn name(&self) -> (s: &'static str)
        ensures
            s@ == self.label(),
    ;

    fn inspect(&mut self, ctx: &DetectCtx, pkt: &PacketMeta) -> (r: Option<L4Event>)
        requires
            ctx.wf(),
        ensures
            final(self).rule() == old(self).rule(),
            final(self).label() == old(self).label(),
            (event_view(r), final(self).memory()) == (old(self).rule())(
                old(self).memory(),
                ctx@,
                *pkt,
            ),
    ;
}

/// The rule of a detector that remembers nothing.
pub open spec fn stateless(verdict: spec_fn(Scene) -> Option<EventView>) -> RuleFn {
    |memory: Seq<u64>, scene: Scene, pkt: PacketMeta| (verdict(scene), memory)
}

/// The rule of a detector that repeats itself no sooner than `gap_ns` nanoseconds later.
/// It remembers when it last spoke, and nothing before that.
pub open spec fn debounced(verdict: spec_fn(Scene) -> Option<EventView>, gap_ns: u64) -> RuleFn {
    |memory: Seq<u64>, scene: Scene, pkt: PacketMeta|
        if verdict(scene) is Some && debounce_ready(last_spoke(memory), gap_ns, scene.now_ns) {
            (verdict(scene), seq![scene.now_ns])
        } else {
            (None, memory)
        }
}

// ---------------------------------------------------------------------------
// Debounce
// ---------------------------------------------------------------------------

/// Enough time has passed since `last_ns`, or there was no such time.
pub open spec fn debounce_ready(last_ns: Option<u64>, gap_ns: u64, now: u64) -> bool {
    match last_ns {
        Some(t) => flow::monus(now, t) >= gap_ns,
        None => true,
    }
}

/// When a debounced detector last spoke, from what it remembers.
pub open spec fn last_spoke(memory: Seq<u64>) -> Option<u64> {
    if memory.len() == 0 {
        None
    } else {
        Some(memory[0])
    }
}

/// Simple time-based debounce so host-wide alerts don't spam.
#[derive(Clone, Copy, Debug)]
pub struct Debounce {
    pub last_ns: Option<u64>,
    pub gap_ns: u64,
}

impl Debounce {
    pub fn new(gap_secs: u64) -> (d: Debounce)
        requires
            gap_secs <= MAX_SECS,
        ensures
            d == (Debounce { last_ns: None, gap_ns: (gap_secs * NS_PER_SEC) as u64 }),
    {
        Debounce { last_ns: None, gap_ns: gap_secs * NS_PER_SEC }
    }

    /// What a detector with this debounce remembers.
    pub open spec fn memory(self) -> Seq<u64> {
        match self.last_ns {
            Some(t) => seq![t],
            None => Seq::empty(),
        }
    }

    pub fn ready(&mut self, now: u64) -> (r: bool)
        ensures
            r == debounce_ready(old(self).last_ns, old(self).gap_ns, now),
            *final(self) == (if r {
                Debounce { last_ns: Some(now), ..*old(self) }
            } else {
                *old(self)
            }),
    {
        let due = match self.last_ns {
            Some(t) => {
                let passed: u64 = if now >= t {
                    now - t
                } else {
                    0
                };
                passed >= self.gap_ns
            },
            None => true,
        };
        if due {
            self.last_ns = Some(now);
            true
        } else {
            false
        }
    }
}

/// What a rule remembers after some packets.
pub open spec fn memory_after(
    rule: RuleFn,
    memory: Seq<u64>,
    seen: Seq<(Scene, PacketMeta)>,
) -> Seq<u64>
    decreases seen.len(),
{
    if seen.len() == 0 {
        memory
    } else {
        rule(memory_after(rule, memory, seen.drop_last()), seen.last().0, seen.last().1).1
    }
}

/// A sustained condition is told of once per gap: whatever packets come within the gap
/// after a debounced detector spoke, it stays silent.
pub proof fn law_debounce_silent_throughout_gap(
    verdict: spec_fn(Scene) -> Option<EventView>,
    gap_ns: u64,
    memory: Seq<u64>,
    first: Scene,
    first_pkt: PacketMeta,
    seen: Seq<(Scene, PacketMeta)>,
    later: Scene,
    later_pkt: PacketMeta,
)
    requires
        debounced(verdict, gap_ns)(memory, first, first_pkt).0 is Some,
        forall|i: int|
            0 <= i < seen.len() ==> flow::monus((#[trigger] seen[i]).0.now_ns, first.now_ns)
                < gap_ns,
        flow::monus(later.now_ns, first.now_ns) < gap_ns,
    ensures
        ({
            let rule = debounced(verdict, gap_ns);
            let after = rule(memory, first, first_pkt).1;
            rule(memory_after(rule, after, seen), later, later_pkt).0 is None
        }),
{
    let rule = debounced(verdict, gap_ns);
    let after = rule(memory, first, first_pkt).1;
    lemma_silent_memory(verdict, gap_ns, first.now_ns, seen);
    assert(after =~= seq![first.now_ns]);
}

proof fn lemma_silent_memory(
    verdict: spec_fn(Scene) -> Option<EventView>,
    gap_ns: u64,
    last_ns: u64,
    seen: Seq<(Scene, PacketMeta)>,
)
    requires
        forall|i: int|
            0 <= i < seen.len() ==> flow::monus((#[trigger] seen[i]).0.now_ns, last_ns) < gap_ns,
    ensures
        memory_after(debounced(verdict, gap_ns), seq![last_ns], seen) == seq![last_ns],
    decreases seen.len(),
{
    if seen.len() > 0 {
        let rest = seen.drop_last();
        assert forall|i: int| 0 <= i < rest.len() implies flow::monus(
            (#[trigger] rest[i]).0.now_ns,
            last_ns,
        ) < gap_ns by {
            assert(rest[i] == seen[i]);
        }
        lemma_silent_memory(verdict, gap_ns, last_ns, rest);
        assert(flow::monus(seen[seen.len() - 1].0.now_ns, last_ns) < gap_ns);
    }
}

/// A debounced detector that has been silent for its gap, or never spoke, speaks as soon
/// as its condition holds.
pub proof fn law_debounce_speaks_again(
    verdict: spec_fn(Scene) -> Option<EventView>,
    gap_ns: u64,
    memory: Seq<u64>,
    scene: Scene,
    pkt: PacketMeta,
)
    requires
        verdict(scene) is Some,
        match last_spoke(memory) {
            Some(t) => t <= scene.now_ns && scene.now_ns - t >= gap_ns,
            None => true,
        },
    ensures
        debounced(verdict, gap_ns)(memory, scene, pkt).0 == verdict(scene),
{
}

// ---------------------------------------------------------------------------
// Rules
// ---------------------------------------------------------------------------

/// A retransmission on a flow whose retransmit ratio has reached the threshold.
pub open spec fn retransmission_verdict(c: Scene) -> Option<EventView> {
    match c.flow() {
        Some(f) => {
            let ratio = Ratio::of(f.retransmits, f.data_segments);
            if c.delta.is_retransmit && ratio.at_least(c.state.cfg.retransmit_ratio_warn) {
                Some(
                    c.event(
                        EventKind::Retransmission,
                        Severity::Warning,
                        ratio,
                        "TCP retransmissions on "@ + c.key.text() + ": "@ + text::dec_text(
                            f.retransmits as nat,
                        ) + "/"@ + text::dec_text(f.data_segments as nat) + " segments ("@
                            + (Ratio { scale: Scale::Hundred, ..ratio }).fixed_text(1) + "% loss/retx)"@,
                    ),
                )
            } else {
                None
            }
        },
        None => None,
    }
}

/// A segment ahead of the expected sequence number.
pub open spec fn out_of_order_verdict(c: Scene) -> Option<EventView> {
    if c.delta.is_out_of_order {
        Some(
            c.event(
                EventKind::OutOfOrder,
                Severity::Info,
                Ratio::of(1, 1),
                "Out-of-order / gap in segment stream on "@ + c.key.text(),
            ),
        )
    } else {
        None
    }
}

/// A run of duplicate ACKs that has just reached the threshold.
pub open spec fn dup_ack_verdict(c: Scene) -> Option<EventView> {
    if c.delta.is_dup_ack && c.delta.dup_ack_count == c.state.cfg.dup_ack_threshold {
        Some(
            c.event(
                EventKind::DuplicateAck,
                Severity::Warning,
                Ratio::of(c.delta.dup_ack_count as u64, 1),
                text::dec_text(c.delta.dup_ack_count as nat) + " duplicate ACKs on "@ + c.key.text()
                    + " (fast-retransmit / loss signal)"@,
            ),
        )
    } else {
        None
    }
}

/// A receive window that has just dropped to zero.
pub open spec fn zero_window_verdict(c: Scene) -> Option<EventView> {
    if c.delta.zero_window_edge {
        Some(
            c.event(
                EventKind::ZeroWindow,
                Severity::Warning,
                Ratio::of(0, 1),
                "Zero receive window on "@ + c.key.text()
                    + " — receiver stalled / app not draining"@,
            ),
        )
    } else {
        None
    }
}

/// A handshake round trip, in milliseconds, that has reached the threshold; a warning
/// from four times the threshold on.
pub open spec fn high_rtt_verdict(c: Scene) -> Option<EventView> {
    let warn = c.state.cfg.rtt_warn_ms;
    match c.delta.rtt_sample_ns {
        Some(rtt_ns) => {
            let rtt_ms = Ratio { num: rtt_ns, den: NS_PER_SEC, scale: Scale::Thousand };
            if rtt_ms.at_least(warn) {
                Some(
                    c.event(
                        EventKind::HighRtt,
                        if rtt_ms.at_least_fourfold(warn) {
                            Severity::Warning
                        } else {
                            Severity::Info
                        },
                        rtt_ms,
                        "High handshake RTT on "@ + c.key.text() + ": "@ + rtt_ms.fixed_text(0) + " ms"@,
                    ),
                )
            } else {
                None
            }
        },
        None => None,
    }
}

/// A reset during the handshake.
pub open spec fn handshake_failure_verdict(c: Scene) -> Option<EventView> {
    if c.delta.handshake_refused {
        Some(
            c.event(
                EventKind::HandshakeFailure,
                Severity::Warning,
                Ratio::of(1, 1),
                "Connection refused (RST during handshake) on "@ + c.key.text(),
            ),
        )
    } else {
        None
    }
}

/// A reset while the host-wide reset rate has reached the threshold.
pub open spec fn rst_storm_verdict(c: Scene) -> Option<EventView> {
    let rate = c.state.rst_rate.rate(c.now_ns);
    if c.delta.rst && rate.at_least(c.state.cfg.rst_storm_per_sec) {
        Some(
            c.event(
                EventKind::RstStorm,
                Severity::Critical,
                rate,
                "RST storm: "@ + rate.fixed_text(0)
                    + " resets/s host-wide (near "@ + c.key.text() + ")"@,
            ),
        )
    } else {
        None
    }
}

/// A packet of a flow whose service has reached the threshold of half-open connections.
pub open spec fn syn_backlog_verdict(c: Scene) -> Option<EventView> {
    match c.flow() {
        Some(f) => {
            let count = flow::count_at(c.state.half_open, f.service);
            if count >= c.state.cfg.syn_backlog_threshold {
                Some(
                    c.event(
                        EventKind::SynBacklog,
                        Severity::Warning,
                        Ratio::of(count as u64, 1),
                        "SYN backlog to "@ + f.service.text() + ": "@ + text::dec_text(count as nat)
                            + " half-open connections (possible SYN flood / accept-queue exhaustion)"@,
                    ),
                )
            } else {
                None
            }
        },
        None => None,
    }
}

/// A new flow while the host-wide rate of new flows has reached the threshold.
pub open spec fn churn_verdict(c: Scene) -> Option<EventView> {
    let rate = c.state.new_flow_rate.rate(c.now_ns);
    if c.delta.new_flow && rate.at_least(c.state.cfg.churn_per_sec) {
        Some(
            c.event(
                EventKind::ConnectionChurn,
                Severity::Info,
                rate,
                "Connection churn: "@ + rate.fixed_text(0)
                    + " new flows/s host-wide"@,
            ),
        )
    } else {
        None
    }
}

// ---------------------------------------------------------------------------
// Detectors
// ---------------------------------------------------------------------------

pub struct RetransmissionDetector;

impl Detector for RetransmissionDetector {
    open spec fn rule(&self) -> RuleFn {
        stateless(|c: Scene| retransmission_verdict(c))
    }

    open spec fn memory(&self) -> Seq<u64> {
        Seq::empty()
    }

    open spec fn label(&self) -> Seq<char> {
        "retransmission"@
    }

    fn name(&self) -> (s: &'static str) {
        "retransmission"
    }

    fn inspect(&mut self, ctx: &DetectCtx, pkt: &PacketMeta) -> (r: Option<L4Event>) {
        if !ctx.delta.is_retransmit {
            return None;
        }
        match ctx.flow() {
            Some(flow) => {
                let ratio = flow.retransmit_ratio();
                if !ratio.reaches(&ctx.cfg().retransmit_ratio_warn) {
                    return None;
                }
                let mut s = "TCP retransmissions on ".to_owned();
                s.append(ctx.key.to_text().as_str());
                s.append(": ");
                s.append(text::decimal(flow.retransmits as u128).as_str());
                s.append("/");
                s.append(text::decimal(flow.data_segments as u128).as_str());
                s.append(" segments (");
                s.append(
                    Ratio::scaled(
                        flow.retransmits,
                        flow.data_segments,
                        Scale::Hundred,
                    ).fixed(1).as_str(),
                );
                s.append("% loss/retx)");
                Some(
                    L4Event::new(
                        ctx.now_ns,
                        EventKind::Retransmission,
                        Severity::Warning,
                        ctx.key,
                        ratio,
                        s,
                    ),
                )
            },
            None => None,
        }
    }
}

pub struct OutOfOrderDetector;

impl Detector for OutOfOrderDetector {
    open spec fn rule(&self) -> RuleFn {
        stateless(|c: Scene| out_of_order_verdict(c))
    }

    open spec fn memory(&self) -> Seq<u64> {
        Seq::empty()
    }

    open spec fn label(&self) -> Seq<char> {
        "out_of_order"@
    }

    fn name(&self) -> (s: &'static str) {
        "out_of_order"
    }

    fn inspect(&mut self, ctx: &DetectCtx, pkt: &PacketMeta) -> (r: Option<L4Event>) {
        if !ctx.delta.is_out_of_order {
            return None;
        }
        let mut s = "Out-of-order / gap in segment stream on ".to_owned();
        s.append(ctx.key.to_text().as_str());
        Some(
            L4Event::new(
                ctx.now_ns,
                EventKind::OutOfOrder,
                Severity::Info,
                ctx.key,
                Ratio::whole(1),
                s,
            ),
        )
    }
}

pub struct DupAckDetector;

impl Detector for DupAckDetector {
    open spec fn rule(&self) -> RuleFn {
        stateless(|c: Scene| dup_ack_verdict(c))
    }

    open spec fn memory(&self) -> Seq<u64> {
        Seq::empty()
    }

    open spec fn label(&self) -> Seq<char> {
        "duplicate_ack"@
    }

    fn name(&self) -> (s: &'static str) {
        "duplicate_ack"
    }

    fn inspect(&mut self, ctx: &DetectCtx, pkt: &PacketMeta) -> (r: Option<L4Event>) {
        // Emit exactly once, when the burst reaches the configured threshold.
        if ctx.delta.is_dup_ack && ctx.delta.dup_ack_count == ctx.cfg().dup_ack_threshold {
            let mut s = text::decimal(ctx.delta.dup_ack_count as u128);
            s.append(" duplicate ACKs on ");
            s.append(ctx.key.to_text().as_str());
            s.append(" (fast-retransmit / loss signal)");
            return Some(
                L4Event::new(
                    ctx.now_ns,
                    EventKind::DuplicateAck,
                    Severity::Warning,
                    ctx.key,
                    Ratio::whole(ctx.delta.dup_ack_count as u64),
                    s,
                ),
            );
        }
        None
    }
}

pub struct ZeroWindowDetector;

impl Detector for ZeroWindowDetector {
    open spec fn rule(&self) -> RuleFn {
        stateless(|c: Scene| zero_window_verdict(c))
    }

    open spec fn memory(&self) -> Seq<u64> {
        Seq::empty()
    }

    open spec fn label(&self) -> Seq<char> {
        "zero_window"@
    }

    fn name(&self) -> (s: &'static str) {
        "zero_window"
    }

    fn inspect(&mut self, ctx: &DetectCtx, pkt: &PacketMeta) -> (r: Option<L4Event>) {
        if !ctx.delta.zero_window_edge {
            return None;
        }
        let mut s = "Zero receive window on ".to_owned();
        s.append(ctx.key.to_text().as_str());
        s.append(" — receiver stalled / app not draining");
        Some(
            L4Event::new(
                ctx.now_ns,
                EventKind::ZeroWindow,
                Severity::Warning,
                ctx.key,
                Ratio::whole(0),
                s,
            ),
        )
    }
}

pub struct HighRttDetector;

impl Detector for HighRttDetector {
    open spec fn rule(&self) -> RuleFn {
        stateless(|c: Scene| high_rtt_verdict(c))
    }

    open spec fn memory(&self) -> Seq<u64> {
        Seq::empty()
    }

    open spec fn label(&self) -> Seq<char> {
        "high_rtt"@
    }

    fn name(&self) -> (s: &'static str) {
        "high_rtt"
    }

    fn inspect(&mut self, ctx: &DetectCtx, pkt: &PacketMeta) -> (r: Option<L4Event>) {
        match ctx.delta.rtt_sample_ns {
            Some(rtt_ns) => {
                let rtt_ms = Ratio::scaled(rtt_ns, NS_PER_SEC, Scale::Thousand);
                let warn = &ctx.cfg().rtt_warn_ms;
                if !rtt_ms.reaches(warn) {
                    return None;
                }
                let sev = if rtt_ms.reaches_fourfold(warn) {
                    Severity::Warning
                } else {
                    Severity::Info
                };
                let mut s = "High handshake RTT on ".to_owned();
                s.append(ctx.key.to_text().as_str());
                s.append(": ");
                s.append(rtt_ms.fixed(0).as_str());
                s.append(" ms");
                Some(L4Event::new(ctx.now_ns, EventKind::HighRtt, sev, ctx.key, rtt_ms, s))
            },
            None => None,
        }
    }
}

pub struct HandshakeFailureDetector;

impl Detector for HandshakeFailureDetector {
    open spec fn rule(&self) -> RuleFn {
        stateless(|c: Scene| handshake_failure_verdict(c))
    }

    open spec fn memory(&self) -> Seq<u64> {
        Seq::empty()
    }

    open spec fn label(&self) -> Seq<char> {
        "handshake_failure"@
    }

    fn name(&self) -> (s: &'static str) {
        "handshake_failure"
    }

    fn inspect(&mut self, ctx: &DetectCtx, pkt: &PacketMeta) -> (r: Option<L4Event>) {
        if !ctx.delta.handshake_refused {
            return None;
        }
        let mut s = "Connection refused (RST during handshake) on ".to_owned();
        s.append(ctx.key.to_text().as_str());
        Some(
            L4Event::new(
                ctx.now_ns,
                EventKind::HandshakeFailure,
                Severity::Warning,
                ctx.key,
                Ratio::whole(1),
                s,
            ),
        )
    }
}

pub struct RstStormDetector {
    pub debounce: Debounce,
}

impl RstStormDetector {
    pub fn new(gap_secs: u64) -> (d: RstStormDetector)
        requires
            gap_secs <= MAX_SECS,
        ensures
            d.rule() == debounced(|c: Scene| rst_storm_verdict(c), (gap_secs * NS_PER_SEC) as u64),
            d.memory() == Seq::<u64>::empty(),
    {
        RstStormDetector { debounce: Debounce::new(gap_secs) }
    }
}

impl Detector for RstStormDetector {
    open spec fn rule(&self) -> RuleFn {
        debounced(|c: Scene| rst_storm_verdict(c), self.debounce.gap_ns)
    }

    open spec fn memory(&self) -> Seq<u64> {
        self.debounce.memory()
    }

    open spec fn label(&self) -> Seq<char> {
        "rst_storm"@
    }

    fn name(&self) -> (s: &'static str) {
        "rst_storm"
    }

    fn inspect(&mut self, ctx: &DetectCtx, pkt: &PacketMeta) -> (r: Option<L4Event>) {
        if !ctx.delta.rst {
            return None;
        }
        let rate = ctx.globals().rst_rate.per_sec(ctx.now_ns);
        if !rate.reaches(&ctx.cfg().rst_storm_per_sec) || !self.debounce.ready(ctx.now_ns) {
            return None;
        }
        let mut s = "RST storm: ".to_owned();
        s.append(rate.fixed(0).as_str());
        s.append(" resets/s host-wide (near ");
        s.append(ctx.key.to_text().as_str());
        s.append(")");
        Some(L4Event::new(ctx.now_ns, EventKind::RstStorm, Severity::Critical, ctx.key, rate, s))
    }
}

pub struct SynBacklogDetector {
    pub debounce: Debounce,
}

impl SynBacklogDetector {
    pub fn new(gap_secs: u64) -> (d: SynBacklogDetector)
        requires
            gap_secs <= MAX_SECS,
        ensures
            d.rule() == debounced(
                |c: Scene| syn_backlog_verdict(c),
                (gap_secs * NS_PER_SEC) as u64,
            ),
            d.memory() == Seq::<u64>::empty(),
    {
        SynBacklogDetector { debounce: Debounce::new(gap_secs) }
    }
}

impl Detector for SynBacklogDetector {
    open spec fn rule(&self) -> RuleFn {
        debounced(|c: Scene| syn_backlog_verdict(c), self.debounce.gap_ns)
    }

    open spec fn memory(&self) -> Seq<u64> {
        self.debounce.memory()
    }

    open spec fn label(&self) -> Seq<char> {
        "syn_backlog"@
    }

    fn name(&self) -> (s: &'static str) {
        "syn_backlog"
    }

    fn inspect(&mut self, ctx: &DetectCtx, pkt: &PacketMeta) -> (r: Option<L4Event>) {
        match ctx.flow() {
            Some(flow) => {
                let count: u32 = ctx.globals().half_open_for(&flow.service);
                if count < ctx.cfg().syn_backlog_threshold || !self.debounce.ready(ctx.now_ns) {
                    return None;
                }
                let mut s = "SYN backlog to ".to_owned();
                s.append(flow.service.to_text().as_str());
                s.append(": ");
                s.append(text::decimal(count as u128).as_str());
                s.append(" half-open connections (possible SYN flood / accept-queue exhaustion)");
                Some(
                    L4Event::new(
                        ctx.now_ns,
                        EventKind::SynBacklog,
                        Severity::Warning,
                        ctx.key,
                        Ratio::whole(count as u64),
                        s,
                    ),
                )
            },
            None => None,
        }
    }
}

pub struct ChurnDetector {
    pub debounce: Debounce,
}

impl ChurnDetector {
    pub fn new(gap_secs: u64) -> (d: ChurnDetector)
        requires
            gap_secs <= MAX_SECS,
        ensures
            d.rule() == debounced(|c: Scene| churn_verdict(c), (gap_secs * NS_PER_SEC) as u64),
            d.memory() == Seq::<u64>::empty(),
    {
        ChurnDetector { debounce: Debounce::new(gap_secs) }
    }
}

impl Detector for ChurnDetector {
    open spec fn rule(&self) -> RuleFn {
        debounced(|c: Scene| churn_verdict(c), self.debounce.gap_ns)
    }

    open spec fn memory(&self) -> Seq<u64> {
        self.debounce.memory()
    }

    open spec fn label(&self) -> Seq<char> {
        "connection_churn"@
    }

    fn name(&self) -> (s: &'static str) {
        "connection_churn"
    }

    fn inspect(&mut self, ctx: &DetectCtx, pkt: &PacketMeta) -> (r: Option<L4Event>) {
        if !ctx.delta.new_flow {
            return None;
        }
        let rate = ctx.globals().new_flow_rate.per_sec(ctx.now_ns);
        if !rate.reaches(&ctx.cfg().churn_per_sec) || !self.debounce.ready(ctx.now_ns) {
            return None;
        }
        let mut s = "Connection churn: ".to_owned();
        s.append(rate.fixed(0).as_str());
        s.append(" new flows/s host-wide");
        Some(
            L4Event::new(ctx.now_ns, EventKind::ConnectionChurn, Severity::Info, ctx.key, rate, s),
        )
    }
}

// ---------------------------------------------------------------------------
// The chain
// ---------------------------------------------------------------------------

/// One link of the detector chain.
pub struct Rule {
    pub detector: Box<dyn Detector>,
}

/// The rules of a chain.
pub open spec fn chain_rules(chain: Seq<Rule>) -> Seq<RuleFn> {
    chain.map_values(|r: Rule| r.detector.rule())
}

/// What the detectors of a chain remember.
pub open spec fn chain_memories(chain: Seq<Rule>) -> Seq<Seq<u64>> {
    chain.map_values(|r: Rule| r.detector.memory())
}

/// The events of the first `n` detectors of a chain on one packet, in the chain's order.
pub open spec fn verdicts(
    rules: Seq<RuleFn>,
    memories: Seq<Seq<u64>>,
    scene: Scene,
    pkt: PacketMeta,
    n: nat,
) -> Seq<EventView>
    decreases n,
{
    if n == 0 {
        Seq::empty()
    } else {
        let before = verdicts(rules, memories, scene, pkt, (n - 1) as nat);
        match rules[n - 1](memories[n - 1], scene, pkt).0 {
            Some(e) => before.push(e),
            None => before,
        }
    }
}

/// What the detectors of a chain remember after one packet.
pub open spec fn memories_after(
    rules: Seq<RuleFn>,
    memories: Seq<Seq<u64>>,
    scene: Scene,
    pkt: PacketMeta,
) -> Seq<Seq<u64>> {
    Seq::new(rules.len(), |i: int| rules[i](memories[i], scene, pkt).1)
}

/// The rules of the default chain, in evaluation order.
pub open spec fn default_rules(cfg: DetectView) -> Seq<RuleFn> {
    let gap = (cfg.alert_debounce_secs * NS_PER_SEC) as u64;
    seq![
        stateless(|c: Scene| retransmission_verdict(c)),
        stateless(|c: Scene| out_of_order_verdict(c)),
        stateless(|c: Scene| dup_ack_verdict(c)),
        stateless(|c: Scene| zero_window_verdict(c)),
        stateless(|c: Scene| high_rtt_verdict(c)),
        stateless(|c: Scene| handshake_failure_verdict(c)),
        debounced(|c: Scene| rst_storm_verdict(c), gap),
        debounced(|c: Scene| syn_backlog_verdict(c), gap),
        debounced(|c: Scene| churn_verdict(c), gap),
    ]
}

/// What the detectors of the default chain remember at first.
pub open spec fn default_memories() -> Seq<Seq<u64>> {
    seq![
        Seq::empty(),
        Seq::empty(),
        Seq::empty(),
        Seq::empty(),
        Seq::empty(),
        Seq::empty(),
        Seq::empty(),
        Seq::empty(),
        Seq::empty(),
    ]
}

fn link(chain: &mut Vec<Rule>, rule: Rule)
    ensures
        final(chain)@.len() == old(chain)@.len() + 1,
        final(chain)@[old(chain)@.len() as int] == rule,
        forall|i: int| 0 <= i < old(chain)@.len() ==> final(chain)@[i] == old(chain)@[i],
{
    chain.push(rule);
}

/// The default detector chain, in evaluation order.
pub fn default_detectors(cfg: &DetectConfig) -> (chain: Vec<Rule>)
    requires
        cfg.alert_debounce_secs <= MAX_SECS,
    ensures
        chain_rules(chain@) == default_rules(cfg@),
        chain_memories(chain@) == default_memories(),
{
    let gap: u64 = cfg.alert_debounce_secs;
    let mut chain: Vec<Rule> = Vec::new();
    link(&mut chain, Rule { detector: Box::new(RetransmissionDetector) });
    link(&mut chain, Rule { detector: Box::new(OutOfOrderDetector) });
    link(&mut chain, Rule { detector: Box::new(DupAckDetector) });
    link(&mut chain, Rule { detector: Box::new(ZeroWindowDetector) });
    link(&mut chain, Rule { detector: Box::new(HighRttDetector) });
    link(&mut chain, Rule { detector: Box::new(HandshakeFailureDetector) });
    link(&mut chain, Rule { detector: Box::new(RstStormDetector::new(gap)) });
    link(&mut chain, Rule { detector: Box::new(SynBacklogDetector::new(gap)) });
    link(&mut chain, Rule { detector: Box::new(ChurnDetector::new(gap)) });
    proof {
        assert(chain_rules(chain@) =~= default_rules(cfg@));
        assert(chain_memories(chain@) =~= default_memories());
    }
    chain
}

/// Hands one packet to every detector of a chain and collects the events.
pub fn inspect_all(chain: &mut Vec<Rule>, ctx: &DetectCtx, pkt: &PacketMeta) -> (out: Vec<L4Event>)
    requires
        ctx.wf(),
    ensures
        crate::types::event_views(out@) == verdicts(
            chain_rules(old(chain)@),
            chain_memories(old(chain)@),
            ctx@,
            *pkt,
            old(chain)@.len(),
        ),
        chain_rules(final(chain)@) == chain_rules(old(chain)@),
        chain_memories(final(chain)@) == memories_after(
            chain_rules(old(chain)@),
            chain_memories(old(chain)@),
            ctx@,
            *pkt,
        ),
{
    let mut out: Vec<L4Event> = Vec::new();
    let ghost rules = chain_rules(chain@);
    let ghost memories = chain_memories(chain@);
    let n: usize = chain.len();
    let mut i: usize = 0;
    proof {
        assert(crate::types::event_views(out@) =~= Seq::empty());
    }
    while i < n
        invariant
            ctx.wf(),
            i <= n,
            n == chain@.len(),
            n == rules.len(),
            n == memories.len(),
            chain_rules(chain@) == rules,
            forall|j: int|
                0 <= j < i ==> (#[trigger] chain@[j]).detector.memory() == rules[j](
                    memories[j],
                    ctx@,
                    *pkt,
                ).1,
            forall|j: int|
                i <= j < n ==> (#[trigger] chain@[j]).detector.memory() == memories[j],
            crate::types::event_views(out@) == verdicts(rules, memories, ctx@, *pkt, i as nat),
        decreases n - i,
    {
        let ghost before = chain@;
        let ghost events = out@;
        assert(chain_rules(before)[i as int] == before[i as int].detector.rule());
        let found = chain[i].detector.inspect(ctx, pkt);
        proof {
            assert(chain_rules(chain@) =~= rules) by {
                assert forall|j: int| 0 <= j < n implies chain_rules(chain@)[j] == rules[j] by {
                    assert(chain_rules(before)[j] == before[j].detector.rule());
                }
            }
        }
        if let Some(ev) = found {
            out.push(ev);
            proof {
                assert(crate::types::event_views(out@) =~= crate::types::event_views(events).push(
                    ev@,
                ));
            }
        }
        i = i + 1;
    }
    proof {
        assert(chain_memories(chain@) =~= memories_after(rules, memories, ctx@, *pkt));
    }
    out
}

} // verus!
