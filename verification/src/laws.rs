//! What holds of the flow table and the engine across packets and sweeps.

use vstd::prelude::*;

use crate::config::DetectView;
use crate::detectors;
use crate::detectors::Scene;
use crate::engine;
use crate::flow;
use crate::flow::{FlowState, PacketDelta, StateView, TcpState};
use crate::types::{Endpoint, EventView, FlowKey, PacketMeta, Protocol};

verus! {

/// A flow after some packets.
pub open spec fn flow_after(f: FlowState, pkts: Seq<PacketMeta>) -> FlowState
    decreases pkts.len(),
{
    if pkts.len() == 0 {
        f
    } else {
        flow_after(f, pkts.drop_last()).observed(pkts.last())
    }
}

/// Every packet's counters fit.
pub open spec fn room_along(f: FlowState, pkts: Seq<PacketMeta>) -> bool {
    forall|i: int|
        0 <= i < pkts.len() ==> flow_after(f, #[trigger] pkts.take(i)).room_for(pkts[i])
}

/// One thing that happens to the engine's memory.
pub ghost enum Turn {
    Packet(PacketMeta),
    Sweep(u64),
}

/// The engine's memory after some packets and sweeps.
pub open spec fn state_after(state: StateView, turns: Seq<Turn>) -> StateView
    decreases turns.len(),
{
    if turns.len() == 0 {
        state
    } else {
        let before = state_after(state, turns.drop_last());
        match turns.last() {
            Turn::Packet(pkt) => before.observed(pkt),
            Turn::Sweep(now) => before.swept(now),
        }
    }
}

/// The flow stays in the table throughout.
pub open spec fn kept_along(state: StateView, turns: Seq<Turn>, k: FlowKey) -> bool {
    forall|i: int|
        0 <= i <= turns.len() ==> state_after(state, #[trigger] turns.take(i)).flows.contains_key(k)
}

/// A duplicate-ACK burst is reported exactly once, when it reaches the threshold: on the
/// packet that reaches it, and on no later packet of the same run.
pub proof fn law_dup_ack_burst_reported_once(
    f: FlowState,
    first: PacketMeta,
    between: Seq<PacketMeta>,
    later: PacketMeta,
    threshold: u32,
)
    requires
        f.is_dup_ack(first),
        f.room_for(first),
        f.dup_acks_after(first) == threshold,
        room_along(f.observed(first), between),
        forall|i: int|
            0 <= i < between.len() && flow::is_bare_ack(#[trigger] between[i]) && between[i].dir
                == first.dir ==> between[i].ack == first.ack,
        later.dir == first.dir,
        later.ack == first.ack,
        flow_after(f.observed(first), between).room_for(later),
    ensures
        f.delta(first, false).is_dup_ack,
        f.delta(first, false).dup_ack_count == threshold,
        ({
            let d = flow_after(f.observed(first), between).delta(later, false);
            d.is_dup_ack ==> d.dup_ack_count != threshold
        }),
{
    lemma_run_grows(f.observed(first), first, between);
}

proof fn lemma_run_grows(f: FlowState, first: PacketMeta, pkts: Seq<PacketMeta>)
    requires
        room_along(f, pkts),
        f.last_ack[first.dir.slot()] == Some(first.ack),
        forall|i: int|
            0 <= i < pkts.len() && flow::is_bare_ack(#[trigger] pkts[i]) && pkts[i].dir == first.dir
                ==> pkts[i].ack == first.ack,
    ensures
        flow_after(f, pkts).last_ack[first.dir.slot()] == Some(first.ack),
        flow_after(f, pkts).dup_ack_count[first.dir.slot()] >= f.dup_ack_count[first.dir.slot()],
    decreases pkts.len(),
{
    if pkts.len() > 0 {
        let rest = pkts.drop_last();
        assert forall|i: int| 0 <= i < rest.len() implies flow_after(
            f,
            #[trigger] rest.take(i),
        ).room_for(rest[i]) by {
            assert(rest.take(i) =~= pkts.take(i));
        }
        assert forall|i: int|
            0 <= i < rest.len() && flow::is_bare_ack(#[trigger] rest[i]) && rest[i].dir
                == first.dir implies rest[i].ack == first.ack by {
            assert(rest[i] == pkts[i]);
        }
        lemma_run_grows(f, first, rest);
        assert(rest =~= pkts.take(pkts.len() - 1));
        assert(pkts.last() == pkts[pkts.len() - 1]);
        assert(flow_after(f, rest).room_for(pkts.last()));
    }
}

/// A completed handshake gives back its place in the backlog: request, acceptance and
/// acknowledgement of a new flow leave it established, with the round trip from request
/// to acceptance, and leave every service's half-open count as it was.
pub proof fn law_handshake_settles(
    state: StateView,
    syn: PacketMeta,
    synack: PacketMeta,
    ack: PacketMeta,
    service: Endpoint,
)
    requires
        state.consistent(),
        state.is_new_flow(syn),
        flow::count_at(state.half_open, flow::destination(syn)) < u32::MAX,
        flow::is_opening(syn),
        flow::is_accepting(synack),
        flow::is_ordinary(ack),
        ack.flags.holds(crate::types::TcpFlags::ACK),
        syn.key == synack.key,
        synack.key == ack.key,
    ensures
        ({
            let s1 = state.observed(syn);
            let s2 = s1.observed(synack);
            let s3 = s2.observed(ack);
            let f = s3.flows[syn.key];
            &&& flow::count_at(s1.half_open, flow::destination(syn)) == flow::count_at(
                state.half_open,
                flow::destination(syn),
            ) + 1
            &&& s2.delta(ack).established_now
            &&& f.established
            &&& f.rtt_ns == Some(flow::monus(synack.ts_nanos, syn.ts_nanos))
            &&& s1.delta(synack).rtt_sample_ns == f.rtt_ns
            &&& flow::count_at(s3.half_open, service) == flow::count_at(state.half_open, service)
        }),
{
}

/// A flow starts to count as half-open at its first request and at nothing else, a repeated
/// request adds nothing, and it stops at a reset, a FIN or the ACK that establishes it.
pub proof fn law_half_open_starts_and_ends(state: StateView, pkt: PacketMeta)
    requires
        state.consistent(),
    ensures
        ({
            let before = state.flow_before(pkt);
            let after = state.observed(pkt).flows[pkt.key];
            &&& !before.half_open_counted ==> (after.half_open_counted <==> flow::is_opening(pkt)
                && before.syn_time_ns is None)
            &&& before.half_open_counted ==> (after.half_open_counted <==> !(flow::is_reset(pkt)
                || flow::is_closing(pkt) || before.establishes(pkt)))
            &&& before.half_open_counted && flow::is_opening(pkt) ==> state.observed(pkt).half_open
                == state.half_open
        }),
{
    if !state.is_new_flow(pkt) {
        assert(state.flows.contains_key(pkt.key));
    }
}

/// The service of a flow is where its first request goes to, whatever it was taken for
/// before, and is counted there.
pub proof fn law_request_tells_the_service(state: StateView, syn: PacketMeta)
    requires
        state.consistent(),
        state.flow_before(syn).takes_request(syn),
        state.room_to_count(syn),
    ensures
        state.observed(syn).flows[syn.key].service == flow::destination(syn),
        state.delta(syn).service == Some(flow::destination(syn)),
        state.observed(syn).flows[syn.key].half_open_counted,
        flow::count_at(state.observed(syn).half_open, flow::destination(syn)) == flow::count_at(
            state.half_open,
            flow::destination(syn),
        ) + 1,
{
    if !state.is_new_flow(syn) {
        assert(state.flows.contains_key(syn.key));
    }
}

/// UDP packets only start flows: they are never retransmissions, resets or handshakes.
pub proof fn law_udp_only_starts_flows(state: StateView, pkt: PacketMeta)
    requires
        pkt.proto == Protocol::Udp,
    ensures
        state.delta(pkt) == (PacketDelta {
            new_flow: state.is_new_flow(pkt),
            service: Some(state.flow_before(pkt).service),
            ..PacketDelta::nothing()
        }),
        state.observed(pkt).half_open == state.half_open,
        state.observed(pkt).rst_rate == state.rst_rate,
{
}

/// A sweep keeps the half-open accounting exact.
pub proof fn law_sweep_keeps_consistent(state: StateView, now: u64)
    requires
        state.consistent(),
    ensures
        state.swept(now).consistent(),
{
    let next = state.swept(now);
    assert(next.flows.dom().subset_of(state.flows.dom()));
    vstd::set_lib::lemma_len_subset(next.flows.dom(), state.flows.dom());
    assert(next.half_open.dom() =~= state.half_open.dom());
    assert forall|service: Endpoint|
        #![trigger flow::count_at(next.half_open, service)]
        flow::count_at(next.half_open, service) == flow::half_open_flows(
            next.flows,
            service,
        ).len() by {
        let before = flow::half_open_flows(state.flows, service);
        let after = flow::half_open_flows(next.flows, service);
        assert(flow::count_at(state.half_open, service) == before.len());
        assert(before.subset_of(state.flows.dom()));
        vstd::set_lib::lemma_len_subset(before, state.flows.dom());
        assert(after.subset_of(before));
        vstd::set_lib::lemma_len_subset(after, before);
    }
}

/// The counters can take every packet.
pub open spec fn room_throughout(state: StateView, turns: Seq<Turn>) -> bool {
    forall|i: int|
        0 <= i < turns.len() ==> match turns[i] {
            Turn::Packet(pkt) => {
                let before = state_after(state, #[trigger] turns.take(i));
                before.flow_before(pkt).room_for(pkt) && before.room_to_count(pkt)
            },
            Turn::Sweep(_) => true,
        }
}

/// Half-open accounting stays exact through every run of packets and sweeps: each
/// service's counter is the number of its flows that are half-open.
pub proof fn law_accounting_is_always_exact(cfg: DetectView, turns: Seq<Turn>)
    requires
        room_throughout(StateView::empty(cfg), turns),
    ensures
        state_after(StateView::empty(cfg), turns).consistent(),
    decreases turns.len(),
{
    let none = StateView::empty(cfg);
    if turns.len() == 0 {
        flow::law_empty_is_consistent(cfg);
    } else {
        let rest = turns.drop_last();
        assert forall|i: int| 0 <= i < rest.len() implies match rest[i] {
            Turn::Packet(pkt) => {
                let before = state_after(none, #[trigger] rest.take(i));
                before.flow_before(pkt).room_for(pkt) && before.room_to_count(pkt)
            },
            Turn::Sweep(_) => true,
        } by {
            assert(rest.take(i) =~= turns.take(i));
            assert(rest[i] == turns[i]);
        }
        law_accounting_is_always_exact(cfg, rest);
        assert(rest =~= turns.take(turns.len() - 1));
        let before = state_after(none, turns.take(turns.len() - 1));
        match turns[turns.len() - 1] {
            Turn::Packet(pkt) => {
                flow::law_observed_keeps_consistent(before, pkt);
            },
            Turn::Sweep(now) => {
                law_sweep_keeps_consistent(before, now);
            },
        }
    }
}

/// Sweeping again at the same time, or for an earlier one, changes nothing and reports
/// nothing.
pub proof fn law_sweep_is_idempotent(
    state: StateView,
    now: u64,
    again: u64,
    events: Seq<EventView>,
)
    requires
        state.consistent(),
        again <= now,
        engine::is_timeout_report(state.swept(now), again, events),
    ensures
        state.swept(now).swept(again) == state.swept(now),
        events.len() == 0,
{
    let once = state.swept(now);
    let twice = once.swept(again);
    law_sweep_keeps_consistent(state, now);
    assert(once.unanswered(again) =~= Set::empty());
    assert(twice.flows =~= once.flows);
    assert(twice.half_open =~= once.half_open) by {
        assert forall|ep: Endpoint| once.half_open.contains_key(ep) implies twice.half_open[ep]
            == once.half_open[ep] by {
            assert(flow::count_at(once.half_open, ep) == flow::half_open_flows(
                once.flows,
                ep,
            ).len());
        }
    }
    let keys = choose|keys: Seq<FlowKey>| #[trigger]
        engine::lists(keys, once.unanswered(again)) && events == engine::timeout_events(
            once,
            again,
            keys,
        );
    if keys.len() > 0 {
        assert(keys.to_set().contains(keys[0]));
    }
}

/// After a sweep every flow left in the table was seen within the time-to-live, so the
/// table holds no more flows than were active in it.
pub proof fn law_sweep_bounds_the_table(state: StateView, now: u64, k: FlowKey)
    requires
        state.swept(now).flows.contains_key(k),
    ensures
        state.flows.contains_key(k),
        flow::monus(now, state.swept(now).flows[k].last_seen_ns) <= state.ttl_ns(),
{
}

/// A handshake timeout is reported once: a flow marked by a sweep is not due again as long
/// as it is in the table, whatever packets and sweeps follow.
pub proof fn law_timeout_reported_once(
    state: StateView,
    now: u64,
    k: FlowKey,
    turns: Seq<Turn>,
    later: u64,
)
    requires
        state.unanswered(now).contains(k),
        kept_along(state.swept(now), turns, k),
    ensures
        !state_after(state.swept(now), turns).unanswered(later).contains(k),
{
    assert(turns.take(0) =~= Seq::empty());
    lemma_flag_stays(state.swept(now), k, turns);
}

proof fn lemma_flag_stays(state: StateView, k: FlowKey, turns: Seq<Turn>)
    requires
        state.flows.contains_key(k),
        state.flows[k].handshake_timeout_flagged,
        kept_along(state, turns, k),
    ensures
        state_after(state, turns).flows[k].handshake_timeout_flagged,
    decreases turns.len(),
{
    if turns.len() > 0 {
        let rest = turns.drop_last();
        assert forall|i: int| 0 <= i <= rest.len() implies state_after(
            state,
            #[trigger] rest.take(i),
        ).flows.contains_key(k) by {
            assert(rest.take(i) =~= turns.take(i));
        }
        lemma_flag_stays(state, k, rest);
        assert(rest =~= turns.take(turns.len() - 1));
        assert(turns =~= turns.take(turns.len() as int));
        assert(state_after(state, rest).flows.contains_key(k));
        assert(state_after(state, turns).flows.contains_key(k));
    }
}

/// A flow that is reported as timed out no longer counts as half-open.
pub proof fn law_timeout_leaves_backlog(state: StateView, now: u64, k: FlowKey)
    requires
        state.unanswered(now).contains(k),
        state.swept(now).flows.contains_key(k),
    ensures
        !state.swept(now).flows[k].half_open_counted,
        state.swept(now).flows[k].handshake_timeout_flagged,
{
}

/// A reset refuses the handshake exactly while it is under way, and always ends the flow's
/// place in the backlog.
pub proof fn law_refusal_only_during_handshake(f: FlowState, pkt: PacketMeta, new_flow: bool)
    ensures
        f.delta(pkt, new_flow).handshake_refused <==> f.delta(pkt, new_flow).rst && (f.state
            == TcpState::SynSent || f.state == TcpState::SynAckSeen),
        f.delta(pkt, new_flow).rst ==> f.observed(pkt).state == TcpState::Reset && !f.observed(
            pkt,
        ).half_open_counted,
{
}

/// A segment is at most one of a retransmission and a gap, and neither where it starts at
/// the expected byte.
pub proof fn law_segment_is_behind_ahead_or_expected(f: FlowState, pkt: PacketMeta)
    ensures
        !(f.is_retransmit(pkt) && f.is_gap(pkt)),
        flow::is_data(pkt) && f.expected(pkt) == Some(pkt.seq) ==> !f.is_retransmit(pkt)
            && !f.is_gap(pkt),
{
}

/// Data that arrives in order is never a retransmission or a gap: after a segment at the
/// expected byte, the next is expected where it ends.
pub proof fn law_in_order_data_advances(f: FlowState, pkt: PacketMeta)
    requires
        flow::is_data(pkt),
        f.expected(pkt) == Some(pkt.seq),
        pkt.payload_len < 0x8000_0000,
    ensures
        f.observed(pkt).next_seq[pkt.dir.slot()] == Some(flow::seq_after(pkt.seq, pkt.payload_len)),
        f.observed(pkt).retransmits == f.retransmits,
{
    flow::law_seq_ahead(pkt.seq, pkt.payload_len);
}

/// A segment sent again right after it was taken in order counts as a retransmission.
pub proof fn law_repeated_segment_is_a_retransmission(f: FlowState, pkt: PacketMeta)
    requires
        flow::is_data(pkt),
        f.expected(pkt) == Some(pkt.seq),
        pkt.payload_len < 0x8000_0000,
    ensures
        f.observed(pkt).is_retransmit(pkt),
{
    law_in_order_data_advances(f, pkt);
    flow::law_seq_ahead(pkt.seq, pkt.payload_len);
    flow::law_seq_opposite(flow::seq_after(pkt.seq, pkt.payload_len), pkt.seq);
}

/// A zero window is reported on its edge: while the window stays closed, further packets
/// of that direction report nothing.
pub proof fn law_zero_window_reported_on_edge(
    f: FlowState,
    first: PacketMeta,
    between: Seq<PacketMeta>,
    later: PacketMeta,
)
    requires
        f.watches_window(first),
        first.window == 0,
        forall|i: int|
            0 <= i < between.len() && flow::is_ordinary(#[trigger] between[i]) && between[i].dir
                == first.dir ==> between[i].window == 0,
        later.dir == first.dir,
    ensures
        f.delta(first, false).zero_window_edge <==> !f.zero_window[first.dir.slot()],
        !flow_after(f.observed(first), between).delta(later, false).zero_window_edge,
{
    lemma_window_stays_closed(f.observed(first), first, between);
}

proof fn lemma_window_stays_closed(f: FlowState, first: PacketMeta, pkts: Seq<PacketMeta>)
    requires
        f.zero_window[first.dir.slot()],
        forall|i: int|
            0 <= i < pkts.len() && flow::is_ordinary(#[trigger] pkts[i]) && pkts[i].dir
                == first.dir ==> pkts[i].window == 0,
    ensures
        flow_after(f, pkts).zero_window[first.dir.slot()],
    decreases pkts.len(),
{
    if pkts.len() > 0 {
        let rest = pkts.drop_last();
        assert forall|i: int|
            0 <= i < rest.len() && flow::is_ordinary(#[trigger] rest[i]) && rest[i].dir
                == first.dir implies rest[i].window == 0 by {
            assert(rest[i] == pkts[i]);
        }
        lemma_window_stays_closed(f, first, rest);
        assert(pkts.last() == pkts[pkts.len() - 1]);
    }
}

/// Each direction of a flow is tracked on its own: a packet leaves what is remembered of
/// the other direction as it was.
pub proof fn law_directions_are_tracked_apart(f: FlowState, pkt: PacketMeta, other: int)
    requires
        0 <= other < 2,
        other != pkt.dir.slot(),
    ensures
        f.observed(pkt).next_seq[other] == f.next_seq[other],
        f.observed(pkt).last_ack[other] == f.last_ack[other],
        f.observed(pkt).dup_ack_count[other] == f.dup_ack_count[other],
        f.observed(pkt).zero_window[other] == f.zero_window[other],
{
}

/// There is one half-open counter for each service: a packet adds none but its flow's.
pub proof fn law_one_counter_for_each_service(state: StateView, pkt: PacketMeta, ep: Endpoint)
    requires
        state.observed(pkt).half_open.contains_key(ep),
    ensures
        state.half_open.contains_key(ep) || ep == state.observed(pkt).flows[pkt.key].service,
{
}

/// A sweep leaves a flow that is neither idle nor unanswered as it was.
pub proof fn law_sweep_keeps_active_flows(state: StateView, now: u64, k: FlowKey)
    requires
        state.flows.contains_key(k),
        !state.flows[k].is_idle(now, state.ttl_ns()),
        !state.flows[k].is_unanswered(now, state.timeout_ns()),
    ensures
        state.swept(now).flows.contains_key(k),
        state.swept(now).flows[k] == state.flows[k],
{
}

/// Detection is the same whatever captured the packet: the interface and the hop limit
/// play no part in the flow state, the delta or what the default detectors find.
pub proof fn law_detection_ignores_the_capture_path(
    view: engine::EngineView,
    pkt: PacketMeta,
    iface: u32,
    ttl: u8,
)
    requires
        view.rules == detectors::default_rules(view.state.cfg),
    ensures
        ({
            let other = PacketMeta { iface, ttl, ..pkt };
            &&& view.state.observed(other) == view.state.observed(pkt)
            &&& view.state.delta(other) == view.state.delta(pkt)
            &&& view.findings(other) == view.findings(pkt)
        }),
{
    let other = PacketMeta { iface, ttl, ..pkt };
    let before = view.state.flow_before(pkt);
    assert(before.observed(other) =~= before.observed(pkt));
    assert(view.state.observed(other) =~= view.state.observed(pkt));
    lemma_verdicts_ignore_packet(view, pkt, other, view.rules.len());
}

proof fn lemma_verdicts_ignore_packet(
    view: engine::EngineView,
    pkt: PacketMeta,
    other: PacketMeta,
    n: nat,
)
    requires
        view.rules == detectors::default_rules(view.state.cfg),
        n <= view.rules.len(),
    ensures
        detectors::verdicts(view.rules, view.memories, view.scene(pkt), pkt, n)
            == detectors::verdicts(view.rules, view.memories, view.scene(pkt), other, n),
    decreases n,
{
    if n > 0 {
        lemma_verdicts_ignore_packet(view, pkt, other, (n - 1) as nat);
    }
}

/// Every event that the default detectors find is about the packet's own flow and bears
/// the packet's time.
pub proof fn law_findings_concern_the_packet(
    view: engine::EngineView,
    pkt: PacketMeta,
    i: int,
)
    requires
        view.rules == detectors::default_rules(view.state.cfg),
        0 <= i < view.findings(pkt).len(),
    ensures
        view.findings(pkt)[i].key == pkt.key,
        view.findings(pkt)[i].ts_nanos == pkt.ts_nanos,
{
    lemma_verdicts_concern(view, pkt, view.rules.len(), i);
}

proof fn lemma_verdicts_concern(view: engine::EngineView, pkt: PacketMeta, n: nat, i: int)
    requires
        view.rules == detectors::default_rules(view.state.cfg),
        n <= view.rules.len(),
        0 <= i < detectors::verdicts(view.rules, view.memories, view.scene(pkt), pkt, n).len(),
    ensures
        ({
            let e = detectors::verdicts(view.rules, view.memories, view.scene(pkt), pkt, n)[i];
            e.key == pkt.key && e.ts_nanos == pkt.ts_nanos
        }),
    decreases n,
{
    let scene: Scene = view.scene(pkt);
    if n > 0 {
        let before = detectors::verdicts(
            view.rules,
            view.memories,
            scene,
            pkt,
            (n - 1) as nat,
        );
        if i < before.len() {
            lemma_verdicts_concern(view, pkt, (n - 1) as nat, i);
        }
    }
}

} // verus!
