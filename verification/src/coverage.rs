//! What the synthetic traffic raises: every kind of event, under the default settings.

use vstd::arithmetic::power2::pow2;
use vstd::prelude::*;

use crate::binary;
use crate::binary::Double;
use crate::config::{ConfigView, DetectView};
use crate::detectors;
use crate::detectors::{RuleFn, Scene};
use crate::engine;
use crate::engine::EngineView;
use crate::flow;
use crate::flow::{FlowState, TcpState};
use crate::number;
use crate::number::{Ratio, Scale};
use crate::synthetic;
use crate::synthetic::{script, MS, SEC, START};
use crate::types::{
    Direction, Endpoint, EventKind, EventView, FlowKey, PacketMeta, Protocol, TcpFlags,
};
use crate::window;
use crate::window::NS_PER_SEC;

verus! {

// ---------------------------------------------------------------------------
// Runs
// ---------------------------------------------------------------------------

/// An engine after some packets.
pub open spec fn engine_after(v: EngineView, pkts: Seq<PacketMeta>) -> EngineView
    decreases pkts.len(),
{
    if pkts.len() == 0 {
        v
    } else {
        engine_after(v, pkts.drop_last()).processed(pkts.last())
    }
}

/// Whatever the engine answers the packet with holds an event of the kind.
pub open spec fn raises(v: EngineView, pkt: PacketMeta, kind: EventKind) -> bool {
    forall|events: Seq<EventView>| #[trigger]
        v.answers(pkt, events) ==> exists|j: int|
            0 <= j < events.len() && (#[trigger] events[j]).kind == kind
}

/// Some packet of the run raises an event of the kind.
pub open spec fn raised_along(v: EngineView, pkts: Seq<PacketMeta>, kind: EventKind) -> bool {
    exists|i: int|
        0 <= i < pkts.len() && raises(engine_after(v, #[trigger] pkts.take(i)), pkts[i], kind)
}

/// The default settings of detection.
pub open spec fn settings() -> DetectView {
    ConfigView::defaults().detect
}

/// The script, told packet by packet below.
#[verifier::opaque]
spec fn play() -> Seq<PacketMeta> {
    script()
}

/// A new engine after the first `i` packets of the script.
spec fn at(i: int) -> EngineView {
    engine_after(EngineView::fresh(settings()), play().take(i))
}

/// Some packet of the script before `i` raises an event of the kind.
spec fn told_before(i: int, kind: EventKind) -> bool {
    exists|j: int| 0 <= j < i && raises(#[trigger] at(j), play()[j], kind)
}

proof fn lemma_next(i: int)
    requires
        0 <= i < play().len(),
    ensures
        at(i + 1) == at(i).processed(play()[i]),
        at(i).rules == detectors::default_rules(settings()),
        at(i).memories.len() == 9,
        at(i).state.cfg == settings(),
        at(i).state.rst_rate.window == 1,
        at(i).state.new_flow_rate.window == 1,
    decreases i,
{
    assert(play().take(i + 1).drop_last() =~= play().take(i));
    assert(play().take(i + 1).last() == play()[i]);
    if i == 0 {
        assert(play().take(0) =~= Seq::empty());
    } else {
        lemma_next(i - 1);
    }
}

/// What a rule of the chain finds is among the engine's findings.
proof fn lemma_found(
    rules: Seq<RuleFn>,
    memories: Seq<Seq<u64>>,
    scene: Scene,
    pkt: PacketMeta,
    j: int,
    n: nat,
)
    requires
        0 <= j < n <= rules.len(),
        rules[j](memories[j], scene, pkt).0 is Some,
    ensures
        detectors::verdicts(rules, memories, scene, pkt, n).contains(
            rules[j](memories[j], scene, pkt).0->0,
        ),
    decreases n,
{
    let all = detectors::verdicts(rules, memories, scene, pkt, n);
    let before = detectors::verdicts(rules, memories, scene, pkt, (n - 1) as nat);
    let e = rules[j](memories[j], scene, pkt).0->0;
    if j == n - 1 {
        assert(all[before.len() as int] == e);
    } else {
        lemma_found(rules, memories, scene, pkt, j, (n - 1) as nat);
        let i = choose|i: int| 0 <= i < before.len() && before[i] == e;
        assert(all[i] == e);
    }
}

proof fn lemma_rule_raises(v: EngineView, pkt: PacketMeta, j: int, kind: EventKind)
    requires
        0 <= j < v.rules.len(),
        v.rules[j](v.memories[j], v.scene(pkt), pkt).0 is Some,
        v.rules[j](v.memories[j], v.scene(pkt), pkt).0->0.kind == kind,
    ensures
        raises(v, pkt, kind),
{
    let found = v.findings(pkt);
    let e = v.rules[j](v.memories[j], v.scene(pkt), pkt).0->0;
    lemma_found(v.rules, v.memories, v.scene(pkt), pkt, j, v.rules.len());
    let i = choose|i: int| 0 <= i < found.len() && found[i] == e;
    assert forall|events: Seq<EventView>| #[trigger] v.answers(pkt, events) implies exists|k: int|
        0 <= k < events.len() && (#[trigger] events[k]).kind == kind by {
        assert(events.take(found.len() as int)[i] == events[i]);
    }
}

/// A debounced detector that remembers speaking has spoken.
proof fn lemma_spoke(
    i: int,
    j: int,
    verdict: spec_fn(Scene) -> Option<EventView>,
    gap_ns: u64,
    kind: EventKind,
)
    requires
        0 <= i <= play().len(),
        0 <= j < 9,
        detectors::default_rules(settings())[j] == detectors::debounced(verdict, gap_ns),
        forall|c: Scene| (#[trigger] verdict(c)) is Some ==> verdict(c)->0.kind == kind,
        at(i).memories[j].len() > 0,
    ensures
        told_before(i, kind),
    decreases i,
{
    assert(play().take(0) =~= Seq::empty());
    if i > 0 {
        lemma_next(i - 1);
        let v = at(i - 1);
        let pkt = play()[i - 1];
        if v.memories[j].len() > 0 {
            lemma_spoke(i - 1, j, verdict, gap_ns, kind);
        } else {
            assert(at(i).memories[j] == v.rules[j](v.memories[j], v.scene(pkt), pkt).1);
            lemma_rule_raises(v, pkt, j, kind);
            assert(raises(at(i - 1), play()[i - 1], kind));
        }
    }
}

/// A debounced detector whose condition holds has spoken by then.
proof fn lemma_debounced_raises(
    i: int,
    j: int,
    verdict: spec_fn(Scene) -> Option<EventView>,
    gap_ns: u64,
    kind: EventKind,
)
    requires
        0 <= i < play().len(),
        0 <= j < 9,
        detectors::default_rules(settings())[j] == detectors::debounced(verdict, gap_ns),
        forall|c: Scene| (#[trigger] verdict(c)) is Some ==> verdict(c)->0.kind == kind,
        verdict(at(i).scene(play()[i])) is Some,
    ensures
        told_before(i + 1, kind),
{
    lemma_next(i);
    if at(i).memories[j].len() > 0 {
        lemma_spoke(i, j, verdict, gap_ns, kind);
    } else {
        lemma_rule_raises(at(i), play()[i], j, kind);
        assert(raises(at(i), play()[i], kind));
    }
}

/// What is told before some packet of the script is raised along the script.
proof fn lemma_told_is_raised(i: int, kind: EventKind)
    requires
        0 <= i <= play().len(),
        told_before(i, kind),
    ensures
        raised_along(EngineView::fresh(settings()), script(), kind),
{
    reveal(play);
    let j = choose|j: int| 0 <= j < i && raises(#[trigger] at(j), play()[j], kind);
    assert(raises(
        engine_after(EngineView::fresh(settings()), play().take(j)),
        play()[j],
        kind,
    ));
}

// ---------------------------------------------------------------------------
// The script, packet by packet
// ---------------------------------------------------------------------------

/// The packets of one conversation between ephemeral port `c` and service port `s`.
spec fn between_ports(k: FlowKey, c: int, s: int) -> bool {
    (k.low.port == c && k.high.port == s) || (k.low.port == s && k.high.port == c)
}

/// The client's port of the script's packet `i`.
spec fn client_port(i: int) -> int {
    if i < 3 {
        40001
    } else if i < 15 {
        40002
    } else if i < 19 {
        40003
    } else if i < 99 {
        50000 + (i - 19) / 2
    } else if i < 319 {
        20000 + (i - 99)
    } else if i < 399 {
        60000 + (i - 319)
    } else {
        40009
    }
}

/// The service's port of the script's packet `i`.
spec fn service_port(i: int) -> int {
    if i < 3 {
        443
    } else if i < 15 {
        80
    } else if i < 19 {
        5432
    } else if i < 99 {
        8080
    } else if i < 319 {
        53
    } else if i < 399 {
        3306
    } else {
        22
    }
}

proof fn lemma_entries(i: int)
    requires
        0 <= i < 400,
    ensures
        play().len() == 400,
        0 <= i < 3 ==> play()[i] == synthetic::high_rtt()[i],
        3 <= i < 6 ==> play()[i] == synthetic::retransmissions()[i - 3],
        6 <= i < 10 ==> play()[i] == synthetic::resent()[i - 6],
        10 <= i < 14 ==> play()[i] == synthetic::duplicate_acks()[i - 10],
        i == 14 ==> play()[i] == synthetic::ahead(),
        15 <= i < 19 ==> play()[i] == synthetic::zero_window()[i - 15],
        19 <= i < 99 ==> play()[i] == synthetic::rst_storm()[i - 19],
        99 <= i < 319 ==> play()[i] == synthetic::lookup(i - 99),
        319 <= i < 399 ==> play()[i] == synthetic::syn_backlog()[i - 319],
        i == 399 ==> play()[i] == synthetic::late_packet(),
{
    let a = synthetic::high_rtt() + synthetic::retransmissions() + synthetic::duplicate_acks();
    assert(synthetic::retransmissions().len() == 7);
    assert(a.len() == 14);
    let b = a.push(synthetic::ahead()) + synthetic::zero_window();
    assert(b.len() == 19);
    let c = b + synthetic::rst_storm();
    let d = c + synthetic::churn();
    let e = d + synthetic::syn_backlog();
    reveal(play);
    assert(play() == e.push(synthetic::late_packet()));
}

proof fn lemma_ports(i: int)
    requires
        0 <= i < 400,
    ensures
        between_ports(play()[i].key, client_port(i), service_port(i)),
        play()[i].key.proto == play()[i].proto,
        play()[i].proto == (if 99 <= i < 319 {
            Protocol::Udp
        } else {
            Protocol::Tcp
        }),
{
    lemma_entries(i);
    if 19 <= i < 99 {
        assert(synthetic::rst_storm()[i - 19] == if (i - 19) % 2 == 0 {
            synthetic::refused_request((i - 19) / 2)
        } else {
            synthetic::refusal((i - 19) / 2)
        });
    }
}

/// A conversation of the script has a client port of its own: before its first packet it
/// is not in the table.
proof fn lemma_not_yet(i: int)
    requires
        0 <= i < 400,
        forall|j: int| 0 <= j < i ==> #[trigger] client_port(j) != client_port(i),
    ensures
        !at(i).state.flows.contains_key(play()[i].key),
{
    lemma_entries(i);
    lemma_ports(i);
    assert forall|j: int| 0 <= j < i implies (#[trigger] play()[j]).key != play()[i].key by {
        lemma_ports(j);
        assert(client_port(j) != client_port(i));
    }
    lemma_absent(play()[i].key, i);
}

proof fn lemma_flags()
    ensures
        TcpFlags(TcpFlags::SYN).opens(),
        !TcpFlags(TcpFlags::SYN).accepts(),
        TcpFlags(TcpFlags::SYN | TcpFlags::ACK).accepts(),
        !TcpFlags(TcpFlags::SYN | TcpFlags::ACK).opens(),
        !TcpFlags(TcpFlags::ACK).holds(TcpFlags::SYN),
        !TcpFlags(TcpFlags::ACK).holds(TcpFlags::RST),
        !TcpFlags(TcpFlags::ACK).holds(TcpFlags::FIN),
        TcpFlags(TcpFlags::ACK).holds(TcpFlags::ACK),
        !TcpFlags(TcpFlags::ACK | TcpFlags::PSH).holds(TcpFlags::SYN),
        !TcpFlags(TcpFlags::ACK | TcpFlags::PSH).holds(TcpFlags::RST),
        !TcpFlags(TcpFlags::ACK | TcpFlags::PSH).holds(TcpFlags::FIN),
        TcpFlags(TcpFlags::ACK | TcpFlags::PSH).holds(TcpFlags::ACK),
        !TcpFlags(TcpFlags::RST | TcpFlags::ACK).holds(TcpFlags::SYN),
        TcpFlags(TcpFlags::RST | TcpFlags::ACK).holds(TcpFlags::RST),
{
    assert(2u8 & 2u8 == 2u8 && 2u8 & 16u8 == 0u8) by (bit_vector);
    assert((2u8 | 16u8) & 2u8 == 2u8 && (2u8 | 16u8) & 16u8 == 16u8) by (bit_vector);
    assert(16u8 & 2u8 == 0u8 && 16u8 & 4u8 == 0u8 && 16u8 & 1u8 == 0u8 && 16u8 & 16u8 == 16u8)
        by (bit_vector);
    assert((16u8 | 8u8) & 2u8 == 0u8 && (16u8 | 8u8) & 4u8 == 0u8 && (16u8 | 8u8) & 1u8 == 0u8
        && (16u8 | 8u8) & 16u8 == 16u8) by (bit_vector);
    assert((4u8 | 16u8) & 2u8 == 0u8 && (4u8 | 16u8) & 4u8 == 4u8) by (bit_vector);
}

// ---------------------------------------------------------------------------
// One flow
// ---------------------------------------------------------------------------

/// After a packet its flow is in the table as the packet leaves it, unless a sweep finds
/// its request unanswered.
proof fn lemma_own_flow(v: EngineView, pkt: PacketMeta)
    requires
        v.state.cfg == settings(),
        !v.state.flow_before(pkt).observed(pkt).is_unanswered(pkt.ts_nanos, 3_000_000_000),
    ensures
        v.processed(pkt).state.flows.contains_key(pkt.key),
        v.processed(pkt).state.flows[pkt.key] == v.state.flow_before(pkt).observed(pkt),
{
    let state = v.state.observed(pkt);
    assert(state.timeout_ns() == 3_000_000_000);
    assert(state.flows[pkt.key] == v.state.flow_before(pkt).observed(pkt));
}

/// The flow of the script's packet `i`, before and after it.
proof fn lemma_flow_next(i: int)
    requires
        0 <= i < 400,
        !at(i).state.flow_before(play()[i]).observed(play()[i]).is_unanswered(
            play()[i].ts_nanos,
            3_000_000_000,
        ),
    ensures
        at(i + 1).state.flows.contains_key(play()[i].key),
        at(i + 1).state.flows[play()[i].key] == at(i).state.flow_before(play()[i]).observed(
            play()[i],
        ),
{
    lemma_entries(i);
    lemma_next(i);
    lemma_own_flow(at(i), play()[i]);
}

/// A flow that no packet of the script belonged to so far is not in the table.
proof fn lemma_absent(k: FlowKey, i: int)
    requires
        0 <= i <= play().len(),
        forall|j: int| 0 <= j < i ==> (#[trigger] play()[j]).key != k,
    ensures
        !at(i).state.flows.contains_key(k),
    decreases i,
{
    assert(play().take(0) =~= Seq::empty());
    if i > 0 {
        lemma_absent(k, i - 1);
        lemma_next(i - 1);
        assert(play()[i - 1].key != k);
    }
}

/// A round trip of 300 ms is not below the threshold of 250 ms.
proof fn lemma_long_round_trip()
    ensures
        (Ratio { num: 300_000_000, den: NS_PER_SEC, scale: Scale::Thousand }).at_least(
            settings().rtt_warn_ms,
        ),
{
    reveal(Ratio::at_least);
    binary::lemma_bits();
    vstd::arithmetic::power2::lemma2_to64();
    vstd::arithmetic::power2::lemma2_to64_rest();
    assert(pow2(2) == 4 && pow2(10) == 1024 && pow2(45) == 0x2000_0000_0000);
    assert(pow2(62) == 0x4000_0000_0000_0000 && pow2(63) == 0x8000_0000_0000_0000);
    // 0.3 s in units of 2^-54, and 300 ms in units of 2^-44.
    let seconds = binary::quotient(300_000_000, 1_000_000_000);
    assert(binary::is_unit(300_000_000, 1_000_000_000, -54));
    binary::lemma_unit_unique(300_000_000, 1_000_000_000, -54);
    assert(300_000_000 * pow2(54) == 5404319552844595200000000);
    assert(binary::units(300_000_000, 1_000_000_000, -54) == 5404319552844595);
    assert(seconds == (Double { mantissa: 5404319552844595, exponent: -54 }));
    assert(binary::is_unit(5404319552844595000, 1, 10));
    binary::lemma_unit_unique(5404319552844595000, 1, 10);
    assert(binary::units(5404319552844595000, 1, 10) == 5277655813324800);
    assert(binary::times(seconds, 1000) == (Double { mantissa: 5277655813324800, exponent: -44 }));
    assert(number::pow10(0) == 1);
}

proof fn lemma_high_rtt()
    ensures
        told_before(2, EventKind::HighRtt),
{
    lemma_flags();
    lemma_entries(0);
    lemma_entries(1);
    lemma_next(0);
    lemma_next(1);
    lemma_not_yet(0);
    lemma_own_flow(at(0), play()[0]);
    let v = at(1);
    let pkt = play()[1];
    assert(pkt.key == play()[0].key);
    assert(v.state.flows[pkt.key].syn_time_ns == Some(START));
    assert(v.scene(pkt).delta.rtt_sample_ns == Some(300_000_000u64));
    lemma_long_round_trip();
    lemma_rule_raises(v, pkt, 4, EventKind::HighRtt);
    assert(raises(at(1), play()[1], EventKind::HighRtt));
}

/// An established flow of the script, of which the client (the low endpoint) is expected to
/// go on at `next` and the server has acknowledged nothing on its own.
spec fn is_set_up(f: FlowState, next: u32) -> bool {
    &&& f.established
    &&& f.state == TcpState::Established
    &&& f.next_seq[0] == Some(next)
    &&& f.last_ack[1] is None
    &&& f.dup_ack_count[1] == 0
    &&& !f.zero_window[0]
    &&& f.data_segments == 0
    &&& f.retransmits == 0
}

/// The three packets from `b` on are a handshake that sets a flow up.
proof fn lemma_set_up(b: int, start: int, server_port: int, client_seq: int, server_seq: int)
    requires
        b == 3 || b == 15,
        0 <= client_seq < 10000,
        0 <= server_seq < 10000,
        START <= start <= START + 2 * SEC,
        forall|i: int|
            0 <= i < 3 ==> #[trigger] play()[b + i] == synthetic::handshake(
                start,
                MS as int,
                2 * MS,
                (synthetic::host(0, 5), client_port(b)),
                (synthetic::host(0, 9), server_port),
                client_seq,
                server_seq,
            )[i],
    ensures
        at(b + 3).state.flows.contains_key(play()[b].key),
        is_set_up(at(b + 3).state.flows[play()[b].key], (client_seq + 1) as u32),
        play()[b].dir == Direction::Forward,
        play()[b].key == FlowKey::canonical_of(
            Endpoint { ip: synthetic::host(0, 5), port: client_port(b) as u16 },
            Endpoint { ip: synthetic::host(0, 9), port: server_port as u16 },
            Protocol::Tcp,
        ).0,
{
    lemma_flags();
    lemma_entries(b);
    let (p0, p1, p2) = (play()[b + 0], play()[b + 1], play()[b + 2]);
    assert(p0 == play()[b]);
    lemma_not_yet(b);
    lemma_flow_next(b);
    let f1 = at(b + 1).state.flows[p0.key];
    assert(f1.syn_time_ns == Some(p0.ts_nanos) && f1.state == TcpState::SynSent);
    assert(f1.next_seq[0] == Some((client_seq + 1) as u32));
    assert(p1.key == p0.key && p1.dir == Direction::Reverse);
    lemma_flow_next(b + 1);
    let f2 = at(b + 2).state.flows[p0.key];
    assert(f2.state == TcpState::SynAckSeen);
    assert(f2.next_seq[0] == Some((client_seq + 1) as u32));
    assert(p2.key == p0.key && p2.dir == Direction::Forward);
    lemma_flow_next(b + 2);
}

/// The flow that resends, repeats itself and leaves a gap, before packet `i`.
spec fn resender(i: int) -> FlowState {
    at(i).state.flows[play()[3].key]
}

proof fn lemma_resender(i: int)
    requires
        6 <= i <= 14,
    ensures
        at(i).state.flows.contains_key(play()[3].key),
        i < 14 ==> play()[i].key == play()[3].key,
        ({
            let f = resender(i);
            &&& f.established
            &&& f.state == TcpState::Established
            &&& f.next_seq[0] == Some(if i == 6 {
                2001u32
            } else {
                2201u32
            })
            &&& f.data_segments == (if i <= 10 {
                i - 6
            } else {
                4
            })
            &&& f.retransmits == (if i <= 7 {
                0
            } else if i <= 10 {
                i - 7
            } else {
                3
            })
            &&& f.last_ack[1] == (if i <= 10 {
                None
            } else {
                Some(2201u32)
            })
            &&& f.dup_ack_count[1] == (if i <= 11 {
                0
            } else {
                i - 11
            })
        }),
    decreases i,
{
    lemma_flags();
    lemma_entries(3);
    assert forall|j: int| 0 <= j < 3 implies #[trigger] play()[3 + j] == synthetic::handshake(
        START + 400 * MS,
        MS as int,
        2 * MS,
        (synthetic::host(0, 5), client_port(3)),
        (synthetic::host(0, 9), 80),
        2000,
        9000,
    )[j] by {
        lemma_entries(3 + j);
    }
    lemma_set_up(3, START + 400 * MS, 80, 2000, 9000);
    if i < 14 {
        lemma_entries(i);
    }
    if i > 6 {
        let pkt = play()[i - 1];
        lemma_resender(i - 1);
        lemma_entries(i - 1);
        lemma_flow_next(i - 1);
        assert(resender(i) == resender(i - 1).observed(pkt));
        if i <= 10 {
            assert(pkt.dir == Direction::Forward);
            assert(flow::is_data(pkt));
            assert(flow::seq_after(2001, 200) == 2201);
            assert(flow::seq_distance(2001, 2201) == -200);
            assert(flow::seq_distance(2201, 2201) == 0);
            assert(flow::seq_distance(2201, 2001) == 200);
        } else {
            assert(pkt.dir == Direction::Reverse);
            assert(flow::is_bare_ack(pkt));
        }
    }
}

proof fn lemma_retransmission()
    ensures
        told_before(8, EventKind::Retransmission),
{
    lemma_flags();
    lemma_entries(7);
    lemma_resender(7);
    lemma_next(7);
    let v = at(7);
    let pkt = play()[7];
    assert(flow::is_data(pkt) && pkt.dir == Direction::Forward);
    assert(flow::seq_distance(2001, 2201) == -200);
    let f = v.scene(pkt).state.flows[pkt.key];
    assert(f == resender(7).observed(pkt));
    assert(f.retransmits == 1 && f.data_segments == 2);
    reveal_with_fuel(number::pow10, 3);
    assert(number::pow10(2) == 100);
    number::law_exact_quotients_reach(1, 2, 5, -2);
    assert(v.scene(pkt).delta.is_retransmit);
    lemma_rule_raises(v, pkt, 0, EventKind::Retransmission);
    assert(raises(at(7), play()[7], EventKind::Retransmission));
}

proof fn lemma_duplicate_ack()
    ensures
        told_before(14, EventKind::DuplicateAck),
{
    lemma_flags();
    lemma_entries(13);
    lemma_resender(13);
    lemma_next(13);
    let v = at(13);
    let pkt = play()[13];
    assert(flow::is_bare_ack(pkt) && pkt.dir == Direction::Reverse);
    assert(v.scene(pkt).delta.dup_ack_count == 3);
    lemma_rule_raises(v, pkt, 2, EventKind::DuplicateAck);
    assert(raises(at(13), play()[13], EventKind::DuplicateAck));
}

proof fn lemma_out_of_order()
    ensures
        told_before(15, EventKind::OutOfOrder),
{
    lemma_flags();
    lemma_entries(3);
    lemma_entries(14);
    lemma_resender(14);
    lemma_next(14);
    let v = at(14);
    let pkt = play()[14];
    assert(pkt.key == play()[3].key);
    assert(flow::is_data(pkt) && pkt.dir == Direction::Forward);
    assert(flow::seq_distance(2401, 2201) == 200);
    assert(v.scene(pkt).delta.is_out_of_order);
    lemma_rule_raises(v, pkt, 1, EventKind::OutOfOrder);
    assert(raises(at(14), play()[14], EventKind::OutOfOrder));
}

proof fn lemma_zero_window()
    ensures
        told_before(19, EventKind::ZeroWindow),
{
    lemma_flags();
    assert forall|j: int| 0 <= j < 3 implies #[trigger] play()[15 + j] == synthetic::handshake(
        START + 2 * SEC,
        MS as int,
        2 * MS,
        (synthetic::host(0, 5), client_port(15)),
        (synthetic::host(0, 9), 5432),
        3000,
        7000,
    )[j] by {
        lemma_entries(15 + j);
    }
    lemma_set_up(15, START + 2 * SEC, 5432, 3000, 7000);
    lemma_entries(18);
    lemma_next(18);
    let v = at(18);
    let pkt = play()[18];
    assert(pkt.key == play()[15].key && pkt.dir == Direction::Forward);
    assert(v.scene(pkt).delta.zero_window_edge);
    lemma_rule_raises(v, pkt, 3, EventKind::ZeroWindow);
    assert(raises(at(18), play()[18], EventKind::ZeroWindow));
}

proof fn lemma_handshake_failure()
    ensures
        told_before(21, EventKind::HandshakeFailure),
{
    lemma_flags();
    lemma_entries(19);
    lemma_entries(20);
    lemma_next(19);
    lemma_next(20);
    lemma_not_yet(19);
    assert(play()[19] == synthetic::refused_request(0));
    assert(play()[20] == synthetic::refusal(0));
    lemma_own_flow(at(19), play()[19]);
    let v = at(20);
    let pkt = play()[20];
    assert(pkt.key == play()[19].key);
    assert(v.state.flows[pkt.key].state == TcpState::SynSent);
    assert(v.scene(pkt).delta.handshake_refused);
    lemma_rule_raises(v, pkt, 5, EventKind::HandshakeFailure);
    assert(raises(at(20), play()[20], EventKind::HandshakeFailure));
}

// ---------------------------------------------------------------------------
// Rates
// ---------------------------------------------------------------------------

/// The second in which the storm and the churn fall.
spec fn busy_second() -> nat {
    1_700_000_003
}

proof fn lemma_busy(i: int)
    requires
        19 <= i < 319,
    ensures
        window::second_of(play()[i].ts_nanos) == busy_second(),
        19 <= i < 99 && (i - 19) % 2 == 1 ==> flow::is_reset(play()[i]),
        i < 99 ==> play()[i] == (if (i - 19) % 2 == 0 {
            synthetic::refused_request((i - 19) / 2)
        } else {
            synthetic::refusal((i - 19) / 2)
        }),
{
    lemma_flags();
    lemma_entries(i);
}

/// A rate counts no more events for a second than there were packets.
proof fn lemma_rates_bounded(i: int)
    requires
        0 <= i < 400,
    ensures
        (at(i).state.rst_rate.held)(busy_second()) <= i,
        (at(i).state.new_flow_rate.held)(busy_second()) <= i,
    decreases i,
{
    lemma_entries(0);
    if i == 0 {
        assert(play().take(0) =~= Seq::empty());
    } else {
        lemma_rates_bounded(i - 1);
        lemma_next(i - 1);
    }
}

/// The rate over one second is what is held for it.
proof fn lemma_rate_of_second(rate: window::RateView, now: u64)
    requires
        rate.window == 1,
        window::second_of(now) == busy_second(),
    ensures
        rate.count(now) == (rate.held)(busy_second()),
{
    assert(window::held_sum(rate.held, busy_second(), 0) == 0);
    assert(window::held_sum(rate.held, busy_second(), 1) == (rate.held)(busy_second()));
}

proof fn lemma_resets_counted(i: int)
    requires
        19 <= i <= 99,
    ensures
        (at(i).state.rst_rate.held)(busy_second()) >= (i - 19) / 2,
    decreases i,
{
    lemma_entries(0);
    if i > 19 {
        lemma_resets_counted(i - 1);
        lemma_next(i - 1);
        lemma_busy(i - 1);
    }
}

proof fn lemma_rst_storm()
    ensures
        told_before(59, EventKind::RstStorm),
{
    let i = 58int;
    lemma_entries(i);
    lemma_next(i);
    lemma_busy(i);
    lemma_resets_counted(i);
    lemma_rates_bounded(i);
    let v = at(i);
    let pkt = play()[i];
    let scene = v.scene(pkt);
    assert(scene.state.rst_rate == v.state.rst_rate.recorded(pkt.ts_nanos));
    lemma_rate_of_second(scene.state.rst_rate, pkt.ts_nanos);
    let count = scene.state.rst_rate.count(pkt.ts_nanos);
    assert(20 <= count <= 400);
    assert(number::pow10(0) == 1);
    number::law_exact_quotients_reach(count as u64, 1, 20, 0);
    let verdict = |c: Scene| detectors::rst_storm_verdict(c);
    assert(verdict(scene) is Some);
    lemma_debounced_raises(i, 6, verdict, 10_000_000_000, EventKind::RstStorm);
}

proof fn lemma_flows_counted(i: int)
    requires
        99 <= i <= 319,
    ensures
        (at(i).state.new_flow_rate.held)(busy_second()) >= i - 99,
    decreases i,
{
    lemma_entries(0);
    if i > 99 {
        lemma_flows_counted(i - 1);
        lemma_next(i - 1);
        lemma_busy(i - 1);
        lemma_not_yet(i - 1);
    }
}

proof fn lemma_churn()
    ensures
        told_before(299, EventKind::ConnectionChurn),
{
    let i = 298int;
    lemma_entries(i);
    lemma_next(i);
    lemma_busy(i);
    lemma_flows_counted(i);
    lemma_rates_bounded(i);
    lemma_not_yet(i);
    let v = at(i);
    let pkt = play()[i];
    let scene = v.scene(pkt);
    assert(scene.state.new_flow_rate == v.state.new_flow_rate.recorded(pkt.ts_nanos));
    lemma_rate_of_second(scene.state.new_flow_rate, pkt.ts_nanos);
    let count = scene.state.new_flow_rate.count(pkt.ts_nanos);
    assert(200 <= count <= 400);
    assert(number::pow10(0) == 1);
    number::law_exact_quotients_reach(count as u64, 1, 200, 0);
    let verdict = |c: Scene| detectors::churn_verdict(c);
    assert(verdict(scene) is Some);
    lemma_debounced_raises(i, 8, verdict, 10_000_000_000, EventKind::ConnectionChurn);
}

// ---------------------------------------------------------------------------
// Unanswered requests
// ---------------------------------------------------------------------------

/// The time of the first request that goes unanswered.
spec fn backlog_start() -> u64 {
    1_700_000_005_000_000_000
}

/// The service that answers nothing.
spec fn backlogged() -> Endpoint {
    Endpoint { ip: synthetic::host(0, 9), port: 3306 }
}

/// Nothing is known of the backlogged service.
spec fn is_unheard_of(v: EngineView) -> bool {
    &&& forall|k: FlowKey| #[trigger]
        v.state.flows.contains_key(k) ==> v.state.flows[k].service.port != 3306
    &&& !v.state.half_open.contains_key(backlogged())
}

/// A packet between other ports tells nothing of the backlogged service.
proof fn lemma_stays_unheard_of(v: EngineView, pkt: PacketMeta)
    requires
        is_unheard_of(v),
        pkt.key.low.port != 3306,
        pkt.key.high.port != 3306,
    ensures
        is_unheard_of(v.processed(pkt)),
{
    let f = v.state.flow_before(pkt);
    assert(f.service.port != 3306);
    assert(f.observed(pkt).service.port != 3306);
    let state = v.state.observed(pkt);
    assert forall|k: FlowKey| #[trigger] state.flows.contains_key(k) implies state.flows[k].service.port
        != 3306 by {
        if k != pkt.key {
            assert(v.state.flows.contains_key(k));
        }
    }
    assert(!state.half_open.contains_key(backlogged()));
}

proof fn lemma_early(i: int)
    requires
        0 <= i < 319,
    ensures
        play()[i].ts_nanos <= backlog_start() - SEC,
{
    lemma_entries(i);
    if 19 <= i < 99 {
        lemma_busy(i);
    }
}

/// Before the backlog nothing is known of its service, and the last sweep is a second old.
proof fn lemma_before_backlog(i: int)
    requires
        0 <= i <= 319,
    ensures
        at(i).last_sweep_ns <= backlog_start() - SEC,
        is_unheard_of(at(i)),
    decreases i,
{
    lemma_entries(0);
    if i == 0 {
        assert(play().take(0) =~= Seq::empty());
    } else {
        lemma_before_backlog(i - 1);
        lemma_next(i - 1);
        lemma_ports(i - 1);
        lemma_early(i - 1);
        lemma_stays_unheard_of(at(i - 1), play()[i - 1]);
    }
}

/// The request that packet `319 + j` makes.
proof fn lemma_request(j: int)
    requires
        0 <= j < 80,
    ensures
        ({
            let pkt = play()[319 + j];
            &&& flow::is_opening(pkt)
            &&& flow::destination(pkt) == backlogged()
            &&& pkt.ts_nanos == backlog_start() + j * MS
            &&& !at(319 + j).state.flows.contains_key(pkt.key)
        }),
{
    lemma_flags();
    lemma_entries(319 + j);
    lemma_not_yet(319 + j);
}

/// After `j` of its requests the backlogged service counts `j` half-open connections, and
/// the first request is still waiting.
proof fn lemma_backlog_grows(j: int)
    requires
        1 <= j <= 80,
    ensures
        at(319 + j).last_sweep_ns == backlog_start(),
        flow::count_at(at(319 + j).state.half_open, backlogged()) == j,
        at(319 + j).state.flows.contains_key(play()[319].key),
        at(319 + j).state.flows[play()[319].key].state == TcpState::SynSent,
        at(319 + j).state.flows[play()[319].key].syn_time_ns == Some(backlog_start()),
        !at(319 + j).state.flows[play()[319].key].handshake_timeout_flagged,
    decreases j,
{
    let i = 319 + j - 1;
    let pkt = play()[i];
    let v = at(i);
    lemma_entries(i);
    lemma_next(i);
    lemma_request(j - 1);
    let state = v.state.observed(pkt);
    let f = state.flows[pkt.key];
    assert(f.half_open_counted && f.service == backlogged());
    if j == 1 {
        lemma_before_backlog(319);
        lemma_own_flow(v, pkt);
        let swept = state.swept(pkt.ts_nanos);
        assert(state.half_open.contains_key(backlogged()));
        assert(flow::half_open_flows(state.swept_flows(pkt.ts_nanos), backlogged())
            =~= set![pkt.key]) by {
            assert forall|k: FlowKey|
                flow::half_open_flows(
                    state.swept_flows(pkt.ts_nanos),
                    backlogged(),
                ).contains(k) implies k == pkt.key by {
                if k != pkt.key {
                    assert(v.state.flows.contains_key(k));
                }
            }
            assert(swept.flows[pkt.key] == f);
        }
        assert(swept.half_open[backlogged()] == 1);
    } else {
        lemma_backlog_grows(j - 1);
        lemma_ports(i);
        lemma_ports(319);
        assert(pkt.key != play()[319].key);
        assert(!v.sweep_due(pkt));
        assert(v.state.half_open.contains_key(backlogged()));
    }
}

proof fn lemma_syn_backlog()
    ensures
        told_before(383, EventKind::SynBacklog),
{
    let i = 382int;
    lemma_entries(i);
    lemma_next(i);
    lemma_backlog_grows(63);
    lemma_request(63);
    let v = at(i);
    let pkt = play()[i];
    let scene = v.scene(pkt);
    assert(scene.state.flows[pkt.key].service == backlogged());
    assert(flow::count_at(scene.state.half_open, backlogged()) == 64);
    let verdict = |c: Scene| detectors::syn_backlog_verdict(c);
    assert(verdict(scene) is Some);
    lemma_debounced_raises(i, 7, verdict, 10_000_000_000, EventKind::SynBacklog);
}

proof fn lemma_handshake_timeout()
    ensures
        told_before(400, EventKind::HandshakeTimeout),
{
    lemma_entries(399);
    lemma_entries(319);
    lemma_next(399);
    lemma_backlog_grows(80);
    lemma_ports(319);
    lemma_ports(399);
    let v = at(399);
    let pkt = play()[399];
    let state = v.state.observed(pkt);
    let first = play()[319].key;
    assert(pkt.ts_nanos == backlog_start() + 10 * SEC);
    assert(first != pkt.key);
    assert(v.sweep_due(pkt));
    assert(state.timeout_ns() == 3_000_000_000);
    assert(state.unanswered(pkt.ts_nanos).contains(first));
    assert forall|events: Seq<EventView>| #[trigger] v.answers(pkt, events) implies exists|j: int|
        0 <= j < events.len() && (#[trigger] events[j]).kind == EventKind::HandshakeTimeout by {
        let n = v.findings(pkt).len() as int;
        let report = events.skip(n);
        assert(engine::is_timeout_report(state, pkt.ts_nanos, report));
        let keys = choose|keys: Seq<FlowKey>| #[trigger]
            engine::lists(keys, state.unanswered(pkt.ts_nanos)) && report
                == engine::timeout_events(state, pkt.ts_nanos, keys);
        assert(keys.to_set().contains(first));
        let j = choose|j: int| 0 <= j < keys.len() && keys[j] == first;
        assert(report.len() == keys.len());
        assert(report[j] == engine::timeout_event(pkt.ts_nanos, first, state.flows[first]));
        assert(events[n + j] == report[j]);
    }
    assert(raises(at(399), play()[399], EventKind::HandshakeTimeout));
}

// ---------------------------------------------------------------------------
// Coverage
// ---------------------------------------------------------------------------

/// The synthetic traffic trips every detector: played to a new engine with the default
/// settings, the script raises events of every kind.
pub proof fn law_script_raises_every_kind(kind: EventKind)
    ensures
        raised_along(EngineView::fresh(settings()), script(), kind),
{
    lemma_entries(0);
    match kind {
        EventKind::Retransmission => {
            lemma_retransmission();
            lemma_told_is_raised(8, kind);
        },
        EventKind::OutOfOrder => {
            lemma_out_of_order();
            lemma_told_is_raised(15, kind);
        },
        EventKind::DuplicateAck => {
            lemma_duplicate_ack();
            lemma_told_is_raised(14, kind);
        },
        EventKind::ZeroWindow => {
            lemma_zero_window();
            lemma_told_is_raised(19, kind);
        },
        EventKind::HandshakeFailure => {
            lemma_handshake_failure();
            lemma_told_is_raised(21, kind);
        },
        EventKind::HandshakeTimeout => {
            lemma_handshake_timeout();
            lemma_told_is_raised(400, kind);
        },
        EventKind::HighRtt => {
            lemma_high_rtt();
            lemma_told_is_raised(2, kind);
        },
        EventKind::RstStorm => {
            lemma_rst_storm();
            lemma_told_is_raised(59, kind);
        },
        EventKind::SynBacklog => {
            lemma_syn_backlog();
            lemma_told_is_raised(383, kind);
        },
        EventKind::ConnectionChurn => {
            lemma_churn();
            lemma_told_is_raised(299, kind);
        },
    }
}

} // verus!
