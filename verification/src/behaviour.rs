//! What the flow tracker says of a packet, in terms of the packet's own fields.

use vstd::prelude::*;

use crate::flow;
use crate::flow::{FlowState, StateView, TcpState};
use crate::laws;
use crate::types::{Direction, Endpoint, PacketMeta, Protocol};

verus! {

/// A bit of the packet's TCP flags is set.
pub open spec fn bit(pkt: PacketMeta, mask: u8) -> bool {
    pkt.flags.0 & mask != 0
}

/// The packet is a TCP segment with neither SYN (0x02) nor RST (0x04).
pub open spec fn in_stream(pkt: PacketMeta) -> bool {
    pkt.proto == Protocol::Tcp && !bit(pkt, 0x02) && !bit(pkt, 0x04)
}

/// The slot of the packet's direction.
pub open spec fn side(pkt: PacketMeta) -> int {
    if pkt.dir == Direction::Forward {
        0
    } else {
        1
    }
}

/// How far `a` lies past `b`, walking up the ring of sequence numbers.
pub open spec fn past(a: int, b: int) -> int {
    (a - b) % 0x1_0000_0000
}

// ---------------------------------------------------------------------------
// Data
// ---------------------------------------------------------------------------

proof fn lemma_ring(a: u32, b: u32)
    ensures
        flow::seq_distance(a, b) < 0 <==> past(a as int, b as int) >= 0x8000_0000,
        flow::seq_distance(a, b) > 0 <==> 0 < past(a as int, b as int) < 0x8000_0000,
{
}

proof fn lemma_ring_end(a: u32, n: u32, b: u32)
    ensures
        flow::seq_after(a, n) == (a + n) % 0x1_0000_0000,
        past(flow::seq_after(a, n) as int, b as int) == past(a + n, b as int),
{
}

/// A data segment repeats data exactly where it starts in the half of the ring behind the
/// expected byte, however far behind, and leaves a gap exactly where it starts in the half
/// ahead. It is counted, a repetition also as such, and the expected byte moves up to the
/// segment's end where that lies ahead.
pub proof fn law_data_is_compared_with_the_expected_byte(
    f: FlowState,
    pkt: PacketMeta,
    expected: u32,
    new_flow: bool,
)
    requires
        in_stream(pkt),
        pkt.payload_len > 0,
        f.next_seq[side(pkt)] == Some(expected),
        f.retransmits <= f.data_segments < u64::MAX,
    ensures
        ({
            let start = past(pkt.seq as int, expected as int);
            let end = past(pkt.seq + pkt.payload_len, expected as int);
            let d = f.delta(pkt, new_flow);
            let g = f.observed(pkt);
            &&& d.is_retransmit <==> start >= 0x8000_0000
            &&& d.is_out_of_order <==> 0 < start < 0x8000_0000
            &&& g.retransmits == f.retransmits + (if start >= 0x8000_0000 {
                1int
            } else {
                0int
            })
            &&& g.data_segments == f.data_segments + 1
            &&& g.next_seq[side(pkt)] == Some(
                if 0 < end < 0x8000_0000 {
                    ((pkt.seq + pkt.payload_len) % 0x1_0000_0000) as u32
                } else {
                    expected
                },
            )
        }),
{
    let after = flow::seq_after(pkt.seq, pkt.payload_len);
    lemma_ring(pkt.seq, expected);
    lemma_ring_end(pkt.seq, pkt.payload_len, expected);
    lemma_ring(after, expected);
    assert(f.expected(pkt) == Some(expected));
}

/// The first data of a direction is neither a repetition nor a gap, and what follows it is
/// expected next.
pub proof fn law_first_data_sets_the_expected_byte(f: FlowState, pkt: PacketMeta, new_flow: bool)
    requires
        in_stream(pkt),
        pkt.payload_len > 0,
        f.next_seq[side(pkt)] is None,
        f.data_segments < u64::MAX,
    ensures
        !f.delta(pkt, new_flow).is_retransmit,
        !f.delta(pkt, new_flow).is_out_of_order,
        f.observed(pkt).data_segments == f.data_segments + 1,
        f.observed(pkt).retransmits == f.retransmits,
        f.observed(pkt).next_seq[side(pkt)] == Some(
            ((pkt.seq + pkt.payload_len) % 0x1_0000_0000) as u32,
        ),
{
}

/// A packet without data for the stream repeats nothing, leaves no gap and counts for
/// nothing; only a SYN moves the expected byte, to the one behind it.
pub proof fn law_without_data_nothing_is_compared(f: FlowState, pkt: PacketMeta, new_flow: bool)
    requires
        !in_stream(pkt) || pkt.payload_len == 0,
    ensures
        !f.delta(pkt, new_flow).is_retransmit,
        !f.delta(pkt, new_flow).is_out_of_order,
        f.observed(pkt).data_segments == f.data_segments,
        f.observed(pkt).retransmits == f.retransmits,
        f.observed(pkt).next_seq[side(pkt)] == (if pkt.proto == Protocol::Tcp && bit(pkt, 0x02) {
            Some(((pkt.seq + 1) % 0x1_0000_0000) as u32)
        } else {
            f.next_seq[side(pkt)]
        }),
{
}

/// The bytes that some packets carry.
pub open spec fn carried(pkts: Seq<PacketMeta>) -> nat
    decreases pkts.len(),
{
    if pkts.len() == 0 {
        0
    } else {
        carried(pkts.drop_last()) + pkts.last().payload_len as nat
    }
}

/// The packets are data segments of one direction, each starting where the one before it
/// ends, the first at `start`.
pub open spec fn is_run(pkts: Seq<PacketMeta>, dir: Direction, start: u32) -> bool {
    forall|i: int|
        0 <= i < pkts.len() ==> {
            &&& in_stream(#[trigger] pkts[i])
            &&& pkts[i].payload_len > 0
            &&& pkts[i].dir == dir
            &&& pkts[i].seq == (start + carried(pkts.take(i))) % 0x1_0000_0000
        }
}

/// Where a direction's counts stand after some in-order data.
#[verifier::opaque]
spec fn stands_at(f: FlowState, dir: Direction, expected: int, repeats: int,
    segments: int) -> bool {
    &&& 0 <= expected < 0x1_0000_0000
    &&& f.next_seq[if dir == Direction::Forward {
        0int
    } else {
        1int
    }] == Some(expected as u32)
    &&& f.retransmits == repeats
    &&& f.data_segments == segments
}

proof fn lemma_in_order_step(
    f: FlowState,
    pkt: PacketMeta,
    dir: Direction,
    expected: int,
    repeats: int,
    segments: int,
)
    requires
        stands_at(f, dir, expected, repeats, segments),
        in_stream(pkt),
        0 < pkt.payload_len < 0x8000_0000,
        pkt.dir == dir,
        pkt.seq == expected,
        repeats <= segments < u64::MAX,
    ensures
        stands_at(
            after_one(f, pkt),
            dir,
            (expected + pkt.payload_len) % 0x1_0000_0000,
            repeats,
            segments + 1,
        ),
{
    reveal(stands_at);
    reveal(after_one);
    law_data_is_compared_with_the_expected_byte(f, pkt, expected as u32, false);
    assert(past(pkt.seq as int, expected) == 0);
    assert(past(pkt.seq + pkt.payload_len, expected) == pkt.payload_len);
}

proof fn lemma_prefix(run: Seq<PacketMeta>, dir: Direction, start: u32)
    requires
        is_run(run, dir, start),
        run.len() > 0,
    ensures
        is_run(run.drop_last(), dir, start),
        in_stream(run.last()),
        0 < run.last().payload_len,
        run.last().dir == dir,
        run.last().seq == (start + carried(run.drop_last())) % 0x1_0000_0000,
        carried(run) == carried(run.drop_last()) + run.last().payload_len,
{
    let rest = run.drop_last();
    let n = rest.len() as int;
    assert forall|i: int| 0 <= i < rest.len() implies {
        &&& in_stream(#[trigger] rest[i])
        &&& rest[i].payload_len > 0
        &&& rest[i].dir == dir
        &&& rest[i].seq == (start + carried(rest.take(i))) % 0x1_0000_0000
    } by {
        assert(rest[i] == run[i]);
        assert(rest.take(i) =~= run.take(i));
    }
    assert(rest =~= run.take(n));
    assert(in_stream(run[n]));
}

proof fn lemma_after_step(start: int, before: int, len: int)
    requires
        0 <= start < 0x1_0000_0000,
        0 <= before,
        0 <= len,
    ensures
        ((start + before) % 0x1_0000_0000 + len) % 0x1_0000_0000 == (start + (before + len))
            % 0x1_0000_0000,
{
    let m = 0x1_0000_0000int;
    let q = (start + before) / m;
    let r = (start + before) % m;
    assert(start + before == m * q + r);
    vstd::arithmetic::div_mod::lemma_mod_multiples_vanish(q, r + len, m);
}

/// The flow after some packets, as one value.
#[verifier::opaque]
spec fn after_all(f: FlowState, pkts: Seq<PacketMeta>) -> FlowState {
    laws::flow_after(f, pkts)
}

/// The flow after one packet, as one value.
#[verifier::opaque]
spec fn after_one(f: FlowState, pkt: PacketMeta) -> FlowState {
    f.observed(pkt)
}

proof fn lemma_after_last(f: FlowState, pkts: Seq<PacketMeta>)
    ensures
        after_all(f, pkts) == (if pkts.len() == 0 {
            f
        } else {
            after_one(after_all(f, pkts.drop_last()), pkts.last())
        }),
{
    reveal(after_all);
    reveal(after_one);
}

/// A run, as one condition.
#[verifier::opaque]
spec fn runs(pkts: Seq<PacketMeta>, dir: Direction, start: u32) -> bool {
    is_run(pkts, dir, start)
}

/// Where on the ring the bytes of some packets end that start at `start`.
#[verifier::opaque]
spec fn end_of(start: u32, pkts: Seq<PacketMeta>) -> int {
    (start + carried(pkts)) % 0x1_0000_0000
}

proof fn lemma_run_step(
    f: FlowState,
    run: Seq<PacketMeta>,
    dir: Direction,
    start: u32,
    repeats: int,
    segments: int,
)
    requires
        runs(run, dir, start),
        run.len() > 0,
        carried(run) < 0x8000_0000,
        stands_at(f, dir, end_of(start, run.drop_last()), repeats, segments),
        repeats <= segments < u64::MAX,
    ensures
        stands_at(after_one(f, run.last()), dir, end_of(start, run), repeats, segments + 1),
{
    reveal(runs);
    reveal(end_of);
    lemma_prefix(run, dir, start);
    let rest = run.drop_last();
    let pkt = run.last();
    lemma_in_order_step(f, pkt, dir, end_of(start, rest), repeats, segments);
    lemma_after_step(start as int, carried(rest) as int, pkt.payload_len as int);
}

proof fn lemma_run(
    f: FlowState,
    run: Seq<PacketMeta>,
    dir: Direction,
    start: u32,
    repeats: int,
    segments: int,
)
    requires
        runs(run, dir, start),
        carried(run) < 0x8000_0000,
        stands_at(f, dir, start as int, repeats, segments),
        repeats <= segments,
        segments + run.len() <= u64::MAX,
    ensures
        stands_at(after_all(f, run), dir, end_of(start, run), repeats, segments + run.len()),
    decreases run.len(),
{
    lemma_after_last(f, run);
    if run.len() == 0 {
        assert(end_of(start, run) == start) by {
            reveal(end_of);
        }
    } else {
        let rest = run.drop_last();
        assert(runs(rest, dir, start)) by {
            reveal(runs);
            lemma_prefix(run, dir, start);
        }
        lemma_run(f, rest, dir, start, repeats, segments);
        lemma_run_step(
            after_all(f, rest),
            run,
            dir,
            start,
            repeats,
            segments + rest.len(),
        );
    }
}

proof fn lemma_behind(start: int, whole: int, part: int, len: int)
    requires
        0 <= start < 0x1_0000_0000,
        0 <= part,
        0 < len,
        part + len <= whole < 0x8000_0000,
    ensures
        past((start + part) % 0x1_0000_0000, (start + whole) % 0x1_0000_0000) >= 0x8000_0000,
        ({
            let end = past(
                (start + part) % 0x1_0000_0000 + len,
                (start + whole) % 0x1_0000_0000,
            );
            end == 0 || end >= 0x8000_0000
        }),
{
}

proof fn lemma_repeat_step(
    f: FlowState,
    pkt: PacketMeta,
    dir: Direction,
    expected: int,
    repeats: int,
    segments: int,
)
    requires
        stands_at(f, dir, expected, repeats, segments),
        in_stream(pkt),
        pkt.payload_len > 0,
        pkt.dir == dir,
        past(pkt.seq as int, expected) >= 0x8000_0000,
        past(pkt.seq + pkt.payload_len, expected) == 0 || past(
            pkt.seq + pkt.payload_len,
            expected,
        ) >= 0x8000_0000,
        repeats <= segments < u64::MAX,
    ensures
        f.delta(pkt, false).is_retransmit,
        !f.delta(pkt, false).is_out_of_order,
        f.observed(pkt).retransmits == repeats + 1,
        f.observed(pkt).next_seq == f.next_seq,
{
    reveal(stands_at);
    law_data_is_compared_with_the_expected_byte(f, pkt, expected as u32, false);
    assert(f.observed(pkt).next_seq =~= f.next_seq);
}

proof fn lemma_carried_split(pkts: Seq<PacketMeta>, i: int)
    requires
        0 <= i < pkts.len(),
    ensures
        carried(pkts.take(i)) + pkts[i].payload_len <= carried(pkts),
    decreases pkts.len(),
{
    if i == pkts.len() - 1 {
        assert(pkts.take(i) =~= pkts.drop_last());
    } else {
        lemma_carried_split(pkts.drop_last(), i);
        assert(pkts.drop_last().take(i) =~= pkts.take(i));
    }
}

/// After any run of in-order segments that spans less than half the ring, none of which
/// counted as a repetition, sending any one of them again is a retransmission and raises
/// the flow's count by one.
pub proof fn law_resent_segment_is_noticed(
    f: FlowState,
    run: Seq<PacketMeta>,
    dir: Direction,
    start: u32,
    i: int,
    again: PacketMeta,
)
    requires
        is_run(run, dir, start),
        carried(run) < 0x8000_0000,
        f.next_seq[if dir == Direction::Forward {
            0int
        } else {
            1int
        }] == Some(start),
        f.retransmits <= f.data_segments,
        f.data_segments + run.len() < u64::MAX,
        0 <= i < run.len(),
        in_stream(again),
        again.dir == dir,
        again.seq == run[i].seq,
        again.payload_len == run[i].payload_len,
    ensures
        ({
            let g = laws::flow_after(f, run);
            &&& g.retransmits == f.retransmits
            &&& g.delta(again, false).is_retransmit
            &&& !g.delta(again, false).is_out_of_order
            &&& g.observed(again).retransmits == f.retransmits + 1
            &&& g.observed(again).next_seq == g.next_seq
        }),
{
    let repeats = f.retransmits as int;
    let segments = f.data_segments as int;
    assert(stands_at(f, dir, start as int, repeats, segments)) by {
        reveal(stands_at);
    }
    assert(runs(run, dir, start)) by {
        reveal(runs);
    }
    lemma_run(f, run, dir, start, repeats, segments);
    lemma_carried_split(run, i);
    reveal(end_of);
    reveal(after_all);
    let g = laws::flow_after(f, run);
    let whole = carried(run) as int;
    let part = carried(run.take(i)) as int;
    assert(in_stream(run[i]) && run[i].payload_len > 0);
    lemma_behind(start as int, whole, part, run[i].payload_len as int);
    lemma_repeat_step(
        g,
        again,
        dir,
        (start + whole) % 0x1_0000_0000,
        repeats,
        segments + run.len(),
    );
    assert(g.retransmits == f.retransmits) by {
        reveal(stands_at);
    }
}

// ---------------------------------------------------------------------------
// Acknowledgements and windows
// ---------------------------------------------------------------------------

/// A bare acknowledgement (ACK, no FIN, no data) that repeats the last of its direction
/// makes the run of duplicates one longer; any other starts a new run.
pub proof fn law_bare_acks_are_compared(f: FlowState, pkt: PacketMeta, new_flow: bool)
    requires
        in_stream(pkt),
        bit(pkt, 0x10),
        !bit(pkt, 0x01),
        pkt.payload_len == 0,
        f.dup_ack_count[side(pkt)] < u32::MAX,
    ensures
        ({
            let d = f.delta(pkt, new_flow);
            let g = f.observed(pkt);
            let i = side(pkt);
            &&& g.last_ack[i] == Some(pkt.ack)
            &&& if f.last_ack[i] == Some(pkt.ack) {
                &&& d.is_dup_ack
                &&& d.dup_ack_count == f.dup_ack_count[i] + 1
                &&& g.dup_ack_count[i] == f.dup_ack_count[i] + 1
            } else {
                &&& !d.is_dup_ack
                &&& d.dup_ack_count == 0
                &&& g.dup_ack_count[i] == 0
            }
        }),
{
}

/// Nothing but a bare acknowledgement takes part in runs of duplicates.
pub proof fn law_other_packets_are_no_duplicates(f: FlowState, pkt: PacketMeta, new_flow: bool)
    requires
        !in_stream(pkt) || !bit(pkt, 0x10) || bit(pkt, 0x01) || pkt.payload_len > 0,
    ensures
        !f.delta(pkt, new_flow).is_dup_ack,
        f.delta(pkt, new_flow).dup_ack_count == 0,
        f.observed(pkt).last_ack == f.last_ack,
        f.observed(pkt).dup_ack_count[0] == f.dup_ack_count[0],
        f.observed(pkt).dup_ack_count[1] == f.dup_ack_count[1],
{
}

/// On a connection that is established or closing, the window of every packet in the
/// stream is remembered, and a drop to zero is told of; elsewhere it is not looked at.
pub proof fn law_windows_are_watched(f: FlowState, pkt: PacketMeta, new_flow: bool)
    ensures
        ({
            let active = in_stream(pkt) && (f.established || f.state == TcpState::Closing || bit(
                pkt,
                0x01,
            ) || (f.state == TcpState::SynAckSeen && bit(pkt, 0x10)));
            let i = side(pkt);
            &&& f.delta(pkt, new_flow).zero_window_edge <==> active && pkt.window == 0
                && !f.zero_window[i]
            &&& f.observed(pkt).zero_window[i] == (if active {
                pkt.window == 0
            } else {
                f.zero_window[i]
            })
            &&& f.observed(pkt).zero_window[1 - i] == f.zero_window[1 - i]
        }),
{
}

// ---------------------------------------------------------------------------
// Connections
// ---------------------------------------------------------------------------

/// The first SYN of a flow is remembered with its time, makes its destination the service
/// and the flow half-open; a later one changes none of that.
pub proof fn law_requests_are_remembered(f: FlowState, pkt: PacketMeta, new_flow: bool)
    requires
        pkt.proto == Protocol::Tcp,
        bit(pkt, 0x02),
        !bit(pkt, 0x10),
        f.half_open_counted ==> f.syn_time_ns is Some,
    ensures
        ({
            let g = f.observed(pkt);
            let to = if pkt.dir == Direction::Forward {
                pkt.key.high
            } else {
                pkt.key.low
            };
            &&& if f.syn_time_ns is None {
                &&& g.syn_time_ns == Some(pkt.ts_nanos)
                &&& g.state == TcpState::SynSent
                &&& g.service == to
                &&& g.half_open_counted
            } else {
                &&& g.syn_time_ns == f.syn_time_ns
                &&& g.state == f.state
                &&& g.service == f.service
                &&& g.half_open_counted == f.half_open_counted
            }
            &&& g.established == f.established
            &&& g.rtt_ns == f.rtt_ns
            &&& f.delta(pkt, new_flow).service == Some(g.service)
        }),
{
}

/// A SYN with ACK gives the round trip since the request, where there was one, and leaves
/// the flow half-open as it was.
pub proof fn law_acceptances_give_the_round_trip(f: FlowState, pkt: PacketMeta, new_flow: bool)
    requires
        pkt.proto == Protocol::Tcp,
        bit(pkt, 0x02),
        bit(pkt, 0x10),
    ensures
        ({
            let g = f.observed(pkt);
            let d = f.delta(pkt, new_flow);
            &&& g.state == TcpState::SynAckSeen
            &&& g.synack_time_ns == Some(pkt.ts_nanos)
            &&& g.half_open_counted == f.half_open_counted
            &&& g.established == f.established
            &&& g.service == f.service
            &&& g.syn_time_ns == f.syn_time_ns
            &&& match f.syn_time_ns {
                Some(t) => d.rtt_sample_ns == g.rtt_ns && g.rtt_ns == Some(
                    if pkt.ts_nanos >= t {
                        (pkt.ts_nanos - t) as u64
                    } else {
                        0
                    },
                ),
                None => d.rtt_sample_ns is None && g.rtt_ns == f.rtt_ns,
            }
        }),
{
}

/// Only a SYN with ACK samples a round trip.
pub proof fn law_only_acceptances_sample(f: FlowState, pkt: PacketMeta, new_flow: bool)
    requires
        pkt.proto != Protocol::Tcp || !bit(pkt, 0x02) || !bit(pkt, 0x10),
    ensures
        f.delta(pkt, new_flow).rtt_sample_ns is None,
        f.observed(pkt).rtt_ns == f.rtt_ns,
        f.observed(pkt).synack_time_ns == f.synack_time_ns,
{
}

/// A RST without SYN ends the flow; it refuses a handshake that is under way.
pub proof fn law_resets_end_the_flow(f: FlowState, pkt: PacketMeta, new_flow: bool)
    ensures
        ({
            let reset = pkt.proto == Protocol::Tcp && !bit(pkt, 0x02) && bit(pkt, 0x04);
            let d = f.delta(pkt, new_flow);
            &&& d.rst == reset
            &&& d.handshake_refused <==> reset && (f.state == TcpState::SynSent || f.state
                == TcpState::SynAckSeen)
            &&& reset ==> f.observed(pkt).state == TcpState::Reset
                && !f.observed(pkt).half_open_counted
        }),
{
}

/// In the stream, an ACK after the acceptance establishes the connection and a FIN closes
/// it; both take it out of the half-open ones, and nothing else changes its state.
pub proof fn law_stream_moves_the_state(f: FlowState, pkt: PacketMeta, new_flow: bool)
    requires
        in_stream(pkt),
    ensures
        ({
            let g = f.observed(pkt);
            let up = f.state == TcpState::SynAckSeen && bit(pkt, 0x10);
            let closed = bit(pkt, 0x01);
            &&& f.delta(pkt, new_flow).established_now == up
            &&& g.established == (f.established || up)
            &&& g.state == (if closed {
                TcpState::Closing
            } else if up {
                TcpState::Established
            } else {
                f.state
            })
            &&& g.half_open_counted == (f.half_open_counted && !up && !closed)
            &&& g.service == f.service
            &&& g.syn_time_ns == f.syn_time_ns
        }),
{
}

/// Every packet leaves the flow's first time, protocol and timeout mark, and moves its last
/// time; what is not TCP changes nothing else.
pub proof fn law_packets_keep_the_rest(f: FlowState, pkt: PacketMeta)
    ensures
        f.observed(pkt).proto == f.proto,
        f.observed(pkt).first_seen_ns == f.first_seen_ns,
        f.observed(pkt).last_seen_ns == pkt.ts_nanos,
        f.observed(pkt).handshake_timeout_flagged == f.handshake_timeout_flagged,
        pkt.proto != Protocol::Tcp ==> f.observed(pkt) == (FlowState {
            last_seen_ns: pkt.ts_nanos,
            ..f
        }),
{
    if pkt.proto != Protocol::Tcp {
        let g = f.observed(pkt);
        assert(g.next_seq =~= f.next_seq);
        assert(g.dup_ack_count =~= f.dup_ack_count);
        assert(g =~= (FlowState { last_seen_ns: pkt.ts_nanos, ..f }));
    }
}

// ---------------------------------------------------------------------------
// The table
// ---------------------------------------------------------------------------

/// A flow is new exactly where its key is not in the table. A new flow starts with nothing
/// but the packet's time and protocol; its service is the destination of a bare SYN, else
/// the end with the lower port, the destination in a tie.
pub proof fn law_new_flows_start_empty(state: StateView, pkt: PacketMeta)
    ensures
        ({
            let (from, to) = if pkt.dir == Direction::Forward {
                (pkt.key.low, pkt.key.high)
            } else {
                (pkt.key.high, pkt.key.low)
            };
            let f = state.flow_before(pkt);
            &&& state.delta(pkt).new_flow <==> !state.flows.contains_key(pkt.key)
            &&& state.flows.contains_key(pkt.key) ==> f == state.flows[pkt.key]
            &&& !state.flows.contains_key(pkt.key) ==> {
                &&& f.state == TcpState::New
                &&& f.proto == pkt.proto
                &&& f.first_seen_ns == pkt.ts_nanos
                &&& f.syn_time_ns is None
                &&& f.synack_time_ns is None
                &&& f.rtt_ns is None
                &&& !f.established
                &&& !f.handshake_timeout_flagged
                &&& !f.half_open_counted
                &&& f.retransmits == 0
                &&& f.data_segments == 0
                &&& forall|i: int|
                    0 <= i < 2 ==> {
                        &&& (#[trigger] f.next_seq[i]) is None
                        &&& f.last_ack[i] is None
                        &&& f.dup_ack_count[i] == 0
                        &&& !f.zero_window[i]
                    }
                &&& f.service == (if pkt.proto == Protocol::Tcp && bit(pkt, 0x02) && !bit(
                    pkt,
                    0x10,
                ) {
                    to
                } else if to.port <= from.port {
                    to
                } else {
                    from
                })
            }
            &&& state.observed(pkt).flows == state.flows.insert(pkt.key, f.observed(pkt))
            &&& state.delta(pkt) == f.delta(pkt, !state.flows.contains_key(pkt.key))
        }),
{
}

/// The counter of a service changes by what the packet makes of its flow: one more where it
/// becomes half-open, one fewer where it stops being so. No other counter changes.
pub proof fn law_counters_follow_the_flow(state: StateView, pkt: PacketMeta, ep: Endpoint)
    requires
        state.consistent(),
        state.flow_before(pkt).room_for(pkt),
        state.room_to_count(pkt),
    ensures
        ({
            let f = state.flow_before(pkt);
            let g = f.observed(pkt);
            let before = if state.half_open.contains_key(ep) {
                state.half_open[ep] as int
            } else {
                0
            };
            let next = state.observed(pkt).half_open;
            let after = if next.contains_key(ep) {
                next[ep] as int
            } else {
                0
            };
            after - before == (if ep == g.service {
                (if g.half_open_counted {
                    1int
                } else {
                    0int
                }) - (if f.half_open_counted {
                    1int
                } else {
                    0int
                })
            } else {
                0
            })
        }),
{
    let f = state.flow_before(pkt);
    if !state.is_new_flow(pkt) {
        assert(state.flows.contains_key(pkt.key));
        if f.half_open_counted {
            crate::flow::lemma_counted_at_service(state, pkt.key);
        }
    }
}

/// Every reset and every new flow is counted in its rate at the packet's time, and nothing
/// else is.
pub proof fn law_rates_count_resets_and_new_flows(state: StateView, pkt: PacketMeta)
    requires
        state.rst_rate.window >= 1,
        state.new_flow_rate.window >= 1,
    ensures
        ({
            let reset = pkt.proto == Protocol::Tcp && !bit(pkt, 0x02) && bit(pkt, 0x04);
            let next = state.observed(pkt);
            let now = pkt.ts_nanos;
            &&& next.rst_rate.count(now) == state.rst_rate.count(now) + (if reset {
                1nat
            } else {
                0nat
            })
            &&& !reset ==> next.rst_rate == state.rst_rate
            &&& next.new_flow_rate.count(now) == state.new_flow_rate.count(now)
                + (if state.flows.contains_key(pkt.key) {
                0nat
            } else {
                1nat
            })
            &&& state.flows.contains_key(pkt.key) ==> next.new_flow_rate == state.new_flow_rate
        }),
{
    crate::window::law_record_adds_one(state.rst_rate, pkt.ts_nanos);
    crate::window::law_record_adds_one(state.new_flow_rate, pkt.ts_nanos);
}

// ---------------------------------------------------------------------------
// Sweeps
// ---------------------------------------------------------------------------

/// A sweep evicts exactly the flows that were silent for more than the time-to-live, and
/// marks exactly those left whose request was unanswered for more than the timeout, for the
/// first time; the marked ones are half-open no more, and every other flow stays as it was.
pub proof fn law_sweeps_evict_and_mark(state: StateView, now: u64, k: crate::types::FlowKey)
    requires
        state.cfg.within_clock(),
    ensures
        ({
            let next = state.swept(now);
            let f = state.flows[k];
            let idle = now - f.last_seen_ns > state.cfg.flow_ttl_secs * 1_000_000_000;
            let due = f.state == TcpState::SynSent && !f.handshake_timeout_flagged
                && f.syn_time_ns is Some && now - f.syn_time_ns->0
                > state.cfg.handshake_timeout_secs * 1_000_000_000;
            &&& next.flows.contains_key(k) <==> state.flows.contains_key(k) && !idle
            &&& state.flows.contains_key(k) ==> (state.unanswered(now).contains(k) <==> due)
            &&& !state.flows.contains_key(k) ==> !state.unanswered(now).contains(k)
            &&& next.flows.contains_key(k) ==> next.flows[k] == (if due {
                FlowState { handshake_timeout_flagged: true, half_open_counted: false, ..f }
            } else {
                f
            })
            &&& next.rst_rate == state.rst_rate
            &&& next.new_flow_rate == state.new_flow_rate
            &&& next.cfg == state.cfg
        }),
{
}

} // verus!
