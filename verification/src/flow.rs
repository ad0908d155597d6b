//! Per-flow state machine and the packet-level "delta" the engine derives once per packet
//! and hands to every detector. Keeping the stateful bookkeeping here makes the detectors
//! themselves thin and side-effect free.

use vstd::prelude::*;

use crate::address::IpAddr;
use crate::config::{DetectConfig, DetectView};
use crate::number::Ratio;
use crate::table::{Table, TableKey};
use crate::types::{Direction, Endpoint, FlowKey, PacketMeta, Protocol, TcpFlags};
use crate::window::{RateView, RollingRate, NS_PER_SEC};

verus! {

// ---------------------------------------------------------------------------
// Sequence numbers
// ---------------------------------------------------------------------------

/// The signed distance from `expected` to `a` on the ring of sequence numbers.
pub open spec fn seq_distance(a: u32, expected: u32) -> int {
    let d = (a - expected) % 0x1_0000_0000;
    if d < 0x8000_0000 {
        d
    } else {
        d - 0x1_0000_0000
    }
}

/// The sequence number `n` past `a`, around the ring.
pub open spec fn seq_after(a: u32, n: u32) -> u32 {
    ((a + n) % 0x1_0000_0000) as u32
}

/// Signed distance `a - expected` under u32 sequence-number wraparound.
pub fn seq_diff(a: u32, expected: u32) -> (d: i32)
    ensures
        d == seq_distance(a, expected),
{
    let w: u32 = a.wrapping_sub(expected);
    assert(w < 0x8000_0000u32 ==> w as i32 == w) by (bit_vector);
    assert(w >= 0x8000_0000u32 ==> w as i32 == w - 0x1_0000_0000) by (bit_vector);
    w as i32
}

/// A number up to half the ring past another is that far ahead of it, wherever on the
/// ring the two lie.
pub proof fn law_seq_ahead(a: u32, n: u32)
    requires
        n < 0x8000_0000,
    ensures
        seq_distance(seq_after(a, n), a) == n,
{
}

/// Distances both ways are opposite, except across exactly half the ring.
pub proof fn law_seq_opposite(a: u32, b: u32)
    requires
        seq_distance(a, b) != -0x8000_0000,
    ensures
        seq_distance(b, a) == -seq_distance(a, b),
{
}

// ---------------------------------------------------------------------------
// Flow state
// ---------------------------------------------------------------------------

/// Coarse TCP connection state (enough to attribute L4 anomalies).
#[derive(Clone, Copy, Debug, PartialEq, Eq, Structural)]
pub enum TcpState {
    New,
    SynSent,
    SynAckSeen,
    Established,
    Closing,
    Reset,
}

/// Everything we remember about a single conversation.
#[derive(Clone, Copy, Debug)]
#[verifier::ext_equal]
pub struct FlowState {
    pub proto: Protocol,
    pub state: TcpState,
    pub first_seen_ns: u64,
    pub last_seen_ns: u64,
    pub syn_time_ns: Option<u64>,
    pub synack_time_ns: Option<u64>,
    pub rtt_ns: Option<u64>,
    pub established: bool,
    pub handshake_timeout_flagged: bool,
    pub half_open_counted: bool,
    /// The server endpoint (SYN destination), used for backlog attribution.
    pub service: Endpoint,
    /// Next expected sequence number per direction.
    pub next_seq: [Option<u32>; 2],
    /// Last ACK value seen per direction (for duplicate-ACK detection).
    pub last_ack: [Option<u32>; 2],
    pub dup_ack_count: [u32; 2],
    pub zero_window: [bool; 2],
    pub retransmits: u64,
    pub data_segments: u64,
}

/// What changed on this packet. Detectors read this instead of re-deriving state.
#[derive(Clone, Copy, Debug)]
pub struct PacketDelta {
    pub new_flow: bool,
    pub is_retransmit: bool,
    pub is_out_of_order: bool,
    pub is_dup_ack: bool,
    pub dup_ack_count: u32,
    pub zero_window_edge: bool,
    pub rtt_sample_ns: Option<u64>,
    pub handshake_refused: bool,
    pub established_now: bool,
    pub rst: bool,
    pub service: Option<Endpoint>,
}

impl PacketDelta {
    /// Nothing changed.
    pub open spec fn nothing() -> PacketDelta {
        PacketDelta {
            new_flow: false,
            is_retransmit: false,
            is_out_of_order: false,
            is_dup_ack: false,
            dup_ack_count: 0,
            zero_window_edge: false,
            rtt_sample_ns: None,
            handshake_refused: false,
            established_now: false,
            rst: false,
            service: None,
        }
    }
}

impl Default for PacketDelta {
    fn default() -> (d: PacketDelta)
        ensures
            d == PacketDelta::nothing(),
    {
        PacketDelta {
            new_flow: false,
            is_retransmit: false,
            is_out_of_order: false,
            is_dup_ack: false,
            dup_ack_count: 0,
            zero_window_edge: false,
            rtt_sample_ns: None,
            handshake_refused: false,
            established_now: false,
            rst: false,
            service: None,
        }
    }
}

/// A per-direction pair with one side replaced.
pub open spec fn with_side<T>(pair: [T; 2], side: int, value: T) -> [T; 2] {
    if side == 0 {
        [value, pair[1]]
    } else {
        [pair[0], value]
    }
}

/// `a - b`, or zero where that is negative.
pub open spec fn monus(a: u64, b: u64) -> u64 {
    if a >= b {
        (a - b) as u64
    } else {
        0
    }
}

// What a packet is to its flow.

/// A TCP segment that asks for a connection: SYN without ACK.
pub open spec fn is_opening(pkt: PacketMeta) -> bool {
    pkt.proto == Protocol::Tcp && pkt.flags.opens()
}

/// A TCP segment that accepts a connection: SYN with ACK.
pub open spec fn is_accepting(pkt: PacketMeta) -> bool {
    pkt.proto == Protocol::Tcp && pkt.flags.accepts()
}

/// A TCP segment that resets a connection: RST without SYN.
pub open spec fn is_reset(pkt: PacketMeta) -> bool {
    pkt.proto == Protocol::Tcp && !pkt.flags.holds(TcpFlags::SYN) && pkt.flags.holds(TcpFlags::RST)
}

/// Any other TCP segment: data, a pure ACK, or a FIN.
pub open spec fn is_ordinary(pkt: PacketMeta) -> bool {
    pkt.proto == Protocol::Tcp && !pkt.flags.holds(TcpFlags::SYN) && !pkt.flags.holds(TcpFlags::RST)
}

/// An ordinary segment that carries data.
pub open spec fn is_data(pkt: PacketMeta) -> bool {
    is_ordinary(pkt) && pkt.payload_len > 0
}

/// An ordinary segment that closes its side.
pub open spec fn is_closing(pkt: PacketMeta) -> bool {
    is_ordinary(pkt) && pkt.flags.holds(TcpFlags::FIN)
}

/// An acknowledgement and nothing else.
pub open spec fn is_bare_ack(pkt: PacketMeta) -> bool {
    is_ordinary(pkt) && pkt.flags.holds(TcpFlags::ACK) && pkt.payload_len == 0
        && !pkt.flags.holds(TcpFlags::FIN)
}

/// The observed source of a packet.
pub open spec fn source(pkt: PacketMeta) -> Endpoint {
    match pkt.dir {
        Direction::Forward => pkt.key.low,
        Direction::Reverse => pkt.key.high,
    }
}

/// The observed destination of a packet.
pub open spec fn destination(pkt: PacketMeta) -> Endpoint {
    match pkt.dir {
        Direction::Forward => pkt.key.high,
        Direction::Reverse => pkt.key.low,
    }
}

/// The endpoint taken for the server of a flow whose first packet this is: where an
/// opening segment goes to, else the lower port.
pub open spec fn service_of(pkt: PacketMeta) -> Endpoint {
    if is_opening(pkt) || destination(pkt).port <= source(pkt).port {
        destination(pkt)
    } else {
        source(pkt)
    }
}

impl FlowState {
    /// A flow of which nothing has been seen.
    pub open spec fn fresh(proto: Protocol, now: u64, service: Endpoint) -> FlowState {
        FlowState {
            proto,
            state: TcpState::New,
            first_seen_ns: now,
            last_seen_ns: now,
            syn_time_ns: None,
            synack_time_ns: None,
            rtt_ns: None,
            established: false,
            handshake_timeout_flagged: false,
            half_open_counted: false,
            service,
            next_seq: [None, None],
            last_ack: [None, None],
            dup_ack_count: [0, 0],
            zero_window: [false, false],
            retransmits: 0,
            data_segments: 0,
        }
    }

    /// The segment completes the flow's handshake.
    pub open spec fn establishes(self, pkt: PacketMeta) -> bool {
        is_ordinary(pkt) && self.state == TcpState::SynAckSeen && pkt.flags.holds(TcpFlags::ACK)
    }

    /// The segment is the flow's first request.
    pub open spec fn takes_request(self, pkt: PacketMeta) -> bool {
        is_opening(pkt) && self.syn_time_ns is None
    }

    /// The flow's server after a packet: where the first request goes to, else what it was
    /// taken for.
    pub open spec fn service_after(self, pkt: PacketMeta) -> Endpoint {
        if self.takes_request(pkt) {
            destination(pkt)
        } else {
            self.service
        }
    }

    /// The segment is the flow's first request, and the flow starts to count as half-open.
    pub open spec fn starts_half_open(self, pkt: PacketMeta) -> bool {
        self.takes_request(pkt) && !self.half_open_counted
    }

    /// The segment settles a flow that counts as half-open.
    pub open spec fn ends_half_open(self, pkt: PacketMeta) -> bool {
        self.half_open_counted && (is_reset(pkt) || is_closing(pkt) || self.establishes(pkt))
    }

    /// The connection state after a packet.
    pub open spec fn next_state(self, pkt: PacketMeta) -> TcpState {
        if self.takes_request(pkt) {
            TcpState::SynSent
        } else if is_accepting(pkt) {
            TcpState::SynAckSeen
        } else if is_reset(pkt) {
            TcpState::Reset
        } else if is_closing(pkt) {
            TcpState::Closing
        } else if self.establishes(pkt) {
            TcpState::Established
        } else {
            self.state
        }
    }

    /// The packet's receive window counts: the connection is established or closing.
    pub open spec fn watches_window(self, pkt: PacketMeta) -> bool {
        is_ordinary(pkt) && (self.established || self.establishes(pkt) || self.next_state(pkt)
            == TcpState::Closing)
    }

    /// The sequence number expected next in the packet's direction.
    pub open spec fn expected(self, pkt: PacketMeta) -> Option<u32> {
        self.next_seq[pkt.dir.slot()]
    }

    /// The packet repeats data: it starts behind the expected byte.
    pub open spec fn is_retransmit(self, pkt: PacketMeta) -> bool {
        is_data(pkt) && self.expected(pkt) is Some && seq_distance(
            pkt.seq,
            self.expected(pkt)->0,
        ) < 0
    }

    /// The packet leaves a gap: it starts ahead of the expected byte.
    pub open spec fn is_gap(self, pkt: PacketMeta) -> bool {
        is_data(pkt) && self.expected(pkt) is Some && seq_distance(
            pkt.seq,
            self.expected(pkt)->0,
        ) > 0
    }

    /// The sequence number expected next after a packet, in its direction.
    pub open spec fn expected_after(self, pkt: PacketMeta) -> Option<u32> {
        let end = seq_after(pkt.seq, pkt.payload_len);
        if is_opening(pkt) || is_accepting(pkt) {
            Some(seq_after(pkt.seq, 1))
        } else if is_data(pkt) && (self.expected(pkt) is None || seq_distance(
            end,
            self.expected(pkt)->0,
        ) > 0) {
            Some(end)
        } else {
            self.expected(pkt)
        }
    }

    /// The packet acknowledges what the last bare ACK of its direction did.
    pub open spec fn is_dup_ack(self, pkt: PacketMeta) -> bool {
        is_bare_ack(pkt) && self.last_ack[pkt.dir.slot()] == Some(pkt.ack)
    }

    /// The length of the run of duplicate ACKs after a packet, in its direction.
    pub open spec fn dup_acks_after(self, pkt: PacketMeta) -> int {
        let before = self.dup_ack_count[pkt.dir.slot()];
        if !is_bare_ack(pkt) {
            before as int
        } else if self.is_dup_ack(pkt) {
            before + 1
        } else {
            0
        }
    }

    /// The handshake round trip that an accepting segment completes.
    pub open spec fn rtt_sample(self, pkt: PacketMeta) -> Option<u64> {
        if is_accepting(pkt) && self.syn_time_ns is Some {
            Some(monus(pkt.ts_nanos, self.syn_time_ns->0))
        } else {
            None
        }
    }

    /// The flow after a packet.
    pub open spec fn observed(self, pkt: PacketMeta) -> FlowState {
        let side = pkt.dir.slot();
        FlowState {
            proto: self.proto,
            state: self.next_state(pkt),
            first_seen_ns: self.first_seen_ns,
            last_seen_ns: pkt.ts_nanos,
            syn_time_ns: if self.takes_request(pkt) {
                Some(pkt.ts_nanos)
            } else {
                self.syn_time_ns
            },
            synack_time_ns: if is_accepting(pkt) {
                Some(pkt.ts_nanos)
            } else {
                self.synack_time_ns
            },
            rtt_ns: if self.rtt_sample(pkt) is Some {
                self.rtt_sample(pkt)
            } else {
                self.rtt_ns
            },
            established: self.established || self.establishes(pkt),
            handshake_timeout_flagged: self.handshake_timeout_flagged,
            half_open_counted: self.starts_half_open(pkt) || (self.half_open_counted
                && !self.ends_half_open(pkt)),
            service: self.service_after(pkt),
            next_seq: with_side(self.next_seq, side, self.expected_after(pkt)),
            last_ack: if is_bare_ack(pkt) {
                with_side(self.last_ack, side, Some(pkt.ack))
            } else {
                self.last_ack
            },
            dup_ack_count: with_side(self.dup_ack_count, side, self.dup_acks_after(pkt) as u32),
            zero_window: if self.watches_window(pkt) {
                with_side(self.zero_window, side, pkt.window == 0)
            } else {
                self.zero_window
            },
            retransmits: (self.retransmits + (if self.is_retransmit(pkt) {
                1int
            } else {
                0int
            })) as u64,
            data_segments: (self.data_segments + (if is_data(pkt) {
                1int
            } else {
                0int
            })) as u64,
        }
    }

    /// What a packet changes about the flow.
    pub open spec fn delta(self, pkt: PacketMeta, new_flow: bool) -> PacketDelta {
        PacketDelta {
            new_flow,
            is_retransmit: self.is_retransmit(pkt),
            is_out_of_order: self.is_gap(pkt),
            is_dup_ack: self.is_dup_ack(pkt),
            dup_ack_count: if self.is_dup_ack(pkt) {
                self.dup_acks_after(pkt) as u32
            } else {
                0
            },
            zero_window_edge: self.watches_window(pkt) && pkt.window == 0
                && !self.zero_window[pkt.dir.slot()],
            rtt_sample_ns: self.rtt_sample(pkt),
            handshake_refused: is_reset(pkt) && (self.state == TcpState::SynSent || self.state
                == TcpState::SynAckSeen),
            established_now: self.establishes(pkt),
            rst: is_reset(pkt),
            service: Some(self.service_after(pkt)),
        }
    }

    /// The flow's SYN has gone unanswered for longer than `timeout_ns`, and that has not
    /// been reported.
    pub open spec fn is_unanswered(self, now: u64, timeout_ns: u64) -> bool {
        &&& self.state == TcpState::SynSent
        &&& !self.handshake_timeout_flagged
        &&& self.syn_time_ns is Some
        &&& monus(now, self.syn_time_ns->0) > timeout_ns
    }

    /// The flow has been silent for longer than `ttl_ns`.
    pub open spec fn is_idle(self, now: u64, ttl_ns: u64) -> bool {
        monus(now, self.last_seen_ns) > ttl_ns
    }

    /// The flow once its handshake timeout has been reported.
    pub open spec fn timed_out(self) -> FlowState {
        FlowState { handshake_timeout_flagged: true, half_open_counted: false, ..self }
    }

    /// The flow's counters can take one more packet.
    pub open spec fn room_for(self, pkt: PacketMeta) -> bool {
        &&& is_data(pkt) ==> self.data_segments < u64::MAX
        &&& self.is_dup_ack(pkt) ==> self.dup_ack_count[pkt.dir.slot()] < u32::MAX
    }

    /// The flow's counters can take `n` more packets, whatever they are.
    pub open spec fn has_spare(self, n: nat) -> bool {
        &&& self.data_segments + n <= u64::MAX
        &&& self.dup_ack_count[0] + n <= u32::MAX
        &&& self.dup_ack_count[1] + n <= u32::MAX
    }

    fn new(proto: Protocol, now: u64, service: Endpoint) -> (f: FlowState)
        ensures
            f == FlowState::fresh(proto, now, service),
    {
        FlowState {
            proto,
            state: TcpState::New,
            first_seen_ns: now,
            last_seen_ns: now,
            syn_time_ns: None,
            synack_time_ns: None,
            rtt_ns: None,
            established: false,
            handshake_timeout_flagged: false,
            half_open_counted: false,
            service,
            next_seq: [None, None],
            last_ack: [None, None],
            dup_ack_count: [0, 0],
            zero_window: [false, false],
            retransmits: 0,
            data_segments: 0,
        }
    }

    /// Zero-window edge (receiver stall) on an active connection.
    fn track_window(&mut self, pkt: &PacketMeta) -> (edge: bool)
        ensures
            ({
                let active = old(self).established || old(self).state == TcpState::Closing;
                let side = pkt.dir.slot();
                &&& edge == (active && pkt.window == 0 && !old(self).zero_window[side])
                &&& *final(self) =~= (FlowState {
                    zero_window: if active {
                        with_side(old(self).zero_window, side, pkt.window == 0)
                    } else {
                        old(self).zero_window
                    },
                    ..*old(self)
                })
            }),
    {
        if self.established || self.state == TcpState::Closing {
            let side: usize = pkt.dir.index();
            let was_zero = self.zero_window[side];
            let now_zero = pkt.window == 0;
            self.zero_window[side] = now_zero;
            now_zero && !was_zero
        } else {
            false
        }
    }

    /// Retransmission / out-of-order for data-bearing segments.
    fn track_data(&mut self, pkt: &PacketMeta) -> (r: (bool, bool))
        requires
            is_data(*pkt),
            old(self).retransmits <= old(self).data_segments < u64::MAX,
        ensures
            r == (old(self).is_retransmit(*pkt), old(self).is_gap(*pkt)),
            *final(self) =~= (FlowState {
                data_segments: (old(self).data_segments + 1) as u64,
                retransmits: if r.0 {
                    (old(self).retransmits + 1) as u64
                } else {
                    old(self).retransmits
                },
                next_seq: with_side(
                    old(self).next_seq,
                    pkt.dir.slot(),
                    old(self).expected_after(*pkt),
                ),
                ..*old(self)
            }),
    {
        let side: usize = pkt.dir.index();
        self.data_segments = self.data_segments + 1;
        let end: u32 = pkt.seq.wrapping_add(pkt.payload_len);
        match self.next_seq[side] {
            Some(exp) => {
                let diff: i32 = seq_diff(pkt.seq, exp);
                if diff < 0 {
                    self.retransmits = self.retransmits + 1;
                }
                if seq_diff(end, exp) > 0 {
                    self.next_seq[side] = Some(end);
                }
                (diff < 0, diff > 0)
            },
            None => {
                self.next_seq[side] = Some(end);
                (false, false)
            },
        }
    }

    /// Duplicate-ACK detection (bare ACK, no new data): the length of the run, for a
    /// duplicate.
    fn track_ack(&mut self, pkt: &PacketMeta) -> (run: Option<u32>)
        requires
            is_bare_ack(*pkt),
            old(self).room_for(*pkt),
        ensures
            run == (if old(self).is_dup_ack(*pkt) {
                Some(old(self).dup_acks_after(*pkt) as u32)
            } else {
                None
            }),
            *final(self) =~= (FlowState {
                last_ack: with_side(old(self).last_ack, pkt.dir.slot(), Some(pkt.ack)),
                dup_ack_count: with_side(
                    old(self).dup_ack_count,
                    pkt.dir.slot(),
                    old(self).dup_acks_after(*pkt) as u32,
                ),
                ..*old(self)
            }),
    {
        let side: usize = pkt.dir.index();
        if self.last_ack[side] == Some(pkt.ack) {
            let run: u32 = self.dup_ack_count[side] + 1;
            self.dup_ack_count[side] = run;
            Some(run)
        } else {
            self.last_ack[side] = Some(pkt.ack);
            self.dup_ack_count[side] = 0;
            None
        }
    }

    /// Retransmitted data segments over all data segments; zero without data.
    pub fn retransmit_ratio(&self) -> (r: Ratio)
        ensures
            r == Ratio::of(self.retransmits, self.data_segments),
    {
        Ratio::new(self.retransmits, self.data_segments)
    }
}

// ---------------------------------------------------------------------------
// Engine state
// ---------------------------------------------------------------------------

/// Everything the engine remembers: its thresholds, the flow table and the host-wide
/// signals.
#[verifier::ext_equal]
pub ghost struct StateView {
    pub cfg: DetectView,
    pub flows: Map<FlowKey, FlowState>,
    pub half_open: Map<Endpoint, u32>,
    pub rst_rate: RateView,
    pub new_flow_rate: RateView,
}

/// The flows that count as half-open connections to a service.
pub open spec fn half_open_flows(flows: Map<FlowKey, FlowState>, service: Endpoint) -> Set<FlowKey> {
    flows.dom().filter(|k: FlowKey| flows[k].half_open_counted && flows[k].service == service)
}

/// The counter of a service; zero where it has none.
pub open spec fn count_at(counts: Map<Endpoint, u32>, service: Endpoint) -> u32 {
    if counts.contains_key(service) {
        counts[service]
    } else {
        0
    }
}

impl StateView {
    /// An engine that has seen nothing.
    pub open spec fn empty(cfg: DetectView) -> StateView {
        StateView {
            cfg,
            flows: Map::empty(),
            half_open: Map::empty(),
            rst_rate: RateView::empty(1),
            new_flow_rate: RateView::empty(1),
        }
    }

    /// Every service's counter is the number of its half-open flows.
    pub open spec fn half_open_exact(self) -> bool {
        forall|service: Endpoint|
            #![trigger count_at(self.half_open, service)]
            count_at(self.half_open, service) == half_open_flows(self.flows, service).len()
    }

    /// The invariant of the engine's memory.
    pub open spec fn consistent(self) -> bool {
        &&& self.flows.dom().finite()
        &&& self.half_open.dom().finite()
        &&& self.half_open_exact()
        &&& forall|k: FlowKey| #[trigger]
            self.flows.contains_key(k) ==> self.flows[k].retransmits <= self.flows[k].data_segments
        &&& forall|k: FlowKey| #[trigger]
            self.flows.contains_key(k) && self.flows[k].half_open_counted
                ==> self.flows[k].syn_time_ns is Some
    }

    /// The tables and their counters can take `n` more packets, whatever they are.
    pub open spec fn has_spare(self, n: nat) -> bool {
        &&& self.flows.dom().len() + n <= usize::MAX
        &&& self.half_open.dom().len() + n <= usize::MAX
        &&& forall|k: FlowKey| #[trigger]
            self.flows.contains_key(k) ==> self.flows[k].has_spare(n)
        &&& forall|ep: Endpoint| #[trigger]
            self.half_open.contains_key(ep) ==> self.half_open[ep] + n <= u32::MAX
    }

    /// The packet starts a flow.
    pub open spec fn is_new_flow(self, pkt: PacketMeta) -> bool {
        !self.flows.contains_key(pkt.key)
    }

    /// The packet's flow as it was before the packet.
    pub open spec fn flow_before(self, pkt: PacketMeta) -> FlowState {
        if self.is_new_flow(pkt) {
            FlowState::fresh(pkt.proto, pkt.ts_nanos, service_of(pkt))
        } else {
            self.flows[pkt.key]
        }
    }

    /// The counter of half-open connections that the packet may raise can be raised.
    pub open spec fn room_to_count(self, pkt: PacketMeta) -> bool {
        let f = self.flow_before(pkt);
        f.starts_half_open(pkt) ==> count_at(self.half_open, f.service_after(pkt)) < u32::MAX
    }

    /// The counters of half-open connections after a packet.
    pub open spec fn half_open_after(self, pkt: PacketMeta) -> Map<Endpoint, u32> {
        let f = self.flow_before(pkt);
        let service = f.service_after(pkt);
        let n = count_at(self.half_open, service);
        if f.starts_half_open(pkt) {
            self.half_open.insert(service, (n + 1) as u32)
        } else if f.ends_half_open(pkt) {
            self.half_open.insert(service, (n - 1) as u32)
        } else {
            self.half_open
        }
    }

    /// The engine's memory after a packet.
    pub open spec fn observed(self, pkt: PacketMeta) -> StateView {
        StateView {
            cfg: self.cfg,
            flows: self.flows.insert(pkt.key, self.flow_before(pkt).observed(pkt)),
            half_open: self.half_open_after(pkt),
            rst_rate: if is_reset(pkt) {
                self.rst_rate.recorded(pkt.ts_nanos)
            } else {
                self.rst_rate
            },
            new_flow_rate: if self.is_new_flow(pkt) {
                self.new_flow_rate.recorded(pkt.ts_nanos)
            } else {
                self.new_flow_rate
            },
        }
    }

    /// The time a SYN may go unanswered.
    pub open spec fn timeout_ns(self) -> u64 {
        (self.cfg.handshake_timeout_secs * NS_PER_SEC) as u64
    }

    /// The time a flow may be silent.
    pub open spec fn ttl_ns(self) -> u64 {
        (self.cfg.flow_ttl_secs * NS_PER_SEC) as u64
    }

    /// The flows whose handshake timeout is due.
    pub open spec fn unanswered(self, now: u64) -> Set<FlowKey> {
        self.flows.dom().filter(|k: FlowKey| self.flows[k].is_unanswered(now, self.timeout_ns()))
    }

    /// The flows after a sweep: those whose handshake timeout was due are marked, and the
    /// idle ones are gone.
    pub open spec fn swept_flows(self, now: u64) -> Map<FlowKey, FlowState> {
        Map::new(
            |k: FlowKey| self.flows.contains_key(k) && !self.flows[k].is_idle(now, self.ttl_ns()),
            |k: FlowKey|
                if self.unanswered(now).contains(k) {
                    self.flows[k].timed_out()
                } else {
                    self.flows[k]
                },
        )
    }

    /// The engine's memory after a sweep.
    pub open spec fn swept(self, now: u64) -> StateView {
        StateView {
            flows: self.swept_flows(now),
            half_open: Map::new(
                |ep: Endpoint| self.half_open.contains_key(ep),
                |ep: Endpoint| half_open_flows(self.swept_flows(now), ep).len() as u32,
            ),
            ..self
        }
    }

    /// What a packet changes.
    pub open spec fn delta(self, pkt: PacketMeta) -> PacketDelta {
        self.flow_before(pkt).delta(pkt, self.is_new_flow(pkt))
    }
}

proof fn lemma_half_open_insert(
    flows: Map<FlowKey, FlowState>,
    k: FlowKey,
    f: FlowState,
    service: Endpoint,
)
    requires
        flows.dom().finite(),
    ensures
        half_open_flows(flows, service).finite(),
        half_open_flows(flows, service).len() <= flows.dom().len(),
        half_open_flows(flows.insert(k, f), service) == (if f.half_open_counted && f.service
            == service {
            half_open_flows(flows, service).insert(k)
        } else {
            half_open_flows(flows, service).remove(k)
        }),
{
    let before = half_open_flows(flows, service);
    assert(before =~= flows.dom().intersect(before));
    vstd::set_lib::lemma_len_subset(before, flows.dom());
    let after = half_open_flows(flows.insert(k, f), service);
    if f.half_open_counted && f.service == service {
        assert(after =~= before.insert(k));
    } else {
        assert(after =~= before.remove(k));
    }
}

proof fn lemma_half_open_remove(flows: Map<FlowKey, FlowState>, k: FlowKey, service: Endpoint)
    requires
        flows.dom().finite(),
    ensures
        half_open_flows(flows, service).finite(),
        half_open_flows(flows.remove(k), service) == half_open_flows(flows, service).remove(k),
{
    let before = half_open_flows(flows, service);
    assert(before =~= flows.dom().intersect(before));
    assert(half_open_flows(flows.remove(k), service) =~= before.remove(k));
}

/// A flow that counts as half-open is counted at its service.
pub proof fn lemma_counted_at_service(state: StateView, k: FlowKey)
    requires
        state.consistent(),
        state.flows.contains_key(k),
        state.flows[k].half_open_counted,
    ensures
        state.half_open.contains_key(state.flows[k].service),
        count_at(state.half_open, state.flows[k].service) >= 1,
{
    let service = state.flows[k].service;
    let counted = half_open_flows(state.flows, service);
    lemma_half_open_insert(state.flows, k, state.flows[k], service);
    assert(counted.contains(k));
    assert(count_at(state.half_open, service) == counted.len());
    if counted.len() == 0 {
        assert(counted =~= Set::empty());
    }
}

/// Half-open accounting starts exact.
pub proof fn law_empty_is_consistent(cfg: DetectView)
    ensures
        StateView::empty(cfg).consistent(),
{
    let none = StateView::empty(cfg);
    assert forall|service: Endpoint|
        #![trigger count_at(none.half_open, service)]
        count_at(none.half_open, service) == half_open_flows(none.flows, service).len() by {
        assert(half_open_flows(none.flows, service) =~= Set::empty());
    }
}

/// Every packet keeps half-open accounting exact. Each service's counter is the number of
/// its flows that have asked for a connection and are not yet established, reset, closed
/// or timed out.
pub proof fn law_observed_keeps_consistent(state: StateView, pkt: PacketMeta)
    requires
        state.consistent(),
        state.flow_before(pkt).room_for(pkt),
        state.room_to_count(pkt),
    ensures
        state.observed(pkt).consistent(),
{
    let before = state.flow_before(pkt);
    let after = before.observed(pkt);
    let next = state.observed(pkt);
    if before.half_open_counted {
        lemma_counted_at_service(state, pkt.key);
    }
    assert forall|service: Endpoint|
        #![trigger count_at(next.half_open, service)]
        count_at(next.half_open, service) == half_open_flows(next.flows, service).len() by {
        lemma_half_open_insert(state.flows, pkt.key, after, service);
        lemma_half_open_insert(next.flows, pkt.key, after, service);
        let counted = half_open_flows(state.flows, service);
        assert(count_at(state.half_open, service) == counted.len());
        assert(counted.contains(pkt.key) <==> !state.is_new_flow(pkt) && before.half_open_counted
            && before.service == service);
    }
    assert(next.flows.dom() =~= state.flows.dom().insert(pkt.key));
}

/// Where there is spare room for some packets, there is room for any one packet, and
/// afterwards spare room for one fewer.
pub proof fn lemma_observed_has_spare(state: StateView, pkt: PacketMeta, n: nat)
    requires
        state.consistent(),
        state.has_spare(n + 1),
        n + 1 <= u32::MAX,
    ensures
        state.flow_before(pkt).room_for(pkt),
        state.room_to_count(pkt),
        state.observed(pkt).has_spare(n),
{
    let f = state.flow_before(pkt);
    let next = state.observed(pkt);
    assert(f.has_spare(n + 1)) by {
        if !state.is_new_flow(pkt) {
            assert(state.flows.contains_key(pkt.key));
        }
    }
    if f.half_open_counted {
        lemma_counted_at_service(state, pkt.key);
    }
    assert(f.observed(pkt).has_spare(n));
    assert(next.flows.dom() =~= state.flows.dom().insert(pkt.key));
    let service = f.service_after(pkt);
    assert(count_at(state.half_open, service) + n + 1 <= u32::MAX);
    assert(next.half_open.dom().subset_of(state.half_open.dom().insert(service)));
    vstd::set_lib::lemma_len_subset(next.half_open.dom(), state.half_open.dom().insert(service));
    assert forall|k: FlowKey| #[trigger] next.flows.contains_key(k) implies next.flows[k].has_spare(
        n,
    ) by {
        if k != pkt.key {
            assert(state.flows.contains_key(k));
        }
    }
    assert forall|ep: Endpoint| #[trigger] next.half_open.contains_key(ep) implies next.half_open[ep]
        + n <= u32::MAX by {
        if ep != service {
            assert(state.half_open.contains_key(ep));
        }
    }
}

/// A sweep uses up no room.
pub proof fn lemma_swept_has_spare(state: StateView, now: u64, n: nat)
    requires
        state.consistent(),
        state.has_spare(n),
    ensures
        state.swept(now).has_spare(n),
{
    let next = state.swept(now);
    assert(next.flows.dom().subset_of(state.flows.dom()));
    vstd::set_lib::lemma_len_subset(next.flows.dom(), state.flows.dom());
    assert(next.half_open.dom() =~= state.half_open.dom());
    assert forall|k: FlowKey| #[trigger] next.flows.contains_key(k) implies next.flows[k].has_spare(
        n,
    ) by {
        assert(state.flows.contains_key(k));
    }
    assert forall|ep: Endpoint| #[trigger] next.half_open.contains_key(ep) implies next.half_open[ep]
        + n <= u32::MAX by {
        assert(state.half_open.contains_key(ep));
        let before = half_open_flows(state.flows, ep);
        let after = half_open_flows(next.flows, ep);
        assert(count_at(state.half_open, ep) == before.len());
        assert(before.subset_of(state.flows.dom()));
        vstd::set_lib::lemma_len_subset(before, state.flows.dom());
        assert(after.subset_of(before));
        vstd::set_lib::lemma_len_subset(after, before);
    }
}

/// Retransmissions never outnumber data segments.
pub proof fn law_retransmit_ratio_at_most_one(state: StateView, k: FlowKey)
    requires
        state.consistent(),
        state.flows.contains_key(k),
    ensures
        state.flows[k].retransmits <= state.flows[k].data_segments,
{
}

/// A packet leaves every other flow as it was.
pub proof fn law_packet_touches_only_its_flow(state: StateView, pkt: PacketMeta, k: FlowKey)
    requires
        k != pkt.key,
    ensures
        state.observed(pkt).flows.contains_key(k) == state.flows.contains_key(k),
        state.flows.contains_key(k) ==> state.observed(pkt).flows[k] == state.flows[k],
{
}

/// Both directions of a conversation update one flow.
pub proof fn law_directions_share_a_flow(
    state: StateView,
    a: Endpoint,
    b: Endpoint,
    there: PacketMeta,
    back: PacketMeta,
)
    requires
        (there.key, there.dir) == FlowKey::canonical_of(a, b, there.proto),
        (back.key, back.dir) == FlowKey::canonical_of(b, a, back.proto),
        there.proto == back.proto,
    ensures
        !state.observed(there).is_new_flow(back),
        state.observed(there).observed(back).flows.dom() == state.observed(there).flows.dom(),
{
    crate::types::law_canonical_key_is_direction_independent(a, b, there.proto);
    assert(state.observed(there).flows.dom().insert(back.key) =~= state.observed(there).flows.dom());
}

// Keys of the engine's tables.

const HASH_FACTOR: u64 = 0x9e37_79b9_7f4a_7c15;

/// A hash with one more word mixed in.
spec fn mixed(h: u64, word: u64) -> u64 {
    let m = vstd::wrapping::u64_specs::wrapping_mul(h ^ word, HASH_FACTOR);
    m ^ (m >> 32)
}

fn mix(h: u64, word: u64) -> (r: u64)
    ensures
        r == mixed(h, word),
{
    let m: u64 = (h ^ word).wrapping_mul(HASH_FACTOR);
    m ^ (m >> 32)
}

/// A hash with an endpoint mixed in.
spec fn mixed_endpoint(h: u64, e: Endpoint) -> u64 {
    match e.ip {
        IpAddr::V4(n) => mixed(mixed(h, n as u64), e.port as u64),
        IpAddr::V6(n) => mixed(
            mixed(mixed(h, (n / 0x1_0000_0000_0000_0000) as u64), (n % 0x1_0000_0000_0000_0000) as u64),
            e.port as u64,
        ),
    }
}

fn mix_endpoint(h: u64, e: &Endpoint) -> (r: u64)
    ensures
        r == mixed_endpoint(h, *e),
{
    match e.ip {
        IpAddr::V4(n) => mix(mix(h, n as u64), e.port as u64),
        IpAddr::V6(n) => mix(
            mix(mix(h, (n / 0x1_0000_0000_0000_0000) as u64), (n % 0x1_0000_0000_0000_0000) as u64),
            e.port as u64,
        ),
    }
}

impl TableKey for Endpoint {
    closed spec fn hashed(&self) -> u64 {
        mixed_endpoint(0, *self)
    }

    fn hash_code(&self) -> (h: u64) {
        mix_endpoint(0, self)
    }

    fn same(&self, other: &Endpoint) -> (r: bool) {
        *self == *other
    }
}

impl TableKey for FlowKey {
    closed spec fn hashed(&self) -> u64 {
        mixed_endpoint(
            mixed_endpoint(
                if self.proto == Protocol::Tcp {
                    6
                } else {
                    17
                },
                self.low,
            ),
            self.high,
        )
    }

    fn hash_code(&self) -> (h: u64) {
        let start: u64 = if self.proto == Protocol::Tcp {
            6
        } else {
            17
        };
        mix_endpoint(mix_endpoint(start, &self.low), &self.high)
    }

    fn same(&self, other: &FlowKey) -> (r: bool) {
        *self == *other
    }
}

/// Host-wide, cross-flow signals.
pub struct Globals {
    pub rst_rate: RollingRate,
    pub new_flow_rate: RollingRate,
    /// Concurrent half-open connections per server endpoint.
    pub half_open: Table<Endpoint, u32>,
}

impl Globals {
    /// The invariants of the parts.
    pub open spec fn wf(self) -> bool {
        self.rst_rate.wf() && self.new_flow_rate.wf() && self.half_open.wf()
    }

    fn new() -> (g: Globals)
        ensures
            g.wf(),
            g.rst_rate.spare() == u64::MAX,
            g.new_flow_rate.spare() == u64::MAX,
            g.rst_rate@ == RateView::empty(1),
            g.new_flow_rate@ == RateView::empty(1),
            g.half_open@ == Map::<Endpoint, u32>::empty(),
    {
        Globals {
            rst_rate: RollingRate::new(1),
            new_flow_rate: RollingRate::new(1),
            half_open: Table::new(),
        }
    }

    /// The half-open connections to a service.
    pub fn half_open_for(&self, ep: &Endpoint) -> (n: u32)
        requires
            self.wf(),
        ensures
            n == count_at(self.half_open@, *ep),
    {
        match self.half_open.get(ep) {
            Some(n) => *n,
            None => 0,
        }
    }

    /// The most half-open connections that any service has.
    pub fn half_open_max(&self) -> (n: u32)
        requires
            self.wf(),
        ensures
            is_most_half_open(self.half_open@, n),
    {
        let keys = self.half_open.keys();
        let mut n: u32 = 0;
        let mut i: usize = 0;
        while i < keys.len()
            invariant
                self.wf(),
                keys@.to_set() == self.half_open@.dom(),
                i <= keys@.len(),
                forall|j: int| 0 <= j < i ==> count_at(self.half_open@, #[trigger] keys@[j]) <= n,
                n == 0 || exists|ep: Endpoint| #[trigger]
                    self.half_open@.contains_key(ep) && self.half_open@[ep] == n,
            decreases keys@.len() - i,
        {
            let c: u32 = self.half_open_for(&keys[i]);
            if c > n {
                assert(keys@.to_set().contains(keys@[i as int]));
                assert(self.half_open@.contains_key(keys@[i as int]));
                n = c;
            }
            i = i + 1;
        }
        assert forall|ep: Endpoint| #[trigger]
            self.half_open@.contains_key(ep) implies self.half_open@[ep] <= n by {
            assert(keys@.to_set().contains(ep));
            let j = choose|j: int| 0 <= j < keys@.len() && keys@[j] == ep;
            assert(count_at(self.half_open@, keys@[j]) <= n);
        }
        n
    }
}

/// `n` is the largest of the counters, or zero where there is none.
pub open spec fn is_most_half_open(counts: Map<Endpoint, u32>, n: u32) -> bool {
    &&& forall|ep: Endpoint| #[trigger] counts.contains_key(ep) ==> counts[ep] <= n
    &&& n == 0 || exists|ep: Endpoint| #[trigger] counts.contains_key(ep) && counts[ep] == n
}

/// Owns the flow table, host-wide counters, and thresholds.
pub struct EngineState {
    pub cfg: DetectConfig,
    pub flows: Table<FlowKey, FlowState>,
    pub globals: Globals,
}

impl View for EngineState {
    type V = StateView;

    open spec fn view(&self) -> StateView {
        StateView {
            cfg: self.cfg@,
            flows: self.flows@,
            half_open: self.globals.half_open@,
            rst_rate: self.globals.rst_rate@,
            new_flow_rate: self.globals.new_flow_rate@,
        }
    }
}

impl EngineState {
    /// The engine state's invariant.
    pub open spec fn wf(self) -> bool {
        &&& self.flows.wf()
        &&& self.globals.wf()
        &&& self@.consistent()
    }

    /// The counters can take one more packet.
    pub open spec fn room_for(self, pkt: PacketMeta) -> bool {
        &&& self@.flow_before(pkt).room_for(pkt)
        &&& self@.room_to_count(pkt)
        &&& self@.is_new_flow(pkt) ==> self.flows@.dom().len() < usize::MAX
            && self.globals.new_flow_rate.has_room()
        &&& is_reset(pkt) ==> self.globals.rst_rate.has_room()
        &&& self@.flow_before(pkt).starts_half_open(pkt) ==> self.globals.half_open@.dom().len()
            < usize::MAX
    }

    /// The counters can take `n` more packets, whatever they are.
    pub open spec fn has_spare(self, n: nat) -> bool {
        &&& self@.has_spare(n)
        &&& self.globals.rst_rate.spare() >= n
        &&& self.globals.new_flow_rate.spare() >= n
    }

    /// How many more packets the counters can take, counting up to `most`.
    pub open spec fn spare_up_to(self, most: nat) -> nat
        decreases most,
    {
        if most == 0 || self.has_spare(most) {
            most
        } else {
            self.spare_up_to((most - 1) as nat)
        }
    }

    /// How many more packets the counters can surely take, whatever they are.
    pub open spec fn spare(self) -> nat {
        self.spare_up_to(u32::MAX as nat)
    }

    proof fn lemma_spare_up_to(self, most: nat)
        ensures
            self.spare_up_to(most) <= most,
            self.spare_up_to(most) > 0 ==> self.has_spare(self.spare_up_to(most)),
            forall|n: nat| n <= most && #[trigger] self.has_spare(n) ==> n <= self.spare_up_to(most),
        decreases most,
    {
        if most > 0 && !self.has_spare(most) {
            self.lemma_spare_up_to((most - 1) as nat);
        }
    }

    /// Spare room is room for any packet.
    pub proof fn lemma_spare_is_room(self, pkt: PacketMeta)
        requires
            self.wf(),
            self.spare() > 0,
        ensures
            self.room_for(pkt),
    {
        self.lemma_spare_up_to(u32::MAX as nat);
        lemma_observed_has_spare(self@, pkt, (self.spare() - 1) as nat);
    }

    /// A state that can take all that this one can, but for one packet, has as much to spare,
    /// but for one.
    proof fn lemma_spare_less_one(self, next: EngineState)
        requires
            forall|n: nat|
                0 < n <= u32::MAX && #[trigger] self.has_spare(n) ==> next.has_spare(
                    (n - 1) as nat,
                ),
        ensures
            next.spare() + 1 >= self.spare(),
    {
        self.lemma_spare_up_to(u32::MAX as nat);
        next.lemma_spare_up_to(u32::MAX as nat);
        let n = self.spare();
        if n > 1 {
            assert(self.has_spare(n));
            assert(next.has_spare((n - 1) as nat));
        }
    }

    /// A state that can take all that this one can has as much to spare.
    pub proof fn lemma_spare_kept(self, next: EngineState)
        requires
            forall|n: nat|
                0 < n <= u32::MAX && #[trigger] self.has_spare(n) ==> next.has_spare(n),
        ensures
            next.spare() >= self.spare(),
    {
        self.lemma_spare_up_to(u32::MAX as nat);
        next.lemma_spare_up_to(u32::MAX as nat);
        if self.spare() > 0 {
            assert(self.has_spare(self.spare()));
        }
    }

    /// A state that has seen nothing.
    pub fn new(cfg: DetectConfig) -> (s: EngineState)
        ensures
            s.wf(),
            s@ == StateView::empty(cfg@),
            s.spare() == u32::MAX,
    {
        let s = EngineState { cfg, flows: Table::new(), globals: Globals::new() };
        proof {
            let none = s@;
            assert forall|service: Endpoint|
                #![trigger count_at(none.half_open, service)]
                count_at(none.half_open, service) == half_open_flows(none.flows, service).len() by {
                assert(half_open_flows(none.flows, service) =~= Set::empty());
            }
            assert(s.has_spare(u32::MAX as nat));
        }
        s
    }

    /// Reconstruct the observed (src, dst) endpoints from a canonical packet.
    fn endpoints(pkt: &PacketMeta) -> (r: (Endpoint, Endpoint))
        ensures
            r == (source(*pkt), destination(*pkt)),
    {
        match pkt.dir {
            Direction::Forward => (pkt.key.low, pkt.key.high),
            Direction::Reverse => (pkt.key.high, pkt.key.low),
        }
    }

    fn guess_service(pkt: &PacketMeta) -> (r: Endpoint)
        ensures
            r == service_of(*pkt),
    {
        let (src, dst) = Self::endpoints(pkt);
        if pkt.proto == Protocol::Tcp && pkt.flags.is_syn_only() {
            return dst;  // definitive: destination of a bare SYN is the server
        }
        if dst.port <= src.port {
            dst
        } else {
            src
        }
    }

    /// The packet's flow, or a fresh one for a flow not seen before.
    fn flow_for(&self, pkt: &PacketMeta) -> (r: (FlowState, bool))
        requires
            self.wf(),
        ensures
            r == (self@.flow_before(*pkt), self@.is_new_flow(*pkt)),
    {
        match self.flows.get(&pkt.key) {
            Some(f) => (*f, false),
            None => (FlowState::new(pkt.proto, pkt.ts_nanos, Self::guess_service(pkt)), true),
        }
    }

    /// Whether the counters can take one more packet.
    pub fn has_room(&self, pkt: &PacketMeta) -> (r: bool)
        requires
            self.wf(),
        ensures
            r == self.room_for(*pkt),
    {
        let (flow, new_flow) = self.flow_for(pkt);
        let (_, dst) = Self::endpoints(pkt);
        let side = pkt.dir.index();
        if pkt.proto == Protocol::Tcp {
            let f: &TcpFlags = &pkt.flags;
            if f.is_syn_only() {
                if flow.syn_time_ns.is_none() && !flow.half_open_counted && (
                self.globals.half_open.len() == usize::MAX || self.globals.half_open_for(&dst)
                    == u32::MAX) {
                    return false;
                }
            } else if f.is_syn_ack() {
            } else if f.rst() {
                if !self.globals.rst_rate.room() {
                    return false;
                }
            } else {
                if pkt.payload_len > 0 && flow.data_segments == u64::MAX {
                    return false;
                }
                if f.ack() && pkt.payload_len == 0 && !f.fin() && flow.last_ack[side] == Some(pkt.ack)
                    && flow.dup_ack_count[side] == u32::MAX {
                    return false;
                }
            }
        }
        proof {
            self.globals.half_open.lemma_finite();
        }
        !new_flow || (self.flows.len() < usize::MAX && self.globals.new_flow_rate.room())
    }

    /// Ingest one packet, update state, and return `(flow key, delta)`.
    #[verifier::rlimit(40)]
    pub fn update(&mut self, pkt: &PacketMeta) -> (r: (FlowKey, PacketDelta))
        requires
            old(self).wf(),
            old(self).room_for(*pkt),
        ensures
            final(self).wf(),
            final(self)@ == old(self)@.observed(*pkt),
            forall|ep: Endpoint|
                #![trigger count_at(final(self)@.half_open, ep)]
                count_at(final(self)@.half_open, ep) == half_open_flows(
                    final(self)@.flows,
                    ep,
                ).len(),
            final(self).spare() + 1 >= old(self).spare(),
            r == (pkt.key, old(self)@.delta(*pkt)),
    {
        let key = pkt.key;
        let now = pkt.ts_nanos;
        let mut d = PacketDelta::default();
        proof {
            law_observed_keeps_consistent(self@, *pkt);
            if self@.flow_before(*pkt).half_open_counted {
                lemma_counted_at_service(self@, pkt.key);
            }
        }
        let (mut flow, new_flow) = self.flow_for(pkt);
        let ghost before = flow;
        if new_flow {
            d.new_flow = true;
            self.globals.new_flow_rate.record(now);
        }
        flow.last_seen_ns = now;

        if pkt.proto == Protocol::Tcp {
            let di: usize = pkt.dir.index();
            let f: &TcpFlags = &pkt.flags;

            if f.is_syn_only() {
                if flow.syn_time_ns.is_none() {
                    // Definitive, whatever the server was taken for so far.
                    let (_, dst) = Self::endpoints(pkt);
                    flow.service = dst;
                    flow.syn_time_ns = Some(now);
                    flow.state = TcpState::SynSent;
                    if !flow.half_open_counted {
                        let n: u32 = self.globals.half_open_for(&flow.service);
                        self.globals.half_open.insert(flow.service, n + 1);
                        flow.half_open_counted = true;
                    }
                }
                flow.next_seq[di] = Some(pkt.seq.wrapping_add(1));
            } else if f.is_syn_ack() {
                flow.synack_time_ns = Some(now);
                flow.state = TcpState::SynAckSeen;
                if let Some(syn) = flow.syn_time_ns {
                    let rtt: u64 = if now >= syn {
                        now - syn
                    } else {
                        0
                    };
                    flow.rtt_ns = Some(rtt);
                    d.rtt_sample_ns = Some(rtt);
                }
                flow.next_seq[di] = Some(pkt.seq.wrapping_add(1));
            } else if f.rst() {
                d.rst = true;
                self.globals.rst_rate.record(now);
                if flow.state == TcpState::SynSent || flow.state == TcpState::SynAckSeen {
                    d.handshake_refused = true;
                }
                flow.state = TcpState::Reset;
                clear_half_open(&mut flow, &mut self.globals);
            } else {
                // Established / data / pure-ACK / FIN.
                if flow.state == TcpState::SynAckSeen && f.ack() {
                    flow.state = TcpState::Established;
                    flow.established = true;
                    d.established_now = true;
                    clear_half_open(&mut flow, &mut self.globals);
                }
                if f.fin() {
                    flow.state = TcpState::Closing;
                    clear_half_open(&mut flow, &mut self.globals);
                }
                d.zero_window_edge = flow.track_window(pkt);
                if pkt.payload_len > 0 {
                    let (retransmit, gap) = flow.track_data(pkt);
                    d.is_retransmit = retransmit;
                    d.is_out_of_order = gap;
                }
                if f.ack() && pkt.payload_len == 0 && !f.fin() {
                    if let Some(run) = flow.track_ack(pkt) {
                        d.is_dup_ack = true;
                        d.dup_ack_count = run;
                    }
                }
            }
        }
        d.service = Some(flow.service);
        proof {
            assert(flow =~= before.observed(*pkt));
        }
        self.flows.insert(key, flow);
        proof {
            assert forall|n: nat|
                0 < n <= u32::MAX && #[trigger] old(self).has_spare(n) implies self.has_spare(
                (n - 1) as nat,
            ) by {
                lemma_observed_has_spare(old(self)@, *pkt, (n - 1) as nat);
            }
            old(self).lemma_spare_less_one(*self);
        }
        (key, d)
    }
}

impl EngineState {
    /// Marks a flow's handshake timeout as reported.
    pub fn flag_timeout(&mut self, k: FlowKey)
        requires
            old(self).wf(),
            old(self).flows@.contains_key(k),
        ensures
            final(self).wf(),
            final(self)@.flows == old(self)@.flows.insert(k, old(self)@.flows[k].timed_out()),
            final(self)@.half_open.dom() == old(self)@.half_open.dom(),
            final(self)@.cfg == old(self)@.cfg,
            final(self).globals.rst_rate == old(self).globals.rst_rate,
            final(self).globals.new_flow_rate == old(self).globals.new_flow_rate,
    {
        if let Some(f) = self.flows.get(&k) {
            let mut flow = *f;
            proof {
                if flow.half_open_counted {
                    lemma_counted_at_service(self@, k);
                }
            }
            flow.handshake_timeout_flagged = true;
            clear_half_open(&mut flow, &mut self.globals);
            self.flows.insert(k, flow);
            proof {
                lemma_settled(old(self)@, self@, k);
                assert(self@.half_open.dom() =~= old(self)@.half_open.dom());
            }
        }
    }

    /// Forgets a flow.
    pub fn evict(&mut self, k: FlowKey)
        requires
            old(self).wf(),
            old(self).flows@.contains_key(k),
        ensures
            final(self).wf(),
            final(self)@.flows == old(self)@.flows.remove(k),
            final(self)@.half_open.dom() == old(self)@.half_open.dom(),
            final(self)@.cfg == old(self)@.cfg,
            final(self).globals.rst_rate == old(self).globals.rst_rate,
            final(self).globals.new_flow_rate == old(self).globals.new_flow_rate,
    {
        if let Some(f) = self.flows.remove(&k) {
            let mut flow = f;
            proof {
                if flow.half_open_counted {
                    lemma_counted_at_service(old(self)@, k);
                }
            }
            clear_half_open(&mut flow, &mut self.globals);
            proof {
                lemma_settled(old(self)@, self@, k);
                assert(self@.half_open.dom() =~= old(self)@.half_open.dom());
            }
        }
    }
}

/// Taking a flow out of the half-open count, with the flow or without, keeps the state
/// consistent.
proof fn lemma_settled(before: StateView, after: StateView, k: FlowKey)
    requires
        before.consistent(),
        before.flows.contains_key(k),
        after.flows == before.flows.remove(k) || after.flows == before.flows.insert(
            k,
            before.flows[k].timed_out(),
        ),
        after.half_open == (if before.flows[k].half_open_counted {
            before.half_open.insert(
                before.flows[k].service,
                (count_at(before.half_open, before.flows[k].service) - 1) as u32,
            )
        } else {
            before.half_open
        }),
    ensures
        after.consistent(),
{
    let f = before.flows[k];
    if f.half_open_counted {
        lemma_counted_at_service(before, k);
    }
    assert forall|service: Endpoint|
        #![trigger count_at(after.half_open, service)]
        count_at(after.half_open, service) == half_open_flows(after.flows, service).len() by {
        lemma_half_open_insert(before.flows, k, f.timed_out(), service);
        lemma_half_open_remove(before.flows, k, service);
        let counted = half_open_flows(before.flows, service);
        assert(count_at(before.half_open, service) == counted.len());
        assert(counted.contains(k) <==> f.half_open_counted && f.service == service);
    }
    if after.flows == before.flows.remove(k) {
        assert(after.flows.dom() =~= before.flows.dom().remove(k));
    } else {
        assert(after.flows.dom() =~= before.flows.dom());
    }
}

fn clear_half_open(flow: &mut FlowState, globals: &mut Globals)
    requires
        old(globals).wf(),
        old(flow).half_open_counted ==> old(globals).half_open@.contains_key(old(flow).service)
            && old(globals).half_open@[old(flow).service] >= 1,
    ensures
        final(globals).wf(),
        *final(flow) == (FlowState { half_open_counted: false, ..*old(flow) }),
        final(globals).rst_rate == old(globals).rst_rate,
        final(globals).new_flow_rate == old(globals).new_flow_rate,
        final(globals).half_open@ == (if old(flow).half_open_counted {
            old(globals).half_open@.insert(
                old(flow).service,
                (old(globals).half_open@[old(flow).service] - 1) as u32,
            )
        } else {
            old(globals).half_open@
        }),
{
    if flow.half_open_counted {
        flow.half_open_counted = false;
        if let Some(c) = globals.half_open.get(&flow.service) {
            let n: u32 = *c;
            globals.half_open.insert(flow.service, n - 1);
        }
    }
}

} // verus!
