//! Header parsing: link layer -> IPv4/IPv6 -> TCP/UDP -> PacketMeta.
//!
//! Deliberately tolerant: on any truncated/unknown packet we return `None` rather than
//! erroring, because capture streams routinely contain frames we do not care about. Only
//! structural stream errors abort the pipeline.

use vstd::prelude::*;
use vstd::slice::slice_subrange;

use crate::address;
use crate::address::IpAddr;
use crate::bytes;
use crate::types::{Endpoint, FlowKey, PacketMeta, Protocol, TcpFlags};

verus! {

// Common DLT / LINKTYPE values.

/// Ethernet II.
pub const DLT_EN10MB: u32 = 1;

/// Raw IP.
pub const DLT_RAW: u32 = 101;

/// Linux "cooked" v1.
pub const DLT_LINUX_SLL: u32 = 113;

/// BSD loopback (4-byte family header).
pub const DLT_NULL: u32 = 0;

pub const ETH_P_IP: u16 = 0x0800;

pub const ETH_P_IPV6: u16 = 0x86DD;

pub const ETH_P_VLAN: u16 = 0x8100;

pub const ETH_P_QINQ: u16 = 0x88A8;

pub const IPPROTO_TCP: u8 = 6;

pub const IPPROTO_UDP: u8 = 17;

/// How many IPv6 extension headers are walked.
pub const MAX_EXTENSION_HEADERS: u8 = 8;

// ---------------------------------------------------------------------------
// What the bytes say
// ---------------------------------------------------------------------------

/// The big-endian number in two bytes from `at` on.
pub open spec fn number16(s: Seq<u8>, at: int) -> u16 {
    bytes::be_value(bytes::part(s, at, 2)) as u16
}

/// The big-endian number in four bytes from `at` on.
pub open spec fn number32(s: Seq<u8>, at: int) -> u32 {
    bytes::be_value(bytes::part(s, at, 4)) as u32
}

/// The network protocol of an IP version number.
pub open spec fn version_ethertype(first: u8) -> Option<u16> {
    if first / 16 == 4 {
        Some(ETH_P_IP)
    } else if first / 16 == 6 {
        Some(ETH_P_IPV6)
    } else {
        None
    }
}

/// The ethertype at `at`, past up to `tags` VLAN or QinQ tags, and what follows it.
pub open spec fn ethernet_payload(s: Seq<u8>, at: int, tags: nat) -> Option<(u16, Seq<u8>)>
    decreases tags,
{
    if s.len() < at + 2 {
        None
    } else {
        let et = number16(s, at);
        if tags > 0 && (et == ETH_P_VLAN || et == ETH_P_QINQ) {
            ethernet_payload(s, at + 4, (tags - 1) as nat)
        } else {
            Some((et, s.skip(at + 2)))
        }
    }
}

/// The ethertype of a frame and its network-layer bytes.
pub open spec fn link_payload(linktype: u32, s: Seq<u8>) -> Option<(u16, Seq<u8>)> {
    if linktype == DLT_EN10MB {
        ethernet_payload(s, 12, 2)
    } else if linktype == DLT_LINUX_SLL {
        if s.len() < 16 {
            None
        } else {
            Some((number16(s, 14), s.skip(16)))
        }
    } else if linktype == DLT_RAW {
        if s.len() < 1 {
            None
        } else {
            match version_ethertype(s[0]) {
                Some(et) => Some((et, s)),
                None => None,
            }
        }
    } else if linktype == DLT_NULL {
        if s.len() < 5 {
            None
        } else {
            match version_ethertype(s[4]) {
                Some(et) => Some((et, s.skip(4))),
                None => None,
            }
        }
    } else {
        None
    }
}

/// `a - b`, or zero where that is negative.
pub open spec fn less(a: int, b: int) -> int {
    if a >= b {
        a - b
    } else {
        0
    }
}

/// The addresses, hop limit, time and interface that a packet's layers share.
#[derive(Clone, Copy, Debug)]
pub struct Envelope {
    pub src: IpAddr,
    pub dst: IpAddr,
    pub ttl: u8,
    pub ts_nanos: u64,
    pub iface: u32,
}

impl Envelope {
    /// A packet in this envelope.
    pub open spec fn packet(
        self,
        sport: u16,
        dport: u16,
        proto: Protocol,
        flags: TcpFlags,
        seq: u32,
        ack: u32,
        window: u32,
        payload_len: u32,
    ) -> PacketMeta {
        let (key, dir) = FlowKey::canonical_of(
            Endpoint { ip: self.src, port: sport },
            Endpoint { ip: self.dst, port: dport },
            proto,
        );
        PacketMeta {
            ts_nanos: self.ts_nanos,
            key,
            dir,
            proto,
            flags,
            seq,
            ack,
            window,
            payload_len,
            ttl: self.ttl,
            iface: self.iface,
        }
    }
}

/// The packet that a transport header starts; `len` is the length that IP gives the
/// header and its payload.
pub open spec fn transport_packet(proto: u8, e: Envelope, l4: Seq<u8>, len: int) -> Option<
    PacketMeta,
> {
    if proto == IPPROTO_TCP {
        if l4.len() < 20 || l4[12] / 16 * 4 < 20 {
            None
        } else {
            Some(
                e.packet(
                    number16(l4, 0),
                    number16(l4, 2),
                    Protocol::Tcp,
                    TcpFlags((l4[13] % 64) as u8),
                    number32(l4, 4),
                    number32(l4, 8),
                    number16(l4, 14) as u32,
                    less(len, l4[12] / 16 * 4) as u32,
                ),
            )
        }
    } else if proto == IPPROTO_UDP {
        if l4.len() < 8 {
            None
        } else {
            Some(
                e.packet(
                    number16(l4, 0),
                    number16(l4, 2),
                    Protocol::Udp,
                    TcpFlags(0),
                    0,
                    0,
                    0,
                    less(number16(l4, 4) as int, 8) as u32,
                ),
            )
        }
    } else {
        None
    }
}

/// The packet in an IPv4 datagram. The length is clamped to what was captured.
pub open spec fn ipv4_packet(d: Seq<u8>, ts_nanos: u64, iface: u32) -> Option<PacketMeta> {
    let ihl = d[0] % 16 * 4;
    if d.len() < 20 || ihl < 20 || d.len() < ihl {
        None
    } else {
        let announced = less(number16(d, 2) as int, ihl);
        let captured = d.len() - ihl;
        transport_packet(
            d[9],
            Envelope {
                src: IpAddr::V4(
                    address::octets_value(
                        d[12] as int,
                        d[13] as int,
                        d[14] as int,
                        d[15] as int,
                    ) as u32,
                ),
                dst: IpAddr::V4(
                    address::octets_value(
                        d[16] as int,
                        d[17] as int,
                        d[18] as int,
                        d[19] as int,
                    ) as u32,
                ),
                ttl: d[8],
                ts_nanos,
                iface,
            },
            d.skip(ihl),
            if announced < captured {
                announced
            } else {
                captured
            },
        )
    }
}

/// The next header's number and position, past the extension header `next` at `at`.
pub open spec fn past_extension(d: Seq<u8>, next: u8, at: int) -> Option<(u8, int)> {
    if next == 0 || next == 43 || next == 60 || next == 51 {
        // Hop-by-hop / Routing / Dest-opts / AH: (next, hdr_ext_len).
        if d.len() < at + 2 {
            None
        } else if next == 51 {
            // The length of an AH is in 4-byte units, plus two.
            Some((d[at], at + (d[at + 1] + 2) * 4))
        } else {
            Some((d[at], at + (d[at + 1] + 1) * 8))
        }
    } else if next == 44 {
        // Fragment header.
        if d.len() < at + 1 {
            None
        } else {
            Some((d[at], at + 8))
        }
    } else {
        None
    }
}

/// The transport header's number and position, past up to `left` extension headers that
/// all end before `end`.
pub open spec fn transport_at(d: Seq<u8>, next: u8, at: int, end: int, left: nat) -> Option<
    (u8, int),
>
    decreases left,
{
    if left == 0 || next == IPPROTO_TCP || next == IPPROTO_UDP {
        Some((next, at))
    } else {
        match past_extension(d, next, at) {
            Some((n, to)) => if to >= end {
                None
            } else {
                transport_at(d, n, to, end, (left - 1) as nat)
            },
            None => None,
        }
    }
}

/// Where an IPv6 packet ends: as announced, clamped to what was captured.
pub open spec fn ipv6_end(d: Seq<u8>) -> int {
    let announced = 40 + number16(d, 4);
    if announced < d.len() {
        announced
    } else {
        d.len() as int
    }
}

/// The packet in an IPv6 datagram.
pub open spec fn ipv6_packet(d: Seq<u8>, ts_nanos: u64, iface: u32) -> Option<PacketMeta> {
    if d.len() < 40 {
        None
    } else {
        match transport_at(d, d[6], 40, ipv6_end(d), MAX_EXTENSION_HEADERS as nat) {
            Some((next, at)) => transport_packet(
                next,
                Envelope {
                    src: IpAddr::V6(bytes::be_value(bytes::part(d, 8, 16)) as u128),
                    dst: IpAddr::V6(bytes::be_value(bytes::part(d, 24, 16)) as u128),
                    ttl: d[7],
                    ts_nanos,
                    iface,
                },
                d.skip(at),
                less(ipv6_end(d), at),
            ),
            None => None,
        }
    }
}

/// The packet in a link-layer frame.
pub open spec fn frame_packet(linktype: u32, s: Seq<u8>, ts_nanos: u64, iface: u32) -> Option<
    PacketMeta,
> {
    match link_payload(linktype, s) {
        Some((et, l3)) => if et == ETH_P_IP {
            ipv4_packet(l3, ts_nanos, iface)
        } else if et == ETH_P_IPV6 {
            ipv6_packet(l3, ts_nanos, iface)
        } else {
            None
        },
        None => None,
    }
}

/// A packet read from a frame bears the frame's time and interface, and its key is in
/// canonical order.
pub proof fn law_frame_packet_is_normalized(linktype: u32, s: Seq<u8>, ts_nanos: u64, iface: u32)
    ensures
        match frame_packet(linktype, s, ts_nanos, iface) {
            Some(p) => {
                &&& p.ts_nanos == ts_nanos
                &&& p.iface == iface
                &&& p.key.proto == p.proto
                &&& p.key.low.before_or_same(p.key.high)
                &&& p.proto == Protocol::Udp ==> p.flags.0 == 0 && p.seq == 0 && p.ack == 0
            },
            None => true,
        },
{
}

/// A TCP packet's payload never exceeds what was captured, nor what an IP length can say.
pub proof fn law_payload_within_frame(linktype: u32, s: Seq<u8>, ts_nanos: u64, iface: u32)
    ensures
        match frame_packet(linktype, s, ts_nanos, iface) {
            Some(p) => p.proto == Protocol::Tcp ==> p.payload_len <= s.len() && p.payload_len
                <= 0xffff,
            None => true,
        },
{
    match link_payload(linktype, s) {
        Some((et, l3)) => {
            lemma_link_payload_shorter(linktype, s);
            if et == ETH_P_IPV6 && l3.len() >= 40 {
                lemma_transport_at_forward(
                    l3,
                    l3[6],
                    40,
                    ipv6_end(l3),
                    MAX_EXTENSION_HEADERS as nat,
                );
            }
        },
        None => {},
    }
}

proof fn lemma_ethernet_payload_shorter(s: Seq<u8>, at: int, tags: nat)
    requires
        at >= 0,
    ensures
        match ethernet_payload(s, at, tags) {
            Some((_, l3)) => l3.len() <= s.len(),
            None => true,
        },
    decreases tags,
{
    if tags > 0 {
        lemma_ethernet_payload_shorter(s, at + 4, (tags - 1) as nat);
    }
}

proof fn lemma_link_payload_shorter(linktype: u32, s: Seq<u8>)
    ensures
        match link_payload(linktype, s) {
            Some((_, l3)) => l3.len() <= s.len(),
            None => true,
        },
{
    lemma_ethernet_payload_shorter(s, 12, 2);
}

proof fn lemma_transport_at_forward(d: Seq<u8>, next: u8, at: int, end: int, left: nat)
    requires
        at >= 0,
    ensures
        match transport_at(d, next, at, end, left) {
            Some((_, to)) => at <= to && (to == at || to < end),
            None => true,
        },
    decreases left,
{
    if left > 0 {
        match past_extension(d, next, at) {
            Some((n, to)) => {
                lemma_transport_at_forward(d, n, to, end, (left - 1) as nat);
            },
            None => {},
        }
    }
}

// ---------------------------------------------------------------------------
// Parsing
// ---------------------------------------------------------------------------

/// Parse a full link-layer frame into a normalized [`PacketMeta`].
pub fn parse_frame(linktype: u32, data: &[u8], ts_nanos: u64, iface: u32) -> (r: Option<PacketMeta>)
    ensures
        r == frame_packet(linktype, data@, ts_nanos, iface),
{
    match strip_link(linktype, data) {
        Some((ethertype, l3)) => if ethertype == ETH_P_IP {
            parse_ipv4(l3, ts_nanos, iface)
        } else if ethertype == ETH_P_IPV6 {
            parse_ipv6(l3, ts_nanos, iface)
        } else {
            None
        },
        None => None,
    }
}

fn ip_version(first: u8) -> (r: Option<u16>)
    ensures
        r == version_ethertype(first),
{
    let v: u8 = first / 16;
    if v == 4 {
        Some(ETH_P_IP)
    } else if v == 6 {
        Some(ETH_P_IPV6)
    } else {
        None
    }
}

/// Remove the link-layer header and return the L3 ethertype plus the L3 slice.
pub fn strip_link<'a>(linktype: u32, data: &'a [u8]) -> (r: Option<(u16, &'a [u8])>)
    ensures
        match r {
            Some((et, l3)) => link_payload(linktype, data@) == Some((et, l3@)),
            None => link_payload(linktype, data@) is None,
        },
{
    let len: usize = data.len();
    if linktype == DLT_EN10MB {
        let mut at: usize = 12;
        let mut tags: u8 = 2;
        // Walk one or two VLAN/QinQ tags.
        loop
            invariant
                len == data@.len(),
                at <= 20,
                at + 4 * tags == 20,
                link_payload(linktype, data@) == ethernet_payload(data@, at as int, tags as nat),
            decreases tags,
        {
            match bytes::be16(data, at) {
                Some(et) => {
                    if tags > 0 && (et == ETH_P_VLAN || et == ETH_P_QINQ) {
                        at = at + 4;
                        tags = tags - 1;
                    } else {
                        return Some((et, slice_subrange(data, at + 2, len)));
                    }
                },
                None => {
                    return None;
                },
            }
        }
    } else if linktype == DLT_LINUX_SLL {
        // 16-byte cooked header; ethertype at offset 14.
        match bytes::be16(data, 14) {
            Some(et) => Some((et, slice_subrange(data, 16, len))),
            None => None,
        }
    } else if linktype == DLT_RAW {
        if len < 1 {
            return None;
        }
        match ip_version(data[0]) {
            Some(et) => Some((et, data)),
            None => None,
        }
    } else if linktype == DLT_NULL {
        // 4-byte host-endian address family; detect by IP version nibble.
        if len < 5 {
            return None;
        }
        match ip_version(data[4]) {
            Some(et) => Some((et, slice_subrange(data, 4, len))),
            None => None,
        }
    } else {
        None
    }
}

fn parse_ipv4(d: &[u8], ts_nanos: u64, iface: u32) -> (r: Option<PacketMeta>)
    ensures
        r == ipv4_packet(d@, ts_nanos, iface),
{
    if d.len() < 20 {
        return None;
    }
    let ihl: usize = (d[0] % 16) as usize * 4;
    if ihl < 20 || d.len() < ihl {
        return None;
    }
    let total_len: usize = match bytes::be16(d, 2) {
        Some(n) => n as usize,
        None => {
            return None;
        },
    };
    let e = Envelope {
        src: IpAddr::v4(d[12], d[13], d[14], d[15]),
        dst: IpAddr::v4(d[16], d[17], d[18], d[19]),
        ttl: d[8],
        ts_nanos,
        iface,
    };
    // Payload length reported by IP, clamped to what we actually captured.
    let announced: usize = if total_len >= ihl {
        total_len - ihl
    } else {
        0
    };
    let captured: usize = d.len() - ihl;
    let ip_payload: usize = if announced < captured {
        announced
    } else {
        captured
    };
    finish(d[9], e, slice_subrange(d, ihl, d.len()), ip_payload)
}

fn parse_ipv6(d: &[u8], ts_nanos: u64, iface: u32) -> (r: Option<PacketMeta>)
    ensures
        r == ipv6_packet(d@, ts_nanos, iface),
{
    let len: usize = d.len();
    if len < 40 {
        return None;
    }
    let payload_len: usize = match bytes::be16(d, 4) {
        Some(n) => n as usize,
        None => {
            return None;
        },
    };
    let e = Envelope {
        src: IpAddr::V6(bytes::be128(d, 8)),
        dst: IpAddr::V6(bytes::be128(d, 24)),
        ttl: d[7],  // hop limit
        ts_nanos,
        iface,
    };
    let end: usize = if 40 + payload_len < len {
        40 + payload_len
    } else {
        len
    };
    // Walk a bounded number of extension headers to reach L4.
    let mut next: u8 = d[6];
    let mut off: usize = 40;
    let mut left: u8 = MAX_EXTENSION_HEADERS;
    while left > 0 && next != IPPROTO_TCP && next != IPPROTO_UDP
        invariant
            len == d@.len(),
            len >= 40,
            left <= MAX_EXTENSION_HEADERS,
            40 <= off <= len,
            end == ipv6_end(d@),
            end <= len,
            transport_at(d@, d@[6], 40, end as int, MAX_EXTENSION_HEADERS as nat) == transport_at(
                d@,
                next,
                off as int,
                end as int,
                left as nat,
            ),
        decreases left,
    {
        let step: usize;
        if next == 0 || next == 43 || next == 60 || next == 51 {
            // Hop-by-hop / Routing / Dest-opts / AH: (next, hdr_ext_len).
            if len - off < 2 {
                return None;
            }
            step = if next == 51 {
                (d[off + 1] as usize + 2) * 4
            } else {
                (d[off + 1] as usize + 1) * 8
            };
            next = d[off];
        } else if next == 44 {
            // Fragment header is fixed 8 bytes; only first fragment has L4.
            if len - off < 1 {
                return None;
            }
            next = d[off];
            step = 8;
        } else {
            return None;
        }
        if off >= end || step >= end - off {
            return None;
        }
        off = off + step;
        left = left - 1;
    }
    let l4_payload: usize = if end >= off {
        end - off
    } else {
        0
    };
    finish(next, e, slice_subrange(d, off, len), l4_payload)
}

fn finish(proto_num: u8, e: Envelope, l4: &[u8], ip_payload_len: usize) -> (r: Option<PacketMeta>)
    requires
        ip_payload_len <= u32::MAX,
    ensures
        r == transport_packet(proto_num, e, l4@, ip_payload_len as int),
{
    if proto_num == IPPROTO_TCP {
        if l4.len() < 20 {
            return None;
        }
        let data_off: usize = (l4[12] / 16) as usize * 4;
        if data_off < 20 {
            return None;
        }
        let payload_len: u32 = if ip_payload_len >= data_off {
            (ip_payload_len - data_off) as u32
        } else {
            0
        };
        match (
            bytes::be16(l4, 0),
            bytes::be16(l4, 2),
            bytes::be32(l4, 4),
            bytes::be32(l4, 8),
            bytes::be16(l4, 14),
        ) {
            (Some(sport), Some(dport), Some(seq), Some(ack), Some(window)) => Some(
                build(
                    e,
                    sport,
                    dport,
                    Protocol::Tcp,
                    TcpFlags(l4[13] % 64),
                    seq,
                    ack,
                    window as u32,
                    payload_len,
                ),
            ),
            _ => None,
        }
    } else if proto_num == IPPROTO_UDP {
        if l4.len() < 8 {
            return None;
        }
        match (bytes::be16(l4, 0), bytes::be16(l4, 2), bytes::be16(l4, 4)) {
            (Some(sport), Some(dport), Some(ulen)) => {
                let payload_len: u32 = if ulen >= 8 {
                    ulen as u32 - 8
                } else {
                    0
                };
                Some(build(e, sport, dport, Protocol::Udp, TcpFlags(0), 0, 0, 0, payload_len))
            },
            _ => None,
        }
    } else {
        None
    }
}

fn build(
    e: Envelope,
    sport: u16,
    dport: u16,
    proto: Protocol,
    flags: TcpFlags,
    seq: u32,
    ack: u32,
    window: u32,
    payload_len: u32,
) -> (p: PacketMeta)
    ensures
        p == e.packet(sport, dport, proto, flags, seq, ack, window, payload_len),
{
    let src = Endpoint::new(e.src, sport);
    let dst = Endpoint::new(e.dst, dport);
    let (key, dir) = FlowKey::canonical(src, dst, proto);
    PacketMeta {
        ts_nanos: e.ts_nanos,
        key,
        dir,
        proto,
        flags,
        seq,
        ack,
        window,
        payload_len,
        ttl: e.ttl,
        iface: e.iface,
    }
}

} // verus!
