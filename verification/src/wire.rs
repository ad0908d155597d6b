//! What frames and capture records mean, byte by byte.

use vstd::arithmetic::power2::pow2;
use vstd::prelude::*;

use crate::address::IpAddr;
use crate::bytes;
use crate::ebpf::BpfL4Event;
use crate::parse;
use crate::pcapio::{PcapStream, Scan};
use crate::types::{Direction, Endpoint, PacketMeta, Protocol};

verus! {

/// Two bytes, most significant first.
pub open spec fn two(s: Seq<u8>, i: int) -> int {
    s[i] * 0x100 + s[i + 1]
}

/// Four bytes, most significant first.
pub open spec fn four(s: Seq<u8>, i: int) -> int {
    s[i] * 0x100_0000 + s[i + 1] * 0x1_0000 + s[i + 2] * 0x100 + s[i + 3]
}

proof fn lemma_two(s: Seq<u8>, i: int)
    requires
        0 <= i,
        i + 2 <= s.len(),
    ensures
        parse::number16(s, i) == two(s, i),
{
    bytes::lemma_be2(bytes::part(s, i, 2));
}

proof fn lemma_four(s: Seq<u8>, i: int)
    requires
        0 <= i,
        i + 4 <= s.len(),
    ensures
        parse::number32(s, i) == four(s, i),
{
    bytes::lemma_be4(bytes::part(s, i, 4));
}

// ---------------------------------------------------------------------------
// Links
// ---------------------------------------------------------------------------

/// The bytes in front of a datagram: an Ethernet header with up to two VLAN tags, a Linux
/// cooked header, a loopback header, or nothing.
pub open spec fn is_link(linktype: u32, link: Seq<u8>, ethertype: int) -> bool {
    if linktype == 1 {
        ||| link.len() == 14 && two(link, 12) == ethertype
        ||| {
            &&& link.len() == 18
            &&& two(link, 12) == 0x8100 || two(link, 12) == 0x88A8
            &&& two(link, 16) == ethertype
        }
        ||| {
            &&& link.len() == 22
            &&& two(link, 12) == 0x8100 || two(link, 12) == 0x88A8
            &&& two(link, 16) == 0x8100 || two(link, 16) == 0x88A8
            &&& two(link, 20) == ethertype
        }
    } else if linktype == 113 {
        link.len() == 16 && two(link, 14) == ethertype
    } else if linktype == 101 {
        link.len() == 0
    } else {
        linktype == 0 && link.len() == 4
    }
}

proof fn lemma_link(linktype: u32, link: Seq<u8>, d: Seq<u8>, ethertype: int)
    requires
        is_link(linktype, link, ethertype),
        d.len() > 0,
        ethertype == 0x0800 && d[0] / 16 == 4 || ethertype == 0x86DD && d[0] / 16 == 6,
    ensures
        parse::link_payload(linktype, link + d) == Some((ethertype as u16, d)),
{
    let s = link + d;
    reveal_with_fuel(parse::ethernet_payload, 4);
    if linktype == 1 {
        lemma_two(s, 12);
        if link.len() >= 18 {
            lemma_two(s, 16);
        }
        if link.len() >= 22 {
            lemma_two(s, 20);
        }
        assert(s.skip(link.len() as int) =~= d);
    } else if linktype == 113 {
        lemma_two(s, 14);
        assert(s.skip(16) =~= d);
    } else if linktype == 101 {
        assert(s =~= d);
    } else {
        assert(s.skip(4) =~= d);
    }
}

proof fn lemma_frame(
    linktype: u32,
    link: Seq<u8>,
    d: Seq<u8>,
    ethertype: int,
    ts_nanos: u64,
    iface: u32,
)
    requires
        is_link(linktype, link, ethertype),
        d.len() > 0,
        ethertype == 0x0800 && d[0] / 16 == 4 || ethertype == 0x86DD && d[0] / 16 == 6,
    ensures
        parse::frame_packet(linktype, link + d, ts_nanos, iface) == (if ethertype == 0x0800 {
            parse::ipv4_packet(d, ts_nanos, iface)
        } else {
            parse::ipv6_packet(d, ts_nanos, iface)
        }),
{
    lemma_link(linktype, link, d, ethertype);
}

/// Frames of other links hold no packet, nor do Ethernet or cooked frames of other
/// network protocols, nor frames without room for a link header.
pub proof fn law_other_frames_hold_nothing(linktype: u32, s: Seq<u8>, ts_nanos: u64, iface: u32)
    requires
        ({
            ||| linktype != 0 && linktype != 1 && linktype != 101 && linktype != 113
            ||| linktype == 1 && s.len() < 14
            ||| {
                &&& linktype == 1
                &&& two(s, 12) != 0x0800
                &&& two(s, 12) != 0x86DD
                &&& two(s, 12) != 0x8100
                &&& two(s, 12) != 0x88A8
            }
            ||| linktype == 113 && s.len() < 16
            ||| linktype == 113 && two(s, 14) != 0x0800 && two(s, 14) != 0x86DD
            ||| linktype == 101 && (s.len() < 1 || s[0] / 16 != 4 && s[0] / 16 != 6)
            ||| linktype == 0 && (s.len() < 5 || s[4] / 16 != 4 && s[4] / 16 != 6)
        }),
    ensures
        parse::frame_packet(linktype, s, ts_nanos, iface) is None,
{
    if linktype == 1 && s.len() >= 14 {
        lemma_two(s, 12);
    }
    if linktype == 113 && s.len() >= 16 {
        lemma_two(s, 14);
    }
}

/// A frame whose link header names another network protocol, behind VLAN tags or not, holds
/// no packet; a third tag counts as such.
pub proof fn law_other_protocols_hold_nothing(
    linktype: u32,
    link: Seq<u8>,
    d: Seq<u8>,
    ethertype: int,
    ts_nanos: u64,
    iface: u32,
)
    requires
        linktype == 1 || linktype == 113,
        is_link(linktype, link, ethertype),
        ethertype != 0x0800,
        ethertype != 0x86DD,
        linktype == 1 && link.len() < 22 ==> ethertype != 0x8100 && ethertype != 0x88A8,
    ensures
        parse::frame_packet(linktype, link + d, ts_nanos, iface) is None,
{
    let s = link + d;
    reveal_with_fuel(parse::ethernet_payload, 4);
    if linktype == 1 {
        lemma_two(s, 12);
        if link.len() >= 18 {
            lemma_two(s, 16);
        }
        if link.len() >= 22 {
            lemma_two(s, 20);
        }
    } else {
        lemma_two(s, 14);
    }
}

// ---------------------------------------------------------------------------
// Packets
// ---------------------------------------------------------------------------

/// The packet went from `src` to `dst`.
pub open spec fn travels(p: PacketMeta, src: Endpoint, dst: Endpoint) -> bool {
    &&& p.key.proto == p.proto
    &&& if p.dir == Direction::Forward {
        p.key.low == src && p.key.high == dst
    } else {
        p.key.low == dst && p.key.high == src
    }
}

/// The packet says what the TCP header at `at` says.
pub open spec fn says_tcp(p: PacketMeta, d: Seq<u8>, at: int, src: IpAddr, dst: IpAddr) -> bool {
    &&& p.proto == Protocol::Tcp
    &&& travels(
        p,
        Endpoint { ip: src, port: two(d, at) as u16 },
        Endpoint { ip: dst, port: two(d, at + 2) as u16 },
    )
    &&& p.seq == four(d, at + 4)
    &&& p.ack == four(d, at + 8)
    &&& p.flags.0 == d[at + 13] % 64
    &&& p.window == two(d, at + 14)
}

/// The packet says what the UDP header at `at` says.
pub open spec fn says_udp(p: PacketMeta, d: Seq<u8>, at: int, src: IpAddr, dst: IpAddr) -> bool {
    &&& p.proto == Protocol::Udp
    &&& travels(
        p,
        Endpoint { ip: src, port: two(d, at) as u16 },
        Endpoint { ip: dst, port: two(d, at + 2) as u16 },
    )
    &&& p.flags.0 == 0
    &&& p.seq == 0
    &&& p.ack == 0
    &&& p.window == 0
    &&& p.payload_len == (if two(d, at + 4) >= 8 {
        two(d, at + 4) - 8
    } else {
        0
    })
}

proof fn lemma_transport(
    e: parse::Envelope,
    proto: u8,
    d: Seq<u8>,
    at: int,
    len: int,
)
    requires
        0 <= at <= d.len(),
        0 <= len <= 0xffff,
    ensures
        ({
            let r = parse::transport_packet(proto, e, d.skip(at), len);
            let h = d[at + 12] / 16 * 4;
            &&& r is Some <==> (proto == 6 && at + 20 <= d.len() && h >= 20) || (proto == 17 && at
                + 8 <= d.len())
            &&& r is Some ==> {
                &&& r->0.ts_nanos == e.ts_nanos
                &&& r->0.iface == e.iface
                &&& r->0.ttl == e.ttl
            }
            &&& r is Some && proto == 6 ==> says_tcp(r->0, d, at, e.src, e.dst)
                && r->0.payload_len == (if len >= h {
                len - h
            } else {
                0
            })
            &&& r is Some && proto == 17 ==> says_udp(r->0, d, at, e.src, e.dst)
        }),
{
    let l4 = d.skip(at);
    if l4.len() >= 20 {
        lemma_two(l4, 0);
        lemma_two(l4, 2);
        lemma_four(l4, 4);
        lemma_four(l4, 8);
        lemma_two(l4, 14);
    }
    if l4.len() >= 8 {
        lemma_two(l4, 0);
        lemma_two(l4, 2);
        lemma_two(l4, 4);
    }
}

// ---------------------------------------------------------------------------
// IPv4
// ---------------------------------------------------------------------------

/// The bytes start an IPv4 datagram with a header of `hdr` bytes; it is `total` bytes long.
pub open spec fn is_ipv4(d: Seq<u8>, hdr: int, total: int) -> bool {
    &&& 20 <= hdr <= 60
    &&& hdr <= d.len()
    &&& hdr % 4 == 0
    &&& d[0] == 64 + hdr / 4
    &&& two(d, 2) == total
}

proof fn lemma_ipv4(d: Seq<u8>, hdr: int, total: int, ts_nanos: u64, iface: u32)
    requires
        is_ipv4(d, hdr, total),
    ensures
        ({
            let src = IpAddr::V4(four(d, 12) as u32);
            let dst = IpAddr::V4(four(d, 16) as u32);
            let r = parse::ipv4_packet(d, ts_nanos, iface);
            let h = d[hdr + 12] / 16 * 4;
            let len = if total < hdr {
                0
            } else if total <= d.len() {
                total - hdr
            } else {
                d.len() - hdr
            };
            &&& r is Some <==> (d[9] == 6 && hdr + 20 <= d.len() && h >= 20) || (d[9] == 17 && hdr
                + 8 <= d.len())
            &&& r is Some ==> r->0.ts_nanos == ts_nanos && r->0.iface == iface && r->0.ttl == d[8]
            &&& r is Some && d[9] == 6 ==> says_tcp(r->0, d, hdr, src, dst) && r->0.payload_len
                == (if len >= h {
                len - h
            } else {
                0
            })
            &&& r is Some && d[9] == 17 ==> says_udp(r->0, d, hdr, src, dst)
        }),
{
    lemma_two(d, 2);
    let len = if total < hdr {
        0
    } else if total <= d.len() {
        total - hdr
    } else {
        d.len() - hdr
    };
    assert(d[0] % 16 * 4 == hdr);
    let e = parse::Envelope {
        src: IpAddr::V4(four(d, 12) as u32),
        dst: IpAddr::V4(four(d, 16) as u32),
        ttl: d[8],
        ts_nanos,
        iface,
    };
    lemma_transport(e, d[9], d, hdr, len);
}

/// A frame whose IPv4 datagram carries a TCP header is read as that header says; its
/// payload is what is left of the datagram, as announced and as far as captured, behind
/// the whole TCP header.
pub proof fn law_tcp_over_ipv4(
    linktype: u32,
    link: Seq<u8>,
    d: Seq<u8>,
    hdr: int,
    total: int,
    h: int,
    ts_nanos: u64,
    iface: u32,
)
    requires
        is_link(linktype, link, 0x0800),
        is_ipv4(d, hdr, total),
        d[9] == 6,
        hdr + 20 <= d.len(),
        20 <= h,
        d[hdr + 12] / 16 == h / 4,
        h % 4 == 0,
    ensures
        ({
            let r = parse::frame_packet(linktype, link + d, ts_nanos, iface);
            let end = if total <= d.len() {
                total
            } else {
                d.len() as int
            };
            &&& r is Some
            &&& r->0.ts_nanos == ts_nanos
            &&& r->0.iface == iface
            &&& r->0.ttl == d[8]
            &&& says_tcp(
                r->0,
                d,
                hdr,
                IpAddr::V4(four(d, 12) as u32),
                IpAddr::V4(four(d, 16) as u32),
            )
            &&& r->0.payload_len == (if end >= hdr + h {
                end - hdr - h
            } else {
                0
            })
        }),
{
    lemma_frame(linktype, link, d, 0x0800, ts_nanos, iface);
    lemma_ipv4(d, hdr, total, ts_nanos, iface);
}

/// A complete IPv4 frame, with a TCP header of `h` bytes and `n` bytes of data, and
/// whatever pads the frame behind them, is a packet with `n` bytes of payload.
pub proof fn law_tcp_payload_over_ipv4(
    linktype: u32,
    link: Seq<u8>,
    ip: Seq<u8>,
    tcp: Seq<u8>,
    data: Seq<u8>,
    padding: Seq<u8>,
    ts_nanos: u64,
    iface: u32,
)
    requires
        is_link(linktype, link, 0x0800),
        20 <= ip.len() <= 60,
        ip.len() % 4 == 0,
        ip[0] == 64 + ip.len() / 4,
        ip[9] == 6,
        two(ip, 2) == ip.len() + tcp.len() + data.len(),
        20 <= tcp.len() <= 60,
        tcp.len() % 4 == 0,
        tcp[12] / 16 == tcp.len() / 4,
    ensures
        ({
            let r = parse::frame_packet(
                linktype,
                link + (ip + tcp + data + padding),
                ts_nanos,
                iface,
            );
            r is Some && r->0.payload_len == data.len()
        }),
{
    let d = ip + tcp + data + padding;
    assert(two(d, 2) == two(ip, 2));
    assert(d[ip.len() as int + 12] == tcp[12]);
    law_tcp_over_ipv4(
        linktype,
        link,
        d,
        ip.len() as int,
        (ip.len() + tcp.len() + data.len()) as int,
        tcp.len() as int,
        ts_nanos,
        iface,
    );
}

/// A frame whose IPv4 datagram carries a UDP header is read as that header says.
pub proof fn law_udp_over_ipv4(
    linktype: u32,
    link: Seq<u8>,
    d: Seq<u8>,
    hdr: int,
    total: int,
    ts_nanos: u64,
    iface: u32,
)
    requires
        is_link(linktype, link, 0x0800),
        is_ipv4(d, hdr, total),
        d[9] == 17,
        hdr + 8 <= d.len(),
    ensures
        ({
            let r = parse::frame_packet(linktype, link + d, ts_nanos, iface);
            &&& r is Some
            &&& r->0.ts_nanos == ts_nanos
            &&& r->0.iface == iface
            &&& r->0.ttl == d[8]
            &&& says_udp(
                r->0,
                d,
                hdr,
                IpAddr::V4(four(d, 12) as u32),
                IpAddr::V4(four(d, 16) as u32),
            )
        }),
{
    lemma_frame(linktype, link, d, 0x0800, ts_nanos, iface);
    lemma_ipv4(d, hdr, total, ts_nanos, iface);
}

/// An IPv4 datagram that is neither TCP nor UDP, or whose transport header is cut or too
/// short, is no packet.
pub proof fn law_other_ipv4_holds_nothing(
    linktype: u32,
    link: Seq<u8>,
    d: Seq<u8>,
    hdr: int,
    total: int,
    ts_nanos: u64,
    iface: u32,
)
    requires
        is_link(linktype, link, 0x0800),
        is_ipv4(d, hdr, total),
        d[9] == 6 ==> d.len() < hdr + 20 || d[hdr + 12] / 16 < 5,
        d[9] == 17 ==> d.len() < hdr + 8,
    ensures
        parse::frame_packet(linktype, link + d, ts_nanos, iface) is None,
{
    lemma_frame(linktype, link, d, 0x0800, ts_nanos, iface);
    lemma_ipv4(d, hdr, total, ts_nanos, iface);
}

// ---------------------------------------------------------------------------
// IPv6
// ---------------------------------------------------------------------------

/// The bytes that an extension header takes: 8-byte units after the first for hop-by-hop
/// options (0), routing (43) and destination options (60), 4-byte units after the first two
/// for an authentication header (51), 8 bytes for a fragment header (44).
pub open spec fn extension_len(kind: u8, unit: u8) -> int {
    if kind == 44 {
        8
    } else if kind == 51 {
        4 * (unit + 2)
    } else {
        8 * (unit + 1)
    }
}

/// From a header of kind `next` at `at`, `k` extension headers lead to one of kind `proto`
/// at `to`.
pub open spec fn leads(d: Seq<u8>, next: u8, at: int, k: nat, proto: u8, to: int) -> bool
    decreases k,
{
    if k == 0 {
        next == proto && at == to
    } else {
        &&& next == 0 || next == 43 || next == 60 || next == 51 || next == 44
        &&& leads(d, d[at], at + extension_len(next, d[at + 1]), (k - 1) as nat, proto, to)
    }
}

proof fn lemma_leads_forward(d: Seq<u8>, next: u8, at: int, k: nat, proto: u8, to: int)
    requires
        leads(d, next, at, k, proto, to),
    ensures
        at + 8 * k <= to,
    decreases k,
{
    if k > 0 {
        lemma_leads_forward(
            d,
            d[at],
            at + extension_len(next, d[at + 1]),
            (k - 1) as nat,
            proto,
            to,
        );
    }
}

proof fn lemma_leads(
    d: Seq<u8>,
    next: u8,
    at: int,
    k: nat,
    proto: u8,
    to: int,
    end: int,
    left: nat,
)
    requires
        leads(d, next, at, k, proto, to),
        proto == 6 || proto == 17,
        0 <= at,
        k == 0 || to < end,
        end <= d.len(),
        k <= left,
    ensures
        parse::transport_at(d, next, at, end, left) == Some((proto, to)),
    decreases k,
{
    if k > 0 {
        let on = at + extension_len(next, d[at + 1]);
        lemma_leads_forward(d, d[at], on, (k - 1) as nat, proto, to);
        lemma_leads(d, d[at], on, (k - 1) as nat, proto, to, end, (left - 1) as nat);
    }
}

proof fn lemma_byte_of_value(s: Seq<u8>, i: int)
    requires
        0 <= i < s.len(),
    ensures
        (bytes::be_value(s) as int / pow2((8 * (s.len() - 1 - i)) as nat) as int) % 256 == s[i],
    decreases s.len(),
{
    let t = s.drop_last();
    let v = bytes::be_value(s) as int;
    let u = bytes::be_value(t) as int;
    assert(v == u * 256 + s.last());
    vstd::arithmetic::power2::lemma2_to64();
    if i < t.len() {
        let p = pow2((8 * (t.len() - 1 - i)) as nat) as int;
        lemma_byte_of_value(t, i);
        vstd::arithmetic::power2::lemma_pow2_adds(8, (8 * (t.len() - 1 - i)) as nat);
        vstd::arithmetic::power2::lemma_pow2_pos((8 * (t.len() - 1 - i)) as nat);
        vstd::arithmetic::div_mod::lemma_div_denominator(v, 256, p);
        assert(v / 256 == u);
        assert(t[i] == s[i]);
    } else {
        assert(v / 1 == v);
    }
}

/// An IPv6 address whose bytes stand at `at`, the first the most significant.
pub open spec fn is_address6(ip: IpAddr, d: Seq<u8>, at: int) -> bool {
    &&& ip is V6
    &&& forall|i: int|
        0 <= i < 16 ==> #[trigger] d[at + i] == (ip->V6_0 as int / pow2(
            (8 * (15 - i)) as nat,
        ) as int) % 256
}

proof fn lemma_address6(d: Seq<u8>, at: int)
    requires
        0 <= at,
        at + 16 <= d.len(),
    ensures
        is_address6(IpAddr::V6(bytes::be_value(bytes::part(d, at, 16)) as u128), d, at),
{
    let s = bytes::part(d, at, 16);
    bytes::lemma_be_bound(s);
    vstd::arithmetic::power2::lemma2_to64();
    vstd::arithmetic::power2::lemma_pow2_adds(64, 64);
    let v = bytes::be_value(s) as u128;
    assert(v == bytes::be_value(s));
    assert forall|i: int| 0 <= i < 16 implies #[trigger] d[at + i] == (v as int / pow2(
        (8 * (15 - i)) as nat,
    ) as int) % 256 by {
        lemma_byte_of_value(s, i);
        assert(s[i] == d[at + i]);
    }
}

/// The source that a packet names.
pub open spec fn source_of(p: PacketMeta) -> Endpoint {
    if p.dir == Direction::Forward {
        p.key.low
    } else {
        p.key.high
    }
}

/// The destination that a packet names.
pub open spec fn destination_of(p: PacketMeta) -> Endpoint {
    if p.dir == Direction::Forward {
        p.key.high
    } else {
        p.key.low
    }
}

/// A frame whose IPv6 datagram carries a TCP header, behind up to eight extension headers,
/// is read as that header says; its payload is what is left of the datagram, as announced
/// and as far as captured, behind the whole TCP header.
pub proof fn law_tcp_over_ipv6(
    linktype: u32,
    link: Seq<u8>,
    d: Seq<u8>,
    k: nat,
    at: int,
    h: int,
    ts_nanos: u64,
    iface: u32,
)
    requires
        is_link(linktype, link, 0x86DD),
        40 <= d.len(),
        d[0] / 16 == 6,
        k <= 8,
        leads(d, d[6], 40, k, 6, at),
        at + 20 <= d.len(),
        k == 0 || at < 40 + two(d, 4),
        20 <= h,
        d[at + 12] / 16 == h / 4,
        h % 4 == 0,
    ensures
        ({
            let r = parse::frame_packet(linktype, link + d, ts_nanos, iface);
            let end = if 40 + two(d, 4) <= d.len() {
                40 + two(d, 4)
            } else {
                d.len() as int
            };
            &&& r is Some
            &&& r->0.ts_nanos == ts_nanos
            &&& r->0.iface == iface
            &&& r->0.ttl == d[7]
            &&& is_address6(source_of(r->0).ip, d, 8)
            &&& is_address6(destination_of(r->0).ip, d, 24)
            &&& says_tcp(r->0, d, at, source_of(r->0).ip, destination_of(r->0).ip)
            &&& r->0.payload_len == (if end >= at + h {
                end - at - h
            } else {
                0
            })
        }),
{
    lemma_frame(linktype, link, d, 0x86DD, ts_nanos, iface);
    lemma_two(d, 4);
    lemma_leads_forward(d, d[6], 40, k, 6, at);
    let end = parse::ipv6_end(d);
    lemma_leads(d, d[6], 40, k, 6, at, end, 8);
    lemma_address6(d, 8);
    lemma_address6(d, 24);
    let e = parse::Envelope {
        src: IpAddr::V6(bytes::be_value(bytes::part(d, 8, 16)) as u128),
        dst: IpAddr::V6(bytes::be_value(bytes::part(d, 24, 16)) as u128),
        ttl: d[7],
        ts_nanos,
        iface,
    };
    lemma_transport(e, 6, d, at, parse::less(end, at));
}

/// A complete IPv6 frame, with a TCP header of `h` bytes and `n` bytes of data, and
/// whatever pads the frame behind them, is a packet with `n` bytes of payload.
pub proof fn law_tcp_payload_over_ipv6(
    linktype: u32,
    link: Seq<u8>,
    ip: Seq<u8>,
    tcp: Seq<u8>,
    data: Seq<u8>,
    padding: Seq<u8>,
    ts_nanos: u64,
    iface: u32,
)
    requires
        is_link(linktype, link, 0x86DD),
        ip.len() == 40,
        ip[0] / 16 == 6,
        ip[6] == 6,
        two(ip, 4) == tcp.len() + data.len(),
        20 <= tcp.len() <= 60,
        tcp.len() % 4 == 0,
        tcp[12] / 16 == tcp.len() / 4,
    ensures
        ({
            let r = parse::frame_packet(
                linktype,
                link + (ip + tcp + data + padding),
                ts_nanos,
                iface,
            );
            r is Some && r->0.payload_len == data.len()
        }),
{
    let d = ip + tcp + data + padding;
    assert(two(d, 4) == two(ip, 4));
    assert(d[52] == tcp[12]);
    law_tcp_over_ipv6(linktype, link, d, 0, 40, tcp.len() as int, ts_nanos, iface);
}

/// A frame whose IPv6 datagram carries a UDP header, behind up to eight extension headers,
/// is read as that header says.
pub proof fn law_udp_over_ipv6(
    linktype: u32,
    link: Seq<u8>,
    d: Seq<u8>,
    k: nat,
    at: int,
    ts_nanos: u64,
    iface: u32,
)
    requires
        is_link(linktype, link, 0x86DD),
        40 <= d.len(),
        d[0] / 16 == 6,
        k <= 8,
        leads(d, d[6], 40, k, 17, at),
        at + 8 <= d.len(),
        k == 0 || at < 40 + two(d, 4),
    ensures
        ({
            let r = parse::frame_packet(linktype, link + d, ts_nanos, iface);
            &&& r is Some
            &&& r->0.ts_nanos == ts_nanos
            &&& r->0.iface == iface
            &&& r->0.ttl == d[7]
            &&& is_address6(source_of(r->0).ip, d, 8)
            &&& is_address6(destination_of(r->0).ip, d, 24)
            &&& says_udp(r->0, d, at, source_of(r->0).ip, destination_of(r->0).ip)
        }),
{
    lemma_frame(linktype, link, d, 0x86DD, ts_nanos, iface);
    lemma_two(d, 4);
    lemma_leads_forward(d, d[6], 40, k, 17, at);
    let end = parse::ipv6_end(d);
    lemma_leads(d, d[6], 40, k, 17, at, end, 8);
    lemma_address6(d, 8);
    lemma_address6(d, 24);
    let e = parse::Envelope {
        src: IpAddr::V6(bytes::be_value(bytes::part(d, 8, 16)) as u128),
        dst: IpAddr::V6(bytes::be_value(bytes::part(d, 24, 16)) as u128),
        ttl: d[7],
        ts_nanos,
        iface,
    };
    lemma_transport(e, 17, d, at, parse::less(end, at));
}

/// A kind of extension header.
pub open spec fn is_extension(kind: u8) -> bool {
    kind == 0 || kind == 43 || kind == 60 || kind == 51 || kind == 44
}

proof fn lemma_leads_nowhere(
    d: Seq<u8>,
    next: u8,
    at: int,
    k: nat,
    kind: u8,
    to: int,
    end: int,
    left: nat,
)
    requires
        leads(d, next, at, k, kind, to),
        k <= left,
        k == left || !is_extension(kind),
        0 <= at <= d.len(),
        end <= d.len(),
    ensures
        ({
            let r = parse::transport_at(d, next, at, end, left);
            r is None || (r == Some((kind, to)) && to <= d.len())
        }),
    decreases k,
{
    if k > 0 && left > 0 {
        let on = at + extension_len(next, d[at + 1]);
        if on < end {
            lemma_leads_nowhere(d, d[at], on, (k - 1) as nat, kind, to, end, (left - 1) as nat);
        }
    }
}

/// An IPv6 datagram whose header is cut, whose extension headers lead, within eight, to
/// neither TCP nor UDP, or whose transport header is cut or too short, is no packet.
pub proof fn law_other_ipv6_holds_nothing(
    linktype: u32,
    link: Seq<u8>,
    d: Seq<u8>,
    k: nat,
    kind: u8,
    at: int,
    ts_nanos: u64,
    iface: u32,
)
    requires
        is_link(linktype, link, 0x86DD),
        d.len() > 0,
        d[0] / 16 == 6,
        d.len() < 40 || {
            &&& leads(d, d[6], 40, k, kind, at)
            &&& k <= 8
            &&& k == 8 || !is_extension(kind)
            &&& kind == 6 ==> d.len() < at + 20 || d[at + 12] / 16 < 5
            &&& kind == 17 ==> d.len() < at + 8
        },
    ensures
        parse::frame_packet(linktype, link + d, ts_nanos, iface) is None,
{
    lemma_frame(linktype, link, d, 0x86DD, ts_nanos, iface);
    if d.len() >= 40 {
        lemma_two(d, 4);
        let end = parse::ipv6_end(d);
        lemma_leads_nowhere(d, d[6], 40, k, kind, at, end, 8);
        lemma_leads_forward(d, d[6], 40, k, kind, at);
        let e = parse::Envelope {
            src: IpAddr::V6(bytes::be_value(bytes::part(d, 8, 16)) as u128),
            dst: IpAddr::V6(bytes::be_value(bytes::part(d, 24, 16)) as u128),
            ttl: d[7],
            ts_nanos,
            iface,
        };
        if at <= d.len() {
            let len = parse::less(end, at);
            lemma_transport(e, kind, d, at, len);
        }
    }
}

// ---------------------------------------------------------------------------
// Capture records
// ---------------------------------------------------------------------------

/// Four bytes in a capture's byte order.
pub open spec fn four_in(s: Seq<u8>, i: int, little: bool) -> int {
    if little {
        s[i + 3] * 0x100_0000 + s[i + 2] * 0x1_0000 + s[i + 1] * 0x100 + s[i]
    } else {
        s[i] * 0x100_0000 + s[i + 1] * 0x1_0000 + s[i + 2] * 0x100 + s[i + 3]
    }
}

proof fn lemma_four_in(s: Seq<u8>, i: int, little: bool)
    requires
        0 <= i,
        i + 4 <= s.len(),
    ensures
        crate::pcapio::word(s, i, little) == four_in(s, i, little),
{
    bytes::lemma_be4(bytes::part(s, i, 4));
    bytes::lemma_le4(bytes::part(s, i, 4));
}

/// A scan of what stands behind `n` bytes, told from the first of them.
pub open spec fn shifted(scan: Scan, n: int) -> Scan {
    match scan {
        Scan::Packet(p, end) => Scan::Packet(p, n + end),
        Scan::More(at) => Scan::More(n + at),
        Scan::End => Scan::End,
        Scan::Broken(f) => Scan::Broken(f),
    }
}

proof fn lemma_record(stream: PcapStream, header: Seq<u8>, frame: Seq<u8>, rest: Seq<u8>)
    requires
        header.len() == 16,
        four_in(header, 8, stream.little) == frame.len(),
        frame.len() <= 262_144,
    ensures
        ({
            let s = header + frame + rest;
            let time = four_in(header, 0, stream.little) * 1_000_000_000 + four_in(
                header,
                4,
                stream.little,
            ) * (if stream.nanos {
                1int
            } else {
                1_000int
            });
            &&& stream.record_len(s, 0) == frame.len()
            &&& stream.record_packet(s, 0) == parse::frame_packet(
                stream.linktype,
                frame,
                time as u64,
                stream.iface,
            )
        }),
{
    let s = header + frame + rest;
    lemma_four_in(s, 0, stream.little);
    lemma_four_in(s, 4, stream.little);
    lemma_four_in(s, 8, stream.little);
    assert(four_in(s, 0, stream.little) == four_in(header, 0, stream.little));
    assert(four_in(s, 4, stream.little) == four_in(header, 4, stream.little));
    assert(four_in(s, 8, stream.little) == four_in(header, 8, stream.little));
    assert(bytes::part(s, 16, frame.len() as int) =~= frame);
}

/// A record header with a captured length `c` of at most 262144 bytes, whatever its
/// original length, then exactly `c` bytes, then anything: the scan reads those bytes as the
/// frame, at the time that the header's seconds and fraction give, and where they hold no
/// packet it goes on behind them.
pub proof fn law_records_hold_what_was_captured(
    stream: PcapStream,
    header: Seq<u8>,
    frame: Seq<u8>,
    rest: Seq<u8>,
    ended: bool,
)
    requires
        header.len() == 16,
        four_in(header, 8, stream.little) == frame.len(),
        frame.len() <= 262_144,
    ensures
        ({
            let time = four_in(header, 0, stream.little) * 1_000_000_000 + four_in(
                header,
                4,
                stream.little,
            ) * (if stream.nanos {
                1int
            } else {
                1_000int
            });
            let n = 16 + frame.len();
            match parse::frame_packet(stream.linktype, frame, time as u64, stream.iface) {
                Some(p) => stream.scan(header + frame + rest, 0, ended) == Scan::Packet(p,
                    n as int),
                None => stream.scan(header + frame + rest, 0, ended) == shifted(
                    stream.scan(rest, 0, ended),
                    n as int,
                ),
            }
        }),
{
    let s = header + frame + rest;
    let n = 16 + frame.len() as int;
    lemma_record(stream, header, frame, rest);
    assert(s.skip(n) =~= rest);
    crate::pcapio::law_used_bytes_can_be_dropped(stream, s, n, 0, ended);
}

/// The original length in a record's header changes nothing: two streams that differ only
/// in those four bytes scan alike.
pub proof fn law_original_length_has_no_effect(
    stream: PcapStream,
    head: Seq<u8>,
    one: Seq<u8>,
    other: Seq<u8>,
    rest: Seq<u8>,
    ended: bool,
)
    requires
        head.len() == 12,
        one.len() == 4,
        other.len() == 4,
    ensures
        stream.scan(head + one + rest, 0, ended) == stream.scan(head + other + rest, 0, ended),
{
    let s = head + one + rest;
    let t = head + other + rest;
    lemma_four_in(s, 0, stream.little);
    lemma_four_in(s, 4, stream.little);
    lemma_four_in(s, 8, stream.little);
    lemma_four_in(t, 0, stream.little);
    lemma_four_in(t, 4, stream.little);
    lemma_four_in(t, 8, stream.little);
    let n = stream.record_len(s, 0) as int;
    assert(stream.record_len(t, 0) == n);
    assert(stream.record_time(t, 0) == stream.record_time(s, 0));
    if 16 + n <= s.len() {
        assert(bytes::part(s, 16, n) =~= bytes::part(t, 16, n));
        assert(s.skip(16 + n) =~= t.skip(16 + n));
        crate::pcapio::law_used_bytes_can_be_dropped(stream, s, 16 + n, 0, ended);
        crate::pcapio::law_used_bytes_can_be_dropped(stream, t, 16 + n, 0, ended);
    }
}

/// A captured length over 262144 breaks the stream. A record that is cut off waits for more
/// bytes, and breaks the stream where it has ended; the end between records is the end.
pub proof fn law_unfinished_records(stream: PcapStream, s: Seq<u8>, ended: bool)
    ensures
        s.len() >= 16 && four_in(s, 8, stream.little) > 262_144 ==> stream.scan(
            s,
            0,
            ended,
        ) is Broken,
        ({
            let cut = s.len() < 16 || (four_in(s, 8, stream.little) <= 262_144 && s.len() < 16
                + four_in(s, 8, stream.little));
            &&& cut && !ended ==> stream.scan(s, 0, ended) == Scan::More(0)
            &&& cut && ended && s.len() > 0 ==> stream.scan(s, 0, ended) is Broken
        }),
        s.len() == 0 && ended ==> stream.scan(s, 0, ended) == Scan::End,
{
    if s.len() >= 16 {
        lemma_four_in(s, 8, stream.little);
    }
}

proof fn lemma_quotient(n: int, q: int, r: int, m: int)
    requires
        m > 0,
        n == q * m + r,
        0 <= r < m,
    ensures
        n / m == q,
        n % m == r,
{
    vstd::arithmetic::div_mod::lemma_fundamental_div_mod_converse(n, m, q, r);
}

proof fn lemma_digits(a: u8, b: u8, c: u8, d: u8)
    ensures
        ({
            let n = a * 0x100_0000 + b * 0x1_0000 + c * 0x100 + d;
            &&& n / 0x100_0000 == a
            &&& n / 0x1_0000 % 0x100 == b
            &&& n / 0x100 % 0x100 == c
            &&& n % 0x100 == d
        }),
{
    let n = a * 0x100_0000 + b * 0x1_0000 + c * 0x100 + d;
    lemma_quotient(n, a as int, b * 0x1_0000 + c * 0x100 + d, 0x100_0000);
    lemma_quotient(n, a * 0x100 + b, c * 0x100 + d, 0x1_0000);
    lemma_quotient(n, a * 0x1_0000 + b * 0x100 + c, d as int, 0x100);
    lemma_quotient(a * 0x100 + b, a as int, b as int, 0x100);
    lemma_quotient(a * 0x1_0000 + b * 0x100 + c, a * 0x100 + b, c as int, 0x100);
}

proof fn lemma_swapped_magic(a: u8, b: u8, c: u8, d: u8)
    ensures
        ({
            let n = a * 0x100_0000 + b * 0x1_0000 + c * 0x100 + d;
            let m = d * 0x100_0000 + c * 0x1_0000 + b * 0x100 + a;
            &&& n == 0xa1b2_c3d4 <==> m == 0xd4c3_b2a1
            &&& n == 0xa1b2_3c4d <==> m == 0x4d3c_b2a1
        }),
{
    let n = a * 0x100_0000 + b * 0x1_0000 + c * 0x100 + d;
    let m = d * 0x100_0000 + c * 0x1_0000 + b * 0x100 + a;
    lemma_digits(a, b, c, d);
    lemma_digits(d, c, b, a);
    if n == 0xa1b2_c3d4 {
        assert(a == 0xa1 && b == 0xb2 && c == 0xc3 && d == 0xd4);
    }
    if m == 0xd4c3_b2a1 {
        assert(a == 0xa1 && b == 0xb2 && c == 0xc3 && d == 0xd4);
    }
    if n == 0xa1b2_3c4d {
        assert(a == 0xa1 && b == 0xb2 && c == 0x3c && d == 0x4d);
    }
    if m == 0x4d3c_b2a1 {
        assert(a == 0xa1 && b == 0xb2 && c == 0x3c && d == 0x4d);
    }
}

/// A global header opens a stream where its magic number, read in the header's own byte
/// order, is `a1b2c3d4` (microseconds) or `a1b2_3c4d` (nanoseconds); the link type is its
/// last number in that order.
pub proof fn law_headers_tell_their_byte_order(
    hdr: Seq<u8>,
    little: bool,
    nanos: bool,
    iface: u32,
)
    requires
        hdr.len() >= 24,
    ensures
        four_in(hdr, 0, little) == (if nanos {
            0xa1b2_3c4dint
        } else {
            0xa1b2_c3d4int
        }) <==> PcapStream::opened(hdr, iface) == Ok::<PcapStream, crate::error::Failure>(
            PcapStream {
                little,
                nanos,
                linktype: four_in(hdr, 20, little) as u32,
                iface,
            },
        ),
{
    lemma_four_in(hdr, 0, true);
    lemma_swapped_magic(hdr[0], hdr[1], hdr[2], hdr[3]);
    lemma_four_in(hdr, 20, true);
    lemma_four_in(hdr, 20, false);
    let magic = crate::pcapio::word(hdr, 0, true);
    let want: u32 = if nanos {
        0xa1b2_3c4d
    } else {
        0xa1b2_c3d4
    };
    let swapped: u32 = if nanos {
        0x4d3c_b2a1
    } else {
        0xd4c3_b2a1
    };
    assert(four_in(hdr, 0, little) == want <==> magic == (if little {
        want
    } else {
        swapped
    }));
    assert(magic == (if little {
        want
    } else {
        swapped
    }) <==> crate::pcapio::magic_meaning(magic) == Some((little, nanos)));
}

// ---------------------------------------------------------------------------
// Kernel records
// ---------------------------------------------------------------------------

/// Two bytes in a record's byte order.
pub open spec fn two_in(s: Seq<u8>, i: int, little: bool) -> int {
    if little {
        s[i + 1] * 0x100 + s[i]
    } else {
        s[i] * 0x100 + s[i + 1]
    }
}

/// Eight bytes in a record's byte order.
pub open spec fn eight_in(s: Seq<u8>, i: int, little: bool) -> int {
    if little {
        four_in(s, i + 4, little) * 0x1_0000_0000 + four_in(s, i, little)
    } else {
        four_in(s, i, little) * 0x1_0000_0000 + four_in(s, i + 4, little)
    }
}

proof fn lemma_two_in(s: Seq<u8>, i: int, little: bool)
    requires
        0 <= i,
        i + 2 <= s.len(),
    ensures
        bytes::value_in(bytes::part(s, i, 2), little) == two_in(s, i, little),
{
    bytes::lemma_be2(bytes::part(s, i, 2));
    bytes::lemma_le2(bytes::part(s, i, 2));
}

proof fn lemma_value_four_in(s: Seq<u8>, i: int, little: bool)
    requires
        0 <= i,
        i + 4 <= s.len(),
    ensures
        bytes::value_in(bytes::part(s, i, 4), little) == four_in(s, i, little),
{
    bytes::lemma_be4(bytes::part(s, i, 4));
    bytes::lemma_le4(bytes::part(s, i, 4));
}

proof fn lemma_eight_in(s: Seq<u8>, i: int, little: bool)
    requires
        0 <= i,
        i + 8 <= s.len(),
    ensures
        bytes::value_in(bytes::part(s, i, 8), little) == eight_in(s, i, little),
{
    let t = bytes::part(s, i, 8);
    if little {
        let t1 = t.skip(1);
        let t2 = t1.skip(1);
        let t3 = t2.skip(1);
        let t4 = t3.skip(1);
        assert(t4 =~= bytes::part(s, i + 4, 4));
        bytes::lemma_le4(t4);
        assert(bytes::le_value(t) == t[0] + bytes::le_value(t1) * 256);
        assert(bytes::le_value(t1) == t1[0] + bytes::le_value(t2) * 256);
        assert(bytes::le_value(t2) == t2[0] + bytes::le_value(t3) * 256);
        assert(bytes::le_value(t3) == t3[0] + bytes::le_value(t4) * 256);
    } else {
        let t1 = t.drop_last();
        let t2 = t1.drop_last();
        let t3 = t2.drop_last();
        let t4 = t3.drop_last();
        assert(t4 =~= bytes::part(s, i, 4));
        bytes::lemma_be4(t4);
        assert(bytes::be_value(t) == bytes::be_value(t1) * 256 + t[7]);
        assert(bytes::be_value(t1) == bytes::be_value(t2) * 256 + t1[6]);
        assert(bytes::be_value(t2) == bytes::be_value(t3) * 256 + t2[5]);
        assert(bytes::be_value(t3) == bytes::be_value(t4) * 256 + t3[4]);
    }
}

/// The packet that a kernel record stands for: TCP (6) or UDP (17) over IPv4 or IPv6, with
/// the ports, numbers, window, payload length, hop limit and interface that stand in the
/// record, at its time on the wall clock; UDP has no flags and no sequence numbers. A record
/// of another protocol or family is no packet.
pub proof fn law_kernel_records_are_read(ev: BpfL4Event, b: Seq<u8>, little: bool, offset: u64)
    requires
        b.len() >= 68,
        ev.is_in(b, little),
    ensures
        ({
            let r = ev.packet(offset);
            let p = r->0;
            let tcp = b[61] == 6;
            &&& r is Some <==> (b[61] == 6 || b[61] == 17) && (b[60] == 4 || b[60] == 6)
            &&& r is Some ==> {
                &&& p.proto == (if tcp {
                    Protocol::Tcp
                } else {
                    Protocol::Udp
                })
                &&& p.key.proto == p.proto
                &&& p.ts_nanos == (offset + eight_in(b, 0, little)) % 0x1_0000_0000_0000_0000
                &&& source_of(p).port == two_in(b, 40, little)
                &&& destination_of(p).port == two_in(b, 42, little)
                &&& p.flags.0 == (if tcp {
                    b[62]
                } else {
                    0
                })
                &&& p.seq == (if tcp {
                    four_in(b, 44, little)
                } else {
                    0
                })
                &&& p.ack == (if tcp {
                    four_in(b, 48, little)
                } else {
                    0
                })
                &&& p.window == four_in(b, 52, little)
                &&& p.payload_len == four_in(b, 56, little)
                &&& p.ttl == b[63]
                &&& p.iface == four_in(b, 64, little)
                &&& b[60] == 4 ==> source_of(p).ip == IpAddr::V4(four(b, 8) as u32)
                    && destination_of(p).ip == IpAddr::V4(four(b, 24) as u32)
                &&& b[60] == 6 ==> is_address6(source_of(p).ip, b, 8) && is_address6(
                    destination_of(p).ip,
                    b,
                    24,
                )
            }
        }),
{
    lemma_eight_in(b, 0, little);
    lemma_two_in(b, 40, little);
    lemma_two_in(b, 42, little);
    lemma_value_four_in(b, 44, little);
    lemma_value_four_in(b, 48, little);
    lemma_value_four_in(b, 52, little);
    lemma_value_four_in(b, 56, little);
    lemma_value_four_in(b, 64, little);
    lemma_address6(b, 8);
    lemma_address6(b, 24);
    let src = bytes::part(b, 8, 16);
    let dst = bytes::part(b, 24, 16);
    assert(src[0] == b[8] && src[1] == b[9] && src[2] == b[10] && src[3] == b[11]);
    assert(dst[0] == b[24] && dst[1] == b[25] && dst[2] == b[26] && dst[3] == b[27]);
}

} // verus!
