//! Records of the native eBPF backend: fixed-size events that the kernel program writes to
//! a ring buffer, decoded into the same [`PacketMeta`] every other backend produces.

use vstd::prelude::*;

use crate::address;
use crate::address::IpAddr;
use crate::bytes;
use crate::parse::Envelope;
use crate::types::{Protocol, TcpFlags};
use crate::types::{Endpoint, FlowKey, PacketMeta};
use crate::window::NS_PER_SEC;

verus! {

/// The size of a record, with the padding that aligns the next.
pub const RECORD_SIZE: usize = 72;

/// On-wire record the BPF program writes to the ring buffer. Field order and sizes mirror
/// the kernel program's `struct l4_event`.
#[derive(Clone, Copy, Debug)]
pub struct BpfL4Event {
    /// CLOCK_MONOTONIC (converted to wall clock in userspace).
    pub ts_nanos: u64,
    pub saddr: [u8; 16],
    pub daddr: [u8; 16],
    pub sport: u16,
    pub dport: u16,
    pub seq: u32,
    pub ack: u32,
    pub window: u32,
    pub payload_len: u32,
    /// 4 or 6.
    pub family: u8,
    /// 6=tcp, 17=udp.
    pub proto: u8,
    /// TCP flags byte.
    pub flags: u8,
    pub ttl: u8,
    pub iface: u32,
}

impl BpfL4Event {
    /// The event is what the bytes of a record hold, in the given byte order.
    pub open spec fn is_in(self, b: Seq<u8>, little: bool) -> bool {
        &&& self.ts_nanos == bytes::value_in(bytes::part(b, 0, 8), little)
        &&& self.saddr@ == bytes::part(b, 8, 16)
        &&& self.daddr@ == bytes::part(b, 24, 16)
        &&& self.sport == bytes::value_in(bytes::part(b, 40, 2), little)
        &&& self.dport == bytes::value_in(bytes::part(b, 42, 2), little)
        &&& self.seq == bytes::value_in(bytes::part(b, 44, 4), little)
        &&& self.ack == bytes::value_in(bytes::part(b, 48, 4), little)
        &&& self.window == bytes::value_in(bytes::part(b, 52, 4), little)
        &&& self.payload_len == bytes::value_in(bytes::part(b, 56, 4), little)
        &&& self.family == b[60]
        &&& self.proto == b[61]
        &&& self.flags == b[62]
        &&& self.ttl == b[63]
        &&& self.iface == bytes::value_in(bytes::part(b, 64, 4), little)
    }

    /// The protocol that the event names.
    pub open spec fn protocol(self) -> Option<Protocol> {
        if self.proto == 6 {
            Some(Protocol::Tcp)
        } else if self.proto == 17 {
            Some(Protocol::Udp)
        } else {
            None
        }
    }

    /// The address that sixteen bytes hold for the event's family.
    pub open spec fn address(self, a: Seq<u8>) -> Option<IpAddr> {
        if self.family == 4 {
            Some(
                IpAddr::V4(
                    address::octets_value(
                        a[0] as int,
                        a[1] as int,
                        a[2] as int,
                        a[3] as int,
                    ) as u32,
                ),
            )
        } else if self.family == 6 {
            Some(IpAddr::V6(bytes::be_value(a) as u128))
        } else {
            None
        }
    }

    /// The packet that the event stands for, with its time on the wall clock.
    pub open spec fn packet(self, wall_offset_ns: u64) -> Option<PacketMeta> {
        match (self.protocol(), self.address(self.saddr@), self.address(self.daddr@)) {
            (Some(proto), Some(src), Some(dst)) => Some(
                (Envelope {
                    src,
                    dst,
                    ttl: self.ttl,
                    ts_nanos: ((wall_offset_ns + self.ts_nanos) % 0x1_0000_0000_0000_0000) as u64,
                    iface: self.iface,
                }).packet(
                    self.sport,
                    self.dport,
                    proto,
                    TcpFlags(
                        if proto == Protocol::Tcp {
                            self.flags
                        } else {
                            0
                        },
                    ),
                    self.tcp_only(proto, self.seq),
                    self.tcp_only(proto, self.ack),
                    self.window,
                    self.payload_len,
                ),
            ),
            _ => None,
        }
    }

    /// A number that only TCP has; zero for UDP.
    pub open spec fn tcp_only(self, proto: Protocol, n: u32) -> u32 {
        if proto == Protocol::Tcp {
            n
        } else {
            0
        }
    }

    /// The packet that the event stands for, with its time on the wall clock.
    pub fn decode(&self, wall_offset_ns: u64) -> (r: Option<PacketMeta>)
        ensures
            r == self.packet(wall_offset_ns),
    {
        let proto = if self.proto == 6 {
            Protocol::Tcp
        } else if self.proto == 17 {
            Protocol::Udp
        } else {
            return None;
        };
        let (src_ip, dst_ip) = if self.family == 4 {
            (
                IpAddr::v4(self.saddr[0], self.saddr[1], self.saddr[2], self.saddr[3]),
                IpAddr::v4(self.daddr[0], self.daddr[1], self.daddr[2], self.daddr[3]),
            )
        } else if self.family == 6 {
            proof {
                assert(bytes::part(self.saddr@, 0, 16) =~= self.saddr@);
                assert(bytes::part(self.daddr@, 0, 16) =~= self.daddr@);
            }
            (
                IpAddr::V6(bytes::be128(self.saddr.as_slice(), 0)),
                IpAddr::V6(bytes::be128(self.daddr.as_slice(), 0)),
            )
        } else {
            return None;
        };
        let (key, dir) = FlowKey::canonical(
            Endpoint::new(src_ip, self.sport),
            Endpoint::new(dst_ip, self.dport),
            proto,
        );
        let tcp = proto == Protocol::Tcp;
        Some(
            PacketMeta {
                ts_nanos: wall_offset_ns.wrapping_add(self.ts_nanos),
                key,
                dir,
                proto,
                flags: TcpFlags(
                    if tcp {
                        self.flags
                    } else {
                        0
                    },
                ),
                seq: if tcp {
                    self.seq
                } else {
                    0
                },
                ack: if tcp {
                    self.ack
                } else {
                    0
                },
                window: self.window,
                payload_len: self.payload_len,
                ttl: self.ttl,
                iface: self.iface,
            },
        )
    }

    /// The event in a record's bytes; `None` where the record is short.
    pub fn read(b: &[u8], little: bool) -> (r: Option<BpfL4Event>)
        ensures
            match r {
                Some(ev) => b@.len() >= RECORD_SIZE && ev.is_in(b@, little),
                None => b@.len() < RECORD_SIZE,
            },
    {
        if b.len() < RECORD_SIZE {
            return None;
        }
        Some(
            BpfL4Event {
                ts_nanos: bytes::read_u64(b, 0, little),
                saddr: sixteen(b, 8),
                daddr: sixteen(b, 24),
                sport: bytes::read_u16(b, 40, little),
                dport: bytes::read_u16(b, 42, little),
                seq: bytes::read_u32(b, 44, little),
                ack: bytes::read_u32(b, 48, little),
                window: bytes::read_u32(b, 52, little),
                payload_len: bytes::read_u32(b, 56, little),
                family: b[60],
                proto: b[61],
                flags: b[62],
                ttl: b[63],
                iface: bytes::read_u32(b, 64, little),
            },
        )
    }
}

/// Sixteen bytes from `at` on.
fn sixteen(b: &[u8], at: usize) -> (a: [u8; 16])
    requires
        at + 16 <= b@.len(),
    ensures
        a@ == bytes::part(b@, at as int, 16),
{
    let a: [u8; 16] = [
        b[at],
        b[at + 1],
        b[at + 2],
        b[at + 3],
        b[at + 4],
        b[at + 5],
        b[at + 6],
        b[at + 7],
        b[at + 8],
        b[at + 9],
        b[at + 10],
        b[at + 11],
        b[at + 12],
        b[at + 13],
        b[at + 14],
        b[at + 15],
    ];
    assert(a@ =~= bytes::part(b@, at as int, 16));
    a
}

/// The packet in a record's bytes; `None` for a short or undecodable record, which the
/// reader skips.
pub fn decode_record(b: &[u8], little: bool, wall_offset_ns: u64) -> (r: Option<PacketMeta>)
    ensures
        b@.len() < RECORD_SIZE ==> r is None,
        forall|ev: BpfL4Event|
            b@.len() >= RECORD_SIZE && ev.is_in(b@, little) ==> r == #[trigger] ev.packet(
                wall_offset_ns,
            ),
{
    match BpfL4Event::read(b, little) {
        Some(ev) => {
            let r = ev.decode(wall_offset_ns);
            proof {
                assert forall|other: BpfL4Event| other.is_in(b@, little) implies r
                    == #[trigger] other.packet(wall_offset_ns) by {
                    assert(other.saddr@ =~= ev.saddr@);
                    assert(other.daddr@ =~= ev.daddr@);
                }
            }
            r
        },
        None => None,
    }
}

/// What to add to a monotonic time, around the range of `u64`, to get wall time.
pub open spec fn offset_between(mono_ns: int, wall_ns: int) -> u64 {
    ((wall_ns - mono_ns) % 0x1_0000_0000_0000_0000) as u64
}

/// The nanoseconds of a clock that reads seconds and nanoseconds.
pub open spec fn clock_ns(reading: (u64, u64)) -> int {
    reading.0 * NS_PER_SEC + reading.1
}

/// realtime - monotonic (ns): add to a CLOCK_MONOTONIC value to get wall time. Each clock
/// reads seconds and nanoseconds.
pub fn wall_offset_ns(mono: (u64, u64), wall: (u64, u64)) -> (r: u64)
    requires
        clock_ns(mono) <= u64::MAX,
        clock_ns(wall) <= u64::MAX,
    ensures
        r == offset_between(clock_ns(mono), clock_ns(wall)),
{
    let mono_ns: u64 = mono.0 * NS_PER_SEC + mono.1;
    let wall_ns: u64 = wall.0 * NS_PER_SEC + wall.1;
    wall_ns.wrapping_sub(mono_ns)
}

/// A packet decoded from an event bears its time and interface, its key is in canonical
/// order, and UDP has no flags and no sequence numbers.
pub proof fn law_event_packet_is_normalized(ev: BpfL4Event, wall_offset_ns: u64)
    ensures
        match ev.packet(wall_offset_ns) {
            Some(p) => {
                &&& p.ts_nanos == (wall_offset_ns + ev.ts_nanos) % 0x1_0000_0000_0000_0000
                &&& p.iface == ev.iface
                &&& p.key.proto == p.proto
                &&& p.key.low.before_or_same(p.key.high)
                &&& p.proto == Protocol::Udp ==> p.flags.0 == 0 && p.seq == 0 && p.ack == 0
            },
            None => true,
        },
{
}

/// An event stamped when the two clocks were read gets the wall clock's time.
pub proof fn law_offset_gives_wall_time(ev: BpfL4Event, wall_ns: u64)
    ensures
        match ev.packet(offset_between(ev.ts_nanos as int, wall_ns as int)) {
            Some(p) => p.ts_nanos == wall_ns,
            None => true,
        },
{
}

} // verus!
