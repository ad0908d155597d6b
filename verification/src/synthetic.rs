//! Deterministic synthetic traffic generator. Emits a scripted packet sequence that trips
//! every detector, so a demo run produces meaningful output with zero setup and gives CI a
//! stable golden input.

use vstd::prelude::*;

use crate::address;
use crate::address::IpAddr;
use crate::capture::CaptureSource;
use crate::error::Error;
use crate::types::{Endpoint, FlowKey, PacketMeta, Protocol, TcpFlags};

verus! {

pub const MS: u64 = 1_000_000;

pub const SEC: u64 = 1_000_000_000;

/// The time of the script's first packet: a fixed epoch base for determinism.
pub const START: u64 = 1_700_000_000_000_000_000;

// ---------------------------------------------------------------------------
// The script
// ---------------------------------------------------------------------------

/// The address `10.0.c.d`.
pub open spec fn host(c: int, d: int) -> IpAddr {
    IpAddr::V4(address::octets_value(10, 0, c, d) as u32)
}

/// A TCP packet of the script.
pub open spec fn scripted(
    ts: int,
    src: (IpAddr, int),
    dst: (IpAddr, int),
    flags: u8,
    seq: int,
    ack: int,
    window: u32,
    payload_len: u32,
) -> PacketMeta {
    let (key, dir) = FlowKey::canonical_of(
        Endpoint { ip: src.0, port: src.1 as u16 },
        Endpoint { ip: dst.0, port: dst.1 as u16 },
        Protocol::Tcp,
    );
    PacketMeta {
        ts_nanos: ts as u64,
        key,
        dir,
        proto: Protocol::Tcp,
        flags: TcpFlags(flags),
        seq: seq as u32,
        ack: ack as u32,
        window,
        payload_len,
        ttl: 64,
        iface: 0,
    }
}

/// The three packets of a handshake that the server answers after `rtt` and the client
/// acknowledges at `done`.
pub open spec fn handshake(
    start: int,
    rtt: int,
    done: int,
    client: (IpAddr, int),
    server: (IpAddr, int),
    client_seq: int,
    server_seq: int,
) -> Seq<PacketMeta> {
    seq![
        scripted(start, client, server, TcpFlags::SYN, client_seq, 0, 64240, 0),
        scripted(
            start + rtt,
            server,
            client,
            TcpFlags::SYN | TcpFlags::ACK,
            server_seq,
            client_seq + 1,
            65160,
            0,
        ),
        scripted(
            start + done,
            client,
            server,
            TcpFlags::ACK,
            client_seq + 1,
            server_seq + 1,
            64240,
            0,
        ),
    ]
}

/// A high-RTT handshake: SYN, then SYN-ACK 300 ms later, then ACK.
pub open spec fn high_rtt() -> Seq<PacketMeta> {
    handshake(START as int, 300 * MS, 305 * MS, (host(0, 5), 40001), (host(0, 9), 443), 1000, 5000)
}

/// The same data segment sent four times.
pub open spec fn resent() -> Seq<PacketMeta> {
    Seq::new(
        4,
        |i: int|
            scripted(
                START + 400 * MS + (10 + i * 200) * MS,
                (host(0, 5), 40002),
                (host(0, 9), 80),
                TcpFlags::ACK | TcpFlags::PSH,
                2001,
                9001,
                64240,
                200,
            ),
    )
}

/// Retransmissions on an established flow.
pub open spec fn retransmissions() -> Seq<PacketMeta> {
    handshake(
        START + 400 * MS,
        MS as int,
        2 * MS,
        (host(0, 5), 40002),
        (host(0, 9), 80),
        2000,
        9000,
    ) + resent()
}

/// Duplicate ACKs from the server: four times the same, without payload.
pub open spec fn duplicate_acks() -> Seq<PacketMeta> {
    let base = START + 400 * MS;
    Seq::new(
        4,
        |i: int|
            scripted(
                base + (900 + i * 5) * MS,
                (host(0, 9), 80),
                (host(0, 5), 40002),
                TcpFlags::ACK,
                9001,
                2201,
                65160,
                0,
            ),
    )
}

/// A segment that leaves a gap: it starts 200 bytes ahead of the expected byte.
pub open spec fn ahead() -> PacketMeta {
    scripted(
        START + 400 * MS + 950 * MS,
        (host(0, 5), 40002),
        (host(0, 9), 80),
        TcpFlags::ACK | TcpFlags::PSH,
        2401,
        9001,
        64240,
        200,
    )
}

/// Zero-window stall: the receiver advertises window 0 on an established flow.
pub open spec fn zero_window() -> Seq<PacketMeta> {
    let base = START + 2 * SEC;
    let client = (host(0, 5), 40003int);
    let server = (host(0, 9), 5432int);
    handshake(base, MS as int, 2 * MS, client, server, 3000, 7000).push(
        scripted(base + 50 * MS, client, server, TcpFlags::ACK, 3001, 7001, 0, 0),
    )
}

/// The request of the `i`th client that is refused.
pub open spec fn refused_request(i: int) -> PacketMeta {
    scripted(
        START + 3 * SEC + i * 10 * MS,
        (host(1, i % 250 + 1), 50000 + i),
        (host(0, 9), 8080),
        TcpFlags::SYN,
        4000 + i,
        0,
        64240,
        0,
    )
}

/// The refusal of the `i`th client.
pub open spec fn refusal(i: int) -> PacketMeta {
    scripted(
        START + 3 * SEC + i * 10 * MS + MS,
        (host(0, 9), 8080),
        (host(1, i % 250 + 1), 50000 + i),
        TcpFlags::RST | TcpFlags::ACK,
        0,
        4001 + i,
        0,
        0,
    )
}

/// RST storm: a server refuses many clients within one second.
pub open spec fn rst_storm() -> Seq<PacketMeta> {
    Seq::new(
        80,
        |j: int|
            if j % 2 == 0 {
                refused_request(j / 2)
            } else {
                refusal(j / 2)
            },
    )
}

/// The datagram of the `i`th client that asks the name server.
pub open spec fn lookup(i: int) -> PacketMeta {
    let (key, dir) = FlowKey::canonical_of(
        Endpoint { ip: host(3, i % 250 + 1), port: (20000 + i) as u16 },
        Endpoint { ip: host(0, 9), port: 53 },
        Protocol::Udp,
    );
    PacketMeta {
        ts_nanos: (START + 3 * SEC + 500 * MS + i * MS) as u64,
        key,
        dir,
        proto: Protocol::Udp,
        flags: TcpFlags(0),
        seq: 0,
        ack: 0,
        window: 0,
        payload_len: 40,
        ttl: 64,
        iface: 0,
    }
}

/// Connection churn: many short conversations start within one second.
pub open spec fn churn() -> Seq<PacketMeta> {
    Seq::new(220, |i: int| lookup(i))
}

/// SYN backlog / handshake timeout: many half-open SYNs, no SYN-ACK.
pub open spec fn syn_backlog() -> Seq<PacketMeta> {
    Seq::new(
        80,
        |i: int|
            scripted(
                START + 5 * SEC + i * MS,
                (host(2, i % 250 + 1), 60000 + i),
                (host(0, 9), 3306),
                TcpFlags::SYN,
                6000 + i,
                0,
                64240,
                0,
            ),
    )
}

/// A late packet that advances the clock so the sweep can flag timeouts.
pub open spec fn late_packet() -> PacketMeta {
    scripted(
        START + 5 * SEC + 10 * SEC,
        (host(0, 5), 40009),
        (host(0, 9), 22),
        TcpFlags::SYN,
        7000,
        0,
        64240,
        0,
    )
}

/// The whole script.
pub open spec fn script() -> Seq<PacketMeta> {
    ((high_rtt() + retransmissions() + duplicate_acks()).push(ahead()) + zero_window()
        + rst_storm() + churn() + syn_backlog()).push(late_packet())
}

// ---------------------------------------------------------------------------
// The source
// ---------------------------------------------------------------------------

/// A source that plays the script once.
pub struct SyntheticSource {
    packets: Vec<PacketMeta>,
    idx: usize,
}

impl View for SyntheticSource {
    type V = Seq<PacketMeta>;

    /// The packets still to come.
    closed spec fn view(&self) -> Seq<PacketMeta> {
        if self.idx <= self.packets@.len() {
            self.packets@.skip(self.idx as int)
        } else {
            Seq::empty()
        }
    }
}

impl SyntheticSource {
    pub fn new() -> (s: SyntheticSource)
        ensures
            s@ == script(),
    {
        let s = SyntheticSource { packets: build_script(), idx: 0 };
        assert(s@ =~= script());
        s
    }
}

impl Default for SyntheticSource {
    fn default() -> (s: SyntheticSource)
        ensures
            s@ == script(),
    {
        Self::new()
    }
}

impl CaptureSource for SyntheticSource {
    fn name(&self) -> (s: &str)
        ensures
            s@ == "synthetic"@,
    {
        "synthetic"
    }

    fn next_packet(&mut self) -> (r: Result<Option<PacketMeta>, Error>)
        ensures
            if old(self)@.len() == 0 {
                r == Ok::<Option<PacketMeta>, Error>(None) && final(self)@ == old(self)@
            } else {
                r == Ok::<Option<PacketMeta>, Error>(Some(old(self)@[0])) && final(self)@ == old(
                    self,
                )@.skip(1)
            },
    {
        if self.idx >= self.packets.len() {
            return Ok(None);
        }
        let p = self.packets[self.idx];
        self.idx = self.idx + 1;
        assert(self@ =~= old(self)@.skip(1));
        Ok(Some(p))
    }
}

/// Build a `PacketMeta` from an observed (src,dst) pair.
fn pkt(
    ts: u64,
    src_ip: IpAddr,
    sport: u16,
    dst_ip: IpAddr,
    dport: u16,
    flags: u8,
    seq: u32,
    ack: u32,
    window: u32,
    payload_len: u32,
) -> (p: PacketMeta)
    ensures
        p == scripted(
            ts as int,
            (src_ip, sport as int),
            (dst_ip, dport as int),
            flags,
            seq as int,
            ack as int,
            window,
            payload_len,
        ),
{
    let (key, dir) = FlowKey::canonical(
        Endpoint::new(src_ip, sport),
        Endpoint::new(dst_ip, dport),
        Protocol::Tcp,
    );
    PacketMeta {
        ts_nanos: ts,
        key,
        dir,
        proto: Protocol::Tcp,
        flags: TcpFlags(flags),
        seq,
        ack,
        window,
        payload_len,
        ttl: 64,
        iface: 0,
    }
}

fn push_handshake(
    p: &mut Vec<PacketMeta>,
    start: u64,
    rtt: u64,
    done: u64,
    client: (IpAddr, u16),
    server: (IpAddr, u16),
    client_seq: u32,
    server_seq: u32,
)
    requires
        start + rtt <= u64::MAX,
        start + done <= u64::MAX,
        client_seq < u32::MAX,
        server_seq < u32::MAX,
    ensures
        final(p)@ == old(p)@ + handshake(
            start as int,
            rtt as int,
            done as int,
            (client.0, client.1 as int),
            (server.0, server.1 as int),
            client_seq as int,
            server_seq as int,
        ),
{
    p.push(
        pkt(start, client.0, client.1, server.0, server.1, TcpFlags::SYN, client_seq, 0, 64240, 0),
    );
    p.push(
        pkt(
            start + rtt,
            server.0,
            server.1,
            client.0,
            client.1,
            TcpFlags::SYN | TcpFlags::ACK,
            server_seq,
            client_seq + 1,
            65160,
            0,
        ),
    );
    p.push(
        pkt(
            start + done,
            client.0,
            client.1,
            server.0,
            server.1,
            TcpFlags::ACK,
            client_seq + 1,
            server_seq + 1,
            64240,
            0,
        ),
    );
    assert(p@ =~= old(p)@ + handshake(
        start as int,
        rtt as int,
        done as int,
        (client.0, client.1 as int),
        (server.0, server.1 as int),
        client_seq as int,
        server_seq as int,
    ));
}

fn push_retransmissions(p: &mut Vec<PacketMeta>, client: IpAddr, server: IpAddr)
    requires
        client == host(0, 5),
        server == host(0, 9),
    ensures
        final(p)@ == old(p)@ + retransmissions() + duplicate_acks(),
{
    let base: u64 = START + 400 * MS;
    push_handshake(p, base, MS, 2 * MS, (client, 40002), (server, 80), 2000, 9000);
    // First transmission of a 200-byte segment, then 3 retransmits (seq unchanged).
    let ghost first = p@;
    let mut i: u64 = 0;
    while i < 4
        invariant
            i <= 4,
            base == START + 400 * MS,
            client == host(0, 5),
            server == host(0, 9),
            p@.len() == first.len() + i,
            forall|j: int| 0 <= j < first.len() ==> p@[j] == first[j],
            forall|j: int|
                0 <= j < i ==> p@[first.len() + j] == #[trigger] resent()[j],
        decreases 4 - i,
    {
        p.push(
            pkt(
                base + (10 + i * 200) * MS,
                client,
                40002,
                server,
                80,
                TcpFlags::ACK | TcpFlags::PSH,
                2001,
                9001,
                64240,
                200,
            ),
        );
        i = i + 1;
    }
    assert(p@ =~= first + resent());
    assert(p@ =~= old(p)@ + retransmissions());
    let ghost second = p@;
    i = 0;
    while i < 4
        invariant
            i <= 4,
            base == START + 400 * MS,
            client == host(0, 5),
            server == host(0, 9),
            p@.len() == second.len() + i,
            forall|j: int| 0 <= j < second.len() ==> p@[j] == second[j],
            forall|j: int|
                0 <= j < i ==> p@[second.len() + j] == #[trigger] duplicate_acks()[j],
        decreases 4 - i,
    {
        p.push(
            pkt(
                base + (900 + i * 5) * MS,
                server,
                80,
                client,
                40002,
                TcpFlags::ACK,
                9001,
                2201,
                65160,
                0,
            ),
        );
        i = i + 1;
    }
    assert(p@ =~= second + duplicate_acks());
}

fn push_rst_storm(p: &mut Vec<PacketMeta>, server: IpAddr)
    requires
        server == host(0, 9),
    ensures
        final(p)@ == old(p)@ + rst_storm(),
{
    let rt: u64 = START + 3 * SEC;
    let ghost first = p@;
    let mut i: u32 = 0;
    while i < 40
        invariant
            i <= 40,
            rt == START + 3 * SEC,
            server == host(0, 9),
            p@.len() == first.len() + 2 * i,
            forall|j: int| 0 <= j < first.len() ==> p@[j] == first[j],
            forall|j: int| 0 <= j < 2 * i ==> p@[first.len() + j] == #[trigger] rst_storm()[j],
        decreases 40 - i,
    {
        let cli = IpAddr::v4(10, 0, 1, (i % 250) as u8 + 1);
        let sp: u16 = 50000 + i as u16;
        // client SYN, server RST.
        p.push(
            pkt(
                rt + i as u64 * 10 * MS,
                cli,
                sp,
                server,
                8080,
                TcpFlags::SYN,
                4000 + i,
                0,
                64240,
                0,
            ),
        );
        p.push(
            pkt(
                rt + i as u64 * 10 * MS + MS,
                server,
                8080,
                cli,
                sp,
                TcpFlags::RST | TcpFlags::ACK,
                0,
                4001 + i,
                0,
                0,
            ),
        );
        proof {
            assert(rst_storm()[2 * i] == refused_request(i as int));
            assert(rst_storm()[2 * i + 1] == refusal(i as int));
        }
        i = i + 1;
    }
    assert(p@ =~= first + rst_storm());
}

fn push_churn(p: &mut Vec<PacketMeta>, server: IpAddr)
    requires
        server == host(0, 9),
    ensures
        final(p)@ == old(p)@ + churn(),
{
    let ct: u64 = START + 3 * SEC + 500 * MS;
    let ghost first = p@;
    let mut i: u32 = 0;
    while i < 220
        invariant
            i <= 220,
            ct == START + 3 * SEC + 500 * MS,
            server == host(0, 9),
            p@.len() == first.len() + i,
            forall|j: int| 0 <= j < first.len() ==> p@[j] == first[j],
            forall|j: int| 0 <= j < i ==> p@[first.len() + j] == #[trigger] churn()[j],
        decreases 220 - i,
    {
        let cli = IpAddr::v4(10, 0, 3, (i % 250) as u8 + 1);
        let (key, dir) = FlowKey::canonical(
            Endpoint::new(cli, 20000 + i as u16),
            Endpoint::new(server, 53),
            Protocol::Udp,
        );
        p.push(
            PacketMeta {
                ts_nanos: ct + i as u64 * MS,
                key,
                dir,
                proto: Protocol::Udp,
                flags: TcpFlags(0),
                seq: 0,
                ack: 0,
                window: 0,
                payload_len: 40,
                ttl: 64,
                iface: 0,
            },
        );
        assert(churn()[i as int] == lookup(i as int));
        i = i + 1;
    }
    assert(p@ =~= first + churn());
}

fn push_syn_backlog(p: &mut Vec<PacketMeta>, server: IpAddr)
    requires
        server == host(0, 9),
    ensures
        final(p)@ == old(p)@ + syn_backlog(),
{
    let st: u64 = START + 5 * SEC;
    let ghost first = p@;
    let mut i: u32 = 0;
    while i < 80
        invariant
            i <= 80,
            st == START + 5 * SEC,
            server == host(0, 9),
            p@.len() == first.len() + i,
            forall|j: int| 0 <= j < first.len() ==> p@[j] == first[j],
            forall|j: int| 0 <= j < i ==> p@[first.len() + j] == #[trigger] syn_backlog()[j],
        decreases 80 - i,
    {
        let cli = IpAddr::v4(10, 0, 2, (i % 250) as u8 + 1);
        let sp: u16 = 60000 + i as u16;
        p.push(
            pkt(
                st + i as u64 * MS,
                cli,
                sp,
                server,
                3306,
                TcpFlags::SYN,
                6000 + i,
                0,
                64240,
                0,
            ),
        );
        i = i + 1;
    }
    assert(p@ =~= first + syn_backlog());
}

fn build_script() -> (p: Vec<PacketMeta>)
    ensures
        p@ == script(),
{
    let mut p: Vec<PacketMeta> = Vec::new();
    let client = IpAddr::v4(10, 0, 0, 5);
    let server = IpAddr::v4(10, 0, 0, 9);

    push_handshake(&mut p, START, 300 * MS, 305 * MS, (client, 40001), (server, 443), 1000, 5000);
    assert(p@ =~= high_rtt());
    push_retransmissions(&mut p, client, server);
    // A segment further on arrives before the ones it follows.
    p.push(
        pkt(
            START + 400 * MS + 950 * MS,
            client,
            40002,
            server,
            80,
            TcpFlags::ACK | TcpFlags::PSH,
            2401,
            9001,
            64240,
            200,
        ),
    );
    assert(p@ =~= (high_rtt() + retransmissions() + duplicate_acks()).push(ahead()));
    let zt: u64 = START + 2 * SEC;
    push_handshake(&mut p, zt, MS, 2 * MS, (client, 40003), (server, 5432), 3000, 7000);
    // window 0
    p.push(pkt(zt + 50 * MS, client, 40003, server, 5432, TcpFlags::ACK, 3001, 7001, 0, 0));
    assert(p@ =~= (high_rtt() + retransmissions() + duplicate_acks()).push(ahead())
        + zero_window());
    push_rst_storm(&mut p, server);
    push_churn(&mut p, server);
    push_syn_backlog(&mut p, server);
    p.push(
        pkt(
            START + 5 * SEC + 10 * SEC,
            client,
            40009,
            server,
            22,
            TcpFlags::SYN,
            7000,
            0,
            64240,
            0,
        ),
    );
    p
}

} // verus!
