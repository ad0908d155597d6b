use l4scope::address::IpAddr;
use l4scope::capture;
use l4scope::capture::{CaptureSource, Opening, Platform};
use l4scope::config::{Backend, Config};
use l4scope::ebpf;
use l4scope::ebpf::BpfL4Event;
use l4scope::error::Error;
use l4scope::parse;
use l4scope::pcapio::{PcapStream, Step};
use l4scope::synthetic::SyntheticSource;
use l4scope::types::{PacketMeta, Protocol, TcpFlags};

const LINUX: Platform = Platform { windows: false, ebpf: true, etw: false };

#[test]
fn synthetic_yields_packets_starting_with_syn() {
    let mut src = SyntheticSource::new();
    let first = src.next_packet().unwrap().expect("at least one packet");
    assert!(first.flags.is_syn_only(), "script starts with a SYN");

    let mut count = 1;
    let mut saw_zero_window = false;
    while let Some(p) = src.next_packet().unwrap() {
        count += 1;
        if p.window == 0 {
            saw_zero_window = true;
        }
    }
    assert!(count > 100, "script exercises many flows, got {count}");
    assert!(saw_zero_window, "script includes a zero-window packet");
}

#[test]
fn synthetic_script_is_stable() {
    let mut src = SyntheticSource::default();
    assert_eq!(src.name(), "synthetic");
    let mut pkts = Vec::new();
    while let Some(p) = src.next_packet().unwrap() {
        pkts.push(p);
    }
    assert_eq!(pkts.len(), 400);
    assert_eq!(pkts[0].ts_nanos, 1_700_000_000_000_000_000);
    assert_eq!(pkts[1].ts_nanos - pkts[0].ts_nanos, 300_000_000);
    assert_eq!(pkts[1].ack, 1001);
    assert_eq!(pkts[9].payload_len, 200);
    assert_eq!(pkts[9].ts_nanos - pkts[6].ts_nanos, 600_000_000);
    assert_eq!(pkts[14].seq, 2401);
    assert_eq!(pkts[18].window, 0);
    assert!(pkts[20].flags.rst());
    assert_eq!(pkts[98].ack, 4040);
    assert_eq!(pkts[99].proto, Protocol::Udp);
    assert_eq!(pkts[318].ts_nanos, 1_700_000_003_719_000_000);
    assert_eq!(pkts[398].seq, 6079);
    assert_eq!(pkts[399].ts_nanos, 1_700_000_015_000_000_000);
    assert!(pkts.windows(2).all(|w| w[0].ts_nanos <= w[1].ts_nanos));
    assert!(src.next_packet().unwrap().is_none());
}

// ---------------------------------------------------------------------------
// Frames
// ---------------------------------------------------------------------------

struct Seg {
    src: [u8; 4],
    sport: u16,
    dst: [u8; 4],
    dport: u16,
    seq: u32,
    ack: u32,
    flags: u8,
    window: u16,
    payload: usize,
}

fn ipv4_tcp(s: &Seg) -> Vec<u8> {
    let total = 20 + 20 + s.payload;
    let mut d = vec![0x45, 0, (total >> 8) as u8, total as u8, 0, 0, 0, 0, 63, 6, 0, 0];
    d.extend_from_slice(&s.src);
    d.extend_from_slice(&s.dst);
    d.extend_from_slice(&s.sport.to_be_bytes());
    d.extend_from_slice(&s.dport.to_be_bytes());
    d.extend_from_slice(&s.seq.to_be_bytes());
    d.extend_from_slice(&s.ack.to_be_bytes());
    d.extend_from_slice(&[0x50, s.flags]);
    d.extend_from_slice(&s.window.to_be_bytes());
    d.extend_from_slice(&[0, 0, 0, 0]);
    d.extend(vec![0xaa; s.payload]);
    d
}

fn ether(et: u16, l3: &[u8]) -> Vec<u8> {
    let mut d = vec![2; 12];
    d.extend_from_slice(&et.to_be_bytes());
    d.extend_from_slice(l3);
    d
}

fn seg() -> Seg {
    Seg {
        src: [10, 0, 0, 1],
        sport: 5000,
        dst: [10, 0, 0, 2],
        dport: 80,
        seq: 0x0102_0304,
        ack: 0x0506_0708,
        flags: 0xff,
        window: 4096,
        payload: 7,
    }
}

#[test]
fn ethernet_frames_decode() {
    let p = parse::parse_frame(1, &ether(0x0800, &ipv4_tcp(&seg())), 9, 3).expect("packet");
    assert_eq!(p.ts_nanos, 9);
    assert_eq!(p.iface, 3);
    assert_eq!(p.proto, Protocol::Tcp);
    assert_eq!(p.key.low.ip, IpAddr::v4(10, 0, 0, 1));
    assert_eq!(p.key.low.port, 5000);
    assert_eq!(p.key.high.port, 80);
    assert_eq!(p.seq, 0x0102_0304);
    assert_eq!(p.ack, 0x0506_0708);
    assert_eq!(p.flags, TcpFlags(0x3f));
    assert_eq!(p.window, 4096);
    assert_eq!(p.payload_len, 7);
    assert_eq!(p.ttl, 63);
}

#[test]
fn other_links_decode_alike() {
    let ip = ipv4_tcp(&seg());
    let plain = parse::parse_frame(1, &ether(0x0800, &ip), 0, 0);
    assert!(plain.is_some());
    let mut vlan = vec![0, 5];
    vlan.extend_from_slice(&[0x08, 0x00]);
    vlan.extend_from_slice(&ip);
    assert_eq!(parse::parse_frame(1, &ether(0x8100, &vlan), 0, 0), plain);
    let mut qinq = vec![0, 5, 0x81, 0x00];
    qinq.extend_from_slice(&vlan);
    assert_eq!(parse::parse_frame(1, &ether(0x88a8, &qinq), 0, 0), plain);
    // A third tag is no longer walked.
    let mut deep = vec![0, 5, 0x81, 0x00];
    deep.extend_from_slice(&qinq);
    assert_eq!(parse::parse_frame(1, &ether(0x88a8, &deep), 0, 0), None);
    let mut sll = vec![0; 14];
    sll.extend_from_slice(&[0x08, 0x00]);
    sll.extend_from_slice(&ip);
    assert_eq!(parse::parse_frame(113, &sll, 0, 0), plain);
    assert_eq!(parse::parse_frame(101, &ip, 0, 0), plain);
    let mut null = vec![2, 0, 0, 0];
    null.extend_from_slice(&ip);
    assert_eq!(parse::parse_frame(0, &null, 0, 0), plain);
    assert_eq!(parse::parse_frame(999, &ip, 0, 0), None);
}

#[test]
fn frames_cut_short_are_no_packets() {
    let frame = ether(0x0800, &ipv4_tcp(&seg()));
    for n in 0..14 + 40 {
        assert_eq!(parse::parse_frame(1, &frame[..n], 0, 0), None);
    }
    // Without its payload the frame still counts, with the payload that was captured.
    let p = parse::parse_frame(1, &frame[..14 + 40], 0, 0).expect("headers are there");
    assert_eq!(p.payload_len, 0);
    assert_eq!(parse::parse_frame(1, &ether(0x0806, &[0; 28]), 0, 0), None);
}

#[test]
fn malformed_headers_are_no_packets() {
    let mut short_ihl = ipv4_tcp(&seg());
    short_ihl[0] = 0x44;
    assert_eq!(parse::parse_frame(101, &short_ihl, 0, 0), None);
    let mut short_off = ipv4_tcp(&seg());
    short_off[20 + 12] = 0x40;
    assert_eq!(parse::parse_frame(101, &short_off, 0, 0), None);
    let mut icmp = ipv4_tcp(&seg());
    icmp[9] = 1;
    assert_eq!(parse::parse_frame(101, &icmp, 0, 0), None);
    let mut version = ipv4_tcp(&seg());
    version[0] = 0x55;
    assert_eq!(parse::parse_frame(101, &version, 0, 0), None);
}

#[test]
fn ip_options_are_passed_over() {
    let mut d = ipv4_tcp(&seg());
    d[0] = 0x46;
    let total = 24 + 20 + 7u16;
    d[2] = (total >> 8) as u8;
    d[3] = total as u8;
    for _ in 0..4 {
        d.insert(20, 1);
    }
    let p = parse::parse_frame(101, &d, 0, 0).expect("packet");
    assert_eq!(p.payload_len, 7);
    assert_eq!(p.window, 4096);
}

fn ipv4_udp(ulen: u16) -> Vec<u8> {
    let mut d = vec![0x45, 0, 0, 28, 0, 0, 0, 0, 64, 17, 0, 0, 10, 0, 0, 9, 10, 0, 0, 1];
    d.extend_from_slice(&53u16.to_be_bytes());
    d.extend_from_slice(&9999u16.to_be_bytes());
    d.extend_from_slice(&ulen.to_be_bytes());
    d.extend_from_slice(&[0, 0]);
    d
}

#[test]
fn udp_datagrams_decode() {
    let p = parse::parse_frame(101, &ipv4_udp(108), 0, 0).expect("packet");
    assert_eq!(p.proto, Protocol::Udp);
    assert_eq!(p.payload_len, 100);
    assert_eq!(p.key.high.port, 53);
    assert_eq!(p.flags, TcpFlags(0));
    let p = parse::parse_frame(101, &ipv4_udp(3), 0, 0).expect("packet");
    assert_eq!(p.payload_len, 0);
    assert_eq!(parse::parse_frame(101, &ipv4_udp(8)[..27], 0, 0), None);
}

fn ipv6(next: u8, rest: &[u8]) -> Vec<u8> {
    let mut d = vec![0x60, 0, 0, 0];
    d.extend_from_slice(&(rest.len() as u16).to_be_bytes());
    d.extend_from_slice(&[next, 55]);
    d.extend_from_slice(&[0xfd, 0, 0, 0, 0, 0, 0, 0, 0, 0, 0, 0, 0, 0, 0, 1]);
    d.extend_from_slice(&[0xfd, 0, 0, 0, 0, 0, 0, 0, 0, 0, 0, 0, 0, 0, 0, 2]);
    d.extend_from_slice(rest);
    d
}

#[test]
fn ipv6_extension_headers_are_walked() {
    let tcp = &ipv4_tcp(&seg())[20..];
    let plain = parse::parse_frame(101, &ipv6(6, tcp), 0, 0).expect("packet");
    assert_eq!(plain.ttl, 55);
    assert_eq!(plain.payload_len, 7);
    assert_eq!(plain.key.low.ip.to_text(), "fd00::1");
    // Hop-by-hop of 16 bytes, then a fragment header, then TCP.
    let mut rest = vec![44, 1, 0, 0, 0, 0, 0, 0, 0, 0, 0, 0, 0, 0, 0, 0];
    rest.extend_from_slice(&[6, 0, 0, 0, 0, 0, 0, 0]);
    rest.extend_from_slice(tcp);
    assert_eq!(parse::parse_frame(101, &ipv6(0, &rest), 0, 0), Some(plain));
    // An authentication header counts in units of four, its neighbours in units of eight.
    let mut rest = vec![6, 4];
    rest.extend_from_slice(&[0; 22]);
    rest.extend_from_slice(tcp);
    assert_eq!(parse::parse_frame(101, &ipv6(51, &rest), 0, 0), Some(plain));
    let mut chain = vec![51, 0, 0, 0, 0, 0, 0, 0];
    chain.extend_from_slice(&rest);
    assert_eq!(parse::parse_frame(101, &ipv6(60, &chain), 0, 0), Some(plain));
    assert_eq!(parse::parse_frame(101, &ipv6(58, tcp), 0, 0), None);
    assert_eq!(parse::parse_frame(101, &ipv6(0, &[6]), 0, 0), None);
    assert_eq!(parse::parse_frame(101, &ipv6(0, &[6, 0, 0, 0, 0, 0, 0, 0]), 0, 0), None);
    assert_eq!(parse::parse_frame(101, &ipv6(44, &[]), 0, 0), None);
}

#[test]
fn ipv6_walk_is_bounded() {
    let tcp = &ipv4_tcp(&seg())[20..];
    let chain = |n: usize| {
        let mut rest = Vec::new();
        for i in 0..n {
            rest.extend_from_slice(&[if i + 1 < n { 60 } else { 6 }, 0, 0, 0, 0, 0, 0, 0]);
        }
        rest.extend_from_slice(tcp);
        ipv6(60, &rest)
    };
    assert!(parse::parse_frame(101, &chain(8), 0, 0).is_some());
    assert!(parse::parse_frame(101, &chain(9), 0, 0).is_none());
}

#[test]
fn link_headers_are_stripped() {
    let data = ether(0x86dd, &[1, 2, 3]);
    let (et, l3) = parse::strip_link(1, &data).expect("ethertype");
    assert_eq!(et, 0x86dd);
    assert_eq!(l3, &[1, 2, 3]);
    assert!(parse::strip_link(1, &data[..13]).is_none());
    assert!(parse::strip_link(113, &[0; 15]).is_none());
    assert!(parse::strip_link(101, &[]).is_none());
    assert!(parse::strip_link(0, &[0, 0, 0, 0]).is_none());
}

// ---------------------------------------------------------------------------
// Streams
// ---------------------------------------------------------------------------

fn global_header(magic: [u8; 4], linktype: [u8; 4]) -> Vec<u8> {
    let mut d = magic.to_vec();
    d.extend_from_slice(&[2, 0, 4, 0, 0, 0, 0, 0, 0, 0, 0, 0, 0, 0, 4, 0]);
    d.extend_from_slice(&linktype);
    d
}

fn record(sec: u32, frac: u32, frame: &[u8]) -> Vec<u8> {
    let mut d = sec.to_le_bytes().to_vec();
    d.extend_from_slice(&frac.to_le_bytes());
    d.extend_from_slice(&(frame.len() as u32).to_le_bytes());
    d.extend_from_slice(&(frame.len() as u32).to_le_bytes());
    d.extend_from_slice(frame);
    d
}

/// A capture of a high-RTT handshake, a segment sent three times, and a zero window.
fn sample_pcap() -> Vec<u8> {
    let client = |seq, ack, flags, window, payload| Seg {
        src: [10, 0, 0, 5],
        sport: 40001,
        dst: [10, 0, 0, 9],
        dport: 443,
        seq,
        ack,
        flags,
        window,
        payload,
    };
    let server = |seq, ack, flags, window| Seg {
        src: [10, 0, 0, 9],
        sport: 443,
        dst: [10, 0, 0, 5],
        dport: 40001,
        seq,
        ack,
        flags,
        window,
        payload: 0,
    };
    let mut d = global_header([0xd4, 0xc3, 0xb2, 0xa1], [1, 0, 0, 0]);
    let frames = [
        (0, client(1000, 0, 0x02, 64240, 0)),
        (300_000, server(5000, 1001, 0x12, 65160)),
        (305_000, client(1001, 5001, 0x10, 64240, 0)),
        (310_000, client(1001, 5001, 0x18, 64240, 200)),
        (510_000, client(1001, 5001, 0x18, 64240, 200)),
        (710_000, client(1001, 5001, 0x18, 64240, 200)),
        (720_000, server(5001, 1201, 0x10, 65160)),
        (730_000, client(1201, 5001, 0x10, 0, 0)),
    ];
    for (usec, s) in frames {
        d.extend(record(1_700_000_000, usec, &ether(0x0800, &ipv4_tcp(&s))));
    }
    d
}

fn read_all(data: &[u8]) -> Result<Vec<PacketMeta>, Error> {
    let stream = PcapStream::new(data, 0)?;
    let mut rest = &data[24..];
    let mut pkts = Vec::new();
    loop {
        match stream.next_packet(rest, true)? {
            Step::Packet(p, n) => {
                pkts.push(p);
                rest = &rest[n..];
            }
            Step::End => return Ok(pkts),
            Step::More(_) => panic!("the stream has ended"),
        }
    }
}

#[test]
fn replays_sample_pcap() {
    let mut cap = Config::default().capture;
    cap.backend = Backend::PcapFile;
    cap.pcap_path = "testdata/sample.pcap".to_string();

    match capture::open(&cap, LINUX).expect("open pcap") {
        Opening::PcapFile { name, path } => {
            assert_eq!(name, "pcap_file:testdata/sample.pcap");
            assert_eq!(path, "testdata/sample.pcap");
        }
        other => panic!("not a pcap file: {other:?}"),
    }
    let pkts = read_all(&sample_pcap()).expect("read packet");

    assert_eq!(pkts.len(), 8, "sample.pcap has 8 packets");
    assert!(pkts[0].flags.is_syn_only(), "first packet is a SYN");
    assert!(pkts.iter().all(|p| p.proto == Protocol::Tcp));
    assert!(pkts.iter().any(|p| p.window == 0), "includes a zero-window packet");
    // Endpoint 443 (server) appears on the canonical key.
    assert!(pkts.iter().any(|p| p.key.low.port == 443 || p.key.high.port == 443));
    // At least one 200-byte data segment (the retransmitted payload).
    assert!(pkts.iter().any(|p| p.payload_len == 200));
}

#[test]
fn timestamps_follow_the_magic() {
    let frame = ether(0x0800, &ipv4_tcp(&seg()));
    let mut us = global_header([0xd4, 0xc3, 0xb2, 0xa1], [1, 0, 0, 0]);
    us.extend(record(3, 7, &frame));
    assert_eq!(read_all(&us).unwrap()[0].ts_nanos, 3_000_007_000);
    let mut ns = global_header([0x4d, 0x3c, 0xb2, 0xa1], [1, 0, 0, 0]);
    ns.extend(record(3, 7, &frame));
    assert_eq!(read_all(&ns).unwrap()[0].ts_nanos, 3_000_000_007);
    // Big-endian streams.
    let mut be = global_header([0xa1, 0xb2, 0xc3, 0xd4], [0, 0, 0, 1]);
    be.extend_from_slice(&[0, 0, 0, 3, 0, 0, 0, 7]);
    be.extend_from_slice(&(frame.len() as u32).to_be_bytes());
    be.extend_from_slice(&(frame.len() as u32).to_be_bytes());
    be.extend_from_slice(&frame);
    let stream = PcapStream::new(&be, 4).unwrap();
    assert_eq!(stream.linktype(), 1);
    assert!(!stream.little && !stream.nanos);
    assert_eq!(read_all(&be).unwrap()[0].ts_nanos, 3_000_007_000);
    let stream = PcapStream::new(&global_header([0xa1, 0xb2, 0x3c, 0x4d], [0, 0, 0, 101]), 4);
    let stream = stream.unwrap();
    assert_eq!(stream.linktype(), 101);
    assert!(stream.nanos && !stream.little);
}

fn failure<T>(r: Result<T, Error>) -> String {
    match r {
        Ok(_) => String::new(),
        Err(e) => e.to_text(),
    }
}

#[test]
fn broken_streams_are_errors() {
    assert_eq!(
        failure(PcapStream::new(&[0x0a, 0x0d, 0x0d, 0x0a, 0, 0, 0, 0, 0, 0, 0, 0, 0, 0, 0, 0, 0, 0,
            0, 0, 0, 0, 0, 0], 0)),
        "parse error: not a pcap stream (magic 0x0a0d0d0a)"
    );
    assert_eq!(
        failure(PcapStream::new(&[0xd4, 0xc3], 0)),
        "parse error: unexpected end of pcap stream"
    );
    let stream = PcapStream::new(&sample_pcap(), 0).unwrap();
    assert_eq!(
        failure(stream.next_packet(&[0; 15], true)),
        "parse error: truncated pcap record header"
    );
    assert_eq!(
        failure(stream.next_packet(&[0, 0, 0, 0, 0, 0, 0, 0, 9, 0, 0, 0, 0, 0, 0, 0, 1], true)),
        "parse error: unexpected end of pcap stream"
    );
    let huge = 262_145u32.to_le_bytes();
    let mut rec = vec![0; 8];
    rec.extend_from_slice(&huge);
    rec.extend_from_slice(&huge);
    assert_eq!(
        failure(stream.next_packet(&rec, false)),
        "parse error: implausible record length 262145"
    );
}

#[test]
fn uninteresting_frames_are_skipped() {
    let mut d = global_header([0xd4, 0xc3, 0xb2, 0xa1], [1, 0, 0, 0]);
    d.extend(record(1, 0, &ether(0x0806, &[0; 28])));
    d.extend(record(2, 0, &[]));
    d.extend(record(3, 0, &ether(0x0800, &ipv4_tcp(&seg()))));
    let pkts = read_all(&d).unwrap();
    assert_eq!(pkts.len(), 1);
    assert_eq!(pkts[0].ts_nanos, 3_000_000_000);
}

#[test]
fn pieces_read_as_the_whole() {
    let data = sample_pcap();
    let whole = read_all(&data).unwrap();
    let stream = PcapStream::new(&data, 0).unwrap();
    let mut pkts = Vec::new();
    let mut buf: Vec<u8> = Vec::new();
    let mut fed = 24;
    loop {
        let ended = fed == data.len();
        match stream.next_packet(&buf, ended).unwrap() {
            Step::Packet(p, n) => {
                pkts.push(p);
                buf.drain(..n);
            }
            Step::More(n) => {
                buf.drain(..n);
                let upto = (fed + 11).min(data.len());
                buf.extend_from_slice(&data[fed..upto]);
                fed = upto;
            }
            Step::End => break,
        }
    }
    assert_eq!(pkts, whole);
}

// ---------------------------------------------------------------------------
// Backends
// ---------------------------------------------------------------------------

fn argv(v: &[&str]) -> Vec<String> {
    v.iter().map(|s| s.to_string()).collect()
}

#[test]
fn default_commands_per_system() {
    assert_eq!(
        capture::default_command("eth0", "tcp or  udp", false),
        argv(&["tcpdump", "-i", "eth0", "-w", "-", "-U", "-n", "-s", "256", "tcp", "or", "udp"])
    );
    assert_eq!(
        capture::default_command("", "", false),
        argv(&["tcpdump", "-i", "any", "-w", "-", "-U", "-n", "-s", "256"])
    );
    assert_eq!(
        capture::default_command("Ethernet", "tcp or  udp", true),
        argv(&[
            "tshark", "-i", "Ethernet", "-w", "-", "-F", "pcap", "-s", "256", "-f", "tcp or  udp"
        ])
    );
    assert_eq!(
        capture::default_command("", "", true),
        argv(&["tshark", "-i", "any", "-w", "-", "-F", "pcap", "-s", "256"])
    );
}

#[test]
fn backends_open_as_configured() {
    let mut cap = Config::default().capture;
    assert!(matches!(capture::open(&cap, LINUX).unwrap(), Opening::Synthetic));
    cap.backend = Backend::Live;
    cap.live_command = "  dumpcap -i  lo ".to_string();
    match capture::open(&cap, LINUX).unwrap() {
        Opening::Live { name, argv: v } => {
            assert_eq!(name, "live:dumpcap");
            assert_eq!(v, argv(&["dumpcap", "-i", "lo"]));
        }
        other => panic!("not live: {other:?}"),
    }
    cap.live_command = "  ".to_string();
    match capture::open(&cap, LINUX).unwrap() {
        Opening::Live { name, argv: v } => {
            assert_eq!(name, "live:tcpdump");
            assert_eq!(v.len(), 12);
        }
        other => panic!("not live: {other:?}"),
    }
    cap.backend = Backend::Ebpf;
    match capture::open(&cap, LINUX).unwrap() {
        Opening::Ebpf { name, iface } => {
            assert_eq!(name, "ebpf:eth0");
            assert_eq!(iface, "eth0");
        }
        other => panic!("not ebpf: {other:?}"),
    }
    cap.interface = "bond0".to_string();
    match capture::open(&cap, LINUX).unwrap() {
        Opening::Ebpf { iface, .. } => assert_eq!(iface, "bond0"),
        other => panic!("not ebpf: {other:?}"),
    }
}

#[test]
fn backends_that_cannot_open_say_why() {
    let mut cap = Config::default().capture;
    cap.backend = Backend::PcapFile;
    cap.pcap_path = " ".to_string();
    assert_eq!(
        failure(capture::open(&cap, LINUX)),
        "config error: pcap_file backend needs capture.pcap_path"
    );
    let bare = Platform { windows: false, ebpf: false, etw: false };
    cap.backend = Backend::Ebpf;
    assert_eq!(
        failure(capture::open(&cap, bare)),
        "unsupported capture backend: ebpf backend not built in; rebuild on Linux with \
         `--features l4scope-agent/ebpf` (see docs/BUILD_NATIVE.md)"
    );
    cap.backend = Backend::Etw;
    assert_eq!(
        failure(capture::open(&cap, bare)),
        "unsupported capture backend: etw backend not built in; rebuild on Windows with \
         `--features l4scope-agent/etw` (see docs/BUILD_NATIVE.md)"
    );
    let windows = Platform { windows: true, ebpf: false, etw: true };
    assert!(failure(capture::open(&cap, windows)).contains("realtime ETW consumer"));
}

fn bpf_record(family: u8, proto: u8) -> Vec<u8> {
    let mut d = 1_000u64.to_le_bytes().to_vec();
    d.extend_from_slice(&[10, 0, 0, 7, 0, 0, 0, 0, 0, 0, 0, 0, 0, 0, 0, 1]);
    d.extend_from_slice(&[10, 0, 0, 8, 0, 0, 0, 0, 0, 0, 0, 0, 0, 0, 0, 2]);
    d.extend_from_slice(&443u16.to_le_bytes());
    d.extend_from_slice(&50_000u16.to_le_bytes());
    for n in [11u32, 12, 13, 14] {
        d.extend_from_slice(&n.to_le_bytes());
    }
    d.extend_from_slice(&[family, proto, 0x52, 61]);
    d.extend_from_slice(&5u32.to_le_bytes());
    d.extend_from_slice(&[0; 4]);
    d
}

#[test]
fn bpf_records_decode() {
    let d = bpf_record(4, 6);
    assert_eq!(d.len(), 72);
    let p = ebpf::decode_record(&d, true, 500).expect("packet");
    assert_eq!(p.ts_nanos, 1_500);
    assert_eq!(p.key.low.ip, IpAddr::v4(10, 0, 0, 7));
    assert_eq!(p.key.low.port, 443);
    assert_eq!(p.key.high.port, 50_000);
    assert_eq!((p.seq, p.ack, p.window, p.payload_len), (11, 12, 13, 14));
    assert_eq!(p.flags, TcpFlags(0x52));
    assert_eq!(p.ttl, 61);
    assert_eq!(p.iface, 5);
    let p = ebpf::decode_record(&bpf_record(6, 17), true, u64::MAX).expect("packet");
    assert_eq!(p.proto, Protocol::Udp);
    assert_eq!((p.flags, p.seq, p.ack), (TcpFlags(0), 0, 0));
    assert_eq!((p.window, p.payload_len), (13, 14));
    assert_eq!(p.ts_nanos, 999);
    assert_eq!(p.key.low.ip.to_text(), "a00:7::1");
    assert!(ebpf::decode_record(&d[..71], true, 0).is_none());
    assert!(ebpf::decode_record(&bpf_record(5, 6), true, 0).is_none());
    assert!(ebpf::decode_record(&bpf_record(4, 1), true, 0).is_none());
}

#[test]
fn bpf_records_keep_their_byte_order() {
    let ev = BpfL4Event::read(&bpf_record(4, 6), true).expect("long enough");
    assert_eq!(ev.sport, 443);
    assert_eq!(ev.ts_nanos, 1_000);
    let ev = BpfL4Event::read(&bpf_record(4, 6), false).expect("long enough");
    assert_eq!(ev.sport, 443u16.swap_bytes());
    assert_eq!(ev.ts_nanos, 1_000u64.swap_bytes());
    assert_eq!(ev.iface, 5u32.swap_bytes());
}

#[test]
fn monotonic_times_land_on_the_wall_clock() {
    let offset = ebpf::wall_offset_ns((100, 5), (1_700_000_000, 7));
    assert_eq!(offset, 1_699_999_900_000_000_002);
    // A wall clock behind the monotonic one wraps around and back.
    let offset = ebpf::wall_offset_ns((100, 0), (0, 0));
    assert_eq!(offset.wrapping_add(100_000_000_000), 0);
}
