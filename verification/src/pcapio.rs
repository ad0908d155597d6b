//! Streaming reader for the classic pcap format (magic `a1b2c3d4`), shared by the
//! file-replay backend and the live `tcpdump`/`tshark` backend (both are the same byte
//! stream: one from a file, one from a child process stdout).
//!
//! The reader does no input itself. Its caller keeps the bytes that have arrived and are
//! not used up, and hands them over with whether the stream has ended.

use vstd::prelude::*;
use vstd::slice::slice_subrange;

use crate::bytes;
use crate::error::{Error, Failure};
use crate::parse;
use crate::text;
use crate::types::PacketMeta;
use crate::window::NS_PER_SEC;

verus! {

/// Microsecond timestamps, little-endian on disk.
pub const MAGIC_US_LE: u32 = 0xa1b2_c3d4;

/// Microsecond timestamps, big-endian on disk.
pub const MAGIC_US_BE: u32 = 0xd4c3_b2a1;

/// Nanosecond timestamps, little-endian on disk.
pub const MAGIC_NS_LE: u32 = 0xa1b2_3c4d;

/// Nanosecond timestamps, big-endian on disk.
pub const MAGIC_NS_BE: u32 = 0x4d3c_b2a1;

/// The longest record taken for real.
pub const MAX_RECORD: u32 = 262_144;

/// The bytes of a stream's global header.
pub const GLOBAL_HEADER: usize = 24;

/// The bytes of a record's header.
pub const RECORD_HEADER: usize = 16;

/// The number in four bytes from `at` on, in the given byte order.
pub open spec fn word(s: Seq<u8>, at: int, little: bool) -> u32 {
    bytes::value_in(bytes::part(s, at, 4), little) as u32
}

/// The byte order and the resolution of timestamps that a magic number stands for.
pub open spec fn magic_meaning(magic: u32) -> Option<(bool, bool)> {
    if magic == MAGIC_US_LE {
        Some((true, false))
    } else if magic == MAGIC_US_BE {
        Some((false, false))
    } else if magic == MAGIC_NS_LE {
        Some((true, true))
    } else if magic == MAGIC_NS_BE {
        Some((false, true))
    } else {
        None
    }
}

/// A pcap stream whose global header has been read.
#[derive(Clone, Copy, Debug, PartialEq, Eq, Structural)]
pub struct PcapStream {
    /// Numbers are little-endian.
    pub little: bool,
    /// Timestamps have nanosecond resolution.
    pub nanos: bool,
    /// The link-layer type of every frame.
    pub linktype: u32,
    /// The capture interface that packets are attributed to.
    pub iface: u32,
}

/// What a stream's bytes hold next.
#[derive(Clone, Copy, Debug)]
pub enum Step {
    /// A packet, and how many bytes are used up with it.
    Packet(PacketMeta, usize),
    /// Nothing: the stream ended cleanly between records.
    End,
    /// The start of a record whose rest has not arrived, after this many bytes that are
    /// used up.
    More(usize),
}

/// What a stream's bytes hold next, or how the stream is broken.
pub ghost enum Scan {
    Packet(PacketMeta, int),
    End,
    More(int),
    Broken(Failure),
}

/// The scan that a reader's answer stands for.
pub open spec fn scan_of(r: Result<Step, Error>) -> Scan {
    match r {
        Ok(Step::Packet(p, n)) => Scan::Packet(p, n as int),
        Ok(Step::End) => Scan::End,
        Ok(Step::More(n)) => Scan::More(n as int),
        Err(e) => Scan::Broken(e@),
    }
}

/// The bytes of a read that the stream may not have in full.
enum Chunk<'a> {
    Full(&'a [u8]),
    End,
    More,
}

impl PcapStream {
    /// The stream that a global header opens, or what is wrong with the header.
    pub open spec fn opened(hdr: Seq<u8>, iface: u32) -> Result<PcapStream, Failure> {
        let magic = word(hdr, 0, true);
        if hdr.len() < GLOBAL_HEADER {
            Err(Failure::Parse("unexpected end of pcap stream"@))
        } else {
            match magic_meaning(magic) {
                Some((little, nanos)) => Ok(
                    PcapStream { little, nanos, linktype: word(hdr, 20, little), iface },
                ),
                None => Err(
                    Failure::Parse(
                        "not a pcap stream (magic 0x"@ + text::hex_padded(magic as nat, 8) + ")"@,
                    ),
                ),
            }
        }
    }

    /// The time of the record at `at`, in nanoseconds.
    pub open spec fn record_time(self, s: Seq<u8>, at: int) -> u64 {
        let frac = word(s, at + 4, self.little);
        (word(s, at, self.little) * NS_PER_SEC + (if self.nanos {
            frac as int
        } else {
            frac * 1_000
        })) as u64
    }

    /// The length of the frame in the record at `at`.
    pub open spec fn record_len(self, s: Seq<u8>, at: int) -> u32 {
        word(s, at + 8, self.little)
    }

    /// The position after the record at `at`.
    pub open spec fn record_end(self, s: Seq<u8>, at: int) -> int {
        at + RECORD_HEADER + self.record_len(s, at)
    }

    /// The packet in the record at `at`.
    pub open spec fn record_packet(self, s: Seq<u8>, at: int) -> Option<PacketMeta> {
        parse::frame_packet(
            self.linktype,
            bytes::part(s, at + RECORD_HEADER, self.record_len(s, at) as int),
            self.record_time(s, at),
            self.iface,
        )
    }

    /// The next packet from `at` on. Frames we do not care about (non-IP, truncated L4)
    /// are skipped.
    pub open spec fn scan(self, s: Seq<u8>, at: int, ended: bool) -> Scan
        decreases s.len() - at,
    {
        if at < 0 {
            Scan::End
        } else if s.len() - at < RECORD_HEADER {
            if !ended {
                Scan::More(at)
            } else if s.len() <= at {
                Scan::End
            } else {
                Scan::Broken(Failure::Parse("truncated pcap record header"@))
            }
        } else if self.record_len(s, at) > MAX_RECORD {
            Scan::Broken(
                Failure::Parse(
                    "implausible record length "@ + text::dec_text(self.record_len(s, at) as nat),
                ),
            )
        } else if self.record_end(s, at) > s.len() {
            if ended {
                Scan::Broken(Failure::Parse("unexpected end of pcap stream"@))
            } else {
                Scan::More(at)
            }
        } else {
            match self.record_packet(s, at) {
                Some(p) => Scan::Packet(p, self.record_end(s, at)),
                None => self.scan(s, self.record_end(s, at), ended),
            }
        }
    }

    /// Read and validate the 24-byte global header.
    pub fn new(hdr: &[u8], iface: u32) -> (r: Result<PcapStream, Error>)
        ensures
            match r {
                Ok(stream) => PcapStream::opened(hdr@, iface) == Ok::<PcapStream, Failure>(stream),
                Err(e) => PcapStream::opened(hdr@, iface) == Err::<PcapStream, Failure>(e@),
            },
    {
        if hdr.len() < GLOBAL_HEADER {
            return Err(Error::Parse("unexpected end of pcap stream".to_owned()));
        }
        let magic: u32 = bytes::read_u32(hdr, 0, true);
        let (little, nanos) = if magic == MAGIC_US_LE {
            (true, false)
        } else if magic == MAGIC_US_BE {
            (false, false)
        } else if magic == MAGIC_NS_LE {
            (true, true)
        } else if magic == MAGIC_NS_BE {
            (false, true)
        } else {
            let mut s = "not a pcap stream (magic 0x".to_owned();
            s.append(text::padded_hexadecimal(magic, 8).as_str());
            s.append(")");
            return Err(Error::Parse(s));
        };
        let linktype: u32 = bytes::read_u32(hdr, 20, little);
        Ok(PcapStream { little, nanos, linktype, iface })
    }

    pub fn linktype(&self) -> (r: u32)
        ensures
            r == self.linktype,
    {
        self.linktype
    }

    /// Return the next parsed packet, `End` at clean end-of-stream, or an error on a
    /// structurally broken record; `More` where the bytes so far do not tell. Frames we do
    /// not care about (non-IP, truncated L4) are skipped internally.
    pub fn next_packet(&self, data: &[u8], ended: bool) -> (r: Result<Step, Error>)
        ensures
            scan_of(r) == self.scan(data@, 0, ended),
    {
        let len: usize = data.len();
        let mut at: usize = 0;
        loop
            invariant
                len == data@.len(),
                at <= len,
                self.scan(data@, 0, ended) == self.scan(data@, at as int, ended),
            decreases data@.len() - at,
        {
            let rec = match read_full_opt(data, at, RECORD_HEADER, ended) {
                Ok(Chunk::Full(b)) => b,
                Ok(Chunk::End) => {
                    return Ok(Step::End);
                },
                Ok(Chunk::More) => {
                    return Ok(Step::More(at));
                },
                Err(e) => {
                    return Err(e);
                },
            };
            let ts_sec: u32 = bytes::read_u32(rec, 0, self.little);
            let ts_frac: u32 = bytes::read_u32(rec, 4, self.little);
            let incl_len: u32 = bytes::read_u32(rec, 8, self.little);
            proof {
                assert(bytes::part(rec@, 0, 4) =~= bytes::part(data@, at as int, 4));
                assert(bytes::part(rec@, 4, 4) =~= bytes::part(data@, at + 4, 4));
                assert(bytes::part(rec@, 8, 4) =~= bytes::part(data@, at + 8, 4));
            }
            if incl_len > MAX_RECORD {
                let mut s = "implausible record length ".to_owned();
                s.append(text::decimal(incl_len as u128).as_str());
                return Err(Error::Parse(s));
            }
            let buf = match read_full(data, at + RECORD_HEADER, incl_len as usize, ended) {
                Ok(Chunk::Full(b)) => b,
                Ok(Chunk::End) | Ok(Chunk::More) => {
                    return Ok(Step::More(at));
                },
                Err(e) => {
                    return Err(e);
                },
            };
            let ts_nanos: u64 = ts_sec as u64 * NS_PER_SEC + (if self.nanos {
                ts_frac as u64
            } else {
                ts_frac as u64 * 1_000
            });
            let end: usize = at + RECORD_HEADER + incl_len as usize;
            if let Some(pkt) = parse::parse_frame(self.linktype, buf, ts_nanos, self.iface) {
                return Ok(Step::Packet(pkt, end));
            }
            // else: uninteresting frame, keep reading.
            at = end;
        }
    }
}

/// Exactly `n` bytes from `at` on, or an error where the stream ends before them.
fn read_full<'a>(data: &'a [u8], at: usize, n: usize, ended: bool) -> (r: Result<Chunk<'a>, Error>)
    requires
        at <= data@.len(),
    ensures
        match r {
            Ok(Chunk::Full(b)) => at + n <= data@.len() && b@ == bytes::part(
                data@,
                at as int,
                n as int,
            ),
            Ok(Chunk::End) => false,
            Ok(Chunk::More) => at + n > data@.len() && !ended,
            Err(e) => at + n > data@.len() && ended && e@ == Failure::Parse(
                "unexpected end of pcap stream"@,
            ),
        },
{
    if n <= data.len() - at {
        Ok(Chunk::Full(slice_subrange(data, at, at + n)))
    } else if ended {
        Err(Error::Parse("unexpected end of pcap stream".to_owned()))
    } else {
        Ok(Chunk::More)
    }
}

/// Like `read_full`, but a clean end *before any byte* is `End`.
fn read_full_opt<'a>(data: &'a [u8], at: usize, n: usize, ended: bool) -> (r: Result<
    Chunk<'a>,
    Error,
>)
    requires
        at <= data@.len(),
        n > 0,
    ensures
        match r {
            Ok(Chunk::Full(b)) => at + n <= data@.len() && b@ == bytes::part(
                data@,
                at as int,
                n as int,
            ),
            Ok(Chunk::End) => at == data@.len() && ended,
            Ok(Chunk::More) => at + n > data@.len() && !ended,
            Err(e) => at + n > data@.len() && at < data@.len() && ended && e@ == Failure::Parse(
                "truncated pcap record header"@,
            ),
        },
{
    if n <= data.len() - at {
        Ok(Chunk::Full(slice_subrange(data, at, at + n)))
    } else if !ended {
        Ok(Chunk::More)
    } else if data.len() == at {
        Ok(Chunk::End)
    } else {
        Err(Error::Parse("truncated pcap record header".to_owned()))
    }
}

/// A frame that is no packet of ours is skipped, never fatal: reading goes on with the
/// next record.
pub proof fn law_uninteresting_frames_are_skipped(
    stream: PcapStream,
    s: Seq<u8>,
    at: int,
    ended: bool,
)
    requires
        0 <= at,
        stream.record_end(s, at) <= s.len(),
        stream.record_len(s, at) <= MAX_RECORD,
        stream.record_packet(s, at) is None,
    ensures
        stream.scan(s, at, ended) == stream.scan(s, stream.record_end(s, at), ended),
{
}

proof fn lemma_record_in_prefix(stream: PcapStream, s: Seq<u8>, rest: Seq<u8>, at: int)
    requires
        0 <= at,
        at + RECORD_HEADER <= s.len(),
    ensures
        stream.record_len(s + rest, at) == stream.record_len(s, at),
        stream.record_time(s + rest, at) == stream.record_time(s, at),
        stream.record_end(s, at) <= s.len() ==> stream.record_packet(s + rest, at)
            == stream.record_packet(s, at),
{
    let t = s + rest;
    assert(bytes::part(t, at, 4) =~= bytes::part(s, at, 4));
    assert(bytes::part(t, at + 4, 4) =~= bytes::part(s, at + 4, 4));
    assert(bytes::part(t, at + 8, 4) =~= bytes::part(s, at + 8, 4));
    if stream.record_end(s, at) <= s.len() {
        let n = stream.record_len(s, at) as int;
        assert(bytes::part(t, at + RECORD_HEADER, n) =~= bytes::part(s, at + RECORD_HEADER, n));
    }
}

/// A stream that arrives in pieces reads as it does whole: what the first bytes tell
/// stands whatever follows, and where they do not tell, reading goes on from where it
/// stopped.
pub proof fn law_pieces_read_as_the_whole(
    stream: PcapStream,
    s: Seq<u8>,
    rest: Seq<u8>,
    at: int,
    ended: bool,
)
    requires
        0 <= at,
    ensures
        match stream.scan(s, at, false) {
            Scan::Packet(p, n) => stream.scan(s + rest, at, ended) == Scan::Packet(p, n),
            Scan::Broken(f) => stream.scan(s + rest, at, ended) == Scan::Broken(f),
            Scan::More(n) => stream.scan(s + rest, at, ended) == stream.scan(s + rest, n, ended),
            Scan::End => false,
        },
    decreases s.len() - at,
{
    if s.len() - at >= RECORD_HEADER {
        lemma_record_in_prefix(stream, s, rest, at);
        if stream.record_len(s, at) <= MAX_RECORD && stream.record_end(s, at) <= s.len()
            && stream.record_packet(s, at) is None {
            law_pieces_read_as_the_whole(stream, s, rest, stream.record_end(s, at), ended);
        }
    }
}

proof fn lemma_record_past_start(stream: PcapStream, s: Seq<u8>, n: int, at: int)
    requires
        0 <= n <= s.len(),
        0 <= at,
        at + RECORD_HEADER <= s.len() - n,
    ensures
        stream.record_len(s.skip(n), at) == stream.record_len(s, n + at),
        stream.record_time(s.skip(n), at) == stream.record_time(s, n + at),
        stream.record_end(s, n + at) <= s.len() ==> stream.record_packet(s.skip(n), at)
            == stream.record_packet(s, n + at),
{
    let t = s.skip(n);
    assert(bytes::part(t, at, 4) =~= bytes::part(s, n + at, 4));
    assert(bytes::part(t, at + 4, 4) =~= bytes::part(s, n + at + 4, 4));
    assert(bytes::part(t, at + 8, 4) =~= bytes::part(s, n + at + 8, 4));
    if stream.record_end(s, n + at) <= s.len() {
        let l = stream.record_len(t, at) as int;
        assert(bytes::part(t, at + RECORD_HEADER, l) =~= bytes::part(s, n + at + RECORD_HEADER, l));
    }
}

/// Bytes that are used up can be dropped: reading on from a position is reading what is
/// left from its start.
pub proof fn law_used_bytes_can_be_dropped(
    stream: PcapStream,
    s: Seq<u8>,
    n: int,
    at: int,
    ended: bool,
)
    requires
        0 <= n <= s.len(),
        0 <= at,
    ensures
        match stream.scan(s.skip(n), at, ended) {
            Scan::Packet(p, end) => stream.scan(s, n + at, ended) == Scan::Packet(p, n + end),
            Scan::Broken(f) => stream.scan(s, n + at, ended) == Scan::Broken(f),
            Scan::More(to) => stream.scan(s, n + at, ended) == Scan::More(n + to),
            Scan::End => stream.scan(s, n + at, ended) == Scan::End,
        },
    decreases s.len() - n - at,
{
    let t = s.skip(n);
    if t.len() - at >= RECORD_HEADER {
        lemma_record_past_start(stream, s, n, at);
        if stream.record_len(t, at) <= MAX_RECORD && stream.record_end(t, at) <= t.len()
            && stream.record_packet(t, at) is None {
            law_used_bytes_can_be_dropped(stream, s, n, stream.record_end(t, at), ended);
        }
    }
}

} // verus!
