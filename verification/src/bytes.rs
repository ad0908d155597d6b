//! Numbers in runs of bytes.

use vstd::prelude::*;

verus! {

/// The number that the bytes write, most significant first.
pub open spec fn be_value(s: Seq<u8>) -> nat
    decreases s.len(),
{
    if s.len() == 0 {
        0
    } else {
        be_value(s.drop_last()) * 256 + s.last() as nat
    }
}

/// The number that the bytes write, least significant first.
pub open spec fn le_value(s: Seq<u8>) -> nat
    decreases s.len(),
{
    if s.len() == 0 {
        0
    } else {
        s[0] as nat + le_value(s.skip(1)) * 256
    }
}

/// The number that the bytes write in the given byte order.
pub open spec fn value_in(s: Seq<u8>, little: bool) -> nat {
    if little {
        le_value(s)
    } else {
        be_value(s)
    }
}

/// `n` bytes from `at` on.
pub open spec fn part(s: Seq<u8>, at: int, n: int) -> Seq<u8> {
    s.subrange(at, at + n)
}

pub proof fn lemma_be2(s: Seq<u8>)
    requires
        s.len() == 2,
    ensures
        be_value(s) == s[0] * 256 + s[1],
{
    reveal_with_fuel(be_value, 3);
    assert(s.drop_last()[0] == s[0]);
}

pub proof fn lemma_be4(s: Seq<u8>)
    requires
        s.len() == 4,
    ensures
        be_value(s) == s[0] * 0x100_0000 + s[1] * 0x1_0000 + s[2] * 0x100 + s[3],
{
    let t = s.drop_last();
    lemma_be2(t.drop_last());
    assert(be_value(s) == be_value(t) * 256 + s[3]);
    assert(be_value(t) == be_value(t.drop_last()) * 256 + s[2]);
    assert(t.drop_last()[0] == s[0] && t.drop_last()[1] == s[1]);
}

pub proof fn lemma_le2(s: Seq<u8>)
    requires
        s.len() == 2,
    ensures
        le_value(s) == s[0] + s[1] * 256,
{
    reveal_with_fuel(le_value, 3);
    assert(s.skip(1)[0] == s[1]);
}

pub proof fn lemma_le4(s: Seq<u8>)
    requires
        s.len() == 4,
    ensures
        le_value(s) == s[0] + s[1] * 0x100 + s[2] * 0x1_0000 + s[3] * 0x100_0000,
{
    let t = s.skip(1);
    lemma_le2(t.skip(1));
    assert(le_value(s) == s[0] + le_value(t) * 256);
    assert(le_value(t) == s[1] + le_value(t.skip(1)) * 256);
    assert(t.skip(1)[0] == s[2] && t.skip(1)[1] == s[3]);
}

pub proof fn lemma_be_bound(s: Seq<u8>)
    requires
        s.len() <= 16,
    ensures
        be_value(s) < vstd::arithmetic::power2::pow2(8 * s.len()),
    decreases s.len(),
{
    if s.len() == 0 {
        vstd::arithmetic::power2::lemma2_to64();
    } else {
        lemma_be_bound(s.drop_last());
        vstd::arithmetic::power2::lemma_pow2_adds(8, (8 * (s.len() - 1)) as nat);
        vstd::arithmetic::power2::lemma2_to64();
    }
}

/// The big-endian number in two bytes from `at` on; `None` where they are not there.
pub fn be16(b: &[u8], at: usize) -> (r: Option<u16>)
    ensures
        match r {
            Some(n) => at + 2 <= b@.len() && n == be_value(part(b@, at as int, 2)),
            None => at + 2 > b@.len(),
        },
{
    if b.len() < 2 || at > b.len() - 2 {
        return None;
    }
    proof {
        lemma_be2(part(b@, at as int, 2));
    }
    Some(b[at] as u16 * 256 + b[at + 1] as u16)
}

/// The big-endian number in four bytes from `at` on; `None` where they are not there.
pub fn be32(b: &[u8], at: usize) -> (r: Option<u32>)
    ensures
        match r {
            Some(n) => at + 4 <= b@.len() && n == be_value(part(b@, at as int, 4)),
            None => at + 4 > b@.len(),
        },
{
    if b.len() < 4 || at > b.len() - 4 {
        return None;
    }
    proof {
        lemma_be4(part(b@, at as int, 4));
    }
    Some(
        b[at] as u32 * 0x100_0000 + b[at + 1] as u32 * 0x1_0000 + b[at + 2] as u32 * 0x100
            + b[at + 3] as u32,
    )
}

/// The big-endian number in sixteen bytes from `at` on.
pub fn be128(b: &[u8], at: usize) -> (n: u128)
    requires
        at + 16 <= b@.len(),
    ensures
        n == be_value(part(b@, at as int, 16)),
{
    let end: usize = b.len();
    let mut n: u128 = 0;
    let mut i: usize = 0;
    let ghost s = part(b@, at as int, 16);
    assert(s.take(0) =~= Seq::empty());
    while i < 16
        invariant
            end == b@.len(),
            at + 16 <= end,
            s == part(b@, at as int, 16),
            i <= 16,
            n == be_value(s.take(i as int)),
        decreases 16 - i,
    {
        proof {
            let t = s.take(i + 1);
            assert(t.drop_last() =~= s.take(i as int));
            lemma_be_bound(t);
            if i < 15 {
                vstd::arithmetic::power2::lemma_pow2_strictly_increases((8 * (i + 1)) as nat, 128);
            }
            assert(vstd::arithmetic::power2::pow2(128) == 0x1_0000_0000_0000_0000_0000_0000_0000_0000)
                by {
                vstd::arithmetic::power2::lemma2_to64();
                vstd::arithmetic::power2::lemma_pow2_adds(64, 64);
            }
        }
        n = n * 256 + b[at + i] as u128;
        i = i + 1;
    }
    assert(s.take(16) =~= s);
    n
}

/// The number in two bytes from `at` on.
pub fn read_u16(b: &[u8], at: usize, little: bool) -> (n: u16)
    requires
        at + 2 <= b@.len(),
    ensures
        n == value_in(part(b@, at as int, 2), little),
{
    proof {
        lemma_le2(part(b@, at as int, 2));
        lemma_be2(part(b@, at as int, 2));
    }
    if little {
        b[at] as u16 + b[at + 1] as u16 * 256
    } else {
        b[at] as u16 * 256 + b[at + 1] as u16
    }
}

/// The number in four bytes from `at` on.
pub fn read_u32(b: &[u8], at: usize, little: bool) -> (n: u32)
    requires
        at + 4 <= b@.len(),
    ensures
        n == value_in(part(b@, at as int, 4), little),
{
    proof {
        lemma_le4(part(b@, at as int, 4));
        lemma_be4(part(b@, at as int, 4));
    }
    if little {
        b[at] as u32 + b[at + 1] as u32 * 0x100 + b[at + 2] as u32 * 0x1_0000 + b[at + 3] as u32
            * 0x100_0000
    } else {
        b[at] as u32 * 0x100_0000 + b[at + 1] as u32 * 0x1_0000 + b[at + 2] as u32 * 0x100 + b[at
            + 3] as u32
    }
}

proof fn lemma_split8(s: Seq<u8>)
    requires
        s.len() == 8,
    ensures
        le_value(s) == le_value(s.take(4)) + le_value(s.skip(4)) * 0x1_0000_0000,
        be_value(s) == be_value(s.take(4)) * 0x1_0000_0000 + be_value(s.skip(4)),
{
    lemma_le4(s.take(4));
    lemma_be4(s.skip(4));
    let a = s.drop_last();
    let b = a.drop_last();
    let c = b.drop_last();
    assert(c.drop_last() =~= s.take(4));
    assert(be_value(s) == be_value(a) * 256 + s[7]);
    assert(be_value(a) == be_value(b) * 256 + s[6]);
    assert(be_value(b) == be_value(c) * 256 + s[5]);
    assert(be_value(c) == be_value(s.take(4)) * 256 + s[4]);
    let p = s.skip(1);
    let q = p.skip(1);
    let r = q.skip(1);
    assert(r.skip(1) =~= s.skip(4));
    assert(le_value(s) == s[0] + le_value(p) * 256);
    assert(le_value(p) == s[1] + le_value(q) * 256);
    assert(le_value(q) == s[2] + le_value(r) * 256);
    assert(le_value(r) == s[3] + le_value(s.skip(4)) * 256);
}

/// The number in eight bytes from `at` on.
pub fn read_u64(b: &[u8], at: usize, little: bool) -> (n: u64)
    requires
        at + 8 <= b@.len(),
    ensures
        n == value_in(part(b@, at as int, 8), little),
{
    let end: usize = b.len();
    assert(at + 8 <= end);
    let first: u32 = read_u32(b, at, little);
    let second: u32 = read_u32(b, at + 4, little);
    proof {
        let s = part(b@, at as int, 8);
        lemma_split8(s);
        assert(s.take(4) =~= part(b@, at as int, 4));
        assert(s.skip(4) =~= part(b@, at + 4, 4));
    }
    if little {
        first as u64 + second as u64 * 0x1_0000_0000
    } else {
        first as u64 * 0x1_0000_0000 + second as u64
    }
}

} // verus!
