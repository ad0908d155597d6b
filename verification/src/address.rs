//! IP addresses: their text form, read and written, and network prefixes.

use vstd::prelude::*;
use vstd::slice::slice_subrange;

use crate::text;

verus! {

// ---------------------------------------------------------------------------
// Specifications
// ---------------------------------------------------------------------------

/// The address with the given four octets, as a number.
pub open spec fn octets_value(a: int, b: int, c: int, d: int) -> int {
    ((a * 256 + b) * 256 + c) * 256 + d
}

/// The dotted text of an IPv4 address.
pub open spec fn ipv4_text(n: u32) -> Seq<char> {
    text::dec_text((n / 0x100_0000) as nat) + "."@ + text::dec_text((n / 0x1_0000 % 0x100) as nat)
        + "."@ + text::dec_text((n / 0x100 % 0x100) as nat) + "."@ + text::dec_text(
        (n % 0x100) as nat,
    )
}

/// `n` without its `k` low groups of sixteen bits.
pub open spec fn without_groups(n: nat, k: nat) -> nat
    decreases k,
{
    if k == 0 {
        n
    } else {
        without_groups(n / 0x1_0000, (k - 1) as nat)
    }
}

/// The eight groups of an IPv6 address, first group first.
pub open spec fn groups_of(n: u128) -> Seq<u16> {
    Seq::new(8, |i: int| (without_groups(n as nat, (7 - i) as nat) % 0x1_0000) as u16)
}

/// The number that a sequence of groups writes.
pub open spec fn groups_value(g: Seq<u16>) -> nat
    decreases g.len(),
{
    if g.len() == 0 {
        0
    } else {
        groups_value(g.drop_last()) * 0x1_0000 + g.last() as nat
    }
}

/// How many zero groups stand in a row from position `i`.
pub open spec fn zeros_at(g: Seq<u16>, i: int) -> int
    decreases g.len() - i,
{
    if 0 <= i < g.len() && g[i] == 0 {
        1 + zeros_at(g, i + 1)
    } else {
        0
    }
}

/// Where the longest run of zeros that starts before `n` starts; the first of equals.
pub open spec fn longest_zeros(g: Seq<u16>, n: int) -> int
    decreases n,
{
    if n <= 1 {
        0
    } else {
        let best = longest_zeros(g, n - 1);
        if zeros_at(g, n - 1) > zeros_at(g, best) {
            n - 1
        } else {
            best
        }
    }
}

/// The groups in hexadecimal, separated by colons.
pub open spec fn hex_groups_text(g: Seq<u16>) -> Seq<char> {
    text::joined(g.map_values(|x: u16| text::hex_text(x as nat)), ":"@)
}

/// The address holds an IPv4 address behind the prefix `::ffff:0:0/96`.
pub open spec fn is_mapped(n: u128) -> bool {
    n / 0x1_0000_0000 == 0xffff
}

/// The text of an IPv6 address: the longest run of two or more zero groups is written
/// as a double colon, and a mapped IPv4 address is written with dots.
pub open spec fn ipv6_text(n: u128) -> Seq<char> {
    if is_mapped(n) {
        "::ffff:"@ + ipv4_text((n % 0x1_0000_0000) as u32)
    } else {
        let g = groups_of(n);
        let s = longest_zeros(g, 8);
        let z = zeros_at(g, s);
        if z > 1 {
            hex_groups_text(g.take(s)) + "::"@ + hex_groups_text(g.skip(s + z))
        } else {
            hex_groups_text(g)
        }
    }
}

/// The octet that `s` writes: one to three digits without a leading zero.
pub open spec fn octet_value(s: Seq<char>) -> Option<int> {
    if 1 <= s.len() <= 3 && text::all_digits(s) && (s.len() == 1 || s[0] != '0')
        && text::dec_value(s) <= 255 {
        Some(text::dec_value(s) as int)
    } else {
        None
    }
}

/// The IPv4 address that `s` writes: four octets separated by dots.
pub open spec fn ipv4_value(s: Seq<char>) -> Option<int> {
    let p = text::split_on(s, '.');
    if p.len() == 4 {
        match (octet_value(p[0]), octet_value(p[1]), octet_value(p[2]), octet_value(p[3])) {
            (Some(a), Some(b), Some(c), Some(d)) => Some(octets_value(a, b, c, d)),
            _ => None,
        }
    } else {
        None
    }
}

/// The value of a hexadecimal digit of either case.
pub open spec fn hex_digit_value(c: char) -> Option<int> {
    if '0' <= c <= '9' {
        Some(c as u32 - 48)
    } else if 'a' <= c <= 'f' {
        Some(c as u32 - 87)
    } else if 'A' <= c <= 'F' {
        Some(c as u32 - 55)
    } else {
        None
    }
}

/// The number that a sequence of hexadecimal digits writes.
pub open spec fn hex_value(s: Seq<char>) -> Option<int>
    decreases s.len(),
{
    if s.len() == 0 {
        Some(0)
    } else {
        match (hex_value(s.drop_last()), hex_digit_value(s.last())) {
            (Some(n), Some(d)) => Some(n * 16 + d),
            _ => None,
        }
    }
}

/// The group that `s` writes: one to four hexadecimal digits.
pub open spec fn group_value(s: Seq<char>) -> Option<int> {
    if 1 <= s.len() <= 4 {
        hex_value(s)
    } else {
        None
    }
}

/// The groups that the pieces write, where every piece writes one.
pub open spec fn piece_groups(p: Seq<Seq<char>>) -> Option<Seq<u16>>
    decreases p.len(),
{
    if p.len() == 0 {
        Some(Seq::empty())
    } else {
        match (piece_groups(p.drop_last()), group_value(p.last())) {
            (Some(g), Some(x)) => Some(g.push(x as u16)),
            _ => None,
        }
    }
}

/// The groups on one side of a double colon. The last piece may be an IPv4 address
/// where `dotted` allows it.
pub open spec fn side_groups(s: Seq<char>, dotted: bool) -> Option<Seq<u16>> {
    if s.len() == 0 {
        Some(Seq::empty())
    } else {
        let p = text::split_on(s, ':');
        match piece_groups(p) {
            Some(g) => Some(g),
            None => match (piece_groups(p.drop_last()), ipv4_value(p.last())) {
                (Some(g), Some(v)) => if dotted {
                    Some(g.push((v / 0x1_0000) as u16).push((v % 0x1_0000) as u16))
                } else {
                    None
                },
                _ => None,
            },
        }
    }
}

/// The position of the first double colon, or the length where there is none.
pub open spec fn double_colon_at(s: Seq<char>) -> int
    decreases s.len(),
{
    if s.len() < 2 {
        s.len() as int
    } else if s[0] == ':' && s[1] == ':' {
        0
    } else {
        1 + double_colon_at(s.skip(1))
    }
}

/// The IPv6 address that `s` writes: eight groups, or fewer around one double colon.
pub open spec fn ipv6_value(s: Seq<char>) -> Option<nat> {
    let i = double_colon_at(s);
    if i < s.len() {
        match (side_groups(s.take(i), false), side_groups(s.skip(i + 2), true)) {
            (Some(h), Some(t)) => if h.len() + t.len() <= 7 {
                Some(groups_value(h + Seq::new((8 - h.len() - t.len()) as nat, |k: int| 0u16) + t))
            } else {
                None
            },
            _ => None,
        }
    } else {
        match side_groups(s, true) {
            Some(g) => if g.len() == 8 {
                Some(groups_value(g))
            } else {
                None
            },
            None => None,
        }
    }
}

/// The address that `s` writes.
pub open spec fn ip_value(s: Seq<char>) -> Option<IpAddr> {
    match ipv4_value(s) {
        Some(n) => Some(IpAddr::V4(n as u32)),
        None => match ipv6_value(s) {
            Some(n) => Some(IpAddr::V6(n as u128)),
            None => None,
        },
    }
}

// ---------------------------------------------------------------------------
// Addresses
// ---------------------------------------------------------------------------

/// An IP address, most significant octet first. IPv4 addresses order before IPv6 ones,
/// and each family orders by its number.
#[derive(Clone, Copy, Debug, PartialEq, Eq, Hash, PartialOrd, Ord, Structural)]
pub enum IpAddr {
    V4(u32),
    V6(u128),
}

impl IpAddr {
    /// `self` orders before `other` or is the same address.
    pub open spec fn before_or_same(self, other: IpAddr) -> bool {
        match (self, other) {
            (IpAddr::V4(a), IpAddr::V4(b)) => a <= b,
            (IpAddr::V4(_), IpAddr::V6(_)) => true,
            (IpAddr::V6(_), IpAddr::V4(_)) => false,
            (IpAddr::V6(a), IpAddr::V6(b)) => a <= b,
        }
    }

    /// The text of the address.
    pub open spec fn text(self) -> Seq<char> {
        match self {
            IpAddr::V4(n) => ipv4_text(n),
            IpAddr::V6(n) => ipv6_text(n),
        }
    }

    /// The IPv4 address `a.b.c.d`.
    pub fn v4(a: u8, b: u8, c: u8, d: u8) -> (r: IpAddr)
        ensures
            r == IpAddr::V4(octets_value(a as int, b as int, c as int, d as int) as u32),
    {
        IpAddr::V4(((a as u32 * 256 + b as u32) * 256 + c as u32) * 256 + d as u32)
    }

    /// Whether this address orders before `other` or is the same.
    pub fn le(&self, other: &IpAddr) -> (r: bool)
        ensures
            r == self.before_or_same(*other),
    {
        match (*self, *other) {
            (IpAddr::V4(a), IpAddr::V4(b)) => a <= b,
            (IpAddr::V4(_), IpAddr::V6(_)) => true,
            (IpAddr::V6(_), IpAddr::V4(_)) => false,
            (IpAddr::V6(a), IpAddr::V6(b)) => a <= b,
        }
    }

    /// The text of the address.
    pub fn to_text(&self) -> (s: String)
        ensures
            s@ == self.text(),
    {
        match *self {
            IpAddr::V4(n) => format_ipv4(n),
            IpAddr::V6(n) => format_ipv6(n),
        }
    }

    /// Reads an address; `None` where the text writes none.
    pub fn parse(s: &[char]) -> (r: Option<IpAddr>)
        ensures
            r == ip_value(s@),
    {
        match parse_ipv4(s) {
            Some(n) => Some(IpAddr::V4(n)),
            None => match parse_ipv6(s) {
                Some(n) => Some(IpAddr::V6(n)),
                None => None,
            },
        }
    }
}

// ---------------------------------------------------------------------------
// Writing
// ---------------------------------------------------------------------------

fn format_ipv4(n: u32) -> (s: String)
    ensures
        s@ == ipv4_text(n),
{
    let mut s = text::decimal((n / 0x100_0000) as u128);
    s.append(".");
    s.append(text::decimal((n / 0x1_0000 % 0x100) as u128).as_str());
    s.append(".");
    s.append(text::decimal((n / 0x100 % 0x100) as u128).as_str());
    s.append(".");
    s.append(text::decimal((n % 0x100) as u128).as_str());
    s
}

proof fn lemma_without_groups_step(n: nat, k: nat)
    ensures
        without_groups(n, k + 1) == without_groups(n, k) / 0x1_0000,
    decreases k,
{
    if k > 0 {
        lemma_without_groups_step(n / 0x1_0000, (k - 1) as nat);
    } else {
        assert(without_groups(n, 1) == without_groups(n / 0x1_0000, 0));
    }
}

fn split_groups(n: u128) -> (g: Vec<u16>)
    ensures
        g@ == groups_of(n),
        g.len() == 8,
{
    let mut g: Vec<u16> = Vec::new();
    let mut rest: u128 = n;
    let mut k: usize = 0;
    let ghost all = groups_of(n);
    while k < 8
        invariant
            k <= 8,
            all == groups_of(n),
            rest == without_groups(n as nat, k as nat),
            g@ == all.skip(8 - k),
        decreases 8 - k,
    {
        let low: u16 = (rest % 0x1_0000) as u16;
        assert(all[7 - k] == low);
        g.insert(0, low);
        assert(g@ =~= all.skip(8 - (k + 1)));
        proof {
            lemma_without_groups_step(n as nat, k as nat);
        }
        rest = rest / 0x1_0000;
        k += 1;
    }
    assert(g@ =~= all);
    g
}

proof fn lemma_zeros_at(g: Seq<u16>, i: int)
    requires
        0 <= i <= g.len(),
    ensures
        0 <= zeros_at(g, i) <= g.len() - i,
    decreases g.len() - i,
{
    if i < g.len() && g[i] == 0 {
        lemma_zeros_at(g, i + 1);
    }
}

fn count_zeros(g: &[u16], i: usize) -> (z: usize)
    requires
        i <= g.len(),
    ensures
        z == zeros_at(g@, i as int),
        z <= g.len() - i,
    decreases g.len() - i,
{
    if i < g.len() && g[i] == 0 {
        1 + count_zeros(g, i + 1)
    } else {
        0
    }
}

fn format_groups(g: &[u16]) -> (s: String)
    ensures
        s@ == hex_groups_text(g@),
{
    let mut items: Vec<String> = Vec::new();
    let mut i: usize = 0;
    while i < g.len()
        invariant
            i <= g.len(),
            items.len() == i,
            forall|j: int| 0 <= j < i ==> (#[trigger] items@[j])@ == text::hex_text(g@[j] as nat),
        decreases g.len() - i,
    {
        items.push(text::hexadecimal(g[i] as u32));
        i += 1;
    }
    assert(text::string_texts(items@) =~= g@.map_values(|x: u16| text::hex_text(x as nat)));
    text::join(&items, ":")
}

fn format_ipv6(n: u128) -> (s: String)
    ensures
        s@ == ipv6_text(n),
{
    if n / 0x1_0000_0000 == 0xffff {
        let mut s = "::ffff:".to_owned();
        s.append(format_ipv4((n % 0x1_0000_0000) as u32).as_str());
        return s;
    }
    let g = split_groups(n);
    let mut best: usize = 0;
    let mut i: usize = 1;
    while i < 8
        invariant
            1 <= i <= 8,
            g.len() == 8,
            best < i,
            best == longest_zeros(g@, i as int),
        decreases 8 - i,
    {
        if count_zeros(g.as_slice(), i) > count_zeros(g.as_slice(), best) {
            best = i;
        }
        i += 1;
    }
    let z: usize = count_zeros(g.as_slice(), best);
    if z > 1 {
        let head = slice_subrange(g.as_slice(), 0, best);
        let tail = slice_subrange(g.as_slice(), best + z, 8);
        assert(head@ == g@.take(best as int));
        assert(tail@ == g@.skip(best + z));
        let mut s = format_groups(head);
        s.append("::");
        s.append(format_groups(tail).as_str());
        s
    } else {
        format_groups(g.as_slice())
    }
}

// ---------------------------------------------------------------------------
// Reading
// ---------------------------------------------------------------------------

fn parse_octet(s: &[char]) -> (r: Option<u8>)
    ensures
        match r {
            Some(n) => octet_value(s@) == Some(n as int),
            None => octet_value(s@) is None,
        },
{
    if s.len() == 0 || s.len() > 3 {
        return None;
    }
    if s[0] == '+' {
        assert(!text::all_digits(s@)) by {
            assert(!('0' <= s@[0] <= '9'));
        }
        return None;
    }
    if s.len() > 1 && s[0] == '0' {
        return None;
    }
    assert(text::without_plus(s@) == s@);
    match text::parse_unsigned(s, 255) {
        Some(n) => Some(n as u8),
        None => None,
    }
}

fn parse_ipv4(s: &[char]) -> (r: Option<u32>)
    ensures
        match r {
            Some(n) => ipv4_value(s@) == Some(n as int),
            None => ipv4_value(s@) is None,
        },
{
    let p = text::split(s, '.');
    let ghost q = text::split_on(s@, '.');
    assert(text::texts(p@).len() == p.len());
    if p.len() != 4 {
        return None;
    }
    assert(q[0] == p@[0]@ && q[1] == p@[1]@ && q[2] == p@[2]@ && q[3] == p@[3]@);
    match (parse_octet(p[0]), parse_octet(p[1]), parse_octet(p[2]), parse_octet(p[3])) {
        (Some(a), Some(b), Some(c), Some(d)) => Some(
            ((a as u32 * 256 + b as u32) * 256 + c as u32) * 256 + d as u32,
        ),
        _ => None,
    }
}

fn parse_group(s: &[char]) -> (r: Option<u16>)
    ensures
        match r {
            Some(n) => group_value(s@) == Some(n as int),
            None => group_value(s@) is None,
        },
{
    if s.len() == 0 || s.len() > 4 {
        return None;
    }
    let mut n: u32 = 0;
    let mut i: usize = 0;
    assert(s@.take(0) =~= Seq::empty());
    while i < s.len()
        invariant
            i <= s.len() <= 4,
            hex_value(s@.take(i as int)) == Some(n as int),
            i == 0 ==> n == 0,
            i == 1 ==> n <= 0xf,
            i == 2 ==> n <= 0xff,
            i == 3 ==> n <= 0xfff,
            i == 4 ==> n <= 0xffff,
        decreases s.len() - i,
    {
        let c: char = s[i];
        assert(s@.take(i + 1).drop_last() == s@.take(i as int));
        let d: u32 = if '0' <= c && c <= '9' {
            c as u32 - 48
        } else if 'a' <= c && c <= 'f' {
            c as u32 - 87
        } else if 'A' <= c && c <= 'F' {
            c as u32 - 55
        } else {
            proof {
                assert(hex_value(s@.take(i + 1)) is None);
                lemma_hex_value_none(s@, i + 1);
            }
            return None;
        };
        n = n * 16 + d;
        i += 1;
    }
    assert(s@.take(i as int) == s@);
    Some(n as u16)
}

proof fn lemma_hex_value_none(s: Seq<char>, i: int)
    requires
        0 <= i <= s.len(),
        hex_value(s.take(i)) is None,
    ensures
        hex_value(s) is None,
    decreases s.len() - i,
{
    if i < s.len() {
        assert(s.take(i + 1).drop_last() == s.take(i));
        lemma_hex_value_none(s, i + 1);
    } else {
        assert(s.take(i) == s);
    }
}

proof fn lemma_piece_groups_none(p: Seq<Seq<char>>, i: int)
    requires
        0 <= i <= p.len(),
        piece_groups(p.take(i)) is None,
    ensures
        piece_groups(p) is None,
    decreases p.len() - i,
{
    if i < p.len() {
        assert(p.take(i + 1).drop_last() == p.take(i));
        lemma_piece_groups_none(p, i + 1);
    } else {
        assert(p.take(i) == p);
    }
}

/// Reads the first `end` pieces as groups.
fn parse_pieces(p: &Vec<&[char]>, end: usize) -> (r: Option<Vec<u16>>)
    requires
        end <= p.len(),
    ensures
        match r {
            Some(g) => piece_groups(text::texts(p@).take(end as int)) == Some(g@),
            None => piece_groups(text::texts(p@).take(end as int)) is None,
        },
{
    let mut g: Vec<u16> = Vec::new();
    let mut i: usize = 0;
    let ghost q = text::texts(p@);
    assert(q.take(0) =~= Seq::empty());
    while i < end
        invariant
            i <= end <= p.len(),
            q == text::texts(p@),
            piece_groups(q.take(i as int)) == Some(g@),
        decreases end - i,
    {
        assert(q.take(i + 1).drop_last() == q.take(i as int));
        assert(q.take(i + 1).last() == p@[i as int]@);
        match parse_group(p[i]) {
            Some(x) => {
                g.push(x);
            },
            None => {
                proof {
                    let t = q.take(end as int);
                    assert(t.take(i + 1) == q.take(i + 1));
                    lemma_piece_groups_none(t, i + 1);
                }
                return None;
            },
        }
        i += 1;
    }
    Some(g)
}

fn parse_side(s: &[char], dotted: bool) -> (r: Option<Vec<u16>>)
    ensures
        match r {
            Some(g) => side_groups(s@, dotted) == Some(g@),
            None => side_groups(s@, dotted) is None,
        },
{
    if s.len() == 0 {
        let g: Vec<u16> = Vec::new();
        assert(g@ =~= Seq::empty());
        return Some(g);
    }
    let p = text::split(s, ':');
    let ghost q = text::texts(p@);
    let n: usize = p.len();
    assert(q.take(n as int) == q);
    assert(q.take(n - 1) == q.drop_last());
    assert(q.last() == p@[n - 1]@);
    match parse_pieces(&p, n) {
        Some(g) => {
            return Some(g);
        },
        None => {},
    }
    if !dotted {
        return None;
    }
    match (parse_pieces(&p, n - 1), parse_ipv4(p[n - 1])) {
        (Some(g), Some(v)) => {
            let mut g = g;
            g.push((v / 0x1_0000) as u16);
            g.push((v % 0x1_0000) as u16);
            Some(g)
        },
        _ => None,
    }
}

fn find_double_colon(s: &[char]) -> (r: usize)
    ensures
        r == double_colon_at(s@),
        r < s.len() ==> r + 2 <= s.len(),
        r <= s.len(),
{
    if s.len() < 2 {
        return s.len();
    }
    let mut i: usize = 0;
    assert(s@.skip(0) == s@);
    while i < s.len() - 1
        invariant
            i < s.len(),
            double_colon_at(s@) == i + double_colon_at(s@.skip(i as int)),
        decreases s.len() - i,
    {
        let ghost t = s@.skip(i as int);
        assert(t[0] == s@[i as int] && t[1] == s@[i + 1]);
        if s[i] == ':' && s[i + 1] == ':' {
            return i;
        }
        assert(t.skip(1) == s@.skip(i + 1));
        i += 1;
    }
    s.len()
}

proof fn lemma_groups_value_bound(g: Seq<u16>)
    requires
        g.len() <= 8,
    ensures
        g.len() == 0 ==> groups_value(g) == 0,
        g.len() == 1 ==> groups_value(g) < 0x1_0000,
        g.len() == 2 ==> groups_value(g) < 0x1_0000_0000,
        g.len() == 3 ==> groups_value(g) < 0x1_0000_0000_0000,
        g.len() == 4 ==> groups_value(g) < 0x1_0000_0000_0000_0000,
        g.len() == 5 ==> groups_value(g) < 0x1_0000_0000_0000_0000_0000,
        g.len() == 6 ==> groups_value(g) < 0x1_0000_0000_0000_0000_0000_0000,
        g.len() == 7 ==> groups_value(g) < 0x1_0000_0000_0000_0000_0000_0000_0000,
        groups_value(g) <= u128::MAX,
    decreases g.len(),
{
    if g.len() > 0 {
        lemma_groups_value_bound(g.drop_last());
    }
}

fn value_of_groups(g: &Vec<u16>) -> (n: u128)
    requires
        g.len() <= 8,
    ensures
        n == groups_value(g@),
{
    let mut n: u128 = 0;
    let mut i: usize = 0;
    assert(g@.take(0) =~= Seq::empty());
    while i < g.len()
        invariant
            i <= g.len() <= 8,
            n == groups_value(g@.take(i as int)),
        decreases g.len() - i,
    {
        assert(g@.take(i + 1).drop_last() == g@.take(i as int));
        proof {
            lemma_groups_value_bound(g@.take(i + 1));
        }
        n = n * 0x1_0000 + g[i] as u128;
        i += 1;
    }
    assert(g@.take(i as int) == g@);
    n
}

fn parse_ipv6(s: &[char]) -> (r: Option<u128>)
    ensures
        match r {
            Some(n) => ipv6_value(s@) == Some(n as nat),
            None => ipv6_value(s@) is None,
        },
{
    let i: usize = find_double_colon(s);
    if i < s.len() {
        let head = slice_subrange(s, 0, i);
        let tail = slice_subrange(s, i + 2, s.len());
        assert(head@ == s@.take(i as int));
        assert(tail@ == s@.skip(i + 2));
        match (parse_side(head, false), parse_side(tail, true)) {
            (Some(h), Some(t)) => {
                if h.len() > 7 || t.len() > 7 || h.len() + t.len() > 7 {
                    return None;
                }
                let mut all: Vec<u16> = h;
                let ghost h0 = h@;
                let gap: usize = 8 - all.len() - t.len();
                let mut k: usize = 0;
                while k < gap
                    invariant
                        k <= gap,
                        all@ == h0 + Seq::new(k as nat, |j: int| 0u16),
                    decreases gap - k,
                {
                    all.push(0);
                    assert(all@ =~= h0 + Seq::new((k + 1) as nat, |j: int| 0u16));
                    k += 1;
                }
                let mut t = t;
                let ghost t0 = t@;
                all.append(&mut t);
                assert(all@ =~= h0 + Seq::new(gap as nat, |j: int| 0u16) + t0);
                Some(value_of_groups(&all))
            },
            _ => None,
        }
    } else {
        match parse_side(s, true) {
            Some(g) => if g.len() == 8 {
                Some(value_of_groups(&g))
            } else {
                None
            },
            None => None,
        }
    }
}

// ---------------------------------------------------------------------------
// Round trip
// ---------------------------------------------------------------------------

proof fn lemma_octet_text(n: nat)
    requires
        n < 256,
    ensures
        octet_value(text::dec_text(n)) == Some(n as int),
        !text::dec_text(n).contains('.'),
{
    let s = text::dec_text(n);
    text::lemma_dec_text_value(n);
    reveal_with_fuel(text::dec_text, 3);
    if s.contains('.') {
        let i = choose|i: int| 0 <= i < s.len() && s[i] == '.';
        assert('0' <= s[i] <= '9');
    }
}

proof fn lemma_four_pieces(a: Seq<char>, b: Seq<char>, c: Seq<char>, d: Seq<char>)
    requires
        !a.contains('.'),
        !b.contains('.'),
        !c.contains('.'),
        !d.contains('.'),
    ensures
        text::split_on(a + "."@ + b + "."@ + c + "."@ + d, '.') == seq![a, b, c, d],
{
    reveal_strlit(".");
    assert("."@ =~= seq!['.']);
    let dot = seq!['.'];
    let cd = c + dot + d;
    let bcd = b + dot + cd;
    text::lemma_split_whole(d, '.');
    text::lemma_split_step(c, '.', d);
    text::lemma_split_step(b, '.', cd);
    text::lemma_split_step(a, '.', bcd);
    assert(a + "."@ + b + "."@ + c + "."@ + d =~= a + dot + bcd);
    assert(seq![a] + (seq![b] + (seq![c] + seq![d])) =~= seq![a, b, c, d]);
}

/// An IPv4 address reads back from its text.
pub proof fn law_ipv4_text_reads_back(n: u32)
    ensures
        ip_value(IpAddr::V4(n).text()) == Some(IpAddr::V4(n)),
{
    let a = (n / 0x100_0000) as nat;
    let b = (n / 0x1_0000 % 0x100) as nat;
    let c = (n / 0x100 % 0x100) as nat;
    let d = (n % 0x100) as nat;
    lemma_octet_text(a);
    lemma_octet_text(b);
    lemma_octet_text(c);
    lemma_octet_text(d);
    lemma_four_pieces(text::dec_text(a), text::dec_text(b), text::dec_text(c), text::dec_text(d));
    assert(octets_value(a as int, b as int, c as int, d as int) == n);
}

// ---------------------------------------------------------------------------
// Network prefixes
// ---------------------------------------------------------------------------

/// `ip` lies in the network: same family, and the first `prefix` bits agree. A prefix
/// longer than the address matches nothing.
pub open spec fn in_network(net: IpAddr, prefix: u32, ip: IpAddr) -> bool {
    match (net, ip) {
        (IpAddr::V4(n), IpAddr::V4(a)) => prefix <= 32 && (prefix == 0 || n >> ((32 - prefix) as u32)
            == a >> ((32 - prefix) as u32)),
        (IpAddr::V6(n), IpAddr::V6(a)) => prefix <= 128 && (prefix == 0 || n >> ((128
            - prefix) as u32) == a >> ((128 - prefix) as u32)),
        _ => false,
    }
}

/// Whether `ip` lies in the network `net/prefix`.
pub fn cidr_contains(net: IpAddr, prefix: u32, ip: IpAddr) -> (r: bool)
    ensures
        r == in_network(net, prefix, ip),
{
    match (net, ip) {
        (IpAddr::V4(n), IpAddr::V4(a)) => {
            if prefix > 32 {
                return false;
            }
            if prefix == 0 {
                return true;
            }
            let k: u32 = 32 - prefix;
            n >> k == a >> k
        },
        (IpAddr::V6(n), IpAddr::V6(a)) => {
            if prefix > 128 {
                return false;
            }
            if prefix == 0 {
                return true;
            }
            let k: u32 = 128 - prefix;
            n >> k == a >> k
        },
        _ => false,
    }
}

} // verus!
