//! IPv6 addresses read back from their text.

use vstd::prelude::*;

use crate::address;
use crate::address::IpAddr;
use crate::text;

verus! {

// ---------------------------------------------------------------------------
// Digits and pieces
// ---------------------------------------------------------------------------

/// Hexadecimal digits in lower case only.
spec fn all_hex(s: Seq<char>) -> bool {
    forall|i: int| 0 <= i < s.len() ==> ('0' <= #[trigger] s[i] <= '9') || ('a' <= s[i] <= 'f')
}

proof fn lemma_hex_text(n: nat)
    ensures
        all_hex(text::hex_text(n)),
        text::hex_text(n).len() >= 1,
        address::hex_value(text::hex_text(n)) == Some(n as int),
    decreases n,
{
    let s = text::hex_text(n);
    if n < 16 {
        assert(s.drop_last() =~= Seq::empty());
        assert(address::hex_value(s.drop_last()) == Some(0int));
        assert(s.last() == text::digit_char(n));
    } else {
        lemma_hex_text(n / 16);
        let t = text::hex_text(n / 16);
        assert(s.drop_last() =~= t);
        assert(s.last() == text::digit_char(n % 16));
        assert forall|i: int| 0 <= i < s.len() implies ('0' <= #[trigger] s[i] <= '9') || ('a'
            <= s[i] <= 'f') by {
            if i < s.len() - 1 {
                assert(s[i] == t[i]);
            }
        }
    }
}

proof fn lemma_hex_len(n: nat, k: nat)
    requires
        k >= 1,
        n < vstd::arithmetic::power::pow(16, k),
    ensures
        text::hex_text(n).len() <= k,
    decreases k,
{
    if n >= 16 {
        vstd::arithmetic::power::lemma_pow1(16);
        if k == 1 {
            assert(false);
        }
        let j = (k - 1) as nat;
        reveal(vstd::arithmetic::power::pow);
        let p = vstd::arithmetic::power::pow(16, j);
        assert(vstd::arithmetic::power::pow(16, k) == 16 * p);
        assert(n / 16 < p) by (nonlinear_arith)
            requires
                n < 16 * p,
        ;
        lemma_hex_len(n / 16, j);
    }
}

proof fn lemma_group_text(x: u16)
    ensures
        all_hex(text::hex_text(x as nat)),
        1 <= text::hex_text(x as nat).len() <= 4,
        address::group_value(text::hex_text(x as nat)) == Some(x as int),
{
    lemma_hex_text(x as nat);
    assert(vstd::arithmetic::power::pow(16, 4) == 0x1_0000) by {
        reveal_with_fuel(vstd::arithmetic::power::pow, 5);
    }
    lemma_hex_len(x as nat, 4);
}

/// The texts of some groups.
spec fn pieces(g: Seq<u16>) -> Seq<Seq<char>> {
    g.map_values(|x: u16| text::hex_text(x as nat))
}

proof fn lemma_joined_step(ts: Seq<Seq<char>>, sep: Seq<char>)
    requires
        ts.len() > 1,
    ensures
        text::joined(ts, sep) == ts[0] + sep + text::joined(ts.skip(1), sep),
    decreases ts.len(),
{
    let front = ts.drop_last();
    if ts.len() == 2 {
        assert(ts.skip(1)[0] == ts[1]);
        assert(front[0] == ts[0]);
        assert(text::joined(front, sep) == ts[0]);
        assert(text::joined(ts.skip(1), sep) == ts[1]);
    } else {
        lemma_joined_step(front, sep);
        assert(front.skip(1) =~= ts.skip(1).drop_last());
        assert(ts.skip(1).last() == ts.last());
        assert(text::joined(ts, sep) =~= ts[0] + sep + text::joined(ts.skip(1), sep));
    }
}

proof fn lemma_split_joined(ts: Seq<Seq<char>>)
    requires
        ts.len() > 0,
        forall|i: int| 0 <= i < ts.len() ==> !(#[trigger] ts[i]).contains(':'),
    ensures
        text::split_on(text::joined(ts, ":"@), ':') == ts,
    decreases ts.len(),
{
    reveal_strlit(":");
    assert(!ts[0].contains(':'));
    if ts.len() == 1 {
        text::lemma_split_whole(ts[0], ':');
        assert(seq![ts[0]] =~= ts);
    } else {
        let us = ts.skip(1);
        assert forall|i: int| 0 <= i < us.len() implies !(#[trigger] us[i]).contains(':') by {
            assert(us[i] == ts[i + 1]);
            assert(!ts[i + 1].contains(':'));
        }
        lemma_split_joined(us);
        lemma_joined_step(ts, ":"@);
        text::lemma_split_step(ts[0], ':', text::joined(us, ":"@));
        assert(":"@ =~= seq![':']);
        assert(seq![ts[0]] + us =~= ts);
    }
}

proof fn lemma_hex_has_no(s: Seq<char>, c: char)
    requires
        all_hex(s),
        c == ':' || c == '.',
    ensures
        !s.contains(c),
{
    if s.contains(c) {
        let k = choose|k: int| 0 <= k < s.len() && s[k] == c;
        assert(('0' <= s[k] <= '9') || ('a' <= s[k] <= 'f'));
    }
}

proof fn lemma_piece_groups(g: Seq<u16>)
    ensures
        address::piece_groups(pieces(g)) == Some(g),
    decreases g.len(),
{
    if g.len() == 0 {
        assert(pieces(g).len() == 0);
        assert(g =~= Seq::empty());
    } else {
        lemma_piece_groups(g.drop_last());
        assert(pieces(g).drop_last() =~= pieces(g.drop_last()));
        lemma_group_text(g.last());
        assert(g.drop_last().push(g.last()) =~= g);
    }
}

proof fn lemma_side(g: Seq<u16>, dotted: bool)
    ensures
        address::side_groups(address::hex_groups_text(g), dotted) == Some(g),
        g.len() > 0 ==> address::hex_groups_text(g).len() > 0,
{
    let s = address::hex_groups_text(g);
    let ts = pieces(g);
    assert(s == text::joined(ts, ":"@));
    if g.len() == 0 {
        assert(ts.len() == 0);
        assert(g =~= Seq::empty());
    } else {
        assert forall|i: int| 0 <= i < ts.len() implies !(#[trigger] ts[i]).contains(':') by {
            lemma_hex_text(g[i] as nat);
            lemma_hex_has_no(ts[i], ':');
        }
        lemma_split_joined(ts);
        lemma_piece_groups(g);
        lemma_hex_text(g[0] as nat);
        assert(ts[0].len() >= 1);
        if g.len() > 1 {
            lemma_joined_step(ts, ":"@);
        }
    }
}

// ---------------------------------------------------------------------------
// Colons
// ---------------------------------------------------------------------------

/// Colons stand alone and not at the ends, and there are no dots.
spec fn has_single_colons(s: Seq<char>) -> bool {
    forall|i: int|
        0 <= i < s.len() ==> (#[trigger] s[i]) != '.' && (s[i] == ':' ==> 0 < i < s.len() - 1 && s[i
            + 1] != ':')
}

proof fn lemma_single_colons(g: Seq<u16>)
    ensures
        has_single_colons(address::hex_groups_text(g)),
    decreases g.len(),
{
    reveal_strlit(":");
    let ts = pieces(g);
    let s = address::hex_groups_text(g);
    if g.len() == 0 {
        assert(ts.len() == 0);
    } else {
        let last = text::hex_text(g.last() as nat);
        lemma_hex_text(g.last() as nat);
        if g.len() == 1 {
            assert(s == last);
            assert forall|i: int| 0 <= i < s.len() implies (#[trigger] s[i]) != '.' && (s[i] == ':'
                ==> 0 < i < s.len() - 1 && s[i + 1] != ':') by {
                assert(('0' <= last[i] <= '9') || ('a' <= last[i] <= 'f'));
            }
        } else {
            let h = g.drop_last();
            lemma_single_colons(h);
            lemma_side(h, true);
            let t = address::hex_groups_text(h);
            assert(ts.drop_last() =~= pieces(h));
            assert(s == t + ":"@ + last);
            let n = t.len() as int;
            assert forall|i: int| 0 <= i < s.len() implies (#[trigger] s[i]) != '.' && (s[i] == ':'
                ==> 0 < i < s.len() - 1 && s[i + 1] != ':') by {
                if i < n {
                    assert(s[i] == t[i]);
                    if i + 1 < n {
                        assert(s[i + 1] == t[i + 1]);
                    }
                } else if i > n {
                    assert(s[i] == last[i - n - 1]);
                    assert(('0' <= last[i - n - 1] <= '9') || ('a' <= last[i - n - 1] <= 'f'));
                } else {
                    assert(s[n + 1] == last[0]);
                    assert(('0' <= last[0] <= '9') || ('a' <= last[0] <= 'f'));
                }
            }
        }
    }
}

/// Digits, colons and dots only.
pub open spec fn is_address_text(s: Seq<char>) -> bool {
    forall|i: int|
        0 <= i < s.len() ==> ('0' <= #[trigger] s[i] <= '9') || ('a' <= s[i] <= 'f') || s[i] == ':'
            || s[i] == '.'
}

proof fn lemma_address_text_concat(a: Seq<char>, b: Seq<char>)
    requires
        is_address_text(a),
        is_address_text(b),
    ensures
        is_address_text(a + b),
{
    let s = a + b;
    assert forall|i: int| 0 <= i < s.len() implies ('0' <= #[trigger] s[i] <= '9') || ('a' <= s[i]
        <= 'f') || s[i] == ':' || s[i] == '.' by {
        if i < a.len() {
            assert(s[i] == a[i]);
        } else {
            assert(s[i] == b[i - a.len()]);
        }
    }
}

proof fn lemma_groups_text_chars(g: Seq<u16>)
    ensures
        is_address_text(address::hex_groups_text(g)),
    decreases g.len(),
{
    reveal_strlit(":");
    let ts = pieces(g);
    let s = address::hex_groups_text(g);
    if g.len() > 0 {
        let last = text::hex_text(g.last() as nat);
        lemma_hex_text(g.last() as nat);
        assert(is_address_text(last));
        if g.len() == 1 {
            assert(s == last);
        } else {
            let h = g.drop_last();
            lemma_groups_text_chars(h);
            assert(ts.drop_last() =~= pieces(h));
            lemma_address_text_concat(address::hex_groups_text(h), ":"@);
            lemma_address_text_concat(address::hex_groups_text(h) + ":"@, last);
            assert(s == address::hex_groups_text(h) + ":"@ + last);
        }
    } else {
        assert(ts.len() == 0);
    }
}

/// An address's text is not empty and holds nothing but digits, colons and dots.
pub proof fn lemma_ipv6_text_chars(n: u128)
    ensures
        is_address_text(IpAddr::V6(n).text()),
        IpAddr::V6(n).text().len() > 0,
{
    reveal_strlit("::");
    reveal_strlit("::ffff:");
    reveal_strlit(".");
    if address::is_mapped(n) {
        let v = (n % 0x1_0000_0000) as u32;
        let a = text::dec_text((v / 0x100_0000) as nat);
        let b = text::dec_text((v / 0x1_0000 % 0x100) as nat);
        let c = text::dec_text((v / 0x100 % 0x100) as nat);
        let d = text::dec_text((v % 0x100) as nat);
        text::lemma_dec_text_value((v / 0x100_0000) as nat);
        text::lemma_dec_text_value((v / 0x1_0000 % 0x100) as nat);
        text::lemma_dec_text_value((v / 0x100 % 0x100) as nat);
        text::lemma_dec_text_value((v % 0x100) as nat);
        lemma_address_text_concat(a, "."@);
        lemma_address_text_concat(a + "."@, b);
        lemma_address_text_concat(a + "."@ + b, "."@);
        lemma_address_text_concat(a + "."@ + b + "."@, c);
        lemma_address_text_concat(a + "."@ + b + "."@ + c, "."@);
        lemma_address_text_concat(a + "."@ + b + "."@ + c + "."@, d);
        lemma_address_text_concat("::ffff:"@, address::ipv4_text(v));
    } else {
        let g = address::groups_of(n);
        let s = address::longest_zeros(g, 8);
        let z = address::zeros_at(g, s);
        lemma_groups_text_chars(g);
        lemma_groups_text_chars(g.take(s));
        lemma_groups_text_chars(g.skip(s + z));
        lemma_address_text_concat(address::hex_groups_text(g.take(s)), "::"@);
        lemma_address_text_concat(
            address::hex_groups_text(g.take(s)) + "::"@,
            address::hex_groups_text(g.skip(s + z)),
        );
        lemma_side(g, true);
    }
}

proof fn lemma_double_colon_at(s: Seq<char>, i: int)
    requires
        0 <= i <= s.len(),
        forall|j: int| 0 <= j < i && j + 1 < s.len() ==> !(#[trigger] s[j] == ':' && s[j + 1]
            == ':'),
        i < s.len() ==> i + 1 < s.len() && s[i] == ':' && s[i + 1] == ':',
    ensures
        address::double_colon_at(s) == i,
    decreases s.len(),
{
    if s.len() >= 2 && i > 0 {
        let t = s.skip(1);
        assert(!(s[0] == ':' && s[1] == ':'));
        assert forall|j: int| 0 <= j < i - 1 && j + 1 < t.len() implies !(#[trigger] t[j] == ':'
            && t[j
            + 1] == ':') by {
            assert(t[j] == s[j + 1]);
            assert(!(s[j + 1] == ':' && s[j + 2] == ':'));
        }
        lemma_double_colon_at(t, i - 1);
    }
}

// ---------------------------------------------------------------------------
// Groups
// ---------------------------------------------------------------------------

proof fn lemma_without_more(n: nat, k: nat)
    ensures
        address::without_groups(n, k + 1) == address::without_groups(n, k) / 0x1_0000,
    decreases k,
{
    if k > 0 {
        lemma_without_more(n / 0x1_0000, (k - 1) as nat);
    } else {
        assert(address::without_groups(n / 0x1_0000, 0) == n / 0x1_0000);
    }
}

proof fn lemma_groups_prefix(n: u128, k: nat)
    requires
        k <= 8,
    ensures
        address::groups_value(address::groups_of(n).take(k as int)) == address::without_groups(
            n as nat,
            (8 - k) as nat,
        ),
    decreases k,
{
    let g = address::groups_of(n);
    let t = g.take(k as int);
    if k == 0 {
        assert(address::without_groups(n as nat, 8) == 0) by {
            let x = n as nat;
            lemma_without_more(x, 0);
            lemma_without_more(x, 1);
            lemma_without_more(x, 2);
            lemma_without_more(x, 3);
            lemma_without_more(x, 4);
            lemma_without_more(x, 5);
            lemma_without_more(x, 6);
            lemma_without_more(x, 7);
            assert(address::without_groups(x, 0) == x);
        }
    } else {
        let j = (k - 1) as nat;
        lemma_groups_prefix(n, j);
        assert(t.drop_last() =~= g.take(j as int));
        lemma_without_more(n as nat, (8 - k) as nat);
        let w = address::without_groups(n as nat, (8 - k) as nat);
        assert(t.last() == (w % 0x1_0000) as u16);
        assert(w == (w / 0x1_0000) * 0x1_0000 + w % 0x1_0000);
    }
}

proof fn lemma_groups_value(n: u128)
    ensures
        address::groups_value(address::groups_of(n)) == n,
{
    lemma_groups_prefix(n, 8);
    assert(address::groups_of(n).take(8) =~= address::groups_of(n));
    assert(address::without_groups(n as nat, 0) == n);
}

proof fn lemma_zeros(g: Seq<u16>, i: int)
    requires
        0 <= i <= g.len(),
    ensures
        0 <= address::zeros_at(g, i) <= g.len() - i,
        forall|j: int| i <= j < i + address::zeros_at(g, i) ==> g[j] == 0,
    decreases g.len() - i,
{
    if i < g.len() && g[i] == 0 {
        lemma_zeros(g, i + 1);
    }
}

proof fn lemma_longest(g: Seq<u16>, n: int)
    requires
        1 <= n <= g.len(),
    ensures
        0 <= address::longest_zeros(g, n) < n,
    decreases n,
{
    if n > 1 {
        lemma_longest(g, n - 1);
    }
}

proof fn lemma_not_dotted(s: Seq<char>)
    requires
        !s.contains('.'),
    ensures
        address::ipv4_value(s) is None,
{
    text::lemma_split_whole(s, '.');
}

proof fn lemma_plain_ipv6(n: u128)
    requires
        !address::is_mapped(n),
    ensures
        address::ip_value(IpAddr::V6(n).text()) == Some(IpAddr::V6(n)),
{
    let g = address::groups_of(n);
    let s = address::longest_zeros(g, 8);
    lemma_longest(g, 8);
    lemma_zeros(g, s);
    let z = address::zeros_at(g, s);
    lemma_groups_value(n);
    let t = IpAddr::V6(n).text();
    reveal_strlit("::");
    if z > 1 {
        let h = g.take(s);
        let r = g.skip(s + z);
        let a = address::hex_groups_text(h);
        let b = address::hex_groups_text(r);
        lemma_single_colons(h);
        lemma_single_colons(r);
        lemma_side(h, false);
        lemma_side(r, true);
        assert(t == a + "::"@ + b);
        let m = a.len() as int;
        assert forall|j: int| 0 <= j < m && j + 1 < t.len() implies !(#[trigger] t[j] == ':' && t[j
            + 1] == ':') by {
            assert(t[j] == a[j]);
            if j + 1 < m {
                assert(t[j + 1] == a[j + 1]);
            }
        }
        assert(t[m] == ':' && t[m + 1] == ':');
        lemma_double_colon_at(t, m);
        assert(t.take(m) =~= a);
        assert(t.skip(m + 2) =~= b);
        let whole = h + Seq::new((8 - h.len() - r.len()) as nat, |k: int| 0u16) + r;
        assert(whole =~= g);
        if t.contains('.') {
            let k = choose|k: int| 0 <= k < t.len() && t[k] == '.';
            if k < m {
                assert(a[k] == '.');
            } else if k >= m + 2 {
                assert(b[k - m - 2] == '.');
            }
        }
        lemma_not_dotted(t);
    } else {
        lemma_single_colons(g);
        lemma_side(g, true);
        assert(t == address::hex_groups_text(g));
        lemma_double_colon_at(t, t.len() as int);
        if t.contains('.') {
            let k = choose|k: int| 0 <= k < t.len() && t[k] == '.';
            assert(t[k] != '.');
        }
        lemma_not_dotted(t);
    }
}

proof fn lemma_mapped_ipv6(n: u128)
    requires
        address::is_mapped(n),
    ensures
        address::ip_value(IpAddr::V6(n).text()) == Some(IpAddr::V6(n)),
{
    let v = (n % 0x1_0000_0000) as u32;
    let d = IpAddr::V4(v).text();
    let t = IpAddr::V6(n).text();
    reveal_strlit("::ffff:");
    assert(t == "::ffff:"@ + d);
    address::law_ipv4_text_reads_back(v);
    assert(address::ipv4_value(d) == Some(v as int)) by {
        lemma_dotted(v);
    }
    lemma_dotted(v);
    // It is no IPv4 address: the first piece has colons.
    lemma_dotted_front(v);
    assert(address::ipv4_value(t) is None);
    // Its groups.
    lemma_double_colon_at(t, 0);
    assert(t.take(0) =~= Seq::empty());
    let f = seq!['f', 'f', 'f', 'f'];
    let rest = t.skip(2);
    assert(rest =~= f + seq![':'] + d);
    assert(!f.contains(':'));
    text::lemma_split_step(f, ':', d);
    text::lemma_split_whole(d, ':');
    let p = text::split_on(rest, ':');
    assert(p =~= seq![f, d]);
    assert(p.drop_last() =~= seq![f]);
    assert(address::group_value(f) == Some(0xffffint)) by {
        assert(f.drop_last() =~= seq!['f', 'f', 'f']);
        assert(f.drop_last().drop_last() =~= seq!['f', 'f']);
        assert(f.drop_last().drop_last().drop_last() =~= seq!['f']);
        assert(f.drop_last().drop_last().drop_last().drop_last() =~= Seq::empty());
        reveal_with_fuel(address::hex_value, 6);
    }
    assert(address::piece_groups(seq![f]) == Some(seq![0xffffu16])) by {
        assert(seq![f].drop_last() =~= Seq::empty());
        assert(address::piece_groups(seq![f].drop_last()) == Some(Seq::<u16>::empty()));
        assert(Seq::<u16>::empty().push(0xffff) =~= seq![0xffffu16]);
    }
    assert(address::piece_groups(p) is None);
    let hi = (v / 0x1_0000) as u16;
    let lo = (v % 0x1_0000) as u16;
    let r = seq![0xffffu16].push(hi).push(lo);
    assert(address::side_groups(rest, true) == Some(r));
    let whole = Seq::<u16>::empty() + Seq::new(5, |k: int| 0u16) + r;
    assert(address::groups_value(whole) == n) by {
        let w7 = whole.drop_last();
        let w6 = w7.drop_last();
        let w5 = w6.drop_last();
        assert(w5 =~= Seq::new(5, |k: int| 0u16));
        lemma_zero_groups(5);
        assert(address::groups_value(w6) == 0xffff);
        assert(address::groups_value(w7) == 0xffff * 0x1_0000 + hi);
    }
}

proof fn lemma_zero_groups(k: nat)
    ensures
        address::groups_value(Seq::new(k, |i: int| 0u16)) == 0,
    decreases k,
{
    let s = Seq::new(k, |i: int| 0u16);
    if k > 0 {
        lemma_zero_groups((k - 1) as nat);
        assert(s.drop_last() =~= Seq::new((k - 1) as nat, |i: int| 0u16));
    }
}

/// A dotted text has no colons and is longer than a group.
proof fn lemma_dotted(v: u32)
    ensures
        IpAddr::V4(v).text().len() >= 7,
        !IpAddr::V4(v).text().contains(':'),
        address::ipv4_value(IpAddr::V4(v).text()) == Some(v as int),
{
    reveal_strlit(".");
    let a = text::dec_text((v / 0x100_0000) as nat);
    let b = text::dec_text((v / 0x1_0000 % 0x100) as nat);
    let c = text::dec_text((v / 0x100 % 0x100) as nat);
    let d = text::dec_text((v % 0x100) as nat);
    text::lemma_dec_text_value((v / 0x100_0000) as nat);
    text::lemma_dec_text_value((v / 0x1_0000 % 0x100) as nat);
    text::lemma_dec_text_value((v / 0x100 % 0x100) as nat);
    text::lemma_dec_text_value((v % 0x100) as nat);
    let t = IpAddr::V4(v).text();
    assert(t == a + "."@ + b + "."@ + c + "."@ + d);
    if t.contains(':') {
        let j = choose|j: int| 0 <= j < t.len() && t[j] == ':';
        let p = a.len() as int;
        let q = p + 1 + b.len();
        let r = q + 1 + c.len();
        if j < p {
            assert(t[j] == a[j]);
        } else if p < j < q {
            assert(t[j] == b[j - p - 1]);
        } else if q < j < r {
            assert(t[j] == c[j - q - 1]);
        } else if j > r {
            assert(t[j] == d[j - r - 1]);
        }
    }
    address::law_ipv4_text_reads_back(v);
    if address::ipv4_value(t) is None {
        assert(address::ip_value(t) is None || address::ip_value(t)->0 is V6);
    } else {
        lemma_ipv4_bound(t);
    }
}

proof fn lemma_ipv4_bound(s: Seq<char>)
    requires
        address::ipv4_value(s) is Some,
    ensures
        0 <= address::ipv4_value(s)->0 < 0x1_0000_0000,
{
}

proof fn lemma_dotted_front(v: u32)
    ensures
        address::ipv4_value("::ffff:"@ + IpAddr::V4(v).text()) is None,
{
    reveal_strlit(".");
    reveal_strlit("::ffff:");
    let a = text::dec_text((v / 0x100_0000) as nat);
    let b = text::dec_text((v / 0x1_0000 % 0x100) as nat);
    let c = text::dec_text((v / 0x100 % 0x100) as nat);
    let d = text::dec_text((v % 0x100) as nat);
    text::lemma_dec_text_value((v / 0x100_0000) as nat);
    let t = "::ffff:"@ + IpAddr::V4(v).text();
    let first = "::ffff:"@ + a;
    let rest = b + "."@ + c + "."@ + d;
    assert(t =~= first + seq!['.'] + rest);
    if first.contains('.') {
        let k = choose|k: int| 0 <= k < first.len() && first[k] == '.';
        if k >= 7 {
            assert(a[k - 7] == '.');
        }
    }
    text::lemma_split_step(first, '.', rest);
    assert(text::split_on(t, '.')[0] == first);
    assert(first[0] == ':');
    assert(address::octet_value(first) is None);
}

/// An IPv6 address reads back from its text, compressed or not, mapped or not.
pub proof fn law_ipv6_text_reads_back(n: u128)
    ensures
        address::ip_value(IpAddr::V6(n).text()) == Some(IpAddr::V6(n)),
{
    if address::is_mapped(n) {
        lemma_mapped_ipv6(n);
    } else {
        lemma_plain_ipv6(n);
    }
}

/// No two addresses have the same text.
pub proof fn law_address_texts_differ(a: IpAddr, b: IpAddr)
    requires
        a != b,
    ensures
        a.text() != b.text(),
{
    match a {
        IpAddr::V4(n) => address::law_ipv4_text_reads_back(n),
        IpAddr::V6(n) => law_ipv6_text_reads_back(n),
    }
    match b {
        IpAddr::V4(n) => address::law_ipv4_text_reads_back(n),
        IpAddr::V6(n) => law_ipv6_text_reads_back(n),
    }
}

} // verus!
