//! Measured values as a double holds them: 53 significant bits and a binary exponent.

use vstd::arithmetic::power2::pow2;
use vstd::prelude::*;

use crate::number;

verus! {

/// The number `mantissa * 2^exponent`.
#[verifier::ext_equal]
pub ghost struct Double {
    pub mantissa: nat,
    pub exponent: int,
}

impl Double {
    pub open spec fn zero() -> Double {
        Double { mantissa: 0, exponent: 0 }
    }

    /// The number is `num() / den()`.
    pub open spec fn num(self) -> nat {
        if self.exponent >= 0 {
            self.mantissa * pow2(self.exponent as nat)
        } else {
            self.mantissa
        }
    }

    /// The number is `num() / den()`.
    pub open spec fn den(self) -> nat {
        if self.exponent >= 0 {
            1
        } else {
            pow2((-self.exponent) as nat)
        }
    }

    /// Zero, or a number with its 53 significant bits in the mantissa.
    pub open spec fn is_normal(self) -> bool {
        self == Double::zero() || pow2(52) <= self.mantissa < pow2(53)
    }
}

/// `p / q` is below `2^k`.
pub open spec fn below(p: nat, q: nat, k: int) -> bool {
    if k >= 0 {
        p < q * pow2(k as nat)
    } else {
        p * pow2((-k) as nat) < q
    }
}

/// Counted in units of `2^u`, `p / q` has 53 bits before the point.
pub open spec fn is_unit(p: nat, q: nat, u: int) -> bool {
    below(p, q, 53 + u) && !below(p, q, 52 + u)
}

/// The exponent of the unit in which `p / q` has 53 bits before the point.
pub open spec fn unit(p: nat, q: nat) -> int {
    choose|u: int| is_unit(p, q, u)
}

/// `p / q` counted in units of `2^u`, to the nearest whole number, ties to even.
pub open spec fn units(p: nat, q: nat, u: int) -> nat {
    if u >= 0 {
        number::rounded(p, q * pow2(u as nat))
    } else {
        number::rounded(p * pow2((-u) as nat), q)
    }
}

/// The double nearest to `p / q`, ties to even; a quotient by zero counts as zero. The
/// quotients here are far from the ends of a double's range.
pub open spec fn nearest(p: nat, q: nat) -> Double {
    if p == 0 || q == 0 {
        Double::zero()
    } else {
        let u = unit(p, q);
        let m = units(p, q, u);
        if m == pow2(53) {
            Double { mantissa: pow2(52), exponent: u + 1 }
        } else {
            Double { mantissa: m, exponent: u }
        }
    }
}

/// The whole number that `n` is as a double.
pub open spec fn as_double(n: nat) -> nat {
    if n < pow2(53) {
        n
    } else {
        nearest(n, 1).num()
    }
}

/// The quotient of two counts as doubles.
pub open spec fn quotient(num: nat, den: nat) -> Double {
    nearest(as_double(num), as_double(den))
}

/// The product of a double and a small whole number.
pub open spec fn times(d: Double, n: nat) -> Double {
    let product = nearest(d.mantissa * n, 1);
    if product.mantissa == 0 {
        Double::zero()
    } else {
        Double { mantissa: product.mantissa, exponent: product.exponent + d.exponent }
    }
}

// ---------------------------------------------------------------------------
// Facts
// ---------------------------------------------------------------------------

pub proof fn lemma_bits()
    ensures
        pow2(0) == 1,
        pow2(1) == 2,
        pow2(52) == 0x10_0000_0000_0000,
        pow2(53) == 0x20_0000_0000_0000,
        pow2(54) == 0x40_0000_0000_0000,
        pow2(64) == 0x1_0000_0000_0000_0000,
{
    vstd::arithmetic::power2::lemma2_to64();
    vstd::arithmetic::power2::lemma2_to64_rest();
    vstd::arithmetic::power2::lemma_pow2_adds(52, 1);
    vstd::arithmetic::power2::lemma_pow2_adds(53, 1);
}

pub proof fn lemma_pow2_step(k: nat)
    ensures
        pow2(k + 1) == 2 * pow2(k),
        pow2(k) >= 1,
{
    vstd::arithmetic::power2::lemma_pow2_unfold(k + 1);
    vstd::arithmetic::power2::lemma_pow2_pos(k);
}

pub proof fn lemma_pow2_grows(a: nat, b: nat)
    requires
        a <= b,
    ensures
        1 <= pow2(a) <= pow2(b),
    decreases b,
{
    vstd::arithmetic::power2::lemma_pow2_pos(a);
    if a < b {
        lemma_pow2_grows(a, (b - 1) as nat);
        lemma_pow2_step((b - 1) as nat);
    }
}

/// Both sides may be shifted by `j` bits.
pub proof fn lemma_below_shifted(p: nat, q: nat, j: nat, c: nat)
    ensures
        below(p, q, c - j) <==> p * pow2(j) < q * pow2(c),
{
    if j <= c {
        let d = (c - j) as nat;
        vstd::arithmetic::power2::lemma_pow2_adds(d, j);
        vstd::arithmetic::power2::lemma_pow2_pos(j);
        let (x, y, z) = (pow2(d), pow2(j), pow2(c));
        assert(q * z == (q * x) * y) by (nonlinear_arith)
            requires
                z == x * y,
        ;
        assert(p < q * x <==> p * y < (q * x) * y) by (nonlinear_arith)
            requires
                y > 0,
        ;
    } else {
        let d = (j - c) as nat;
        vstd::arithmetic::power2::lemma_pow2_adds(d, c);
        vstd::arithmetic::power2::lemma_pow2_pos(c);
        let (x, y, z) = (pow2(d), pow2(c), pow2(j));
        assert(p * z == (p * x) * y) by (nonlinear_arith)
            requires
                z == x * y,
        ;
        assert(p * x < q <==> (p * x) * y < q * y) by (nonlinear_arith)
            requires
                y > 0,
        ;
    }
}

proof fn lemma_below_monotone(p: nat, q: nat, a: int, b: int)
    requires
        a <= b,
        below(p, q, a),
    ensures
        below(p, q, b),
{
    let j = if a < 0 {
        (-a) as nat
    } else {
        0
    };
    let (ca, cb) = ((a + j) as nat, (b + j) as nat);
    lemma_below_shifted(p, q, j, ca);
    lemma_below_shifted(p, q, j, cb);
    lemma_pow2_grows(ca, cb);
    let (x, y) = (pow2(ca), pow2(cb));
    assert(q * x <= q * y) by (nonlinear_arith)
        requires
            x <= y,
    ;
}

/// There is one unit at most.
pub proof fn lemma_unit_unique(p: nat, q: nat, u: int)
    requires
        is_unit(p, q, u),
    ensures
        unit(p, q) == u,
{
    let v = unit(p, q);
    assert(is_unit(p, q, v));
    if u < v {
        lemma_below_monotone(p, q, 53 + u, 52 + v);
    } else if v < u {
        lemma_below_monotone(p, q, 53 + v, 52 + u);
    }
}

/// Every positive quotient has a unit.
pub proof fn lemma_unit_exists(p: nat, q: nat)
    requires
        p > 0,
        q > 0,
    ensures
        is_unit(p, q, unit(p, q)),
{
    lemma_pow2_exceeds(p);
    lemma_pow2_exceeds(q);
    let (x, y) = (pow2(p), pow2(q));
    assert(p < q * x) by (nonlinear_arith)
        requires
            p < x,
            q > 0,
    ;
    assert(q <= p * y) by (nonlinear_arith)
        requires
            q < y,
            p > 0,
    ;
    let u = lemma_boundary(p, q, -(q as int), p as int);
    assert(is_unit(p, q, u - 53));
}

proof fn lemma_pow2_exceeds(n: nat)
    ensures
        n < pow2(n),
    decreases n,
{
    lemma_bits();
    if n > 0 {
        lemma_pow2_exceeds((n - 1) as nat);
        lemma_pow2_step((n - 1) as nat);
    }
}

proof fn lemma_boundary(p: nat, q: nat, lo: int, hi: int) -> (k: int)
    requires
        lo < hi,
        !below(p, q, lo),
        below(p, q, hi),
    ensures
        below(p, q, k),
        !below(p, q, k - 1),
    decreases hi - lo,
{
    if below(p, q, hi - 1) {
        lemma_boundary(p, q, lo, hi - 1)
    } else {
        hi
    }
}

/// What a 64-bit count is as a double fits 64 bits, or is the next power of two.
proof fn lemma_as_double_bound(n: nat)
    requires
        pow2(53) <= n < pow2(64),
    ensures
        0 <= nearest(n, 1).exponent,
        nearest(n, 1).num() <= pow2(64),
        nearest(n, 1).num() >= pow2(53),
{
    lemma_bits();
    lemma_unit_exists(n, 1);
    let u = unit(n, 1);
    if u < 0 {
        lemma_below_monotone(n, 1, 53 + u, 53);
        assert(!below(n, 1, 53));
    }
    let x = pow2(u as nat);
    vstd::arithmetic::power2::lemma_pow2_adds(u as nat, 52);
    vstd::arithmetic::power2::lemma_pow2_adds(u as nat, 53);
    lemma_pow2_step(u as nat);
    if u > 11 {
        lemma_pow2_grows(64, (52 + u) as nat);
        assert(n < 1 * pow2((52 + u) as nat));
    }
    lemma_pow2_grows(u as nat, 11);
    assert(pow2(53) * pow2(11) == pow2(64)) by {
        vstd::arithmetic::power2::lemma_pow2_adds(53, 11);
    }
    assert(pow2(52) * x == x * pow2(52) && pow2(53) * x == x * pow2(53)) by (nonlinear_arith);
    assert(1 * x == x);
    lemma_rounded_between(n, x, pow2(52), pow2(53));
    let m = units(n, 1, u);
    assert(m * x <= pow2(53) * pow2(11)) by (nonlinear_arith)
        requires
            m <= pow2(53),
            x <= pow2(11),
    ;
    assert(pow2(52) * (2 * x) == pow2(53) * x) by (nonlinear_arith)
        requires
            pow2(53) == 2 * pow2(52),
    ;
    // At least the power of two it starts from: n is at least 2^53, so u is at least 1.
    if u == 0 {
        assert(below(n, 1, 53));
    }
    lemma_pow2_grows(1, u as nat);
    assert(m * x >= pow2(52) * 2) by (nonlinear_arith)
        requires
            m >= pow2(52),
            x >= 2,
    ;
}

/// A quotient between two whole numbers is rounded to one between them.
pub proof fn lemma_rounded_between(p: nat, q: nat, lo: nat, hi: nat)
    requires
        q > 0,
        lo * q <= p <= hi * q,
    ensures
        lo <= number::rounded(p, q) <= hi,
{
    let (w, r) = (p / q, p % q);
    vstd::arithmetic::div_mod::lemma_fundamental_div_mod(p as int, q as int);
    assert(p == q * w + r && r < q);
    assert(w >= lo) by (nonlinear_arith)
        requires
            lo * q <= p,
            p == q * w + r,
            r < q,
            q > 0,
    ;
    assert(w <= hi) by (nonlinear_arith)
        requires
            p <= hi * q,
            p == q * w + r,
            r >= 0,
            q > 0,
    ;
    if w == hi {
        assert(r == 0) by (nonlinear_arith)
            requires
                p <= hi * q,
                p == q * w + r,
                w == hi,
                r >= 0,
        ;
    }
}

// ---------------------------------------------------------------------------
// Arithmetic
// ---------------------------------------------------------------------------

/// A measured value.
#[derive(Clone, Copy, Debug, PartialEq, Eq, Structural)]
pub struct Binary {
    pub mantissa: u64,
    pub exponent: i32,
}

impl View for Binary {
    type V = Double;

    open spec fn view(&self) -> Double {
        Double { mantissa: self.mantissa as nat, exponent: self.exponent as int }
    }
}

/// Two to the power `e`.
pub fn two_to(e: u32) -> (r: u128)
    requires
        e <= 126,
    ensures
        r == pow2(e as nat),
{
    let mut r: u128 = 1;
    let mut i: u32 = 0;
    proof {
        lemma_bits();
    }
    while i < e
        invariant
            i <= e <= 126,
            r == pow2(i as nat),
        decreases e - i,
    {
        proof {
            lemma_pow2_step(i as nat);
            lemma_pow2_grows((i + 1) as nat, 127);
            lemma_limit();
        }
        r = r * 2;
        i = i + 1;
    }
    r
}

proof fn lemma_limit()
    ensures
        pow2(127) == 0x8000_0000_0000_0000_0000_0000_0000_0000,
        pow2(117) == 0x20_0000_0000_0000_0000_0000_0000_0000,
        pow2(12) == 4096,
        pow2(13) == 8192,
{
    lemma_bits();
    vstd::arithmetic::power2::lemma2_to64();
    vstd::arithmetic::power2::lemma2_to64_rest();
    vstd::arithmetic::power2::lemma_pow2_adds(64, 63);
    vstd::arithmetic::power2::lemma_pow2_adds(64, 53);
}

/// `num / den` rounded to a whole number, ties to even.
pub fn round_quotient(num: u128, den: u128) -> (n: u128)
    requires
        0 < den <= 0x4000_0000_0000_0000_0000_0000_0000_0000,
    ensures
        n == number::rounded(num as nat, den as nat),
{
    let q: u128 = num / den;
    let r: u128 = num % den;
    assert(r < den);
    proof {
        vstd::arithmetic::div_mod::lemma_fundamental_div_mod(num as int, den as int);
        if den == 1 {
            assert(r == 0);
        } else {
            assert(q <= num / 2) by {
                vstd::arithmetic::div_mod::lemma_div_is_ordered_by_denominator(
                    num as int,
                    2,
                    den as int,
                );
            }
        }
    }
    if 2 * r > den || (2 * r == den && q % 2 == 1) {
        q + 1
    } else {
        q
    }
}

/// The double nearest to `p / q`.
pub fn nearest_to(p: u128, q: u128) -> (r: Binary)
    requires
        p <= 0x1_0000_0000_0000_0000,
        0 < q <= 0x1_0000_0000_0000_0000,
    ensures
        r@ == nearest(p as nat, q as nat),
        r@.is_normal(),
        -117 <= r.exponent <= 13,
        p > 0 ==> r.mantissa > 0,
{
    let top: u128 = 0x20_0000_0000_0000;
    let half: u128 = 0x10_0000_0000_0000;
    proof {
        lemma_bits();
        lemma_limit();
    }
    if p == 0 {
        return Binary { mantissa: 0, exponent: 0 };
    }
    let mut n: u128 = p;
    let mut d: u128 = q;
    let mut u: i32 = 0;
    assert(q * pow2(0) == q) by (nonlinear_arith)
        requires
            pow2(0) == 1,
    ;
    assert(p * pow2(0) == p) by (nonlinear_arith)
        requires
            pow2(0) == 1,
    ;
    while n >= d * top
        invariant
            n == p,
            0 < p <= 0x1_0000_0000_0000_0000,
            0 < q <= 0x1_0000_0000_0000_0000,
            top == 0x20_0000_0000_0000,
            0 < d <= 0x1_0000_0000_0000_0000,
            0 <= u <= 4096,
            u < d,
            d == q * pow2(u as nat),
            u > 0 ==> d <= 4096 && n >= d * 0x10_0000_0000_0000,
        decreases 0x1_0000_0000_0000_0000 - d,
    {
        assert(d <= 2048);
        proof {
            lemma_pow2_step(u as nat);
            let (x, y) = (pow2(u as nat), q);
            assert(y * (2 * x) == 2 * (y * x)) by (nonlinear_arith);
        }
        d = d * 2;
        u = u + 1;
    }
    if u > 0 {
        proof {
            let x = pow2(u as nat);
            assert(x <= d) by (nonlinear_arith)
                requires
                    d == q * x,
                    q > 0,
                    x >= 0,
            ;
            if u > 12 {
                lemma_pow2_grows(13, u as nat);
            }
        }
    }
    let ghost start = u;
    let ghost mut j: nat = 0;
    while n < d * half
        invariant
            0 < p <= 0x1_0000_0000_0000_0000,
            0 < q <= 0x1_0000_0000_0000_0000,
            top == 0x20_0000_0000_0000,
            half == 0x10_0000_0000_0000,
            0 < d <= 0x1_0000_0000_0000_0000,
            0 < n < d * top,
            0 <= start <= 12,
            start > 0 ==> n >= d * half,
            start > 0 ==> j == 0,
            d == q * pow2(start as nat),
            n == p * pow2(j),
            u == start - j,
            j <= 117,
        decreases d * top - n,
    {
        proof {
            lemma_pow2_step(j);
            let (x, y) = (pow2(j), p);
            assert(y * (2 * x) == 2 * (y * x)) by (nonlinear_arith);
            assert(x <= n) by (nonlinear_arith)
                requires
                    n == y * x,
                    y > 0,
                    x >= 0,
            ;
            if j >= 117 {
                lemma_limit();
                lemma_pow2_grows(117, j);
            }
        }
        n = n * 2;
        u = u - 1;
        proof {
            j = j + 1;
        }
    }
    let m: u128 = round_quotient(n, d);
    proof {
        lemma_rounded_between(n as nat, d as nat, half as nat, top as nat);
        if start > 0 {
            assert(p * pow2(0) == p) by (nonlinear_arith)
                requires
                    pow2(0) == 1,
            ;
            lemma_bits();
            let x = pow2(start as nat);
            lemma_below_shifted(p as nat, q as nat, 0, (53 + start) as nat);
            lemma_below_shifted(p as nat, q as nat, 0, (52 + start) as nat);
            vstd::arithmetic::power2::lemma_pow2_adds(start as nat, 53);
            vstd::arithmetic::power2::lemma_pow2_adds(start as nat, 52);
            assert(q * (x * pow2(53)) == (q * x) * pow2(53)) by (nonlinear_arith);
            assert(q * (x * pow2(52)) == (q * x) * pow2(52)) by (nonlinear_arith);
        } else {
            lemma_bits();
            assert(q * pow2(0) == q) by (nonlinear_arith)
                requires
                    pow2(0) == 1,
            ;
            lemma_below_shifted(p as nat, q as nat, j, 53);
            lemma_below_shifted(p as nat, q as nat, j, 52);
        }
        assert(is_unit(p as nat, q as nat, u as int));
        lemma_unit_unique(p as nat, q as nat, u as int);
        if start == 0 && j == 0 {
            assert(units(p as nat, q as nat, 0) == m);
        }
        assert(units(p as nat, q as nat, u as int) == m);
    }
    if m == top {
        Binary { mantissa: half as u64, exponent: u + 1 }
    } else {
        Binary { mantissa: m as u64, exponent: u }
    }
}

/// The whole number that `n` is as a double.
pub fn as_double_of(n: u64) -> (r: u128)
    ensures
        r == as_double(n as nat),
        r <= 0x1_0000_0000_0000_0000,
        n > 0 ==> r > 0,
{
    proof {
        lemma_bits();
    }
    if n < 0x20_0000_0000_0000 {
        n as u128
    } else {
        proof {
            lemma_as_double_bound(n as nat);
        }
        let b = nearest_to(n as u128, 1);
        let t: u128 = two_to(b.exponent as u32);
        proof {
            assert(b.mantissa * t == b@.num());
        }
        b.mantissa as u128 * t
    }
}

/// The quotient of two counts as doubles; a quotient by zero counts as zero.
pub fn quotient_of(num: u64, den: u64) -> (r: Binary)
    ensures
        r@ == quotient(num as nat, den as nat),
        r@.is_normal(),
        -117 <= r.exponent <= 13,
{
    proof {
        lemma_bits();
    }
    if den == 0 {
        return Binary { mantissa: 0, exponent: 0 };
    }
    let a: u128 = as_double_of(num);
    let b: u128 = as_double_of(den);
    nearest_to(a, b)
}

/// The product of a double and a small whole number.
pub fn times_of(b: Binary, n: u64) -> (r: Binary)
    requires
        n <= 1000,
        b@.is_normal(),
        -117 <= b.exponent <= 13,
    ensures
        r@ == times(b@, n as nat),
        r@.is_normal(),
        n > 0 ==> -117 <= r.exponent,
        r.exponent <= 26,
{
    proof {
        lemma_bits();
        assert(b.mantissa * n <= 0x20_0000_0000_0000 * 1000) by (nonlinear_arith)
            requires
                b.mantissa <= 0x20_0000_0000_0000,
                n <= 1000,
        ;
    }
    let p = nearest_to(b.mantissa as u128 * n as u128, 1);
    if p.mantissa == 0 {
        Binary { mantissa: 0, exponent: 0 }
    } else {
        proof {
            // A product by a positive number has at least the bits of the factor.
            lemma_product_unit(b.mantissa as nat, n as nat);
        }
        Binary { mantissa: p.mantissa, exponent: p.exponent + b.exponent }
    }
}

proof fn lemma_product_unit(m: nat, n: nat)
    requires
        m == 0 || m >= pow2(52),
    ensures
        m * n > 0 ==> nearest(m * n, 1).exponent >= 0,
{
    if m * n > 0 {
        lemma_bits();
        assert(m * n >= m && n > 0 && m > 0) by (nonlinear_arith)
            requires
                m * n > 0,
                m >= 0,
                n >= 0,
        ;
        lemma_unit_exists(m * n, 1);
        let u = unit(m * n, 1);
        if u < 0 {
            lemma_below_monotone(m * n, 1, 53 + u, 52);
        }
    }
}

} // verus!
