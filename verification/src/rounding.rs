//! How near measured values and their texts are to the exact quotients.

use vstd::arithmetic::power2::pow2;
use vstd::prelude::*;

use crate::binary;
use crate::binary::Double;
use crate::number;
use crate::number::{pow10, Ratio, Scale, Threshold};
use crate::shortest;
use crate::text;
use crate::written;

verus! {

proof fn lemma_rounded_error(p: nat, q: nat)
    requires
        q > 0,
    ensures
        2 * (number::rounded(p, q) * q) <= 2 * p + q,
        2 * p <= 2 * (number::rounded(p, q) * q) + q,
{
    let (w, r) = (p / q, p % q);
    vstd::arithmetic::div_mod::lemma_fundamental_div_mod(p as int, q as int);
    let m = number::rounded(p, q);
    assert(w * q == q * w) by (nonlinear_arith);
    assert((w + 1) * q == q * w + q) by (nonlinear_arith);
}

/// The error of a rounding to at least 2^52 units is at most one part in 2^53.
proof fn lemma_small_error(p: nat, q: nat)
    requires
        q > 0,
        pow2(52) * q <= p,
    ensures
        pow2(53) * (number::rounded(p, q) * q) <= (pow2(53) + 1) * p,
        (pow2(53) - 1) * p <= pow2(53) * (number::rounded(p, q) * q),
{
    binary::lemma_bits();
    lemma_rounded_error(p, q);
    let x = number::rounded(p, q) * q;
    let h = pow2(52) as int;
    assert(pow2(53) == 2 * h);
    assert(2 * h * x <= (2 * h + 1) * p) by (nonlinear_arith)
        requires
            2 * x <= 2 * p + q,
            h * q <= p,
            h > 0,
    ;
    assert((2 * h - 1) * p <= 2 * h * x) by (nonlinear_arith)
        requires
            2 * p <= 2 * x + q,
            h * q <= p,
            h > 0,
    ;
}

/// `d` is `p / q` but for one part in 2^53.
pub open spec fn is_near(d: Double, p: nat, q: nat) -> bool {
    &&& pow2(53) * (d.num() * q) <= (pow2(53) + 1) * (p * d.den())
    &&& (pow2(53) - 1) * (p * d.den()) <= pow2(53) * (d.num() * q)
}

proof fn lemma_nearest_is_near(p: nat, q: nat)
    requires
        p > 0,
        q > 0,
    ensures
        is_near(binary::nearest(p, q), p, q),
        pow2(52) <= binary::nearest(p, q).mantissa < pow2(53),
{
    binary::lemma_bits();
    binary::lemma_unit_exists(p, q);
    let u = binary::unit(p, q);
    let m = binary::units(p, q, u);
    let d = binary::nearest(p, q);
    if u >= 0 {
        let x = pow2(u as nat);
        binary::lemma_pow2_step(u as nat);
        binary::lemma_below_shifted(p, q, 0, (53 + u) as nat);
        binary::lemma_below_shifted(p, q, 0, (52 + u) as nat);
        vstd::arithmetic::power2::lemma_pow2_adds(u as nat, 53);
        vstd::arithmetic::power2::lemma_pow2_adds(u as nat, 52);
        vstd::arithmetic::power2::lemma_pow2_pos(u as nat);
        assert(p * 1 == p);
        let unit = q * x;
        assert(unit > 0) by (nonlinear_arith)
            requires
                q > 0,
                x > 0,
                unit == q * x,
        ;
        assert(q * (x * pow2(53)) == pow2(53) * unit) by (nonlinear_arith)
            requires
                unit == q * x,
        ;
        assert(q * (x * pow2(52)) == pow2(52) * unit) by (nonlinear_arith)
            requires
                unit == q * x,
        ;
        binary::lemma_rounded_between(p, unit, pow2(52), pow2(53));
        lemma_small_error(p, unit);
        assert((m * x) * q == m * unit) by (nonlinear_arith)
            requires
                unit == q * x,
        ;
        if m == pow2(53) {
            assert(pow2(52) * (2 * x) == pow2(53) * x) by (nonlinear_arith)
                requires
                    pow2(53) == 2 * pow2(52),
            ;
            assert(d.num() == m * x);
        } else {
            assert(d.num() == m * x);
        }
    } else {
        let j = (-u) as nat;
        let y = pow2(j);
        binary::lemma_below_shifted(p, q, j, 53);
        binary::lemma_below_shifted(p, q, j, 52);
        let top = p * y;
        assert(q * pow2(53) == pow2(53) * q && q * pow2(52) == pow2(52) * q) by (nonlinear_arith);
        binary::lemma_rounded_between(top, q, pow2(52), pow2(53));
        lemma_small_error(top, q);
        if m == pow2(53) {
            let i = (j - 1) as nat;
            let z = pow2(i);
            binary::lemma_pow2_step(i);
            let h = pow2(52);
            assert(d.num() == h) by {
                if u + 1 == 0 {
                    assert(h * pow2(0) == h) by (nonlinear_arith)
                        requires
                            pow2(0) == 1,
                    ;
                }
            }
            assert(d.den() == z);
            lemma_halved(h as int, q as int, p as int, z as int, y as int, m as int);
        }
    }
}

proof fn lemma_halved(h: int, q: int, p: int, z: int, y: int, m: int)
    requires
        y == 2 * z,
        m == 2 * h,
        m * (m * q) <= (m + 1) * (p * y),
        (m - 1) * (p * y) <= m * (m * q),
    ensures
        m * (h * q) <= (m + 1) * (p * z),
        (m - 1) * (p * z) <= m * (h * q),
{
    assert(m * (m * q) == 2 * (m * (h * q))) by (nonlinear_arith)
        requires
            m == 2 * h,
    ;
    assert((m + 1) * (p * y) == 2 * ((m + 1) * (p * z))) by (nonlinear_arith)
        requires
            y == 2 * z,
    ;
    assert((m - 1) * (p * y) == 2 * ((m - 1) * (p * z))) by (nonlinear_arith)
        requires
            y == 2 * z,
    ;
}

/// A quotient of counts is, as a double, the exact quotient but for one part in 2^53; a
/// quotient by zero, or of zero, is zero.
pub proof fn law_quotients_are_near(num: u64, den: u64)
    requires
        num < 0x20_0000_0000_0000,
        den < 0x20_0000_0000_0000,
    ensures
        ({
            let d = (Ratio { num, den, scale: Scale::One }).double();
            &&& num > 0 && den > 0 ==> is_near(d, num as nat, den as nat)
            &&& num == 0 || den == 0 ==> d.num() == 0
        }),
{
    binary::lemma_bits();
    if num > 0 && den > 0 {
        lemma_nearest_is_near(num as nat, den as nat);
    } else {
        assert(0 * pow2(0) == 0);
    }
}

/// A whole number below 2^53 is itself as a double.
proof fn lemma_whole_double(n: nat)
    requires
        0 < n < pow2(53),
    ensures
        ({
            let d = binary::nearest(n, 1);
            &&& d.exponent <= 0
            &&& d.mantissa == n * pow2((-d.exponent) as nat)
            &&& d.den() == pow2((-d.exponent) as nat)
            &&& d.num() == n * d.den()
            &&& d.mantissa > 0
        }),
{
    binary::lemma_bits();
    binary::lemma_unit_exists(n, 1);
    let u = binary::unit(n, 1);
    if u > 0 {
        binary::lemma_pow2_grows(53, (52 + u) as nat);
        assert(1 * pow2((52 + u) as nat) == pow2((52 + u) as nat));
        assert(binary::below(n, 1, 52 + u));
    }
    let j = (-u) as nat;
    let y = pow2(j);
    vstd::arithmetic::power2::lemma_pow2_pos(j);
    let m = binary::units(n, 1, u);
    assert(m == n * y) by {
        if u == 0 {
            assert(1 * pow2(0) == 1);
            assert(n / 1 == n && n % 1 == 0);
            assert(n * 1 == n);
        } else {
            assert((n * y) / 1 == n * y && (n * y) % 1 == 0);
        }
    }
    binary::lemma_below_shifted(n, 1, j, 53);
    assert(1 * pow2(53) == pow2(53));
    assert(m < pow2(53));
    assert(m > 0) by (nonlinear_arith)
        requires
            m == n * y,
            n > 0,
            y > 0,
    ;
    assert(u == 0 ==> m * pow2(0) == m && n * 1 == n);
}

/// A whole number reaches a whole threshold exactly where it is not below it. Every number
/// reaches what is no number, a negative threshold and minus infinity, and none reaches
/// infinity.
pub proof fn law_whole_numbers_reach_thresholds(n: u64, t: nat)
    requires
        n < 0x20_0000_0000_0000,
    ensures
        ({
            let r = Ratio { num: n, den: 1, scale: Scale::One };
            &&& r.at_least(Threshold::Finite { negative: false, mantissa: t,
                exponent: 0 }) <==> n >= t
            &&& r.at_least(Threshold::Finite { negative: true, mantissa: t, exponent: 0 })
            &&& r.at_least(Threshold::Undefined)
            &&& r.at_least(Threshold::Infinite { negative: true })
            &&& !r.at_least(Threshold::Infinite { negative: false })
        }),
{
    reveal(Ratio::at_least);
    binary::lemma_bits();
    let r = Ratio { num: n, den: 1, scale: Scale::One };
    let d = r.double();
    assert(pow10(0) == 1);
    assert(t * 1 == t);
    if n == 0 {
        let e = pow2(1075);
        vstd::arithmetic::power2::lemma_pow2_pos(1075);
        binary::lemma_pow2_step(1074);
        vstd::arithmetic::power2::lemma_pow2_pos(1074);
        assert(t >= 1 ==> t * e >= 2) by (nonlinear_arith)
            requires
                e >= 2,
        ;
        assert(0 * e == 0);
    } else {
        lemma_whole_double(n as nat);
        let j = (-d.exponent) as nat;
        let y = pow2(j);
        let up = number::upper_end(d);
        binary::lemma_pow2_step(j);
        vstd::arithmetic::power2::lemma_pow2_pos(j);
        assert(up.den() == 2 * y);
        assert(up.num() == 2 * (n * y) + 1);
        if n >= t {
            assert(t * (2 * y) <= 2 * (n * y)) by (nonlinear_arith)
                requires
                    n >= t,
                    y > 0,
            ;
        } else {
            assert(t * (2 * y) >= 2 * (n * y) + 2) by (nonlinear_arith)
                requires
                    t >= n + 1,
                    y >= 1,
            ;
        }
    }
}

/// A double with its exponent moved by `x`.
spec fn moved(p: Double, x: int) -> Double {
    Double { mantissa: p.mantissa, exponent: p.exponent + x }
}

/// Moving the exponent multiplies by that power of two.
proof fn lemma_moved(p: Double, x: int)
    ensures
        p.den() > 0,
        moved(p, x).den() > 0,
        x >= 0 ==> moved(p, x).num() * p.den() == (p.num() * moved(p, x).den()) * pow2(x as nat),
        x < 0 ==> (moved(p, x).num() * p.den()) * pow2((-x) as nat) == p.num() * moved(p, x).den(),
{
    let m = p.mantissa;
    let e = p.exponent;
    let d = moved(p, x);
    binary::lemma_bits();
    if e < 0 {
        vstd::arithmetic::power2::lemma_pow2_pos((-e) as nat);
    }
    if e + x < 0 {
        vstd::arithmetic::power2::lemma_pow2_pos((-(e + x)) as nat);
    }
    if x >= 0 {
        let w = pow2(x as nat);
        if e >= 0 {
            vstd::arithmetic::power2::lemma_pow2_adds(e as nat, x as nat);
            let a = pow2(e as nat);
            assert((m * (a * w)) * 1 == ((m * a) * 1) * w) by (nonlinear_arith);
        } else if e + x >= 0 {
            vstd::arithmetic::power2::lemma_pow2_adds((e + x) as nat, (-e) as nat);
            let (a, b) = (pow2((e + x) as nat), pow2((-e) as nat));
            assert(w == a * b);
            assert((m * a) * b == (m * 1) * (a * b)) by (nonlinear_arith);
        } else {
            vstd::arithmetic::power2::lemma_pow2_adds((-(e + x)) as nat, x as nat);
            let a = pow2((-(e + x)) as nat);
            assert(p.den() == a * w);
            assert(m * (a * w) == (m * a) * w) by (nonlinear_arith);
        }
    } else {
        let w = pow2((-x) as nat);
        if e < 0 {
            vstd::arithmetic::power2::lemma_pow2_adds((-e) as nat, (-x) as nat);
            let a = pow2((-e) as nat);
            assert(d.den() == a * w);
            assert((m * a) * w == m * (a * w)) by (nonlinear_arith);
        } else if e + x >= 0 {
            vstd::arithmetic::power2::lemma_pow2_adds((e + x) as nat, (-x) as nat);
            let a = pow2((e + x) as nat);
            assert(p.num() == m * (a * w));
            assert(((m * a) * 1) * w == (m * (a * w)) * 1) by (nonlinear_arith);
        } else {
            vstd::arithmetic::power2::lemma_pow2_adds(e as nat, (-(e + x)) as nat);
            let (a, b) = (pow2(e as nat), pow2((-(e + x)) as nat));
            assert(w == a * b);
            assert((m * 1) * (a * b) == (m * a) * b) by (nonlinear_arith);
        }
    }
}

/// Both sides of `l <= r`, times `t`, with `u` taken out.
proof fn lemma_cancel(l: int, r: int, t: int, u: int, x: int, y: int)
    requires
        l <= r,
        t > 0,
        u > 0,
        l * t == x * u,
        r * t == y * u,
    ensures
        x <= y,
{
    assert(l * t <= r * t) by (nonlinear_arith)
        requires
            l <= r,
            t > 0,
    ;
    assert(x <= y) by (nonlinear_arith)
        requires
            x * u <= y * u,
            u > 0,
    ;
}

proof fn lemma_times_is_near(q: Double, f: nat)
    requires
        q.mantissa > 0,
        f > 0,
    ensures
        is_near(binary::times(q, f), q.num() * f, q.den()),
{
    binary::lemma_bits();
    let m = q.mantissa;
    let x = q.exponent;
    assert(m * f > 0) by (nonlinear_arith)
        requires
            m > 0,
            f > 0,
    ;
    let p = binary::nearest(m * f, 1);
    lemma_nearest_is_near(m * f, 1);
    let d = binary::times(q, f);
    assert(d == moved(p, x));
    lemma_moved(p, x);
    let h = pow2(53) as int;
    let (pn, pd, dn, dd) = (p.num() as int, p.den() as int, d.num() as int, d.den() as int);
    let (mi, fi) = (m as int, f as int);
    assert(pn * 1 == pn);
    let mf = mi * fi;
    if x >= 0 {
        let w = pow2(x as nat) as int;
        vstd::arithmetic::power2::lemma_pow2_pos(x as nat);
        let t = dd * w;
        assert(t > 0) by (nonlinear_arith)
            requires
                t == dd * w,
                dd > 0,
                w > 0,
        ;
        assert((h * pn) * t == (h * dn) * pd) by (nonlinear_arith)
            requires
                dn * pd == (pn * dd) * w,
                t == dd * w,
        ;
        assert(((h + 1) * (mf * pd)) * t == ((h + 1) * (((mi * w) * fi) * dd)) * pd)
            by (nonlinear_arith)
            requires
                t == dd * w,
                mf == mi * fi,
        ;
        assert(((h - 1) * (mf * pd)) * t == ((h - 1) * (((mi * w) * fi) * dd)) * pd)
            by (nonlinear_arith)
            requires
                t == dd * w,
                mf == mi * fi,
        ;
        lemma_cancel(
            h * pn,
            (h + 1) * (mf * pd),
            t,
            pd,
            h * dn,
            (h + 1) * (((mi * w) * fi) * dd),
        );
        lemma_cancel(
            (h - 1) * (mf * pd),
            h * pn,
            t,
            pd,
            (h - 1) * (((mi * w) * fi) * dd),
            h * dn,
        );
        assert(q.num() == mi * w && q.den() == 1);
        assert(dn * 1 == dn);
    } else {
        let w = pow2((-x) as nat) as int;
        assert((h * pn) * dd == (h * (dn * w)) * pd) by (nonlinear_arith)
            requires
                (dn * pd) * w == pn * dd,
        ;
        assert(((h + 1) * (mf * pd)) * dd == ((h + 1) * (mf * dd)) * pd) by (nonlinear_arith);
        assert(((h - 1) * (mf * pd)) * dd == ((h - 1) * (mf * dd)) * pd) by (nonlinear_arith);
        lemma_cancel(h * pn, (h + 1) * (mf * pd), dd, pd, h * (dn * w), (h + 1) * (mf * dd));
        lemma_cancel((h - 1) * (mf * pd), h * pn, dd, pd, (h - 1) * (mf * dd), h * (dn * w));
        assert(q.num() == m && q.den() == w);
    }
}

/// A percentage is a hundred times, and milliseconds are a thousand times, the quotient's
/// double, but for one part in 2^53.
pub proof fn law_scaled_quotients_are_near(num: u64, den: u64)
    requires
        0 < num < 0x20_0000_0000_0000,
        0 < den < 0x20_0000_0000_0000,
    ensures
        ({
            let q = (Ratio { num, den, scale: Scale::One }).double();
            &&& is_near(
                (Ratio { num, den, scale: Scale::Hundred }).double(),
                q.num() * 100,
                q.den(),
            )
            &&& is_near(
                (Ratio { num, den, scale: Scale::Thousand }).double(),
                q.num() * 1000,
                q.den(),
            )
        }),
{
    binary::lemma_bits();
    let q = (Ratio { num, den, scale: Scale::One }).double();
    lemma_nearest_is_near(num as nat, den as nat);
    lemma_times_is_near(q, 100);
    lemma_times_is_near(q, 1000);
}

/// The midpoint above a double is above it by one part in 2^53 at most.
proof fn lemma_upper_end_is_near(d: Double)
    requires
        pow2(52) <= d.mantissa,
    ensures
        number::upper_end(d).den() > 0,
        d.den() > 0,
        pow2(53) * (number::upper_end(d).num() * d.den()) <= (pow2(53) + 1) * (d.num()
            * number::upper_end(d).den()),
{
    binary::lemma_bits();
    let m = d.mantissa as int;
    let up = number::upper_end(d);
    let h = pow2(53) as int;
    assert(h <= 2 * m);
    assert(h * (2 * m + 1) <= (h + 1) * (2 * m)) by (nonlinear_arith)
        requires
            h <= 2 * m,
    ;
    if d.exponent >= 1 {
        let x = pow2((d.exponent - 1) as nat) as int;
        binary::lemma_pow2_step((d.exponent - 1) as nat);
        vstd::arithmetic::power2::lemma_pow2_pos((d.exponent - 1) as nat);
        assert(up.num() == (2 * m + 1) * x);
        assert(d.num() == m * (2 * x));
        assert(h * (((2 * m + 1) * x) * 1) <= (h + 1) * ((m * (2 * x)) * 1)) by (nonlinear_arith)
            requires
                h * (2 * m + 1) <= (h + 1) * (2 * m),
                x > 0,
        ;
    } else {
        let j = (-d.exponent) as nat;
        let y = pow2(j) as int;
        binary::lemma_pow2_step(j);
        vstd::arithmetic::power2::lemma_pow2_pos(j);
        assert(up.den() == 2 * y);
        assert(up.num() == 2 * m + 1);
        assert(d.den() == y);
        assert(d.num() == m) by {
            if d.exponent == 0 {
                assert(m * pow2(0) == m) by (nonlinear_arith)
                    requires
                        pow2(0) == 1,
                ;
            }
        }
        assert(h * ((2 * m + 1) * y) <= (h + 1) * (m * (2 * y))) by (nonlinear_arith)
            requires
                h * (2 * m + 1) <= (h + 1) * (2 * m),
                y > 0,
        ;
    }
}

proof fn lemma_chain(un: int, ud: int, dn: int, dd: int, p: int, q: int, a: int, b: int, h: int)
    requires
        ud > 0,
        dd > 0,
        q > 0,
        h > 0,
        p >= 0,
        a > 0,
        b >= 0,
        un * a >= b * ud,
        h * (un * dd) <= (h + 1) * (dn * ud),
        h * (dn * q) <= (h + 1) * (p * dd),
    ensures
        h * (h * (b * q)) <= (h + 1) * ((h + 1) * (p * a)),
{
    // h * b * dd <= (h + 1) * dn * a
    assert(h * (b * dd) <= (h + 1) * (dn * a)) by {
        assert((h * (b * dd)) * ud <= (h * (un * dd)) * a) by (nonlinear_arith)
            requires
                un * a >= b * ud,
                h > 0,
                dd > 0,
        ;
        assert((h * (un * dd)) * a <= ((h + 1) * (dn * ud)) * a) by (nonlinear_arith)
            requires
                h * (un * dd) <= (h + 1) * (dn * ud),
                a > 0,
        ;
        assert(((h + 1) * (dn * ud)) * a == ((h + 1) * (dn * a)) * ud) by (nonlinear_arith);
        let (x, y) = (h * (b * dd), (h + 1) * (dn * a));
        assert(x <= y) by (nonlinear_arith)
            requires
                x * ud <= y * ud,
                ud > 0,
        ;
    }
    // h * h * b * q * dd <= (h + 1) * (h + 1) * p * a * dd
    assert((h * (h * (b * q))) * dd == (h * (b * dd)) * (h * q)) by (nonlinear_arith);
    assert((h * (b * dd)) * (h * q) <= ((h + 1) * (dn * a)) * (h * q)) by (nonlinear_arith)
        requires
            h * (b * dd) <= (h + 1) * (dn * a),
            h > 0,
            q > 0,
    ;
    assert(((h + 1) * (dn * a)) * (h * q) == (h * (dn * q)) * ((h + 1) * a)) by (nonlinear_arith);
    assert((h * (dn * q)) * ((h + 1) * a) <= ((h + 1) * (p * dd)) * ((h + 1) * a))
        by (nonlinear_arith)
        requires
            h * (dn * q) <= (h + 1) * (p * dd),
            h > 0,
            a > 0,
    ;
    assert(((h + 1) * (p * dd)) * ((h + 1) * a) == ((h + 1) * ((h + 1) * (p * a))) * dd)
        by (nonlinear_arith);
    let (x, y) = (h * (h * (b * q)), (h + 1) * ((h + 1) * (p * a)));
    assert(x <= y) by (nonlinear_arith)
        requires
            x * dd <= y * dd,
            dd > 0,
    ;
}

/// A quotient that reaches a threshold is not below it by more than the rounding of two
/// doubles: no more than about one part in 2^52. (One that is not below it reaches it.)
pub proof fn law_reached_thresholds_are_not_far_above(
    num: u64,
    den: u64,
    mantissa: nat,
    exponent: int,
)
    requires
        0 < num < 0x20_0000_0000_0000,
        0 < den < 0x20_0000_0000_0000,
        (Ratio { num, den, scale: Scale::One }).at_least(
            Threshold::Finite { negative: false, mantissa, exponent },
        ),
    ensures
        ({
            let h = pow2(53) as int;
            if exponent >= 0 {
                h * (h * ((mantissa * pow10(exponent as nat)) * den)) <= (h + 1) * ((h + 1) * (num
                    * 1))
            } else {
                h * (h * (mantissa * den)) <= (h + 1) * ((h + 1) * (num * pow10(
                    (-exponent) as nat,
                )))
            }
        }),
{
    reveal(Ratio::at_least);
    binary::lemma_bits();
    let d = (Ratio { num, den, scale: Scale::One }).double();
    lemma_nearest_is_near(num as nat, den as nat);
    lemma_upper_end_is_near(d);
    let up = number::upper_end(d);
    let h = pow2(53) as int;
    if exponent >= 0 {
        let b = mantissa * pow10(exponent as nat);
        lemma_chain(
            up.num() as int,
            up.den() as int,
            d.num() as int,
            d.den() as int,
            num as int,
            den as int,
            1,
            b as int,
            h,
        );
    } else {
        number::lemma_pow10_positive((-exponent) as nat);
        lemma_chain(
            up.num() as int,
            up.den() as int,
            d.num() as int,
            d.den() as int,
            num as int,
            den as int,
            pow10((-exponent) as nat) as int,
            mantissa as int,
            h,
        );
    }
}

/// A whole number reaches four times a whole threshold exactly where it is not below that.
pub proof fn law_whole_numbers_reach_fourfold(n: u64, t: nat)
    requires
        n < 0x20_0000_0000_0000,
    ensures
        (Ratio { num: n, den: 1, scale: Scale::One }).at_least_fourfold(
            Threshold::Finite { negative: false, mantissa: t, exponent: 0 },
        ) <==> n >= 4 * t,
{
    reveal(Ratio::at_least_fourfold);
    binary::lemma_bits();
    let d = (Ratio { num: n, den: 1, scale: Scale::One }).double();
    assert(pow10(0) == 1);
    assert(t * 1 == t);
    if n == 0 {
        let e = pow2(1075);
        vstd::arithmetic::power2::lemma_pow2_pos(1074);
        binary::lemma_pow2_step(1074);
        assert(t >= 1 ==> t * e >= 2) by (nonlinear_arith)
            requires
                e >= 2,
        ;
        assert(0 * e == 0);
    } else {
        lemma_whole_double(n as nat);
        let j = (-d.exponent) as nat;
        let y = pow2(j);
        let up = number::upper_end(number::quarter(d));
        binary::lemma_pow2_step(j);
        binary::lemma_pow2_step(j + 1);
        binary::lemma_pow2_step(j + 2);
        vstd::arithmetic::power2::lemma_pow2_pos(j);
        assert(up.den() == 8 * y);
        assert(up.num() == 2 * (n * y) + 1);
        if n >= 4 * t {
            assert(t * (8 * y) <= 2 * (n * y)) by (nonlinear_arith)
                requires
                    n >= 4 * t,
                    y > 0,
            ;
        } else {
            assert(t * (8 * y) >= 2 * (n * y) + 2) by (nonlinear_arith)
                requires
                    4 * t >= n + 1,
                    y >= 1,
            ;
        }
    }
}

// ---------------------------------------------------------------------------
// Texts
// ---------------------------------------------------------------------------

proof fn lemma_padded_value(n: nat, width: nat)
    ensures
        text::all_digits(text::dec_padded(n, width)),
        text::dec_padded(n, width).len() == width,
        text::dec_value(text::dec_padded(n, width)) == n % pow10(width),
    decreases width,
{
    crate::json::lemma_padded_digits(n, width);
    number::lemma_pow10_positive(width);
    if width == 0 {
        assert(n % 1 == 0);
    } else {
        let w = (width - 1) as nat;
        let p = pow10(w);
        lemma_padded_value(n / 10, w);
        number::lemma_pow10_positive(w);
        let s = text::dec_padded(n, width);
        assert(s.drop_last() =~= text::dec_padded(n / 10, w));
        assert(pow10(width) == 10 * p);
        assert(n % (10 * p) == (n / 10) % p * 10 + n % 10) by {
            vstd::arithmetic::div_mod::lemma_mod_breakdown(n as int, 10, p as int);
            assert(10 * ((n / 10) % p) == (n / 10) % p * 10);
        }
    }
}

/// A value's text is digits, a point and `places` digits, which together write the number
/// of units in the last place that is nearest to the value.
pub proof fn law_fixed_text_is_nearest(r: Ratio, places: nat)
    requires
        places > 0,
        r.double().den() > 0,
    ensures
        ({
            let t = r.fixed_text(places);
            let a = t.take(t.len() - places - 1);
            let f = t.skip(t.len() - places);
            let n = text::dec_value(a + f);
            let (num, den) = (r.double().num(), r.double().den());
            &&& t.len() > places + 1
            &&& t[t.len() - places - 1] == '.'
            &&& text::all_digits(a)
            &&& text::all_digits(f)
            &&& 2 * (n * den) <= 2 * (num * pow10(places)) + den
            &&& 2 * (num * pow10(places)) <= 2 * (n * den) + den
        }),
{
    reveal(Ratio::fixed_text);
    reveal_strlit(".");
    let (num, den) = (r.double().num(), r.double().den());
    let p = pow10(places);
    number::lemma_pow10_positive(places);
    let n = number::rounded(num * p, den);
    lemma_rounded_error(num * p, den);
    let q = text::dec_text(n / p);
    let f = text::dec_padded(n % p, places);
    text::lemma_dec_text_value(n / p);
    lemma_padded_value(n % p, places);
    let t = r.fixed_text(places);
    assert(t == q + "."@ + f);
    assert(t.take(t.len() - places - 1) =~= q);
    assert(t.skip(t.len() - places) =~= f);
    lemma_split_digits(n, places);
}

proof fn lemma_split_digits(n: nat, places: nat)
    ensures
        ({
            let q = text::dec_text(n / pow10(places));
            let f = text::dec_padded(n % pow10(places), places);
            &&& q.len() > 0
            &&& text::all_digits(q)
            &&& text::all_digits(f)
            &&& f.len() == places
            &&& text::dec_value(q + f) == n
        }),
{
    let p = pow10(places);
    number::lemma_pow10_positive(places);
    let q = text::dec_text(n / p);
    let f = text::dec_padded(n % p, places);
    text::lemma_dec_text_value(n / p);
    lemma_padded_value(n % p, places);
    let d = q + f;
    assert forall|j: int| 0 <= j < d.len() implies '0' <= #[trigger] d[j] <= '9' by {
        if j < q.len() {
            assert(d[j] == q[j]);
        } else {
            assert(d[j] == f[j - q.len()]);
        }
    }
    number::lemma_dec_value_split(d, q.len() as int);
    assert(d.take(q.len() as int) =~= q);
    assert(d.skip(q.len() as int) =~= f);
    vstd::arithmetic::div_mod::lemma_fundamental_div_mod(n as int, p as int);
    assert((n / p) * p == p * (n / p)) by (nonlinear_arith);
    assert((n % p) % p == n % p) by {
        vstd::arithmetic::div_mod::lemma_mod_twice(n as int, p as int);
    }
}

/// A whole number below 2^53 is written as it is, with zeros behind the point.
pub proof fn law_whole_numbers_are_written_whole(n: u64, places: nat)
    requires
        n < 0x20_0000_0000_0000,
    ensures
        ({
            let r = Ratio { num: n, den: 1, scale: Scale::One };
            &&& r.fixed_text(0) == text::dec_text(n as nat)
            &&& places > 0 ==> r.fixed_text(places) == text::dec_text(n as nat) + "."@
                + text::dec_padded(0, places)
        }),
{
    reveal(Ratio::fixed_text);
    binary::lemma_bits();
    let r = Ratio { num: n, den: 1, scale: Scale::One };
    let d = r.double();
    number::lemma_pow10_positive(places);
    let p = pow10(places);
    assert(pow10(0) == 1);
    assert(d.den() > 0 && d.num() == n * d.den()) by {
        if n > 0 {
            lemma_whole_double(n as nat);
            vstd::arithmetic::power2::lemma_pow2_pos((-d.exponent) as nat);
        } else {
            assert(0 * pow2(0) == 0);
            assert(0 * d.den() == 0);
        }
    }
    lemma_exact_rounding(n as nat, p, d.den(), d.num());
    lemma_exact_rounding(n as nat, 1, d.den(), d.num());
    assert(n * 1 == n);
    vstd::arithmetic::div_mod::lemma_div_multiples_vanish(n as int, p as int);
    vstd::arithmetic::div_mod::lemma_mod_multiples_basic(n as int, p as int);
    assert((n * p) / (p as int) == n) by {
        assert(n * p == p * n) by (nonlinear_arith);
    }
}

proof fn lemma_exact_rounding(n: nat, p: nat, den: nat, num: nat)
    requires
        den > 0,
        num == n * den,
    ensures
        number::rounded(num * p, den) == n * p,
{
    let v = n * p;
    assert(num * p == v * den) by (nonlinear_arith)
        requires
            num == n * den,
            v == n * p,
    ;
    vstd::arithmetic::div_mod::lemma_div_multiples_vanish(v as int, den as int);
    vstd::arithmetic::div_mod::lemma_mod_multiples_basic(v as int, den as int);
    assert(v * den == den * v) by (nonlinear_arith);
    assert((num * p) / den == v);
    assert((num * p) % den == 0);
}

/// The next smaller double.
pub open spec fn next_below(d: Double) -> Double {
    if d.mantissa == pow2(52) {
        Double { mantissa: (pow2(53) - 1) as nat, exponent: d.exponent - 1 }
    } else {
        Double { mantissa: (d.mantissa - 1) as nat, exponent: d.exponent }
    }
}

/// A double's shortest text reads back as that double: read as a threshold, the double
/// reaches it and the next smaller one does not.
pub proof fn law_shortest_text_reads_back(d: Double)
    requires
        shortest::is_in_range(d),
    ensures
        ({
            let t = number::number_value(shortest::plain_text(d));
            &&& t is Some
            &&& number::reaches(d, t->0)
            &&& !number::reaches(next_below(d), t->0)
        }),
{
    binary::lemma_bits();
    shortest::lemma_written_multiple_reads_back(d);
    let k = shortest::coarsest(d);
    let n = shortest::nearest_multiple(d, k);
    let b = next_below(d);
    assert(number::upper_end(b) == number::lower_end(d));
    assert(b.mantissa > 0);
    let (hn, hd) = (number::upper_end(d).num(), number::upper_end(d).den());
    let (ln, ld) = (number::lower_end(d).num(), number::lower_end(d).den());
    let none = Seq::<char>::empty();
    let strict = d.mantissa % 2 == 1;
    assert((b.mantissa % 2 == 1) == !strict);
    if k >= 0 {
        let v = n * pow10(k as nat);
        text::lemma_dec_text_value(v);
        written::law_decimal_numbers_are_read(text::dec_text(v), none);
        assert(pow10(0) == 1);
        assert(v * 1 == v);
        assert(number::quotient_passes(hn, hd, n, k, strict) == number::quotient_passes(
            hn,
            hd,
            v,
            0,
            strict,
        ));
        assert(number::quotient_passes(ln, ld, n, k, !strict) == number::quotient_passes(
            ln,
            ld,
            v,
            0,
            !strict,
        ));
    } else {
        let places = (-k) as nat;
        let q = text::dec_text(n / pow10(places));
        let f = text::dec_padded(n % pow10(places), places);
        lemma_split_digits(n, places);
        written::law_decimal_numbers_are_read(q, f);
        reveal_strlit(".");
        assert("."@ =~= seq!['.']);
    }
}

} // verus!
