//! The shortest decimal text that reads back as a double.

use vstd::arithmetic::power2::pow2;
use vstd::prelude::*;

use crate::binary;
use crate::binary::{Binary, Double};
use crate::number;
use crate::number::{lower_end, passes, pow10, quotient_passes, upper_end};
use crate::text;

verus! {

/// The decimal `n * 10^k` is read as the double `d`: it lies between the midpoints to the
/// neighbours, or on one of them and the tie goes to `d`.
pub open spec fn reads_back(n: nat, k: int, d: Double) -> bool {
    let odd = d.mantissa % 2 == 1;
    &&& quotient_passes(upper_end(d).num(), upper_end(d).den(), n, k, odd)
    &&& !quotient_passes(lower_end(d).num(), lower_end(d).den(), n, k, !odd)
}

/// `d` is at least `n * 10^k`.
pub open spec fn is_at_least(d: Double, n: nat, k: int) -> bool {
    quotient_passes(d.num(), d.den(), n, k, false)
}

/// `n` is how many whole times `10^k` goes into `d`.
pub open spec fn is_whole_part(d: Double, k: int, n: nat) -> bool {
    is_at_least(d, n, k) && !is_at_least(d, n + 1, k)
}

/// How many whole times `10^k` goes into `d`.
pub open spec fn whole_part(d: Double, k: int) -> nat {
    choose|n: nat| is_whole_part(d, k, n)
}

/// The multiple of `10^k` that reads back as `d` and is nearest to it, the upper one in a
/// tie.
pub open spec fn nearest_multiple(d: Double, k: int) -> nat {
    let n = whole_part(d, k);
    if reads_back(n, k, d) && (!reads_back(n + 1, k, d) || !is_at_least(d, 10 * n + 5, k - 1)) {
        n
    } else {
        n + 1
    }
}

/// Some multiple of `10^k` reads back as `d`, and of no greater power of ten.
pub open spec fn is_coarsest(d: Double, k: int) -> bool {
    &&& exists|n: nat| reads_back(n, k, d)
    &&& forall|n: nat, j: int| j > k ==> !#[trigger] reads_back(n, j, d)
}

/// The greatest power of ten with a multiple that reads back as `d`.
pub open spec fn coarsest(d: Double) -> int {
    choose|k: int| is_coarsest(d, k)
}

/// `n * 10^k`, written out.
pub open spec fn decimal_text(n: nat, k: int) -> Seq<char> {
    if k >= 0 {
        text::dec_text(n * pow10(k as nat))
    } else {
        text::dec_text(n / pow10((-k) as nat)) + "."@ + text::dec_padded(
            n % pow10((-k) as nat),
            (-k) as nat,
        )
    }
}

/// The shortest text that reads back as `d`.
pub open spec fn plain_text(d: Double) -> Seq<char> {
    if d.mantissa == 0 {
        text::dec_text(0)
    } else {
        decimal_text(nearest_multiple(d, coarsest(d)), coarsest(d))
    }
}

// ---------------------------------------------------------------------------
// One scale for all
// ---------------------------------------------------------------------------

/// A number of the form `m * 2^e`, counted in units of `2^-200 * 10^-60`.
spec fn binary_count(m: nat, e: int) -> nat {
    m * pow2((e + 200) as nat) * pow10(60)
}

/// A number of the form `n * 10^k`, counted in units of `2^-200 * 10^-60`.
spec fn decimal_count(n: nat, k: int) -> nat {
    n * (pow10((k + 60) as nat) * pow2(200))
}

proof fn lemma_pow10_adds(a: nat, b: nat)
    ensures
        pow10(a + b) == pow10(a) * pow10(b),
    decreases a,
{
    if a == 0 {
        assert(pow10(0) == 1);
        assert(1 * pow10(b) == pow10(b));
    } else {
        lemma_pow10_adds((a - 1) as nat, b);
        let (x, y) = (pow10((a - 1) as nat), pow10(b));
        assert(10 * (x * y) == (10 * x) * y) by (nonlinear_arith);
    }
}

proof fn lemma_passes_scaled(a: nat, b: nat, c: nat, strict: bool)
    requires
        c > 0,
    ensures
        passes(a, b, strict) == passes(a * c, b * c, strict),
{
    assert(a > b <==> a * c > b * c) by (nonlinear_arith)
        requires
            c > 0,
    ;
    assert(a >= b <==> a * c >= b * c) by (nonlinear_arith)
        requires
            c > 0,
    ;
}

/// Comparing a binary with a decimal number is comparing their counts.
proof fn lemma_counts(m: nat, e: int, n: nat, k: int, strict: bool)
    requires
        e >= -200,
        k >= -60,
    ensures
        ({
            let d = Double { mantissa: m, exponent: e };
            quotient_passes(d.num(), d.den(), n, k, strict) == passes(
                binary_count(m, e),
                decimal_count(n, k),
                strict,
            )
        }),
{
    let (p200, p60) = (pow2(200), pow10(60));
    binary::lemma_pow2_grows(0, 200);
    number::lemma_pow10_positive(60);
    let (pe, pk) = (pow2((e + 200) as nat), pow10((k + 60) as nat));
    binary::lemma_pow2_grows(0, (e + 200) as nat);
    number::lemma_pow10_positive((k + 60) as nat);
    if e >= 0 {
        vstd::arithmetic::power2::lemma_pow2_adds(e as nat, 200);
    } else {
        vstd::arithmetic::power2::lemma_pow2_adds((-e) as nat, (e + 200) as nat);
    }
    if k >= 0 {
        lemma_pow10_adds(k as nat, 60);
    } else {
        lemma_pow10_adds((-k) as nat, (k + 60) as nat);
    }
    if e >= 0 && k >= 0 {
        let (x, y) = (pow2(e as nat), pow10(k as nat));
        let c = p200 * p60;
        assert(c > 0) by (nonlinear_arith)
            requires
                p200 > 0,
                p60 > 0,
                c == p200 * p60,
        ;
        lemma_passes_scaled(m * x, n * y * 1, c, strict);
        assert((m * x) * c == m * (x * p200) * p60) by (nonlinear_arith)
            requires
                c == p200 * p60,
        ;
        assert((n * y * 1) * c == n * ((y * p60) * p200)) by (nonlinear_arith)
            requires
                c == p200 * p60,
        ;
    } else if e >= 0 {
        let (x, z) = (pow2(e as nat), pow10((-k) as nat));
        let c = p200 * pk;
        assert(c > 0) by (nonlinear_arith)
            requires
                p200 > 0,
                pk > 0,
                c == p200 * pk,
        ;
        lemma_passes_scaled((m * x) * z, n * 1, c, strict);
        assert(((m * x) * z) * c == m * (x * p200) * (z * pk)) by (nonlinear_arith)
            requires
                c == p200 * pk,
        ;
        assert((n * 1) * c == n * (pk * p200)) by (nonlinear_arith)
            requires
                c == p200 * pk,
        ;
    } else if k >= 0 {
        let (w, y) = (pow2((-e) as nat), pow10(k as nat));
        let c = pe * p60;
        assert(c > 0) by (nonlinear_arith)
            requires
                pe > 0,
                p60 > 0,
                c == pe * p60,
        ;
        lemma_passes_scaled(m, n * y * w, c, strict);
        assert(m * c == m * pe * p60) by (nonlinear_arith)
            requires
                c == pe * p60,
        ;
        assert((n * y * w) * c == n * ((y * p60) * (w * pe))) by (nonlinear_arith)
            requires
                c == pe * p60,
        ;
    } else {
        let (w, z) = (pow2((-e) as nat), pow10((-k) as nat));
        let c = pe * pk;
        assert(c > 0) by (nonlinear_arith)
            requires
                pe > 0,
                pk > 0,
                c == pe * pk,
        ;
        lemma_passes_scaled(m * z, n * w, c, strict);
        assert((m * z) * c == m * pe * (z * pk)) by (nonlinear_arith)
            requires
                c == pe * pk,
        ;
        assert((n * w) * c == n * (pk * (w * pe))) by (nonlinear_arith)
            requires
                c == pe * pk,
        ;
    }
}

/// A quarter of the gap above `d`, counted.
spec fn quarter_gap(d: Double) -> nat {
    pow2((d.exponent + 198) as nat) * pow10(60)
}

/// One step of `10^k`, counted.
spec fn step(k: int) -> nat {
    pow10((k + 60) as nat) * pow2(200)
}

/// Where `d` ends below, counted in quarters of the gap above it.
spec fn low_quarters(d: Double) -> nat {
    if d.mantissa == pow2(52) {
        (4 * d.mantissa - 1) as nat
    } else {
        (4 * d.mantissa - 2) as nat
    }
}

/// A double of the magnitudes that measured values have.
pub open spec fn is_in_range(d: Double) -> bool {
    pow2(52) <= d.mantissa < pow2(53) && -117 <= d.exponent <= 26
}

/// Reading back and comparing, in counts.
proof fn lemma_in_counts(d: Double, n: nat, k: int)
    requires
        is_in_range(d),
        k >= -60,
    ensures
        quarter_gap(d) > 0,
        step(k) > 0,
        is_at_least(d, n, k) <==> 4 * d.mantissa * quarter_gap(d) >= n * step(k),
        reads_back(n, k, d) <==> passes(
            (4 * d.mantissa + 2) as nat * quarter_gap(d),
            n * step(k),
            d.mantissa % 2 == 1,
        ) && !passes(low_quarters(d) * quarter_gap(d), n * step(k), d.mantissa % 2 == 0),
{
    binary::lemma_bits();
    let (m, e) = (d.mantissa, d.exponent);
    lemma_counts(m, e, n, k, false);
    lemma_counts(2 * m + 1, e - 1, n, k, m % 2 == 1);
    let q = pow2((e + 198) as nat);
    let t = pow10(60);
    binary::lemma_pow2_step((e + 198) as nat);
    binary::lemma_pow2_step((e + 199) as nat);
    number::lemma_pow10_positive(60);
    number::lemma_pow10_positive((k + 60) as nat);
    binary::lemma_pow2_grows(0, 200);
    let (a, b) = (pow10((k + 60) as nat), pow2(200));
    assert(a * b > 0) by (nonlinear_arith)
        requires
            a > 0,
            b > 0,
    ;
    assert(q * t > 0) by (nonlinear_arith)
        requires
            q > 0,
            t > 0,
    ;
    assert(m * (2 * (2 * q)) * t == 4 * m * (q * t)) by (nonlinear_arith);
    let up = 2 * m + 1;
    assert(up * (2 * q) * t == (4 * m + 2) * (q * t)) by (nonlinear_arith)
        requires
            up == 2 * m + 1,
    ;
    if m == pow2(52) {
        let low = (4 * m - 1) as nat;
        lemma_counts(low, e - 2, n, k, m % 2 == 0);
        assert(low * q * t == low * (q * t)) by (nonlinear_arith);
    } else {
        let low = (2 * m - 1) as nat;
        lemma_counts(low, e - 1, n, k, m % 2 == 0);
        let twice = (4 * m - 2) as nat;
        assert(low * (2 * q) * t == twice * (q * t)) by (nonlinear_arith)
            requires
                twice == 2 * low,
        ;
    }
}

proof fn lemma_steps_monotone(a: nat, b: nat, s: nat)
    requires
        a <= b,
    ensures
        a * s <= b * s,
{
    assert(a * s <= b * s) by (nonlinear_arith)
        requires
            a <= b,
    ;
}

/// There is one whole part.
proof fn lemma_whole_part(d: Double, k: int, n: nat)
    requires
        is_in_range(d),
        k >= -60,
        is_whole_part(d, k, n),
    ensures
        whole_part(d, k) == n,
{
    let w = whole_part(d, k);
    assert(is_whole_part(d, k, w));
    lemma_in_counts(d, n, k);
    lemma_in_counts(d, n + 1, k);
    lemma_in_counts(d, w, k);
    lemma_in_counts(d, w + 1, k);
    if n < w {
        lemma_steps_monotone(n + 1, w, step(k));
    } else if w < n {
        lemma_steps_monotone(w + 1, n, step(k));
    }
}

/// Where neither neighbour on the grid of `10^k` reads back, no multiple does.
proof fn lemma_none_reads_back(d: Double, k: int, f: nat)
    requires
        is_in_range(d),
        k >= -60,
        is_whole_part(d, k, f),
        !reads_back(f, k, d),
        !reads_back(f + 1, k, d),
    ensures
        forall|n: nat| !#[trigger] reads_back(n, k, d),
{
    binary::lemma_bits();
    let g = quarter_gap(d);
    let s = step(k);
    let m = d.mantissa;
    lemma_in_counts(d, f, k);
    lemma_in_counts(d, f + 1, k);
    assert((4 * m + 2) * g == 4 * m * g + 2 * g) by (nonlinear_arith);
    assert(low_quarters(d) * g < 4 * m * g) by (nonlinear_arith)
        requires
            low_quarters(d) < 4 * m,
            g > 0,
    ;
    assert forall|n: nat| !#[trigger] reads_back(n, k, d) by {
        lemma_in_counts(d, n, k);
        if n <= f {
            lemma_steps_monotone(n, f, s);
        } else {
            lemma_steps_monotone(f + 1, n, s);
        }
    }
}

/// On a grid finer than a quarter of the gap the whole part reads back.
proof fn lemma_fine_reads_back(d: Double, k: int, f: nat)
    requires
        is_in_range(d),
        k >= -60,
        is_whole_part(d, k, f),
        step(k) <= quarter_gap(d),
    ensures
        reads_back(f, k, d),
{
    binary::lemma_bits();
    let g = quarter_gap(d);
    let s = step(k);
    let m = d.mantissa;
    lemma_in_counts(d, f, k);
    lemma_in_counts(d, f + 1, k);
    assert((f + 1) * s == f * s + s) by (nonlinear_arith);
    assert((4 * m + 2) * g == 4 * m * g + 2 * g) by (nonlinear_arith);
    let low = low_quarters(d);
    assert(low * g + g <= 4 * m * g) by (nonlinear_arith)
        requires
            low + 1 <= 4 * m,
    ;
}

/// On a coarser grid the whole part is small.
proof fn lemma_coarse_is_small(d: Double, k: int, f: nat)
    requires
        is_in_range(d),
        k >= -60,
        is_whole_part(d, k, f),
        step(k) > quarter_gap(d),
    ensures
        f < 0x80_0000_0000_0000,
{
    binary::lemma_bits();
    let g = quarter_gap(d);
    let s = step(k);
    let m = d.mantissa;
    lemma_in_counts(d, f, k);
    if f >= 0x80_0000_0000_0000 {
        assert(f * s > 4 * m * g) by (nonlinear_arith)
            requires
                f >= 0x80_0000_0000_0000,
                4 * m < 0x80_0000_0000_0000,
                s > g,
                g > 0,
                m >= 0,
        ;
    }
}

/// No multiple of a great power of ten reads back.
proof fn lemma_great_powers(d: Double)
    requires
        is_in_range(d),
    ensures
        forall|n: nat, k: int| k >= 25 ==> !#[trigger] reads_back(n, k, d),
{
    binary::lemma_bits();
    let g = quarter_gap(d);
    let m = d.mantissa;
    assert forall|n: nat, k: int| k >= 25 implies !#[trigger] reads_back(n, k, d) by {
        lemma_in_counts(d, n, k);
        if n == 0 {
            assert(0 * step(k) == 0);
            let low = low_quarters(d);
            assert(low * g > 0) by (nonlinear_arith)
                requires
                    low > 0,
                    g > 0,
            ;
        } else {
            // The step is above 2^80, and the number is not.
            let (t, p) = (pow10(60), pow2(200));
            lemma_pow10_adds(25, 60);
            number::lemma_pow10_grows(85, (k + 60) as nat);
            reveal_with_fuel(pow10, 26);
            assert(pow10(25) == 10_000_000_000_000_000_000_000_000);
            number::lemma_pow10_positive(60);
            binary::lemma_pow2_grows((d.exponent + 198) as nat, 224);
            vstd::arithmetic::power2::lemma_pow2_adds(24, 200);
            vstd::arithmetic::power2::lemma2_to64();
            assert(pow2(24) == 0x100_0000);
            let a = pow10((k + 60) as nat);
            assert(step(k) >= 10_000_000_000_000_000_000_000_000 * (t * p)) by (nonlinear_arith)
                requires
                    step(k) == a * p,
                    a >= 10_000_000_000_000_000_000_000_000 * t,
            ;
            let q = pow2((d.exponent + 198) as nat);
            assert(g <= 0x100_0000 * (t * p)) by (nonlinear_arith)
                requires
                    g == q * t,
                    q <= 0x100_0000 * p,
            ;
            let tp = t * p;
            binary::lemma_pow2_grows(0, 200);
            assert(tp > 0) by (nonlinear_arith)
                requires
                    t > 0,
                    p > 0,
                    tp == t * p,
            ;
            assert((4 * m + 2) * g <= 0x80_0000_0000_0002 * (0x100_0000 * tp)) by (nonlinear_arith)
                requires
                    4 * m + 2 <= 0x80_0000_0000_0002,
                    0 <= g <= 0x100_0000 * tp,
            ;
            assert(n * step(k) >= step(k)) by (nonlinear_arith)
                requires
                    n >= 1,
            ;
            assert((4 * m + 2) * g < n * step(k));
        }
    }
}

/// At `10^-38` the grid is finer than a quarter of any gap.
proof fn lemma_finest(d: Double)
    requires
        is_in_range(d),
    ensures
        step(-38) <= quarter_gap(d),
{
    binary::lemma_bits();
    lemma_pow10_adds(38, 22);
    binary::lemma_pow2_grows(81, (d.exponent + 198) as nat);
    vstd::arithmetic::power2::lemma_pow2_adds(81, 119);
    let (x, y) = (pow10(38), pow10(22));
    let (p, q) = (pow2(81), pow2(119));
    assert(q <= x) by {
        vstd::arithmetic::power2::lemma2_to64();
        vstd::arithmetic::power2::lemma2_to64_rest();
        vstd::arithmetic::power2::lemma_pow2_adds(64, 55);
        reveal_with_fuel(pow10, 39);
        assert(pow10(38) == 100_000_000_000_000_000_000_000_000_000_000_000_000);
    }
    let g = pow2((d.exponent + 198) as nat);
    number::lemma_pow10_positive(22);
    assert(y * (p * q) <= g * (x * y)) by (nonlinear_arith)
        requires
            p <= g,
            q <= x,
            y > 0,
    ;
}

/// The shortest text that reads back as a double.
pub fn plain(b: Binary) -> (s: String)
    requires
        b@.is_normal(),
        -117 <= b.exponent <= 26,
    ensures
        s@ == plain_text(b@),
        b.mantissa > 0 ==> reads_back(
            nearest_multiple(b@, coarsest(b@)),
            coarsest(b@),
            b@,
        ),
{
    if b.mantissa == 0 {
        return text::decimal(0);
    }
    let ghost d = b@;
    proof {
        binary::lemma_bits();
        lemma_great_powers(d);
    }
    let (num, den) = number::as_quotient(b.mantissa, b.exponent);
    let whole: u128 = num / den;
    let mut k: i32 = 24;
    loop
        invariant
            is_in_range(d),
            d == b@,
            b@.is_normal(),
            0 <= k <= 24,
            num == d.num(),
            den == d.den(),
            0 < den <= number::MAX_DEN,
            num <= number::LIMIT,
            whole == num / den,
            forall|n: nat, j: int| j > k ==> !#[trigger] reads_back(n, j, d),
        ensures
            k == 0,
            forall|n: nat, j: int| j >= 0 ==> !#[trigger] reads_back(n, j, d),
            whole < 0x80_0000_0000_0000,
        decreases k,
    {
        let t: u128 = ten_to(k as u32);
        let f: u128 = whole / t;
        proof {
            lemma_whole_at(d, num as nat, den as nat, k as nat, f as nat);
        }
        let (down, up) = neighbours(b, f, k);
        if down || up {
            proof {
                lemma_coarsest(d, k as int, f as nat);
            }
            return write(b, num, den, f, k, down, up);
        }
        proof {
            lemma_none_reads_back(d, k as int, f as nat);
        }
        if k == 0 {
            proof {
                if step(0) <= quarter_gap(d) {
                    lemma_fine_reads_back(d, 0, f as nat);
                }
                lemma_coarse_is_small(d, 0, f as nat);
                reveal_with_fuel(pow10, 1);
                assert(whole / 1 == whole);
            }
            break;
        }
        k = k - 1;
    }
    let mut f: u128 = whole;
    let mut rem: u128 = num % den;
    proof {
        vstd::arithmetic::div_mod::lemma_fundamental_div_mod(num as int, den as int);
        assert(num * pow10(0) == f * den + rem) by {
            assert(pow10(0) == 1);
            assert(num * 1 == num);
            assert(den * whole == whole * den) by (nonlinear_arith);
        }
    }
    loop
        invariant
            is_in_range(d),
            d == b@,
            b@.is_normal(),
            -38 < k <= 0,
            num == d.num(),
            den == d.den(),
            0 < den <= number::MAX_DEN,
            num <= number::LIMIT,
            rem < den,
            f < 0x80_0000_0000_0000,
            num * pow10((-k) as nat) == f * den + rem,
            forall|n: nat, j: int| j >= k ==> !#[trigger] reads_back(n, j, d),
        decreases k + 38,
    {
        let more: u128 = rem * 10;
        let digit: u128 = more / den;
        proof {
            vstd::arithmetic::div_mod::lemma_fundamental_div_mod(more as int, den as int);
            assert(digit < 10) by (nonlinear_arith)
                requires
                    more < 10 * den,
                    more == den * digit + more % den,
                    more % den >= 0,
                    den > 0,
            ;
            let (p, x, y, z, w) = (pow10((-k) as nat), num, f, den, digit);
            assert(x * (10 * p) == 10 * (x * p)) by (nonlinear_arith);
            assert((10 * y + w) * z == 10 * (y * z) + z * w) by (nonlinear_arith);
        }
        f = 10 * f + digit;
        rem = more % den;
        k = k - 1;
        proof {
            assert((f + 1) * den == f * den + den) by (nonlinear_arith);
        }
        let (down, up) = neighbours(b, f, k);
        if down || up {
            proof {
                lemma_coarsest(d, k as int, f as nat);
            }
            return write(b, num, den, f, k, down, up);
        }
        proof {
            if step(k as int) <= quarter_gap(d) {
                lemma_fine_reads_back(d, k as int, f as nat);
            }
            lemma_coarse_is_small(d, k as int, f as nat);
            lemma_none_reads_back(d, k as int, f as nat);
            if k == -38 {
                lemma_finest(d);
            }
        }
    }
}

/// Ten to the power `k`.
fn ten_to(k: u32) -> (r: u128)
    requires
        k <= 38,
    ensures
        r == pow10(k as nat),
        r > 0,
{
    let mut r: u128 = 1;
    let mut i: u32 = 0;
    proof {
        reveal_with_fuel(pow10, 39);
        assert(pow10(38) == 100_000_000_000_000_000_000_000_000_000_000_000_000);
    }
    while i < k
        invariant
            i <= k <= 38,
            r == pow10(i as nat),
            r > 0,
            pow10(38) == 100_000_000_000_000_000_000_000_000_000_000_000_000,
        decreases k - i,
    {
        proof {
            number::lemma_pow10_grows((i + 1) as nat, 38);
        }
        r = r * 10;
        i = i + 1;
    }
    r
}

/// Division by `10^k` leaves the whole part.
proof fn lemma_whole_at(d: Double, num: nat, den: nat, k: nat, f: nat)
    requires
        num == d.num(),
        den == d.den(),
        den > 0,
        f == num / den / pow10(k),
    ensures
        is_whole_part(d, k as int, f),
{
    number::lemma_pow10_positive(k);
    let t = pow10(k);
    let unit = den * t;
    assert(unit > 0) by (nonlinear_arith)
        requires
            den > 0,
            t > 0,
            unit == den * t,
    ;
    vstd::arithmetic::div_mod::lemma_div_denominator(num as int, den as int, t as int);
    vstd::arithmetic::div_mod::lemma_fundamental_div_mod(num as int, unit as int);
    let r = num % unit;
    assert(num == unit * f + r && r < unit);
    assert(f * t * den == unit * f) by (nonlinear_arith)
        requires
            unit == den * t,
    ;
    assert((f + 1) * t * den == unit * f + unit) by (nonlinear_arith)
        requires
            unit == den * t,
    ;
}

/// Where a neighbour reads back and no multiple of a greater power does, this is the
/// coarsest grid.
proof fn lemma_coarsest(d: Double, k: int, f: nat)
    requires
        is_in_range(d),
        k >= -60,
        is_whole_part(d, k, f),
        reads_back(f, k, d) || reads_back(f + 1, k, d),
        forall|n: nat, j: int| j > k ==> !#[trigger] reads_back(n, j, d),
    ensures
        coarsest(d) == k,
        whole_part(d, k) == f,
{
    lemma_whole_part(d, k, f);
    assert(is_coarsest(d, k));
    let c = coarsest(d);
    assert(is_coarsest(d, c));
    let n = choose|n: nat| reads_back(n, c, d);
    if c < k {
        let w = if reads_back(f, k, d) {
            f
        } else {
            f + 1
        };
        assert(reads_back(w, k, d));
    }
}

/// Whether `f * 10^k` and the next multiple of `10^k` read back as the double.
fn neighbours(b: Binary, f: u128, k: i32) -> (r: (bool, bool))
    requires
        is_in_range(b@),
        -38 <= k <= 24,
        f <= number::LIMIT,
    ensures
        r.0 == reads_back(f as nat, k as int, b@),
        r.1 == reads_back((f + 1) as nat, k as int, b@),
{
    (is_read_as(b, f, k), is_read_as(b, f + 1, k))
}

fn is_read_as(b: Binary, n: u128, k: i32) -> (r: bool)
    requires
        is_in_range(b@),
        -38 <= k <= 24,
    ensures
        r == reads_back(n as nat, k as int, b@),
{
    let s = text::decimal(n);
    let digits = text::chars_of(s.as_str());
    proof {
        binary::lemma_bits();
        text::lemma_dec_text_value(n as nat);
    }
    let odd = b.mantissa % 2 == 1;
    let (up, up_den) = number::end_above(b);
    let (low, low_den) = if b.mantissa == 0x10_0000_0000_0000 {
        number::as_quotient(4 * b.mantissa - 1, b.exponent - 2)
    } else {
        number::as_quotient(2 * b.mantissa - 1, b.exponent - 1)
    };
    number::number_passes(up, up_den, digits.as_slice(), k as i128, odd) && !number::number_passes(
        low,
        low_den,
        digits.as_slice(),
        k as i128,
        !odd,
    )
}

/// Writes the multiple of `10^k` that is nearest to the double.
fn write(b: Binary, num: u128, den: u128, f: u128, k: i32, down: bool, up: bool) -> (s: String)
    requires
        is_in_range(b@),
        -38 <= k <= 24,
        f <= number::LIMIT,
        num == b@.num(),
        den == b@.den(),
        0 < den <= number::MAX_DEN,
        num <= number::LIMIT,
        down == reads_back(f as nat, k as int, b@),
        up == reads_back((f + 1) as nat, k as int, b@),
        down || up,
        coarsest(b@) == k,
        whole_part(b@, k as int) == f,
    ensures
        s@ == plain_text(b@),
        b.mantissa > 0 ==> reads_back(
            nearest_multiple(b@, coarsest(b@)),
            coarsest(b@),
            b@,
        ),
{
    proof {
        binary::lemma_bits();
    }
    let n: u128 = if down && (!up || !is_past_half(num, den, f, k)) {
        f
    } else {
        f + 1
    };
    assert(n == nearest_multiple(b@, k as int));
    if k >= 0 {
        let t: u128 = ten_to(k as u32);
        let (top, top_den) = number::end_above(b);
        proof {
            let (x, y, z) = (n as nat, t as nat, top_den as nat);
            assert(x * y * z >= x * y) by (nonlinear_arith)
                requires
                    z >= 1,
            ;
        }
        text::decimal(n * t)
    } else {
        let t: u128 = ten_to((-k) as u32);
        let mut s = text::decimal(n / t);
        s.append(".");
        let fraction = text::padded_decimal(n % t, (-k) as u32);
        s.append(fraction.as_str());
        s
    }
}

/// Whether `num / den` is at least half way from `f * 10^k` to the next multiple.
fn is_past_half(num: u128, den: u128, f: u128, k: i32) -> (r: bool)
    requires
        -38 <= k <= 24,
        f <= number::LIMIT,
        0 < den <= number::MAX_DEN,
        num <= number::LIMIT,
    ensures
        r == quotient_passes(num as nat, den as nat, (10 * f + 5) as nat, k - 1, false),
{
    let s = text::decimal(10 * f + 5);
    let digits = text::chars_of(s.as_str());
    proof {
        text::lemma_dec_text_value((10 * f + 5) as nat);
    }
    number::number_passes(num, den, digits.as_slice(), k as i128 - 1, false)
}

proof fn lemma_whole_part_exists(d: Double, k: int) -> (f: nat)
    requires
        is_in_range(d),
    ensures
        is_whole_part(d, k, f),
{
    let (num, den) = (d.num(), d.den());
    assert(den > 0) by {
        if d.exponent < 0 {
            vstd::arithmetic::power2::lemma_pow2_pos((-d.exponent) as nat);
        }
    }
    if k >= 0 {
        let f = num / den / pow10(k as nat);
        lemma_whole_at(d, num, den, k as nat, f);
        f
    } else {
        let top = num * pow10((-k) as nat);
        let f = top / den;
        vstd::arithmetic::div_mod::lemma_fundamental_div_mod(top as int, den as int);
        assert(den * f == f * den && (f + 1) * den == f * den + den) by (nonlinear_arith);
        f
    }
}

proof fn lemma_coarsest_exists(d: Double, k: int)
    requires
        is_in_range(d),
        -38 <= k,
        forall|n: nat, j: int| j > k ==> !#[trigger] reads_back(n, j, d),
    ensures
        exists|c: int| -38 <= c && #[trigger] is_coarsest(d, c),
    decreases k + 38,
{
    if exists|n: nat| reads_back(n, k, d) {
        assert(is_coarsest(d, k));
    } else if k == -38 {
        let f = lemma_whole_part_exists(d, k);
        lemma_finest(d);
        lemma_fine_reads_back(d, k, f);
    } else {
        assert forall|n: nat, j: int| j > k - 1 implies !#[trigger] reads_back(n, j, d) by {}
        lemma_coarsest_exists(d, k - 1);
    }
}

/// The multiple that is written reads back as the double, and no multiple of a greater power
/// of ten does.
pub proof fn lemma_written_multiple_reads_back(d: Double)
    requires
        is_in_range(d),
    ensures
        reads_back(nearest_multiple(d, coarsest(d)), coarsest(d), d),
        forall|n: nat, j: int| j > coarsest(d) ==> !#[trigger] reads_back(n, j, d),
{
    lemma_great_powers(d);
    assert forall|n: nat, j: int| j > 25 implies !#[trigger] reads_back(n, j, d) by {}
    lemma_coarsest_exists(d, 25);
    let c = choose|c: int| -38 <= c && #[trigger] is_coarsest(d, c);
    let k = coarsest(d);
    assert(is_coarsest(d, k));
    assert(k == c) by {
        if k < c {
            let n = choose|n: nat| reads_back(n, c, d);
            assert(!reads_back(n, c, d));
        }
        if c < k {
            let n = choose|n: nat| reads_back(n, k, d);
            assert(!reads_back(n, k, d));
        }
    }
    let f = lemma_whole_part_exists(d, k);
    lemma_whole_part(d, k, f);
    if !reads_back(f, k, d) && !reads_back(f + 1, k, d) {
        lemma_none_reads_back(d, k, f);
        let n = choose|n: nat| reads_back(n, k, d);
        assert(!reads_back(n, k, d));
    }
}

} // verus!
