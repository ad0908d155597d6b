//! Numbers: [`Decimal`] for configured thresholds and [`Ratio`] for measured values. Both
//! count as the double that is nearest to them, in comparisons and in text.

use vstd::arithmetic::power2::pow2;
use vstd::prelude::*;
use vstd::slice::slice_subrange;

use crate::binary;
use crate::binary::{Binary, Double};
use crate::text;

verus! {

// ---------------------------------------------------------------------------
// Specifications
// ---------------------------------------------------------------------------

/// Ten to the power `n`.
pub open spec fn pow10(n: nat) -> nat
    decreases n,
{
    if n == 0 {
        1
    } else {
        10 * pow10((n - 1) as nat)
    }
}

/// What a [`Decimal`] stands for.
pub ghost enum Threshold {
    /// Not a number: nothing is below it.
    Undefined,
    /// An infinity.
    Infinite { negative: bool },
    /// `mantissa * 10^exponent`, negated where `negative`.
    Finite { negative: bool, mantissa: nat, exponent: int },
}

/// `a` is at least `b`, or above it where `strict`.
pub open spec fn passes(a: nat, b: nat, strict: bool) -> bool {
    if strict {
        a > b
    } else {
        a >= b
    }
}

/// `num / den` is at least the number `mantissa * 10^exponent`, or above it where `strict`.
pub open spec fn quotient_passes(
    num: nat,
    den: nat,
    mantissa: nat,
    exponent: int,
    strict: bool,
) -> bool {
    if exponent >= 0 {
        passes(num, mantissa * pow10(exponent as nat) * den, strict)
    } else {
        passes(num * pow10((-exponent) as nat), mantissa * den, strict)
    }
}

/// The midpoint between a double and the next one up.
pub open spec fn upper_end(d: Double) -> Double {
    Double { mantissa: 2 * d.mantissa + 1, exponent: d.exponent - 1 }
}

/// The midpoint between a double and the next one down, which is nearer below a power of
/// two.
pub open spec fn lower_end(d: Double) -> Double {
    if d.mantissa == pow2(52) {
        Double { mantissa: (4 * d.mantissa - 1) as nat, exponent: d.exponent - 2 }
    } else {
        Double { mantissa: (2 * d.mantissa - 1) as nat, exponent: d.exponent - 1 }
    }
}

/// The double nearest to `mantissa * 10^exponent` is not above `d`: the number lies below
/// the midpoint between `d` and the next double up, or on it and the tie goes to `d`. The
/// next double above zero is `2^-1074`.
pub open spec fn double_reaches(d: Double, mantissa: nat, exponent: int) -> bool {
    if d.mantissa == 0 {
        quotient_passes(1, pow2(1075), mantissa, exponent, false)
    } else {
        quotient_passes(
            upper_end(d).num(),
            upper_end(d).den(),
            mantissa,
            exponent,
            d.mantissa % 2 == 1,
        )
    }
}

/// The double `d` is not below the threshold.
pub open spec fn reaches(d: Double, t: Threshold) -> bool {
    match t {
        Threshold::Undefined => true,
        Threshold::Infinite { negative } => negative,
        Threshold::Finite { negative, mantissa, exponent } => negative || double_reaches(
            d,
            mantissa,
            exponent,
        ),
    }
}

/// `num / den` rounded to an integer, ties to the even neighbour.
pub open spec fn rounded(num: nat, den: nat) -> nat {
    let q = num / den;
    let r = num % den;
    if 2 * r > den || (2 * r == den && q % 2 == 1) {
        q + 1
    } else {
        q
    }
}

/// `num / den` with `places` decimals, ties to even; a quotient by zero counts as zero.
pub open spec fn fixed_text(num: nat, den: nat, places: nat) -> Seq<char> {
    let n = if den == 0 {
        0
    } else {
        rounded(num * pow10(places), den)
    };
    if places == 0 {
        text::dec_text(n)
    } else {
        text::dec_text(n / pow10(places)) + "."@ + text::dec_padded(n % pow10(places), places)
    }
}

/// The largest magnitude of an exponent that a number's text carries; larger ones
/// count as this one.
pub const MAX_EXPONENT: u64 = 1_000_000_000_000;

/// Where the exponent letter stands, or the length where there is none.
pub open spec fn exponent_at(s: Seq<char>) -> int {
    let a = text::first_at(s, 'e');
    let b = text::first_at(s, 'E');
    if a <= b {
        a
    } else {
        b
    }
}

/// `s` starts with a minus sign.
pub open spec fn is_negative(s: Seq<char>) -> bool {
    s.len() > 0 && s[0] == '-'
}

/// `s` without one leading sign.
pub open spec fn without_sign(s: Seq<char>) -> Seq<char> {
    if s.len() > 0 && (s[0] == '-' || s[0] == '+') {
        s.skip(1)
    } else {
        s
    }
}

/// The exponent that `s` writes: an optional sign and one or more digits.
pub open spec fn exponent_value(s: Seq<char>) -> Option<int> {
    let d = without_sign(s);
    if d.len() == 0 || !text::all_digits(d) {
        None
    } else {
        let n = if text::dec_value(d) > MAX_EXPONENT {
            MAX_EXPONENT as int
        } else {
            text::dec_value(d) as int
        };
        Some(
            if is_negative(s) {
                -n
            } else {
                n
            },
        )
    }
}

/// The digits of a mantissa and how many of them stand behind the point: digits with at
/// most one point among them.
pub open spec fn mantissa_digits(s: Seq<char>) -> Option<(Seq<char>, nat)> {
    let i = text::first_at(s, '.');
    let (digits, places) = if i < s.len() {
        (s.take(i) + s.skip(i + 1), (s.len() - i - 1) as nat)
    } else {
        (s, 0nat)
    };
    if digits.len() > 0 && text::all_digits(digits) {
        Some((digits, places))
    } else {
        None
    }
}

/// `c` in lower case, where it is an ASCII letter.
pub open spec fn lower(c: char) -> char {
    if 'A' <= c <= 'Z' {
        (c as u32 + 32) as char
    } else {
        c
    }
}

/// `s` reads as the lower-case `word`, whatever the case of its letters.
pub open spec fn reads_as(s: Seq<char>, word: Seq<char>) -> bool {
    s.len() == word.len() && forall|i: int| 0 <= i < s.len() ==> lower(#[trigger] s[i]) == word[i]
}

/// The number that `s` writes: an optional sign, then `inf`, `infinity` or `nan` in any
/// case, or digits with an optional point and an optional exponent.
pub open spec fn number_value(s: Seq<char>) -> Option<Threshold> {
    let body = without_sign(s);
    let negative = is_negative(s);
    if reads_as(body, "inf"@) || reads_as(body, "infinity"@) {
        Some(Threshold::Infinite { negative })
    } else if reads_as(body, "nan"@) {
        Some(Threshold::Undefined)
    } else {
        let i = exponent_at(body);
        let power = if i < body.len() {
            exponent_value(body.skip(i + 1))
        } else {
            Some(0int)
        };
        match (mantissa_digits(body.take(i)), power) {
            (Some((digits, places)), Some(e)) => Some(
                Threshold::Finite {
                    negative,
                    mantissa: text::dec_value(digits),
                    exponent: e - places,
                },
            ),
            _ => None,
        }
    }
}

// ---------------------------------------------------------------------------
// Facts
// ---------------------------------------------------------------------------

pub proof fn lemma_pow10_positive(n: nat)
    ensures
        pow10(n) >= 1,
    decreases n,
{
    if n > 0 {
        lemma_pow10_positive((n - 1) as nat);
    }
}

pub proof fn lemma_dec_value_split(s: Seq<char>, i: int)
    requires
        text::all_digits(s),
        0 <= i <= s.len(),
    ensures
        text::dec_value(s) == text::dec_value(s.take(i)) * pow10((s.len() - i) as nat)
            + text::dec_value(s.skip(i)),
        text::dec_value(s.skip(i)) < pow10((s.len() - i) as nat),
    decreases s.len() - i,
{
    if i == s.len() {
        assert(s.take(i) == s);
        assert(text::dec_value(s.skip(i)) == 0);
        let a = text::dec_value(s);
        assert(a * pow10(0) == a) by (nonlinear_arith)
            requires
                pow10(0) == 1,
        ;
    } else {
        let t = s.drop_last();
        assert(text::all_digits(t)) by {
            assert forall|j: int| 0 <= j < t.len() implies '0' <= #[trigger] t[j] <= '9' by {
                assert(t[j] == s[j]);
            }
        }
        lemma_dec_value_split(t, i);
        let w = (t.len() - i) as nat;
        assert(t.take(i) == s.take(i));
        assert(s.skip(i).drop_last() == t.skip(i));
        assert(s.skip(i).last() == s.last());
        assert('0' <= s[s.len() - 1] <= '9');
        let a = text::dec_value(s.take(i));
        let p = pow10(w);
        assert(pow10(w + 1) == 10 * p);
        assert((a * p) * 10 == a * (10 * p)) by (nonlinear_arith);
    }
}

/// Compares `num / den` with `whole + part / unit` by their integer parts.
proof fn lemma_compare(num: nat, den: nat, whole: nat, part: nat, unit: nat)
    requires
        den > 0,
        part < unit,
    ensures
        num / den > whole ==> num * unit > (whole * unit + part) * den,
        num / den < whole ==> num * unit < (whole * unit + part) * den,
        num / den == whole ==> forall|strict: bool| #[trigger]
            passes(num * unit, (whole * unit + part) * den, strict) <==> passes(
                (num % den) * unit,
                part * den,
                strict,
            ),
{
    let q = num / den;
    let r = num % den;
    assert(num == q * den + r && r < den) by {
        vstd::arithmetic::div_mod::lemma_fundamental_div_mod(num as int, den as int);
        vstd::arithmetic::div_mod::lemma_mod_bound(num as int, den as int);
        assert(q * den == den * q) by (nonlinear_arith);
    }
    assert(num * unit == q * (den * unit) + r * unit) by (nonlinear_arith)
        requires
            num == q * den + r,
    ;
    assert((whole * unit + part) * den == whole * (den * unit) + part * den) by (nonlinear_arith);
    let cell = den * unit;
    assert(r * unit < cell) by (nonlinear_arith)
        requires
            r < den,
            part < unit,
            cell == den * unit,
    ;
    assert(part * den < cell) by (nonlinear_arith)
        requires
            part < unit,
            den > 0,
            cell == den * unit,
    ;
    if q > whole {
        assert(q * cell >= whole * cell + cell) by (nonlinear_arith)
            requires
                q >= whole + 1,
        ;
    } else if q < whole {
        assert(whole * cell >= q * cell + cell) by (nonlinear_arith)
            requires
                whole >= q + 1,
        ;
    }
}

// ---------------------------------------------------------------------------
// Decimal
// ---------------------------------------------------------------------------

#[derive(Clone, Copy, Debug, PartialEq, Eq, Structural)]
enum Kind {
    Undefined,
    Infinite,
    Finite,
}

/// A threshold as a configuration writes it: a decimal number of any length, an
/// infinity, or not a number.
#[derive(Debug)]
pub struct Decimal {
    kind: Kind,
    negative: bool,
    digits: Vec<char>,
    exponent: i128,
}

impl View for Decimal {
    type V = Threshold;

    closed spec fn view(&self) -> Threshold {
        match self.kind {
            Kind::Undefined => Threshold::Undefined,
            Kind::Infinite => Threshold::Infinite { negative: self.negative },
            Kind::Finite => Threshold::Finite {
                negative: self.negative,
                mantissa: text::dec_value(self.digits@),
                exponent: self.exponent as int,
            },
        }
    }
}

impl Clone for Decimal {
    fn clone(&self) -> (d: Decimal)
        ensures
            d@ == self@,
    {
        proof {
            use_type_invariant(self);
        }
        let digits = self.digits.clone();
        assert(digits@ =~= self.digits@);
        Decimal { kind: self.kind, negative: self.negative, digits, exponent: self.exponent }
    }
}

impl Decimal {
    #[verifier::type_invariant]
    spec fn well_formed(self) -> bool {
        text::all_digits(self.digits@) && -0x1_0000_0000_0000_0000_0000 < self.exponent < 0x1_0000_0000_0000_0000_0000
    }

    /// `n * 10^-places`.
    pub fn scaled(n: u64, places: u32) -> (d: Decimal)
        ensures
            d@ == (Threshold::Finite {
                negative: false,
                mantissa: n as nat,
                exponent: -(places as int),
            }),
    {
        let s = text::decimal(n as u128);
        let digits = text::chars_of(s.as_str());
        proof {
            text::lemma_dec_text_value(n as nat);
        }
        Decimal { kind: Kind::Finite, negative: false, digits, exponent: -(places as i128) }
    }

    /// Reads a number; `None` where the text writes none.
    pub fn parse(s: &[char]) -> (r: Option<Decimal>)
        ensures
            match r {
                Some(d) => number_value(s@) == Some(d@),
                None => number_value(s@) is None,
            },
    {
        let negative: bool = s.len() > 0 && s[0] == '-';
        let body: &[char] = strip_sign(s);
        if reads(body, "inf") || reads(body, "infinity") {
            return Some(
                Decimal { kind: Kind::Infinite, negative, digits: Vec::new(), exponent: 0 },
            );
        }
        if reads(body, "nan") {
            return Some(
                Decimal { kind: Kind::Undefined, negative, digits: Vec::new(), exponent: 0 },
            );
        }
        let a: usize = text::find(body, 'e');
        let b: usize = text::find(body, 'E');
        let i: usize = if a <= b {
            a
        } else {
            b
        };
        let head = slice_subrange(body, 0, i);
        assert(head@ == body@.take(i as int));
        let power: i128 = if i < body.len() {
            let tail = slice_subrange(body, i + 1, body.len());
            assert(tail@ == body@.skip(i + 1));
            match parse_exponent(tail) {
                Some(e) => e,
                None => {
                    return None;
                },
            }
        } else {
            0
        };
        match parse_mantissa(head) {
            Some((digits, places)) => Some(
                Decimal { kind: Kind::Finite, negative, digits, exponent: power - places as i128 },
            ),
            None => None,
        }
    }

    /// Whether this is a number or an infinity.
    pub fn is_defined(&self) -> (r: bool)
        ensures
            r == !(self@ is Undefined),
    {
        self.kind != Kind::Undefined
    }

    /// Whether a double is not below this threshold.
    pub fn reached_by(&self, b: Binary) -> (r: bool)
        requires
            b@.is_normal(),
            -120 <= b.exponent <= 26,
        ensures
            r == reaches(b@, self@),
    {
        proof {
            use_type_invariant(self);
        }
        match self.kind {
            Kind::Undefined => true,
            Kind::Infinite => self.negative,
            Kind::Finite => {
                if self.negative {
                    true
                } else if b.mantissa == 0 {
                    counts_as_zero(self.digits.as_slice(), self.exponent)
                } else {
                    let (num, den) = end_above(b);
                    number_passes(
                        num,
                        den,
                        self.digits.as_slice(),
                        self.exponent,
                        b.mantissa % 2 == 1,
                    )
                }
            },
        }
    }
}

fn strip_sign<'a>(s: &'a [char]) -> (r: &'a [char])
    ensures
        r@ == without_sign(s@),
        r.len() <= s.len(),
{
    if s.len() > 0 && (s[0] == '-' || s[0] == '+') {
        slice_subrange(s, 1, s.len())
    } else {
        s
    }
}

fn reads(s: &[char], word: &str) -> (r: bool)
    ensures
        r == reads_as(s@, word@),
{
    let w = text::chars_of(word);
    if s.len() != w.len() {
        return false;
    }
    let mut i: usize = 0;
    while i < s.len()
        invariant
            i <= s.len(),
            s.len() == w.len(),
            w@ == word@,
            forall|j: int| 0 <= j < i ==> lower(#[trigger] s@[j]) == w@[j],
        decreases s.len() - i,
    {
        let c: char = s[i];
        let l: char = if 'A' <= c && c <= 'Z' {
            (c as u8 + 32) as char
        } else {
            c
        };
        assert(l == lower(s@[i as int]));
        if l != w[i] {
            return false;
        }
        i += 1;
    }
    true
}

fn parse_exponent(s: &[char]) -> (r: Option<i128>)
    ensures
        match r {
            Some(e) => exponent_value(s@) == Some(e as int),
            None => exponent_value(s@) is None,
        },
        r matches Some(e) ==> -(MAX_EXPONENT as int) <= e <= MAX_EXPONENT,
{
    let negative: bool = s.len() > 0 && s[0] == '-';
    let d = strip_sign(s);
    if d.len() == 0 {
        return None;
    }
    let mut n: u64 = 0;
    let mut i: usize = 0;
    assert(d@.take(0) =~= Seq::empty());
    while i < d.len()
        invariant
            i <= d.len(),
            d@ == without_sign(s@),
            n <= MAX_EXPONENT,
            n == if text::dec_value(d@.take(i as int)) > MAX_EXPONENT {
                MAX_EXPONENT as nat
            } else {
                text::dec_value(d@.take(i as int))
            },
            forall|j: int| 0 <= j < i ==> '0' <= #[trigger] d@[j] <= '9',
        decreases d.len() - i,
    {
        let c: char = d[i];
        if c < '0' || c > '9' {
            assert(!text::all_digits(d@)) by {
                assert(!('0' <= d@[i as int] <= '9'));
            }
            return None;
        }
        assert(d@.take(i + 1).drop_last() == d@.take(i as int));
        n = n * 10 + (c as u32 - 48) as u64;
        if n > MAX_EXPONENT {
            n = MAX_EXPONENT;
        }
        i += 1;
    }
    assert(d@.take(i as int) == d@);
    assert(text::all_digits(d@));
    Some(
        if negative {
            -(n as i128)
        } else {
            n as i128
        },
    )
}

fn parse_mantissa(s: &[char]) -> (r: Option<(Vec<char>, usize)>)
    ensures
        match r {
            Some((digits, places)) => mantissa_digits(s@) == Some((digits@, places as nat))
                && places <= s.len(),
            None => mantissa_digits(s@) is None,
        },
{
    let p: usize = text::find(s, '.');
    let mut digits: Vec<char> = Vec::new();
    let mut i: usize = 0;
    let ghost all = if p < s.len() {
        s@.take(p as int) + s@.skip(p + 1)
    } else {
        s@
    };
    while i < s.len()
        invariant
            i <= s.len(),
            p == text::first_at(s@, '.'),
            p <= s.len(),
            all == (if p < s.len() {
                s@.take(p as int) + s@.skip(p + 1)
            } else {
                s@
            }),
            digits@ == all.take(
                if i > p {
                    i - 1
                } else {
                    i as int
                },
            ),
            text::all_digits(digits@),
        decreases s.len() - i,
    {
        if i != p {
            let c: char = s[i];
            let ghost k: int = if i > p {
                i - 1
            } else {
                i as int
            };
            assert(all[k] == c);
            if c < '0' || c > '9' {
                assert(!text::all_digits(all)) by {
                    assert(!('0' <= all[k] <= '9'));
                }
                return None;
            }
            digits.push(c);
            assert(all.take(k + 1) =~= all.take(k).push(c));
        } else {
            assert(all.take(i as int) =~= all.take(i + 1 - 1));
        }
        i += 1;
    }
    assert(digits@ =~= all);
    if digits.len() == 0 {
        return None;
    }
    let places: usize = if p < s.len() {
        s.len() - p - 1
    } else {
        0
    };
    Some((digits, places))
}

/// No number that is compared with a threshold is above this.
pub const LIMIT: u128 = 0x10_0000_0000_0000_0000_0000_0000;

/// No such number has a greater denominator.
pub const MAX_DEN: u128 = 0x200_0000_0000_0000_0000_0000_0000_0000;

/// The value of the first `end` digits, or `None` where it is above the limit.
fn prefix_value(digits: &[char], end: usize) -> (r: Option<u128>)
    requires
        text::all_digits(digits@),
        end <= digits.len(),
    ensures
        match r {
            Some(n) => n == text::dec_value(digits@.take(end as int)) && n <= LIMIT,
            None => text::dec_value(digits@.take(end as int)) > LIMIT,
        },
{
    let mut acc: u128 = 0;
    let mut i: usize = 0;
    assert(digits@.take(0) =~= Seq::empty());
    while i < end
        invariant
            i <= end <= digits.len(),
            text::all_digits(digits@),
            acc == text::dec_value(digits@.take(i as int)),
            acc <= LIMIT,
        decreases end - i,
    {
        let c: char = digits[i];
        assert('0' <= digits@[i as int] <= '9');
        assert(digits@.take(i + 1).drop_last() == digits@.take(i as int));
        acc = acc * 10 + (c as u32 - 48) as u128;
        i += 1;
        if acc > LIMIT {
            proof {
                let t = digits@.take(end as int);
                assert(text::all_digits(t)) by {
                    assert forall|j: int| 0 <= j < t.len() implies '0' <= #[trigger] t[j] <= '9' by {
                        assert(t[j] == digits@[j]);
                    }
                }
                lemma_dec_value_split(t, i as int);
                assert(t.take(i as int) == digits@.take(i as int));
                lemma_pow10_positive((t.len() - i) as nat);
                let p = pow10((t.len() - i) as nat);
                assert(acc * p >= acc) by (nonlinear_arith)
                    requires
                        p >= 1,
                ;
            }
            return None;
        }
    }
    Some(acc)
}

fn passes_whole(num: u128, den: u128, digits: &[char], exponent: u128, strict: bool) -> (r: bool)
    requires
        0 < den <= MAX_DEN,
        num <= LIMIT,
        text::all_digits(digits@),
    ensures
        r == passes(num as nat, text::dec_value(digits@) * pow10(exponent as nat) * den as nat, strict),
{
    let ghost m = text::dec_value(digits@);
    let ghost v = m * pow10(exponent as nat);
    assert(digits@.take(digits@.len() as int) == digits@);
    proof {
        lemma_pow10_positive(exponent as nat);
        let p = pow10(exponent as nat);
        assert(m * p >= m) by (nonlinear_arith)
            requires
                p >= 1,
        ;
        assert(v * den >= v) by (nonlinear_arith)
            requires
                den >= 1,
        ;
        assert(m == 0 ==> m * p == 0) by (nonlinear_arith);
        assert(v == 0 ==> v * den == 0) by (nonlinear_arith);
    }
    let mut acc: u128 = match prefix_value(digits, digits.len()) {
        Some(n) => n,
        None => {
            return false;
        },
    };
    if acc == 0 {
        return !strict || num > 0;
    }
    let mut k: u128 = exponent;
    while k > 0
        invariant
            0 < acc <= LIMIT,
            num <= LIMIT,
            acc * pow10(k as nat) == v,
            v == text::dec_value(digits@) * pow10(exponent as nat),
            v * den >= v,
        decreases k,
    {
        let ghost p = pow10((k - 1) as nat);
        assert(acc * (10 * p) == (acc * 10) * p) by (nonlinear_arith);
        acc = acc * 10;
        k -= 1;
        if acc > LIMIT {
            proof {
                lemma_pow10_positive(k as nat);
                assert(acc * p >= acc) by (nonlinear_arith)
                    requires
                        p >= 1,
                ;
            }
            return false;
        }
    }
    assert(acc * pow10(0) == acc) by (nonlinear_arith)
        requires
            pow10(0) == 1,
    ;
    let q: u128 = num / den;
    let rem: u128 = num % den;
    proof {
        lemma_compare(num as nat, den as nat, acc as nat, 0, 1);
        let (n, d, a) = (num as nat, den as nat, acc as nat);
        assert(n * 1 == n && (a * 1 + 0) * d == v * d && 0 * d == 0);
        assert(passes(n * 1, (a * 1 + 0) * d, strict) == passes(n, v * d, strict));
    }
    if q != acc {
        q > acc
    } else {
        !strict || rem > 0
    }
}

fn all_zero(digits: &[char], start: usize) -> (r: bool)
    requires
        text::all_digits(digits@),
        start <= digits.len(),
    ensures
        r == (text::dec_value(digits@.skip(start as int)) == 0),
{
    let mut i: usize = start;
    let ghost s = digits@.skip(start as int);
    assert(s.take(0) =~= Seq::empty());
    while i < digits.len()
        invariant
            start <= i <= digits.len(),
            s == digits@.skip(start as int),
            text::all_digits(digits@),
            text::dec_value(s.take(i - start)) == 0,
        decreases digits.len() - i,
    {
        let ghost k = i - start;
        assert(s.take(k + 1).drop_last() == s.take(k));
        assert(s[k] == digits@[i as int]);
        assert('0' <= digits@[i as int] <= '9');
        if digits[i] != '0' {
            proof {
                assert(text::all_digits(s)) by {
                    assert forall|j: int| 0 <= j < s.len() implies '0' <= #[trigger] s[j] <= '9' by {
                        assert(s[j] == digits@[start + j]);
                    }
                }
                lemma_dec_value_split(s, k + 1);
                let a = text::dec_value(s.take(k + 1));
                let p = pow10((s.len() - (k + 1)) as nat);
                lemma_pow10_positive((s.len() - (k + 1)) as nat);
                assert(a > 0);
                assert(a * p > 0) by (nonlinear_arith)
                    requires
                        a > 0,
                        p >= 1,
                ;
            }
            return false;
        }
        i += 1;
    }
    assert(s.take(i - start) =~= s);
    true
}

fn passes_fraction(num: u128, den: u128, digits: &[char], places: u128, strict: bool) -> (r: bool)
    requires
        0 < den <= MAX_DEN,
        num <= LIMIT,
        text::all_digits(digits@),
    ensures
        r == passes(
            num as nat * pow10(places as nat),
            text::dec_value(digits@) * den as nat,
            strict,
        ),
{
    let n: usize = digits.len();
    let split: usize = if n as u128 > places {
        n - places as usize
    } else {
        0
    };
    let ghost m = text::dec_value(digits@);
    let ghost width = (n - split) as nat;
    let ghost unit = pow10(places as nat);
    let ghost f = text::dec_value(digits@.skip(split as int));
    proof {
        lemma_dec_value_split(digits@, split as int);
        lemma_pow10_grows(width, places as nat);
        if split == 0 {
            assert(digits@.take(0) =~= Seq::empty());
        }
    }
    assert(split > 0 ==> width == places);
    let whole: u128 = match prefix_value(digits, split) {
        Some(w) => w,
        None => {
            proof {
                let w = text::dec_value(digits@.take(split as int));
                lemma_compare(num as nat, den as nat, w, f, unit);
                assert(num / den <= num) by {
                    vstd::arithmetic::div_mod::lemma_div_is_ordered_by_denominator(
                        num as int,
                        1,
                        den as int,
                    );
                }
            }
            return false;
        },
    };
    assert(m == whole * unit + f) by {
        if split == 0 {
            assert(whole == 0);
            assert(0 * unit == 0);
            assert(0 * pow10(width) == 0);
        }
    }
    proof {
        lemma_compare(num as nat, den as nat, whole as nat, f, unit);
    }
    let q: u128 = num / den;
    if q != whole {
        return q > whole;
    }
    let mut rem: u128 = num % den;
    let ghost goal = passes(num as nat * unit, m * den as nat, strict);
    assert(goal == passes(rem as nat * unit, f * den as nat, strict));
    // Zeros between the point and the first written digit.
    let mut zeros: u128 = places - (n - split) as u128;
    while zeros > 0
        invariant
            0 < den <= MAX_DEN,
            rem < den,
            zeros + width <= u128::MAX,
            text::all_digits(digits@),
            split <= digits.len(),
            f == text::dec_value(digits@.skip(split as int)),
            f < pow10(width),
            goal == passes(
                num as nat * pow10(places as nat),
                text::dec_value(digits@) * den as nat,
                strict,
            ),
            goal == passes(rem as nat * pow10((zeros + width) as nat), f * den as nat, strict),
        decreases zeros,
    {
        if rem == 0 {
            let z: bool = all_zero(digits, split);
            proof {
                assert(0 * pow10((zeros + width) as nat) == 0);
                if f > 0 {
                    assert(f * den > 0) by (nonlinear_arith)
                        requires
                            f > 0,
                            den > 0,
                    ;
                } else {
                    assert(f * den == 0) by (nonlinear_arith)
                        requires
                            f == 0,
                    ;
                }
            }
            return z && !strict;
        }
        let t: u128 = rem * 10;
        proof {
            let u = pow10((zeros - 1 + width) as nat);
            assert(rem * (10 * u) == t * u) by (nonlinear_arith)
                requires
                    t == rem * 10,
            ;
            lemma_pow10_grows(width, (zeros - 1 + width) as nat);
            lemma_compare(t as nat, den as nat, 0, f, u);
            assert(0 * u + f == f);
        }
        if t >= den {
            proof {
                vstd::arithmetic::div_mod::lemma_div_non_zero(t as int, den as int);
            }
            return true;
        }
        proof {
            vstd::arithmetic::div_mod::lemma_basic_div(t as int, den as int);
            vstd::arithmetic::div_mod::lemma_small_mod(t as nat, den as nat);
        }
        rem = t;
        zeros -= 1;
    }
    let mut i: usize = split;
    while i < n
        invariant
            0 < den <= MAX_DEN,
            rem < den,
            split <= i <= n,
            n == digits.len(),
            text::all_digits(digits@),
            goal == passes(
                num as nat * pow10(places as nat),
                text::dec_value(digits@) * den as nat,
                strict,
            ),
            goal == passes(
                rem as nat * pow10((n - i) as nat),
                text::dec_value(digits@.skip(i as int)) * den as nat,
                strict,
            ),
        decreases n - i,
    {
        let c: char = digits[i];
        assert('0' <= digits@[i as int] <= '9');
        let d: u128 = (c as u32 - 48) as u128;
        let t: u128 = rem * 10;
        let q: u128 = t / den;
        let ghost u = pow10((n - i - 1) as nat);
        let ghost part = text::dec_value(digits@.skip(i + 1));
        proof {
            let s = digits@.skip(i as int);
            assert(text::all_digits(s)) by {
                assert forall|j: int| 0 <= j < s.len() implies '0' <= #[trigger] s[j] <= '9' by {
                    assert(s[j] == digits@[i + j]);
                }
            }
            lemma_dec_value_split(s, 1);
            assert(s.take(1).drop_last() =~= Seq::empty());
            assert(text::dec_value(s.take(1).drop_last()) == 0);
            assert(s.take(1).last() == c);
            assert(text::dec_value(s.take(1)) == d);
            assert(s.skip(1) == digits@.skip(i + 1));
            assert(rem * (10 * u) == t * u) by (nonlinear_arith)
                requires
                    t == rem * 10,
            ;
            lemma_compare(t as nat, den as nat, d as nat, part, u);
        }
        if q != d {
            return q > d;
        }
        rem = t % den;
        i += 1;
    }
    assert(pow10(0) == 1);
    assert(digits@.skip(n as int) =~= Seq::empty());
    assert(text::dec_value(digits@.skip(n as int)) == 0);
    assert(rem * pow10(0) == rem) by (nonlinear_arith)
        requires
            pow10(0) == 1,
    ;
    assert(0 * den == 0);
    !strict || rem > 0
}

/// Whether `num / den` passes the number that `digits` and `exponent` write.
pub fn number_passes(num: u128, den: u128, digits: &[char], exponent: i128, strict: bool) -> (r: bool)
    requires
        0 < den <= MAX_DEN,
        num <= LIMIT,
        text::all_digits(digits@),
        -0x1_0000_0000_0000_0000_0000 < exponent < 0x1_0000_0000_0000_0000_0000,
    ensures
        r == quotient_passes(
            num as nat,
            den as nat,
            text::dec_value(digits@),
            exponent as int,
            strict,
        ),
{
    if exponent >= 0 {
        passes_whole(num, den, digits, exponent as u128, strict)
    } else {
        passes_fraction(num, den, digits, (-exponent) as u128, strict)
    }
}


pub proof fn lemma_pow10_grows(a: nat, b: nat)
    requires
        a <= b,
    ensures
        pow10(a) <= pow10(b),
    decreases b,
{
    if a < b {
        lemma_pow10_grows(a, (b - 1) as nat);
    }
}

// ---------------------------------------------------------------------------
// Doubles and decimals
// ---------------------------------------------------------------------------

/// A double as a quotient.
pub fn as_quotient(mantissa: u64, exponent: i32) -> (r: (u128, u128))
    requires
        mantissa < 0x100_0000_0000_0000,
        -121 <= exponent <= 26,
    ensures
        r.0 == (Double { mantissa: mantissa as nat, exponent: exponent as int }).num(),
        r.1 == (Double { mantissa: mantissa as nat, exponent: exponent as int }).den(),
        r.0 <= LIMIT,
        0 < r.1 <= MAX_DEN,
{
    if exponent >= 0 {
        let t: u128 = binary::two_to(exponent as u32);
        proof {
            binary::lemma_bits();
            binary::lemma_pow2_grows(exponent as nat, 26);
            vstd::arithmetic::power2::lemma2_to64();
            vstd::arithmetic::power2::lemma2_to64_rest();
            assert(mantissa * t <= 0x100_0000_0000_0000 * 0x400_0000) by (nonlinear_arith)
                requires
                    mantissa <= 0x100_0000_0000_0000,
                    t <= 0x400_0000,
            ;
        }
        (mantissa as u128 * t, 1)
    } else {
        let t: u128 = binary::two_to((-exponent) as u32);
        proof {
            lemma_max_den();
            binary::lemma_pow2_grows((-exponent) as nat, 121);
        }
        (mantissa as u128, t)
    }
}

proof fn lemma_max_den()
    ensures
        pow2(121) == MAX_DEN,
        pow2(75) == 0x800_0000_0000_0000_0000,
{
    vstd::arithmetic::power2::lemma2_to64();
    vstd::arithmetic::power2::lemma2_to64_rest();
    vstd::arithmetic::power2::lemma_pow2_adds(64, 57);
    vstd::arithmetic::power2::lemma_pow2_adds(64, 11);
}

/// The midpoint between a double and the next one up.
pub fn end_above(b: Binary) -> (r: (u128, u128))
    requires
        b@.is_normal(),
        -120 <= b.exponent <= 26,
    ensures
        r.0 == upper_end(b@).num(),
        r.1 == upper_end(b@).den(),
        r.0 <= LIMIT,
        0 < r.1 <= MAX_DEN,
{
    proof {
        binary::lemma_bits();
    }
    as_quotient(2 * b.mantissa + 1, b.exponent - 1)
}

/// The digits of twice a number.
fn doubled(digits: &Vec<char>) -> (r: Vec<char>)
    requires
        text::all_digits(digits@),
    ensures
        text::all_digits(r@),
        text::dec_value(r@) == 2 * text::dec_value(digits@),
{
    let n: usize = digits.len();
    let mut r: Vec<char> = Vec::new();
    r.push(
        if n > 0 && digits[0] >= '5' {
            '1'
        } else {
            '0'
        },
    );
    let mut i: usize = 0;
    proof {
        assert(r@.drop_last() =~= Seq::empty());
        assert(text::dec_value(r@.drop_last()) == 0);
        assert(digits@.take(0) =~= Seq::empty());
    }
    while i < n
        invariant
            i <= n,
            n == digits@.len(),
            text::all_digits(digits@),
            text::all_digits(r@),
            text::dec_value(r@) == 2 * text::dec_value(digits@.take(i as int)) + (if i < n
                && digits@[i as int] >= '5' {
                1nat
            } else {
                0nat
            }),
        decreases n - i,
    {
        assert('0' <= digits@[i as int] <= '9');
        let d: u8 = digit_of(digits[i]);
        let carry: u8 = if i + 1 < n && digits[i + 1] >= '5' {
            1
        } else {
            0
        };
        let c: char = (48u8 + (2 * d) % 10 + carry) as char;
        let ghost before = r@;
        r.push(c);
        proof {
            assert(r@.drop_last() =~= before);
            assert(digits@.take(i + 1).drop_last() =~= digits@.take(i as int));
            assert(digits@.take(i + 1).last() == digits@[i as int]);
        }
        i = i + 1;
    }
    assert(digits@.take(i as int) =~= digits@);
    r
}

/// The value of a digit.
fn digit_of(c: char) -> (d: u8)
    requires
        '0' <= c <= '9',
    ensures
        d == c as u32 - 48,
        d <= 9,
{
    (c as u32 - 48) as u8
}

/// Whether the number that `digits` and `exponent` write is nearer to zero than to the
/// least double above it.
fn counts_as_zero(digits: &[char], exponent: i128) -> (r: bool)
    requires
        text::all_digits(digits@),
        -0x1_0000_0000_0000_0000_0000 < exponent < 0x1_0000_0000_0000_0000_0000,
    ensures
        r == quotient_passes(1, pow2(1075), text::dec_value(digits@), exponent as int, false),
{
    let ghost m = text::dec_value(digits@);
    if all_zero(digits, 0) {
        proof {
            assert(digits@.skip(0) =~= digits@);
            assert(0 * pow10(exponent as nat) == 0);
            assert(0 * pow2(1075) == 0);
            if exponent < 0 {
                assert(0nat * pow2(1075) == 0);
            }
        }
        return true;
    }
    assert(digits@.skip(0) =~= digits@);
    if exponent >= -300 {
        proof {
            lemma_everyday_is_not_zero(m, exponent as int);
        }
        return false;
    }
    // A thousand doublings bring the bound within reach.
    let mut wide: Vec<char> = Vec::new();
    let mut i: usize = 0;
    while i < digits.len()
        invariant
            i <= digits@.len(),
            wide@ == digits@.take(i as int),
        decreases digits@.len() - i,
    {
        wide.push(digits[i]);
        assert(digits@.take(i + 1) =~= digits@.take(i as int).push(digits@[i as int]));
        i = i + 1;
    }
    assert(wide@ =~= digits@);
    let mut k: u32 = 0;
    proof {
        binary::lemma_bits();
        assert(m * pow2(0) == m) by (nonlinear_arith)
            requires
                pow2(0) == 1,
        ;
    }
    while k < 1000
        invariant
            k <= 1000,
            text::all_digits(wide@),
            text::dec_value(wide@) == m * pow2(k as nat),
        decreases 1000 - k,
    {
        wide = doubled(&wide);
        proof {
            binary::lemma_pow2_step(k as nat);
            let x = pow2(k as nat);
            assert(2 * (m * x) == m * (2 * x)) by (nonlinear_arith);
        }
        k = k + 1;
    }
    proof {
        lemma_max_den();
        vstd::arithmetic::power2::lemma_pow2_adds(1000, 75);
        let (x, y) = (pow2(1000), pow2(75));
        assert((m * x) * y == m * (x * y)) by (nonlinear_arith);
    }
    passes_fraction(1, 0x800_0000_0000_0000_0000, wide.as_slice(), (-exponent) as u128, false)
}

/// A number of at least `10^-300` is not taken for zero.
proof fn lemma_everyday_is_not_zero(m: nat, exponent: int)
    requires
        m > 0,
        exponent >= -300,
    ensures
        !quotient_passes(1, pow2(1075), m, exponent, false),
{
    binary::lemma_bits();
    binary::lemma_pow2_grows(1, 1075);
    let y = pow2(1075);
    if exponent >= 0 {
        lemma_pow10_positive(exponent as nat);
        let p = pow10(exponent as nat);
        assert(m * p >= 1) by (nonlinear_arith)
            requires
                m >= 1,
                p >= 1,
        ;
        assert((m * p) * y >= 2) by (nonlinear_arith)
            requires
                m * p >= 1,
                y >= 2,
        ;
    } else {
        lemma_pow10_grows((-exponent) as nat, 300);
        lemma_thousands(100);
        binary::lemma_pow2_grows(1000, 1074);
        binary::lemma_pow2_step(1074);
        assert(m * y >= y) by (nonlinear_arith)
            requires
                m >= 1,
        ;
    }
}

/// A thousand is less than `2^10`.
proof fn lemma_thousands(n: nat)
    ensures
        1 <= pow10(3 * n) <= pow2(10 * n),
    decreases n,
{
    binary::lemma_bits();
    reveal_with_fuel(pow10, 4);
    if n > 0 {
        let k = (n - 1) as nat;
        lemma_thousands(k);
        vstd::arithmetic::power2::lemma2_to64();
        vstd::arithmetic::power2::lemma_pow2_adds(10 * k, 10);
        assert(3 * n == 3 * k + 3);
        assert(pow10(3 * k + 3) == 10 * pow10(3 * k + 2));
        assert(pow10(3 * k + 2) == 10 * pow10(3 * k + 1));
        assert(pow10(3 * k + 1) == 10 * pow10(3 * k));
        let (a, b) = (pow10(3 * k), pow2(10 * k));
        assert(10 * k + 10 == 10 * n);
        assert(1000 * a <= b * 1024) by (nonlinear_arith)
            requires
                1 <= a <= b,
        ;
    }
}

// ---------------------------------------------------------------------------
// Exact comparisons
// ---------------------------------------------------------------------------

/// Half a unit above what `p / q` is rounded to is not below it, and above it where that is
/// odd.
proof fn lemma_rounded_upper(p: nat, q: nat)
    requires
        q > 0,
    ensures
        ({
            let m = rounded(p, q);
            passes((2 * m + 1) * q, 2 * p, m % 2 == 1)
        }),
{
    let (w, r) = (p / q, p % q);
    vstd::arithmetic::div_mod::lemma_fundamental_div_mod(p as int, q as int);
    assert(2 * p == 2 * (q * w) + 2 * r);
    assert((2 * w + 1) * q == 2 * (q * w) + q) by (nonlinear_arith);
    assert((2 * (w + 1) + 1) * q == 2 * (q * w) + 3 * q) by (nonlinear_arith);
}

/// What passes a quotient passes what the quotient passes.
proof fn lemma_passes_through(
    a: nat,
    b: nat,
    c: nat,
    d: nat,
    mantissa: nat,
    exponent: int,
    strict: bool,
)
    requires
        b > 0,
        d > 0,
        passes(c * b, a * d, strict),
        quotient_passes(a, b, mantissa, exponent, false),
    ensures
        quotient_passes(c, d, mantissa, exponent, strict),
{
    if exponent >= 0 {
        let t = mantissa * pow10(exponent as nat);
        assert(a * d >= (t * d) * b) by (nonlinear_arith)
            requires
                a >= t * b,
        ;
        assert(c * b > (t * d) * b ==> c > t * d) by (nonlinear_arith)
            requires
                b > 0,
        ;
        assert(c * b >= (t * d) * b ==> c >= t * d) by (nonlinear_arith)
            requires
                b > 0,
        ;
    } else {
        let p = pow10((-exponent) as nat);
        lemma_pow10_positive((-exponent) as nat);
        assert((a * d) * p >= (mantissa * d) * b) by (nonlinear_arith)
            requires
                a * p >= mantissa * b,
        ;
        assert(c * b > a * d ==> (c * p) * b > (a * d) * p) by (nonlinear_arith)
            requires
                p > 0,
        ;
        assert(c * b >= a * d ==> (c * p) * b >= (a * d) * p) by (nonlinear_arith)
            requires
                p > 0,
        ;
        let (x, y) = (c * p, mantissa * d);
        assert(x * b > y * b ==> x > y) by (nonlinear_arith)
            requires
                b > 0,
        ;
        assert(x * b >= y * b ==> x >= y) by (nonlinear_arith)
            requires
                b > 0,
        ;
    }
}

/// The midpoint above the double nearest to `p / q` is not below `p / q`.
proof fn lemma_upper_end(p: nat, q: nat)
    requires
        p > 0,
        q > 0,
    ensures
        ({
            let d = binary::nearest(p, q);
            &&& d.mantissa > 0
            &&& upper_end(d).den() > 0
            &&& passes(upper_end(d).num() * q, p * upper_end(d).den(), d.mantissa % 2 == 1)
        }),
{
    binary::lemma_bits();
    binary::lemma_unit_exists(p, q);
    let u = binary::unit(p, q);
    let m = binary::units(p, q, u);
    let d = binary::nearest(p, q);
    if u >= 0 {
        let x = pow2(u as nat);
        binary::lemma_pow2_step(u as nat);
        binary::lemma_below_shifted(p, q, 0, (53 + u) as nat);
        binary::lemma_below_shifted(p, q, 0, (52 + u) as nat);
        vstd::arithmetic::power2::lemma_pow2_adds(u as nat, 53);
        vstd::arithmetic::power2::lemma_pow2_adds(u as nat, 52);
        assert(p * 1 == p);
        let unit = q * x;
        assert(unit > 0) by (nonlinear_arith)
            requires
                q > 0,
                x > 0,
                unit == q * x,
        ;
        assert(q * (x * pow2(53)) == pow2(53) * unit) by (nonlinear_arith)
            requires
                unit == q * x,
        ;
        assert(q * (x * pow2(52)) == pow2(52) * unit) by (nonlinear_arith)
            requires
                unit == q * x,
        ;
        binary::lemma_rounded_between(p, unit, pow2(52), pow2(53));
        lemma_rounded_upper(p, unit);
        if m == pow2(53) {
            // The next double up is one unit of twice the size away.
            let n = 2 * pow2(52) + 1;
            assert((n * x) * q == n * unit) by (nonlinear_arith)
                requires
                    unit == q * x,
            ;
            assert(n * unit >= pow2(53) * unit) by (nonlinear_arith)
                requires
                    n >= pow2(53),
            ;
            assert(upper_end(d) == (Double { mantissa: n, exponent: u }));
            assert(passes(upper_end(d).num() * q, p * upper_end(d).den(), false));
        } else {
            let n = 2 * m + 1;
            if u > 0 {
                let h = pow2((u - 1) as nat);
                binary::lemma_pow2_step((u - 1) as nat);
                assert(n * unit == 2 * ((n * h) * q)) by (nonlinear_arith)
                    requires
                        unit == q * (2 * h),
                ;
                assert(upper_end(d) == (Double { mantissa: n, exponent: u - 1 }));
                assert(upper_end(d).num() == n * h);
                assert(passes(upper_end(d).num() * q, p * upper_end(d).den(), m % 2 == 1));
            } else {
                assert(n * unit == n * q) by (nonlinear_arith)
                    requires
                        unit == q * x,
                        x == 1,
                ;
                assert(upper_end(d).den() == pow2(1));
                assert(p * pow2(1) == 2 * p) by (nonlinear_arith)
                    requires
                        pow2(1) == 2,
                ;
                assert(passes(upper_end(d).num() * q, p * upper_end(d).den(), m % 2 == 1));
            }
        }
    } else {
        let j = (-u) as nat;
        let y = pow2(j);
        binary::lemma_pow2_step(j);
        binary::lemma_below_shifted(p, q, j, 53);
        binary::lemma_below_shifted(p, q, j, 52);
        let top = p * y;
        assert(q * pow2(53) == pow2(53) * q && q * pow2(52) == pow2(52) * q) by (nonlinear_arith);
        binary::lemma_rounded_between(top, q, pow2(52), pow2(53));
        lemma_rounded_upper(top, q);
        if m == pow2(53) {
            let n = 2 * pow2(52) + 1;
            assert(n * q >= pow2(53) * q) by (nonlinear_arith)
                requires
                    n >= pow2(53),
            ;
            assert(upper_end(d) == (Double { mantissa: n, exponent: u }));
            assert(passes(upper_end(d).num() * q, p * upper_end(d).den(), false));
        } else {
            let n = 2 * m + 1;
            assert(2 * (p * y) == p * (2 * y)) by (nonlinear_arith);
            assert((1 - u) as nat == j + 1);
            assert(upper_end(d).den() == 2 * y);
            assert(passes(upper_end(d).num() * q, p * upper_end(d).den(), m % 2 == 1));
        }
    }
}

/// A quotient of counts that is at least a threshold reaches it as a double too.
pub proof fn law_exact_quotients_reach(num: u64, den: u64, mantissa: nat, exponent: int)
    requires
        num < 0x20_0000_0000_0000,
        0 < den < 0x20_0000_0000_0000,
        quotient_passes(num as nat, den as nat, mantissa, exponent, false),
    ensures
        Ratio::of(num, den).at_least(Threshold::Finite { negative: false, mantissa, exponent }),
{
    reveal(Ratio::at_least);
    binary::lemma_bits();
    let (p, q) = (num as nat, den as nat);
    let d = binary::nearest(p, q);
    assert(Ratio::of(num, den).double() == d);
    if p == 0 {
        if exponent >= 0 {
            lemma_pow10_positive(exponent as nat);
            let t = pow10(exponent as nat);
            assert(mantissa == 0) by (nonlinear_arith)
                requires
                    0 >= mantissa * t * q,
                    t > 0,
                    q > 0,
            ;
            assert(0 * t == 0 && 0 * pow2(1075) == 0);
        } else {
            let t = pow10((-exponent) as nat);
            assert(0 * t == 0);
            assert(mantissa == 0) by (nonlinear_arith)
                requires
                    0 >= mantissa * q,
                    q > 0,
            ;
            assert(0 * pow2(1075) == 0);
        }
    } else {
        lemma_upper_end(p, q);
        lemma_passes_through(
            p,
            q,
            upper_end(d).num(),
            upper_end(d).den(),
            mantissa,
            exponent,
            d.mantissa % 2 == 1,
        );
    }
}

// ---------------------------------------------------------------------------
// Ratio
// ---------------------------------------------------------------------------

/// What a quotient is multiplied by.
#[derive(Clone, Copy, Debug, PartialEq, Eq, Structural)]
pub enum Scale {
    One,
    Hundred,
    Thousand,
}

impl Scale {
    pub open spec fn factor(self) -> nat {
        match self {
            Scale::One => 1,
            Scale::Hundred => 100,
            Scale::Thousand => 1000,
        }
    }
}

/// The quotient of two counts, times a small factor. A quotient by zero stands for zero.
#[derive(Clone, Copy, Debug, PartialEq, Eq, Structural)]
pub struct Ratio {
    pub num: u64,
    pub den: u64,
    pub scale: Scale,
}

/// Four times as large a number reaches a threshold where the number reaches a quarter of
/// it.
pub open spec fn quarter(d: Double) -> Double {
    if d.mantissa == 0 {
        d
    } else {
        Double { mantissa: d.mantissa, exponent: d.exponent - 2 }
    }
}

impl Ratio {
    /// The quotient `num / den`.
    pub open spec fn of(num: u64, den: u64) -> Ratio {
        Ratio { num, den, scale: Scale::One }
    }

    /// The double that the value is: the counts as doubles, their quotient, and its product
    /// with the factor, each rounded to the nearest.
    pub open spec fn double(self) -> Double {
        let q = binary::quotient(self.num as nat, self.den as nat);
        match self.scale {
            Scale::One => q,
            _ => binary::times(q, self.scale.factor()),
        }
    }

    /// The value with `places` decimals.
    #[verifier::opaque]
    pub open spec fn fixed_text(self, places: nat) -> Seq<char> {
        fixed_text(self.double().num(), self.double().den(), places)
    }

    /// The value is not below the threshold.
    #[verifier::opaque]
    pub open spec fn at_least(self, t: Threshold) -> bool {
        reaches(self.double(), t)
    }

    /// The value is not below four times the threshold.
    #[verifier::opaque]
    pub open spec fn at_least_fourfold(self, t: Threshold) -> bool {
        !(t is Undefined) && reaches(quarter(self.double()), t)
    }

    /// The quotient `num / den`.
    pub fn new(num: u64, den: u64) -> (r: Ratio)
        ensures
            r == Ratio::of(num, den),
    {
        Ratio { num, den, scale: Scale::One }
    }

    /// The whole number `n`.
    pub fn whole(n: u64) -> (r: Ratio)
        ensures
            r == Ratio::of(n, 1),
    {
        Ratio::new(n, 1)
    }

    /// The quotient `num / den` times a factor.
    pub fn scaled(num: u64, den: u64, scale: Scale) -> (r: Ratio)
        ensures
            r == (Ratio { num, den, scale }),
    {
        Ratio { num, den, scale }
    }

    /// The double that the value is.
    pub fn value(&self) -> (b: Binary)
        ensures
            b@ == self.double(),
            b@.is_normal(),
            -117 <= b.exponent <= 26,
    {
        let q = binary::quotient_of(self.num, self.den);
        match self.scale {
            Scale::One => q,
            Scale::Hundred => binary::times_of(q, 100),
            Scale::Thousand => binary::times_of(q, 1000),
        }
    }

    /// The value's text with up to three decimals.
    pub fn fixed(&self, places: u32) -> (s: String)
        requires
            places <= 3,
        ensures
            s@ == self.fixed_text(places as nat),
    {
        let unit: u128 = if places == 0 {
            1
        } else if places == 1 {
            10
        } else if places == 2 {
            100
        } else {
            1000
        };
        let b = self.value();
        proof {
            binary::lemma_bits();
        }
        let (num, den) = as_quotient(b.mantissa, b.exponent);
        proof {
            reveal(Ratio::fixed_text);
            reveal_with_fuel(pow10, 4);
            assert(unit == pow10(places as nat));
            assert(num * unit <= 0x10_0000_0000_0000_0000_0000_0000 * 1000) by (nonlinear_arith)
                requires
                    num <= 0x10_0000_0000_0000_0000_0000_0000,
                    unit <= 1000,
            ;
        }
        let n: u128 = binary::round_quotient(num * unit, den);
        let mut s = text::decimal(n / unit);
        if places > 0 {
            s.append(".");
            let t = text::padded_decimal(n % unit, places);
            s.append(t.as_str());
        }
        s
    }

    /// Whether the value is not below the threshold.
    pub fn reaches(&self, t: &Decimal) -> (r: bool)
        ensures
            r == self.at_least(t@),
    {
        proof {
            reveal(Ratio::at_least);
        }
        t.reached_by(self.value())
    }

    /// Whether the value is not below four times the threshold.
    pub fn reaches_fourfold(&self, t: &Decimal) -> (r: bool)
        ensures
            r == self.at_least_fourfold(t@),
    {
        proof {
            reveal(Ratio::at_least_fourfold);
        }
        let b = self.value();
        if b.mantissa == 0 {
            t.is_defined() && t.reached_by(b)
        } else {
            t.is_defined() && t.reached_by(
                Binary { mantissa: b.mantissa, exponent: b.exponent - 2 },
            )
        }
    }
}

} // verus!
