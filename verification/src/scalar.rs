//! Single-precision numbers, carried by their IEEE 754 bit pattern.
//!
//! Here are the values that patterns stand for, rounding to the nearest of them, comparing,
//! clamping, counting pixels, and writing a number with a fixed count of decimals. Arithmetic is in
//! [`crate::arith`].

use crate::text::{push_decimal, push_padded};
use vstd::prelude::*;

verus! {

/// A single-precision number, as its bit pattern.
#[derive(Debug, Clone, Copy, PartialEq, Eq, Structural)]
pub struct Scalar {
    pub bits: u32,
}

/// The bit pattern of the sign.
pub const SIGN: u32 = 0x8000_0000;

/// The bit pattern of infinity; patterns above it (sign aside) are not numbers.
pub const INFINITY: u32 = 0x7f80_0000;

/// The bit pattern of 1.
pub const ONE: u32 = 0x3f80_0000;

/// The number of fraction patterns in a binade.
pub const BINADE: u32 = 0x80_0000;

/// The magnitude that the pattern `b` (sign bit clear) stands for, in units of 2^-149, the
/// smallest positive single-precision number. Infinity reads as 2^128, above every finite number.
pub open spec fn magnitude(b: nat) -> nat {
    let e = b / 0x80_0000;
    let m = b % 0x80_0000;
    if e == 0 {
        m
    } else {
        (0x80_0000 + m) * vstd::arithmetic::power2::pow2((e - 1) as nat)
    }
}

/// The number of units of 2^-149 in 1.
pub open spec fn unit() -> nat {
    vstd::arithmetic::power2::pow2(149)
}

/// `b` (sign bit clear) is the pattern nearest to `num / den` units of 2^-149; of two equally near
/// ones, it is the even one.
pub open spec fn rounds_to(num: nat, den: nat, b: nat) -> bool {
    let above = (magnitude(b) + magnitude(b + 1)) * den;
    let below = (magnitude((b - 1) as nat) + magnitude(b)) * den;
    &&& 2 * num < above || (2 * num == above && b % 2 == 0)
    &&& b == 0 || below < 2 * num || (below == 2 * num && b % 2 == 0)
}

/// The pattern nearest to `num / den` units of 2^-149, even ones first, where nothing finite is
/// near enough infinity.
pub open spec fn nearest(num: nat, den: nat) -> nat {
    let b = choose|b: nat| rounds_to(num, den, b);
    if b < INFINITY {
        b
    } else {
        INFINITY as nat
    }
}

/// `num / den` rounded to an integer; halves go to the even neighbour.
pub open spec fn half_even(num: nat, den: nat) -> nat
    recommends
        den > 0,
{
    let q = num / den;
    let r = num % den;
    if 2 * r > den || (2 * r == den && q % 2 == 1) {
        q + 1
    } else {
        q
    }
}

/// Ten to the power of `n`.
pub open spec fn pow10(n: nat) -> nat
    decreases n,
{
    if n == 0 {
        1
    } else {
        10 * pow10((n - 1) as nat)
    }
}

impl Scalar {
    /// Whether the sign bit is set.
    pub open spec fn is_signed(self) -> bool {
        self.bits >= SIGN
    }

    /// The pattern with the sign bit cleared.
    pub open spec fn low(self) -> nat {
        (self.bits % SIGN) as nat
    }

    /// Whether this is not a number.
    pub open spec fn is_nan(self) -> bool {
        self.low() > INFINITY
    }

    /// Whether this is a number other than the infinities.
    pub open spec fn is_finite(self) -> bool {
        self.low() < INFINITY
    }

    /// The number in units of 2^-149.
    pub open spec fn value(self) -> int {
        if self.is_signed() {
            -(magnitude(self.low()) as int)
        } else {
            magnitude(self.low()) as int
        }
    }

    /// `self < other`, false where either is not a number.
    pub open spec fn below(self, other: Scalar) -> bool {
        !self.is_nan() && !other.is_nan() && self.value() < other.value()
    }

    /// `self == other` as numbers: the two zeros are equal, and what is not a number equals
    /// nothing.
    pub open spec fn equals(self, other: Scalar) -> bool {
        !self.is_nan() && !other.is_nan() && self.value() == other.value()
    }

    /// `self` limited to the range from -1 to 1; what is not a number stays as it is.
    pub open spec fn clamped(self) -> Scalar {
        if self.is_nan() {
            self
        } else if self.value() < -unit() {
            Scalar { bits: (ONE + SIGN) as u32 }
        } else if self.value() > unit() {
            Scalar { bits: ONE }
        } else {
            self
        }
    }

    /// `self` with the other sign.
    pub open spec fn negated(self) -> Scalar {
        if self.is_signed() {
            Scalar { bits: (self.bits - SIGN) as u32 }
        } else {
            Scalar { bits: (self.bits + SIGN) as u32 }
        }
    }

    /// `self` written with `places` decimals: the decimal nearest to it, halves to even.
    pub open spec fn fixed(self, places: nat) -> Seq<char> {
        let prefix: Seq<char> = if self.is_signed() {
            seq!['-']
        } else {
            seq![]
        };
        if self.is_nan() {
            "NaN"@
        } else if !self.is_finite() {
            prefix + "inf"@
        } else {
            let scaled = half_even(magnitude(self.low()) * pow10(places), unit());
            prefix + crate::text::decimal(scaled / pow10(places)) + seq!['.'] + crate::text::padded(
                scaled % pow10(places),
                places,
            )
        }
    }

    /// How many pixels it takes to cover a length of `self`: its ceiling, at least 1, at most
    /// what 32 bits hold. What is not a number takes 1.
    pub open spec fn covered(self) -> nat {
        if self.is_nan() || self.is_signed() {
            1
        } else {
            let up = (magnitude(self.low()) + unit() - 1) as nat / unit();
            if up < 1 {
                1
            } else if up > u32::MAX {
                u32::MAX as nat
            } else {
                up
            }
        }
    }
}

// ---------------------------------------------------------------------------
// Facts about patterns
// ---------------------------------------------------------------------------

/// The next pattern stands for a larger magnitude, one last place further up.
pub proof fn lemma_step(b: nat)
    ensures
        magnitude(b) < magnitude(b + 1),
        b >= 0x80_0000 ==> magnitude(b + 1) == magnitude(b) + vstd::arithmetic::power2::pow2(
            (b / 0x80_0000 - 1) as nat,
        ),
{
    let e = b / 0x80_0000;
    let m = b % 0x80_0000;
    if e > 0 {
        vstd::arithmetic::power2::lemma_pow2_pos((e - 1) as nat);
        vstd::arithmetic::power2::lemma_pow2_unfold(e as nat);
    }
    if m + 1 < 0x80_0000 {
        assert((b + 1) / 0x80_0000 == e && (b + 1) % 0x80_0000 == m + 1);
        if e > 0 {
            let p = vstd::arithmetic::power2::pow2((e - 1) as nat);
            assert((0x80_0000 + m + 1) * p == (0x80_0000 + m) * p + p) by (nonlinear_arith);
        }
    } else {
        assert((b + 1) / 0x80_0000 == e + 1 && (b + 1) % 0x80_0000 == 0);
        if e > 0 {
            let p = vstd::arithmetic::power2::pow2((e - 1) as nat);
            assert(0x80_0000 * (2 * p) == (0x80_0000 + 0x7f_ffff) * p + p) by (nonlinear_arith);
        } else {
            vstd::arithmetic::power2::lemma2_to64();
            assert(vstd::arithmetic::power2::pow2(0) == 1);
            assert(magnitude(b + 1) == 0x80_0000 * vstd::arithmetic::power2::pow2(0));
            assert(magnitude(b) == 0x7f_ffff);
        }
    }
}

/// A larger pattern stands for a larger magnitude.
pub proof fn lemma_magnitude_order(a: nat, b: nat)
    requires
        a < b,
    ensures
        magnitude(a) < magnitude(b),
    decreases b - a,
{
    lemma_step(a);
    if a + 1 < b {
        lemma_magnitude_order(a + 1, b);
    }
}

/// The value of 1.
pub proof fn lemma_one()
    ensures
        magnitude(ONE as nat) == unit(),
        magnitude(0) == 0,
        unit() > 0,
{
    vstd::arithmetic::power2::lemma_pow2_adds(23, 126);
    vstd::arithmetic::power2::lemma_pow2_pos(149);
    vstd::arithmetic::power2::lemma2_to64();
}

/// At most one pattern is nearest to a fraction.
pub proof fn lemma_rounds_to_unique(num: nat, den: nat, a: nat, b: nat)
    requires
        den > 0,
        rounds_to(num, den, a),
        rounds_to(num, den, b),
    ensures
        a == b,
{
    lemma_rounds_to_ordered(num, den, a, b);
    lemma_rounds_to_ordered(num, den, b, a);
}

proof fn lemma_rounds_to_ordered(num: nat, den: nat, a: nat, b: nat)
    requires
        den > 0,
        rounds_to(num, den, a),
        rounds_to(num, den, b),
    ensures
        a >= b,
{
    if a < b {
        lemma_step(a);
        lemma_step((b - 1) as nat);
        let above = magnitude(a) + magnitude(a + 1);
        let below = magnitude((b - 1) as nat) + magnitude(b);
        if a + 1 < b {
            if a + 1 < b - 1 {
                lemma_magnitude_order(a + 1, (b - 1) as nat);
            }
            assert(above < below);
            assert(above * den < below * den) by (nonlinear_arith)
                requires
                    above < below,
                    den > 0,
            ;
        }
    }
}

/// What rounds to `b` has `b` for its nearest pattern.
pub proof fn lemma_nearest(num: nat, den: nat, b: nat)
    requires
        den > 0,
        rounds_to(num, den, b),
    ensures
        nearest(num, den) == if b < INFINITY {
            b
        } else {
            INFINITY as nat
        },
{
    lemma_rounds_to_unique(num, den, choose|c: nat| rounds_to(num, den, c), b);
}

/// Scaling both sides of a fraction does not change what it rounds to.
pub proof fn lemma_rounds_to_scale(num: nat, den: nat, c: nat, b: nat)
    requires
        c > 0,
    ensures
        rounds_to(num * c, den * c, b) == rounds_to(num, den, b),
{
    let hi = magnitude(b) + magnitude(b + 1);
    let lo = magnitude((b - 1) as nat) + magnitude(b);
    assert(hi * (den * c) == (hi * den) * c) by (nonlinear_arith);
    assert(lo * (den * c) == (lo * den) * c) by (nonlinear_arith);
    assert(2 * (num * c) == (2 * num) * c) by (nonlinear_arith);
    lemma_scaled_order(2 * num, hi * den, c);
    lemma_scaled_order(lo * den, 2 * num, c);
}

proof fn lemma_scaled_order(x: nat, y: nat, c: nat)
    requires
        c > 0,
    ensures
        x * c < y * c <==> x < y,
        x * c == y * c <==> x == y,
{
    if x < y {
        assert(x * c < y * c) by (nonlinear_arith)
            requires
                x < y,
                c > 0,
        ;
    } else if y < x {
        assert(y * c < x * c) by (nonlinear_arith)
            requires
                y < x,
                c > 0,
        ;
    }
}

/// A significand `q` in units of 2^`g`, and the remainder `r / d` below it, rounds to the pattern
/// `g * 2^23 + q`, one more where the remainder is past the middle.
pub proof fn lemma_rounding(num: nat, den: nat, g: nat, q: nat, r: nat, d: nat, up: bool)
    requires
        den > 0,
        num * d == (q * d + r) * vstd::arithmetic::power2::pow2(g) * den,
        r < d,
        q < 0x100_0000,
        g == 0 || 0x80_0000 <= q,
        up == (2 * r > d || (2 * r == d && q % 2 == 1)),
    ensures
        rounds_to(num, den, (g * 0x80_0000 + q + if up { 1int } else { 0int }) as nat),
{
    let u = vstd::arithmetic::power2::pow2(g);
    let q1 = (q + if up { 1int } else { 0int }) as nat;
    let b = (g * 0x80_0000 + q1) as nat;
    vstd::arithmetic::power2::lemma_pow2_pos(g);
    lemma_pattern(g, q1);
    lemma_step(b);
    assert(magnitude(b + 1) >= q1 * u + u && (!up ==> magnitude(b + 1) == q1 * u + u)) by {
        if q1 < 0x100_0000 {
            lemma_pattern(g, q1 + 1);
            assert((q1 + 1) * u == q1 * u + u) by (nonlinear_arith);
        } else {
            assert(b == (g + 2) * 0x80_0000);
            assert(b / 0x80_0000 == g + 2);
            vstd::arithmetic::power2::lemma_pow2_unfold(g + 1);
        }
    }
    let hi = magnitude(b) + magnitude(b + 1);
    let lo = magnitude((b - 1) as nat) + magnitude(b);
    let twice = (2 * q * d + 2 * r) * u;
    assert((2 * num) * d == twice * den) by (nonlinear_arith)
        requires
            num * d == (q * d + r) * u * den,
            twice == (2 * q * d + 2 * r) * u,
    ;
    // It is enough to compare without the denominators.
    assert((hi * den) * d == (hi * d) * den) by (nonlinear_arith);
    assert((lo * den) * d == (lo * d) * den) by (nonlinear_arith);
    lemma_scaled_order(2 * num, hi * den, d);
    lemma_scaled_order(twice, hi * d, den);
    lemma_scaled_order(lo * den, 2 * num, d);
    lemma_scaled_order(lo * d, twice, den);
    assert(b % 2 == q1 % 2);
    if up {
        assert(hi * d > twice) by (nonlinear_arith)
            requires
                hi >= q1 * u + (q1 * u + u),
                twice == (2 * q * d + 2 * r) * u,
                q1 == q + 1,
                r < d,
                u > 0,
        ;
        if b > 0 && !(g > 0 && q1 == 0x80_0000) {
            assert(magnitude((b - 1) as nat) == (q1 - 1) * u) by {
                lemma_pattern(g, (q1 - 1) as nat);
            }
        }
        assert(lo * d == (2 * q * d + d) * u) by (nonlinear_arith)
            requires
                lo == (q1 - 1) * u + q1 * u,
                q1 == q + 1,
        ;
        if 2 * r > d {
            assert(lo * d < twice) by (nonlinear_arith)
                requires
                    lo * d == (2 * q * d + d) * u,
                    twice == (2 * q * d + 2 * r) * u,
                    2 * r > d,
                    u > 0,
            ;
        }
    } else {
        assert(hi * d == (2 * q * d + d) * u) by (nonlinear_arith)
            requires
                hi == q1 * u + (q1 * u + u),
                q1 == q,
        ;
        if 2 * r < d {
            assert(twice < hi * d) by (nonlinear_arith)
                requires
                    hi * d == (2 * q * d + d) * u,
                    twice == (2 * q * d + 2 * r) * u,
                    2 * r < d,
                    u > 0,
            ;
        }
        if b > 0 {
            lemma_step((b - 1) as nat);
            assert(lo * d < 2 * (q * u) * d) by (nonlinear_arith)
                requires
                    lo < 2 * (q * u),
                    d > 0,
            ;
            assert(2 * (q * u) * d <= twice) by (nonlinear_arith)
                requires
                    twice == (2 * q * d + 2 * r) * u,
            ;
        }
    }
}

/// The magnitude of the pattern that a significand and an exponent make.
pub proof fn lemma_pattern(g: nat, q: nat)
    requires
        q <= 0x100_0000,
        g == 0 || 0x80_0000 <= q,
    ensures
        magnitude((g * 0x80_0000 + q) as nat) == q * vstd::arithmetic::power2::pow2(g),
{
    let b = (g * 0x80_0000 + q) as nat;
    let u = vstd::arithmetic::power2::pow2(g);
    vstd::arithmetic::power2::lemma2_to64();
    if q < 0x80_0000 {
        assert(b / 0x80_0000 == 0 && b % 0x80_0000 == q);
        assert(q * u == q) by (nonlinear_arith)
            requires
                u == 1,
        ;
    } else if q < 0x100_0000 {
        assert(b == (g + 1) * 0x80_0000 + (q - 0x80_0000));
        assert(b / 0x80_0000 == g + 1 && b % 0x80_0000 == q - 0x80_0000);
    } else {
        assert(b == (g + 2) * 0x80_0000);
        assert(b / 0x80_0000 == g + 2 && b % 0x80_0000 == 0);
        vstd::arithmetic::power2::lemma_pow2_unfold(g + 1);
        assert(0x80_0000 * (2 * u) == 0x100_0000 * u);
    }
}

proof fn lemma_half_even_scale(a: nat, b: nat, c: nat)
    requires
        b > 0,
        c > 0,
    ensures
        half_even(a * c, b * c) == half_even(a, b),
{
    let q = a / b;
    let r = a % b;
    vstd::arithmetic::div_mod::lemma_fundamental_div_mod(a as int, b as int);
    assert(a * c == q * (b * c) + r * c && 0 <= r * c < b * c) by (nonlinear_arith)
        requires
            a == b * q + r,
            0 <= r < b,
            c > 0,
    ;
    vstd::arithmetic::div_mod::lemma_fundamental_div_mod_converse(
        (a * c) as int,
        (b * c) as int,
        q as int,
        (r * c) as int,
    );
    assert(2 * (r * c) > b * c <==> 2 * r > b) by (nonlinear_arith)
        requires
            c > 0,
    ;
    assert(2 * (r * c) == b * c <==> 2 * r == b) by (nonlinear_arith)
        requires
            c > 0,
    ;
}

proof fn lemma_half_even_exact(v: nat, c: nat)
    requires
        c > 0,
    ensures
        half_even(v * c, c) == v,
{
    vstd::arithmetic::div_mod::lemma_fundamental_div_mod_converse((v * c) as int, c as int, v as int, 0);
}

proof fn lemma_pow10(n: nat)
    ensures
        pow10(n) >= 1,
        n <= 9 ==> pow10(n) <= 1_000_000_000,
    decreases n,
{
    if n > 0 {
        lemma_pow10((n - 1) as nat);
        reveal_with_fuel(pow10, 11);
    }
}

pub proof fn lemma_pow2_bound(a: nat, b: nat)
    requires
        a <= b,
    ensures
        1 <= vstd::arithmetic::power2::pow2(a) <= vstd::arithmetic::power2::pow2(b),
{
    vstd::arithmetic::power2::lemma_pow2_pos(a);
    if a < b {
        vstd::arithmetic::power2::lemma_pow2_strictly_increases(a, b);
    }
}

pub proof fn lemma_div_at_least(x: nat, d: nat, q: nat)
    requires
        d > 0,
        x >= q * d,
    ensures
        x / d >= q,
{
    vstd::arithmetic::div_mod::lemma_div_is_ordered((q * d) as int, x as int, d as int);
    vstd::arithmetic::div_mod::lemma_div_by_multiple(q as int, d as int);
}

proof fn lemma_div_at_most(x: nat, d: nat, q: nat)
    requires
        d > 0,
        x < (q + 1) * d,
    ensures
        x / d <= q,
{
    assert((q + 1) * d == d * (q + 1)) by (nonlinear_arith);
    vstd::arithmetic::div_mod::lemma_multiply_divide_lt(x as int, d as int, q as int + 1);
}

/// The ceiling of `(v * d + r) / d` for `r == 0` is `v`.
proof fn lemma_ceiling(v: nat, r: nat, d: nat)
    requires
        d > 0,
        r == 0,
    ensures
        (v * d + r + d - 1) as nat / d == v,
{
    vstd::arithmetic::div_mod::lemma_fundamental_div_mod_converse(
        v * d + r + d - 1,
        d as int,
        v as int,
        d - 1,
    );
}

/// A ceiling does not change when both sides are scaled.
proof fn lemma_ceiling_scaled(a: nat, b: nat, c: nat)
    requires
        b > 0,
        c > 0,
    ensures
        (a * c + b * c - 1) as nat / (b * c) == (a + b - 1) as nat / b,
{
    let q = (a + b - 1) as nat / b;
    let r = (a + b - 1) as nat % b;
    vstd::arithmetic::div_mod::lemma_fundamental_div_mod(a + b - 1, b as int);
    assert(a * c + b * c - 1 == q * (b * c) + (r * c + c - 1) && 0 <= r * c + c - 1 < b * c)
        by (nonlinear_arith)
        requires
            a + b - 1 == b * q + r,
            0 <= r < b,
            c > 0,
    ;
    vstd::arithmetic::div_mod::lemma_fundamental_div_mod_converse(
        a * c + b * c - 1,
        (b * c) as int,
        q as int,
        r * c + c - 1,
    );
}

/// `sig` times two to the power of `s`.
fn shifted(sig: u32, s: u32) -> (r: u128)
    requires
        sig < 0x100_0000,
        s <= 104,
    ensures
        r == sig * vstd::arithmetic::power2::pow2(s as nat),
{
    let mut r: u128 = sig as u128;
    let mut i: u32 = 0;
    proof {
        vstd::arithmetic::power2::lemma2_to64();
        vstd::arithmetic::power2::lemma2_to64_rest();
        vstd::arithmetic::power2::lemma_pow2_adds(52, 52);
    }
    while i < s
        invariant
            i <= s <= 104,
            sig < 0x100_0000,
            vstd::arithmetic::power2::pow2(104) == 0x100_0000_0000_0000_0000_0000_0000,
            r == sig * vstd::arithmetic::power2::pow2(i as nat),
        decreases s - i,
    {
        proof {
            vstd::arithmetic::power2::lemma_pow2_unfold((i + 1) as nat);
            lemma_pow2_bound((i + 1) as nat, 104);
            let p = vstd::arithmetic::power2::pow2(i as nat);
            assert(sig * (2 * p) == 2 * (sig * p)) by (nonlinear_arith);
            assert(sig * (2 * p) <= u128::MAX) by (nonlinear_arith)
                requires
                    sig < 0x100_0000,
                    2 * p <= 0x100_0000_0000_0000_0000_0000_0000,
            ;
        }
        r = r * 2;
        i += 1;
    }
    r
}

impl Scalar {
    fn magnitude_bits(self) -> (b: u32)
        ensures
            b == self.low(),
    {
        self.bits % SIGN
    }

    /// `self` with the other sign.
    pub fn neg(self) -> (r: Scalar)
        ensures
            r == self.negated(),
            r.value() == -self.value(),
            r.is_nan() == self.is_nan(),
    {
        if self.bits >= SIGN {
            Scalar { bits: self.bits - SIGN }
        } else {
            Scalar { bits: self.bits + SIGN }
        }
    }

    /// Whether `self < other`.
    pub fn lt(self, other: Scalar) -> (r: bool)
        ensures
            r == self.below(other),
    {
        let a = self.magnitude_bits();
        let b = other.magnitude_bits();
        proof {
            lemma_one();
            if a > 0 {
                lemma_magnitude_order(0, a as nat);
            }
            if b > 0 {
                lemma_magnitude_order(0, b as nat);
            }
            if a < b {
                lemma_magnitude_order(a as nat, b as nat);
            }
            if b < a {
                lemma_magnitude_order(b as nat, a as nat);
            }
        }
        if a > INFINITY || b > INFINITY {
            return false;
        }
        if self.bits >= SIGN {
            if other.bits >= SIGN {
                b < a
            } else {
                a > 0 || b > 0
            }
        } else {
            other.bits < SIGN && a < b
        }
    }

    /// Whether `self == other` as numbers.
    pub fn same(self, other: Scalar) -> (r: bool)
        ensures
            r == self.equals(other),
    {
        let a = self.magnitude_bits();
        let b = other.magnitude_bits();
        proof {
            lemma_one();
            if a > 0 {
                lemma_magnitude_order(0, a as nat);
            }
            if b > 0 {
                lemma_magnitude_order(0, b as nat);
            }
            if a < b {
                lemma_magnitude_order(a as nat, b as nat);
            }
            if b < a {
                lemma_magnitude_order(b as nat, a as nat);
            }
        }
        a <= INFINITY && b <= INFINITY && a == b && (a == 0 || self.bits == other.bits)
    }

    /// `self` limited to the range from -1 to 1.
    pub fn clamp_unit(self) -> (r: Scalar)
        ensures
            r == self.clamped(),
            !r.is_nan() ==> -unit() <= r.value() <= unit(),
    {
        let a = self.magnitude_bits();
        proof {
            lemma_one();
            if a < ONE {
                lemma_magnitude_order(a as nat, ONE as nat);
            }
            if a > ONE {
                lemma_magnitude_order(ONE as nat, a as nat);
            }
        }
        if a > INFINITY || a <= ONE {
            self
        } else if self.bits >= SIGN {
            Scalar { bits: ONE + SIGN }
        } else {
            Scalar { bits: ONE }
        }
    }

    /// How many pixels it takes to cover a length of `self`.
    pub fn pixels(self) -> (r: u32)
        ensures
            r == self.covered(),
            r >= 1,
    {
        let b = self.magnitude_bits();
        let e: u32 = b / BINADE;
        let m: u32 = b % BINADE;
        proof {
            lemma_one();
        }
        if b > INFINITY || self.bits >= SIGN {
            return 1;
        }
        let ghost u = unit();
        if e >= 159 {
            proof {
                vstd::arithmetic::power2::lemma_pow2_adds(158, (e - 159) as nat);
                vstd::arithmetic::power2::lemma_pow2_adds(149, 9);
                vstd::arithmetic::power2::lemma_pow2_pos((e - 159) as nat);
                vstd::arithmetic::power2::lemma2_to64();
                let p = vstd::arithmetic::power2::pow2((e - 159) as nat);
                let mag = magnitude(b as nat);
                assert(mag == (0x80_0000 + m) * (u * 512 * p));
                assert(mag >= 0x1_0000_0000 * u) by (nonlinear_arith)
                    requires
                        mag == (0x80_0000 + m) * (u * 512 * p),
                        p >= 1,
                        m >= 0,
                        u >= 0,
                ;
                lemma_div_at_least((mag + u - 1) as nat, u, 0x1_0000_0000);
            }
            return u32::MAX;
        }
        if e >= 150 {
            let s: u64 = (e - 150) as u64;
            let sig: u64 = (BINADE + m) as u64;
            proof {
                vstd::arithmetic::power2::lemma2_to64();
                if s < 8 {
                    vstd::arithmetic::power2::lemma_pow2_strictly_increases(s as nat, 8);
                }
                let p = vstd::arithmetic::power2::pow2(s as nat);
                vstd::arithmetic::power2::lemma_pow2_pos(s as nat);
                assert(0x80_0000 <= sig * p < 0x1_0000_0000) by (nonlinear_arith)
                    requires
                        0x80_0000 <= sig < 0x100_0000,
                        1 <= p <= 256,
                ;
                vstd::bits::lemma_u64_shl_is_mul(sig, s);
                vstd::arithmetic::power2::lemma_pow2_adds(149, s as nat);
                assert(magnitude(b as nat) == sig * (u * p));
                assert(sig * (u * p) == (sig * p) * u) by (nonlinear_arith);
                lemma_ceiling((sig * p) as nat, 0, u);
            }
            return (sig << s) as u32;
        }
        let top: u32 = if e == 0 {
            1
        } else {
            e
        };
        let sig: u32 = if e == 0 {
            m
        } else {
            BINADE + m
        };
        let s: u32 = 150 - top;
        proof {
            vstd::arithmetic::power2::lemma_pow2_adds(s as nat, (top - 1) as nat);
            vstd::arithmetic::power2::lemma_pow2_pos(s as nat);
            vstd::arithmetic::power2::lemma_pow2_pos((top - 1) as nat);
            vstd::arithmetic::power2::lemma2_to64();
            let p = vstd::arithmetic::power2::pow2(s as nat);
            let c = vstd::arithmetic::power2::pow2((top - 1) as nat);
            assert(magnitude(b as nat) == sig * c) by {
                if e == 0 {
                    assert(c == 1);
                    assert(sig * c == sig) by (nonlinear_arith)
                        requires
                            c == 1,
                    ;
                }
            }
            assert(u == p * c);
            lemma_ceiling_scaled(sig as nat, p, c);
        }
        if s >= 24 {
            proof {
                if s > 24 {
                    vstd::arithmetic::power2::lemma_pow2_strictly_increases(24, s as nat);
                }
                let p = vstd::arithmetic::power2::pow2(s as nat);
                assert((1 + 1) * p == 2 * p) by (nonlinear_arith);
                lemma_div_at_most((sig + p - 1) as nat, p, 1);
            }
            return 1;
        }
        proof {
            if s < 24 {
                vstd::arithmetic::power2::lemma_pow2_strictly_increases(s as nat, 24);
            }
            vstd::bits::lemma_u32_shl_is_mul(1, s);
        }
        let den: u32 = 1u32 << s;
        let up: u32 = (sig + (den - 1)) / den;
        if up < 1 {
            1
        } else {
            up
        }
    }

    /// `self` written with `places` decimals.
    pub fn to_fixed(self, places: usize) -> (s: String)
        requires
            1 <= places <= 9,
        ensures
            s@ == self.fixed(places as nat),
    {
        let b = self.magnitude_bits();
        let mut out = String::new();
        if b > INFINITY {
            out.append("NaN");
            return out;
        }
        if self.bits >= SIGN {
            out.push('-');
        }
        let ghost prefix = out@;
        if b == INFINITY {
            out.append("inf");
            return out;
        }
        let mut ten: u64 = 1;
        let mut i: usize = 0;
        while i < places
            invariant
                i <= places <= 9,
                ten == pow10(i as nat),
                ten <= 1_000_000_000,
            decreases places - i,
        {
            proof {
                lemma_pow10((i + 1) as nat);
            }
            ten = ten * 10;
            i += 1;
        }
        let e: u32 = b / BINADE;
        let m: u32 = b % BINADE;
        let ghost u = unit();
        let ghost scaled = half_even(magnitude(b as nat) * pow10(places as nat), u);
        let whole: u128;
        let part: u64;
        proof {
            lemma_one();
            lemma_pow10(places as nat);
        }
        if e >= 150 {
            let s: u32 = e - 150;
            let sig: u32 = BINADE + m;
            proof {
                let p = vstd::arithmetic::power2::pow2(s as nat);
                vstd::arithmetic::power2::lemma_pow2_adds(149, s as nat);
                let t = pow10(places as nat);
                assert(magnitude(b as nat) == sig * (u * p));
                assert(sig * (u * p) * t == (sig * p * t) * u) by (nonlinear_arith);
                lemma_half_even_exact((sig * p * t) as nat, u);
                assert(scaled == (sig * p) * t);
                vstd::arithmetic::div_mod::lemma_fundamental_div_mod_converse(
                    scaled as int,
                    t as int,
                    (sig * p) as int,
                    0,
                );
            }
            whole = shifted(sig, s);
            part = 0;
        } else {
            let top: u32 = if e == 0 {
                1
            } else {
                e
            };
            let sig: u64 = if e == 0 {
                m as u64
            } else {
                (BINADE + m) as u64
            };
            let s: u32 = 150 - top;
            let ghost p = vstd::arithmetic::power2::pow2(s as nat);
            proof {
                assert(sig * ten < 0x80_0000_0000_0000) by (nonlinear_arith)
                    requires
                        sig < 0x100_0000,
                        ten <= 1_000_000_000,
                ;
            }
            let num: u64 = sig * ten;
            proof {
                vstd::arithmetic::power2::lemma_pow2_adds(s as nat, (top - 1) as nat);
                vstd::arithmetic::power2::lemma_pow2_pos(s as nat);
                vstd::arithmetic::power2::lemma_pow2_pos((top - 1) as nat);
                vstd::arithmetic::power2::lemma2_to64();
                let c = vstd::arithmetic::power2::pow2((top - 1) as nat);
                assert(magnitude(b as nat) == sig * c) by {
                if e == 0 {
                    assert(c == 1);
                    assert(sig * c == sig) by (nonlinear_arith)
                        requires
                            c == 1,
                    ;
                }
            }
                assert(u == p * c);
                let t = pow10(places as nat);
                assert(sig * c * t == (sig * t) * c) by (nonlinear_arith);
                lemma_half_even_scale(num as nat, p, c);
                assert(scaled == half_even(num as nat, p));
            }
            let mut all: u64 = 0;
            if s < 64 {
                proof {
                    lemma_pow2_bound(s as nat, 63);
                    vstd::arithmetic::power2::lemma2_to64_rest();
                    vstd::bits::lemma_u64_shl_is_mul(1, s as u64);
                }
                let den: u64 = 1u64 << (s as u64);
                all = num / den;
                let r: u64 = num % den;
                proof {
                    assert(all <= num) by (nonlinear_arith)
                        requires
                            all == num / den,
                            den >= 1,
                    ;
                }
                if r > den / 2 || (r == den / 2 && all % 2 == 1) {
                    all = all + 1;
                }
                proof {
                    // A power of two other than 1 is even, so half of it is exact.
                    vstd::arithmetic::power2::lemma_pow2_unfold(s as nat);
                }
            } else {
                proof {
                    vstd::arithmetic::power2::lemma2_to64_rest();
                    lemma_pow2_bound(64, s as nat);
                    vstd::arithmetic::div_mod::lemma_fundamental_div_mod_converse(
                        num as int,
                        p as int,
                        0,
                        num as int,
                    );
                }
            }
            assert(all == scaled);
            whole = (all / ten) as u128;
            part = all % ten;
        }
        push_decimal(&mut out, whole);
        out.push('.');
        push_padded(&mut out, part, places);
        assert(out@ == prefix + crate::text::decimal(scaled / pow10(places as nat)) + seq!['.']
            + crate::text::padded(scaled % pow10(places as nat), places as nat));
        out
    }
}

} // verus!
