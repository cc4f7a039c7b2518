//! Sums, products, quotients and square roots of single-precision numbers, each the exact result
//! rounded once to the nearest number, halves to even.

use crate::scalar::{Scalar, BINADE, INFINITY, ONE, SIGN};
use vstd::prelude::*;

verus! {

/// The bit pattern that stands for no number.
pub const NAN: u32 = 0x7fc0_0000;

/// Two to the power of `x`, 1 where `x` is negative.
pub open spec fn up(x: int) -> nat {
    if x > 0 {
        vstd::arithmetic::power2::pow2(x as nat)
    } else {
        1
    }
}

impl Scalar {
    /// The number with the given sign and pattern.
    pub open spec fn signed(negative: bool, low: nat) -> Scalar {
        Scalar {
            bits: (low + if negative {
                SIGN as nat
            } else {
                0nat
            }) as u32,
        }
    }

    /// The whole number `n`, or its negative, rounded.
    pub open spec fn of(negative: bool, n: nat) -> Scalar {
        Scalar::signed(negative, crate::scalar::nearest(n * crate::scalar::unit(), 1))
    }

    /// `self + other`.
    #[verifier::opaque]
    pub open spec fn sum(self, other: Scalar) -> Scalar {
        if self.is_nan() || other.is_nan() {
            Scalar { bits: NAN }
        } else if !self.is_finite() {
            if !other.is_finite() && self.is_signed() != other.is_signed() {
                Scalar { bits: NAN }
            } else {
                self
            }
        } else if !other.is_finite() {
            other
        } else {
            let s = self.value() + other.value();
            if s == 0 {
                Scalar::signed(self.is_signed() && other.is_signed(), 0)
            } else if s > 0 {
                Scalar::signed(false, crate::scalar::nearest(s as nat, 1))
            } else {
                Scalar::signed(true, crate::scalar::nearest((-s) as nat, 1))
            }
        }
    }

    /// `self - other`.
    pub open spec fn difference(self, other: Scalar) -> Scalar {
        self.sum(other.negated())
    }

    /// `self * other`.
    #[verifier::opaque]
    pub open spec fn product(self, other: Scalar) -> Scalar {
        let negative = self.is_signed() != other.is_signed();
        if self.is_nan() || other.is_nan() {
            Scalar { bits: NAN }
        } else if !self.is_finite() || !other.is_finite() {
            if self.low() == 0 || other.low() == 0 {
                Scalar { bits: NAN }
            } else {
                Scalar::signed(negative, INFINITY as nat)
            }
        } else {
            Scalar::signed(
                negative,
                crate::scalar::nearest(
                    crate::scalar::magnitude(self.low()) * crate::scalar::magnitude(other.low()),
                    crate::scalar::unit(),
                ),
            )
        }
    }

    /// `self / other`.
    #[verifier::opaque]
    pub open spec fn quotient(self, other: Scalar) -> Scalar {
        let negative = self.is_signed() != other.is_signed();
        if self.is_nan() || other.is_nan() {
            Scalar { bits: NAN }
        } else if !self.is_finite() {
            if !other.is_finite() {
                Scalar { bits: NAN }
            } else {
                Scalar::signed(negative, INFINITY as nat)
            }
        } else if !other.is_finite() {
            Scalar::signed(negative, 0)
        } else if other.low() == 0 {
            if self.low() == 0 {
                Scalar { bits: NAN }
            } else {
                Scalar::signed(negative, INFINITY as nat)
            }
        } else {
            Scalar::signed(
                negative,
                crate::scalar::nearest(
                    crate::scalar::magnitude(self.low()) * crate::scalar::unit(),
                    crate::scalar::magnitude(other.low()),
                ),
            )
        }
    }

    /// The square root of `self`.
    #[verifier::opaque]
    pub open spec fn root(self) -> Scalar {
        if self.low() == 0 {
            self
        } else if self.is_nan() || self.is_signed() {
            Scalar { bits: NAN }
        } else if !self.is_finite() {
            self
        } else {
            Scalar::signed(
                false,
                nearest_root(crate::scalar::magnitude(self.low()) * crate::scalar::unit()),
            )
        }
    }

    /// `self` rounded to a whole number, halves away from zero.
    #[verifier::opaque]
    pub open spec fn rounded(self) -> Scalar {
        if self.is_nan() {
            Scalar { bits: NAN }
        } else if !self.is_finite() {
            self
        } else {
            let n = (2 * crate::scalar::magnitude(self.low()) + crate::scalar::unit()) / (2
                * crate::scalar::unit());
            Scalar::signed(
                self.is_signed(),
                crate::scalar::nearest(n * crate::scalar::unit(), 1),
            )
        }
    }

    /// `self` without its fraction, within what 8 bits hold; 0 for what is not a number.
    #[verifier::opaque]
    pub open spec fn byte(self) -> nat {
        if self.is_nan() || self.is_signed() {
            0
        } else {
            let n = crate::scalar::magnitude(self.low()) / crate::scalar::unit();
            if n > 255 {
                255
            } else {
                n
            }
        }
    }
}

/// `b` is the pattern nearest to the square root of `v`, even ones first.
pub open spec fn root_rounds_to(v: nat, b: nat) -> bool {
    let above = crate::scalar::magnitude(b) + crate::scalar::magnitude(b + 1);
    let below = crate::scalar::magnitude((b - 1) as nat) + crate::scalar::magnitude(b);
    &&& 4 * v < above * above || (4 * v == above * above && b % 2 == 0)
    &&& b == 0 || below * below < 4 * v || (below * below == 4 * v && b % 2 == 0)
}

/// The pattern nearest to the square root of `v`.
pub open spec fn nearest_root(v: nat) -> nat {
    choose|b: nat| root_rounds_to(v, b)
}

proof fn lemma_up(x: int)
    ensures
        up(x) >= 1,
        x >= 0 ==> up(x) == vstd::arithmetic::power2::pow2(x as nat),
{
    vstd::arithmetic::power2::lemma2_to64();
    if x > 0 {
        vstd::arithmetic::power2::lemma_pow2_pos(x as nat);
    }
}

/// The pattern nearest to `sig * 2^x` units of 2^-149.
fn nearest_bits(sig: u64, x: i32) -> (b: u32)
    requires
        0 < sig < 0x4000_0000_0000_0000,
        -400 <= x <= 400,
    ensures
        b == crate::scalar::nearest(sig as nat * up(x as int), up(-x)),
        b <= INFINITY,
        exists|c: nat| #[trigger]
            crate::scalar::rounds_to(sig as nat * up(x as int), up(-x), c),
{
    let ghost num = sig as nat * up(x as int);
    let ghost den = up(-x);
    // The count of bits in `sig`.
    let mut len: i32 = 0;
    let mut p: u64 = 1;
    proof {
        vstd::arithmetic::power2::lemma2_to64();
        vstd::arithmetic::power2::lemma2_to64_rest();
        lemma_up(x as int);
        lemma_up(-x);
    }
    while p <= sig
        invariant
            0 < sig < 0x4000_0000_0000_0000,
            0 <= len <= 63,
            p == vstd::arithmetic::power2::pow2(len as nat),
            p <= 2 * sig,
            len > 0 ==> vstd::arithmetic::power2::pow2((len - 1) as nat) <= sig,
            vstd::arithmetic::power2::pow2(62) == 0x4000_0000_0000_0000,
        decreases 63 - len,
    {
        proof {
            vstd::arithmetic::power2::lemma_pow2_unfold((len + 1) as nat);
            if len >= 62 {
                crate::scalar::lemma_pow2_bound(62, len as nat);
            }
        }
        p = p * 2;
        len = len + 1;
    }
    assert(len > 0);
    assert(len <= 62) by {
        if len == 63 {
            assert(vstd::arithmetic::power2::pow2(62) <= sig);
        }
    }
    // The exponent of the last place, and how far `sig` has to move to meet it.
    let g: i32 = if x + len - 24 > 0 {
        x + len - 24
    } else {
        0
    };
    let shift: i32 = g - x;
    let mut q: u64 = 0;
    let mut round = false;
    if shift <= 0 {
        let left: u64 = (-shift) as u64;
        let ghost pl = vstd::arithmetic::power2::pow2(left as nat);
        proof {
            // len + left <= 24, so the moved significand has at most 24 bits.
            vstd::arithmetic::power2::lemma_pow2_adds(len as nat, left as nat);
            crate::scalar::lemma_pow2_bound((len + left) as nat, 24);
            vstd::arithmetic::power2::lemma_pow2_pos(left as nat);
            assert(sig * pl < 0x100_0000) by (nonlinear_arith)
                requires
                    sig < p,
                    p * pl <= 0x100_0000,
                    pl > 0,
            ;
            vstd::bits::lemma_u64_shl_is_mul(sig, left);
            assert(g > 0 ==> len + left == 24);
            if g > 0 {
                vstd::arithmetic::power2::lemma_pow2_adds((len - 1) as nat, left as nat);
                let half = vstd::arithmetic::power2::pow2((len - 1) as nat);
                assert(sig * pl >= 0x80_0000) by (nonlinear_arith)
                    requires
                        sig >= half,
                        half * pl == 0x80_0000,
                ;
            }
            // sig * 2^x == (sig * 2^left) * 2^g
            assert(num * 1 == (sig * pl) * vstd::arithmetic::power2::pow2(g as nat) * den) by {
                vstd::arithmetic::power2::lemma_pow2_adds(left as nat, g as nat);
                let pg = vstd::arithmetic::power2::pow2(g as nat);
                assert(x == left + g);
                assert(den == 1);
                assert(sig * (pl * pg) == sig * pl * pg) by (nonlinear_arith);
            }
        }
        q = sig << left;
        proof {
            crate::scalar::lemma_rounding(num, den, g as nat, q as nat, 0, 1, false);
        }
    } else if shift >= 63 {
        proof {
            let d = vstd::arithmetic::power2::pow2(shift as nat);
            crate::scalar::lemma_pow2_bound(63, shift as nat);
            assert(g == 0);
            lemma_shifted(sig as nat, x as int, shift as int, g as int);
            crate::scalar::lemma_rounding(num, den, 0, 0, sig as nat, d, false);
        }
    } else {
        let s: u64 = shift as u64;
        proof {
            crate::scalar::lemma_pow2_bound(s as nat, 62);
            vstd::bits::lemma_u64_shl_is_mul(1, s);
        }
        let d: u64 = 1u64 << s;
        q = sig / d;
        let r: u64 = sig % d;
        round = 2 * r > d || (2 * r == d && q % 2 == 1);
        proof {
            vstd::arithmetic::div_mod::lemma_fundamental_div_mod(sig as int, d as int);
            assert(q * d + r == sig) by (nonlinear_arith)
                requires
                    sig == d * q + r,
            ;
            // The quotient has at most 24 bits, and exactly 24 where the exponent is not least.
            vstd::arithmetic::power2::lemma_pow2_adds(24, s as nat);
            crate::scalar::lemma_pow2_bound(len as nat, (24 + s) as nat);
            assert(q < 0x100_0000) by (nonlinear_arith)
                requires
                    q * d <= sig,
                    sig < 0x100_0000 * d,
                    d > 0,
            ;
            if g > 0 {
                assert(len - 1 == 23 + s);
                vstd::arithmetic::power2::lemma_pow2_adds(23, s as nat);
                assert(q >= 0x80_0000) by (nonlinear_arith)
                    requires
                        q * d + r == sig,
                        r < d,
                        sig >= 0x80_0000 * d,
                ;
            }
            lemma_shifted(sig as nat, x as int, shift as int, g as int);
            crate::scalar::lemma_rounding(
                num,
                den,
                g as nat,
                q as nat,
                r as nat,
                d as nat,
                round,
            );
        }
    }
    let b: u32 = g as u32 * BINADE + q as u32 + if round {
        1
    } else {
        0
    };
    proof {
        crate::scalar::lemma_nearest(num, den, b as nat);
    }
    if b < INFINITY {
        b
    } else {
        INFINITY
    }
}

proof fn lemma_shifted(sig: nat, x: int, shift: int, g: int)
    requires
        shift > 0,
        g >= 0,
        shift == g - x,
    ensures
        (sig * up(x)) * vstd::arithmetic::power2::pow2(shift as nat) == sig
            * vstd::arithmetic::power2::pow2(g as nat) * up(-x),
{
    lemma_up(x);
    lemma_up(-x);
    let d = vstd::arithmetic::power2::pow2(shift as nat);
    let pg = vstd::arithmetic::power2::pow2(g as nat);
    if x >= 0 {
        vstd::arithmetic::power2::lemma_pow2_adds(x as nat, shift as nat);
        let px = vstd::arithmetic::power2::pow2(x as nat);
        assert((sig * px) * d == sig * (px * d)) by (nonlinear_arith);
    } else {
        vstd::arithmetic::power2::lemma_pow2_adds(g as nat, (-x) as nat);
        let px = vstd::arithmetic::power2::pow2((-x) as nat);
        assert(sig * (pg * px) == sig * pg * px) by (nonlinear_arith);
    }
}

impl Scalar {
    /// The significand and the exponent of a finite number.
    fn parts(self) -> (r: (u32, u32))
        requires
            self.is_finite(),
        ensures
            r.0 < 0x100_0000,
            r.1 <= 253,
            r.1 > 0 ==> r.0 >= 0x80_0000,
            r.0 == 0 <==> self.low() == 0,
            r.1 == (if self.low() / 0x80_0000 == 0 {
                0int
            } else {
                self.low() / 0x80_0000 - 1
            }),
            crate::scalar::magnitude(self.low()) == r.0 * vstd::arithmetic::power2::pow2(
                r.1 as nat,
            ),
    {
        let b: u32 = self.bits % SIGN;
        let e: u32 = b / BINADE;
        let m: u32 = b % BINADE;
        proof {
            vstd::arithmetic::power2::lemma2_to64();
        }
        if e == 0 {
            assert(m * vstd::arithmetic::power2::pow2(0) == m) by (nonlinear_arith)
                requires
                    vstd::arithmetic::power2::pow2(0) == 1,
            ;
            (m, 0)
        } else {
            (BINADE + m, e - 1)
        }
    }

    fn with_sign(negative: bool, low: u32) -> (r: Scalar)
        requires
            low < SIGN,
        ensures
            r == Scalar::signed(negative, low as nat),
    {
        if negative {
            Scalar { bits: low + SIGN }
        } else {
            Scalar { bits: low }
        }
    }

    /// `self + other`.
    pub fn plus(self, other: Scalar) -> (r: Scalar)
        ensures
            r == self.sum(other),
    {
        reveal(Scalar::sum);
        let a: u32 = self.bits % SIGN;
        let b: u32 = other.bits % SIGN;
        let a_neg = self.bits >= SIGN;
        let b_neg = other.bits >= SIGN;
        if a > INFINITY || b > INFINITY {
            return Scalar { bits: NAN };
        }
        if a == INFINITY {
            if b == INFINITY && a_neg != b_neg {
                return Scalar { bits: NAN };
            }
            return self;
        }
        if b == INFINITY {
            return other;
        }
        proof {
            if a < b {
                crate::scalar::lemma_magnitude_order(a as nat, b as nat);
            }
            if b < a {
                crate::scalar::lemma_magnitude_order(b as nat, a as nat);
            }
        }
        // The operand of the larger magnitude decides the sign.
        if a >= b {
            Scalar::sum_ordered(self, other)
        } else {
            assert(self.value() + other.value() == other.value() + self.value());
            Scalar::sum_ordered(other, self)
        }
    }

    fn sum_ordered(large: Scalar, small: Scalar) -> (r: Scalar)
        requires
            large.is_finite(),
            small.is_finite(),
            large.low() >= small.low(),
            crate::scalar::magnitude(large.low()) >= crate::scalar::magnitude(small.low()),
        ensures
            r == large.sum(small),
    {
        reveal(Scalar::sum);
        let (sa, ea) = large.parts();
        let (sb, eb) = small.parts();
        let negative = large.bits >= SIGN;
        let same = negative == (small.bits >= SIGN);
        let ghost ma = crate::scalar::magnitude(large.low());
        let ghost mb = crate::scalar::magnitude(small.low());
        let ghost exact = if same {
            (ma + mb) as nat
        } else {
            (ma - mb) as nat
        };
        let ghost pa = vstd::arithmetic::power2::pow2(ea as nat);
        let ghost pb = vstd::arithmetic::power2::pow2(eb as nat);
        proof {
            vstd::arithmetic::power2::lemma_pow2_pos(ea as nat);
            vstd::arithmetic::power2::lemma_pow2_pos(eb as nat);
            vstd::arithmetic::power2::lemma2_to64();
            vstd::arithmetic::power2::lemma2_to64_rest();
            lemma_exponents(large.low(), small.low());
            assert(ea >= eb);
        }
        let apart: u32 = ea - eb;
        if apart > 36 {
            proof {
                lemma_absorbed(large.low(), ea as nat, sa as nat, mb, sb as nat, eb as nat, same);
                crate::scalar::lemma_nearest(exact, 1, large.low());
                assert(exact > 0) by (nonlinear_arith)
                    requires
                        exact == ma + mb || exact == ma - mb,
                        ma == sa * pa,
                        sa >= 0x80_0000,
                        pa >= 1,
                        4 * mb < pa,
                ;
            }
            return large;
        }
        let s: u64 = apart as u64;
        let ghost ps = vstd::arithmetic::power2::pow2(s as nat);
        proof {
            crate::scalar::lemma_pow2_bound(s as nat, 36);
            vstd::arithmetic::power2::lemma_pow2_adds(s as nat, eb as nat);
            assert(sa * ps <= 0xfff_ffff_ffff_ffff) by (nonlinear_arith)
                requires
                    sa < 0x100_0000,
                    ps <= 0x10_0000_0000,
            ;
            vstd::bits::lemma_u64_shl_is_mul(sa as u64, s);
            assert(sa * (ps * pb) == (sa * ps) * pb) by (nonlinear_arith);
        }
        let wide: u64 = (sa as u64) << s;
        proof {
            assert(ma == wide * pb);
            assert(wide >= sb) by (nonlinear_arith)
                requires
                    wide * pb >= sb * pb,
                    pb > 0,
            ;
            assert(exact == (if same {
                wide + sb
            } else {
                wide - sb
            }) * pb) by (nonlinear_arith)
                requires
                    ma == wide * pb,
                    mb == sb * pb,
                    same ==> exact == ma + mb,
                    !same ==> exact == ma - mb,
            ;
        }
        let total: u64 = if same {
            wide + sb as u64
        } else {
            wide - sb as u64
        };
        if total == 0 {
            proof {
                assert(exact == 0) by (nonlinear_arith)
                    requires
                        exact == total * pb,
                        total == 0,
                ;
            }
            return Scalar::with_sign(negative && same, 0);
        }
        proof {
            assert(exact > 0) by (nonlinear_arith)
                requires
                    exact == total * pb,
                    total > 0,
                    pb > 0,
            ;
            lemma_up(eb as int);
        }
        let low = nearest_bits(total, eb as i32);
        Scalar::with_sign(negative, low)
    }

    /// `self - other`.
    pub fn minus(self, other: Scalar) -> (r: Scalar)
        ensures
            r == self.difference(other),
    {
        self.plus(other.neg())
    }

    /// `self * other`.
    pub fn times(self, other: Scalar) -> (r: Scalar)
        ensures
            r == self.product(other),
    {
        reveal(Scalar::product);
        let a: u32 = self.bits % SIGN;
        let b: u32 = other.bits % SIGN;
        let negative = (self.bits >= SIGN) != (other.bits >= SIGN);
        if a > INFINITY || b > INFINITY {
            return Scalar { bits: NAN };
        }
        if a == INFINITY || b == INFINITY {
            if a == 0 || b == 0 {
                return Scalar { bits: NAN };
            }
            return Scalar::with_sign(negative, INFINITY);
        }
        let (sa, ea) = self.parts();
        let (sb, eb) = other.parts();
        let ghost ma = crate::scalar::magnitude(self.low());
        let ghost mb = crate::scalar::magnitude(other.low());
        let ghost u = crate::scalar::unit();
        proof {
            vstd::arithmetic::power2::lemma_pow2_pos(149);
            assert(sa * sb < 0x1_0000_0000_0000) by (nonlinear_arith)
                requires
                    sa < 0x100_0000,
                    sb < 0x100_0000,
            ;
        }
        let sig: u64 = sa as u64 * sb as u64;
        if sig == 0 {
            proof {
                assert(sa == 0 || sb == 0) by (nonlinear_arith)
                    requires
                        sa * sb == 0,
                ;
                assert(ma * mb == 0) by (nonlinear_arith)
                    requires
                        ma == 0 || mb == 0,
                ;
                lemma_zero_nearest(u);
            }
            return Scalar::with_sign(negative, 0);
        }
        let x: i32 = ea as i32 + eb as i32 - 149;
        let low = nearest_bits(sig, x);
        proof {
            lemma_product(sig as nat, sa as nat, ea as nat, sb as nat, eb as nat);
            lemma_nearest_scale(sig as nat * up(x as int), up(-x), ma * mb, u);
        }
        Scalar::with_sign(negative, low)
    }

    /// `self / other`.
    pub fn over(self, other: Scalar) -> (r: Scalar)
        ensures
            r == self.quotient(other),
    {
        reveal(Scalar::quotient);
        let a: u32 = self.bits % SIGN;
        let b: u32 = other.bits % SIGN;
        let negative = (self.bits >= SIGN) != (other.bits >= SIGN);
        if a > INFINITY || b > INFINITY {
            return Scalar { bits: NAN };
        }
        if a == INFINITY {
            if b == INFINITY {
                return Scalar { bits: NAN };
            }
            return Scalar::with_sign(negative, INFINITY);
        }
        if b == INFINITY {
            return Scalar::with_sign(negative, 0);
        }
        if b == 0 {
            if a == 0 {
                return Scalar { bits: NAN };
            }
            return Scalar::with_sign(negative, INFINITY);
        }
        let ghost ma = crate::scalar::magnitude(self.low());
        let ghost mb = crate::scalar::magnitude(other.low());
        let ghost u = crate::scalar::unit();
        proof {
            vstd::arithmetic::power2::lemma_pow2_pos(149);
            crate::scalar::lemma_magnitude_order(0, b as nat);
        }
        if a == 0 {
            proof {
                lemma_zero_nearest(mb);
                assert(0 * u == 0) by (nonlinear_arith);
            }
            return Scalar::with_sign(negative, 0);
        }
        let (sa0, ea) = self.parts();
        let (sb0, eb) = other.parts();
        let (sa, ka) = normal(sa0);
        let (sb, kb) = normal(sb0);
        let x: i32 = ea as i32 - ka as i32 - eb as i32 + kb as i32 + 109;
        let wide: u64 = sa as u64 * 0x100_0000_0000;
        let low = quotient_bits(wide, sb, x);
        proof {
            let pka = vstd::arithmetic::power2::pow2(ka as nat);
            let pkb = vstd::arithmetic::power2::pow2(kb as nat);
            let pea = vstd::arithmetic::power2::pow2(ea as nat);
            let peb = vstd::arithmetic::power2::pow2(eb as nat);
            lemma_up(x as int);
            lemma_up(-x);
            lemma_quotient_powers(ea as nat, ka as nat, eb as nat, kb as nat);
            lemma_regroup(
                sa0 as int,
                sb0 as int,
                pka as int,
                0x100_0000_0000,
                up(x as int) as int,
                peb as int,
            );
            lemma_regroup(sa0 as int, sb0 as int, pea as int, u as int, pkb as int, up(-x) as int);
            assert((ma * u) * (sb * up(-x)) == (sa0 * pea * u) * ((sb0 * pkb) * up(-x)));
            assert((sa0 * pea * u) * ((sb0 * pkb) * up(-x)) == (sa0 * pea * u * pkb) * (sb0 * up(
                -x,
            ))) by (nonlinear_arith);
            assert(sb * up(-x) > 0) by (nonlinear_arith)
                requires
                    sb > 0,
                    up(-x) > 0,
            ;
            lemma_nearest_scale(
                wide as nat * up(x as int),
                sb as nat * up(-x),
                ma * u,
                mb,
            );
        }
        Scalar::with_sign(negative, low)
    }

    /// The square root of `self`.
    pub fn sqrt(self) -> (r: Scalar)
        ensures
            r == self.root(),
    {
        reveal(Scalar::root);
        let a: u32 = self.bits % SIGN;
        if a == 0 {
            return self;
        }
        if a > INFINITY || self.bits >= SIGN {
            return Scalar { bits: NAN };
        }
        if a == INFINITY {
            return self;
        }
        let (s0, e) = self.parts();
        let (sig, k) = normal(s0);
        // sig * 2^24 or sig * 2^23, so that what is left of the exponent is even.
        let odd: u32 = (e + 149 + k) % 2;
        let extra: u32 = if odd == 0 {
            24
        } else {
            23
        };
        // `e` or `k` is 0, so nothing is lost here.
        let g: u32 = (e + 149 - k - extra) / 2;
        let wide: u64 = if odd == 0 {
            sig as u64 * 0x100_0000
        } else {
            sig as u64 * 0x80_0000
        };
        let q = whole_root(wide);
        let round = wide > q * q + q;
        let b: u32 = g * BINADE + q as u32 + if round {
            1
        } else {
            0
        };
        proof {
            let v = crate::scalar::magnitude(self.low()) * crate::scalar::unit();
            let p = vstd::arithmetic::power2::pow2(g as nat);
            assert(v == wide * (p * p)) by {
                vstd::arithmetic::power2::lemma2_to64();
                lemma_root_powers(s0 as nat, e as nat, sig as nat, k as nat, extra as nat, g as nat);
            }
            lemma_root_rounding(v, wide as nat, g as nat, q as nat, round);
            assert(root_rounds_to(v, b as nat));
            let c = choose|c: nat| root_rounds_to(v, c);
            lemma_root_unique(v, b as nat, c);
        }
        Scalar { bits: b }
    }

    /// `self` rounded to a whole number, halves away from zero.
    pub fn round(self) -> (r: Scalar)
        ensures
            r == self.rounded(),
    {
        reveal(Scalar::rounded);
        let a: u32 = self.bits % SIGN;
        if a > INFINITY {
            return Scalar { bits: NAN };
        }
        if a == INFINITY {
            return self;
        }
        let (sig, e) = self.parts();
        let ghost m = crate::scalar::magnitude(self.low());
        let ghost u = crate::scalar::unit();
        let ghost n = (2 * m + u) / (2 * u);
        proof {
            vstd::arithmetic::power2::lemma_pow2_pos(149);
            vstd::arithmetic::power2::lemma2_to64();
        }
        if e >= 149 {
            proof {
                let p = vstd::arithmetic::power2::pow2((e - 149) as nat);
                vstd::arithmetic::power2::lemma_pow2_adds((e - 149) as nat, 149);
                let v = sig as nat * p;
                assert(m == v * u) by (nonlinear_arith)
                    requires
                        m == sig * (p * u),
                        v == sig * p,
                ;
                assert(v * (2 * u) == 2 * (v * u)) by (nonlinear_arith);
                vstd::arithmetic::div_mod::lemma_fundamental_div_mod_converse(
                    (2 * m + u) as int,
                    (2 * u) as int,
                    v as int,
                    u as int,
                );
                assert(n * u == m);
                lemma_exact_nearest(self.low());
            }
            return self;
        }
        let shift: u32 = 149 - e;
        let whole: u32;
        if shift > 24 {
            whole = 0;
            proof {
                let p = vstd::arithmetic::power2::pow2(shift as nat);
                let pe = vstd::arithmetic::power2::pow2(e as nat);
                vstd::arithmetic::power2::lemma_pow2_adds(e as nat, shift as nat);
                crate::scalar::lemma_pow2_bound(25, shift as nat);
                vstd::arithmetic::power2::lemma_pow2_pos(e as nat);
                assert(2 * m < u) by (nonlinear_arith)
                    requires
                        m == sig * pe,
                        u == pe * p,
                        sig < 0x100_0000,
                        p >= 0x200_0000,
                        pe > 0,
                ;
                vstd::arithmetic::div_mod::lemma_fundamental_div_mod_converse(
                    (2 * m + u) as int,
                    (2 * u) as int,
                    0,
                    (2 * m + u) as int,
                );
                assert(0 * u == 0) by (nonlinear_arith);
            }
        } else {
            proof {
                crate::scalar::lemma_pow2_bound(shift as nat, 24);
                vstd::bits::lemma_u32_shl_is_mul(1, shift);
            }
            let d: u32 = 1u32 << shift;
            whole = (2 * sig + d) / (2 * d);
            proof {
                let pe = vstd::arithmetic::power2::pow2(e as nat);
                vstd::arithmetic::power2::lemma_pow2_adds(e as nat, shift as nat);
                vstd::arithmetic::power2::lemma_pow2_pos(e as nat);
                lemma_floor_scaled((2 * sig + d) as nat, (2 * d) as nat, pe);
                assert((2 * sig + d) * pe == 2 * m + u) by (nonlinear_arith)
                    requires
                        m == sig * pe,
                        u == pe * d,
                ;
                assert((2 * d) * pe == 2 * u) by (nonlinear_arith)
                    requires
                        u == pe * d,
                ;
            }
        }
        assert(whole == n);
        if whole == 0 {
            proof {
                lemma_zero_nearest(1);
                assert(0 * u == 0) by (nonlinear_arith);
            }
            return Scalar::with_sign(self.bits >= SIGN, 0);
        }
        let low = nearest_bits(whole as u64, 149);
        Scalar::with_sign(self.bits >= SIGN, low)
    }

    /// `self` without its fraction, within what 8 bits hold.
    pub fn to_byte(self) -> (r: u8)
        ensures
            r == self.byte(),
    {
        reveal(Scalar::byte);
        let a: u32 = self.bits % SIGN;
        if a > INFINITY || self.bits >= SIGN {
            return 0;
        }
        let ghost m = crate::scalar::magnitude(self.low());
        let ghost u = crate::scalar::unit();
        proof {
            vstd::arithmetic::power2::lemma_pow2_pos(149);
            vstd::arithmetic::power2::lemma2_to64();
            vstd::arithmetic::power2::lemma_pow2_adds(149, 8);
        }
        // 256 and above.
        if a >= 0x4380_0000 {
            proof {
                lemma_256();
                if a > 0x4380_0000 {
                    crate::scalar::lemma_magnitude_order(0x4380_0000, a as nat);
                }
                crate::scalar::lemma_div_at_least(m, u, 256);
            }
            return 255;
        }
        let (sig, e) = self.parts();
        let shift: u32 = 149 - e;
        let ghost pe = vstd::arithmetic::power2::pow2(e as nat);
        proof {
            lemma_256();
            crate::scalar::lemma_magnitude_order(a as nat, 0x4380_0000);
            vstd::arithmetic::div_mod::lemma_fundamental_div_mod(m as int, u as int);
            assert(m / u < 256) by (nonlinear_arith)
                requires
                    m < 256 * u,
                    m == u * (m / u) + m % u,
                    m % u >= 0,
                    u > 0,
            ;
            vstd::arithmetic::power2::lemma_pow2_adds(e as nat, shift as nat);
            vstd::arithmetic::power2::lemma_pow2_pos(e as nat);
        }
        if shift >= 24 {
            proof {
                let p = vstd::arithmetic::power2::pow2(shift as nat);
                crate::scalar::lemma_pow2_bound(24, shift as nat);
                assert(m < u) by (nonlinear_arith)
                    requires
                        m == sig * pe,
                        u == pe * p,
                        sig < 0x100_0000,
                        p >= 0x100_0000,
                        pe > 0,
                ;
                vstd::arithmetic::div_mod::lemma_fundamental_div_mod_converse(
                    m as int,
                    u as int,
                    0,
                    m as int,
                );
            }
            return 0;
        }
        proof {
            crate::scalar::lemma_pow2_bound(shift as nat, 24);
            vstd::bits::lemma_u32_shl_is_mul(1, shift);
        }
        let d: u32 = 1u32 << shift;
        let whole: u32 = sig / d;
        proof {
            lemma_floor_scaled(sig as nat, d as nat, pe);
            assert(d * pe == u) by (nonlinear_arith)
                requires
                    u == pe * d,
            ;
        }
        whole as u8
    }

    /// The whole number `n`.
    pub fn whole(n: u32) -> (r: Scalar)
        requires
            n < 0x100_0000,
        ensures
            !r.is_signed(),
            r.is_finite(),
            r.value() == n * crate::scalar::unit(),
            r == Scalar::of(false, n as nat),
    {
        proof {
            lemma_zero_nearest(1);
            assert(0 * crate::scalar::unit() == 0) by (nonlinear_arith);
        }
        if n == 0 {
            return Scalar { bits: 0 };
        }
        let mut k: u32 = 0;
        let mut top: u32 = n;
        proof {
            vstd::arithmetic::power2::lemma2_to64();
        }
        while top < 0x80_0000
            invariant
                0 < n <= top < 0x100_0000,
                k <= 23,
                top == n * vstd::arithmetic::power2::pow2(k as nat),
                top >= vstd::arithmetic::power2::pow2(k as nat),
                vstd::arithmetic::power2::pow2(23) == 0x80_0000,
            decreases 0x100_0000 - top,
        {
            proof {
                let p = vstd::arithmetic::power2::pow2(k as nat);
                vstd::arithmetic::power2::lemma_pow2_unfold((k + 1) as nat);
                assert(n * (2 * p) == 2 * (n * p)) by (nonlinear_arith);
                if k >= 23 {
                    crate::scalar::lemma_pow2_bound(23, k as nat);
                }
            }
            top = top * 2;
            k = k + 1;
        }
        let g: u32 = 149 - k;
        proof {
            crate::scalar::lemma_pattern(g as nat, top as nat);
            vstd::arithmetic::power2::lemma_pow2_adds(k as nat, g as nat);
            let p = vstd::arithmetic::power2::pow2(k as nat);
            let pg = vstd::arithmetic::power2::pow2(g as nat);
            assert((n * p) * pg == n * (p * pg)) by (nonlinear_arith);
            lemma_exact_nearest((g * 0x80_0000 + top) as nat);
        }
        Scalar { bits: g * BINADE + top }
    }
}

/// Moves a significand up until its leading bit is in place.
fn normal(sig: u32) -> (r: (u32, u32))
    requires
        0 < sig < 0x100_0000,
    ensures
        0x80_0000 <= r.0 < 0x100_0000,
        r.1 <= 23,
        r.0 == sig * vstd::arithmetic::power2::pow2(r.1 as nat),
        sig >= 0x80_0000 ==> r.1 == 0,
{
    let mut k: u32 = 0;
    let mut top: u32 = sig;
    proof {
        vstd::arithmetic::power2::lemma2_to64();
    }
    while top < 0x80_0000
        invariant
            0 < sig <= top < 0x100_0000,
            k <= 23,
            k > 0 ==> sig < 0x80_0000,
            top == sig * vstd::arithmetic::power2::pow2(k as nat),
            top >= vstd::arithmetic::power2::pow2(k as nat),
            vstd::arithmetic::power2::pow2(23) == 0x80_0000,
        decreases 0x100_0000 - top,
    {
        proof {
            let p = vstd::arithmetic::power2::pow2(k as nat);
            vstd::arithmetic::power2::lemma_pow2_unfold((k + 1) as nat);
            assert(sig * (2 * p) == 2 * (sig * p)) by (nonlinear_arith);
            if k >= 23 {
                crate::scalar::lemma_pow2_bound(23, k as nat);
            }
        }
        top = top * 2;
        k = k + 1;
    }
    (top, k)
}

/// The pattern nearest to `wide / sb * 2^x` units of 2^-149.
fn quotient_bits(wide: u64, sb: u32, x: i32) -> (b: u32)
    requires
        0x80_0000 * 0x100_0000_0000 <= wide < 0x100_0000 * 0x100_0000_0000,
        0x80_0000 <= sb < 0x100_0000,
        -400 <= x <= 400,
    ensures
        b == crate::scalar::nearest(wide as nat * up(x as int), sb as nat * up(-x)),
        b <= INFINITY,
        exists|c: nat| #[trigger]
            crate::scalar::rounds_to(wide as nat * up(x as int), sb as nat * up(-x), c),
{
    let ghost num = wide as nat * up(x as int);
    let ghost den = sb as nat * up(-x);
    proof {
        lemma_up(x as int);
        lemma_up(-x);
        vstd::arithmetic::power2::lemma2_to64();
        vstd::arithmetic::power2::lemma2_to64_rest();
        assert(den > 0) by (nonlinear_arith)
            requires
                den == sb * up(-x),
                sb > 0,
                up(-x) > 0,
        ;
    }
    // The quotient has 40 or 41 bits.
    let len: i32 = if wide < sb as u64 * 0x100_0000_0000 {
        40
    } else {
        41
    };
    let g: i32 = if x + len - 24 > 0 {
        x + len - 24
    } else {
        0
    };
    let shift: i32 = g - x;
    let mut q: u128 = 0;
    let mut round = false;
    if shift > 60 {
        proof {
            let p = vstd::arithmetic::power2::pow2(shift as nat);
            let d = sb as nat * p;
            crate::scalar::lemma_pow2_bound(60, shift as nat);
            assert(2 * wide < d) by (nonlinear_arith)
                requires
                    d == sb * p,
                    sb >= 0x80_0000,
                    p >= 0x1000_0000_0000_0000,
                    wide < 0x100_0000 * 0x100_0000_0000,
            ;
            lemma_shifted(wide as nat, x as int, shift as int, 0);
            lemma_quotient_shifted(wide as nat, x as int, p, 1, sb as nat);
            assert(vstd::arithmetic::power2::pow2(0) == 1);
            crate::scalar::lemma_rounding(num, den, 0, 0, wide as nat, d, false);
        }
    } else {
        proof {
            crate::scalar::lemma_pow2_bound(shift as nat, 60);
            vstd::bits::lemma_u64_shl_is_mul(1, shift as u64);
        }
        let p: u64 = 1u64 << (shift as u64);
        proof {
            assert(sb * p <= 0x100_0000 * 0x1000_0000_0000_0000) by (nonlinear_arith)
                requires
                    sb < 0x100_0000,
                    p <= 0x1000_0000_0000_0000,
            ;
            assert(sb * p > 0) by (nonlinear_arith)
                requires
                    sb > 0,
                    p > 0,
            ;
        }
        let d: u128 = sb as u128 * p as u128;
        q = wide as u128 / d;
        let r: u128 = wide as u128 % d;
        round = 2 * r > d || (2 * r == d && q % 2 == 1);
        proof {
            vstd::arithmetic::div_mod::lemma_fundamental_div_mod(wide as int, d as int);
            assert(q * d + r == wide) by (nonlinear_arith)
                requires
                    wide == d * q + r,
            ;
            // wide < sb * 2^len <= 2^24 * d
            vstd::arithmetic::power2::lemma_pow2_adds(24, shift as nat);
            crate::scalar::lemma_pow2_bound(len as nat, (24 + shift) as nat);
            let pl = vstd::arithmetic::power2::pow2(len as nat);
            assert(q < 0x100_0000) by (nonlinear_arith)
                requires
                    q * d <= wide,
                    wide < sb * pl,
                    pl <= 0x100_0000 * p,
                    d == sb * p,
                    d > 0,
            ;
            if g > 0 {
                assert(len - 1 == 23 + shift);
                vstd::arithmetic::power2::lemma_pow2_adds(23, shift as nat);
                let ph = vstd::arithmetic::power2::pow2((len - 1) as nat);
                assert(wide >= sb * ph) by {
                    if len == 40 {
                        assert(sb * ph < 0x100_0000 * 0x80_0000_0000) by (nonlinear_arith)
                            requires
                                sb < 0x100_0000,
                                ph == 0x80_0000_0000,
                        ;
                    }
                }
                assert(q >= 0x80_0000) by (nonlinear_arith)
                    requires
                        q * d + r == wide,
                        r < d,
                        wide >= sb * ph,
                        ph == 0x80_0000 * p,
                        d == sb * p,
                ;
            }
            lemma_shifted(wide as nat, x as int, shift as int, g as int);
            lemma_quotient_shifted(
                wide as nat,
                x as int,
                p as nat,
                vstd::arithmetic::power2::pow2(g as nat),
                sb as nat,
            );
            crate::scalar::lemma_rounding(
                num,
                den,
                g as nat,
                q as nat,
                r as nat,
                d as nat,
                round,
            );
        }
    }
    let b: u32 = g as u32 * BINADE + q as u32 + if round {
        1
    } else {
        0
    };
    proof {
        crate::scalar::lemma_nearest(num, den, b as nat);
    }
    if b < INFINITY {
        b
    } else {
        INFINITY
    }
}

proof fn lemma_regroup(a: int, b: int, p: int, q: int, r: int, t: int)
    ensures
        ((a * p) * q * r) * (b * t) == (a * b) * (p * q * r * t),
{
    assert((a * p) * q * r == a * (p * q * r)) by (nonlinear_arith);
    let k = p * q * r;
    assert((a * k) * (b * t) == (a * b) * (k * t)) by (nonlinear_arith);
}

proof fn lemma_quotient_shifted(wide: nat, x: int, p: nat, pg: nat, sb: nat)
    requires
        (wide * up(x)) * p == wide * pg * up(-x),
    ensures
        (wide * up(x)) * (sb * p) == wide * pg * (sb * up(-x)),
{
    let a = wide * up(x);
    let c = wide * pg;
    let y = up(-x);
    assert(a * (sb * p) == (a * p) * sb) by (nonlinear_arith);
    assert(c * (sb * y) == (c * y) * sb) by (nonlinear_arith);
}

proof fn lemma_quotient_powers(ea: nat, ka: nat, eb: nat, kb: nat)
    requires
        ea <= 253,
        ka <= 23,
        eb <= 253,
        kb <= 23,
    ensures
        vstd::arithmetic::power2::pow2(ka) * 0x100_0000_0000 * up(ea - ka - eb + kb + 109)
            * vstd::arithmetic::power2::pow2(eb) == vstd::arithmetic::power2::pow2(ea)
            * crate::scalar::unit() * vstd::arithmetic::power2::pow2(kb) * up(
            -(ea - ka - eb + kb + 109),
        ),
{
    let x = ea - ka - eb + kb + 109;
    let l = if x > 0 {
        x as nat
    } else {
        0
    };
    let r = if x < 0 {
        (-x) as nat
    } else {
        0
    };
    lemma_up(x);
    lemma_up(-x);
    vstd::arithmetic::power2::lemma2_to64();
    vstd::arithmetic::power2::lemma2_to64_rest();
    assert(up(x) == vstd::arithmetic::power2::pow2(l));
    assert(up(-x) == vstd::arithmetic::power2::pow2(r));
    vstd::arithmetic::power2::lemma_pow2_adds(ka, 40);
    vstd::arithmetic::power2::lemma_pow2_adds(ka + 40, l);
    vstd::arithmetic::power2::lemma_pow2_adds(ka + 40 + l, eb);
    vstd::arithmetic::power2::lemma_pow2_adds(ea, 149);
    vstd::arithmetic::power2::lemma_pow2_adds(ea + 149, kb);
    vstd::arithmetic::power2::lemma_pow2_adds(ea + 149 + kb, r);
    assert(ka + 40 + l + eb == ea + 149 + kb + r);
}

proof fn lemma_floor_scaled(a: nat, b: nat, c: nat)
    requires
        b > 0,
        c > 0,
    ensures
        (a * c) / (b * c) == a / b,
{
    let q = a / b;
    let r = a % b;
    vstd::arithmetic::div_mod::lemma_fundamental_div_mod(a as int, b as int);
    assert(a * c == q * (b * c) + r * c && 0 <= r * c < b * c) by (nonlinear_arith)
        requires
            a == b * q + r,
            0 <= r < b,
            c > 0,
    ;
    vstd::arithmetic::div_mod::lemma_fundamental_div_mod_converse(
        (a * c) as int,
        (b * c) as int,
        q as int,
        (r * c) as int,
    );
}

proof fn lemma_256()
    ensures
        crate::scalar::magnitude(0x4380_0000) == 256 * crate::scalar::unit(),
{
    vstd::arithmetic::power2::lemma_pow2_adds(149, 8);
    vstd::arithmetic::power2::lemma_pow2_adds(23, 134);
    vstd::arithmetic::power2::lemma2_to64();
    assert(0x4380_0000nat / 0x80_0000 == 135 && 0x4380_0000nat % 0x80_0000 == 0);
}

/// A number that needs no rounding is its own nearest.
proof fn lemma_exact_nearest(b: nat)
    requires
        b < INFINITY,
    ensures
        crate::scalar::nearest(crate::scalar::magnitude(b), 1) == b,
{
    let m = crate::scalar::magnitude(b);
    crate::scalar::lemma_step(b);
    if b > 0 {
        crate::scalar::lemma_step((b - 1) as nat);
    }
    let hi = m + crate::scalar::magnitude(b + 1);
    let lo = crate::scalar::magnitude((b - 1) as nat) + m;
    assert(hi * 1 == hi && lo * 1 == lo) by (nonlinear_arith);
    assert(crate::scalar::rounds_to(m, 1, b));
    crate::scalar::lemma_nearest(m, 1, b);
}

/// Some pattern is nearest to any fraction.
pub proof fn lemma_nearest_exists(num: nat, den: nat)
    requires
        den > 0,
    ensures
        exists|b: nat| #[trigger] crate::scalar::rounds_to(num, den, b),
{
    assert(crate::scalar::magnitude(num + 1) >= num + 1) by {
        lemma_magnitude_grows(num + 1);
    }
    assert(crate::scalar::magnitude(num + 1) * den > num) by (nonlinear_arith)
        requires
            crate::scalar::magnitude(num + 1) >= num + 1,
            den > 0,
    ;
    lemma_nearest_below(num, den, num + 1);
}

pub proof fn lemma_magnitude_grows(b: nat)
    ensures
        crate::scalar::magnitude(b) >= b,
    decreases b,
{
    if b > 0 {
        lemma_magnitude_grows((b - 1) as nat);
        crate::scalar::lemma_step((b - 1) as nat);
    }
}

/// Searches below the pattern `b`, which is past the fraction.
proof fn lemma_nearest_below(num: nat, den: nat, b: nat)
    requires
        den > 0,
        crate::scalar::magnitude(b) * den > num,
    ensures
        exists|c: nat| #[trigger] crate::scalar::rounds_to(num, den, c),
    decreases b,
{
    assert(crate::scalar::magnitude(0) == 0);
    assert(0 * den == 0) by (nonlinear_arith);
    assert(b > 0);
    let a = (b - 1) as nat;
    if crate::scalar::magnitude(a) * den > num {
        lemma_nearest_below(num, den, a);
    } else {
        // The fraction lies between two neighbours.
        crate::scalar::lemma_step(a);
        crate::scalar::lemma_step(b);
        let x = crate::scalar::magnitude(a);
        let y = crate::scalar::magnitude(b);
        let z = crate::scalar::magnitude(b + 1);
        assert((x + y) * den == x * den + y * den && (y + z) * den > 2 * num) by (nonlinear_arith)
            requires
                y * den > num,
                z > y,
                den > 0,
        ;
        if a > 0 {
            crate::scalar::lemma_step((a - 1) as nat);
            let w = crate::scalar::magnitude((a - 1) as nat);
            assert((w + x) * den < 2 * (x * den)) by (nonlinear_arith)
                requires
                    w < x,
                    den > 0,
            ;
        }
        if 2 * num < (x + y) * den || (2 * num == (x + y) * den && a % 2 == 0) {
            if a > 0 {
                let w = crate::scalar::magnitude((a - 1) as nat);
                if x * den <= num && !((w + x) * den < 2 * num) {
                    assert(false);
                }
            }
            assert(crate::scalar::rounds_to(num, den, a));
        } else {
            assert(crate::scalar::rounds_to(num, den, b));
        }
    }
}

/// What is at most a number rounds to at most that number.
pub proof fn lemma_nearest_at_most(num: nat, den: nat, b: nat)
    requires
        den > 0,
        num <= crate::scalar::magnitude(b) * den,
    ensures
        crate::scalar::nearest(num, den) <= b,
{
    lemma_nearest_exists(num, den);
    let c = choose|c: nat| crate::scalar::rounds_to(num, den, c);
    if c > b {
        if c - 1 > b {
            crate::scalar::lemma_magnitude_order(b, (c - 1) as nat);
        }
        crate::scalar::lemma_magnitude_order(b, c);
        let x = crate::scalar::magnitude(b);
        let y = crate::scalar::magnitude((c - 1) as nat) + crate::scalar::magnitude(c);
        assert(y * den > 2 * (x * den)) by (nonlinear_arith)
            requires
                y > 2 * x,
                den > 0,
        ;
    }
}

/// The whole part of a square root.
fn whole_root(w: u64) -> (q: u64)
    requires
        0x4000_0000_0000 <= w < 0x1_0000_0000_0000,
    ensures
        q * q <= w < (q + 1) * (q + 1),
        0x80_0000 <= q < 0x100_0000,
{
    let mut lo: u64 = 0x80_0000;
    let mut hi: u64 = 0x100_0000;
    while hi - lo > 1
        invariant
            0x80_0000 <= lo < hi <= 0x100_0000,
            lo * lo <= w < hi * hi,
        decreases hi - lo,
    {
        let mid: u64 = lo + (hi - lo) / 2;
        proof {
            assert(mid * mid <= 0x1_0000_0000_0000) by (nonlinear_arith)
                requires
                    mid <= 0x100_0000,
            ;
        }
        if mid * mid <= w {
            lo = mid;
        } else {
            hi = mid;
        }
    }
    proof {
        assert(hi == lo + 1);
        assert(lo * lo + lo <= 0x2_0000_0000_0000) by (nonlinear_arith)
            requires
                lo < 0x100_0000,
        ;
    }
    lo
}

proof fn lemma_root_powers(s0: nat, e: nat, sig: nat, k: nat, extra: nat, g: nat)
    requires
        sig == s0 * vstd::arithmetic::power2::pow2(k),
        extra == 23 || extra == 24,
        e + 149 == k + extra + 2 * g,
    ensures
        (s0 * vstd::arithmetic::power2::pow2(e)) * crate::scalar::unit() == (sig
            * vstd::arithmetic::power2::pow2(extra)) * (vstd::arithmetic::power2::pow2(g)
            * vstd::arithmetic::power2::pow2(g)),
{
    let pe = vstd::arithmetic::power2::pow2(e);
    let pk = vstd::arithmetic::power2::pow2(k);
    let px = vstd::arithmetic::power2::pow2(extra);
    let pg = vstd::arithmetic::power2::pow2(g);
    let u = crate::scalar::unit();
    vstd::arithmetic::power2::lemma_pow2_adds(e, 149);
    vstd::arithmetic::power2::lemma_pow2_adds(k, extra);
    vstd::arithmetic::power2::lemma_pow2_adds(g, g);
    vstd::arithmetic::power2::lemma_pow2_adds(k + extra, g + g);
    assert(pe * u == (pk * px) * (pg * pg));
    assert((s0 * pe) * u == s0 * (pe * u)) by (nonlinear_arith);
    assert(s0 * ((pk * px) * (pg * pg)) == ((s0 * pk) * px) * (pg * pg)) by (nonlinear_arith);
}

proof fn lemma_square_order(a: nat, b: nat)
    requires
        a < b,
    ensures
        a * a < b * b,
{
    assert(a * a < b * b) by (nonlinear_arith)
        requires
            a < b,
    ;
}

proof fn lemma_root_rounding(v: nat, w: nat, g: nat, q: nat, round: bool)
    requires
        v == w * (vstd::arithmetic::power2::pow2(g) * vstd::arithmetic::power2::pow2(g)),
        q * q <= w < (q + 1) * (q + 1),
        0x80_0000 <= q < 0x100_0000,
        round == (w > q * q + q),
    ensures
        root_rounds_to(v, (g * 0x80_0000 + q + if round { 1int } else { 0int }) as nat),
{
    let p = vstd::arithmetic::power2::pow2(g);
    let q1 = (q + if round { 1int } else { 0int }) as nat;
    let b = (g * 0x80_0000 + q1) as nat;
    vstd::arithmetic::power2::lemma_pow2_pos(g);
    crate::scalar::lemma_pattern(g, q1);
    crate::scalar::lemma_step(b);
    crate::scalar::lemma_step((b - 1) as nat);
    assert(crate::scalar::magnitude(b + 1) >= q1 * p + p) by {
        if q1 < 0x100_0000 {
            crate::scalar::lemma_pattern(g, q1 + 1);
            assert((q1 + 1) * p == q1 * p + p) by (nonlinear_arith);
        } else {
            assert(b == (g + 2) * 0x80_0000);
            assert(b / 0x80_0000 == g + 2);
            vstd::arithmetic::power2::lemma_pow2_unfold(g + 1);
        }
    }
    let above = crate::scalar::magnitude(b) + crate::scalar::magnitude(b + 1);
    let below = crate::scalar::magnitude((b - 1) as nat) + crate::scalar::magnitude(b);
    let hi = (2 * q1 + 1) * p;
    assert(above >= hi) by (nonlinear_arith)
        requires
            above >= q1 * p + (q1 * p + p),
            hi == (2 * q1 + 1) * p,
    ;
    // 4 w < (2 q1 + 1)^2
    assert(4 * w < (2 * q1 + 1) * (2 * q1 + 1)) by (nonlinear_arith)
        requires
            w < (q + 1) * (q + 1),
            w > q * q + q ==> q1 == q + 1,
            w <= q * q + q ==> q1 == q,
    ;
    assert(4 * v < hi * hi) by (nonlinear_arith)
        requires
            v == w * (p * p),
            hi == (2 * q1 + 1) * p,
            4 * w < (2 * q1 + 1) * (2 * q1 + 1),
            p > 0,
    ;
    assert(hi * hi <= above * above) by (nonlinear_arith)
        requires
            hi <= above,
    ;
    if round {
        assert(crate::scalar::magnitude((b - 1) as nat) == q * p) by {
            crate::scalar::lemma_pattern(g, q);
        }
        assert(below == (2 * q + 1) * p) by (nonlinear_arith)
            requires
                below == q * p + q1 * p,
                q1 == q + 1,
        ;
        assert((2 * q + 1) * (2 * q + 1) < 4 * w) by (nonlinear_arith)
            requires
                w > q * q + q,
        ;
        assert(below * below < 4 * v) by (nonlinear_arith)
            requires
                below == (2 * q + 1) * p,
                v == w * (p * p),
                (2 * q + 1) * (2 * q + 1) < 4 * w,
                p > 0,
        ;
    } else {
        let top = 2 * (q * p);
        assert(below < top);
        lemma_square_order(below, top);
        assert(top * top <= 4 * v) by (nonlinear_arith)
            requires
                top == 2 * (q * p),
                v == w * (p * p),
                q * q <= w,
        ;
    }
}

proof fn lemma_root_unique(v: nat, a: nat, b: nat)
    requires
        root_rounds_to(v, a),
        root_rounds_to(v, b),
    ensures
        a == b,
{
    lemma_root_ordered(v, a, b);
    lemma_root_ordered(v, b, a);
}

proof fn lemma_root_ordered(v: nat, a: nat, b: nat)
    requires
        root_rounds_to(v, a),
        root_rounds_to(v, b),
    ensures
        a >= b,
{
    if a < b {
        crate::scalar::lemma_step(a);
        crate::scalar::lemma_step((b - 1) as nat);
        let above = crate::scalar::magnitude(a) + crate::scalar::magnitude(a + 1);
        let below = crate::scalar::magnitude((b - 1) as nat) + crate::scalar::magnitude(b);
        if a + 1 < b {
            if a + 1 < b - 1 {
                crate::scalar::lemma_magnitude_order(a + 1, (b - 1) as nat);
            }
            lemma_square_order(above, below);
        }
    }
}

/// A larger pattern has no smaller exponent.
proof fn lemma_exponents(a: nat, b: nat)
    requires
        a >= b,
    ensures
        a / 0x80_0000 >= b / 0x80_0000,
{
}

proof fn lemma_zero_nearest(den: nat)
    requires
        den > 0,
    ensures
        crate::scalar::nearest(0, den) == 0,
        crate::scalar::magnitude(0) == 0,
{
    crate::scalar::lemma_magnitude_order(0, 1);
    let hi = crate::scalar::magnitude(0) + crate::scalar::magnitude(1);
    assert(hi * den > 0) by (nonlinear_arith)
        requires
            hi > 0,
            den > 0,
    ;
    assert(crate::scalar::rounds_to(0, den, 0));
    crate::scalar::lemma_nearest(0, den, 0);
}

/// Equal fractions have the same nearest pattern.
proof fn lemma_nearest_scale(n1: nat, d1: nat, n2: nat, d2: nat)
    requires
        d1 > 0,
        d2 > 0,
        n1 * d2 == n2 * d1,
        exists|c: nat| #[trigger] crate::scalar::rounds_to(n1, d1, c),
    ensures
        crate::scalar::nearest(n1, d1) == crate::scalar::nearest(n2, d2),
{
    let b = choose|b: nat| #[trigger] crate::scalar::rounds_to(n1, d1, b);
    crate::scalar::lemma_rounds_to_scale(n1, d1, d2, b);
    crate::scalar::lemma_rounds_to_scale(n2, d2, d1, b);
    assert(d1 * d2 == d2 * d1) by (nonlinear_arith);
    crate::scalar::lemma_nearest(n1, d1, b);
    crate::scalar::lemma_nearest(n2, d2, b);
}

proof fn lemma_product(sig: nat, sa: nat, ea: nat, sb: nat, eb: nat)
    requires
        sig == sa * sb,
    ensures
        (sig * up(ea + eb - 149)) * crate::scalar::unit() == ((sa
            * vstd::arithmetic::power2::pow2(ea)) * (sb * vstd::arithmetic::power2::pow2(eb)))
            * up(149 - ea - eb),
        up(ea + eb - 149) > 0,
        up(149 - ea - eb) > 0,
{
    let x = ea + eb - 149;
    let pa = vstd::arithmetic::power2::pow2(ea);
    let pb = vstd::arithmetic::power2::pow2(eb);
    let u = crate::scalar::unit();
    lemma_up(x);
    lemma_up(-x);
    vstd::arithmetic::power2::lemma_pow2_adds(ea, eb);
    let pp = vstd::arithmetic::power2::pow2(ea + eb);
    assert((sa * pa) * (sb * pb) == sig * pp) by (nonlinear_arith)
        requires
            sig == sa * sb,
            pp == pa * pb,
    ;
    if x >= 0 {
        vstd::arithmetic::power2::lemma_pow2_adds(x as nat, 149);
        let px = up(x);
        assert(pp == px * u);
        assert((sig * px) * u == (sig * (px * u)) * 1) by (nonlinear_arith);
    } else {
        vstd::arithmetic::power2::lemma_pow2_adds(ea + eb, (-x) as nat);
        let px = up(-x);
        assert(u == pp * px);
        assert((sig * 1) * (pp * px) == (sig * pp) * px) by (nonlinear_arith);
    }
}

/// An operand far below the last place of the other one does not move it.
proof fn lemma_absorbed(
    b: nat,
    ea: nat,
    sa: nat,
    mb: nat,
    sb: nat,
    eb: nat,
    same: bool,
)
    requires
        crate::scalar::magnitude(b) == sa * vstd::arithmetic::power2::pow2(ea),
        b / 0x80_0000 == ea + 1,
        ea > eb + 36,
        sa >= 0x80_0000,
        sb < 0x100_0000,
        mb == sb * vstd::arithmetic::power2::pow2(eb),
    ensures
        4 * mb < vstd::arithmetic::power2::pow2(ea),
        crate::scalar::rounds_to(
            (crate::scalar::magnitude(b) + if same {
                mb as int
            } else {
                -mb
            }) as nat,
            1,
            b,
        ),
{
    let pa = vstd::arithmetic::power2::pow2(ea);
    let pb = vstd::arithmetic::power2::pow2(eb);
    vstd::arithmetic::power2::lemma2_to64();
    vstd::arithmetic::power2::lemma_pow2_pos(eb);
    vstd::arithmetic::power2::lemma_pow2_adds(26, eb);
    crate::scalar::lemma_pow2_bound(26 + eb, ea);
    assert(4 * mb < pa) by (nonlinear_arith)
        requires
            mb == sb * pb,
            sb < 0x100_0000,
            0x400_0000 * pb <= pa,
            pb > 0,
    ;
    let m = crate::scalar::magnitude(b);
    crate::scalar::lemma_step(b);
    crate::scalar::lemma_step((b - 1) as nat);
    vstd::arithmetic::power2::lemma_pow2_unfold(ea);
    // The neighbours are at least half a last place away.
    assert(crate::scalar::magnitude(b + 1) == m + pa);
    assert(crate::scalar::magnitude((b - 1) as nat) + pa <= m || 2
        * crate::scalar::magnitude((b - 1) as nat) + pa <= 2 * m) by {
        let below = (b - 1) as nat;
        if below / 0x80_0000 == ea + 1 {
        } else {
            assert(below / 0x80_0000 == ea);
        }
    }
    let hi = m + crate::scalar::magnitude(b + 1);
    let lo = crate::scalar::magnitude((b - 1) as nat) + m;
    assert(hi * 1 == hi && lo * 1 == lo) by (nonlinear_arith);
    assert(m >= mb) by (nonlinear_arith)
        requires
            m == sa * pa,
            sa >= 1,
            4 * mb < pa,
    ;
}

impl Scalar {
    /// The whole number `k`, rounded.
    pub open spec fn integer(k: int) -> Scalar {
        Scalar::of(
            k < 0,
            if k < 0 {
                (-k) as nat
            } else {
                k as nat
            },
        )
    }
}

/// Whole numbers up to 2^24 are kept exactly.
pub proof fn lemma_whole(n: nat)
    requires
        n <= 0x100_0000,
    ensures
        crate::scalar::nearest(n * crate::scalar::unit(), 1) < INFINITY,
        crate::scalar::magnitude(crate::scalar::nearest(n * crate::scalar::unit(), 1)) == n
            * crate::scalar::unit(),
{
    if n == 0 {
        lemma_zero_nearest(1);
        assert(0 * crate::scalar::unit() == 0) by (nonlinear_arith);
    } else {
        vstd::arithmetic::power2::lemma2_to64();
        let (k, top) = lemma_normal(n);
        let g = (149 - k) as nat;
        crate::scalar::lemma_pattern(g, top);
        vstd::arithmetic::power2::lemma_pow2_adds(k, g);
        let p = vstd::arithmetic::power2::pow2(k);
        let pg = vstd::arithmetic::power2::pow2(g);
        assert((n * p) * pg == n * (p * pg)) by (nonlinear_arith);
        lemma_exact_nearest((g * 0x80_0000 + top) as nat);
    }
}

proof fn lemma_normal(n: nat) -> (r: (nat, nat))
    requires
        0 < n <= 0x100_0000,
    ensures
        0x80_0000 <= r.1 <= 0x100_0000,
        r.0 <= 23,
        r.1 == n * vstd::arithmetic::power2::pow2(r.0),
        n < 0x100_0000 ==> r.1 < 0x100_0000,
    decreases 0x100_0000 - n,
{
    vstd::arithmetic::power2::lemma2_to64();
    if n >= 0x80_0000 {
        (0, n)
    } else {
        let (k, top) = lemma_normal(2 * n);
        let p = vstd::arithmetic::power2::pow2(k);
        vstd::arithmetic::power2::lemma_pow2_unfold(k + 1);
        assert((2 * n) * p == n * (2 * p)) by (nonlinear_arith);
        assert((2 * n) * p >= 2 * p) by (nonlinear_arith)
            requires
                n > 0,
        ;
        if k >= 23 {
            crate::scalar::lemma_pow2_bound(23, k);
        }
        (k + 1, top)
    }
}

/// Whole numbers up to 2^24 have the value they stand for.
pub proof fn lemma_integer_value(k: int)
    requires
        -0x100_0000 <= k <= 0x100_0000,
    ensures
        Scalar::integer(k).is_finite(),
        Scalar::integer(k).value() == k * crate::scalar::unit(),
        Scalar::integer(k).is_signed() == (k < 0),
{
    let n = if k < 0 {
        (-k) as nat
    } else {
        k as nat
    };
    lemma_whole(n);
    if k < 0 {
        assert(k * crate::scalar::unit() == -(n * crate::scalar::unit())) by (nonlinear_arith)
            requires
                n == -k,
        ;
    }
}

/// Adding 1 to a whole number below 2^24, and taking 1 from one above -2^24, is exact.
pub proof fn lemma_integer_step(k: int)
    requires
        -0x100_0000 <= k <= 0x100_0000,
    ensures
        k < 0x100_0000 ==> Scalar::integer(k).sum(Scalar { bits: ONE }) == Scalar::integer(k + 1),
        k > -0x100_0000 ==> Scalar::integer(k).difference(Scalar { bits: ONE })
            == Scalar::integer(k - 1),
{
    reveal(Scalar::sum);
    let one = Scalar { bits: ONE };
    let u = crate::scalar::unit();
    lemma_integer_value(k);
    crate::scalar::lemma_one();
    lemma_zero_nearest(1);
    assert(0 * u == 0) by (nonlinear_arith);
    assert((k + 1) * u == k * u + u && (k - 1) * u == k * u - u) by (nonlinear_arith);
    assert((-(k + 1)) * u == -((k + 1) * u) && (-(k - 1)) * u == -((k - 1) * u))
        by (nonlinear_arith);
    vstd::arithmetic::power2::lemma_pow2_pos(149);
    assert(k + 1 > 0 ==> (k + 1) * u > 0) by (nonlinear_arith)
        requires
            u > 0,
    ;
    assert(k + 1 < 0 ==> (k + 1) * u < 0) by (nonlinear_arith)
        requires
            u > 0,
    ;
    assert(k - 1 > 0 ==> (k - 1) * u > 0) by (nonlinear_arith)
        requires
            u > 0,
    ;
    assert(k - 1 < 0 ==> (k - 1) * u < 0) by (nonlinear_arith)
        requires
            u > 0,
    ;
}

/// A whole number, limited to the range from -1 to 1, is its sign.
pub proof fn lemma_integer_clamped(k: int)
    requires
        -0x100_0000 <= k <= 0x100_0000,
    ensures
        Scalar::integer(k).clamped() == (if k < 0 {
            Scalar { bits: 0xbf80_0000 }
        } else if k == 0 {
            Scalar { bits: 0 }
        } else {
            Scalar { bits: ONE }
        }),
{
    let u = crate::scalar::unit();
    lemma_integer_value(k);
    crate::scalar::lemma_one();
    vstd::arithmetic::power2::lemma_pow2_pos(149);
    let n = if k < 0 {
        (-k) as nat
    } else {
        k as nat
    };
    lemma_whole(n);
    let b = crate::scalar::nearest(n * u, 1);
    if n == 0 {
        lemma_zero_nearest(1);
        assert(0 * u == 0) by (nonlinear_arith);
    } else if n == 1 {
        assert(1 * u == u) by (nonlinear_arith);
        if b < ONE {
            crate::scalar::lemma_magnitude_order(b, ONE as nat);
        }
        if b > ONE {
            crate::scalar::lemma_magnitude_order(ONE as nat, b);
        }
        assert(k * u == u || k * u == -u) by (nonlinear_arith)
            requires
                k == 1 || k == -1,
        ;
    } else {
        assert(k > 0 ==> k * u > u) by (nonlinear_arith)
            requires
                k >= 2 || k <= -2,
                u > 0,
        ;
        assert(k < 0 ==> k * u < -u) by (nonlinear_arith)
            requires
                k >= 2 || k <= -2,
                u > 0,
        ;
    }
}

/// A share of whole numbers has the sign of its numerator. It is at most 1 if the numerator is at
/// most the denominator, and 0 only if the numerator is.
pub proof fn lemma_share(negative: bool, n: nat, d: nat, whole: Scalar)
    requires
        n <= 0x100_0000,
        0 < d <= 0x100_0000,
        whole.is_finite(),
        whole.value() == d * crate::scalar::unit(),
    ensures
        ({
            let q = Scalar::of(negative, n).quotient(whole);
            &&& !q.is_nan()
            &&& q.is_signed() == negative
            &&& q.low() == 0 <==> n == 0
            &&& n <= d ==> q.low() <= ONE
        }),
{
    reveal(Scalar::quotient);
    let u = crate::scalar::unit();
    crate::scalar::lemma_one();
    lemma_whole(n);
    lemma_unit_large();
    let num = (n * u) * u;
    let den = d * u;
    assert(den > 0) by (nonlinear_arith)
        requires
            den == d * u,
            d > 0,
            u > 0,
    ;
    lemma_nearest_exists(num, den);
    let b = choose|b: nat| crate::scalar::rounds_to(num, den, b);
    if n == 0 {
        assert(num == 0) by (nonlinear_arith)
            requires
                num == (n * u) * u,
                n == 0,
        ;
        lemma_zero_nearest(den);
    } else if b == 0 {
        crate::scalar::lemma_step(0);
        assert(crate::scalar::magnitude(1) == 1);
        assert(1 * den == den) by (nonlinear_arith);
        assert(2 * num > den) by (nonlinear_arith)
            requires
                num == (n * u) * u,
                den == d * u,
                n >= 1,
                u > d,
                d > 0,
        ;
    }
    if n <= d {
        assert(num <= u * den) by (nonlinear_arith)
            requires
                num == (n * u) * u,
                den == d * u,
                n <= d,
                u > 0,
        ;
        lemma_nearest_at_most(num, den, ONE as nat);
    }
}

pub proof fn lemma_unit_large()
    ensures
        crate::scalar::unit() > 0x100_0000,
{
    vstd::arithmetic::power2::lemma2_to64();
    vstd::arithmetic::power2::lemma_pow2_strictly_increases(24, 149);
}

/// What is at least a number rounds to at least that number.
pub proof fn lemma_nearest_at_least(num: nat, den: nat, b: nat)
    requires
        den > 0,
        b <= INFINITY,
        crate::scalar::magnitude(b) * den <= num,
    ensures
        crate::scalar::nearest(num, den) >= b,
{
    lemma_nearest_exists(num, den);
    let c = choose|c: nat| crate::scalar::rounds_to(num, den, c);
    if c < b {
        if c + 1 < b {
            crate::scalar::lemma_magnitude_order(c + 1, b);
        }
        crate::scalar::lemma_magnitude_order(c, b);
        let x = crate::scalar::magnitude(b);
        let y = crate::scalar::magnitude(c) + crate::scalar::magnitude(c + 1);
        assert(y * den < 2 * (x * den)) by (nonlinear_arith)
            requires
                y < 2 * x,
                den > 0,
        ;
    }
}

proof fn lemma_ordered(a: nat, b: nat)
    requires
        a <= b,
    ensures
        crate::scalar::magnitude(a) <= crate::scalar::magnitude(b),
{
    if a < b {
        crate::scalar::lemma_magnitude_order(a, b);
    }
}

/// Adding what is not negative makes nothing less, and adding what is not positive nothing more.
pub proof fn lemma_sum_order(a: Scalar, b: Scalar)
    requires
        a.is_finite(),
        b.is_finite(),
    ensures
        !a.sum(b).is_nan(),
        b.value() >= 0 ==> a.sum(b).value() >= a.value(),
        b.value() <= 0 ==> a.sum(b).value() <= a.value(),
        a.value() + b.value() >= 0 ==> a.sum(b).value() >= 0,
{
    reveal(Scalar::sum);
    let s = a.value() + b.value();
    let m = crate::scalar::magnitude(a.low());
    crate::scalar::lemma_one();
    assert(m * 1 == m) by (nonlinear_arith);
    let n = if s < 0 {
        (-s) as nat
    } else {
        s as nat
    };
    let low = crate::scalar::nearest(n, 1);
    if n <= m {
        lemma_nearest_at_most(n, 1, a.low());
        lemma_ordered(low, a.low());
    }
    if n >= m {
        lemma_nearest_at_least(n, 1, a.low());
        lemma_ordered(a.low(), low);
    }
    assert(s != 0 ==> a.sum(b).low() == low);
}

pub proof fn lemma_root_below(v: nat, b: nat)
    requires
        crate::scalar::magnitude(b) * crate::scalar::magnitude(b) > v,
    ensures
        exists|c: nat| #[trigger] root_rounds_to(v, c),
    decreases b,
{
    if b == 0 {
        assert(crate::scalar::magnitude(b) == 0);
        assert(0nat * 0nat == 0) by (nonlinear_arith);
    }
    let a = (b - 1) as nat;
    let x = crate::scalar::magnitude(a);
    let y = crate::scalar::magnitude(b);
    if x * x > v {
        lemma_root_below(v, a);
    } else {
        // The root lies between two neighbours.
        crate::scalar::lemma_step(a);
        crate::scalar::lemma_step(b);
        let z = crate::scalar::magnitude(b + 1);
        assert((y + z) * (y + z) > 4 * v) by (nonlinear_arith)
            requires
                y * y > v,
                z > y,
        ;
        if a > 0 {
            crate::scalar::lemma_step((a - 1) as nat);
        }
        let w = crate::scalar::magnitude((a - 1) as nat);
        assert(a > 0 ==> (w + x) * (w + x) <= 4 * v) by (nonlinear_arith)
            requires
                a > 0 ==> w < x,
                x * x <= v,
        ;
        assert(a > 0 && (w + x) * (w + x) == 4 * v ==> false) by (nonlinear_arith)
            requires
                a > 0 ==> w < x,
                x * x <= v,
        ;
        if 4 * v < (x + y) * (x + y) || (4 * v == (x + y) * (x + y) && a % 2 == 0) {
            assert(root_rounds_to(v, a));
        } else {
            assert(root_rounds_to(v, b));
        }
    }
}

/// The root of what is at most a square is at most its side.
pub proof fn lemma_root_at_most(v: nat, b: nat)
    requires
        v <= crate::scalar::magnitude(b) * crate::scalar::magnitude(b),
    ensures
        nearest_root(v) <= b,
{
    lemma_magnitude_grows(v + 1);
    let big = crate::scalar::magnitude(v + 1);
    assert(big * big > v) by (nonlinear_arith)
        requires
            big >= v + 1,
    ;
    lemma_root_below(v, v + 1);
    let c = choose|c: nat| root_rounds_to(v, c);
    if c > b {
        if c - 1 > b {
            crate::scalar::lemma_magnitude_order(b, (c - 1) as nat);
        }
        crate::scalar::lemma_magnitude_order(b, c);
        let x = crate::scalar::magnitude(b);
        let y = crate::scalar::magnitude((c - 1) as nat) + crate::scalar::magnitude(c);
        assert(y * y > 4 * (x * x)) by (nonlinear_arith)
            requires
                y > 2 * x,
        ;
    }
}

/// A product with a factor between -1 and 1 is no larger than the other factor.
pub proof fn lemma_product_shrinks(a: Scalar, b: Scalar)
    requires
        a.is_finite(),
        b.low() <= ONE,
    ensures
        a.product(b).low() <= a.low(),
        a.product(b).is_signed() == (a.is_signed() != b.is_signed()),
{
    reveal(Scalar::product);
    let u = crate::scalar::unit();
    let ma = crate::scalar::magnitude(a.low());
    let mb = crate::scalar::magnitude(b.low());
    crate::scalar::lemma_one();
    lemma_ordered(b.low(), ONE as nat);
    assert(ma * mb <= ma * u) by (nonlinear_arith)
        requires
            mb <= u,
    ;
    lemma_nearest_at_most(ma * mb, u, a.low());
}

/// Half of what is between 0 and 1 is between 0 and 1.
pub proof fn lemma_half(a: Scalar)
    requires
        !a.is_signed(),
        a.low() <= ONE,
    ensures
        !a.quotient(Scalar { bits: 0x4000_0000 }).is_signed(),
        a.quotient(Scalar { bits: 0x4000_0000 }).low() <= ONE,
{
    reveal(Scalar::quotient);
    let u = crate::scalar::unit();
    let m = crate::scalar::magnitude(a.low());
    crate::scalar::lemma_one();
    lemma_ordered(a.low(), ONE as nat);
    let two = Scalar { bits: 0x4000_0000 };
    assert(two.low() == 0x4000_0000 && two.low() > ONE);
    lemma_ordered(ONE as nat, two.low());
    let d = crate::scalar::magnitude(two.low());
    assert(m * u <= u * d && d > 0) by (nonlinear_arith)
        requires
            m <= u,
            u <= d,
            u > 0,
    ;
    lemma_nearest_at_most(m * u, d, ONE as nat);
}

/// What 1 leaves over a number between 0 and 1 is between 0 and 1, and so is its root.
pub proof fn lemma_root_of_rest(a: Scalar)
    requires
        !a.is_signed(),
        a.low() <= ONE,
    ensures
        (Scalar { bits: ONE }).difference(a).root().low() <= ONE,
{
    let one = Scalar { bits: ONE };
    let rest = one.difference(a);
    let u = crate::scalar::unit();
    crate::scalar::lemma_one();
    lemma_ordered(a.low(), ONE as nat);
    assert(a.negated().value() == -a.value());
    assert(a.negated().is_finite());
    lemma_sum_order(one, a.negated());
    let m = crate::scalar::magnitude(rest.low());
    assert(0 <= rest.value() <= u);
    assert(m <= u);
    if rest.low() > ONE {
        crate::scalar::lemma_magnitude_order(ONE as nat, rest.low());
    }
    reveal(Scalar::root);
    if rest.low() > 0 {
        crate::scalar::lemma_magnitude_order(0, rest.low());
        assert(m * u <= u * u) by (nonlinear_arith)
            requires
                m <= u,
        ;
        lemma_root_at_most(m * u, ONE as nat);
    }
}

/// Rounding to the nearest pattern is off by at most a 2^24th of the result.
proof fn lemma_nearest_error(n: nat)
    requires
        crate::scalar::nearest(n, 1) < INFINITY,
    ensures
        ({
            let m = crate::scalar::magnitude(crate::scalar::nearest(n, 1));
            0x100_0000 * (n - m) <= m && 0x100_0000 * (m - n) <= m
        }),
{
    lemma_nearest_exists(n, 1);
    let b = choose|b: nat| crate::scalar::rounds_to(n, 1, b);
    let m = crate::scalar::magnitude(b);
    let above = m + crate::scalar::magnitude(b + 1);
    let below = crate::scalar::magnitude((b - 1) as nat) + m;
    assert(above * 1 == above && below * 1 == below) by (nonlinear_arith);
    assert(b < INFINITY);
    crate::scalar::lemma_step(b);
    if b > 0 {
        crate::scalar::lemma_step((b - 1) as nat);
    }
    lemma_gap(b);
}

/// The step from a pattern to the next is at most a 2^23rd of its magnitude, or 1.
pub proof fn lemma_gap(b: nat)
    ensures
        ({
            let m = crate::scalar::magnitude(b);
            let up = crate::scalar::magnitude(b + 1) - m;
            let down = m - crate::scalar::magnitude((b - 1) as nat);
            &&& up == 1 || 0x80_0000 * up <= m
            &&& b > 0 ==> down == 1 || 0x80_0000 * down <= m
        }),
{
    lemma_gap_up(b);
    if b > 0 {
        lemma_gap_up((b - 1) as nat);
        lemma_ordered((b - 1) as nat, b);
    }
}

proof fn lemma_gap_up(b: nat)
    ensures
        crate::scalar::magnitude(b + 1) - crate::scalar::magnitude(b) == 1 || 0x80_0000 * (
        crate::scalar::magnitude(b + 1) - crate::scalar::magnitude(b)) <= crate::scalar::magnitude(
            b,
        ),
{
    let e = b / 0x80_0000;
    let f = b % 0x80_0000;
    crate::scalar::lemma_step(b);
    if e > 0 {
        let p = vstd::arithmetic::power2::pow2((e - 1) as nat);
        assert(0x80_0000 * p <= (0x80_0000 + f) * p) by (nonlinear_arith);
    } else if f == 0x7f_ffff {
        vstd::arithmetic::power2::lemma2_to64();
        assert((b + 1) / 0x80_0000 == 1 && (b + 1) % 0x80_0000 == 0);
        assert(crate::scalar::magnitude(b + 1) == 0x80_0000 * vstd::arithmetic::power2::pow2(0));
    } else {
        assert((b + 1) / 0x80_0000 == 0 && (b + 1) % 0x80_0000 == f + 1);
    }
}

/// A finite sum is off by at most a 2^24th of what it gives.
pub proof fn lemma_sum_error(a: Scalar, b: Scalar)
    requires
        a.is_finite(),
        b.is_finite(),
        a.sum(b).is_finite(),
    ensures
        ({
            let off = a.sum(b).value() - (a.value() + b.value());
            let size = if a.sum(b).value() < 0 {
                -a.sum(b).value()
            } else {
                a.sum(b).value()
            };
            -size <= 0x100_0000 * off <= size
        }),
{
    reveal(Scalar::sum);
    crate::scalar::lemma_one();
    let s = a.value() + b.value();
    let n = if s < 0 {
        (-s) as nat
    } else {
        s as nat
    };
    if s != 0 {
        assert(a.sum(b).low() == crate::scalar::nearest(n, 1));
        lemma_nearest_error(n);
    }
}

/// The sum of whole numbers is exact up to 2^24.
pub proof fn lemma_whole_sum(a: Scalar, b: Scalar, i: int, j: int)
    requires
        a.is_finite(),
        b.is_finite(),
        a.value() == i * crate::scalar::unit(),
        b.value() == j * crate::scalar::unit(),
        -0x100_0000 <= i + j <= 0x100_0000,
    ensures
        a.sum(b).is_finite(),
        a.sum(b).value() == (i + j) * crate::scalar::unit(),
{
    reveal(Scalar::sum);
    crate::scalar::lemma_one();
    let u = crate::scalar::unit();
    let s = a.value() + b.value();
    assert(i * u + j * u == (i + j) * u) by (nonlinear_arith);
    let k = i + j;
    assert((k > 0 <==> k * u > 0) && (k < 0 <==> k * u < 0)) by (nonlinear_arith)
        requires
            u > 0,
    ;
    if k != 0 {
        let n = if k < 0 {
            (-k) as nat
        } else {
            k as nat
        };
        lemma_whole(n);
        assert(n * u == (if s < 0 {
            -s
        } else {
            s
        })) by (nonlinear_arith)
            requires
                s == k * u,
                n == (if k < 0 {
                    -k
                } else {
                    k
                }),
                s < 0 <==> k < 0,
        ;
    }
}

/// What adds up to a number with a number is one.
pub proof fn lemma_sum_finite(a: Scalar, b: Scalar)
    requires
        a.is_finite(),
        a.sum(b).is_finite(),
    ensures
        b.is_finite(),
{
    reveal(Scalar::sum);
}

/// Adding zero changes nothing.
pub proof fn lemma_sum_zero(a: Scalar, b: Scalar)
    requires
        a.is_finite(),
        b.is_finite(),
        b.value() == 0,
    ensures
        a.sum(b).is_finite(),
        a.sum(b).value() == a.value(),
{
    lemma_sum_order(a, b);
    let s = a.sum(b);
    if !s.is_finite() {
        crate::scalar::lemma_magnitude_order(a.low(), s.low());
    }
}

} // verus!
