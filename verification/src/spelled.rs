//! What the numbers and texts on the label page spell.

use crate::gamepad::{Backend, Gamepad};
use crate::layout::{Button, Color};
use crate::scalar::Scalar;
use vstd::prelude::*;

verus! {

// ---------------------------------------------------------------------------
// Numbers
// ---------------------------------------------------------------------------

/// The number that a text with `places` decimals spells, in units of the last of them.
pub open spec fn reads(s: Seq<char>, places: nat) -> Option<int> {
    let negative = s.len() > 0 && s[0] == '-';
    let body = if negative {
        s.skip(1)
    } else {
        s
    };
    let point = body.len() - 1 - places;
    if point >= 1 && body[point] == '.' {
        match crate::text::digits_value(body.take(point) + body.skip(point + 1)) {
            Some(n) => Some(
                if negative {
                    -(n as int)
                } else {
                    n as int
                },
            ),
            None => None,
        }
    } else {
        None
    }
}

proof fn lemma_digits_concat(a: Seq<char>, b: Seq<char>)
    requires
        crate::text::digits_value(a) is Some,
        crate::text::digits_value(b) is Some,
    ensures
        crate::text::digits_value(a + b) == Some(
            crate::text::digits_value(a)->0 * crate::scalar::pow10(b.len())
                + crate::text::digits_value(b)->0,
        ),
    decreases b.len(),
{
    if b.len() == 0 {
        assert(a + b == a);
        assert(crate::scalar::pow10(0) == 1);
        let x = crate::text::digits_value(a)->0;
        assert(x * 1 == x) by (nonlinear_arith);
    } else {
        let c = b.drop_last();
        lemma_digits_concat(a, c);
        assert((a + b).drop_last() == a + c);
        assert((a + b).last() == b.last());
        let x = crate::text::digits_value(a)->0;
        let y = crate::text::digits_value(c)->0;
        let p = crate::scalar::pow10(c.len());
        let d = crate::text::digit_value(b.last())->0;
        assert((x * p + y) * 10 + d == x * (10 * p) + (y * 10 + d)) by (nonlinear_arith);
    }
}

proof fn lemma_padded_value(n: nat, width: nat)
    requires
        n < crate::scalar::pow10(width),
    ensures
        crate::text::digits_value(crate::text::padded(n, width)) == Some(n),
    decreases width,
{
    if width > 0 {
        let w = (width - 1) as nat;
        assert(n / 10 < crate::scalar::pow10(w));
        lemma_padded_value(n / 10, w);
        let s = crate::text::padded(n, width);
        assert(s.drop_last() == crate::text::padded(n / 10, w));
        assert(s.last() == crate::text::digit(n % 10));
        assert(crate::text::digit_value(crate::text::digit(n % 10)) == Some(n % 10));
    }
}

proof fn lemma_pow10_pos(n: nat)
    ensures
        crate::scalar::pow10(n) > 0,
    decreases n,
{
    if n > 0 {
        lemma_pow10_pos((n - 1) as nat);
    }
}

proof fn lemma_half_even(num: nat, den: nat)
    requires
        den > 0,
    ensures
        2 * crate::precision::size(crate::scalar::half_even(num, den) * den - num) <= den,
{
    let q = num / den;
    let r = num % den;
    vstd::arithmetic::div_mod::lemma_fundamental_div_mod(num as int, den as int);
    assert(den * q == q * den) by (nonlinear_arith);
    assert((q + 1) * den == q * den + den) by (nonlinear_arith);
    assert(0 <= r < den) by {
        vstd::arithmetic::div_mod::lemma_mod_bound(num as int, den as int);
    }
}

/// A number is written with a sign exactly if it has one, zeros included, and a half goes to the even
/// side. What is no number is written by its name.
pub proof fn lemma_fixed_shape(v: Scalar, places: nat)
    ensures
        v.is_nan() ==> v.fixed(places) == "NaN"@,
        !v.is_nan() && !v.is_finite() ==> v.fixed(places) == (if v.is_signed() {
            seq!['-'] + "inf"@
        } else {
            "inf"@
        }),
        v.is_finite() ==> (v.is_signed() <==> v.fixed(places)[0] == '-'),
        v.is_finite() ==> (reads(v.fixed(places), places) matches Some(k) && (2
            * crate::precision::size(
            k * crate::scalar::unit() - v.value() * crate::scalar::pow10(places),
        ) == crate::scalar::unit() ==> k % 2 == 0)),
{
    if v.is_finite() {
        let p = crate::scalar::pow10(places);
        let u = crate::scalar::unit();
        let m = crate::scalar::magnitude(v.low());
        crate::scalar::lemma_one();
        lemma_pow10_pos(places);
        let n = crate::scalar::half_even(m * p, u);
        lemma_half_to_even(m * p, u);
        lemma_fixed_number(v, places);
        crate::text::lemma_decimal(n / p);
        assert(v.value() * p == (if v.is_signed() {
            -(m * p)
        } else {
            (m * p) as int
        })) by (nonlinear_arith)
            requires
                v.value() == (if v.is_signed() {
                    -m
                } else {
                    m as int
                }),
        ;
        assert((-(n as int)) * u == -(n * u)) by (nonlinear_arith);
        let a = crate::text::decimal(n / p);
        if v.is_signed() {
            assert(v.fixed(places)[0] == '-');
        } else {
            assert(v.fixed(places)[0] == a[0]);
        }
    } else if !v.is_nan() && !v.is_signed() {
        assert(Seq::<char>::empty() + "inf"@ == "inf"@);
    }
}

proof fn lemma_half_to_even(num: nat, den: nat)
    requires
        den > 0,
    ensures
        2 * crate::precision::size(crate::scalar::half_even(num, den) * den - num) == den
            ==> crate::scalar::half_even(num, den) % 2 == 0,
{
    let q = num / den;
    let r = num % den;
    vstd::arithmetic::div_mod::lemma_fundamental_div_mod(num as int, den as int);
    vstd::arithmetic::div_mod::lemma_mod_bound(num as int, den as int);
    assert(den * q == q * den) by (nonlinear_arith);
    assert((q + 1) * den == q * den + den) by (nonlinear_arith);
}

proof fn lemma_fixed_number(v: Scalar, places: nat)
    requires
        v.is_finite(),
    ensures
        ({
            let n = crate::scalar::half_even(
                crate::scalar::magnitude(v.low()) * crate::scalar::pow10(places),
                crate::scalar::unit(),
            );
            reads(v.fixed(places), places) == Some(
                if v.is_signed() {
                    -(n as int)
                } else {
                    n as int
                },
            )
        }),
{
    let p = crate::scalar::pow10(places);
    let u = crate::scalar::unit();
    let m = crate::scalar::magnitude(v.low());
    crate::scalar::lemma_one();
    lemma_pow10_pos(places);
    let n = crate::scalar::half_even(m * p, u);
    let a = crate::text::decimal(n / p);
    let b = crate::text::padded(n % p, places);
    crate::text::lemma_decimal(n / p);
    crate::text::lemma_padded(n % p, places);
    vstd::arithmetic::div_mod::lemma_mod_bound(n as int, p as int);
    lemma_padded_value(n % p, places);
    lemma_digits_concat(a, b);
    vstd::arithmetic::div_mod::lemma_fundamental_div_mod(n as int, p as int);
    assert(p * (n / p) == (n / p) * p) by (nonlinear_arith);
    let s = v.fixed(places);
    let body = a + seq!['.'] + b;
    assert(body.take(a.len() as int) == a);
    assert(body.skip(a.len() as int + 1) == b);
    if v.is_signed() {
        assert(s == seq!['-'] + body);
        assert(s.skip(1) == body);
    } else {
        assert(s == body);
        assert(a[0] != '-');
    }
}

/// A number is written as the nearest decimal with the given places.
pub proof fn lemma_fixed_reads(v: Scalar, places: nat)
    requires
        v.is_finite(),
    ensures
        reads(v.fixed(places), places) matches Some(k) && 2 * crate::precision::size(
            k * crate::scalar::unit() - v.value() * crate::scalar::pow10(places),
        ) <= crate::scalar::unit(),
{
    let p = crate::scalar::pow10(places);
    let u = crate::scalar::unit();
    let m = crate::scalar::magnitude(v.low());
    crate::scalar::lemma_one();
    let n = crate::scalar::half_even(m * p, u);
    lemma_half_even(m * p, u);
    lemma_fixed_number(v, places);
    if v.is_signed() {
        assert((-(m as int)) * p == -((m * p) as int)) by (nonlinear_arith);
        assert((-(n as int)) * u == -((n * u) as int)) by (nonlinear_arith);
    }
}

/// Whether a text with one decimal spells the middle between `a` and `b` times `scale`.
pub open spec fn spells_middle(s: Seq<char>, a: int, b: int, scale: int) -> bool {
    exists|c: int| #[trigger] crate::precision::centered(c, a, b, scale) && spells_tenths(s, c)
}

/// Whether a text with one decimal spells `c`.
pub open spec fn spells_tenths(s: Seq<char>, c: int) -> bool {
    let u = crate::scalar::unit();
    reads(s, 1) matches Some(k) && 2 * crate::precision::size(k * u - 10 * c) <= u
}

proof fn lemma_spells_tenths(v: Scalar)
    requires
        v.is_finite(),
    ensures
        spells_tenths(v.fixed(1), v.value()),
{
    lemma_fixed_reads(v, 1);
    let p = crate::scalar::pow10(1);
    assert(p == 10) by {
        reveal_with_fuel(crate::scalar::pow10, 2);
    }
    assert(v.value() * p == 10 * v.value()) by (nonlinear_arith)
        requires
            p == 10,
    ;
}

// ---------------------------------------------------------------------------
// Font sizes
// ---------------------------------------------------------------------------

/// The share of the full font size that a label with `n` characters is written in: 4/n, at least
/// 3/5 and at most 1.
pub open spec fn font_share(n: nat) -> (int, int) {
    if n <= 4 {
        (1, 1)
    } else if 5 * 4 >= 3 * n {
        (4, n as int)
    } else {
        (3, 5)
    }
}

proof fn lemma_shrink(n: nat)
    ensures
        ({
            let k = crate::page::shrink(n).value();
            let (p, q) = font_share(n);
            let u = crate::scalar::unit();
            &&& crate::page::shrink(n).is_finite()
            &&& u <= 2 * k <= 2 * u
            &&& 0x100_0000 * crate::precision::size(k * q - p * u) <= 2 * (q * u)
        }),
{
    let u = crate::scalar::unit();
    crate::scalar::lemma_one();
    vstd::arithmetic::power2::lemma2_to64();
    vstd::arithmetic::power2::lemma_pow2_adds(24, 125);
    vstd::arithmetic::power2::lemma_pow2_pos(125);
    let t = vstd::arithmetic::power2::pow2(125);
    if n <= 4 {
        assert(u * 1 == u && 1 * u == u) by (nonlinear_arith);
    } else if n <= 6 {
        let four = Scalar { bits: crate::page::FOUR };
        vstd::arithmetic::power2::lemma_pow2_adds(21, 128);
        crate::scalar::lemma_pattern(128, 0x80_0000);
        let w = vstd::arithmetic::power2::pow2(128);
        assert(0x80_0000 * w == 4 * (0x20_0000 * w)) by (nonlinear_arith);
        assert(four.value() == 4 * u);
        crate::arith::lemma_integer_value(n as int);
        let d = Scalar::of(false, n);
        assert(d == Scalar::integer(n as int));
        let k = four.quotient(d);
        lemma_four_over(n);
        crate::precision::lemma_quotient_error(four, d);
        let kv = k.value();
        let nn = n as int;
        assert(kv * (nn * u) - (4 * u) * u == (kv * nn - 4 * u) * u) by (nonlinear_arith);
        crate::precision::lemma_size_product(kv * nn - 4 * u, u as int);
        let e = crate::precision::size(kv * nn - 4 * u);
        assert(crate::precision::size(nn * u) == nn * u) by {
            crate::precision::lemma_size_product(nn, u as int);
        }
        lemma_unit_above();
        assert(0x100_0000 * e <= 2 * (nn * u)) by (nonlinear_arith)
            requires
                0x100_0000 * (e * u) <= (kv + 0x80_0000) * (nn * u),
                0 <= kv <= u,
                0x80_0000 <= u,
                nn > 0,
                u > 0,
        ;
        assert(nn * u <= 6 * u) by (nonlinear_arith)
            requires
                nn <= 6,
                u > 0,
        ;
        if nn == 5 {
            assert(kv * nn == 5 * kv) by (nonlinear_arith)
                requires
                    nn == 5,
            ;
        } else {
            assert(nn == 6);
            assert(kv * nn == 6 * kv) by (nonlinear_arith)
                requires
                    nn == 6,
            ;
        }
    } else {
        crate::scalar::lemma_pattern(125, 0x99_999a);
        let k = crate::page::shrink(n).value();
        assert(k == 0x99_999a * t);
        assert(u == 0x100_0000 * t);
    }
}

proof fn lemma_unit_above()
    ensures
        crate::scalar::unit() > 0x100_0000,
{
    crate::arith::lemma_unit_large();
}

proof fn lemma_four_over(n: nat)
    requires
        5 <= n <= 6,
    ensures
        ({
            let k = (Scalar { bits: crate::page::FOUR }).quotient(Scalar::of(false, n));
            k.low() <= crate::scalar::ONE && !k.is_signed() && k.value() <= crate::scalar::unit()
        }),
{
    let u = crate::scalar::unit();
    let four = Scalar { bits: crate::page::FOUR };
    let d = Scalar::of(false, n);
    crate::scalar::lemma_one();
    crate::arith::lemma_integer_value(n as int);
    assert(d == Scalar::integer(n as int));
    vstd::arithmetic::power2::lemma2_to64();
    vstd::arithmetic::power2::lemma_pow2_adds(21, 128);
    crate::scalar::lemma_pattern(128, 0x80_0000);
    let w = vstd::arithmetic::power2::pow2(128);
    assert(0x80_0000 * w == 4 * (0x20_0000 * w)) by (nonlinear_arith);
    reveal(Scalar::quotient);
    let md = crate::scalar::magnitude(d.low());
    let mf = crate::scalar::magnitude(four.low());
    assert(md == n * u);
    assert(mf == 4 * u);
    assert(n * u > 0) by (nonlinear_arith)
        requires
            n > 0,
            u > 0,
    ;
    assert(mf * u <= u * md) by (nonlinear_arith)
        requires
            mf == 4 * u,
            md == n * u,
            n >= 5,
            u > 0,
    ;
    crate::arith::lemma_nearest_at_most(mf * u, md, crate::scalar::ONE as nat);
    let k = four.quotient(d);
    assert(k.low() == crate::scalar::nearest(mf * u, md));
    if k.low() < crate::scalar::ONE {
        crate::scalar::lemma_magnitude_order(k.low(), crate::scalar::ONE as nat);
    }
}

/// Whether `c` is the share `p / q` of half the distance from `a` to `b`, times `scale`, but for a
/// share of 2^-15 of it and what single precision cannot hold.
pub open spec fn sized(c: int, a: int, b: int, scale: int, p: int, q: int) -> bool {
    let u = crate::scalar::unit() as int;
    0x8000 * crate::precision::size(2 * q * (c * u) - p * ((b - a) * scale)) <= (
    crate::precision::size(c) + 0x200_0000) * u
}

proof fn lemma_sized_errors(
    a: int,
    b: int,
    s: int,
    p: int,
    q: int,
    k: int,
    len: int,
    scaled: int,
    half: int,
    c: int,
    u: int,
)
    requires
        u > 0x100_0000,
        1 <= p <= q <= 6,
        u <= 2 * k <= 2 * u,
        0x100_0000 * crate::precision::size(k * q - p * u) <= 12 * u,
        0x100_0000 * crate::precision::size(len - (b - a)) <= crate::precision::size(len),
        0x100_0000 * crate::precision::size(scaled * u - len * s) <= (crate::precision::size(scaled)
            + 0x80_0000) * u,
        0x100_0000 * crate::precision::size(2 * half - scaled) <= 2 * crate::precision::size(half)
            + 0x100_0000,
        0x100_0000 * crate::precision::size(c * u - half * k) <= (crate::precision::size(c)
            + 0x80_0000) * u,
    ensures
        0x8000 * crate::precision::size(2 * q * (c * u) - p * ((b - a) * s)) <= (
        crate::precision::size(c) + 0x200_0000) * u,
{
    let e1 = c * u - half * k;
    let e2 = k * q - p * u;
    let e3 = 2 * half - scaled;
    let e4 = scaled * u - len * s;
    let e5 = len - (b - a);
    let cu = crate::precision::size(c) * u;
    let hu = crate::precision::size(half) * u;
    let ls = crate::precision::size(len) * crate::precision::size(s);
    let total = 2 * q * e1 + 2 * (half * e2) + p * (e3 * u) + p * e4 + p * (e5 * s);
    lemma_sized_identity(a, b, s, p, q, k, len, scaled, half, c, u);
    assert((crate::precision::size(c) + 0x80_0000) * u == cu + 0x80_0000 * u) by (nonlinear_arith)
        requires
            cu == crate::precision::size(c) * u,
    ;
    assert((crate::precision::size(c) + 0x200_0000) * u == cu + 0x200_0000 * u)
        by (nonlinear_arith)
        requires
            cu == crate::precision::size(c) * u,
    ;
    // The half is at most twice the result.
    crate::precision::lemma_size_product(half, k);
    crate::precision::lemma_size_product(c, u);
    let hk = crate::precision::size(half) * k;
    assert(hu <= 2 * hk) by (nonlinear_arith)
        requires
            hu == crate::precision::size(half) * u,
            hk == crate::precision::size(half) * k,
            u <= 2 * k,
            crate::precision::size(half) >= 0,
    ;
    assert(hk <= 2 * cu + u);
    assert(hu <= 4 * cu + 2 * u);
    // The scaled length is at most thrice the half.
    let su = crate::precision::size(scaled) * u;
    assert(su <= 3 * hu + u) by (nonlinear_arith)
        requires
            crate::precision::size(scaled) <= 3 * crate::precision::size(half) + 1,
            su == crate::precision::size(scaled) * u,
            hu == crate::precision::size(half) * u,
            u > 0,
    ;
    assert((crate::precision::size(scaled) + 0x80_0000) * u == su + 0x80_0000 * u)
        by (nonlinear_arith)
        requires
            su == crate::precision::size(scaled) * u,
    ;
    crate::precision::lemma_size_product(len, s);
    crate::precision::lemma_size_product(scaled, u);
    assert(ls <= 2 * su + u);
    lemma_sized_sum(p, q, half, s, e1, e2, e3, e4, e5, cu, hu, su, ls, crate::precision::size(len), u);
}

proof fn lemma_sized_identity(
    a: int,
    b: int,
    s: int,
    p: int,
    q: int,
    k: int,
    len: int,
    scaled: int,
    half: int,
    c: int,
    u: int,
)
    ensures
        2 * q * (c * u) - p * ((b - a) * s) == 2 * q * (c * u - half * k) + 2 * (half * (k * q - p
            * u)) + p * ((2 * half - scaled) * u) + p * (scaled * u - len * s) + p * ((len - (b
            - a)) * s),
{
    assert(2 * q * (c * u - half * k) == 2 * q * (c * u) - 2 * q * (half * k)) by (nonlinear_arith);
    assert(2 * (half * (k * q - p * u)) == 2 * q * (half * k) - 2 * (p * (half * u)))
        by (nonlinear_arith);
    assert(p * ((2 * half - scaled) * u) == 2 * (p * (half * u)) - p * (scaled * u))
        by (nonlinear_arith);
    assert(p * (scaled * u - len * s) == p * (scaled * u) - p * (len * s)) by (nonlinear_arith);
    assert(p * ((len - (b - a)) * s) == p * (len * s) - p * ((b - a) * s)) by (nonlinear_arith);
}

proof fn lemma_sized_sum(
    p: int,
    q: int,
    half: int,
    s: int,
    e1: int,
    e2: int,
    e3: int,
    e4: int,
    e5: int,
    cu: int,
    hu: int,
    su: int,
    ls: int,
    len: int,
    u: int,
)
    requires
        u > 0x100_0000,
        1 <= p <= q <= 6,
        cu >= 0,
        hu == crate::precision::size(half) * u,
        hu <= 4 * cu + 2 * u,
        su <= 3 * hu + u,
        ls <= 2 * su + u,
        len >= 0,
        ls == len * crate::precision::size(s),
        0x100_0000 * crate::precision::size(e1) <= cu + 0x80_0000 * u,
        0x100_0000 * crate::precision::size(e2) <= 12 * u,
        0x100_0000 * crate::precision::size(e3) <= 2 * crate::precision::size(half) + 0x100_0000,
        0x100_0000 * crate::precision::size(e4) <= su + 0x80_0000 * u,
        0x100_0000 * crate::precision::size(e5) <= len,
    ensures
        0x8000 * crate::precision::size(
            2 * q * e1 + 2 * (half * e2) + p * (e3 * u) + p * e4 + p * (e5 * s),
        ) <= cu + 0x200_0000 * u,
{
    // The errors one by one.
    crate::precision::lemma_size_product(2 * q, e1);
    crate::precision::lemma_size_product(half, e2);
    crate::precision::lemma_size_product(e3, u);
    crate::precision::lemma_size_product(p, e3 * u);
    crate::precision::lemma_size_product(p, e4);
    crate::precision::lemma_size_product(e5, s);
    crate::precision::lemma_size_product(p, e5 * s);
    let s1 = crate::precision::size(e1);
    let s2 = crate::precision::size(half) * crate::precision::size(e2);
    let s3 = crate::precision::size(e3) * u;
    let s4 = crate::precision::size(e4);
    let s5 = crate::precision::size(e5) * crate::precision::size(s);
    assert(2 * q * s1 <= 12 * s1) by (nonlinear_arith)
        requires
            q <= 6,
            s1 >= 0,
    ;
    assert(s3 >= 0 && s5 >= 0) by (nonlinear_arith)
        requires
            s3 == crate::precision::size(e3) * u,
            s5 == crate::precision::size(e5) * crate::precision::size(s),
            u > 0,
            crate::precision::size(e3) >= 0,
            crate::precision::size(e5) >= 0,
            crate::precision::size(s) >= 0,
    ;
    assert(p * s3 <= 6 * s3 && p * s4 <= 6 * s4 && p * s5 <= 6 * s5) by (nonlinear_arith)
        requires
            0 <= p <= 6,
            s3 >= 0,
            s4 >= 0,
            s5 >= 0,
    ;
    assert(0x100_0000 * s2 <= 12 * hu) by (nonlinear_arith)
        requires
            0x100_0000 * crate::precision::size(e2) <= 12 * u,
            s2 == crate::precision::size(half) * crate::precision::size(e2),
            hu == crate::precision::size(half) * u,
            crate::precision::size(half) >= 0,
    ;
    assert(0x100_0000 * s3 <= 2 * hu + 0x100_0000 * u) by (nonlinear_arith)
        requires
            0x100_0000 * crate::precision::size(e3) <= 2 * crate::precision::size(half)
                + 0x100_0000,
            s3 == crate::precision::size(e3) * u,
            hu == crate::precision::size(half) * u,
            u > 0,
    ;
    assert(0x100_0000 * s5 <= ls) by (nonlinear_arith)
        requires
            0x100_0000 * crate::precision::size(e5) <= len,
            s5 == crate::precision::size(e5) * crate::precision::size(s),
            ls == len * crate::precision::size(s),
            crate::precision::size(s) >= 0,
    ;
}

proof fn lemma_half()
    ensures
        (Scalar { bits: crate::label::HALF }).is_finite(),
        2 * (Scalar { bits: crate::label::HALF }).value() == crate::scalar::unit(),
{
    vstd::arithmetic::power2::lemma2_to64();
    vstd::arithmetic::power2::lemma_pow2_adds(24, 125);
    crate::scalar::lemma_pattern(125, 0x80_0000);
}

proof fn lemma_times_half(a: int, b: int, h: int, u: int)
    requires
        u > 0,
        2 * h == u,
        0x100_0000 * crate::precision::size(b * u - a * h) <= (crate::precision::size(b)
            + 0x80_0000) * u,
    ensures
        0x100_0000 * crate::precision::size(2 * b - a) <= 2 * crate::precision::size(b)
            + 0x100_0000,
{
    let e = 2 * b - a;
    assert(b * u - a * h == e * h) by (nonlinear_arith)
        requires
            e == 2 * b - a,
            2 * h == u,
    ;
    crate::precision::lemma_size_product(e, h);
    let se = crate::precision::size(e);
    let sb = crate::precision::size(b);
    assert(0x100_0000 * se <= 2 * sb + 0x100_0000) by (nonlinear_arith)
        requires
            0x100_0000 * (se * h) <= (sb + 0x80_0000) * u,
            2 * h == u,
            u > 0,
    ;
}

proof fn lemma_font_sized(b: Button, n: nat, scale: Scalar)
    requires
        b.shape.valid(),
        crate::page::font_size(b, n, scale).is_finite(),
    ensures
        sized(
            crate::page::font_size(b, n, scale).value(),
            b.shape.top.value(),
            b.shape.bottom.value(),
            scale.value(),
            font_share(n).0,
            font_share(n).1,
        ),
{
    let u = crate::scalar::unit();
    let (p, q) = font_share(n);
    let half = Scalar { bits: crate::label::HALF };
    let k = crate::page::shrink(n);
    let len = b.shape.bottom.difference(b.shape.top);
    let scaled = len.product(scale);
    let mid = scaled.product(half);
    let c = mid.product(k);
    crate::scalar::lemma_one();
    lemma_unit_above();
    lemma_half();
    lemma_shrink(n);
    crate::precision::lemma_product_finite(mid, k);
    crate::precision::lemma_product_finite(scaled, half);
    crate::precision::lemma_product_finite(len, scale);
    crate::precision::lemma_product_error(mid, k);
    crate::precision::lemma_product_error(scaled, half);
    crate::precision::lemma_product_error(len, scale);
    crate::layout::lemma_negated(b.shape.top);
    crate::arith::lemma_sum_error(b.shape.bottom, b.shape.top.negated());
    lemma_times_half(scaled.value(), mid.value(), half.value(), u as int);
    assert(q * u <= 6 * u) by (nonlinear_arith)
        requires
            q <= 6,
            u > 0,
    ;
    lemma_sized_errors(
        b.shape.top.value(),
        b.shape.bottom.value(),
        scale.value(),
        p,
        q,
        k.value(),
        len.value(),
        scaled.value(),
        mid.value(),
        c.value(),
        u as int,
    );
}

// ---------------------------------------------------------------------------
// Colors
// ---------------------------------------------------------------------------

/// Whether `n` is a color channel between 0 and 1 as a number from 0 to 255, the nearest one but for
/// a share of 2^-10 of a step.
pub open spec fn shows_channel(n: nat, v: int) -> bool {
    let u = crate::scalar::unit() as int;
    n <= 255 && 0x400 * (2 * crate::precision::size(n * u - 255 * v) - u) <= u
}

/// Whether a number lies between 0 and 1.
pub open spec fn is_share(v: Scalar) -> bool {
    !v.is_nan() && 0 <= v.value() <= crate::scalar::unit()
}

proof fn lemma_channel(v: Scalar)
    requires
        is_share(v),
    ensures
        shows_channel(crate::page::channel(v), v.value()),
{
    let u = crate::scalar::unit();
    let full = Scalar { bits: crate::label::FULL };
    let half = Scalar { bits: crate::label::HALF };
    crate::scalar::lemma_one();
    lemma_unit_above();
    lemma_half();
    vstd::arithmetic::power2::lemma2_to64();
    vstd::arithmetic::power2::lemma_pow2_adds(16, 133);
    crate::scalar::lemma_pattern(133, 0xff_0000);
    let w = vstd::arithmetic::power2::pow2(133);
    assert(0xff_0000 * w == 255 * (0x1_0000 * w)) by (nonlinear_arith);
    assert(full.value() == 255 * u);
    if v.low() > crate::scalar::ONE {
        crate::scalar::lemma_magnitude_order(crate::scalar::ONE as nat, v.low());
    }
    let p = v.product(full);
    lemma_product_small(v, full);
    crate::precision::lemma_product_error(v, full);
    let pv = p.value();
    let vv = v.value();
    assert(pv * u - vv * (255 * u) == (pv - 255 * vv) * u) by (nonlinear_arith);
    crate::precision::lemma_size_product(pv - 255 * vv, u as int);
    let e = crate::precision::size(pv - 255 * vv);
    assert(0x100_0000 * e <= pv + 0x80_0000) by (nonlinear_arith)
        requires
            0x100_0000 * (e * u) <= (pv + 0x80_0000) * u,
            u > 0,
    ;
    let q = p.sum(half);
    crate::arith::lemma_sum_order(p, half);
    lemma_sum_small(p, half);
    crate::arith::lemma_sum_error(p, half);
    reveal(Scalar::byte);
    let m = crate::scalar::magnitude(q.low());
    assert(q.value() >= 0);
    if q.is_signed() {
        if q.low() > 0 {
            crate::scalar::lemma_magnitude_order(0, q.low());
        }
        assert(q.value() == 0);
        assert(false);
    }
    let n = m / u;
    vstd::arithmetic::div_mod::lemma_fundamental_div_mod(m as int, u as int);
    vstd::arithmetic::div_mod::lemma_mod_bound(m as int, u as int);
    assert(u * n == n * u) by (nonlinear_arith);
    if n > 255 {
        assert(n * u >= 256 * u) by (nonlinear_arith)
            requires
                n >= 256,
                u > 0,
        ;
        assert(false);
    }
}

proof fn lemma_product_small(v: Scalar, full: Scalar)
    requires
        v.low() <= crate::scalar::ONE,
        0 <= v.value(),
        full.is_finite(),
        full.value() == 255 * crate::scalar::unit(),
        !full.is_signed(),
    ensures
        v.product(full).is_finite(),
        0 <= v.product(full).value() <= 255 * crate::scalar::unit(),
{
    reveal(Scalar::product);
    crate::scalar::lemma_one();
    let u = crate::scalar::unit();
    let a = crate::scalar::magnitude(v.low());
    let b = crate::scalar::magnitude(full.low());
    if v.low() < crate::scalar::ONE {
        crate::scalar::lemma_magnitude_order(v.low(), crate::scalar::ONE as nat);
    }
    assert(a * b <= b * u) by (nonlinear_arith)
        requires
            a <= u,
    ;
    crate::arith::lemma_nearest_at_most(a * b, u, full.low());
    let p = v.product(full);
    if p.low() < full.low() {
        crate::scalar::lemma_magnitude_order(p.low(), full.low());
    }
    if v.is_signed() {
        assert(a == 0);
        assert(a * b == 0) by (nonlinear_arith)
            requires
                a == 0,
        ;
        crate::scalar::lemma_one();
        assert(0 <= 0 * u) by (nonlinear_arith);
        crate::arith::lemma_nearest_at_most(0, u, 0);
    }
}

proof fn lemma_sum_small(p: Scalar, half: Scalar)
    requires
        p.is_finite(),
        0 <= p.value() <= 255 * crate::scalar::unit(),
        half.is_finite(),
        2 * half.value() == crate::scalar::unit(),
    ensures
        p.sum(half).is_finite(),
        p.sum(half).value() < 256 * crate::scalar::unit(),
        p.sum(half).value() > 0,
{
    reveal(Scalar::sum);
    crate::scalar::lemma_one();
    let u = crate::scalar::unit();
    let s = (p.value() + half.value()) as nat;
    vstd::arithmetic::power2::lemma2_to64();
    vstd::arithmetic::power2::lemma_pow2_adds(16, 133);
    crate::scalar::lemma_pattern(133, 0xff_8000);
    let w = vstd::arithmetic::power2::pow2(133);
    let top = 0x437f_8000nat;
    assert(crate::scalar::magnitude(top) == 0xff_8000 * w);
    assert(2 * (0xff_8000 * w) == 511 * (0x1_0000 * w)) by (nonlinear_arith);
    assert(s <= crate::scalar::magnitude(top) * 1) by (nonlinear_arith)
        requires
            s <= crate::scalar::magnitude(top),
    ;
    crate::arith::lemma_nearest_at_most(s, 1, top);
    let q = p.sum(half);
    if q.low() < top {
        crate::scalar::lemma_magnitude_order(q.low(), top);
    }
    crate::arith::lemma_sum_order(half, p);
    assert(p.sum(half) == half.sum(p));
}

/// Whether a text spells a color: its channels, each from 0 to 255.
pub open spec fn spells_color(
    s: Seq<char>,
    c: Color,
    r: Seq<char>,
    g: Seq<char>,
    b: Seq<char>,
    a: Seq<char>,
) -> bool {
    &&& s == "rgba("@ + r + seq![','] + g + seq![','] + b + seq![','] + a + seq![')']
    &&& crate::text::digits_value(r) matches Some(n) && shows_channel(n, c.red.value())
    &&& crate::text::digits_value(g) matches Some(n) && shows_channel(n, c.green.value())
    &&& crate::text::digits_value(b) matches Some(n) && shows_channel(n, c.blue.value())
    &&& crate::text::digits_value(a) matches Some(n) && shows_channel(n, c.alpha.value())
}

/// Whether a text spells a color.
pub open spec fn names_color(s: Seq<char>, c: Color) -> bool {
    exists|r: Seq<char>, g: Seq<char>, b: Seq<char>, a: Seq<char>| #[trigger]
        spells_color(s, c, r, g, b, a)
}

/// Whether all channels of a color lie between 0 and 1.
pub open spec fn is_color(c: Color) -> bool {
    is_share(c.red) && is_share(c.green) && is_share(c.blue) && is_share(c.alpha)
}

/// A color is written by its channels, red, green, blue and alpha.
pub proof fn lemma_color_named(c: Color)
    requires
        is_color(c),
    ensures
        names_color(crate::page::css(c), c),
{
    lemma_channel(c.red);
    lemma_channel(c.green);
    lemma_channel(c.blue);
    lemma_channel(c.alpha);
    let r = crate::text::decimal(crate::page::channel(c.red));
    let g = crate::text::decimal(crate::page::channel(c.green));
    let b = crate::text::decimal(crate::page::channel(c.blue));
    let a = crate::text::decimal(crate::page::channel(c.alpha));
    crate::text::lemma_decimal(crate::page::channel(c.red));
    crate::text::lemma_decimal(crate::page::channel(c.green));
    crate::text::lemma_decimal(crate::page::channel(c.blue));
    crate::text::lemma_decimal(crate::page::channel(c.alpha));
    assert(spells_color(crate::page::css(c), c, r, g, b, a));
}

// ---------------------------------------------------------------------------
// Texts
// ---------------------------------------------------------------------------

/// A text without its tags.
pub open spec fn untagged(s: Seq<char>) -> Seq<char>
    decreases s.len(),
{
    if s.len() == 0 {
        seq![]
    } else if s[0] == '<' {
        let end = crate::text::find(s, '>') as int;
        if 0 <= end < s.len() {
            untagged(s.skip(end + 1))
        } else {
            seq![]
        }
    } else {
        seq![s[0]] + untagged(s.skip(1))
    }
}

proof fn lemma_marked_concat(a: Seq<char>, b: Seq<char>)
    ensures
        crate::page::marked(a + b) == crate::page::marked(a) + crate::page::marked(b),
    decreases b.len(),
{
    if b.len() == 0 {
        assert(a + b == a);
    } else {
        lemma_marked_concat(a, b.drop_last());
        assert((a + b).drop_last() == a + b.drop_last());
        assert((a + b).last() == b.last());
        let x = crate::page::marked(a);
        let y = crate::page::marked(b.drop_last());
        let z = crate::page::marked_arrow(b.last());
        assert(x + y + z == x + (y + z));
    }
}

proof fn lemma_tag(tag: Seq<char>, rest: Seq<char>)
    requires
        tag.len() >= 2,
        tag[0] == '<',
        tag.last() == '>',
        forall|i: int| 0 <= i < tag.len() - 1 ==> #[trigger] tag[i] != '>',
    ensures
        untagged(tag + rest) == untagged(rest),
{
    let s = tag + rest;
    let n = (tag.len() - 1) as nat;
    assert forall|i: int| 0 <= i < n implies #[trigger] s[i] != '>' by {
        assert(s[i] == tag[i]);
    }
    crate::text::lemma_find_at(s, '>', n);
    assert(s.skip(n as int + 1) == rest);
}

proof fn lemma_marked_arrow(c: char, rest: Seq<char>)
    requires
        c != '<',
    ensures
        untagged(crate::page::marked_arrow(c) + rest) == seq![c] + untagged(rest),
{
    let open = "<span class=\"ar\">"@;
    let close = "</span>"@;
    if crate::label::arrow(c) {
        reveal_strlit("<span class=\"ar\">");
        reveal_strlit("</span>");
        let all = crate::page::marked_arrow(c) + rest;
        assert(all == open + (seq![c] + (close + rest)));
        lemma_tag(open, seq![c] + (close + rest));
        lemma_tag(close, rest);
        let s = seq![c] + (close + rest);
        assert(s[0] == c && s.skip(1) == close + rest);
    } else {
        let s = crate::page::marked_arrow(c) + rest;
        assert(s[0] == c && s.skip(1) == rest);
    }
}

/// Setting arrows apart only adds tags.
pub proof fn lemma_untagged(s: Seq<char>)
    requires
        forall|i: int| 0 <= i < s.len() ==> #[trigger] s[i] != '<',
    ensures
        untagged(crate::page::marked(s)) == s,
    decreases s.len(),
{
    if s.len() > 0 {
        let c = s[0];
        let rest = s.skip(1);
        lemma_untagged(rest);
        assert(s == seq![c] + rest);
        lemma_marked_concat(seq![c], rest);
        assert(seq![c].drop_last() == Seq::<char>::empty());
        assert(crate::page::marked(seq![c]) == crate::page::marked_arrow(c)) by {
            reveal_with_fuel(crate::page::marked, 2);
            assert(Seq::<char>::empty() + crate::page::marked_arrow(c)
                == crate::page::marked_arrow(c));
        }
        lemma_marked_arrow(c, crate::page::marked(rest));
    }
}

/// Whether markup shows `text`.
pub open spec fn shows_text(markup: Seq<char>, text: Seq<char>) -> bool {
    crate::page::unescaped(untagged(markup)) == text
}

proof fn lemma_shows_text(text: Seq<char>)
    ensures
        shows_text(crate::page::marked(crate::page::escaped(text)), text),
{
    let e = crate::page::escaped(text);
    assert forall|i: int| 0 <= i < e.len() implies #[trigger] e[i] != '<' by {
        crate::page::lemma_escaped_plain(text, i);
    }
    lemma_untagged(e);
    crate::page::lemma_unescaped(text);
}

/// Of a label, each arrow, and nothing else, is set apart.
pub proof fn lemma_arrows_apart(a: Seq<char>, c: char, b: Seq<char>)
    ensures
        crate::page::marked(a + seq![c] + b) == crate::page::marked(a) + (if c == '\u{2190}' || c
            == '\u{2191}' || c == '\u{2192}' || c == '\u{2193}' {
            "<span class=\"ar\">"@ + seq![c] + "</span>"@
        } else {
            seq![c]
        }) + crate::page::marked(b),
{
    lemma_marked_concat(a + seq![c], b);
    lemma_marked_concat(a, seq![c]);
    assert(seq![c].drop_last() == Seq::<char>::empty());
    assert(crate::page::marked(seq![c]) == crate::page::marked_arrow(c)) by {
        reveal_with_fuel(crate::page::marked, 2);
        assert(Seq::<char>::empty() + crate::page::marked_arrow(c) == crate::page::marked_arrow(c));
    }
}

// ---------------------------------------------------------------------------
// Labels
// ---------------------------------------------------------------------------

/// What stands in a label: the id of its button, the color of the pressed button, its place, its
/// font size, its color and its text, each as the page writes it.
pub struct LabelParts {
    pub id: Seq<char>,
    pub active: Seq<char>,
    pub left: Seq<char>,
    pub top: Seq<char>,
    pub font: Seq<char>,
    pub color: Seq<char>,
    pub text: Seq<char>,
}

/// A label of these parts.
pub open spec fn label_of(p: LabelParts) -> Seq<char> {
    "<div class=\"l\" data-id=\""@ + p.id + "\""@ + p.active + " style=\"left:"@ + p.left
        + "px;top:"@ + p.top + "px;font-size:"@ + p.font + "px"@ + p.color + "\">"@ + p.text
        + "</div>"@
}

/// Whether the numbers of a label can be written: none is too large for single precision.
pub open spec fn writable(b: Button, scale: Scalar) -> bool {
    let n = match b.label {
        Some(text) => text@.len(),
        None => 0,
    };
    &&& b.shape.valid()
    &&& crate::render::middle(b.shape.left, b.shape.right, scale).is_finite()
    &&& crate::render::middle(b.shape.top, b.shape.bottom, scale).is_finite()
    &&& crate::page::font_size(b, n, scale).is_finite()
    &&& b.label_color matches Some(pair) ==> is_color(pair.active) && is_color(pair.inactive)
}

/// Whether a text spells the font size of a label with `n` characters: half the height of its
/// button, times the scale, and less for a long label.
pub open spec fn spells_font(s: Seq<char>, top: int, bottom: int, scale: int, n: nat) -> bool {
    exists|c: int| #[trigger]
        sized(c, top, bottom, scale, font_share(n).0, font_share(n).1) && spells_tenths(s, c)
}

/// Whether the parts of a label are those of a button: its id, its text, the place of its middle
/// across and down, a font size that fits its height, and its colors.
pub open spec fn labels_button(p: LabelParts, b: Button, scale: Scalar) -> bool {
    let s = scale.value();
    &&& b.label is Some
    &&& crate::text::digits_value(p.id) == Some(b.id as nat)
    &&& spells_middle(p.left, b.shape.left.value(), b.shape.right.value(), s)
    &&& spells_middle(p.top, b.shape.top.value(), b.shape.bottom.value(), s)
    &&& spells_font(p.font, b.shape.top.value(), b.shape.bottom.value(), s, b.label->0@.len())
    &&& shows_text(p.text, b.label->0@)
    &&& match b.label_color {
        Some(pair) => {
            &&& exists|c: Seq<char>| p.color == ";color:"@ + c && #[trigger] names_color(
                c,
                pair.inactive,
            )
            &&& p.active.len() > 0 ==> exists|c: Seq<char>|
                p.active == " data-lca=\""@ + c + "\""@ && #[trigger] names_color(c, pair.active)
            &&& pair.active == pair.inactive ==> p.active.len() == 0
            &&& p.active.len() == 0 ==> exists|c: Seq<char>|
                #![trigger names_color(c, pair.active)]
                names_color(c, pair.active) && names_color(c, pair.inactive)
        },
        None => p.color.len() == 0 && p.active.len() == 0,
    }
}

/// The label of a button says what the button is: it spells its id, its place is the middle of the
/// button at the scale of the image, its font fits the button, and it shows the button's text in the
/// button's colors.
pub proof fn lemma_label_spelled(b: Button, scale: Scalar)
    requires
        b.label is Some,
        writable(b, scale),
    ensures
        exists|p: LabelParts|
            crate::page::label_html(b, scale) == #[trigger] label_of(p) && labels_button(
                p,
                b,
                scale,
            ),
{
    let text = b.label->0@;
    let x = crate::render::middle(b.shape.left, b.shape.right, scale);
    let y = crate::render::middle(b.shape.top, b.shape.bottom, scale);
    let f = crate::page::font_size(b, text.len(), scale);
    let p = LabelParts {
        id: crate::text::decimal(b.id as nat),
        active: crate::page::active_attribute(b.label_color),
        left: x.fixed(1),
        top: y.fixed(1),
        font: f.fixed(1),
        color: crate::page::color_style(b.label_color),
        text: crate::page::marked(crate::page::escaped(text)),
    };
    crate::text::lemma_decimal(b.id as nat);
    crate::precision::lemma_middle(b.shape.left, b.shape.right, scale);
    crate::precision::lemma_middle(b.shape.top, b.shape.bottom, scale);
    lemma_spells_tenths(x);
    lemma_spells_tenths(y);
    lemma_spells_tenths(f);
    lemma_font_sized(b, text.len(), scale);
    lemma_shows_text(text);
    assert(spells_middle(p.left, b.shape.left.value(), b.shape.right.value(), scale.value()));
    assert(spells_middle(p.top, b.shape.top.value(), b.shape.bottom.value(), scale.value()));
    assert(spells_font(
        p.font,
        b.shape.top.value(),
        b.shape.bottom.value(),
        scale.value(),
        text.len(),
    ));
    if let Some(pair) = b.label_color {
        lemma_color_named(pair.active);
        lemma_color_named(pair.inactive);
        reveal_strlit(" data-lca=\"");
        let off = crate::page::css(pair.inactive);
        let on = crate::page::css(pair.active);
        assert(p.color == ";color:"@ + off);
        assert(on != off ==> p.active == " data-lca=\""@ + on + "\""@);
        assert(on != off ==> p.active.len() > 0);
    }
    assert(crate::page::label_html(b, scale) == label_of(p));
    assert(labels_button(p, b, scale));
}

/// The labels on the page are those of the labelled buttons, one for each and in their order.
pub proof fn lemma_labels_listed(buttons: Seq<Button>, scale: Scalar, n: nat)
    requires
        n <= buttons.len(),
        forall|i: int| 0 <= i < n ==> writable(#[trigger] buttons[i], scale),
    ensures
        exists|pieces: Seq<Seq<char>>| #[trigger]
            lists_labels(pieces, buttons, scale, n) && crate::page::labels_html(buttons, scale, n)
                == pieces.flatten(),
    decreases n,
{
    if n == 0 {
        let none = Seq::<Seq<char>>::empty();
        assert(lists_labels(none, buttons, scale, 0));
    } else {
        let m = (n - 1) as nat;
        lemma_labels_listed(buttons, scale, m);
        let before = choose|pieces: Seq<Seq<char>>| #[trigger]
            lists_labels(pieces, buttons, scale, m) && crate::page::labels_html(buttons, scale, m)
                == pieces.flatten();
        let b = buttons[m as int];
        let piece = crate::page::label_html(b, scale);
        assert(writable(b, scale));
        if b.label is Some {
            lemma_label_spelled(b, scale);
        }
        let pieces = before.push(piece);
        before.lemma_flatten_push(piece);
        assert forall|i: int| 0 <= i < n implies lists_label(#[trigger] pieces[i], buttons[i], scale)
            by {
            if i < m {
                assert(pieces[i] == before[i]);
            }
        }
        assert(lists_labels(pieces, buttons, scale, n));
    }
}

/// Whether a piece of a page is the label of a button, or empty for one without a label.
pub open spec fn lists_label(piece: Seq<char>, b: Button, scale: Scalar) -> bool {
    if b.label is Some {
        exists|p: LabelParts| piece == #[trigger] label_of(p) && labels_button(p, b, scale)
    } else {
        piece.len() == 0
    }
}

/// Whether pieces of a page are the labels of the first `n` buttons.
pub open spec fn lists_labels(
    pieces: Seq<Seq<char>>,
    buttons: Seq<Button>,
    scale: Scalar,
    n: nat,
) -> bool {
    pieces.len() == n && forall|i: int|
        0 <= i < n ==> lists_label(#[trigger] pieces[i], buttons[i], scale)
}

/// The page is the same for all gamepads with images of one size but for the labels, which are those
/// of the labelled buttons.
pub proof fn lemma_page_labels<B: Backend>(gamepad: Gamepad<B>, other: Gamepad<B>)
    requires
        gamepad.size() is Some,
        other.size() == gamepad.size(),
        forall|i: int|
            0 <= i < gamepad.inputs.buttons@.len() ==> writable(
                #[trigger] gamepad.inputs.buttons@[i],
                gamepad.scale,
            ),
        forall|i: int|
            0 <= i < other.inputs.buttons@.len() ==> writable(
                #[trigger] other.inputs.buttons@[i],
                other.scale,
            ),
    ensures
        exists|head: Seq<char>, tail: Seq<char>, a: Seq<Seq<char>>, b: Seq<Seq<char>>|
            #![trigger same_page(head, tail, a, b)]
            {
                &&& same_page(head, tail, a, b)
                &&& crate::page::page_of(gamepad) == Some(head + a.flatten() + tail)
                &&& crate::page::page_of(other) == Some(head + b.flatten() + tail)
                &&& lists_labels(
                    a,
                    gamepad.inputs.buttons@,
                    gamepad.scale,
                    gamepad.inputs.buttons@.len(),
                )
                &&& lists_labels(
                    b,
                    other.inputs.buttons@,
                    other.scale,
                    other.inputs.buttons@.len(),
                )
            },
{
    let (w, h) = gamepad.size()->0;
    let x = gamepad.inputs.buttons@;
    let y = other.inputs.buttons@;
    lemma_labels_listed(x, gamepad.scale, x.len());
    lemma_labels_listed(y, other.scale, y.len());
    let a = choose|pieces: Seq<Seq<char>>| #[trigger]
        lists_labels(pieces, x, gamepad.scale, x.len()) && crate::page::labels_html(
            x,
            gamepad.scale,
            x.len(),
        ) == pieces.flatten();
    let b = choose|pieces: Seq<Seq<char>>| #[trigger]
        lists_labels(pieces, y, other.scale, y.len()) && crate::page::labels_html(
            y,
            other.scale,
            y.len(),
        ) == pieces.flatten();
    let none = Seq::<char>::empty();
    let (head, tail) = lemma_page_split(w as nat, h as nat, a.flatten());
    let (head2, tail2) = lemma_page_split(w as nat, h as nat, b.flatten());
    assert(same_page(head, tail, a, b));
}

/// The parts of two pages: what stands before and behind the labels of both, and the labels of each.
pub open spec fn same_page(
    head: Seq<char>,
    tail: Seq<char>,
    a: Seq<Seq<char>>,
    b: Seq<Seq<char>>,
) -> bool {
    head.len() > 0 && tail.len() > 0
}

spec fn page_head(w: nat, h: nat) -> Seq<char> {
    crate::pages::LABELS_HEAD@ + crate::page::wrapper_css(w, h) + crate::pages::LABELS_CSS@
        + crate::pages::PANEL_CSS@ + "</style></head><body>"@
        + "<div id=\"w\"><img src=\"/stream\" alt=\"overlay\">"@
}

spec fn page_tail(w: nat, h: nat) -> Seq<char> {
    "</div>"@ + crate::pages::PANEL_HTML@ + "<script>"@ + crate::page::fit_js(w, h)
        + crate::pages::EVENTS_JS@ + crate::pages::PANEL_JS@ + "</script></body></html>"@
}

proof fn lemma_page_split(w: nat, h: nat, labels: Seq<char>) -> (r: (Seq<char>, Seq<char>))
    ensures
        r == (page_head(w, h), page_tail(w, h)),
        crate::page::labels_page(w, h, labels) == r.0 + labels + r.1,
        r.0.len() > 0,
        r.1.len() > 0,
{
    let head = page_head(w, h);
    let tail = page_tail(w, h);
    reveal_strlit("</div>");
    reveal_strlit("</style></head><body>");
    assert(crate::page::labels_page(w, h, labels) =~= head + labels + tail);
    (head, tail)
}

} // verus!
