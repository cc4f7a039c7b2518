//! How far products, quotients and what is made of them can be off from the exact result.

use crate::scalar::{Scalar, INFINITY};
use vstd::prelude::*;

verus! {

/// The distance of `v` from zero.
pub open spec fn size(v: int) -> int {
    if v < 0 {
        -v
    } else {
        v
    }
}

pub proof fn lemma_size_product(a: int, b: int)
    ensures
        size(a * b) == size(a) * size(b),
{
    assert(size(a * b) == size(a) * size(b)) by (nonlinear_arith)
        requires
            size(a) == (if a < 0 {
                -a
            } else {
                a
            }),
            size(b) == (if b < 0 {
                -b
            } else {
                b
            }),
            size(a * b) == (if a * b < 0 {
                -(a * b)
            } else {
                a * b
            }),
    ;
}

/// Rounding a fraction is off by at most a 2^24th of the result, or half of 2^-149.
pub proof fn lemma_ratio_error(num: nat, den: nat)
    requires
        den > 0,
        crate::scalar::nearest(num, den) < INFINITY,
    ensures
        ({
            let m = crate::scalar::magnitude(crate::scalar::nearest(num, den));
            0x100_0000 * size(m * den - num) <= (m + 0x80_0000) * den
        }),
{
    crate::arith::lemma_nearest_exists(num, den);
    let b = choose|b: nat| crate::scalar::rounds_to(num, den, b);
    let m = crate::scalar::magnitude(b);
    let hi = crate::scalar::magnitude(b + 1);
    let lo = crate::scalar::magnitude((b - 1) as nat);
    crate::arith::lemma_gap(b);
    crate::scalar::lemma_step(b);
    if b > 0 {
        crate::scalar::lemma_step((b - 1) as nat);
    }
    let over = hi - m;
    let under = m - lo;
    assert((m + hi) * den == 2 * (m * den) + over * den) by (nonlinear_arith)
        requires
            over == hi - m,
    ;
    assert((lo + m) * den == 2 * (m * den) - under * den) by (nonlinear_arith)
        requires
            under == m - lo,
    ;
    assert(0x80_0000 * (over * den) <= (m + 0x80_0000) * den) by (nonlinear_arith)
        requires
            0x80_0000 * over <= m + 0x80_0000,
            den > 0,
    ;
    if b > 0 {
        assert(0x80_0000 * (under * den) <= (m + 0x80_0000) * den) by (nonlinear_arith)
            requires
                0x80_0000 * under <= m + 0x80_0000,
                den > 0,
        ;
    } else {
        assert(m * den == 0) by (nonlinear_arith)
            requires
                m == 0,
        ;
        assert((m + 0x80_0000) * den >= 0) by (nonlinear_arith)
            requires
                m >= 0,
                den > 0,
        ;
    }
}

/// What lies midway between two numbers is rounded to the one with the even pattern.
pub proof fn lemma_midway(num: nat, den: nat, k: nat)
    requires
        den > 0,
        k + 1 < INFINITY,
        2 * num == (crate::scalar::magnitude(k) + crate::scalar::magnitude(k + 1)) * den,
    ensures
        crate::scalar::nearest(num, den) == (if k % 2 == 0 {
            k
        } else {
            k + 1
        }),
{
    let b = if k % 2 == 0 {
        k
    } else {
        k + 1
    };
    crate::scalar::lemma_magnitude_order(k, k + 1);
    crate::scalar::lemma_magnitude_order(k + 1, k + 2);
    if k > 0 {
        crate::scalar::lemma_magnitude_order((k - 1) as nat, k);
    }
    let at = crate::scalar::magnitude(k);
    let next = crate::scalar::magnitude(k + 1);
    let over = crate::scalar::magnitude(k + 2);
    let under = crate::scalar::magnitude((k - 1) as nat);
    assert((at + next) * den < (next + over) * den) by (nonlinear_arith)
        requires
            at < over,
            den > 0,
    ;
    if k > 0 {
        assert((under + at) * den < (at + next) * den) by (nonlinear_arith)
            requires
                under < next,
                den > 0,
        ;
    }
    assert((k + 1) + 1 == k + 2);
    assert(crate::scalar::rounds_to(num, den, b));
    let c = choose|c: nat| crate::scalar::rounds_to(num, den, c);
    crate::scalar::lemma_rounds_to_unique(num, den, b, c);
}

/// A finite product is the product of numbers.
pub proof fn lemma_product_finite(a: Scalar, b: Scalar)
    requires
        a.product(b).is_finite(),
    ensures
        a.is_finite(),
        b.is_finite(),
{
    reveal(Scalar::product);
}

/// A finite product is off by at most a 2^24th of what it gives, or half of 2^-149.
pub proof fn lemma_product_error(a: Scalar, b: Scalar)
    requires
        a.product(b).is_finite(),
    ensures
        ({
            let p = a.product(b).value();
            let u = crate::scalar::unit();
            0x100_0000 * size(p * u - a.value() * b.value()) <= (size(p) + 0x80_0000) * u
        }),
{
    lemma_product_finite(a, b);
    reveal(Scalar::product);
    crate::scalar::lemma_one();
    let u = crate::scalar::unit();
    let ma = crate::scalar::magnitude(a.low());
    let mb = crate::scalar::magnitude(b.low());
    let low = crate::scalar::nearest(ma * mb, u);
    let m = crate::scalar::magnitude(low);
    let p = a.product(b);
    assert(low <= INFINITY);
    assert(p.low() == low);
    lemma_ratio_error(ma * mb, u);
    let va = a.value();
    let vb = b.value();
    if p.is_signed() {
        assert(va * vb == -(ma * mb)) by (nonlinear_arith)
            requires
                (va == -ma && vb == mb) || (va == ma && vb == -mb),
        ;
        assert((-m) * u == -(m * u)) by (nonlinear_arith);
    } else {
        assert(va * vb == ma * mb) by (nonlinear_arith)
            requires
                (va == -ma && vb == -mb) || (va == ma && vb == mb),
        ;
    }
}

/// A finite quotient is off by at most a 2^24th of what it gives, or half of 2^-149.
pub proof fn lemma_quotient_error(a: Scalar, b: Scalar)
    requires
        a.quotient(b).is_finite(),
        b.is_finite(),
    ensures
        ({
            let q = a.quotient(b).value();
            0x100_0000 * size(q * b.value() - a.value() * crate::scalar::unit()) <= (size(q)
                + 0x80_0000) * size(b.value())
        }),
        a.is_finite(),
        b.value() != 0,
{
    reveal(Scalar::quotient);
    crate::scalar::lemma_one();
    let u = crate::scalar::unit();
    let ma = crate::scalar::magnitude(a.low());
    let mb = crate::scalar::magnitude(b.low());
    assert(b.low() > 0);
    crate::scalar::lemma_magnitude_order(0, b.low());
    let low = crate::scalar::nearest(ma * u, mb);
    let m = crate::scalar::magnitude(low);
    let q = a.quotient(b);
    assert(low <= INFINITY);
    assert(q.low() == low);
    lemma_ratio_error(ma * u, mb);
    let va = a.value();
    let vb = b.value();
    let vq = q.value();
    assert(size(vb) == mb);
    assert(size(vq) == m);
    if a.is_signed() {
        assert(va * u == -(ma * u)) by (nonlinear_arith)
            requires
                va == -ma,
        ;
        assert(vq * vb == -(m * mb)) by (nonlinear_arith)
            requires
                (vq == -m && vb == mb) || (vq == m && vb == -mb),
        ;
    } else {
        assert(vq * vb == m * mb) by (nonlinear_arith)
            requires
                (vq == m && vb == mb) || (vq == -m && vb == -mb),
        ;
    }
}

/// The value of 2.
pub proof fn lemma_two()
    ensures
        (Scalar { bits: 0x4000_0000 }).is_finite(),
        (Scalar { bits: 0x4000_0000 }).value() == 2 * crate::scalar::unit(),
{
    vstd::arithmetic::power2::lemma2_to64();
    vstd::arithmetic::power2::lemma_pow2_adds(23, 127);
    vstd::arithmetic::power2::lemma_pow2_unfold(150);
    assert(0x4000_0000nat / 0x80_0000 == 128 && 0x4000_0000nat % 0x80_0000 == 0);
}

/// Whether `c` lies in the middle between `a` and `b`, times `scale`, but for a millionth of it and
/// what single precision cannot hold. All are in units of 2^-149.
pub open spec fn centered(c: int, a: int, b: int, scale: int) -> bool {
    0x10_0000 * size(2 * c * crate::scalar::unit() - (a + b) * scale) <= (size(c) + 0x20_0000)
        * crate::scalar::unit() + 0x20_0000 * size(scale)
}

proof fn lemma_centered(l: int, r: int, s: int, sum: int, half: int, c: int, u: int)
    requires
        u > 0,
        0x100_0000 * size(sum - (l + r)) <= size(sum),
        0x100_0000 * size(2 * half - sum) <= 2 * size(half) + 0x100_0000,
        0x100_0000 * size(c * u - half * s) <= (size(c) + 0x80_0000) * u,
    ensures
        0x10_0000 * size(2 * c * u - (l + r) * s) <= (size(c) + 0x20_0000) * u + 0x20_0000 * size(
            s,
        ),
{
    let e1 = c * u - half * s;
    let e2 = 2 * half - sum;
    let e3 = sum - (l + r);
    assert(2 * c * u - (l + r) * s == 2 * e1 + e2 * s + e3 * s) by (nonlinear_arith)
        requires
            e1 == c * u - half * s,
            e2 == 2 * half - sum,
            e3 == sum - (l + r),
    ;
    lemma_size_product(e2, s);
    lemma_size_product(e3, s);
    lemma_size_product(half, s);
    lemma_size_product(c, u);
    let cu = size(c) * u;
    let hs = size(half) * size(s);
    assert((size(c) + 0x80_0000) * u == cu + 0x80_0000 * u) by (nonlinear_arith)
        requires
            cu == size(c) * u,
    ;
    assert((size(c) + 0x20_0000) * u == cu + 0x20_0000 * u) by (nonlinear_arith)
        requires
            cu == size(c) * u,
    ;
    assert(hs <= 2 * cu + u);
    assert(size(sum) <= 3 * size(half) + 1);
    assert(0x100_0000 * (size(e2) * size(s)) <= 2 * hs + 0x100_0000 * size(s)) by (nonlinear_arith)
        requires
            0x100_0000 * size(e2) <= 2 * size(half) + 0x100_0000,
            hs == size(half) * size(s),
            size(s) >= 0,
    ;
    assert(0x100_0000 * (size(e3) * size(s)) <= 3 * hs + size(s)) by (nonlinear_arith)
        requires
            0x100_0000 * size(e3) <= 3 * size(half) + 1,
            hs == size(half) * size(s),
            size(s) >= 0,
    ;
}

/// Half the sum of two edges, times a scale, lies in the middle of the scaled edges.
pub proof fn lemma_middle(a: Scalar, b: Scalar, scale: Scalar)
    requires
        a.is_finite(),
        b.is_finite(),
        a.sum(b).quotient(Scalar { bits: 0x4000_0000 }).product(scale).is_finite(),
    ensures
        centered(
            a.sum(b).quotient(Scalar { bits: 0x4000_0000 }).product(scale).value(),
            a.value(),
            b.value(),
            scale.value(),
        ),
{
    let u = crate::scalar::unit();
    let two = Scalar { bits: 0x4000_0000 };
    let s = a.sum(b);
    let h = s.quotient(two);
    lemma_two();
    crate::scalar::lemma_one();
    lemma_product_finite(h, scale);
    lemma_product_error(h, scale);
    lemma_quotient_error(s, two);
    crate::arith::lemma_sum_error(a, b);
    let off = h.value() * (2 * u) - s.value() * u;
    assert(off == (2 * h.value() - s.value()) * u) by (nonlinear_arith)
        requires
            off == h.value() * (2 * u) - s.value() * u,
    ;
    lemma_size_product(2 * h.value() - s.value(), u as int);
    let e = size(2 * h.value() - s.value());
    assert(0x100_0000 * e <= 2 * size(h.value()) + 0x100_0000) by (nonlinear_arith)
        requires
            0x100_0000 * (e * u) <= (size(h.value()) + 0x80_0000) * (2 * u),
            u > 0,
    ;
    lemma_centered(
        a.value(),
        b.value(),
        scale.value(),
        s.value(),
        h.value(),
        h.product(scale).value(),
        u as int,
    );
}

/// Whether `t` is `start` moved by the share `q` of the way from `near` to `far`, or by as much the
/// other way, but for a share of 2^-18 of `m`. All are in units of 2^-149.
pub open spec fn moved_by_share(
    t: int,
    start: int,
    near: int,
    far: int,
    q: int,
    back: bool,
    m: int,
) -> bool {
    let u = crate::scalar::unit();
    let way = if back {
        -((far - near) * q)
    } else {
        (far - near) * q
    };
    0x4_0000 * size(t * u - (start * u + way)) <= (m + 0x4_0000) * u
}

proof fn lemma_share_errors(
    start: int,
    near: int,
    far: int,
    q: int,
    m: int,
    len: int,
    share: int,
    part: int,
    t: int,
    back: bool,
    u: int,
)
    requires
        u > 0x100_0000,
        size(start) <= m,
        size(near) <= m,
        size(far) <= m,
        size(q) <= 3 * u,
        0x20_0000 * size(share - q) <= u,
        0x100_0000 * size(len - (far - near)) <= size(len),
        size(part) <= 4 * size(len) + 1,
        0x100_0000 * size(part * u - len * share) <= (size(part) + 0x80_0000) * u,
        0x100_0000 * size(t - (start + (if back {
            -part
        } else {
            part
        }))) <= size(t),
    ensures
        0x4_0000 * size(t * u - (start * u + (if back {
            -((far - near) * q)
        } else {
            (far - near) * q
        }))) <= (m + 0x4_0000) * u,
{
    let move_by = if back {
        -part
    } else {
        part
    };
    let e1 = len - (far - near);
    let e2 = part * u - len * share;
    let e3 = t - (start + move_by);
    let d = share - q;
    assert(size(len) <= 3 * m);
    assert(size(t) <= 14 * m + 2);
    let rest = e2 + len * d + e1 * q;
    assert(part * u - (far - near) * q == rest) by (nonlinear_arith)
        requires
            rest == e2 + len * d + e1 * q,
            e1 == len - (far - near),
            e2 == part * u - len * share,
            d == share - q,
    ;
    assert((-part) * u == -(part * u)) by (nonlinear_arith);
    assert((start + move_by) * u == start * u + move_by * u) by (nonlinear_arith);
    assert(t * u == e3 * u + (start + move_by) * u) by (nonlinear_arith)
        requires
            e3 == t - (start + move_by),
    ;
    lemma_size_product(e3, u);
    lemma_size_product(len, d);
    lemma_size_product(e1, q);
    let mu = m * u;
    assert((m + 0x4_0000) * u == mu + 0x4_0000 * u) by (nonlinear_arith)
        requires
            mu == m * u,
    ;
    assert(0x100_0000 * (size(e3) * u) <= 14 * mu + 2 * u) by (nonlinear_arith)
        requires
            0x100_0000 * size(e3) <= 14 * m + 2,
            mu == m * u,
            u > 0,
    ;
    assert(0x100_0000 * size(e2) <= 12 * mu + 0x80_0001 * u) by (nonlinear_arith)
        requires
            0x100_0000 * size(e2) <= (size(part) + 0x80_0000) * u,
            size(part) <= 12 * m + 1,
            mu == m * u,
            u > 0,
    ;
    assert(0x20_0000 * (size(len) * size(d)) <= 3 * mu) by (nonlinear_arith)
        requires
            0x20_0000 * size(d) <= u,
            0 <= size(len) <= 3 * m,
            mu == m * u,
            u > 0,
    ;
    assert(0x100_0000 * (size(e1) * size(q)) <= 9 * mu) by (nonlinear_arith)
        requires
            0x100_0000 * size(e1) <= 3 * m,
            0 <= size(e1),
            0 <= size(q) <= 3 * u,
            0 <= m,
            mu == m * u,
            u > 0,
    ;
}

/// An edge that moves by a share of the distance between two edges.
pub proof fn lemma_moved_by_share(
    start: Scalar,
    near: Scalar,
    far: Scalar,
    share: Scalar,
    q: int,
    back: bool,
    m: int,
)
    requires
        start.is_finite(),
        near.is_finite(),
        far.is_finite(),
        size(start.value()) <= m,
        size(near.value()) <= m,
        size(far.value()) <= m,
        size(q) <= 3 * crate::scalar::unit(),
        size(share.value()) <= 3 * crate::scalar::unit(),
        0x20_0000 * size(share.value() - q) <= crate::scalar::unit(),
        far.difference(near).is_finite(),
        ({
            let part = far.difference(near).product(share);
            if back {
                start.difference(part).is_finite()
            } else {
                start.sum(part).is_finite()
            }
        }),
    ensures
        ({
            let part = far.difference(near).product(share);
            let t = if back {
                start.difference(part)
            } else {
                start.sum(part)
            };
            moved_by_share(
                t.value(),
                start.value(),
                near.value(),
                far.value(),
                q,
                back,
                m,
            )
        }),
{
    let u = crate::scalar::unit();
    crate::scalar::lemma_one();
    let len = far.difference(near);
    let part = len.product(share);
    crate::layout::lemma_negated(near);
    crate::layout::lemma_negated(part);
    crate::arith::lemma_sum_error(far, near.negated());
    crate::arith::lemma_unit_large();
    if back {
        crate::arith::lemma_sum_finite(start, part.negated());
    } else {
        crate::arith::lemma_sum_finite(start, part);
    }
    lemma_product_error(len, share);
    lemma_product_size(len.value(), share.value(), part.value(), u as int);
    if back {
        crate::arith::lemma_sum_error(start, part.negated());
    } else {
        crate::arith::lemma_sum_error(start, part);
    }
    lemma_share_errors(
        start.value(),
        near.value(),
        far.value(),
        q,
        m,
        len.value(),
        share.value(),
        part.value(),
        (if back {
            start.difference(part)
        } else {
            start.sum(part)
        }).value(),
        back,
        u as int,
    );
}

proof fn lemma_product_size(a: int, b: int, p: int, u: int)
    requires
        u > 0x100_0000,
        size(b) <= 3 * u,
        0x100_0000 * size(p * u - a * b) <= (size(p) + 0x80_0000) * u,
    ensures
        size(p) <= 4 * size(a) + 1,
{
    lemma_size_product(p, u);
    lemma_size_product(a, b);
    let sa = size(a);
    let sb = size(b);
    let sp = size(p);
    let e = size(p * u - a * b);
    assert(sa * sb <= sa * (3 * u)) by (nonlinear_arith)
        requires
            0 <= sa,
            sb <= 3 * u,
    ;
    assert(sp * u <= sa * (3 * u) + e);
    assert(sp <= 4 * sa + 1) by (nonlinear_arith)
        requires
            sp * u <= sa * (3 * u) + e,
            0x100_0000 * e <= (sp + 0x80_0000) * u,
            u > 0,
            sa >= 0,
            sp >= 0,
    ;
}

/// What 1 leaves over a number that is not far from it.
pub proof fn lemma_rest_near(v: Scalar, q: int, t: int)
    requires
        v.is_finite(),
        size(v.value()) <= 2 * crate::scalar::unit(),
        0x100_0000 * size(v.value() - q) <= t,
    ensures
        ({
            let r = (Scalar { bits: crate::scalar::ONE }).difference(v);
            &&& r.is_finite()
            &&& size(r.value()) <= 3 * crate::scalar::unit()
            &&& 0x100_0000 * size(r.value() - (crate::scalar::unit() - q)) <= t + 3
                * crate::scalar::unit()
        }),
{
    let one = Scalar { bits: crate::scalar::ONE };
    crate::scalar::lemma_one();
    crate::layout::lemma_negated(v);
    crate::lettered::lemma_sum_bounded(one, v.negated(), 3);
    crate::arith::lemma_sum_error(one, v.negated());
}

/// What 1 leaves over a share.
pub proof fn lemma_rest_error(v: Scalar, q: int, t: int)
    requires
        !v.is_nan(),
        0 <= v.value() <= crate::scalar::unit(),
        0x100_0000 * size(v.value() - q) <= t,
    ensures
        ({
            let r = (Scalar { bits: crate::scalar::ONE }).difference(v);
            &&& r.is_finite()
            &&& 0 <= r.value() <= crate::scalar::unit()
            &&& 0x100_0000 * size(r.value() - (crate::scalar::unit() - q)) <= t
                + crate::scalar::unit()
        }),
{
    let one = Scalar { bits: crate::scalar::ONE };
    crate::scalar::lemma_one();
    crate::layout::lemma_negated(v);
    if v.low() > crate::scalar::ONE {
        crate::scalar::lemma_magnitude_order(crate::scalar::ONE as nat, v.low());
    }
    crate::arith::lemma_sum_order(one, v.negated());
    let r = one.difference(v);
    if r.low() > crate::scalar::ONE {
        crate::scalar::lemma_magnitude_order(crate::scalar::ONE as nat, r.low());
    }
    crate::arith::lemma_sum_error(one, v.negated());
}

/// Rounding a root to the nearest pattern.
proof fn lemma_root_error(v: nat)
    ensures
        ({
            let m = crate::scalar::magnitude(crate::arith::nearest_root(v)) as int;
            0x40_0000 * size(m * m - v) <= m * m + 0x100_0000 * m + 0x100_0000
        }),
{
    crate::arith::lemma_magnitude_grows(v + 1);
    let big = crate::scalar::magnitude(v + 1);
    assert(big * big > v) by (nonlinear_arith)
        requires
            big >= v + 1,
    ;
    crate::arith::lemma_root_below(v, v + 1);
    let b = crate::arith::nearest_root(v);
    let m = crate::scalar::magnitude(b) as int;
    let hi = crate::scalar::magnitude(b + 1) as int;
    let lo = crate::scalar::magnitude((b - 1) as nat) as int;
    crate::arith::lemma_gap(b);
    crate::scalar::lemma_step(b);
    if b > 0 {
        crate::scalar::lemma_step((b - 1) as nat);
    }
    let g = hi - m;
    let k = m - lo;
    assert(4 * v <= (m + hi) * (m + hi));
    assert((m + hi) * (m + hi) == 4 * (m * m) + 4 * (m * g) + g * g) by (nonlinear_arith)
        requires
            g == hi - m,
    ;
    assert(0x80_0000 * (m * g) <= m * m + 0x80_0000 * m) by (nonlinear_arith)
        requires
            0x80_0000 * g <= m + 0x80_0000,
            m >= 0,
    ;
    assert(g * g <= m * g + 1) by (nonlinear_arith)
        requires
            0 < g,
            g == 1 || 0x80_0000 * g <= m,
            m >= 0,
    ;
    if b > 0 {
        assert((lo + m) * (lo + m) == 4 * (m * m) - 4 * (m * k) + k * k) by (nonlinear_arith)
            requires
                k == m - lo,
        ;
        assert(k * k >= 0) by (nonlinear_arith);
        assert((lo + m) * (lo + m) <= 4 * v);
        assert(0x80_0000 * (m * k) <= m * m + 0x80_0000 * m) by (nonlinear_arith)
            requires
                0x80_0000 * k <= m + 0x80_0000,
                m >= 0,
        ;
    } else {
        assert(m == 0);
        assert(m * m == 0);
    }
}

/// Whether `r` is the root of what 1 leaves over half the square of `c`, but for a share of 2^-20.
/// Both are in units of 2^-149.
pub open spec fn rest_root(r: int, c: int) -> bool {
    let u = crate::scalar::unit() as int;
    0 <= r <= u && 0x10_0000 * size(2 * (r * r) - (2 * (u * u) - c * c)) <= u * u
}

proof fn lemma_rest_root_errors(c: int, q: int, h: int, w: int, r: int, u: int)
    requires
        u > 0x1000_0000,
        0 <= q <= u,
        0 <= h <= u,
        0 <= w <= u,
        0 <= r <= u,
        0x100_0000 * size(q * u - c * c) <= (q + 0x80_0000) * u,
        0x100_0000 * size(2 * h - q) <= 2 * h + 0x100_0000,
        0x100_0000 * size(w - (u - h)) <= w,
        0x40_0000 * size(r * r - w * u) <= r * r + 0x100_0000 * r + 0x100_0000,
    ensures
        0x10_0000 * size(2 * (r * r) - (2 * (u * u) - c * c)) <= u * u,
{
    let eq = q * u - c * c;
    let eh = 2 * h - q;
    let ew = w - (u - h);
    let er = r * r - w * u;
    let uu = u * u;
    assert(2 * (r * r) - (2 * uu - c * c) == 2 * er + 2 * (ew * u) - eh * u - eq)
        by (nonlinear_arith)
        requires
            eq == q * u - c * c,
            eh == 2 * h - q,
            ew == w - (u - h),
            er == r * r - w * u,
            uu == u * u,
    ;
    lemma_size_product(ew, u);
    lemma_size_product(eh, u);
    assert(r * r <= uu) by (nonlinear_arith)
        requires
            0 <= r <= u,
            uu == u * u,
    ;
    assert(0x1000_0000 * u <= uu) by (nonlinear_arith)
        requires
            u > 0x1000_0000,
            uu == u * u,
    ;
    assert((q + 0x80_0000) * u <= uu + 0x80_0000 * u) by (nonlinear_arith)
        requires
            0 <= q <= u,
            uu == u * u,
    ;
    assert(0x100_0000 * (size(ew) * u) <= uu) by (nonlinear_arith)
        requires
            0x100_0000 * size(ew) <= u,
            uu == u * u,
            u > 0,
    ;
    assert(0x100_0000 * (size(eh) * u) <= 2 * uu + 0x100_0000 * u) by (nonlinear_arith)
        requires
            0x100_0000 * size(eh) <= 2 * u + 0x100_0000,
            uu == u * u,
            u > 0,
    ;
}

/// The factor that keeps a stick within its circle.
pub proof fn lemma_rest_root(c: Scalar)
    requires
        !c.is_nan(),
        -crate::scalar::unit() <= c.value() <= crate::scalar::unit(),
    ensures
        ({
            let r = (Scalar { bits: crate::scalar::ONE }).difference(
                c.product(c).quotient(Scalar { bits: 0x4000_0000 }),
            ).root();
            r.low() <= crate::scalar::ONE && !r.is_signed() && rest_root(r.value(), c.value())
        }),
{
    let one = Scalar { bits: crate::scalar::ONE };
    let two = Scalar { bits: 0x4000_0000 };
    let u = crate::scalar::unit() as int;
    crate::scalar::lemma_one();
    lemma_two();
    lemma_unit_wide();
    if c.low() > crate::scalar::ONE {
        crate::scalar::lemma_magnitude_order(crate::scalar::ONE as nat, c.low());
    }
    let q = c.product(c);
    crate::arith::lemma_product_shrinks(c, c);
    if q.low() < crate::scalar::ONE {
        crate::scalar::lemma_magnitude_order(q.low(), crate::scalar::ONE as nat);
    }
    lemma_product_error(c, c);
    let h = q.quotient(two);
    crate::arith::lemma_half(q);
    if h.low() < crate::scalar::ONE {
        crate::scalar::lemma_magnitude_order(h.low(), crate::scalar::ONE as nat);
    }
    lemma_quotient_error(q, two);
    lemma_halved(q.value(), h.value(), u);
    let w = one.difference(h);
    crate::layout::lemma_negated(h);
    crate::arith::lemma_sum_order(one, h.negated());
    if w.low() > crate::scalar::ONE {
        crate::scalar::lemma_magnitude_order(crate::scalar::ONE as nat, w.low());
    }
    crate::arith::lemma_sum_error(one, h.negated());
    let r = w.root();
    crate::arith::lemma_root_of_rest(h);
    if r.low() < crate::scalar::ONE {
        crate::scalar::lemma_magnitude_order(r.low(), crate::scalar::ONE as nat);
    }
    reveal(Scalar::root);
    let m = crate::scalar::magnitude(w.low());
    assert(w.low() != 0) by {
        if w.low() == 0 {
            assert(w.value() == 0);
            assert(0x100_0000 * size(w.value() - (u - h.value())) <= 0);
            assert(h.value() == u);
            assert(q.value() <= u);
            assert(0x100_0000 * size(2 * u - q.value()) <= 2 * u + 0x100_0000);
        }
    }
    lemma_root_error(m * crate::scalar::unit());
    if w.is_signed() {
        crate::scalar::lemma_magnitude_order(0, w.low());
    }
    if w.low() < crate::scalar::ONE {
        crate::scalar::lemma_magnitude_order(w.low(), crate::scalar::ONE as nat);
    }
    let un = crate::scalar::unit();
    assert(m * un <= un * un) by (nonlinear_arith)
        requires
            m <= un,
    ;
    crate::arith::lemma_root_at_most(m * un, crate::scalar::ONE as nat);
    assert(r.low() == crate::arith::nearest_root(m * un));
    lemma_rest_root_errors(c.value(), q.value(), h.value(), w.value(), r.value(), u);
}

proof fn lemma_unit_wide()
    ensures
        crate::scalar::unit() > 0x1000_0000,
{
    vstd::arithmetic::power2::lemma2_to64();
    vstd::arithmetic::power2::lemma_pow2_strictly_increases(28, 149);
}

proof fn lemma_halved(s: int, h: int, u: int)
    requires
        u > 0,
        0x100_0000 * size(h * (2 * u) - s * u) <= (size(h) + 0x80_0000) * size(2 * u),
    ensures
        0x100_0000 * size(2 * h - s) <= 2 * size(h) + 0x100_0000,
{
    let e = 2 * h - s;
    assert(h * (2 * u) - s * u == e * u) by (nonlinear_arith)
        requires
            e == 2 * h - s,
    ;
    lemma_size_product(e, u);
    let a = size(e);
    assert(0x100_0000 * a <= 2 * size(h) + 0x100_0000) by (nonlinear_arith)
        requires
            0x100_0000 * (a * u) <= (size(h) + 0x80_0000) * (2 * u),
            u > 0,
    ;
}

/// Whether `t` is how far a stick with the displacement `d` moves along an axis at `a`, with the
/// other axis at `c`: `d * a * sqrt(1 - c^2 / 2)`, but for a share of 2^-20 in the root, and one of
/// 2^-23 of `d`. All are in units of 2^-149.
pub open spec fn travels(t: int, d: int, a: int, c: int) -> bool {
    exists|r: int| #[trigger] rest_root(r, c) && travels_with(t, d, a, r)
}

/// Whether `t` is `d * a * r`, but for a share of 2^-23 of `d`.
pub open spec fn travels_with(t: int, d: int, a: int, r: int) -> bool {
    let u = crate::scalar::unit() as int;
    0x80_0000 * size(t * (u * u) - d * a * r) <= (size(d) + 0x80_0000) * (u * u)
}

proof fn lemma_travel_errors(d: int, a: int, r: int, da: int, t: int, u: int)
    requires
        u > 0,
        0 <= r <= u,
        size(t) <= size(d),
        size(da) <= size(d),
        0x100_0000 * size(da * u - d * a) <= (size(da) + 0x80_0000) * u,
        0x100_0000 * size(t * u - da * r) <= (size(t) + 0x80_0000) * u,
    ensures
        0x80_0000 * size(t * (u * u) - d * a * r) <= (size(d) + 0x80_0000) * (u * u),
{
    let e1 = da * u - d * a;
    let e2 = t * u - da * r;
    let n = size(d) + 0x80_0000;
    let uu = u * u;
    assert(t * uu - d * a * r == e2 * u + e1 * r) by (nonlinear_arith)
        requires
            e1 == da * u - d * a,
            e2 == t * u - da * r,
            uu == u * u,
    ;
    lemma_size_product(e2, u);
    lemma_size_product(e1, r);
    assert(0x100_0000 * (size(e2) * u) <= n * uu) by (nonlinear_arith)
        requires
            0x100_0000 * size(e2) <= (size(t) + 0x80_0000) * u,
            size(t) + 0x80_0000 <= n,
            uu == u * u,
            u > 0,
    ;
    assert(0x100_0000 * (size(e1) * r) <= n * uu) by (nonlinear_arith)
        requires
            0x100_0000 * size(e1) <= (size(da) + 0x80_0000) * u,
            0 <= size(da),
            size(da) + 0x80_0000 <= n,
            0 <= size(e1),
            0 <= r <= u,
            uu == u * u,
            u > 0,
    ;
}

/// How far a stick moves.
pub proof fn lemma_travels(d: Scalar, a: Scalar, c: Scalar)
    requires
        d.is_finite(),
        !a.is_nan(),
        -crate::scalar::unit() <= a.value() <= crate::scalar::unit(),
        !c.is_nan(),
        -crate::scalar::unit() <= c.value() <= crate::scalar::unit(),
    ensures
        ({
            let t = d.product(a).product(
                (Scalar { bits: crate::scalar::ONE }).difference(
                    c.product(c).quotient(Scalar { bits: 0x4000_0000 }),
                ).root(),
            );
            t.is_finite() && travels(t.value(), d.value(), a.value(), c.value())
        }),
{
    let u = crate::scalar::unit() as int;
    crate::scalar::lemma_one();
    let r = (Scalar { bits: crate::scalar::ONE }).difference(
        c.product(c).quotient(Scalar { bits: 0x4000_0000 }),
    ).root();
    lemma_rest_root(c);
    if a.low() > crate::scalar::ONE {
        crate::scalar::lemma_magnitude_order(crate::scalar::ONE as nat, a.low());
    }
    let da = d.product(a);
    crate::arith::lemma_product_shrinks(d, a);
    let t = da.product(r);
    crate::arith::lemma_product_shrinks(da, r);
    if da.low() < d.low() {
        crate::scalar::lemma_magnitude_order(da.low(), d.low());
    }
    if t.low() < da.low() {
        crate::scalar::lemma_magnitude_order(t.low(), da.low());
    }
    lemma_product_error(d, a);
    lemma_product_error(da, r);
    lemma_travel_errors(d.value(), a.value(), r.value(), da.value(), t.value(), u);
    assert(rest_root(r.value(), c.value()) && travels_with(
        t.value(),
        d.value(),
        a.value(),
        r.value(),
    ));
}

} // verus!
