//! How the text of a button looks: the size and place of its characters, its shadow, and the arrows.

use crate::label::{Placement, Stamp};
use crate::layout::Color;
use crate::scalar::Scalar;
use vstd::prelude::*;

verus! {

// ---------------------------------------------------------------------------
// Shares
// ---------------------------------------------------------------------------

/// Whether `p` is `num` parts of `den` of `a`, as nearly as numbers go: off by at most a 2^20th of
/// what `a` and one pixel are together.
pub open spec fn part_of(p: int, a: int, num: int, den: int) -> bool {
    0x10_0000 * crate::precision::size(den * p - num * a) <= den * (crate::precision::size(a)
        + crate::scalar::unit())
}

/// Whether `c` is the number nearest to `num` parts of `den`, or next to it, and at most 2.
spec fn constant(c: Scalar, num: int, den: int) -> bool {
    let u = crate::scalar::unit();
    &&& c.is_finite()
    &&& 0 <= c.value() <= 2 * u
    &&& 0x100_0000 * crate::precision::size(den * c.value() - num * u) <= den * u
}

proof fn lemma_part_errors(a: int, c: int, p: int, num: int, den: int, u: int)
    requires
        den > 0,
        u > 0x100_0000,
        0 <= c <= 2 * u,
        0x100_0000 * crate::precision::size(den * c - num * u) <= den * u,
        0x100_0000 * crate::precision::size(p * u - a * c) <= (crate::precision::size(p)
            + 0x80_0000) * u,
    ensures
        0x40_0000 * crate::precision::size(den * p - num * a) <= den * (2 * crate::precision::size(
            a,
        ) + 0x80_0000),
        crate::precision::size(p) <= 4 * crate::precision::size(a) + 1,
{
    let sa = crate::precision::size(a);
    let sp = crate::precision::size(p);
    let e1 = p * u - a * c;
    let e2 = den * c - num * u;
    let s1 = crate::precision::size(e1);
    let s2 = crate::precision::size(e2);
    crate::precision::lemma_size_product(p, u);
    crate::precision::lemma_size_product(a, c);
    assert(sa * c <= sa * (2 * u)) by (nonlinear_arith)
        requires
            0 <= sa,
            c <= 2 * u,
    ;
    assert(sp * u <= sa * (2 * u) + s1);
    assert(sp <= 4 * sa + 1) by (nonlinear_arith)
        requires
            sp * u <= sa * (2 * u) + s1,
            0x100_0000 * s1 <= (sp + 0x80_0000) * u,
            u > 0,
            sa >= 0,
            sp >= 0,
    ;
    let f = den * p - num * a;
    assert(f * u == den * e1 + a * e2) by (nonlinear_arith)
        requires
            f == den * p - num * a,
            e1 == p * u - a * c,
            e2 == den * c - num * u,
    ;
    crate::precision::lemma_size_product(f, u);
    crate::precision::lemma_size_product(den, e1);
    crate::precision::lemma_size_product(a, e2);
    let sf = crate::precision::size(f);
    assert(sf * u <= den * s1 + sa * s2);
    assert(0x100_0000 * (den * s1) <= den * ((sp + 0x80_0000) * u)) by (nonlinear_arith)
        requires
            0x100_0000 * s1 <= (sp + 0x80_0000) * u,
            den > 0,
    ;
    assert(0x100_0000 * (sa * s2) <= sa * (den * u)) by (nonlinear_arith)
        requires
            0x100_0000 * s2 <= den * u,
            sa >= 0,
    ;
    assert(0x100_0000 * sf <= den * (sp + 0x80_0000) + sa * den) by (nonlinear_arith)
        requires
            sf * u <= den * s1 + sa * s2,
            0x100_0000 * (den * s1) <= den * ((sp + 0x80_0000) * u),
            0x100_0000 * (sa * s2) <= sa * (den * u),
            u > 0,
    ;
    assert(den * (sp + 0x80_0000) + sa * den <= den * (5 * sa + 0x80_0001)) by (nonlinear_arith)
        requires
            sp <= 4 * sa + 1,
            den > 0,
    ;
    assert(den * (5 * sa + 0x80_0001) <= 4 * (den * (2 * sa + 0x80_0000))) by (nonlinear_arith)
        requires
            den > 0,
            sa >= 0,
    ;
}

proof fn lemma_part(a: Scalar, c: Scalar, num: int, den: int)
    requires
        constant(c, num, den),
        den > 0,
        a.product(c).is_finite(),
    ensures
        part_of(a.product(c).value(), a.value(), num, den),
        crate::precision::size(a.product(c).value()) <= 4 * crate::precision::size(a.value()) + 1,
        a.is_finite(),
{
    let u = crate::scalar::unit() as int;
    crate::arith::lemma_unit_large();
    crate::precision::lemma_product_finite(a, c);
    crate::precision::lemma_product_error(a, c);
    let p = a.product(c).value();
    let v = a.value();
    lemma_part_errors(v, c.value(), p, num, den, u);
    let sa = crate::precision::size(v);
    assert(den * (2 * sa + 0x80_0000) <= 4 * (den * (sa + u))) by (nonlinear_arith)
        requires
            den > 0,
            sa >= 0,
            u > 0x100_0000,
    ;
}

proof fn lemma_constants()
    ensures
        constant(Scalar { bits: crate::label::TWO }, 2, 1),
        constant(Scalar { bits: crate::label::TEXT_HEIGHT }, 3, 4),
        constant(Scalar { bits: crate::label::TEXT_WIDTH }, 92, 100),
        constant(Scalar { bits: crate::label::ARROW_WIDTH }, 7, 10),
        constant(Scalar { bits: crate::label::ARROW_CENTER }, 35, 100),
        constant(Scalar { bits: crate::label::ARROW_REACH }, 28, 100),
        constant(Scalar { bits: crate::label::SHADOW }, 9, 10),
{
    vstd::arithmetic::power2::lemma2_to64();
    vstd::arithmetic::power2::lemma_pow2_adds(24, 125);
    vstd::arithmetic::power2::lemma_pow2_adds(25, 124);
    vstd::arithmetic::power2::lemma_pow2_pos(124);
    vstd::arithmetic::power2::lemma_pow2_pos(125);
    crate::precision::lemma_two();
    crate::scalar::lemma_pattern(125, 0xc0_0000);
    crate::scalar::lemma_pattern(125, 0xeb_851f);
    crate::scalar::lemma_pattern(125, 0xb3_3333);
    crate::scalar::lemma_pattern(124, 0xb3_3333);
    crate::scalar::lemma_pattern(124, 0x8f_5c29);
    crate::scalar::lemma_pattern(125, 0xe6_6666);
}

// ---------------------------------------------------------------------------
// Arrows
// ---------------------------------------------------------------------------

/// Whether `v` lies `num` parts of `den` of `s` beyond `x`, as nearly as numbers go.
pub open spec fn beyond(v: int, x: int, s: int, num: int, den: int) -> bool {
    0x4_0000 * crate::precision::size(den * (v - x) - num * s) <= den * (crate::precision::size(v)
        + crate::precision::size(s) + crate::scalar::unit())
}

proof fn lemma_beyond(x: Scalar, p: Scalar, s: int, num: int, den: int)
    requires
        den > 0,
        x.is_finite(),
        p.is_finite(),
        0x8_0000 * crate::precision::size(den * p.value() - num * s) <= den * (
        crate::precision::size(s) + crate::scalar::unit()),
    ensures
        x.sum(p).is_finite() ==> beyond(x.sum(p).value(), x.value(), s, num, den),
        x.difference(p).is_finite() ==> beyond(x.difference(p).value(), x.value(), s, -num, den),
{
    let u = crate::scalar::unit() as int;
    let ss = crate::precision::size(s);
    crate::scalar::lemma_one();
    if x.sum(p).is_finite() {
        crate::arith::lemma_sum_error(x, p);
        lemma_beyond_errors(x.sum(p).value(), x.value(), p.value(), s, num, den, u);
    }
    crate::layout::lemma_negated(p);
    if x.difference(p).is_finite() {
        let q = p.negated();
        crate::arith::lemma_sum_error(x, q);
        assert(den * q.value() - (-num) * s == -(den * p.value() - num * s)) by (nonlinear_arith)
            requires
                q.value() == -p.value(),
        ;
        lemma_beyond_errors(x.sum(q).value(), x.value(), q.value(), s, -num, den, u);
    }
}

proof fn lemma_beyond_errors(v: int, x: int, p: int, s: int, num: int, den: int, u: int)
    requires
        den > 0,
        u == crate::scalar::unit(),
        0x100_0000 * crate::precision::size(v - (x + p)) <= crate::precision::size(v),
        0x8_0000 * crate::precision::size(den * p - num * s) <= den * (crate::precision::size(s)
            + u),
    ensures
        beyond(v, x, s, num, den),
{
    let e = v - (x + p);
    let f = den * p - num * s;
    assert(den * (v - x) - num * s == den * e + f) by (nonlinear_arith)
        requires
            e == v - (x + p),
            f == den * p - num * s,
    ;
    crate::precision::lemma_size_product(den, e);
    let se = crate::precision::size(e);
    let sv = crate::precision::size(v);
    let ss = crate::precision::size(s);
    assert(0x100_0000 * (den * se) <= den * sv) by (nonlinear_arith)
        requires
            0x100_0000 * se <= sv,
            den > 0,
    ;
    assert(den * (sv + ss + u) == den * sv + den * (ss + u)) by (nonlinear_arith);
}

/// Whether a corner of an arrow around (`x`, `y`) lies as many thousandths of the height of
/// the text to the right and down.
pub open spec fn corner_at(
    c: (Scalar, Scalar),
    x: Scalar,
    y: Scalar,
    size: Scalar,
    right: int,
    down: int,
) -> bool {
    &&& beyond(c.0.value(), x.value(), size.value(), right, 1000)
    &&& beyond(c.1.value(), y.value(), size.value(), down, 1000)
}

/// Whether both coordinates of a point are numbers.
pub open spec fn is_point(c: (Scalar, Scalar)) -> bool {
    c.0.is_finite() && c.1.is_finite()
}

proof fn lemma_still(v: Scalar, size: Scalar)
    requires
        v.is_finite(),
    ensures
        beyond(v.value(), v.value(), size.value(), 0, 1000),
{
    crate::scalar::lemma_one();
    let s = size.value();
    assert(1000 * (v.value() - v.value()) - 0 * s == 0) by (nonlinear_arith);
    let sv = crate::precision::size(v.value());
    let ss = crate::precision::size(s);
    let u = crate::scalar::unit();
    assert(0 <= 1000 * (sv + ss + u));
}

proof fn lemma_hundredfold(p: int, s: int, num: int, den: int, k: int)
    requires
        k > 0,
        den > 0,
        0x10_0000 * crate::precision::size(den * p - num * s) <= den * (crate::precision::size(s)
            + crate::scalar::unit()),
    ensures
        0x8_0000 * crate::precision::size((k * den) * p - (k * num) * s) <= (k * den) * (
        crate::precision::size(s) + crate::scalar::unit()),
{
    let e = den * p - num * s;
    let r = crate::precision::size(s) + crate::scalar::unit();
    assert((k * den) * p - (k * num) * s == k * e) by (nonlinear_arith)
        requires
            e == den * p - num * s,
    ;
    crate::precision::lemma_size_product(k, e);
    let se = crate::precision::size(e);
    assert(0x10_0000 * (k * se) <= (k * den) * r) by (nonlinear_arith)
        requires
            0x10_0000 * se <= den * r,
            k > 0,
    ;
}

proof fn lemma_half_arrow(reach: int, wide: int, s: int, u: int)
    requires
        u == crate::scalar::unit(),
        u > 0x100_0000,
        part_of(reach, s, 28, 100),
        part_of(wide, reach, 7, 10),
        crate::precision::size(reach) <= 4 * crate::precision::size(s) + 1,
    ensures
        0x8_0000 * crate::precision::size(1000 * wide - 196 * s) <= 1000 * (crate::precision::size(
            s,
        ) + u),
{
    let a = 10 * wide - 7 * reach;
    let b = 100 * reach - 28 * s;
    assert(1000 * wide - 196 * s == 100 * a + 7 * b);
    let ss = crate::precision::size(s);
    let sr = crate::precision::size(reach);
    // What is 28 hundredths is less than half, so that the first error is the lesser part.
    assert(0x10_0000 * crate::precision::size(a) <= 10 * (sr + u));
    assert(0x10_0000 * crate::precision::size(b) <= 100 * (ss + u));
    assert(100 * sr <= 28 * ss + crate::precision::size(b));
}

/// An arrow is a triangle: its tip lies towards where it points, 28 hundredths of the height of the
/// text from the middle, and the other two corners as far on the other side, 0.196 of the height off
/// the line either way. What is no arrow has no such shape.
pub proof fn lemma_arrow_points(c: char, x: Scalar, y: Scalar, size: Scalar)
    requires
        x.is_finite(),
        y.is_finite(),
        crate::label::arrow_shape(c, x, y, size) matches Some(s) ==> is_point(s.0) && is_point(s.1)
            && is_point(s.2),
    ensures
        crate::label::arrow_shape(c, x, y, size) is Some <==> c == '→' || c == '←' || c == '↑'
            || c == '↓',
        crate::label::arrow_shape(c, x, y, size) matches Some(s) ==> {
            &&& c == '→' ==> corner_at(s.0, x, y, size, 280, 0) && corner_at(
                s.1,
                x,
                y,
                size,
                -280,
                -196,
            ) && corner_at(s.2, x, y, size, -280, 196)
            &&& c == '←' ==> corner_at(s.0, x, y, size, -280, 0) && corner_at(
                s.1,
                x,
                y,
                size,
                280,
                -196,
            ) && corner_at(s.2, x, y, size, 280, 196)
            &&& c == '↑' ==> corner_at(s.0, x, y, size, 0, -280) && corner_at(
                s.1,
                x,
                y,
                size,
                -196,
                280,
            ) && corner_at(s.2, x, y, size, 196, 280)
            &&& c == '↓' ==> corner_at(s.0, x, y, size, 0, 280) && corner_at(
                s.1,
                x,
                y,
                size,
                -196,
                -280,
            ) && corner_at(s.2, x, y, size, 196, -280)
        },
{
    if crate::label::arrow_shape(c, x, y, size) is Some {
        let reach = size.product(Scalar { bits: crate::label::ARROW_REACH });
        let wide = reach.product(Scalar { bits: crate::label::ARROW_WIDTH });
        crate::arith::lemma_unit_large();
        lemma_constants();
        crate::layout::lemma_negated(wide);
        if c == '→' || c == '←' {
            crate::arith::lemma_sum_finite(y, wide);
        } else {
            crate::arith::lemma_sum_finite(x, wide);
        }
        lemma_part(reach, Scalar { bits: crate::label::ARROW_WIDTH }, 7, 10);
        lemma_part(size, Scalar { bits: crate::label::ARROW_REACH }, 28, 100);
        let u = crate::scalar::unit() as int;
        lemma_half_arrow(reach.value(), wide.value(), size.value(), u);
        lemma_hundredfold(reach.value(), size.value(), 28, 100, 10);
        assert(10int * 100 == 1000 && 10int * 28 == 280);
        lemma_beyond(x, reach, size.value(), 280, 1000);
        lemma_beyond(y, reach, size.value(), 280, 1000);
        lemma_beyond(x, wide, size.value(), 196, 1000);
        lemma_beyond(y, wide, size.value(), 196, 1000);
        lemma_still(x, size);
        lemma_still(y, size);
    }
}

// ---------------------------------------------------------------------------
// Places
// ---------------------------------------------------------------------------

/// A text starts at its left end, and every character starts where the one before it ends: a glyph
/// takes the width that the font gives it, an arrow seven tenths of the height of the text.
pub proof fn lemma_characters_follow(
    text: Seq<char>,
    glyphs: Seq<Scalar>,
    size: Scalar,
    n: nat,
)
    requires
        n < text.len(),
        glyphs.len() == text.len(),
        crate::label::cursor(text, glyphs, size, n + 1).is_finite(),
        crate::label::cursor(text, glyphs, size, n).is_finite(),
    ensures
        crate::label::cursor(text, glyphs, size, 0).value() == 0,
        ({
            let here = crate::label::cursor(text, glyphs, size, n).value();
            let next = crate::label::cursor(text, glyphs, size, n + 1).value();
            if text[n as int] == '→' || text[n as int] == '←' || text[n as int] == '↑'
                || text[n as int] == '↓' {
                beyond(next, here, size.value(), 7, 10)
            } else {
                beyond(next, here, glyphs[n as int].value(), 1, 1)
            }
        }),
{
    crate::arith::lemma_unit_large();
    crate::scalar::lemma_one();
    assert(crate::scalar::magnitude(0) == 0);
    let here = crate::label::cursor(text, glyphs, size, n);
    let w = crate::label::advance(text[n as int], glyphs[n as int], size);
    assert(crate::label::cursor(text, glyphs, size, n + 1) == here.sum(w));
    crate::arith::lemma_sum_finite(here, w);
    if crate::label::arrow(text[n as int]) {
        lemma_constants();
        lemma_part(size, Scalar { bits: crate::label::ARROW_WIDTH }, 7, 10);
        lemma_hundredfold(w.value(), size.value(), 7, 10, 1);
        assert(1int * 10 == 10 && 1int * 7 == 7);
        lemma_beyond(here, w, size.value(), 7, 10);
    } else {
        let g = w.value();
        assert(1 * g - 1 * g == 0);
        lemma_beyond(here, w, g, 1, 1);
    }
}

/// Whether text of the height `f` is what fits a button of the given radius, if text of the height
/// `initial` would be `w` wide.
pub open spec fn fits(f: Scalar, initial: Scalar, w: Scalar, radius: Scalar) -> bool {
    let u = crate::scalar::unit();
    let r = radius.value();
    ||| f == initial && 0x1_0000 * (100 * w.value() - 184 * r) <= 100 * (crate::precision::size(r)
        + u)
    ||| {
        &&& 0x1_0000 * (184 * r - 100 * w.value()) <= 100 * (crate::precision::size(r) + u)
        &&& 0x1_0000 * crate::precision::size(100 * (f.value() * w.value()) - 184 * (
        initial.value() * r)) <= 100 * ((crate::precision::size(f.value()) + u)
            * (crate::precision::size(w.value()) + u) + crate::precision::size(initial.value()) * (
        crate::precision::size(r) + u))
    }
}

/// Text that is yet to be made to fit is three halves of the radius high.
pub proof fn lemma_starting_size(radius: Scalar)
    requires
        crate::label::starting_size(radius).is_finite(),
    ensures
        0x4_0000 * crate::precision::size(
            2 * crate::label::starting_size(radius).value() - 3 * radius.value(),
        ) <= 4 * (crate::precision::size(radius.value()) + crate::scalar::unit()),
{
    let d = radius.product(Scalar { bits: crate::label::TWO });
    let i = crate::label::starting_size(radius);
    let u = crate::scalar::unit() as int;
    crate::arith::lemma_unit_large();
    lemma_constants();
    lemma_part(d, Scalar { bits: crate::label::TEXT_HEIGHT }, 3, 4);
    lemma_part(radius, Scalar { bits: crate::label::TWO }, 2, 1);
    lemma_twice(d.value(), i.value(), radius.value(), 3, 4, u);
}

/// Whether a text is `w` wide at the height `initial`, which is three halves of the radius.
pub open spec fn measured_at(
    text: Seq<char>,
    glyphs: Seq<Scalar>,
    radius: Scalar,
    initial: Scalar,
    w: Scalar,
) -> bool {
    &&& w == crate::label::cursor(text, glyphs, initial, text.len())
    &&& 0x4_0000 * crate::precision::size(2 * initial.value() - 3 * radius.value()) <= 2 * (
    crate::precision::size(radius.value()) + crate::scalar::unit())
}

proof fn lemma_twice(d: int, p: int, r: int, num: int, den: int, u: int)
    requires
        u == crate::scalar::unit(),
        u > 0x100_0000,
        0 < num < den <= 100,
        part_of(d, r, 2, 1),
        part_of(p, d, num, den),
        crate::precision::size(d) <= 4 * crate::precision::size(r) + 1,
    ensures
        0x4_0000 * crate::precision::size(den * p - 2 * num * r) <= den * (crate::precision::size(r)
            + u) * 2,
{
    let a = den * p - num * d;
    let b = d - 2 * r;
    assert(den * p - 2 * num * r == a + num * b) by (nonlinear_arith)
        requires
            a == den * p - num * d,
            b == d - 2 * r,
    ;
    crate::precision::lemma_size_product(num, b);
    let sb = crate::precision::size(b);
    let sr = crate::precision::size(r);
    let sd = crate::precision::size(d);
    assert(0x10_0000 * (num * sb) <= den * (sr + u)) by (nonlinear_arith)
        requires
            0x10_0000 * sb <= sr + u,
            0 < num < den,
            sb >= 0,
    ;
    assert(den * (sd + u) <= den * (4 * sr + 2 * u)) by (nonlinear_arith)
        requires
            sd <= 4 * sr + 1,
            den > 0,
            u >= 1,
    ;
    assert(den * (4 * sr + 2 * u) + den * (sr + u) <= 5 * (den * (sr + u))) by (nonlinear_arith)
        requires
            den > 0,
            u >= 1,
    ;
    assert(den * (sr + u) * 2 == 2 * (den * (sr + u))) by (nonlinear_arith);
}

proof fn lemma_fit_errors(f: int, p: int, i: int, o: int, w: int, r: int, u: int)
    requires
        u > 0x100_0000,
        w > 0,
        0x100_0000 * crate::precision::size(f * w - p * u) <= (crate::precision::size(f)
            + 0x80_0000) * w,
        0x100_0000 * crate::precision::size(p * u - i * o) <= (crate::precision::size(p)
            + 0x80_0000) * u,
        0x4_0000 * crate::precision::size(100 * o - 184 * r) <= 200 * (crate::precision::size(r)
            + u),
    ensures
        0x1_0000 * crate::precision::size(100 * (f * w) - 184 * (i * r)) <= 100 * ((
        crate::precision::size(f) + u) * (w + u) + crate::precision::size(i) * (
        crate::precision::size(r) + u)),
{
    let e1 = f * w - p * u;
    let e2 = p * u - i * o;
    let e3 = 100 * o - 184 * r;
    let sf = crate::precision::size(f);
    let sp = crate::precision::size(p);
    let si = crate::precision::size(i);
    let sr = crate::precision::size(r);
    let s1 = crate::precision::size(e1);
    let s2 = crate::precision::size(e2);
    let s3 = crate::precision::size(e3);
    assert(i * e3 == 100 * (i * o) - 184 * (i * r)) by (nonlinear_arith)
        requires
            e3 == 100 * o - 184 * r,
    ;
    crate::precision::lemma_size_product(i, e3);
    crate::precision::lemma_size_product(f, w);
    crate::precision::lemma_size_product(p, u);
    // The product is about as large as what it is divided to.
    let fw = sf * w;
    let pu = sp * u;
    assert((sf + 0x80_0000) * w == fw + 0x80_0000 * w) by (nonlinear_arith)
        requires
            fw == sf * w,
    ;
    assert((sp + 0x80_0000) * u == pu + 0x80_0000 * u) by (nonlinear_arith)
        requires
            pu == sp * u,
    ;
    assert(pu <= fw + s1);
    assert(fw >= 0) by (nonlinear_arith)
        requires
            fw == sf * w,
            sf >= 0,
            w > 0,
    ;
    let uw = u * w;
    assert(uw >= u && uw >= 0x100_0000 * w) by (nonlinear_arith)
        requires
            uw == u * w,
            u > 0x100_0000,
            w >= 1,
    ;
    assert((sf + u) * (w + u) >= fw + uw + 0x100_0000 * u) by (nonlinear_arith)
        requires
            fw == sf * w,
            uw == u * w,
            sf >= 0,
            u > 0x100_0000,
    ;
    let ir = si * (sr + u);
    assert(0x4_0000 * (si * s3) <= 200 * ir) by (nonlinear_arith)
        requires
            0x4_0000 * s3 <= 200 * (sr + u),
            ir == si * (sr + u),
            si >= 0,
    ;
    assert(ir >= 0) by (nonlinear_arith)
        requires
            ir == si * (sr + u),
            si >= 0,
            sr >= 0,
            u >= 0,
    ;
    let g = 100 * (f * w) - 184 * (i * r);
    assert(g == 100 * e1 + 100 * e2 + i * e3);
    assert(crate::precision::size(g) <= 100 * s1 + 100 * s2 + si * s3);
}

/// The text is three quarters as high as the button, unless it would be wider than 92 hundredths of
/// the button then: in that case it is made smaller in proportion, to be as wide as that.
pub proof fn lemma_text_fits(text: Seq<char>, glyphs: Seq<Scalar>, radius: Scalar)
    requires
        radius.is_finite(),
        radius.value() >= 0,
        radius.product(Scalar { bits: 0x4000_0000 }).is_finite(),
        crate::label::fitted(text, glyphs, radius).is_finite(),
    ensures
        exists|i: Scalar, w: Scalar|
            #[trigger] measured_at(text, glyphs, radius, i, w) && (w.is_finite() ==> fits(
                crate::label::fitted(text, glyphs, radius),
                i,
                w,
                radius,
            )),
{
    let u = crate::scalar::unit() as int;
    let d = radius.product(Scalar { bits: crate::label::TWO });
    let i = d.product(Scalar { bits: crate::label::TEXT_HEIGHT });
    let o = d.product(Scalar { bits: crate::label::TEXT_WIDTH });
    let w = crate::label::cursor(text, glyphs, i, text.len());
    let f = crate::label::fitted(text, glyphs, radius);
    let r = radius.value();
    crate::arith::lemma_unit_large();
    crate::scalar::lemma_one();
    lemma_constants();
    lemma_shrinks(d, Scalar { bits: crate::label::TEXT_HEIGHT });
    lemma_shrinks(d, Scalar { bits: crate::label::TEXT_WIDTH });
    lemma_part(radius, Scalar { bits: crate::label::TWO }, 2, 1);
    lemma_part(d, Scalar { bits: crate::label::TEXT_HEIGHT }, 3, 4);
    lemma_part(d, Scalar { bits: crate::label::TEXT_WIDTH }, 92, 100);
    lemma_twice(d.value(), i.value(), r, 3, 4, u);
    lemma_twice(d.value(), o.value(), r, 92, 100, u);
    let sr = crate::precision::size(r);
    assert(2int * 3 * r == 6 * r && 2int * 92 * r == 184 * r) by (nonlinear_arith);
    assert(4 * (sr + u) * 2 == 8 * (sr + u)) by (nonlinear_arith);
    assert(100 * (sr + u) * 2 == 200 * (sr + u)) by (nonlinear_arith);
    assert(measured_at(text, glyphs, radius, i, w));
    if w.is_finite() && o.below(w) {
        let p = i.product(o);
        crate::precision::lemma_quotient_error(p, w);
        crate::precision::lemma_product_error(i, o);
        assert(o.value() >= 0) by {
            lemma_positive(radius, d, o);
        }
        lemma_fit_errors(f.value(), p.value(), i.value(), o.value(), w.value(), r, u);
    }
    assert(w.is_finite() ==> fits(f, i, w, radius));
}

proof fn lemma_positive(radius: Scalar, d: Scalar, o: Scalar)
    requires
        radius.value() >= 0,
        d == radius.product(Scalar { bits: crate::label::TWO }),
        o == d.product(Scalar { bits: crate::label::TEXT_WIDTH }),
        o.is_finite(),
        d.is_finite(),
    ensures
        o.value() >= 0,
{
    lemma_constants();
    lemma_not_negative(radius, Scalar { bits: crate::label::TWO });
    lemma_not_negative(d, Scalar { bits: crate::label::TEXT_WIDTH });
}

proof fn lemma_not_negative(a: Scalar, c: Scalar)
    requires
        a.value() >= 0,
        c.value() >= 0,
        a.product(c).is_finite(),
    ensures
        a.product(c).value() >= 0,
{
    crate::precision::lemma_product_error(a, c);
    crate::scalar::lemma_one();
    crate::arith::lemma_unit_large();
    let p = a.product(c).value();
    let u = crate::scalar::unit() as int;
    assert(a.value() * c.value() >= 0) by (nonlinear_arith)
        requires
            a.value() >= 0,
            c.value() >= 0,
    ;
    let t = a.value() * c.value();
    if p < 0 {
        assert(p * u <= -u) by (nonlinear_arith)
            requires
                p <= -1,
                u > 0,
        ;
        let sp = -p;
        assert(p * u == -(sp * u)) by (nonlinear_arith)
            requires
                sp == -p,
        ;
        assert(crate::precision::size(p * u - t) >= sp * u);
        assert((sp + 0x80_0000) * u < 0x100_0000 * (sp * u)) by (nonlinear_arith)
            requires
                sp >= 1,
                u > 0,
        ;
    }
}

/// A number less than 1 makes a product smaller.
proof fn lemma_shrinks(d: Scalar, c: Scalar)
    requires
        d.is_finite(),
        c.is_finite(),
        0 <= c.value() <= crate::scalar::unit(),
    ensures
        d.product(c).is_finite(),
{
    reveal(Scalar::product);
    crate::scalar::lemma_one();
    let u = crate::scalar::unit();
    let a = crate::scalar::magnitude(d.low());
    let b = crate::scalar::magnitude(c.low());
    assert(b <= u) by {
        if c.is_signed() {
            assert(c.value() == -b);
        }
    }
    assert(a * b <= a * u) by (nonlinear_arith)
        requires
            b <= u,
    ;
    crate::arith::lemma_nearest_at_most(a * b, u, d.low());
}

/// Whether `v` is at most `n` pixels, either way.
pub open spec fn within_pixels(v: Scalar, n: int) -> bool {
    v.is_finite() && crate::precision::size(v.value()) <= n * crate::scalar::unit()
}

pub proof fn lemma_sum_bounded(a: Scalar, b: Scalar, n: nat)
    requires
        a.is_finite(),
        b.is_finite(),
        n <= 0x100_0000,
        crate::precision::size(a.value()) + crate::precision::size(b.value()) <= n
            * crate::scalar::unit(),
    ensures
        within_pixels(a.sum(b), n as int),
{
    reveal(Scalar::sum);
    let u = crate::scalar::unit();
    crate::scalar::lemma_one();
    crate::arith::lemma_whole(n);
    let top = crate::scalar::nearest(n * u, 1);
    let s = a.value() + b.value();
    let m = crate::precision::size(s) as nat;
    assert(m <= crate::scalar::magnitude(top) * 1) by (nonlinear_arith)
        requires
            m <= crate::scalar::magnitude(top),
    ;
    crate::arith::lemma_nearest_at_most(m, 1, top);
    if crate::scalar::nearest(m, 1) < top {
        crate::scalar::lemma_magnitude_order(crate::scalar::nearest(m, 1), top);
    }
    assert(crate::scalar::magnitude(0) == 0);
}

proof fn lemma_halved(a: Scalar)
    requires
        a.is_finite(),
    ensures
        ({
            let h = a.quotient(Scalar { bits: crate::label::TWO });
            &&& h.is_finite()
            &&& 0x100_0000 * crate::precision::size(2 * h.value() - a.value()) <= 2
                * crate::precision::size(h.value()) + 0x100_0000
            &&& crate::precision::size(h.value()) <= crate::precision::size(a.value())
        }),
{
    reveal(Scalar::quotient);
    let two = Scalar { bits: crate::label::TWO };
    let h = a.quotient(two);
    let u = crate::scalar::unit();
    crate::precision::lemma_two();
    crate::scalar::lemma_one();
    let m = crate::scalar::magnitude(a.low());
    assert(m * u <= m * (2 * u)) by (nonlinear_arith)
        requires
            u > 0,
    ;
    crate::arith::lemma_nearest_at_most(m * u, 2 * u, a.low());
    assert(h.low() == crate::scalar::nearest(m * u, 2 * u));
    if h.low() < a.low() {
        crate::scalar::lemma_magnitude_order(h.low(), a.low());
    }
    crate::precision::lemma_quotient_error(a, two);
    let hv = h.value();
    let av = a.value();
    assert(hv * (2 * u) - av * u == (2 * hv - av) * u) by (nonlinear_arith);
    crate::precision::lemma_size_product(2 * hv - av, u as int);
    let e = crate::precision::size(2 * hv - av);
    let s = crate::precision::size(hv);
    assert(0x100_0000 * e <= 2 * s + 0x100_0000) by (nonlinear_arith)
        requires
            0x100_0000 * (e * u) <= (s + 0x80_0000) * (2 * u),
            u > 0,
    ;
}

/// Whether `v` is a whole number of pixels.
pub open spec fn whole(v: Scalar) -> bool {
    v.is_finite() && v.value() % (crate::scalar::unit() as int) == 0
}

/// Rounding gives the nearest whole number, and of two that are equally near the one further from
/// zero.
pub proof fn lemma_rounded(v: Scalar)
    requires
        within_pixels(v, 0x10_0000),
    ensures
        whole(v.rounded()),
        2 * crate::precision::size(v.rounded().value() - v.value()) <= crate::scalar::unit(),
        2 * crate::precision::size(v.rounded().value() - v.value()) == crate::scalar::unit()
            ==> crate::precision::size(v.rounded().value()) > crate::precision::size(v.value()),
{
    reveal(Scalar::rounded);
    let u = crate::scalar::unit();
    crate::scalar::lemma_one();
    let m = crate::scalar::magnitude(v.low());
    let n = (2 * m + u) / (2 * u);
    vstd::arithmetic::div_mod::lemma_fundamental_div_mod((2 * m + u) as int, (2 * u) as int);
    vstd::arithmetic::div_mod::lemma_mod_bound((2 * m + u) as int, (2 * u) as int);
    assert((2 * u) * n == 2 * (n * u)) by (nonlinear_arith);
    assert(n <= 0x10_0001) by (nonlinear_arith)
        requires
            2 * (n * u) <= 2 * (0x10_0000 * u) + u,
            u > 0,
    ;
    crate::arith::lemma_whole(n);
    let r = v.rounded();
    assert(r.low() == crate::scalar::nearest(n * u, 1));
    vstd::arithmetic::div_mod::lemma_mod_multiples_basic(n as int, u as int);
    vstd::arithmetic::div_mod::lemma_mod_multiples_basic(-(n as int), u as int);
    assert((-(n as int)) * u == -(n * u)) by (nonlinear_arith);
}

/// A label is centered on its button, at whole pixels: as much of the text lies to the left as to
/// the right, and as much of the font above as below. Its characters are where they follow each
/// other.
pub proof fn lemma_text_centered(
    r: Placement,
    text: Seq<char>,
    glyphs: Seq<Scalar>,
    font_size: Scalar,
    reach: (Scalar, Scalar),
    center: (Scalar, Scalar),
)
    requires
        crate::label::placed(r, text, glyphs, font_size, reach, center),
        within_pixels(crate::label::cursor(text, glyphs, font_size, text.len()), 0x8000),
        within_pixels(reach.0, 0x4000),
        within_pixels(reach.1, 0x4000),
        within_pixels(center.0, 0x8000),
        within_pixels(center.1, 0x8000),
    ensures
        whole(r.start),
        whole(r.baseline),
        16 * crate::precision::size(
            2 * r.start.value() + crate::label::cursor(
                text,
                glyphs,
                font_size,
                text.len(),
            ).value() - 2 * center.0.value(),
        ) <= 17 * crate::scalar::unit(),
        16 * crate::precision::size(
            2 * (r.baseline.value() - center.1.value()) - (reach.0.value() + reach.1.value()),
        ) <= 17 * crate::scalar::unit(),
        r.offsets@.len() == text.len(),
        forall|i: int|
            0 <= i < text.len() ==> #[trigger] r.offsets@[i] == crate::label::cursor(
                text,
                glyphs,
                font_size,
                i as nat,
            ),
{
    let w = crate::label::cursor(text, glyphs, font_size, text.len());
    lemma_left_end(center.0, w);
    lemma_baseline(center.1, reach.0, reach.1);
}

proof fn lemma_left_end(x: Scalar, w: Scalar)
    requires
        within_pixels(w, 0x8000),
        within_pixels(x, 0x8000),
    ensures
        ({
            let r = x.difference(w.quotient(Scalar { bits: crate::label::TWO })).rounded();
            &&& whole(r)
            &&& 16 * crate::precision::size(2 * r.value() + w.value() - 2 * x.value()) <= 17
                * crate::scalar::unit()
        }),
{
    let h = w.quotient(Scalar { bits: crate::label::TWO });
    let k = h.negated();
    let d = x.sum(k);
    crate::arith::lemma_unit_large();
    crate::scalar::lemma_one();
    lemma_halved(w);
    crate::layout::lemma_negated(h);
    lemma_sum_bounded(x, k, 0x1_0000);
    crate::arith::lemma_sum_error(x, k);
    lemma_rounded(d);
}

proof fn lemma_baseline(y: Scalar, above: Scalar, below: Scalar)
    requires
        within_pixels(above, 0x4000),
        within_pixels(below, 0x4000),
        within_pixels(y, 0x8000),
    ensures
        ({
            let r = y.sum(
                above.sum(below).quotient(Scalar { bits: crate::label::TWO }),
            ).rounded();
            &&& whole(r)
            &&& 16 * crate::precision::size(
                2 * (r.value() - y.value()) - (above.value() + below.value()),
            ) <= 17 * crate::scalar::unit()
        }),
{
    let v = above.sum(below);
    crate::arith::lemma_unit_large();
    crate::scalar::lemma_one();
    lemma_sum_bounded(above, below, 0x8000);
    crate::arith::lemma_sum_error(above, below);
    let k = v.quotient(Scalar { bits: crate::label::TWO });
    lemma_halved(v);
    lemma_sum_bounded(y, k, 0x1_0000);
    crate::arith::lemma_sum_error(y, k);
    lemma_rounded(y.sum(k));
    lemma_baseline_errors(
        y.value(),
        above.value(),
        below.value(),
        v.value(),
        k.value(),
        y.sum(k).value(),
        y.sum(k).rounded().value(),
        crate::scalar::unit() as int,
    );
}

proof fn lemma_baseline_errors(y: int, a: int, b: int, v: int, k: int, s: int, r: int, u: int)
    requires
        u > 0x100_0000,
        crate::precision::size(v) <= 0x8000 * u,
        crate::precision::size(k) <= 0x8000 * u,
        crate::precision::size(s) <= 0x1_0000 * u,
        0x100_0000 * crate::precision::size(v - (a + b)) <= crate::precision::size(v),
        0x100_0000 * crate::precision::size(2 * k - v) <= 2 * crate::precision::size(k)
            + 0x100_0000,
        0x100_0000 * crate::precision::size(s - (y + k)) <= crate::precision::size(s),
        2 * crate::precision::size(r - s) <= u,
    ensures
        16 * crate::precision::size(2 * (r - y) - (a + b)) <= 17 * u,
{
}

// ---------------------------------------------------------------------------
// Layers
// ---------------------------------------------------------------------------

/// Where the characters of `text` are that are arrows, or those that are not, among the first `n`.
pub open spec fn places(text: Seq<char>, arrows: bool, n: nat) -> Seq<int>
    decreases n,
{
    if n == 0 {
        seq![]
    } else {
        let before = places(text, arrows, (n - 1) as nat);
        let c = text[n - 1];
        if arrows == (c == '→' || c == '←' || c == '↑' || c == '↓') {
            before.push(n - 1)
        } else {
            before
        }
    }
}

/// Whether `v` is `exact`, but for what two sums are rounded by.
pub open spec fn summed(v: int, exact: int) -> bool {
    0x20_0000 * crate::precision::size(v - exact) <= crate::precision::size(v)
        + crate::scalar::unit()
}

/// Whether a glyph is the character at `k` of a text, moved by pixels from where the text is placed.
pub open spec fn stamps(
    s: Stamp,
    text: Seq<char>,
    at: Placement,
    k: int,
    right: int,
    down: int,
) -> bool {
    let u = crate::scalar::unit();
    &&& s.glyph == text[k]
    &&& summed(s.x.value(), at.start.value() + at.offsets@[k].value() + right * u)
    &&& summed(s.y.value(), at.baseline.value() + down * u)
}

/// Whether a color is that of a shadow: black, nine tenths opaque.
pub open spec fn is_shadow(c: Color) -> bool {
    &&& c.red.value() == 0 && c.green.value() == 0 && c.blue.value() == 0
    &&& c.alpha.is_finite()
    &&& part_of(c.alpha.value(), crate::scalar::unit() as int, 9, 10)
}

/// Whether a glyph can be placed: its coordinates are numbers.
pub open spec fn is_placed(s: Stamp) -> bool {
    s.x.is_finite() && s.y.is_finite()
}

spec fn stamped(
    s: Stamp,
    text: Seq<char>,
    at: Placement,
    k: int,
    right: int,
    down: int,
) -> bool {
    is_placed(s) ==> stamps(s, text, at, k, right, down)
}

proof fn lemma_pixel()
    ensures
        (Scalar { bits: crate::scalar::ONE }).is_finite(),
        (Scalar { bits: crate::scalar::ONE }).value() == crate::scalar::unit(),
        (Scalar { bits: crate::label::MINUS_ONE }).is_finite(),
        (Scalar { bits: crate::label::MINUS_ONE }).value() == -crate::scalar::unit(),
        (Scalar { bits: 0 }).is_finite(),
        (Scalar { bits: 0 }).value() == 0,
{
    crate::scalar::lemma_one();
    let m = Scalar { bits: crate::label::MINUS_ONE };
    assert(m.low() == crate::scalar::ONE && m.is_signed());
    assert(crate::scalar::magnitude(0) == 0);
}

proof fn lemma_two_sums(a: Scalar, b: Scalar, d: Scalar)
    requires
        a.is_finite(),
        b.is_finite(),
        d.is_finite(),
        crate::precision::size(d.value()) <= crate::scalar::unit(),
        a.sum(b).sum(d).is_finite(),
    ensures
        summed(a.sum(b).sum(d).value(), a.value() + b.value() + d.value()),
{
    crate::arith::lemma_unit_large();
    let s = a.sum(b);
    lemma_sum_rest(s, d);
    crate::arith::lemma_sum_error(a, b);
    crate::arith::lemma_sum_error(s, d);
}

/// What is infinite stays so.
proof fn lemma_sum_rest(s: Scalar, d: Scalar)
    requires
        s.sum(d).is_finite(),
    ensures
        s.is_finite(),
        d.is_finite(),
{
    reveal(Scalar::sum);
}

proof fn lemma_layer(
    text: Seq<char>,
    at: Placement,
    dx: Scalar,
    dy: Scalar,
    color: Color,
    n: nat,
    right: int,
    down: int,
)
    requires
        n <= text.len(),
        at.offsets@.len() == text.len(),
        at.start.is_finite(),
        at.baseline.is_finite(),
        forall|i: int| 0 <= i < text.len() ==> (#[trigger] at.offsets@[i]).is_finite(),
        dx.is_finite(),
        dy.is_finite(),
        dx.value() == right * crate::scalar::unit(),
        dy.value() == down * crate::scalar::unit(),
        -1 <= right <= 1,
        -1 <= down <= 1,
    ensures
        crate::label::layer(text, at, dx, dy, color, n).len() == places(text, false, n).len(),
        forall|j: int|
            0 <= j < places(text, false, n).len() ==> stamped(
                #[trigger] crate::label::layer(text, at, dx, dy, color, n)[j],
                text,
                at,
                places(text, false, n)[j],
                right,
                down,
            ) && crate::label::layer(text, at, dx, dy, color, n)[j].color == color
                && 0 <= places(text, false, n)[j] < n,
    decreases n,
{
    if n > 0 {
        let m = (n - 1) as nat;
        let u = crate::scalar::unit();
        lemma_layer(text, at, dx, dy, color, m, right, down);
        crate::label::lemma_char(text[n - 1]);
        let before = crate::label::layer(text, at, dx, dy, color, m);
        let now = crate::label::layer(text, at, dx, dy, color, n);
        if !crate::label::arrow(text[n - 1]) {
            let s = now.last();
            assert(at.offsets@[n - 1].is_finite());
            assert(-u <= right * u <= u && -u <= down * u <= u) by (nonlinear_arith)
                requires
                    -1 <= right <= 1,
                    -1 <= down <= 1,
            ;
            if is_placed(s) {
                lemma_two_sums(at.start, at.offsets@[n - 1], dx);
                crate::arith::lemma_sum_error(at.baseline, dy);
            }
        }
        let spots = places(text, false, m);
        assert forall|j: int| 0 <= j < places(text, false, n).len() implies stamped(
            #[trigger] now[j],
            text,
            at,
            places(text, false, n)[j],
            right,
            down,
        ) && now[j].color == color && 0 <= places(text, false, n)[j] < n by {
            if j < spots.len() {
                assert(now[j] == before[j]);
                assert(places(text, false, n)[j] == spots[j]);
                assert(before[j].color == color);
            }
        }
    }
}

/// The glyphs of a label are drawn in five layers, each with every character that is no arrow: a
/// shadow one pixel towards each corner, and above these the text itself, in its color.
pub proof fn lemma_label_layers(text: Seq<char>, at: Placement, color: Color, j: int)
    requires
        at.offsets@.len() == text.len(),
        at.start.is_finite(),
        at.baseline.is_finite(),
        forall|i: int| 0 <= i < text.len() ==> (#[trigger] at.offsets@[i]).is_finite(),
        0 <= j < places(text, false, text.len()).len(),
        forall|i: int|
            0 <= i < crate::label::layers(text, at, color).len() ==> is_placed(
                #[trigger] crate::label::layers(text, at, color)[i],
            ),
    ensures
        ({
            let all = crate::label::layers(text, at, color);
            let n = places(text, false, text.len()).len();
            let k = places(text, false, text.len())[j];
            &&& all.len() == 5 * n
            &&& stamps(all[j], text, at, k, -1, -1) && is_shadow(all[j].color)
            &&& stamps(all[n + j], text, at, k, 1, -1) && is_shadow(all[n + j].color)
            &&& stamps(all[2 * n + j], text, at, k, -1, 1) && is_shadow(all[2 * n + j].color)
            &&& stamps(all[3 * n + j], text, at, k, 1, 1) && is_shadow(all[3 * n + j].color)
            &&& stamps(all[4 * n + j], text, at, k, 0, 0) && all[4 * n + j].color == color
        }),
{
    lemma_pixel();
    lemma_constants();
    let u = crate::scalar::unit();
    let one = Scalar { bits: crate::scalar::ONE };
    let less = Scalar { bits: crate::label::MINUS_ONE };
    let zero = Scalar { bits: 0 };
    let dark = crate::label::shadow();
    let len = text.len();
    assert((-1) * u == -u && 1 * u == u && 0 * u == 0) by (nonlinear_arith);
    lemma_layer(text, at, less, less, dark, len, -1, -1);
    lemma_layer(text, at, one, less, dark, len, 1, -1);
    lemma_layer(text, at, less, one, dark, len, -1, 1);
    lemma_layer(text, at, one, one, dark, len, 1, 1);
    lemma_layer(text, at, zero, zero, color, len, 0, 0);
    let a = crate::label::layer(text, at, less, less, dark, len);
    let b = crate::label::layer(text, at, one, less, dark, len);
    let c = crate::label::layer(text, at, less, one, dark, len);
    let d = crate::label::layer(text, at, one, one, dark, len);
    let e = crate::label::layer(text, at, zero, zero, color, len);
    let all = crate::label::layers(text, at, color);
    let n = places(text, false, len).len();
    assert(all == a + b + c + d + e);
    assert(all[j] == a[j]);
    assert(all[n + j] == b[j]);
    assert(all[2 * n + j] == c[j]);
    assert(all[3 * n + j] == d[j]);
    assert(all[4 * n + j] == e[j]);
    assert(is_placed(all[j]) && is_placed(all[n + j]) && is_placed(all[2 * n + j]) && is_placed(
        all[3 * n + j],
    ) && is_placed(all[4 * n + j]));
    assert(is_shadow(dark)) by {
        let s = Scalar { bits: crate::label::SHADOW };
        assert(0x10_0000 * crate::precision::size(10 * s.value() - 9 * u) <= 10 * u);
    }
}

/// Whether an arrow of a label is the character at `k`, in the middle of its place: 35 hundredths of
/// the height of the text from where it starts.
pub open spec fn marks(
    m: (char, Scalar, Scalar),
    text: Seq<char>,
    at: Placement,
    cy: Scalar,
    size: Scalar,
    k: int,
) -> bool {
    &&& m.0 == text[k]
    &&& m.2 == cy
    &&& 0x1_0000 * crate::precision::size(
        100 * (m.1.value() - at.start.value() - at.offsets@[k].value()) - 35 * size.value(),
    ) <= 100 * (crate::precision::size(m.1.value()) + crate::precision::size(size.value())
        + crate::scalar::unit())
}

spec fn marked(
    m: (char, Scalar, Scalar),
    text: Seq<char>,
    at: Placement,
    cy: Scalar,
    size: Scalar,
    k: int,
) -> bool {
    m.1.is_finite() ==> marks(m, text, at, cy, size, k)
}

proof fn lemma_mark(a: Scalar, b: Scalar, size: Scalar)
    requires
        a.is_finite(),
        b.is_finite(),
        a.sum(b).sum(size.product(Scalar { bits: crate::label::ARROW_CENTER })).is_finite(),
    ensures
        ({
            let x = a.sum(b).sum(size.product(Scalar { bits: crate::label::ARROW_CENTER })).value();
            0x1_0000 * crate::precision::size(
                100 * (x - a.value() - b.value()) - 35 * size.value(),
            ) <= 100 * (crate::precision::size(x) + crate::precision::size(size.value())
                + crate::scalar::unit())
        }),
{
    let s = a.sum(b);
    let p = size.product(Scalar { bits: crate::label::ARROW_CENTER });
    crate::arith::lemma_unit_large();
    lemma_constants();
    lemma_sum_rest(s, p);
    lemma_part(size, Scalar { bits: crate::label::ARROW_CENTER }, 35, 100);
    crate::arith::lemma_sum_error(a, b);
    crate::arith::lemma_sum_error(s, p);
}

/// The arrows of a label are drawn one after the other, each in the middle of its place and on the
/// middle of the button.
pub proof fn lemma_label_arrows(
    text: Seq<char>,
    at: Placement,
    cy: Scalar,
    size: Scalar,
    j: int,
)
    requires
        at.offsets@.len() == text.len(),
        at.start.is_finite(),
        forall|i: int| 0 <= i < text.len() ==> (#[trigger] at.offsets@[i]).is_finite(),
        0 <= j < places(text, true, text.len()).len(),
        0 <= j < crate::label::arrow_marks(text, at, cy, size, text.len()).len()
            ==> crate::label::arrow_marks(text, at, cy, size, text.len())[j].1.is_finite(),
    ensures
        crate::label::arrow_marks(text, at, cy, size, text.len()).len() == places(
            text,
            true,
            text.len(),
        ).len(),
        marks(
            crate::label::arrow_marks(text, at, cy, size, text.len())[j],
            text,
            at,
            cy,
            size,
            places(text, true, text.len())[j],
        ),
{
    lemma_marks(text, at, cy, size, text.len());
    assert(marked(
        crate::label::arrow_marks(text, at, cy, size, text.len())[j],
        text,
        at,
        cy,
        size,
        places(text, true, text.len())[j],
    ));
}

proof fn lemma_marks(text: Seq<char>, at: Placement, cy: Scalar, size: Scalar, n: nat)
    requires
        n <= text.len(),
        at.offsets@.len() == text.len(),
        at.start.is_finite(),
        forall|i: int| 0 <= i < text.len() ==> (#[trigger] at.offsets@[i]).is_finite(),
    ensures
        crate::label::arrow_marks(text, at, cy, size, n).len() == places(text, true, n).len(),
        forall|j: int|
            0 <= j < places(text, true, n).len() ==> marked(
                #[trigger] crate::label::arrow_marks(text, at, cy, size, n)[j],
                text,
                at,
                cy,
                size,
                places(text, true, n)[j],
            ),
    decreases n,
{
    if n > 0 {
        let m = (n - 1) as nat;
        lemma_marks(text, at, cy, size, m);
        crate::label::lemma_char(text[n - 1]);
        let before = crate::label::arrow_marks(text, at, cy, size, m);
        let now = crate::label::arrow_marks(text, at, cy, size, n);
        let spots = places(text, true, m);
        if crate::label::arrow(text[n - 1]) {
            assert(at.offsets@[n - 1].is_finite());
            if now.last().1.is_finite() {
                lemma_mark(at.start, at.offsets@[n - 1], size);
            }
        }
        assert forall|j: int| 0 <= j < places(text, true, n).len() implies marked(
            #[trigger] now[j],
            text,
            at,
            cy,
            size,
            places(text, true, n)[j],
        ) by {
            if j < spots.len() {
                assert(now[j] == before[j]);
                assert(places(text, true, n)[j] == spots[j]);
            }
        }
    }
}

// ---------------------------------------------------------------------------
// Ink
// ---------------------------------------------------------------------------

/// Whether `v` is a number from 0 to 1.
pub open spec fn is_share(v: Scalar) -> bool {
    v.is_finite() && 0 <= v.value() <= crate::scalar::unit()
}

/// What a channel is, in units of 2^-447 of one step of it, where `above` covers `below` with the
/// opacity of a color, `solid`, on the share of a pixel that is covered, `cover`.
pub open spec fn covers(above: int, solid: int, cover: int, below: int) -> int {
    let u = crate::scalar::unit();
    255 * (above * (solid * cover)) + below * (u * (u * u - solid * cover))
}

/// Whether a byte is what is left of `exact` without its fraction, but for a 512th of a step.
pub open spec fn steps(n: int, exact: int) -> bool {
    let w = crate::scalar::unit() * (crate::scalar::unit() * crate::scalar::unit());
    512 * (n * w - exact) <= w && 512 * (exact - n * w) <= 513 * w
}

/// A share of a share is a share.
proof fn lemma_share_product(a: Scalar, b: Scalar)
    requires
        is_share(a),
        is_share(b),
    ensures
        is_share(a.product(b)),
        0x80_0000 * crate::precision::size(
            a.product(b).value() * crate::scalar::unit() - a.value() * b.value(),
        ) <= crate::scalar::unit() * crate::scalar::unit(),
{
    reveal(Scalar::product);
    crate::scalar::lemma_one();
    crate::arith::lemma_unit_large();
    let u = crate::scalar::unit();
    let ma = crate::scalar::magnitude(a.low());
    let mb = crate::scalar::magnitude(b.low());
    let one = crate::scalar::ONE as nat;
    assert(ma <= u && mb <= u);
    assert(ma * mb <= u * u) by (nonlinear_arith)
        requires
            ma <= u,
            mb <= u,
    ;
    crate::arith::lemma_nearest_at_most(ma * mb, u, one);
    let p = a.product(b);
    if p.low() < one {
        crate::scalar::lemma_magnitude_order(p.low(), one);
    }
    lemma_not_negative(a, b);
    crate::precision::lemma_product_error(a, b);
    let e = crate::precision::size(p.value() * u - a.value() * b.value());
    let pv = p.value();
    assert(0x80_0000 * e <= u * u) by (nonlinear_arith)
        requires
            0x100_0000 * e <= (pv + 0x80_0000) * u,
            0 <= pv <= u,
            u > 0x100_0000,
    ;
}

/// A byte as a share of 255.
proof fn lemma_byte_share(below: u8)
    ensures
        ({
            let d = Scalar::of(false, below as nat).quotient(Scalar { bits: crate::label::FULL });
            &&& is_share(d)
            &&& 0x80_0000 * crate::precision::size(
                255 * d.value() - below * crate::scalar::unit(),
            ) <= 255 * crate::scalar::unit()
        }),
{
    let u = crate::scalar::unit();
    let full = Scalar { bits: crate::label::FULL };
    crate::scalar::lemma_one();
    crate::arith::lemma_unit_large();
    crate::xinput::lemma_full();
    assert(crate::xinput::FULL_TRIGGER == crate::label::FULL);
    let a = Scalar::of(false, below as nat);
    let d = a.quotient(full);
    crate::arith::lemma_share(false, below as nat, 255, full);
    crate::arith::lemma_whole(below as nat);
    if d.low() < crate::scalar::ONE {
        crate::scalar::lemma_magnitude_order(d.low(), crate::scalar::ONE as nat);
    }
    crate::precision::lemma_quotient_error(a, full);
    let dv = d.value();
    assert(a.value() == below * u);
    let e = 255 * dv - below * u;
    assert(dv * (255 * u) - (below * u) * u == e * u) by (nonlinear_arith)
        requires
            e == 255 * dv - below * u,
    ;
    crate::precision::lemma_size_product(e, u as int);
    crate::precision::lemma_size_product(255, u as int);
    let s = crate::precision::size(e);
    assert(0x80_0000 * s <= 255 * u) by (nonlinear_arith)
        requires
            0x100_0000 * (s * u) <= (dv + 0x80_0000) * (255 * u),
            0 <= dv <= u,
            u > 0x100_0000,
    ;
}

proof fn lemma_ink_errors(
    p: int,
    q: int,
    t: int,
    s: int,
    d: int,
    r: int,
    alpha: int,
    below: int,
    x: int,
    u: int,
)
    requires
        u > 0x100_0000,
        0 <= r <= u,
        0 <= below <= 255,
        0x80_0000 * crate::precision::size(p * u - x) <= u * u,
        0x80_0000 * crate::precision::size(255 * d - below * u) <= 255 * u,
        0x100_0000 * crate::precision::size(r - (u - alpha)) <= u,
        0x80_0000 * crate::precision::size(q * u - d * r) <= u * u,
        0x100_0000 * crate::precision::size(s - (p + q)) <= 4 * u,
        0x100_0000 * crate::precision::size(t - 255 * s) <= 0x800 * u,
    ensures
        0x800 * crate::precision::size(t * u - (255 * x + below * (u * (u - alpha)))) <= u * u,
{
    let e1 = p * u - x;
    let e2 = 255 * d - below * u;
    let e3 = r - (u - alpha);
    let e4 = q * u - d * r;
    let e5 = s - (p + q);
    let e6 = t - 255 * s;
    let all = t * u - (255 * x + below * (u * (u - alpha)));
    let a = e6 * u;
    let b = e5 * u;
    let c = e2 * r;
    let f = (below * u) * e3;
    assert(all == a + 255 * b + 255 * e1 + 255 * e4 + c + f) by (nonlinear_arith)
        requires
            e1 == p * u - x,
            e2 == 255 * d - below * u,
            e3 == r - (u - alpha),
            e4 == q * u - d * r,
            e5 == s - (p + q),
            e6 == t - 255 * s,
            all == t * u - (255 * x + below * (u * (u - alpha))),
            a == e6 * u,
            b == e5 * u,
            c == e2 * r,
            f == (below * u) * e3,
    ;
    crate::precision::lemma_size_product(e6, u);
    crate::precision::lemma_size_product(e5, u);
    crate::precision::lemma_size_product(e2, r);
    crate::precision::lemma_size_product(below * u, e3);
    assert(0 <= below * u <= 255 * u) by (nonlinear_arith)
        requires
            0 <= below <= 255,
            u > 0,
    ;
    let uu = u * u;
    let s2 = crate::precision::size(e2);
    let s3 = crate::precision::size(e3);
    let s5 = crate::precision::size(e5);
    let s6 = crate::precision::size(e6);
    assert(0x100_0000 * (s6 * u) <= 0x800 * uu) by (nonlinear_arith)
        requires
            0x100_0000 * s6 <= 0x800 * u,
            uu == u * u,
            u > 0,
    ;
    assert(0x100_0000 * (s5 * u) <= 4 * uu) by (nonlinear_arith)
        requires
            0x100_0000 * s5 <= 4 * u,
            uu == u * u,
            u > 0,
    ;
    assert(0x80_0000 * (s2 * r) <= 255 * uu) by (nonlinear_arith)
        requires
            0x80_0000 * s2 <= 255 * u,
            s2 >= 0,
            0 <= r <= u,
            uu == u * u,
            u > 0,
    ;
    let bu = below * u;
    assert(0x100_0000 * (bu * s3) <= 255 * uu) by (nonlinear_arith)
        requires
            0x100_0000 * s3 <= u,
            s3 >= 0,
            0 <= bu <= 255 * u,
            uu == u * u,
            u > 0,
    ;
}

/// What a channel comes to, given what the color adds to it.
proof fn lemma_ink_byte(p: Scalar, alpha: Scalar, below: u8, x: int)
    requires
        is_share(p),
        is_share(alpha),
        0x80_0000 * crate::precision::size(p.value() * crate::scalar::unit() - x)
            <= crate::scalar::unit() * crate::scalar::unit(),
        x <= alpha.value() * crate::scalar::unit(),
    ensures
        ({
            let u = crate::scalar::unit();
            let full = Scalar { bits: crate::label::FULL };
            let rest = (Scalar { bits: crate::scalar::ONE }).difference(alpha);
            let n = p.sum(
                Scalar::of(false, below as nat).quotient(full).product(rest),
            ).product(full).byte();
            let exact = 255 * x + below * (u * (u - alpha.value()));
            &&& n <= 255
            &&& 0x800 * (n * (u * u) - exact) <= u * u
            &&& 0x800 * (exact - n * (u * u)) <= 0x801 * (u * u)
        }),
{
    let u = crate::scalar::unit();
    let full = Scalar { bits: crate::label::FULL };
    let rest = (Scalar { bits: crate::scalar::ONE }).difference(alpha);
    let d = Scalar::of(false, below as nat).quotient(full);
    let q = d.product(rest);
    let s = p.sum(q);
    let t = s.product(full);
    crate::scalar::lemma_one();
    crate::arith::lemma_unit_large();
    crate::xinput::lemma_full();
    assert(crate::xinput::FULL_TRIGGER == crate::label::FULL);
    crate::precision::lemma_rest_error(alpha, alpha.value(), 0);
    lemma_byte_share(below);
    lemma_share_product(d, rest);
    lemma_sum_bounded(p, q, 2);
    crate::arith::lemma_sum_error(p, q);
    crate::arith::lemma_sum_order(p, q);
    lemma_full_product(s);
    lemma_ink_errors(
        p.value(),
        q.value(),
        t.value(),
        s.value(),
        d.value(),
        rest.value(),
        alpha.value(),
        below as int,
        x,
        u as int,
    );
    let n = t.byte();
    let tv = t.value();
    let av = alpha.value();
    let exact = 255 * x + below * (u * (u - av));
    assert(exact <= 255 * (u * u)) by (nonlinear_arith)
        requires
            exact == 255 * x + below * (u * (u - av)),
            x <= av * u,
            0 <= below <= 255,
            0 <= av <= u,
    ;
    assert(tv < 256 * u) by (nonlinear_arith)
        requires
            0x800 * (tv * u - exact) <= u * u,
            exact <= 255 * (u * u),
            u > 0,
    ;
    lemma_whole_part(t);
    assert(n * (u * u) == (n * u) * u) by (nonlinear_arith);
    let tu = tv * u;
    assert((n * u) * u <= tu) by (nonlinear_arith)
        requires
            n * u <= tv,
            tu == tv * u,
            u > 0,
    ;
    assert(tv < n * u + u);
    assert(tu <= (n * u) * u + u * u) by (nonlinear_arith)
        requires
            tv < n * u + u,
            tu == tv * u,
            u > 0,
    ;
}

/// A byte is what is left of a number without its fraction.
proof fn lemma_whole_part(t: Scalar)
    requires
        t.is_finite(),
        0 <= t.value() < 256 * crate::scalar::unit(),
    ensures
        t.byte() <= 255,
        t.byte() * crate::scalar::unit() <= t.value() < t.byte() * crate::scalar::unit()
            + crate::scalar::unit(),
{
    reveal(Scalar::byte);
    crate::scalar::lemma_one();
    let u = crate::scalar::unit();
    let m = crate::scalar::magnitude(t.low());
    let n = m / u;
    vstd::arithmetic::div_mod::lemma_fundamental_div_mod(m as int, u as int);
    vstd::arithmetic::div_mod::lemma_mod_bound(m as int, u as int);
    assert(u * n == n * u) by (nonlinear_arith);
    assert(0 * u == 0) by (nonlinear_arith);
    if !t.is_signed() && n > 255 {
        assert(n * u >= 256 * u) by (nonlinear_arith)
            requires
                n >= 256,
                u > 0,
        ;
    }
}

/// 255 times what is at most 2.
proof fn lemma_full_product(s: Scalar)
    requires
        s.is_finite(),
        0 <= s.value() <= 2 * crate::scalar::unit(),
    ensures
        s.product(Scalar { bits: crate::label::FULL }).is_finite(),
        0 <= s.product(Scalar { bits: crate::label::FULL }).value(),
        0x100_0000 * crate::precision::size(
            s.product(Scalar { bits: crate::label::FULL }).value() - 255 * s.value(),
        ) <= 0x800 * crate::scalar::unit(),
{
    reveal(Scalar::product);
    let full = Scalar { bits: crate::label::FULL };
    let u = crate::scalar::unit();
    crate::scalar::lemma_one();
    crate::arith::lemma_unit_large();
    crate::xinput::lemma_full();
    assert(crate::xinput::FULL_TRIGGER == crate::label::FULL);
    let t = s.product(full);
    let ms = crate::scalar::magnitude(s.low());
    let mf = crate::scalar::magnitude(full.low());
    crate::arith::lemma_whole(512);
    let top = crate::scalar::nearest(512 * u, 1);
    assert(ms * mf <= (512 * u) * u) by (nonlinear_arith)
        requires
            ms <= 2 * u,
            mf == 255 * u,
    ;
    crate::arith::lemma_nearest_at_most(ms * mf, u, top);
    assert(t.is_finite());
    lemma_not_negative(s, full);
    crate::precision::lemma_product_error(s, full);
    if t.low() < top {
        crate::scalar::lemma_magnitude_order(t.low(), top);
    }
    let tv = t.value();
    let sv = s.value();
    assert(tv * u - sv * (255 * u) == (tv - 255 * sv) * u) by (nonlinear_arith);
    crate::precision::lemma_size_product(tv - 255 * sv, u as int);
    let e = crate::precision::size(tv - 255 * sv);
    assert(0x100_0000 * e <= 0x800 * u) by (nonlinear_arith)
        requires
            0x100_0000 * (e * u) <= (tv + 0x80_0000) * u,
            tv <= 512 * u,
            u > 0x100_0000,
    ;
}

/// The exact channel by the opacity that was rounded, and by the one that was not.
proof fn lemma_ink_lift(n: int, above: int, alpha: int, o: int, below: int, u: int)
    requires
        u > 0x100_0000,
        0 <= n <= 255,
        0 <= above <= u,
        0 <= below <= 255,
        0x80_0000 * crate::precision::size(alpha * u - o) <= u * u,
        ({
            let exact = 255 * (above * alpha) + below * (u * (u - alpha));
            &&& 0x800 * (n * (u * u) - exact) <= u * u
            &&& 0x800 * (exact - n * (u * u)) <= 0x801 * (u * u)
        }),
    ensures
        ({
            let w = u * (u * u);
            let whole = 255 * (above * o) + below * (u * (u * u - o));
            512 * (n * w - whole) <= w && 512 * (whole - n * w) <= 513 * w
        }),
{
    let e = alpha * u - o;
    let exact = 255 * (above * alpha) + below * (u * (u - alpha));
    let whole = 255 * (above * o) + below * (u * (u * u - o));
    let w = u * (u * u);
    let a = above * e;
    let b = (below * u) * e;
    assert((above * alpha) * u - above * o == a) by (nonlinear_arith)
        requires
            e == alpha * u - o,
            a == above * e,
    ;
    assert((below * (u * (u - alpha))) * u - below * (u * (u * u - o)) == -b) by (nonlinear_arith)
        requires
            e == alpha * u - o,
            b == (below * u) * e,
    ;
    let first = above * alpha;
    let second = below * (u * (u - alpha));
    assert(exact * u == 255 * (first * u) + second * u) by (nonlinear_arith)
        requires
            exact == 255 * first + second,
    ;
    assert(exact * u - whole == 255 * a - b);
    crate::precision::lemma_size_product(above, e);
    crate::precision::lemma_size_product(below * u, e);
    assert(0 <= below * u <= 255 * u) by (nonlinear_arith)
        requires
            0 <= below <= 255,
            u > 0,
    ;
    let se = crate::precision::size(e);
    let uu = u * u;
    assert(0x80_0000 * (above * se) <= w) by (nonlinear_arith)
        requires
            0x80_0000 * se <= uu,
            0 <= above <= u,
            se >= 0,
            w == u * uu,
            u > 0,
    ;
    let bu = below * u;
    assert(0x80_0000 * (bu * se) <= 255 * w) by (nonlinear_arith)
        requires
            0x80_0000 * se <= uu,
            0 <= bu <= 255 * u,
            se >= 0,
            w == u * uu,
            u > 0,
    ;
    let eu = exact * u;
    let nw = n * w;
    assert(0x800 * (nw - eu) <= w) by (nonlinear_arith)
        requires
            0x800 * (n * uu - exact) <= uu,
            eu == exact * u,
            nw == n * w,
            w == u * uu,
            u > 0,
    ;
    assert(0x800 * (eu - nw) <= 0x801 * w) by (nonlinear_arith)
        requires
            0x800 * (exact - n * uu) <= 0x801 * uu,
            eu == exact * u,
            nw == n * w,
            w == u * uu,
            u > 0,
    ;
    assert(w > 0) by (nonlinear_arith)
        requires
            w == u * uu,
            uu == u * u,
            u > 0,
    ;
}

/// Whether a color of a pixel is what `above` over `below` gives, but not above the opacity of the
/// pixel.
pub open spec fn mixes(n: u8, above: Scalar, color: Color, cover: Scalar, below: u8, opacity: u8) -> bool {
    let exact = covers(above.value(), color.alpha.value(), cover.value(), below as int);
    ||| n <= opacity && steps(n as int, exact)
    ||| n == opacity && exists|m: int| n < m <= 255 && #[trigger] steps(m, exact)
}

/// Ink covers what is below it by as much as it is opaque and the glyph covers the pixel: the
/// opacity of the pixel grows so, and its colors turn to that of the ink.
pub proof fn lemma_ink(below: (u8, u8, u8, u8), color: Color, cover: Scalar)
    requires
        is_share(color.red),
        is_share(color.green),
        is_share(color.blue),
        is_share(color.alpha),
        is_share(cover),
    ensures
        ({
            let p = crate::label::inked(below, color, cover);
            let u = crate::scalar::unit() as int;
            &&& steps(
                p.3 as int,
                covers(u, color.alpha.value(), cover.value(), below.3 as int),
            )
            &&& mixes(p.0, color.red, color, cover, below.0, p.3)
            &&& mixes(p.1, color.green, color, cover, below.1, p.3)
            &&& mixes(p.2, color.blue, color, cover, below.2, p.3)
        }),
{
    let u = crate::scalar::unit();
    crate::scalar::lemma_one();
    crate::arith::lemma_unit_large();
    let alpha = color.alpha.product(cover);
    lemma_share_product(color.alpha, cover);
    reveal(crate::label::mixed_alpha);
    let av = alpha.value();
    assert(av * u - av * u == 0);
    assert(0 <= u * u) by (nonlinear_arith);
    lemma_ink_byte(alpha, alpha, below.3, av * u);
    assert(av * u == u * av) by (nonlinear_arith);
    let o = color.alpha.value() * cover.value();
    let a = crate::label::mixed_alpha(alpha, below.3);
    lemma_ink_lift(a as int, u as int, av, o, below.3 as int, u as int);
    lemma_mixed(color.red, color, cover, below.0);
    lemma_mixed(color.green, color, cover, below.1);
    lemma_mixed(color.blue, color, cover, below.2);
}

proof fn lemma_mixed(above: Scalar, color: Color, cover: Scalar, below: u8)
    requires
        is_share(above),
        is_share(color.alpha),
        is_share(cover),
    ensures
        steps(
            crate::label::mixed(above, color.alpha.product(cover), below) as int,
            covers(above.value(), color.alpha.value(), cover.value(), below as int),
        ),
{
    let u = crate::scalar::unit();
    crate::scalar::lemma_one();
    crate::arith::lemma_unit_large();
    let alpha = color.alpha.product(cover);
    lemma_share_product(color.alpha, cover);
    reveal(crate::label::mixed);
    lemma_share_product(above, alpha);
    let av = alpha.value();
    let cv = above.value();
    assert(cv * av <= av * u) by (nonlinear_arith)
        requires
            cv <= u,
            0 <= av,
    ;
    lemma_ink_byte(above.product(alpha), alpha, below, cv * av);
    let o = color.alpha.value() * cover.value();
    let n = crate::label::mixed(above, alpha, below);
    lemma_ink_lift(n as int, cv, av, o, below as int, u as int);
}

} // verus!
