//! Which layouts fit into a rectangle and can be moved to the origin.

use crate::layout::{Axis, Button, Config, Inputs, Rect, Stick};
use crate::scalar::Scalar;
use vstd::prelude::*;

verus! {

/// Whether a rectangle has its edges in order, none of them further than `n` pixels from the origin.
pub open spec fn near(r: Rect, n: int) -> bool {
    &&& crate::lettered::within_pixels(r.left, n)
    &&& crate::lettered::within_pixels(r.top, n)
    &&& crate::lettered::within_pixels(r.right, n)
    &&& crate::lettered::within_pixels(r.bottom, n)
    &&& r.left.value() <= r.right.value()
    &&& r.top.value() <= r.bottom.value()
}

/// Whether a length is not negative, and at most `n` pixels.
pub open spec fn short(v: Scalar, n: int) -> bool {
    crate::lettered::within_pixels(v, n) && v.value() >= 0
}

/// Whether a button is an ordinary one.
pub open spec fn plain_button(b: Button) -> bool {
    near(b.shape, 0x10_0000) && (b.outline matches Some((_, w)) ==> short(w, 0x10_0000))
}

/// Whether a gauge is an ordinary one.
pub open spec fn plain_axis(a: Axis) -> bool {
    near(a.shape, 0x10_0000) && (a.outline matches Some((_, w)) ==> short(w, 0x10_0000))
}

/// Whether a stick is an ordinary one.
pub open spec fn plain_stick(s: Stick) -> bool {
    &&& near(s.shape, 0x10_0000)
    &&& short(s.displacement, 0x10_0000)
    &&& s.outline matches Some((_, w)) ==> short(w, 0x10_0000)
    &&& s.gate matches Some((g, _, w)) ==> near(g, 0x10_0000) && short(w, 0x10_0000)
}

/// Whether a layout is an ordinary one: every shape has its edges in order, every line and
/// displacement is a length, and nothing is further than 2^20 pixels from the origin, or longer.
pub open spec fn plain(inputs: Inputs) -> bool {
    &&& forall|i: int| 0 <= i < inputs.buttons@.len() ==> plain_button(#[trigger] inputs.buttons@[i])
    &&& forall|i: int| 0 <= i < inputs.axes@.len() ==> plain_axis(#[trigger] inputs.axes@[i])
    &&& forall|i: int| 0 <= i < inputs.sticks@.len() ==> plain_stick(#[trigger] inputs.sticks@[i])
}

proof fn lemma_near_wider(r: Rect, n: int, m: int)
    requires
        near(r, n),
        n <= m,
    ensures
        near(r, m),
{
    let u = crate::scalar::unit();
    assert(n * u <= m * u) by (nonlinear_arith)
        requires
            n <= m,
            u >= 0,
    ;
}

proof fn lemma_near_valid(r: Rect, n: int)
    requires
        near(r, n),
        n <= 0x100_0000,
    ensures
        r.valid(),
{
    let u = crate::scalar::unit();
    lemma_near_wider(r, n, 0x100_0000);
    crate::layout::lemma_landmarks();
    vstd::arithmetic::power2::lemma2_to64();
    vstd::arithmetic::power2::lemma_pow2_adds(25, 149);
    vstd::arithmetic::power2::lemma_pow2_strictly_increases(174, 223);
    assert(2 * (0x100_0000 * u) == 0x200_0000 * u);
}

proof fn lemma_grown_near(r: Rect, by: Scalar, n: nat, k: nat)
    requires
        near(r, n as int),
        short(by, k as int),
        n + k <= 0x100_0000,
    ensures
        r.grown(by) matches Some(g) && near(g, (n + k) as int),
{
    let u = crate::scalar::unit();
    let back = by.negated();
    assert((n + k) * u == n * u + k * u) by (nonlinear_arith);
    crate::layout::lemma_negated(by);
    crate::lettered::lemma_sum_bounded(r.left, back, n + k);
    crate::lettered::lemma_sum_bounded(r.top, back, n + k);
    crate::lettered::lemma_sum_bounded(r.right, by, n + k);
    crate::lettered::lemma_sum_bounded(r.bottom, by, n + k);
    crate::arith::lemma_sum_order(r.left, back);
    crate::arith::lemma_sum_order(r.top, back);
    crate::arith::lemma_sum_order(r.right, by);
    crate::arith::lemma_sum_order(r.bottom, by);
    let g = Rect {
        left: r.left.difference(by),
        top: r.top.difference(by),
        right: r.right.sum(by),
        bottom: r.bottom.sum(by),
    };
    lemma_near_valid(g, (n + k) as int);
}

proof fn lemma_joined_near(a: Rect, b: Rect, n: int)
    requires
        near(a, n),
        near(b, n),
        n <= 0x100_0000,
    ensures
        a.joined(b) matches Some(g) && near(g, n),
{
    let g = Rect {
        left: crate::layout::lesser(a.left, b.left),
        top: crate::layout::lesser(a.top, b.top),
        right: crate::layout::greater(a.right, b.right),
        bottom: crate::layout::greater(a.bottom, b.bottom),
    };
    lemma_near_valid(g, n);
}

proof fn lemma_nearest_grows(x: nat, y: nat)
    requires
        x <= y,
    ensures
        crate::scalar::nearest(x, 1) <= crate::scalar::nearest(y, 1),
{
    crate::arith::lemma_nearest_exists(x, 1);
    crate::arith::lemma_nearest_exists(y, 1);
    let a = choose|b: nat| crate::scalar::rounds_to(x, 1, b);
    let b = choose|b: nat| crate::scalar::rounds_to(y, 1, b);
    if x < y && a > b {
        if b + 1 < a {
            crate::scalar::lemma_magnitude_order(b + 1, a);
        }
        if b < a - 1 {
            crate::scalar::lemma_magnitude_order(b, (a - 1) as nat);
        }
        assert(false);
    }
}

/// Moving two numbers by the same keeps their order.
proof fn lemma_sum_grows(a: Scalar, b: Scalar, d: Scalar)
    requires
        a.is_finite(),
        b.is_finite(),
        d.is_finite(),
        a.value() <= b.value(),
        a.sum(d).is_finite(),
        b.sum(d).is_finite(),
    ensures
        a.sum(d).value() <= b.sum(d).value(),
{
    reveal(Scalar::sum);
    let s = a.value() + d.value();
    let t = b.value() + d.value();
    let p = a.sum(d);
    let q = b.sum(d);
    assert(crate::scalar::magnitude(0) == 0);
    if s > 0 {
        lemma_nearest_grows(s as nat, t as nat);
        if p.low() < q.low() {
            crate::scalar::lemma_magnitude_order(p.low(), q.low());
        }
    } else if t < 0 {
        lemma_nearest_grows((-t) as nat, (-s) as nat);
        if q.low() < p.low() {
            crate::scalar::lemma_magnitude_order(q.low(), p.low());
        }
    }
}

proof fn lemma_moved_near(r: Rect, dx: Scalar, dy: Scalar, n: nat, k: nat)
    requires
        near(r, n as int),
        crate::lettered::within_pixels(dx, k as int),
        crate::lettered::within_pixels(dy, k as int),
        n + k <= 0x100_0000,
    ensures
        r.moved(dx, dy) matches Some(g) && near(g, (n + k) as int),
{
    let u = crate::scalar::unit();
    assert((n + k) * u == n * u + k * u) by (nonlinear_arith);
    assert(k * u >= 0) by (nonlinear_arith)
        requires
            k >= 0,
            u >= 0,
    ;
    crate::lettered::lemma_sum_bounded(r.left, dx, n + k);
    crate::lettered::lemma_sum_bounded(r.top, dy, n + k);
    crate::lettered::lemma_sum_bounded(r.right, dx, n + k);
    crate::lettered::lemma_sum_bounded(r.bottom, dy, n + k);
    lemma_sum_grows(r.left, r.right, dx);
    lemma_sum_grows(r.top, r.bottom, dy);
    let g = Rect {
        left: r.left.sum(dx),
        top: r.top.sum(dy),
        right: r.right.sum(dx),
        bottom: r.bottom.sum(dy),
    };
    lemma_near_valid(g, (n + k) as int);
    lemma_near_wider(r, n as int, (n + k) as int);
}

proof fn lemma_stick_near(s: Stick)
    requires
        plain_stick(s),
    ensures
        s.extent() matches Some(e) && near(e, 0x30_0000),
{
    lemma_grown_near(s.shape, s.displacement, 0x10_0000, 0x10_0000);
    let r = s.shape.grown(s.displacement)->0;
    if let Some((_, w)) = s.outline {
        lemma_grown_near(r, w, 0x20_0000, 0x10_0000);
    } else {
        lemma_near_wider(r, 0x20_0000, 0x30_0000);
    }
    if let Some((g, _, w)) = s.gate {
        lemma_grown_near(g, w, 0x10_0000, 0x10_0000);
        lemma_near_wider(g.grown(w)->0, 0x20_0000, 0x30_0000);
        lemma_joined_near(s.reach()->0, g.grown(w)->0, 0x30_0000);
    }
}

proof fn lemma_button_near(b: Button)
    requires
        plain_button(b),
    ensures
        b.extent() matches Some(e) && near(e, 0x30_0000),
{
    lemma_near_wider(b.shape, 0x10_0000, 0x30_0000);
    if let Some((_, w)) = b.outline {
        lemma_grown_near(b.shape, w, 0x10_0000, 0x10_0000);
        lemma_near_wider(b.shape.grown(w)->0, 0x20_0000, 0x30_0000);
    }
}

proof fn lemma_axis_near(a: Axis)
    requires
        plain_axis(a),
    ensures
        a.extent() matches Some(e) && near(e, 0x30_0000),
{
    lemma_near_wider(a.shape, 0x10_0000, 0x30_0000);
    if let Some((_, w)) = a.outline {
        lemma_grown_near(a.shape, w, 0x10_0000, 0x10_0000);
        lemma_near_wider(a.shape.grown(w)->0, 0x20_0000, 0x30_0000);
    }
}

spec fn all_near(parts: Seq<Option<Rect>>) -> bool {
    forall|i: int| 0 <= i < parts.len() ==> (#[trigger] parts[i] matches Some(r) && near(r, 0x30_0000))
}

proof fn lemma_hull_near(parts: Seq<Option<Rect>>)
    requires
        all_near(parts),
    ensures
        crate::layout::hull(parts) matches Some(r) && near(r, 0x30_0000),
    decreases parts.len(),
{
    if parts.len() == 0 {
        lemma_blank_near();
    } else if parts.len() > 1 {
        let rest = parts.drop_last();
        assert forall|i: int| 0 <= i < rest.len() implies (#[trigger] rest[i] matches Some(r)
            && near(r, 0x30_0000)) by {
            assert(rest[i] == parts[i]);
        }
        lemma_hull_near(rest);
        assert(parts.last() == parts[parts.len() - 1]);
        lemma_joined_near(crate::layout::hull(rest)->0, parts.last()->0, 0x30_0000);
    } else {
        assert(parts[0] is Some);
    }
}

proof fn lemma_blank_near()
    ensures
        near(Rect::blank(), 0x30_0000),
{
    let u = crate::scalar::unit();
    vstd::arithmetic::power2::lemma2_to64();
    vstd::arithmetic::power2::lemma_pow2_adds(17, 132);
    crate::scalar::lemma_pattern(132, 0xc8_0000);
    crate::scalar::lemma_one();
    assert(crate::scalar::magnitude(0) == 0);
    let w = vstd::arithmetic::power2::pow2(132);
    assert(0xc8_0000 * w == 100 * (0x2_0000 * w)) by (nonlinear_arith);
}

/// An ordinary layout fits into a rectangle, and can be moved to the origin.
pub proof fn lemma_layout_fits(config: Config)
    requires
        plain(config.inputs),
    ensures
        crate::layout::hull(config.inputs.extents()) is Some,
        config.shift() is Some,
{
    let inputs = config.inputs;
    let parts = inputs.extents();
    let b = inputs.buttons@.len();
    let s = inputs.sticks@.len();
    assert forall|i: int| 0 <= i < parts.len() implies (#[trigger] parts[i] matches Some(r)
        && near(r, 0x30_0000)) by {
        if i < b {
            lemma_button_near(inputs.buttons@[i]);
        } else if i < b + s {
            lemma_stick_near(inputs.sticks@[i - b]);
        } else {
            lemma_axis_near(inputs.axes@[i - b - s]);
        }
    }
    lemma_hull_near(parts);
    let corner = crate::layout::hull(parts)->0;
    let dx = corner.left.negated();
    let dy = corner.top.negated();
    crate::layout::lemma_negated(corner.left);
    crate::layout::lemma_negated(corner.top);
    assert forall|i: int| 0 <= i < inputs.buttons@.len() implies (
    #[trigger] inputs.buttons@[i]).shifted(dx, dy) is Some by {
        lemma_moved_near(inputs.buttons@[i].shape, dx, dy, 0x10_0000, 0x30_0000);
    }
    assert forall|i: int| 0 <= i < inputs.axes@.len() implies (#[trigger] inputs.axes@[i]).shifted(
        dx,
        dy,
    ) is Some by {
        lemma_moved_near(inputs.axes@[i].shape, dx, dy, 0x10_0000, 0x30_0000);
    }
    assert forall|i: int| 0 <= i < inputs.sticks@.len() implies (
    #[trigger] inputs.sticks@[i]).shifted(dx, dy) is Some by {
        let k = inputs.sticks@[i];
        lemma_moved_near(k.shape, dx, dy, 0x10_0000, 0x30_0000);
        if let Some((g, _, _)) = k.gate {
            lemma_moved_near(g, dx, dy, 0x10_0000, 0x30_0000);
        }
    }
}

} // verus!
