//! Where minimizing puts a layout: its bounds come to the origin and keep their size, but for what
//! single precision rounds.

use crate::layout::{Axis, Button, Inputs, Rect, Stick};
use crate::scalar::Scalar;
use vstd::prelude::*;

verus! {

// ---------------------------------------------------------------------------
// Rounding
// ---------------------------------------------------------------------------

/// Whether `a + b` is a number, rounded by at most `t` units of 2^-149.
pub open spec fn sums_within(a: Scalar, b: Scalar, t: nat) -> bool {
    &&& a.sum(b).is_finite()
    &&& -t <= a.sum(b).value() - (a.value() + b.value()) <= t
}

/// Whether all edges are numbers.
pub open spec fn finite(r: Rect) -> bool {
    r.left.is_finite() && r.top.is_finite() && r.right.is_finite() && r.bottom.is_finite()
}

/// Whether growing by `by` moves no edge by more than `t` away from where it should be.
pub open spec fn grows_within(r: Rect, by: Scalar, t: nat) -> bool {
    &&& sums_within(r.left, by.negated(), t)
    &&& sums_within(r.top, by.negated(), t)
    &&& sums_within(r.right, by, t)
    &&& sums_within(r.bottom, by, t)
}

/// Whether moving by `dx` and `dy` moves no edge by more than `t` away from where it should be.
pub open spec fn moves_within(r: Rect, dx: Scalar, dy: Scalar, t: nat) -> bool {
    &&& sums_within(r.left, dx, t)
    &&& sums_within(r.top, dy, t)
    &&& sums_within(r.right, dx, t)
    &&& sums_within(r.bottom, dy, t)
}

/// Whether `v` is at most `t` away from `w`.
pub open spec fn close(v: int, w: int, t: nat) -> bool {
    -t <= v - w <= t
}

/// Whether each edge of `r` is at most `t` away from that of `from`, moved by `dx` and `dy`.
pub open spec fn follows(r: Rect, from: Rect, dx: int, dy: int, t: nat) -> bool {
    &&& finite(r)
    &&& finite(from)
    &&& close(r.left.value(), from.left.value() + dx, t)
    &&& close(r.top.value(), from.top.value() + dy, t)
    &&& close(r.right.value(), from.right.value() + dx, t)
    &&& close(r.bottom.value(), from.bottom.value() + dy, t)
}

proof fn lemma_moved_follows(r: Rect, dx: Scalar, dy: Scalar, t: nat)
    requires
        finite(r),
        moves_within(r, dx, dy, t),
    ensures
        r.moved(dx, dy) matches Some(m) ==> follows(m, r, dx.value(), dy.value(), t),
{
    let zero = Scalar { bits: 0 };
    crate::scalar::lemma_one();
    if dx.equals(zero) && dy.equals(zero) {
        assert(zero.value() == 0);
        assert(r.moved(dx, dy) == Some(r));
    } else if let Some(m) = r.moved(dx, dy) {
        assert(m.left == r.left.sum(dx) && m.top == r.top.sum(dy));
        assert(m.right == r.right.sum(dx) && m.bottom == r.bottom.sum(dy));
    }
}

/// Edges of one rectangle that stand as those of another make a rectangle as well.
proof fn lemma_follows_valid(r: Rect, from: Rect, dx: int, dy: int)
    requires
        follows(r, from, dx, dy, 0),
        from.valid(),
    ensures
        r.valid(),
{
}

/// Where `r` with its edges moved outwards lies before it is checked.
spec fn spread(r: Rect, by: Scalar) -> Rect {
    Rect {
        left: r.left.difference(by),
        top: r.top.difference(by),
        right: r.right.sum(by),
        bottom: r.bottom.sum(by),
    }
}

proof fn lemma_edge_follows(x: Scalar, y: Scalar, by: Scalar, d: int, u: nat, t: nat)
    requires
        close(x.value(), y.value() + d, u),
        sums_within(x, by, t),
        sums_within(y, by, t),
    ensures
        close(x.sum(by).value(), y.sum(by).value() + d, u + 2 * t),
{
}

proof fn lemma_grown_follows(
    r: Rect,
    from: Rect,
    by: Scalar,
    dx: int,
    dy: int,
    u: nat,
    t: nat,
)
    requires
        follows(r, from, dx, dy, u),
        grows_within(r, by, t),
        grows_within(from, by, t),
    ensures
        r.grown(by) matches Some(g) ==> (from.grown(by) matches Some(h) ==> follows(
            g,
            h,
            dx,
            dy,
            u + 2 * t,
        )),
        u == 0 && t == 0 && from.grown(by) is Some ==> r.grown(by) is Some,
{
    lemma_edge_follows(r.left, from.left, by.negated(), dx, u, t);
    lemma_edge_follows(r.top, from.top, by.negated(), dy, u, t);
    lemma_edge_follows(r.right, from.right, by, dx, u, t);
    lemma_edge_follows(r.bottom, from.bottom, by, dy, u, t);
    let g = spread(r, by);
    let h = spread(from, by);
    assert(follows(g, h, dx, dy, u + 2 * t));
    assert(r.grown(by) == g.checked() && from.grown(by) == h.checked());
    if u == 0 && t == 0 && h.valid() {
        lemma_follows_valid(g, h, dx, dy);
    }
}

proof fn lemma_lesser_value(a: Scalar, b: Scalar)
    requires
        a.is_finite(),
        b.is_finite(),
    ensures
        crate::layout::lesser(a, b).is_finite(),
        crate::layout::lesser(a, b).value() == (if b.value() < a.value() {
            b.value()
        } else {
            a.value()
        }),
        crate::layout::greater(a, b).is_finite(),
        crate::layout::greater(a, b).value() == (if a.value() < b.value() {
            b.value()
        } else {
            a.value()
        }),
{
}

spec fn union(a: Rect, b: Rect) -> Rect {
    Rect {
        left: crate::layout::lesser(a.left, b.left),
        top: crate::layout::lesser(a.top, b.top),
        right: crate::layout::greater(a.right, b.right),
        bottom: crate::layout::greater(a.bottom, b.bottom),
    }
}

proof fn lemma_joined_follows(
    a: Rect,
    b: Rect,
    c: Rect,
    d: Rect,
    dx: int,
    dy: int,
    t: nat,
)
    requires
        follows(a, c, dx, dy, t),
        follows(b, d, dx, dy, t),
    ensures
        a.joined(b) matches Some(r) ==> (c.joined(d) matches Some(s) ==> follows(r, s, dx, dy, t)),
        t == 0 && c.joined(d) is Some ==> a.joined(b) is Some,
{
    lemma_lesser_value(a.left, b.left);
    lemma_lesser_value(a.top, b.top);
    lemma_lesser_value(a.right, b.right);
    lemma_lesser_value(a.bottom, b.bottom);
    lemma_lesser_value(c.left, d.left);
    lemma_lesser_value(c.top, d.top);
    lemma_lesser_value(c.right, d.right);
    lemma_lesser_value(c.bottom, d.bottom);
    let r = union(a, b);
    let s = union(c, d);
    assert(follows(r, s, dx, dy, t));
    assert(a.joined(b) == r.checked() && c.joined(d) == s.checked());
    if t == 0 && s.valid() {
        lemma_follows_valid(r, s, dx, dy);
    }
}

// ---------------------------------------------------------------------------
// Items
// ---------------------------------------------------------------------------

/// Whether finding out what a button covers rounds no edge by more than `t`.
pub open spec fn button_within(b: Button, t: nat) -> bool {
    &&& finite(b.shape)
    &&& b.outline matches Some((_, w)) ==> grows_within(b.shape, w, t)
}

/// Whether finding out what a gauge covers rounds no edge by more than `t`.
pub open spec fn axis_within(a: Axis, t: nat) -> bool {
    &&& finite(a.shape)
    &&& a.outline matches Some((_, w)) ==> grows_within(a.shape, w, t)
}

/// Whether finding out what a stick covers rounds no edge by more than `t`.
pub open spec fn stick_within(s: Stick, t: nat) -> bool {
    &&& finite(s.shape)
    &&& grows_within(s.shape, s.displacement, t)
    &&& s.outline matches Some((_, w)) ==> (s.shape.grown(s.displacement) matches Some(r)
        ==> grows_within(r, w, t))
    &&& s.gate matches Some((g, _, w)) ==> finite(g) && grows_within(g, w, t)
}

/// Whether finding out what a layout covers rounds no edge by more than `t`.
pub open spec fn covers_within(inputs: Inputs, t: nat) -> bool {
    &&& forall|i: int|
        0 <= i < inputs.buttons@.len() ==> button_within(#[trigger] inputs.buttons@[i], t)
    &&& forall|i: int|
        0 <= i < inputs.sticks@.len() ==> stick_within(#[trigger] inputs.sticks@[i], t)
    &&& forall|i: int| 0 <= i < inputs.axes@.len() ==> axis_within(#[trigger] inputs.axes@[i], t)
}

/// Whether moving a layout by `dx` and `dy` rounds no edge by more than `t`.
pub open spec fn shifts_within(inputs: Inputs, dx: Scalar, dy: Scalar, t: nat) -> bool {
    &&& forall|i: int|
        0 <= i < inputs.buttons@.len() ==> moves_within(
            (#[trigger] inputs.buttons@[i]).shape,
            dx,
            dy,
            t,
        )
    &&& forall|i: int|
        0 <= i < inputs.axes@.len() ==> moves_within(
            (#[trigger] inputs.axes@[i]).shape,
            dx,
            dy,
            t,
        )
    &&& forall|i: int|
        0 <= i < inputs.sticks@.len() ==> {
            &&& moves_within((#[trigger] inputs.sticks@[i]).shape, dx, dy, t)
            &&& inputs.sticks@[i].gate matches Some((g, _, _)) ==> moves_within(g, dx, dy, t)
        }
}

/// Whether what an item covers followed what it covered before.
spec fn part_follows(
    after: Option<Rect>,
    before: Option<Rect>,
    dx: int,
    dy: int,
    t: nat,
) -> bool {
    &&& after matches Some(a) ==> (before matches Some(b) ==> follows(a, b, dx, dy, 5 * t))
    &&& t == 0 && before is Some ==> after is Some
}

proof fn lemma_looser(r: Rect, from: Rect, dx: int, dy: int, t: nat, u: nat)
    requires
        follows(r, from, dx, dy, t),
        t <= u,
    ensures
        follows(r, from, dx, dy, u),
{
}

proof fn lemma_button_follows(b: Button, c: Button, dx: Scalar, dy: Scalar, t: nat)
    requires
        button_within(b, t),
        button_within(c, t),
        moves_within(b.shape, dx, dy, t),
        b.shifted(dx, dy) == Some(c),
    ensures
        part_follows(c.extent(), b.extent(), dx.value(), dy.value(), t),
{
    lemma_moved_follows(b.shape, dx, dy, t);
    lemma_looser(c.shape, b.shape, dx.value(), dy.value(), t, 5 * t);
    if let Some((_, w)) = b.outline {
        lemma_grown_follows(c.shape, b.shape, w, dx.value(), dy.value(), t, t);
        if let (Some(e), Some(f)) = (c.extent(), b.extent()) {
            lemma_looser(e, f, dx.value(), dy.value(), t + 2 * t, 5 * t);
        }
    }
}

proof fn lemma_axis_follows(b: Axis, c: Axis, dx: Scalar, dy: Scalar, t: nat)
    requires
        axis_within(b, t),
        axis_within(c, t),
        moves_within(b.shape, dx, dy, t),
        b.shifted(dx, dy) == Some(c),
    ensures
        part_follows(c.extent(), b.extent(), dx.value(), dy.value(), t),
{
    lemma_moved_follows(b.shape, dx, dy, t);
    lemma_looser(c.shape, b.shape, dx.value(), dy.value(), t, 5 * t);
    if let Some((_, w)) = b.outline {
        lemma_grown_follows(c.shape, b.shape, w, dx.value(), dy.value(), t, t);
        if let (Some(e), Some(f)) = (c.extent(), b.extent()) {
            lemma_looser(e, f, dx.value(), dy.value(), t + 2 * t, 5 * t);
        }
    }
}

proof fn lemma_reach_follows(b: Stick, c: Stick, dx: Scalar, dy: Scalar, t: nat)
    requires
        stick_within(b, t),
        stick_within(c, t),
        moves_within(b.shape, dx, dy, t),
        b.shape.moved(dx, dy) == Some(c.shape),
        b.displacement == c.displacement,
        b.outline == c.outline,
    ensures
        part_follows(c.reach(), b.reach(), dx.value(), dy.value(), t),
{
    let x = dx.value();
    let y = dy.value();
    lemma_moved_follows(b.shape, dx, dy, t);
    lemma_grown_follows(c.shape, b.shape, b.displacement, x, y, t, t);
    match (c.shape.grown(c.displacement), b.shape.grown(b.displacement)) {
        (Some(r), Some(s)) => {
            lemma_looser(r, s, x, y, t + 2 * t, 5 * t);
            if let Some((_, w)) = b.outline {
                lemma_grown_follows(r, s, w, x, y, t + 2 * t, t);
            }
        },
        _ => {},
    }
}

proof fn lemma_stick_follows(b: Stick, c: Stick, dx: Scalar, dy: Scalar, t: nat)
    requires
        stick_within(b, t),
        stick_within(c, t),
        moves_within(b.shape, dx, dy, t),
        b.gate matches Some((g, _, _)) ==> moves_within(g, dx, dy, t),
        b.shifted(dx, dy) == Some(c),
    ensures
        part_follows(c.extent(), b.extent(), dx.value(), dy.value(), t),
{
    let x = dx.value();
    let y = dy.value();
    lemma_reach_follows(b, c, dx, dy, t);
    if let (Some((g, _, w)), Some((h, _, _))) = (b.gate, c.gate) {
        lemma_moved_follows(g, dx, dy, t);
        assert(g.moved(dx, dy) == Some(h));
        lemma_grown_follows(h, g, w, x, y, t, t);
        if let (Some(r), Some(s)) = (h.grown(w), g.grown(w)) {
            lemma_looser(r, s, x, y, t + 2 * t, 5 * t);
            if let (Some(p), Some(q)) = (c.reach(), b.reach()) {
                lemma_joined_follows(p, r, q, s, x, y, 5 * t);
            }
        }
    }
}

// ---------------------------------------------------------------------------
// Layouts
// ---------------------------------------------------------------------------

proof fn lemma_parts_follow(
    before: Inputs,
    after: Inputs,
    dx: Scalar,
    dy: Scalar,
    t: nat,
    k: int,
)
    requires
        covers_within(before, t),
        covers_within(after, t),
        shifts_within(before, dx, dy, t),
        after.moved_from(before, dx, dy),
        0 <= k < before.extents().len(),
    ensures
        part_follows(after.extents()[k], before.extents()[k], dx.value(), dy.value(), t),
{
    let nb = before.buttons@.len() as int;
    let ns = before.sticks@.len() as int;
    if k < nb {
        let b = before.buttons@[k];
        let c = after.buttons@[k];
        assert(before.extents()[k] == b.extent() && after.extents()[k] == c.extent());
        assert(Some(c) == b.shifted(dx, dy));
        assert(button_within(b, t) && button_within(c, t));
        lemma_button_follows(b, c, dx, dy, t);
    } else if k < nb + ns {
        let b = before.sticks@[k - nb];
        let c = after.sticks@[k - nb];
        assert(before.extents()[k] == b.extent() && after.extents()[k] == c.extent());
        assert(Some(c) == b.shifted(dx, dy));
        assert(stick_within(b, t) && stick_within(c, t));
        lemma_stick_follows(b, c, dx, dy, t);
    } else {
        let b = before.axes@[k - nb - ns];
        let c = after.axes@[k - nb - ns];
        assert(before.extents()[k] == b.extent() && after.extents()[k] == c.extent());
        assert(Some(c) == b.shifted(dx, dy));
        assert(axis_within(b, t) && axis_within(c, t));
        lemma_axis_follows(b, c, dx, dy, t);
    }
}

proof fn lemma_hull_follows(
    after: Seq<Option<Rect>>,
    before: Seq<Option<Rect>>,
    dx: int,
    dy: int,
    t: nat,
)
    requires
        after.len() == before.len(),
        before.len() > 0,
        forall|k: int|
            0 <= k < before.len() ==> part_follows(#[trigger] after[k], before[k], dx, dy, t),
    ensures
        part_follows(crate::layout::hull(after), crate::layout::hull(before), dx, dy, t),
    decreases before.len(),
{
    if before.len() == 1 {
        assert(part_follows(after[0], before[0], dx, dy, t));
    } else {
        let a = after.drop_last();
        let b = before.drop_last();
        assert forall|k: int| 0 <= k < b.len() implies part_follows(
            #[trigger] a[k],
            b[k],
            dx,
            dy,
            t,
        ) by {
            assert(a[k] == after[k] && b[k] == before[k]);
        }
        lemma_hull_follows(a, b, dx, dy, t);
        let n = before.len() - 1;
        assert(part_follows(after[n], before[n], dx, dy, t));
        assert(after.last() == after[n] && before.last() == before[n]);
        match (crate::layout::hull(a), crate::layout::hull(b), after[n], before[n]) {
            (Some(p), Some(q), Some(r), Some(s)) => {
                lemma_joined_follows(p, r, q, s, dx, dy, 5 * t);
            },
            _ => {},
        }
    }
}

/// Whether `a` has the size of `b` and its corner at the origin, but for `t` units of 2^-149 in
/// each edge.
pub open spec fn at_origin(a: Rect, b: Rect, t: nat) -> bool {
    &&& close(a.left.value(), 0, t)
    &&& close(a.top.value(), 0, t)
    &&& close(a.right.value(), b.right.value() - b.left.value(), t)
    &&& close(a.bottom.value(), b.bottom.value() - b.top.value(), t)
}

/// Minimizing brings the bounds of a layout to the origin, but for five times what a sum is rounded
/// by. Where no sum is rounded (`t` is 0), there are bounds afterwards, and they lie exactly there.
pub proof fn lemma_minimized_within(before: Inputs, after: Inputs, t: nat)
    requires
        before.extents().len() > 0,
        crate::layout::hull(before.extents()) matches Some(b) && {
            &&& after.moved_from(before, b.left.negated(), b.top.negated())
            &&& shifts_within(before, b.left.negated(), b.top.negated(), t)
        },
        covers_within(before, t),
        covers_within(after, t),
    ensures
        crate::layout::hull(after.extents()) matches Some(a) ==> at_origin(
            a,
            crate::layout::hull(before.extents())->0,
            5 * t,
        ),
        t == 0 ==> crate::layout::hull(after.extents()) is Some,
{
    let b = crate::layout::hull(before.extents())->0;
    let dx = b.left.negated();
    let dy = b.top.negated();
    assert forall|k: int| 0 <= k < before.extents().len() implies part_follows(
        #[trigger] after.extents()[k],
        before.extents()[k],
        dx.value(),
        dy.value(),
        t,
    ) by {
        lemma_parts_follow(before, after, dx, dy, t, k);
    }
    lemma_hull_follows(after.extents(), before.extents(), dx.value(), dy.value(), t);
    crate::layout::lemma_negated(b.left);
    crate::layout::lemma_negated(b.top);
}

proof fn lemma_zero_shift(dx: Scalar, dy: Scalar)
    requires
        dx.equals(Scalar { bits: 0 }),
        dy.equals(Scalar { bits: 0 }),
    ensures
        forall|b: Button| #[trigger] b.shifted(dx, dy) == Some(b),
        forall|a: Axis| #[trigger] a.shifted(dx, dy) == Some(a),
        forall|s: Stick| #[trigger] s.shifted(dx, dy) == Some(s),
{
    assert forall|r: Rect| #[trigger] r.moved(dx, dy) == Some(r) by {}
    assert forall|s: Stick| #[trigger] s.shifted(dx, dy) == Some(s) by {
        if let Some((g, _, _)) = s.gate {
            assert(g.moved(dx, dy) == Some(g));
        }
    }
}

proof fn lemma_zero_corner(v: Scalar)
    requires
        v.is_finite(),
        v.value() == 0,
    ensures
        v.negated().equals(Scalar { bits: 0 }),
{
    crate::layout::lemma_negated(v);
    crate::scalar::lemma_one();
}

/// A layout whose bounds have their corner at the origin stays where it is.
pub proof fn lemma_minimize_settled(inputs: Inputs, again: Inputs)
    requires
        crate::layout::hull(inputs.extents()) matches Some(b) && {
            &&& finite(b)
            &&& b.left.value() == 0
            &&& b.top.value() == 0
            &&& again.moved_from(inputs, b.left.negated(), b.top.negated())
        },
    ensures
        again.buttons@ == inputs.buttons@,
        again.sticks@ == inputs.sticks@,
        again.axes@ == inputs.axes@,
{
    let b = crate::layout::hull(inputs.extents())->0;
    lemma_zero_corner(b.left);
    lemma_zero_corner(b.top);
    lemma_stays(inputs, again, b.left.negated(), b.top.negated());
}

proof fn lemma_stays(inputs: Inputs, again: Inputs, dx: Scalar, dy: Scalar)
    requires
        dx.equals(Scalar { bits: 0 }),
        dy.equals(Scalar { bits: 0 }),
        again.moved_from(inputs, dx, dy),
    ensures
        again.buttons@ == inputs.buttons@,
        again.sticks@ == inputs.sticks@,
        again.axes@ == inputs.axes@,
{
    lemma_zero_shift(dx, dy);
    assert forall|i: int| 0 <= i < inputs.buttons@.len() implies again.buttons@[i]
        == inputs.buttons@[i] by {
        assert(Some(again.buttons@[i]) == inputs.buttons@[i].shifted(dx, dy));
    }
    assert forall|i: int| 0 <= i < inputs.sticks@.len() implies again.sticks@[i]
        == inputs.sticks@[i] by {
        assert(Some(again.sticks@[i]) == inputs.sticks@[i].shifted(dx, dy));
    }
    assert forall|i: int| 0 <= i < inputs.axes@.len() implies again.axes@[i]
        == inputs.axes@[i] by {
        assert(Some(again.axes@[i]) == inputs.axes@[i].shifted(dx, dy));
    }
}

// ---------------------------------------------------------------------------
// Any layout
// ---------------------------------------------------------------------------

/// Whether every edge is a number and at most `m` away from zero.
pub open spec fn rect_reaches(r: Rect, m: nat) -> bool {
    &&& finite(r)
    &&& close(r.left.value(), 0, m)
    &&& close(r.top.value(), 0, m)
    &&& close(r.right.value(), 0, m)
    &&& close(r.bottom.value(), 0, m)
}

/// Whether all rectangles that a layout is made of, and those that they grow to, reach at most `m`
/// away from the axes.
pub open spec fn reaches(inputs: Inputs, m: nat) -> bool {
    &&& forall|i: int|
        0 <= i < inputs.buttons@.len() ==> {
            let b = #[trigger] inputs.buttons@[i];
            rect_reaches(b.shape, m) && (b.extent() matches Some(e) ==> rect_reaches(e, m))
        }
    &&& forall|i: int|
        0 <= i < inputs.axes@.len() ==> {
            let a = #[trigger] inputs.axes@[i];
            rect_reaches(a.shape, m) && (a.extent() matches Some(e) ==> rect_reaches(e, m))
        }
    &&& forall|i: int| 0 <= i < inputs.sticks@.len() ==> stick_reaches(#[trigger] inputs.sticks@[i], m)
}

/// Whether all rectangles that a stick is made of, and those that they grow to, reach at most `m`
/// away from the axes.
pub open spec fn stick_reaches(s: Stick, m: nat) -> bool {
    &&& rect_reaches(s.shape, m)
    &&& s.shape.grown(s.displacement) matches Some(r) ==> rect_reaches(r, m)
    &&& s.reach() matches Some(r) ==> rect_reaches(r, m)
    &&& s.gate matches Some((g, _, w)) ==> rect_reaches(g, m) && (g.grown(w) matches Some(r)
        ==> rect_reaches(r, m))
}

proof fn lemma_sum_rounds(a: Scalar, b: Scalar, m: nat)
    requires
        a.is_finite(),
        a.sum(b).is_finite(),
        close(a.sum(b).value(), 0, m),
    ensures
        sums_within(a, b, m / 0x100_0000),
{
    crate::arith::lemma_sum_finite(a, b);
    crate::arith::lemma_sum_error(a, b);
}

proof fn lemma_grown_rounds(r: Rect, by: Scalar, m: nat)
    requires
        finite(r),
        r.grown(by) matches Some(g) && rect_reaches(g, m),
    ensures
        grows_within(r, by, m / 0x100_0000),
{
    let g = spread(r, by);
    assert(r.grown(by) == Some(g));
    lemma_sum_rounds(r.left, by.negated(), m);
    lemma_sum_rounds(r.top, by.negated(), m);
    lemma_sum_rounds(r.right, by, m);
    lemma_sum_rounds(r.bottom, by, m);
}

proof fn lemma_moved_rounds(r: Rect, dx: Scalar, dy: Scalar, m: nat)
    requires
        finite(r),
        dx.is_finite(),
        dy.is_finite(),
        r.moved(dx, dy) matches Some(g) && rect_reaches(g, m),
    ensures
        moves_within(r, dx, dy, m / 0x100_0000),
{
    let zero = Scalar { bits: 0 };
    crate::scalar::lemma_one();
    if dx.equals(zero) && dy.equals(zero) {
        assert(zero.value() == 0);
        crate::arith::lemma_sum_zero(r.left, dx);
        crate::arith::lemma_sum_zero(r.top, dy);
        crate::arith::lemma_sum_zero(r.right, dx);
        crate::arith::lemma_sum_zero(r.bottom, dy);
    } else {
        let g = r.moved(dx, dy)->0;
        assert(g.left == r.left.sum(dx) && g.top == r.top.sum(dy));
        assert(g.right == r.right.sum(dx) && g.bottom == r.bottom.sum(dy));
        lemma_sum_rounds(r.left, dx, m);
        lemma_sum_rounds(r.top, dy, m);
        lemma_sum_rounds(r.right, dx, m);
        lemma_sum_rounds(r.bottom, dy, m);
    }
}

proof fn lemma_hull_parts(parts: Seq<Option<Rect>>, i: int)
    requires
        0 <= i < parts.len(),
        crate::layout::hull(parts) is Some,
    ensures
        parts[i] is Some,
    decreases parts.len(),
{
    if parts.len() > 1 {
        assert(parts.last() == parts[parts.len() - 1]);
        if i < parts.len() - 1 {
            lemma_hull_parts(parts.drop_last(), i);
            assert(parts.drop_last()[i] == parts[i]);
        }
    }
}

proof fn lemma_covers_rounds(inputs: Inputs, m: nat)
    requires
        reaches(inputs, m),
        crate::layout::hull(inputs.extents()) is Some,
    ensures
        covers_within(inputs, m / 0x100_0000),
{
    let t = m / 0x100_0000;
    let parts = inputs.extents();
    let nb = inputs.buttons@.len() as int;
    let ns = inputs.sticks@.len() as int;
    assert forall|i: int| 0 <= i < inputs.buttons@.len() implies button_within(
        #[trigger] inputs.buttons@[i],
        t,
    ) by {
        let b = inputs.buttons@[i];
        assert(parts[i] == b.extent());
        lemma_hull_parts(parts, i);
        if let Some((_, w)) = b.outline {
            lemma_grown_rounds(b.shape, w, m);
        }
    }
    assert forall|i: int| 0 <= i < inputs.axes@.len() implies axis_within(
        #[trigger] inputs.axes@[i],
        t,
    ) by {
        let a = inputs.axes@[i];
        assert(parts[nb + ns + i] == a.extent());
        lemma_hull_parts(parts, nb + ns + i);
        if let Some((_, w)) = a.outline {
            lemma_grown_rounds(a.shape, w, m);
        }
    }
    assert forall|i: int| 0 <= i < inputs.sticks@.len() implies stick_within(
        #[trigger] inputs.sticks@[i],
        t,
    ) by {
        let s = inputs.sticks@[i];
        assert(parts[nb + i] == s.extent());
        lemma_hull_parts(parts, nb + i);
        lemma_stick_rounds(s, m);
    }
}

proof fn lemma_stick_rounds(s: Stick, m: nat)
    requires
        stick_reaches(s, m),
        s.extent() is Some,
    ensures
        stick_within(s, m / 0x100_0000),
{
    lemma_grown_rounds(s.shape, s.displacement, m);
    let r = s.shape.grown(s.displacement)->0;
    if let Some((_, w)) = s.outline {
        lemma_grown_rounds(r, w, m);
    }
    if let Some((g, _, w)) = s.gate {
        lemma_grown_rounds(g, w, m);
    }
}

proof fn lemma_shifts_round(before: Inputs, after: Inputs, dx: Scalar, dy: Scalar, m: nat)
    requires
        reaches(before, m),
        reaches(after, m),
        dx.is_finite(),
        dy.is_finite(),
        after.moved_from(before, dx, dy),
    ensures
        shifts_within(before, dx, dy, m / 0x100_0000),
{
    assert forall|i: int| 0 <= i < before.buttons@.len() implies moves_within(
        (#[trigger] before.buttons@[i]).shape,
        dx,
        dy,
        m / 0x100_0000,
    ) by {
        assert(Some(after.buttons@[i]) == before.buttons@[i].shifted(dx, dy));
        lemma_moved_rounds(before.buttons@[i].shape, dx, dy, m);
    }
    assert forall|i: int| 0 <= i < before.axes@.len() implies moves_within(
        (#[trigger] before.axes@[i]).shape,
        dx,
        dy,
        m / 0x100_0000,
    ) by {
        assert(Some(after.axes@[i]) == before.axes@[i].shifted(dx, dy));
        lemma_moved_rounds(before.axes@[i].shape, dx, dy, m);
    }
    assert forall|i: int| 0 <= i < before.sticks@.len() implies moves_within(
        (#[trigger] before.sticks@[i]).shape,
        dx,
        dy,
        m / 0x100_0000,
    ) && (before.sticks@[i].gate matches Some((g, _, _)) ==> moves_within(
        g,
        dx,
        dy,
        m / 0x100_0000,
    )) by {
        let b = before.sticks@[i];
        let c = after.sticks@[i];
        assert(Some(c) == b.shifted(dx, dy));
        assert(stick_reaches(c, m) && stick_reaches(b, m));
        lemma_moved_rounds(b.shape, dx, dy, m);
        if let (Some((g, _, _)), Some((h, _, _))) = (b.gate, c.gate) {
            assert(g.moved(dx, dy) == Some(h));
            lemma_moved_rounds(g, dx, dy, m);
        }
    }
}

/// Minimizing brings the bounds of any layout to the origin and keeps their size, but for rounding:
/// each edge is off by at most five 2^24ths of how far the layout reaches. Minimizing once more
/// would move nothing by more than that.
pub proof fn lemma_minimized_at_origin(before: Inputs, after: Inputs, m: nat)
    requires
        before.extents().len() > 0,
        reaches(before, m),
        reaches(after, m),
        crate::layout::hull(before.extents()) matches Some(b) && finite(b) && after.moved_from(
            before,
            b.left.negated(),
            b.top.negated(),
        ),
        crate::layout::hull(after.extents()) is Some,
    ensures
        at_origin(
            crate::layout::hull(after.extents())->0,
            crate::layout::hull(before.extents())->0,
            5 * (m / 0x100_0000),
        ),
        ({
            let a = crate::layout::hull(after.extents())->0;
            &&& close(a.left.negated().value(), 0, 5 * (m / 0x100_0000))
            &&& close(a.top.negated().value(), 0, 5 * (m / 0x100_0000))
        }),
{
    let b = crate::layout::hull(before.extents())->0;
    crate::layout::lemma_negated(b.left);
    crate::layout::lemma_negated(b.top);
    lemma_covers_rounds(before, m);
    lemma_covers_rounds(after, m);
    lemma_shifts_round(before, after, b.left.negated(), b.top.negated(), m);
    lemma_minimized_within(before, after, m / 0x100_0000);
    let a = crate::layout::hull(after.extents())->0;
    crate::layout::lemma_negated(a.left);
    crate::layout::lemma_negated(a.top);
}

// ---------------------------------------------------------------------------
// Layouts in whole pixels
// ---------------------------------------------------------------------------

/// The number `k` in units of 2^-149.
pub open spec fn units(k: int) -> int {
    k * crate::scalar::unit()
}

/// Whether `v` is a whole number of at most `m`, or the negative of one.
pub open spec fn whole(v: Scalar, m: int) -> bool {
    v.is_finite() && exists|k: int| -m <= k <= m && v.value() == #[trigger] units(k)
}

/// Whether all edges are whole numbers of at most `m`, or negatives of such.
pub open spec fn whole_rect(r: Rect, m: int) -> bool {
    whole(r.left, m) && whole(r.top, m) && whole(r.right, m) && whole(r.bottom, m)
}

/// Whether the edges of a layout are whole numbers of at most `m`, and its lines and displacements
/// of at most `n`, or negatives of such.
pub open spec fn whole_layout(inputs: Inputs, m: int, n: int) -> bool {
    &&& forall|i: int|
        0 <= i < inputs.buttons@.len() ==> {
            let b = #[trigger] inputs.buttons@[i];
            whole_rect(b.shape, m) && (b.outline matches Some((_, w)) ==> whole(w, n))
        }
    &&& forall|i: int|
        0 <= i < inputs.axes@.len() ==> {
            let a = #[trigger] inputs.axes@[i];
            whole_rect(a.shape, m) && (a.outline matches Some((_, w)) ==> whole(w, n))
        }
    &&& forall|i: int|
        0 <= i < inputs.sticks@.len() ==> whole_stick(#[trigger] inputs.sticks@[i], m, n)
}

/// Whether the edges of a stick are whole numbers of at most `m`, and its lines and displacement of
/// at most `n`, or negatives of such.
pub open spec fn whole_stick(s: Stick, m: int, n: int) -> bool {
    &&& whole_rect(s.shape, m)
    &&& whole(s.displacement, n)
    &&& s.outline matches Some((_, w)) ==> whole(w, n)
    &&& s.gate matches Some((g, _, w)) ==> whole_rect(g, m) && whole(w, n)
}

proof fn lemma_whole_sums(a: Scalar, b: Scalar, m: int, n: int)
    requires
        whole(a, m),
        whole(b, n),
        m + n <= 0x100_0000,
    ensures
        sums_within(a, b, 0),
        whole(a.sum(b), m + n),
{
    let i = choose|k: int| -m <= k <= m && a.value() == #[trigger] units(k);
    let j = choose|k: int| -n <= k <= n && b.value() == #[trigger] units(k);
    crate::arith::lemma_whole_sum(a, b, i, j);
    let u = crate::scalar::unit();
    assert(i * u + j * u == (i + j) * u) by (nonlinear_arith);
    assert(a.sum(b).value() == units(i + j));
}

proof fn lemma_whole_negated(a: Scalar, m: int)
    requires
        whole(a, m),
    ensures
        whole(a.negated(), m),
{
    crate::layout::lemma_negated(a);
    let i = choose|k: int| -m <= k <= m && a.value() == #[trigger] units(k);
    let u = crate::scalar::unit();
    assert((-i) * u == -(i * u)) by (nonlinear_arith);
    assert(a.negated().value() == units(-i));
}

proof fn lemma_whole_more(a: Scalar, m: int, n: int)
    requires
        whole(a, m),
        m <= n,
    ensures
        whole(a, n),
{
    let i = choose|k: int| -m <= k <= m && a.value() == #[trigger] units(k);
    assert(a.value() == units(i));
}

proof fn lemma_whole_rect_more(r: Rect, m: int, n: int)
    requires
        whole_rect(r, m),
        m <= n,
    ensures
        whole_rect(r, n),
{
    lemma_whole_more(r.left, m, n);
    lemma_whole_more(r.top, m, n);
    lemma_whole_more(r.right, m, n);
    lemma_whole_more(r.bottom, m, n);
}

proof fn lemma_whole_grown(r: Rect, by: Scalar, m: int, n: int)
    requires
        whole_rect(r, m),
        whole(by, n),
        m + n <= 0x100_0000,
    ensures
        grows_within(r, by, 0),
        r.grown(by) matches Some(g) ==> whole_rect(g, m + n),
{
    lemma_whole_negated(by, n);
    lemma_whole_sums(r.left, by.negated(), m, n);
    lemma_whole_sums(r.top, by.negated(), m, n);
    lemma_whole_sums(r.right, by, m, n);
    lemma_whole_sums(r.bottom, by, m, n);
    assert(r.grown(by) == spread(r, by).checked());
}

proof fn lemma_whole_moved(r: Rect, dx: Scalar, dy: Scalar, m: int, n: int)
    requires
        whole_rect(r, m),
        whole(dx, n),
        whole(dy, n),
        0 <= n,
        m + n <= 0x100_0000,
    ensures
        moves_within(r, dx, dy, 0),
        r.moved(dx, dy) matches Some(g) ==> whole_rect(g, m + n),
{
    lemma_whole_sums(r.left, dx, m, n);
    lemma_whole_sums(r.top, dy, m, n);
    lemma_whole_sums(r.right, dx, m, n);
    lemma_whole_sums(r.bottom, dy, m, n);
    lemma_whole_rect_more(r, m, m + n);
    if let Some(g) = r.moved(dx, dy) {
        if g != r {
            assert(g.left == r.left.sum(dx) && g.top == r.top.sum(dy));
            assert(g.right == r.right.sum(dx) && g.bottom == r.bottom.sum(dy));
        }
    }
}

proof fn lemma_whole_joined(a: Rect, b: Rect, m: int)
    requires
        whole_rect(a, m),
        whole_rect(b, m),
    ensures
        a.joined(b) matches Some(r) ==> whole_rect(r, m),
{
    assert(a.joined(b) == union(a, b).checked());
}

proof fn lemma_whole_stick(s: Stick, m: int, n: int)
    requires
        whole_stick(s, m, n),
        0 <= n,
        m + 2 * n <= 0x100_0000,
    ensures
        stick_within(s, 0),
        s.extent() matches Some(e) ==> whole_rect(e, m + 2 * n),
{
    lemma_whole_grown(s.shape, s.displacement, m, n);
    if let Some(r) = s.shape.grown(s.displacement) {
        lemma_whole_rect_more(r, m + n, m + 2 * n);
        if let Some((_, w)) = s.outline {
            lemma_whole_grown(r, w, m + n, n);
        }
    }
    if let Some((g, _, w)) = s.gate {
        lemma_whole_grown(g, w, m, n);
        if let (Some(r), Some(e)) = (s.reach(), g.grown(w)) {
            lemma_whole_rect_more(e, m + n, m + 2 * n);
            lemma_whole_joined(r, e, m + 2 * n);
        }
    }
}

proof fn lemma_whole_line(shape: Rect, line: Option<Scalar>, m: int, n: int)
    requires
        whole_rect(shape, m),
        line matches Some(w) ==> whole(w, n),
        0 <= n,
        m + 2 * n <= 0x100_0000,
    ensures
        finite(shape),
        line matches Some(w) ==> grows_within(shape, w, 0) && (shape.grown(w) matches Some(e)
            ==> whole_rect(e, m + 2 * n)),
        whole_rect(shape, m + 2 * n),
{
    lemma_whole_rect_more(shape, m, m + 2 * n);
    if let Some(w) = line {
        lemma_whole_grown(shape, w, m, n);
        if let Some(e) = shape.grown(w) {
            lemma_whole_rect_more(e, m + n, m + 2 * n);
        }
    }
}

proof fn lemma_whole_covers(inputs: Inputs, m: int, n: int)
    requires
        whole_layout(inputs, m, n),
        0 <= n,
        m + 2 * n <= 0x100_0000,
    ensures
        covers_within(inputs, 0),
        forall|k: int|
            0 <= k < inputs.extents().len() ==> ((#[trigger] inputs.extents()[k]) matches Some(e)
                ==> whole_rect(e, m + 2 * n)),
{
    let parts = inputs.extents();
    let nb = inputs.buttons@.len() as int;
    let ns = inputs.sticks@.len() as int;
    assert forall|i: int| 0 <= i < inputs.buttons@.len() implies button_within(
        #[trigger] inputs.buttons@[i],
        0,
    ) && (inputs.buttons@[i].extent() matches Some(e) ==> whole_rect(e, m + 2 * n)) by {
        let b = inputs.buttons@[i];
        let line = match b.outline {
            Some((_, w)) => Some(w),
            None => None,
        };
        lemma_whole_line(b.shape, line, m, n);
    }
    assert forall|i: int| 0 <= i < inputs.axes@.len() implies axis_within(
        #[trigger] inputs.axes@[i],
        0,
    ) && (inputs.axes@[i].extent() matches Some(e) ==> whole_rect(e, m + 2 * n)) by {
        let a = inputs.axes@[i];
        let line = match a.outline {
            Some((_, w)) => Some(w),
            None => None,
        };
        lemma_whole_line(a.shape, line, m, n);
    }
    assert forall|i: int| 0 <= i < inputs.sticks@.len() implies stick_within(
        #[trigger] inputs.sticks@[i],
        0,
    ) && (inputs.sticks@[i].extent() matches Some(e) ==> whole_rect(e, m + 2 * n)) by {
        lemma_whole_stick(inputs.sticks@[i], m, n);
    }
    assert forall|k: int| 0 <= k < parts.len() implies ((#[trigger] parts[k]) matches Some(e)
        ==> whole_rect(e, m + 2 * n)) by {
        if k < nb {
            assert(parts[k] == inputs.buttons@[k].extent());
        } else if k < nb + ns {
            assert(parts[k] == inputs.sticks@[k - nb].extent());
        } else {
            assert(parts[k] == inputs.axes@[k - nb - ns].extent());
        }
    }
}

proof fn lemma_whole_hull(parts: Seq<Option<Rect>>, m: int)
    requires
        parts.len() > 0,
        forall|k: int|
            0 <= k < parts.len() ==> ((#[trigger] parts[k]) matches Some(e) ==> whole_rect(e, m)),
    ensures
        crate::layout::hull(parts) matches Some(b) ==> whole_rect(b, m),
    decreases parts.len(),
{
    assert(parts.last() == parts[parts.len() - 1]);
    if parts.len() > 1 {
        let rest = parts.drop_last();
        assert forall|k: int| 0 <= k < rest.len() implies ((#[trigger] rest[k]) matches Some(e)
            ==> whole_rect(e, m)) by {
            assert(rest[k] == parts[k]);
        }
        lemma_whole_hull(rest, m);
        if let (Some(a), Some(b)) = (crate::layout::hull(rest), parts.last()) {
            lemma_whole_joined(a, b, m);
        }
    }
}

proof fn lemma_whole_shift(before: Inputs, after: Inputs, dx: Scalar, dy: Scalar, m: int)
    requires
        whole_layout(before, m, m),
        whole(dx, 3 * m),
        whole(dy, 3 * m),
        0 <= m <= 0x10_0000,
        after.moved_from(before, dx, dy),
    ensures
        shifts_within(before, dx, dy, 0),
        whole_layout(after, 4 * m, m),
{
    assert forall|i: int| 0 <= i < before.buttons@.len() implies moves_within(
        (#[trigger] before.buttons@[i]).shape,
        dx,
        dy,
        0,
    ) && whole_rect(after.buttons@[i].shape, 4 * m) && after.buttons@[i].outline
        == before.buttons@[i].outline by {
        assert(Some(after.buttons@[i]) == before.buttons@[i].shifted(dx, dy));
        lemma_whole_moved(before.buttons@[i].shape, dx, dy, m, 3 * m);
    }
    assert forall|i: int| 0 <= i < before.axes@.len() implies moves_within(
        (#[trigger] before.axes@[i]).shape,
        dx,
        dy,
        0,
    ) && whole_rect(after.axes@[i].shape, 4 * m) && after.axes@[i].outline
        == before.axes@[i].outline by {
        assert(Some(after.axes@[i]) == before.axes@[i].shifted(dx, dy));
        lemma_whole_moved(before.axes@[i].shape, dx, dy, m, 3 * m);
    }
    assert forall|i: int| 0 <= i < before.sticks@.len() implies moves_within(
        (#[trigger] before.sticks@[i]).shape,
        dx,
        dy,
        0,
    ) && (before.sticks@[i].gate matches Some((g, _, _)) ==> moves_within(g, dx, dy, 0))
        && whole_stick(after.sticks@[i], 4 * m, m) by {
        let b = before.sticks@[i];
        let c = after.sticks@[i];
        assert(Some(c) == b.shifted(dx, dy));
        assert(whole_stick(b, m, m));
        lemma_whole_moved(b.shape, dx, dy, m, 3 * m);
        if let (Some((g, _, _)), Some((h, _, _))) = (b.gate, c.gate) {
            assert(g.moved(dx, dy) == Some(h));
            lemma_whole_moved(g, dx, dy, m, 3 * m);
        }
    }
    assert forall|i: int| 0 <= i < after.buttons@.len() implies ({
        let b = #[trigger] after.buttons@[i];
        whole_rect(b.shape, 4 * m) && (b.outline matches Some((_, w)) ==> whole(w, m))
    }) by {
        assert(moves_within(before.buttons@[i].shape, dx, dy, 0));
    }
    assert forall|i: int| 0 <= i < after.axes@.len() implies ({
        let a = #[trigger] after.axes@[i];
        whole_rect(a.shape, 4 * m) && (a.outline matches Some((_, w)) ==> whole(w, m))
    }) by {
        assert(moves_within(before.axes@[i].shape, dx, dy, 0));
    }
    assert forall|i: int| 0 <= i < after.sticks@.len() implies whole_stick(
        #[trigger] after.sticks@[i],
        4 * m,
        m,
    ) by {
        assert(moves_within(before.sticks@[i].shape, dx, dy, 0));
    }
}

/// A layout in whole pixels, up to 2^20 of them, has its bounds exactly at the origin after
/// minimizing, with the size they had; minimizing once more then moves nothing.
pub proof fn lemma_whole_minimized(before: Inputs, after: Inputs, again: Inputs)
    requires
        before.extents().len() > 0,
        whole_layout(before, 0x10_0000, 0x10_0000),
        crate::layout::hull(before.extents()) matches Some(b) && after.moved_from(
            before,
            b.left.negated(),
            b.top.negated(),
        ),
        crate::layout::hull(after.extents()) matches Some(a) ==> again.moved_from(
            after,
            a.left.negated(),
            a.top.negated(),
        ),
    ensures
        crate::layout::hull(after.extents()) matches Some(a) && at_origin(
            a,
            crate::layout::hull(before.extents())->0,
            0,
        ),
        again.buttons@ == after.buttons@,
        again.sticks@ == after.sticks@,
        again.axes@ == after.axes@,
{
    let m = 0x10_0000int;
    let b = crate::layout::hull(before.extents())->0;
    lemma_whole_covers(before, m, m);
    lemma_whole_hull(before.extents(), 3 * m);
    lemma_whole_negated(b.left, 3 * m);
    lemma_whole_negated(b.top, 3 * m);
    lemma_whole_shift(before, after, b.left.negated(), b.top.negated(), m);
    lemma_whole_covers(after, 4 * m, m);
    lemma_minimized_within(before, after, 0);
    let a = crate::layout::hull(after.extents())->0;
    lemma_whole_hull(after.extents(), 6 * m);
    lemma_minimize_settled(after, again);
}

} // verus!
