//! How far the items of a layout reach, and what that makes of its bounds and of its image.

use crate::gamepad::{Backend, Gamepad};
use crate::layout::{Axis, Button, Color, ColorPair, Config, Inputs, Rect, Stick};
use crate::scalar::Scalar;
use vstd::prelude::*;

verus! {

/// The edges of a rectangle in units of 2^-149: left, top, right and bottom.
pub type Edges = (int, int, int, int);

/// The edges of a rectangle.
pub open spec fn edges(r: Rect) -> Edges {
    (r.left.value(), r.top.value(), r.right.value(), r.bottom.value())
}

/// Edges moved outwards by `by`.
pub open spec fn wider(e: Edges, by: int) -> Edges {
    (e.0 - by, e.1 - by, e.2 + by, e.3 + by)
}

/// The least edges around two rectangles.
pub open spec fn around(a: Edges, b: Edges) -> Edges {
    (
        if a.0 < b.0 {
            a.0
        } else {
            b.0
        },
        if a.1 < b.1 {
            a.1
        } else {
            b.1
        },
        if a.2 < b.2 {
            b.2
        } else {
            a.2
        },
        if a.3 < b.3 {
            b.3
        } else {
            a.3
        },
    )
}

/// Whether two numbers are at most a 2^23rd of `m` apart.
pub open spec fn next_to(a: int, b: int, m: int) -> bool {
    0x80_0000 * crate::precision::size(a - b) <= m
}

/// Whether the edges of two rectangles are at most a 2^23rd of `m` apart.
pub open spec fn agree(a: Edges, b: Edges, m: int) -> bool {
    next_to(a.0, b.0, m) && next_to(a.1, b.1, m) && next_to(a.2, b.2, m) && next_to(a.3, b.3, m)
}

/// Whether no edge is further than `m` from the origin.
pub open spec fn within(e: Edges, m: int) -> bool {
    &&& crate::precision::size(e.0) <= m
    &&& crate::precision::size(e.1) <= m
    &&& crate::precision::size(e.2) <= m
    &&& crate::precision::size(e.3) <= m
}

/// How wide the line of a pair of colors is.
pub open spec fn pair_line(outline: Option<(ColorPair, Scalar)>) -> int {
    match outline {
        Some((_, w)) => w.value(),
        None => 0,
    }
}

/// How wide the line of a color is.
pub open spec fn line(outline: Option<(Color, Scalar)>) -> int {
    match outline {
        Some((_, w)) => w.value(),
        None => 0,
    }
}

/// What a button covers: its shape, and its line around it.
pub open spec fn button_reach(b: Button) -> Edges {
    wider(edges(b.shape), pair_line(b.outline))
}

/// What a gauge covers: its shape, and its line around it.
pub open spec fn axis_reach(a: Axis) -> Edges {
    wider(edges(a.shape), line(a.outline))
}

/// What a stick covers: its shape moved by its displacement either way, its line around that, and
/// its gate with the line of that.
pub open spec fn stick_reach(s: Stick) -> Edges {
    let moving = wider(edges(s.shape), s.displacement.value() + pair_line(s.outline));
    match s.gate {
        Some((g, _, w)) => around(moving, wider(edges(g), w.value())),
        None => moving,
    }
}

/// Whether a shape is a rectangle, and its line a length.
pub open spec fn sound_button(b: Button) -> bool {
    b.shape.valid() && (b.outline matches Some((_, w)) ==> crate::layout::length(w))
}

/// Whether a shape is a rectangle, and its line a length.
pub open spec fn sound_axis(a: Axis) -> bool {
    a.shape.valid() && (a.outline matches Some((_, w)) ==> crate::layout::length(w))
}

/// Whether the shapes of a stick are rectangles, and its lines and displacement lengths.
pub open spec fn sound_stick(s: Stick) -> bool {
    &&& s.shape.valid()
    &&& crate::layout::length(s.displacement)
    &&& s.outline matches Some((_, w)) ==> crate::layout::length(w)
    &&& s.gate matches Some((g, _, w)) ==> g.valid() && crate::layout::length(w)
}

/// Growing a rectangle moves each edge outwards, but for a 2^24th of where it comes to lie.
proof fn lemma_grown_edges(r: Rect, by: Scalar, m: int)
    requires
        r.valid(),
        crate::layout::length(by),
        r.grown(by) matches Some(g) && within(edges(g), m),
    ensures
        ({
            let g = edges(r.grown(by)->0);
            let w = wider(edges(r), by.value());
            &&& 0x100_0000 * crate::precision::size(g.0 - w.0) <= m
            &&& 0x100_0000 * crate::precision::size(g.1 - w.1) <= m
            &&& 0x100_0000 * crate::precision::size(g.2 - w.2) <= m
            &&& 0x100_0000 * crate::precision::size(g.3 - w.3) <= m
        }),
        r.grown(by)->0.valid(),
        r.grown(by)->0.covers(r),
{
    let g = r.grown(by)->0;
    crate::layout::lemma_grown_covers(r, by);
    crate::layout::lemma_negated(by);
    assert(g.left == r.left.difference(by) && g.top == r.top.difference(by));
    assert(g.right == r.right.sum(by) && g.bottom == r.bottom.sum(by));
    crate::arith::lemma_sum_error(r.left, by.negated());
    crate::arith::lemma_sum_error(r.top, by.negated());
    crate::arith::lemma_sum_error(r.right, by);
    crate::arith::lemma_sum_error(r.bottom, by);
}

/// The bounds of a button are its shape with its line around it.
pub proof fn lemma_button_bounds(b: Button, m: int)
    requires
        sound_button(b),
        b.extent() matches Some(e) && within(edges(e), m),
    ensures
        agree(edges(b.extent()->0), button_reach(b), m),
{
    if let Some((_, w)) = b.outline {
        lemma_grown_edges(b.shape, w, m);
    }
}

/// The bounds of a gauge are its shape with its line around it.
pub proof fn lemma_axis_bounds(a: Axis, m: int)
    requires
        sound_axis(a),
        a.extent() matches Some(e) && within(edges(e), m),
    ensures
        agree(edges(a.extent()->0), axis_reach(a), m),
{
    if let Some((_, w)) = a.outline {
        lemma_grown_edges(a.shape, w, m);
    }
}

proof fn lemma_between(outer: Rect, inner: Rect, shape: Rect, m: int)
    requires
        outer.covers(inner),
        inner.covers(shape),
        within(edges(outer), m),
        within(edges(shape), m),
    ensures
        within(edges(inner), m),
{
}

proof fn lemma_joined_edges(a: Rect, b: Rect)
    requires
        a.valid(),
        b.valid(),
        a.joined(b) is Some,
    ensures
        edges(a.joined(b)->0) == around(edges(a), edges(b)),
        a.joined(b)->0.covers(a),
        a.joined(b)->0.covers(b),
{
}

proof fn lemma_around_agree(a: Edges, b: Edges, c: Edges, d: Edges, m: int)
    requires
        agree(a, c, m),
        agree(b, d, m),
    ensures
        agree(around(a, b), around(c, d), m),
{
}

proof fn lemma_reach_covers(s: Stick)
    requires
        sound_stick(s),
        s.reach() is Some,
    ensures
        s.shape.grown(s.displacement) is Some,
        s.shape.grown(s.displacement)->0.valid(),
        s.shape.grown(s.displacement)->0.covers(s.shape),
        s.reach()->0.valid(),
        s.reach()->0.covers(s.shape.grown(s.displacement)->0),
        s.reach()->0.covers(s.shape),
        s.outline matches Some((_, w)) ==> s.shape.grown(s.displacement)->0.grown(w)
            == s.reach(),
        s.outline is None ==> s.shape.grown(s.displacement) == s.reach(),
{
    crate::layout::lemma_grown_covers(s.shape, s.displacement);
    let r = s.shape.grown(s.displacement)->0;
    if let Some((_, w)) = s.outline {
        crate::layout::lemma_grown_covers(r, w);
    }
}

proof fn lemma_reach_edges(s: Stick, m: int)
    requires
        sound_stick(s),
        s.reach() matches Some(e) && within(edges(e), m),
        within(edges(s.shape), m),
    ensures
        agree(
            edges(s.reach()->0),
            wider(edges(s.shape), s.displacement.value() + pair_line(s.outline)),
            m,
        ),
{
    let reach = s.reach()->0;
    lemma_reach_covers(s);
    let r = s.shape.grown(s.displacement)->0;
    lemma_between(reach, r, s.shape, m);
    lemma_grown_edges(s.shape, s.displacement, m);
    if let Some((_, w)) = s.outline {
        lemma_grown_edges(r, w, m);
    }
}

/// The bounds of a stick are its shape with its displacement all around, its line around that
/// wherever it moves, and its gate with the line of that.
pub proof fn lemma_stick_bounds(s: Stick, m: int)
    requires
        sound_stick(s),
        s.extent() matches Some(e) && within(edges(e), m),
        within(edges(s.shape), m),
        s.gate matches Some((g, _, _)) ==> within(edges(g), m),
    ensures
        agree(edges(s.extent()->0), stick_reach(s), m),
        s.extent()->0.valid(),
{
    let e = s.extent()->0;
    lemma_reach_covers(s);
    let reach = s.reach()->0;
    match s.gate {
        Some((g, _, w)) => {
            crate::layout::lemma_grown_covers(g, w);
            let outer = g.grown(w)->0;
            lemma_joined_edges(reach, outer);
            lemma_between(e, outer, g, m);
            lemma_between(e, reach, s.shape, m);
            lemma_grown_edges(g, w, m);
            lemma_reach_edges(s, m);
            lemma_around_agree(
                edges(reach),
                edges(outer),
                wider(edges(s.shape), s.displacement.value() + pair_line(s.outline)),
                wider(edges(g), w.value()),
                m,
            );
        },
        None => {
            lemma_reach_edges(s, m);
        },
    }
}

/// A stick stays within its bounds wherever it moves, whether or not it has a gate: they cover its
/// shape with the line around it, moved by at most its displacement along either axis.
pub proof fn lemma_stick_room(s: Stick, cx: int, cy: int, m: int)
    requires
        sound_stick(s),
        s.extent() matches Some(e) && within(edges(e), m),
        within(edges(s.shape), m),
        s.gate matches Some((g, _, _)) ==> within(edges(g), m),
        crate::precision::size(cx) <= s.displacement.value(),
        crate::precision::size(cy) <= s.displacement.value(),
    ensures
        ({
            let e = edges(s.extent()->0);
            let w = match s.outline {
                Some((_, w)) => w.value(),
                None => 0,
            };
            &&& 0x80_0000 * (e.0 - (s.shape.left.value() + cx - w)) <= m
            &&& 0x80_0000 * (e.1 - (s.shape.top.value() + cy - w)) <= m
            &&& 0x80_0000 * ((s.shape.right.value() + cx + w) - e.2) <= m
            &&& 0x80_0000 * ((s.shape.bottom.value() + cy + w) - e.3) <= m
        }),
{
    lemma_stick_bounds(s, m);
}

// ---------------------------------------------------------------------------
// Layouts
// ---------------------------------------------------------------------------

/// How many items a layout has.
pub open spec fn items(inputs: Inputs) -> nat {
    inputs.buttons@.len() + inputs.sticks@.len() + inputs.axes@.len()
}

/// What item `k` of a layout covers, counting buttons, then sticks, then gauges.
pub open spec fn item_reach(inputs: Inputs, k: int) -> Edges {
    let nb = inputs.buttons@.len() as int;
    let ns = inputs.sticks@.len() as int;
    if k < nb {
        button_reach(inputs.buttons@[k])
    } else if k < nb + ns {
        stick_reach(inputs.sticks@[k - nb])
    } else {
        axis_reach(inputs.axes@[k - nb - ns])
    }
}

/// Whether every item of a layout is sound, and none has an outline further than `m` from the
/// origin.
pub open spec fn sound_within(inputs: Inputs, m: int) -> bool {
    &&& forall|i: int|
        0 <= i < inputs.buttons@.len() ==> sound_button(#[trigger] inputs.buttons@[i]) && within(
            edges(inputs.buttons@[i].shape),
            m,
        )
    &&& forall|i: int|
        0 <= i < inputs.axes@.len() ==> sound_axis(#[trigger] inputs.axes@[i]) && within(
            edges(inputs.axes@[i].shape),
            m,
        )
    &&& forall|i: int|
        0 <= i < inputs.sticks@.len() ==> {
            let s = #[trigger] inputs.sticks@[i];
            &&& sound_stick(s)
            &&& within(edges(s.shape), m)
            &&& s.gate matches Some((g, _, _)) ==> within(edges(g), m)
        }
}

/// Whether `a` lies within `b`, but for a 2^23rd of `m`.
pub open spec fn lies_in(a: Edges, b: Edges, m: int) -> bool {
    &&& 0x80_0000 * (b.0 - a.0) <= m
    &&& 0x80_0000 * (b.1 - a.1) <= m
    &&& 0x80_0000 * (a.2 - b.2) <= m
    &&& 0x80_0000 * (a.3 - b.3) <= m
}

proof fn lemma_hull_reached(parts: Seq<Option<Rect>>)
    requires
        parts.len() > 0,
        crate::layout::hull(parts) is Some,
        forall|k: int| 0 <= k < parts.len() ==> ((#[trigger] parts[k]) matches Some(r) ==> r.valid()),
    ensures
        ({
            let h = edges(crate::layout::hull(parts)->0);
            &&& exists|k: int|
                0 <= k < parts.len() && (#[trigger] parts[k]) is Some && edges(parts[k]->0).0 == h.0
            &&& exists|k: int|
                0 <= k < parts.len() && (#[trigger] parts[k]) is Some && edges(parts[k]->0).1 == h.1
            &&& exists|k: int|
                0 <= k < parts.len() && (#[trigger] parts[k]) is Some && edges(parts[k]->0).2 == h.2
            &&& exists|k: int|
                0 <= k < parts.len() && (#[trigger] parts[k]) is Some && edges(parts[k]->0).3 == h.3
        }),
    decreases parts.len(),
{
    let n = parts.len() - 1;
    if n == 0 {
        assert(parts[0] is Some);
    } else {
        let rest = parts.drop_last();
        assert forall|k: int| 0 <= k < rest.len() implies ((#[trigger] rest[k]) matches Some(r)
            ==> r.valid()) by {
            assert(rest[k] == parts[k]);
        }
        lemma_hull_reached(rest);
        crate::layout::lemma_hull_covers(rest, 0);
        let a = crate::layout::hull(rest)->0;
        let b = parts.last()->0;
        assert(parts.last() == parts[n]);
        lemma_joined_edges(a, b);
        let h = edges(crate::layout::hull(parts)->0);
        let k0 = choose|k: int|
            0 <= k < rest.len() && (#[trigger] rest[k]) is Some && edges(rest[k]->0).0 == edges(a).0;
        let k1 = choose|k: int|
            0 <= k < rest.len() && (#[trigger] rest[k]) is Some && edges(rest[k]->0).1 == edges(a).1;
        let k2 = choose|k: int|
            0 <= k < rest.len() && (#[trigger] rest[k]) is Some && edges(rest[k]->0).2 == edges(a).2;
        let k3 = choose|k: int|
            0 <= k < rest.len() && (#[trigger] rest[k]) is Some && edges(rest[k]->0).3 == edges(a).3;
        assert(rest[k0] == parts[k0] && rest[k1] == parts[k1]);
        assert(rest[k2] == parts[k2] && rest[k3] == parts[k3]);
    }
}

proof fn lemma_sound(inputs: Inputs, m: int)
    requires
        sound_within(inputs, m),
    ensures
        inputs.outlined(),
{
}

proof fn lemma_item(inputs: Inputs, m: int, k: int)
    requires
        sound_within(inputs, m),
        0 <= k < items(inputs),
        inputs.extents()[k] matches Some(e) && within(edges(e), m),
    ensures
        agree(edges(inputs.extents()[k]->0), item_reach(inputs, k), m),
{
    let nb = inputs.buttons@.len() as int;
    let ns = inputs.sticks@.len() as int;
    if k < nb {
        assert(inputs.extents()[k] == inputs.buttons@[k].extent());
        assert(sound_button(inputs.buttons@[k]));
        lemma_button_bounds(inputs.buttons@[k], m);
    } else if k < nb + ns {
        assert(inputs.extents()[k] == inputs.sticks@[k - nb].extent());
        assert(sound_stick(inputs.sticks@[k - nb]));
        lemma_stick_bounds(inputs.sticks@[k - nb], m);
    } else {
        assert(inputs.extents()[k] == inputs.axes@[k - nb - ns].extent());
        assert(sound_axis(inputs.axes@[k - nb - ns]));
        lemma_axis_bounds(inputs.axes@[k - nb - ns], m);
    }
}

proof fn lemma_item_within(inputs: Inputs, m: int, k: int)
    requires
        sound_within(inputs, m),
        0 <= k < items(inputs),
        crate::layout::hull(inputs.extents()) matches Some(b) && within(edges(b), m),
    ensures
        inputs.extents()[k] matches Some(e) && within(edges(e), m),
        crate::layout::hull(inputs.extents())->0.covers(inputs.extents()[k]->0),
{
    let b = crate::layout::hull(inputs.extents())->0;
    let nb = inputs.buttons@.len() as int;
    let ns = inputs.sticks@.len() as int;
    lemma_sound(inputs, m);
    crate::layout::lemma_bounds_cover(inputs, k);
    let e = inputs.extents()[k]->0;
    if k < nb {
        let i = inputs.buttons@[k];
        assert(inputs.extents()[k] == i.extent());
        assert(sound_button(i));
        if let Some((_, w)) = i.outline {
            crate::layout::lemma_grown_covers(i.shape, w);
        }
        lemma_between(b, e, i.shape, m);
    } else if k < nb + ns {
        let i = inputs.sticks@[k - nb];
        assert(inputs.extents()[k] == i.extent());
        assert(sound_stick(i));
        crate::layout::lemma_stick_covers(i);
        lemma_between(b, e, i.shape, m);
    } else {
        let i = inputs.axes@[k - nb - ns];
        assert(inputs.extents()[k] == i.extent());
        assert(sound_axis(i));
        if let Some((_, w)) = i.outline {
            crate::layout::lemma_grown_covers(i.shape, w);
        }
        lemma_between(b, e, i.shape, m);
    }
}

/// The bounds of a layout cover everything that an item of it covers.
pub proof fn lemma_layout_covered(inputs: Inputs, k: int, m: int)
    requires
        sound_within(inputs, m),
        0 <= k < items(inputs),
        crate::layout::hull(inputs.extents()) matches Some(b) && within(edges(b), m),
    ensures
        lies_in(item_reach(inputs, k), edges(crate::layout::hull(inputs.extents())->0), m),
{
    lemma_item_within(inputs, m, k);
    lemma_item(inputs, m, k);
}

/// The bounds of a layout are no larger than they have to be: every edge is the edge of some item.
pub proof fn lemma_layout_tight(inputs: Inputs, m: int)
    requires
        sound_within(inputs, m),
        items(inputs) > 0,
        crate::layout::hull(inputs.extents()) matches Some(b) && within(edges(b), m),
    ensures
        ({
            let b = edges(crate::layout::hull(inputs.extents())->0);
            let n = items(inputs);
            &&& exists|k: int| 0 <= k < n && next_to((#[trigger] item_reach(inputs, k)).0, b.0, m)
            &&& exists|k: int| 0 <= k < n && next_to((#[trigger] item_reach(inputs, k)).1, b.1, m)
            &&& exists|k: int| 0 <= k < n && next_to((#[trigger] item_reach(inputs, k)).2, b.2, m)
            &&& exists|k: int| 0 <= k < n && next_to((#[trigger] item_reach(inputs, k)).3, b.3, m)
        }),
{
    let parts = inputs.extents();
    let b = edges(crate::layout::hull(parts)->0);
    assert(parts.len() == items(inputs));
    lemma_sound(inputs, m);
    crate::layout::lemma_extents_valid(inputs);
    lemma_hull_reached(parts);
    let k0 = choose|k: int|
        0 <= k < parts.len() && (#[trigger] parts[k]) is Some && edges(parts[k]->0).0 == b.0;
    let k1 = choose|k: int|
        0 <= k < parts.len() && (#[trigger] parts[k]) is Some && edges(parts[k]->0).1 == b.1;
    let k2 = choose|k: int|
        0 <= k < parts.len() && (#[trigger] parts[k]) is Some && edges(parts[k]->0).2 == b.2;
    let k3 = choose|k: int|
        0 <= k < parts.len() && (#[trigger] parts[k]) is Some && edges(parts[k]->0).3 == b.3;
    lemma_item_within(inputs, m, k0);
    lemma_item_within(inputs, m, k1);
    lemma_item_within(inputs, m, k2);
    lemma_item_within(inputs, m, k3);
    lemma_item(inputs, m, k0);
    lemma_item(inputs, m, k1);
    lemma_item(inputs, m, k2);
    lemma_item(inputs, m, k3);
    assert(next_to(item_reach(inputs, k0).0, b.0, m));
    assert(next_to(item_reach(inputs, k1).1, b.1, m));
    assert(next_to(item_reach(inputs, k2).2, b.2, m));
    assert(next_to(item_reach(inputs, k3).3, b.3, m));
}

/// A layout without items takes the square from (0, 0) to (100, 100).
pub proof fn lemma_empty_layout(inputs: Inputs)
    requires
        items(inputs) == 0,
    ensures
        crate::layout::hull(inputs.extents()) matches Some(b) && edges(b) == (
            0int,
            0int,
            100 * crate::scalar::unit() as int,
            100 * crate::scalar::unit() as int,
        ),
{
    assert(inputs.extents().len() == 0);
    crate::scalar::lemma_one();
    vstd::arithmetic::power2::lemma2_to64();
    vstd::arithmetic::power2::lemma_pow2_adds(17, 132);
    crate::scalar::lemma_pattern(132, 0xc8_0000);
    let p = vstd::arithmetic::power2::pow2(132);
    assert(0xc8_0000 * p == 100 * (0x2_0000 * p)) by (nonlinear_arith);
}

proof fn lemma_pixel_errors(v: int, s: int, p: int, n: int, u: int)
    requires
        u > 0,
        0 <= p,
        p <= n * u,
        n > 1 ==> (n - 1) * u < p,
        n >= 1,
        0x100_0000 * crate::precision::size(p * u - v * s) <= (p + 0x80_0000) * u,
    ensures
        0x100_0000 * (v * s - n * (u * u)) <= (n * u + 0x80_0000) * u,
        n > 1 ==> 0x100_0000 * ((n - 1) * (u * u) - v * s) <= (n * u + 0x80_0000) * u,
{
    let uu = u * u;
    assert(p * u <= n * uu) by (nonlinear_arith)
        requires
            p <= n * u,
            u > 0,
            uu == u * u,
    ;
    assert((p + 0x80_0000) * u <= (n * u + 0x80_0000) * u) by (nonlinear_arith)
        requires
            p <= n * u,
            u > 0,
    ;
    if n > 1 {
        assert((n - 1) * uu <= p * u) by (nonlinear_arith)
            requires
                (n - 1) * u <= p,
                u > 0,
                uu == u * u,
        ;
    }
}

/// Whether `n` pixels are what it takes to cover a length of `v` at a resolution of `s`, but for
/// rounding: at least as many, and not one more.
pub open spec fn takes_pixels(n: int, v: int, s: int) -> bool {
    let u = crate::scalar::unit() as int;
    &&& n >= 1
    &&& 0x100_0000 * (v * s - n * (u * u)) <= (n * u + 0x80_0000) * u
    &&& n > 1 ==> 0x100_0000 * ((n - 1) * (u * u) - v * s) <= (n * u + 0x80_0000) * u
}

proof fn lemma_takes_pixels(v: Scalar, s: Scalar)
    requires
        v.product(s).is_finite(),
        0 <= v.product(s).value() <= u32::MAX * crate::scalar::unit(),
    ensures
        takes_pixels(v.product(s).covered() as int, v.value(), s.value()),
{
    let u = crate::scalar::unit() as int;
    let p = v.product(s);
    crate::scalar::lemma_one();
    crate::gamepad::lemma_image_covers(p);
    crate::precision::lemma_product_error(v, s);
    lemma_pixel_errors(v.value(), s.value(), p.value(), p.covered() as int, u);
}

/// The image of a gamepad is as wide as the right edge of its layout at its scale, and as high as
/// the bottom edge, in whole pixels.
pub proof fn lemma_image_size<B: Backend>(gamepad: Gamepad<B>)
    requires
        gamepad.size() is Some,
    ensures
        crate::layout::hull(gamepad.inputs.extents()) matches Some(b) && {
            let (w, h) = gamepad.size()->0;
            let most = u32::MAX * crate::scalar::unit();
            let across = b.right.product(gamepad.scale);
            let down = b.bottom.product(gamepad.scale);
            &&& across.is_finite() && 0 <= across.value() <= most ==> takes_pixels(
                w as int,
                b.right.value(),
                gamepad.scale.value(),
            )
            &&& down.is_finite() && 0 <= down.value() <= most ==> takes_pixels(
                h as int,
                b.bottom.value(),
                gamepad.scale.value(),
            )
        },
{
    let b = crate::layout::hull(gamepad.inputs.extents())->0;
    let most = u32::MAX * crate::scalar::unit();
    let across = b.right.product(gamepad.scale);
    let down = b.bottom.product(gamepad.scale);
    if across.is_finite() && 0 <= across.value() <= most {
        lemma_takes_pixels(b.right, gamepad.scale);
    }
    if down.is_finite() && 0 <= down.value() <= most {
        lemma_takes_pixels(b.bottom, gamepad.scale);
    }
}

// ---------------------------------------------------------------------------
// Layouts at the origin
// ---------------------------------------------------------------------------

/// Edges moved by `dx` and `dy`.
pub open spec fn at(e: Edges, dx: int, dy: int) -> Edges {
    (e.0 + dx, e.1 + dy, e.2 + dx, e.3 + dy)
}

proof fn lemma_moved_edges(r: Rect, dx: Scalar, dy: Scalar, m: int)
    requires
        r.valid(),
        dx.is_finite(),
        dy.is_finite(),
        r.moved(dx, dy) matches Some(g) && within(edges(g), m),
    ensures
        agree(edges(r.moved(dx, dy)->0), at(edges(r), dx.value(), dy.value()), m),
{
    let zero = Scalar { bits: 0 };
    crate::scalar::lemma_one();
    if dx.equals(zero) && dy.equals(zero) {
        assert(zero.value() == 0);
        assert(r.moved(dx, dy) == Some(r));
    } else {
        let g = r.moved(dx, dy)->0;
        assert(g.left == r.left.sum(dx) && g.top == r.top.sum(dy));
        assert(g.right == r.right.sum(dx) && g.bottom == r.bottom.sum(dy));
        crate::arith::lemma_sum_error(r.left, dx);
        crate::arith::lemma_sum_error(r.top, dy);
        crate::arith::lemma_sum_error(r.right, dx);
        crate::arith::lemma_sum_error(r.bottom, dy);
    }
}

/// A layout at the origin has the items of the layout as it was written, in order and unchanged but
/// for their place: all outlines, gates too, have moved by what the corner of the bounds was away
/// from the origin.
pub proof fn lemma_arranged_items(config: Config, inputs: Inputs, i: int, m: int)
    requires
        config.arranged(inputs),
        sound_within(config.inputs, m),
        sound_within(inputs, m),
        crate::layout::hull(config.inputs.extents()) matches Some(b) && b.valid(),
        0 <= i,
    ensures
        inputs.buttons@.len() == config.inputs.buttons@.len(),
        inputs.sticks@.len() == config.inputs.sticks@.len(),
        inputs.axes@.len() == config.inputs.axes@.len(),
        ({
            let corner = edges(crate::layout::hull(config.inputs.extents())->0);
            &&& i < inputs.buttons@.len() ==> {
                let (a, b) = (config.inputs.buttons@[i], inputs.buttons@[i]);
                &&& a == (Button { shape: a.shape, ..b })
                &&& agree(edges(b.shape), at(edges(a.shape), -corner.0, -corner.1), m)
            }
            &&& i < inputs.axes@.len() ==> {
                let (a, b) = (config.inputs.axes@[i], inputs.axes@[i]);
                &&& a == (Axis { shape: a.shape, ..b })
                &&& agree(edges(b.shape), at(edges(a.shape), -corner.0, -corner.1), m)
            }
            &&& i < inputs.sticks@.len() ==> {
                let (a, b) = (config.inputs.sticks@[i], inputs.sticks@[i]);
                &&& a == (Stick { shape: a.shape, gate: a.gate, ..b })
                &&& agree(edges(b.shape), at(edges(a.shape), -corner.0, -corner.1), m)
                &&& match (a.gate, b.gate) {
                    (Some((g, c, w)), Some((h, d, v))) => {
                        &&& c == d && w == v
                        &&& agree(edges(h), at(edges(g), -corner.0, -corner.1), m)
                    },
                    (None, None) => true,
                    _ => false,
                }
            }
        }),
{
    let b = crate::layout::hull(config.inputs.extents())->0;
    let dx = b.left.negated();
    let dy = b.top.negated();
    let from = config.inputs;
    crate::layout::lemma_negated(b.left);
    crate::layout::lemma_negated(b.top);
    if i < inputs.buttons@.len() {
        assert(Some(inputs.buttons@[i]) == from.buttons@[i].shifted(dx, dy));
        assert(sound_button(from.buttons@[i]) && sound_button(inputs.buttons@[i]));
        lemma_moved_edges(from.buttons@[i].shape, dx, dy, m);
    }
    if i < inputs.axes@.len() {
        assert(Some(inputs.axes@[i]) == from.axes@[i].shifted(dx, dy));
        assert(sound_axis(from.axes@[i]) && sound_axis(inputs.axes@[i]));
        lemma_moved_edges(from.axes@[i].shape, dx, dy, m);
    }
    if i < inputs.sticks@.len() {
        let s = from.sticks@[i];
        let t = inputs.sticks@[i];
        assert(Some(t) == s.shifted(dx, dy));
        assert(sound_stick(s) && sound_stick(t));
        lemma_moved_edges(s.shape, dx, dy, m);
        if let (Some((g, _, _)), Some((h, _, _))) = (s.gate, t.gate) {
            assert(g.moved(dx, dy) == Some(h));
            lemma_moved_edges(g, dx, dy, m);
        }
    }
}

} // verus!
