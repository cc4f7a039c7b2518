//! What the list of drawing operations shows of each item of a layout.

use crate::layout::{Axis, FillDir, InputState, Inputs, Rect};
use crate::render::{DrawOp, Outline};
use crate::scalar::Scalar;
use vstd::prelude::*;

verus! {

/// The outline that an operation is about; none for clearing the image.
pub open spec fn about(op: DrawOp) -> Option<Outline> {
    match op {
        DrawOp::Clear => None,
        DrawOp::Fill { outline, .. } => Some(outline),
        DrawOp::Stroke { outline, .. } => Some(outline),
        DrawOp::FillPart { outline, .. } => Some(outline),
        DrawOp::Label { button, .. } => Some(Outline::Button(button)),
    }
}

/// The operations that are about an outline, in order.
pub open spec fn drawn_for(ops: Seq<DrawOp>, item: Outline) -> Seq<DrawOp>
    decreases ops.len(),
{
    if ops.len() == 0 {
        seq![]
    } else if about(ops.last()) == Some(item) {
        drawn_for(ops.drop_last(), item).push(ops.last())
    } else {
        drawn_for(ops.drop_last(), item)
    }
}

proof fn lemma_drawn_concat(a: Seq<DrawOp>, b: Seq<DrawOp>, item: Outline)
    ensures
        drawn_for(a + b, item) == drawn_for(a, item) + drawn_for(b, item),
    decreases b.len(),
{
    if b.len() == 0 {
        assert(a + b == a);
    } else {
        lemma_drawn_concat(a, b.drop_last(), item);
        assert((a + b).drop_last() == a + b.drop_last());
        assert((a + b).last() == b.last());
    }
}

proof fn lemma_drawn_all(ops: Seq<DrawOp>, item: Outline)
    requires
        forall|k: int| 0 <= k < ops.len() ==> about(#[trigger] ops[k]) == Some(item),
    ensures
        drawn_for(ops, item) == ops,
    decreases ops.len(),
{
    if ops.len() > 0 {
        lemma_drawn_all(ops.drop_last(), item);
        assert(ops.drop_last().push(ops.last()) == ops);
    }
}

proof fn lemma_drawn_none(ops: Seq<DrawOp>, item: Outline)
    requires
        forall|k: int| 0 <= k < ops.len() ==> about(#[trigger] ops[k]) != Some(item),
    ensures
        drawn_for(ops, item) == Seq::<DrawOp>::empty(),
    decreases ops.len(),
{
    if ops.len() > 0 {
        lemma_drawn_none(ops.drop_last(), item);
    }
}

/// The place of an outline in the order of drawing: its kind, the place of its item, and what of
/// the item it is.
pub open spec fn rank(item: Outline) -> (int, int, int) {
    match item {
        Outline::Button(i) => (0, i as int, 0),
        Outline::Axis(i) => (1, i as int, 0),
        Outline::Gate(i) => (2, i as int, 0),
        Outline::Stick(i) => (2, i as int, 1),
    }
}

/// Whether what has rank `a` is drawn before, or together with, what has rank `b`.
pub open spec fn no_later(a: (int, int, int), b: (int, int, int)) -> bool {
    a.0 < b.0 || (a.0 == b.0 && (a.1 < b.1 || (a.1 == b.1 && a.2 <= b.2)))
}

/// Whether operations, each about an outline of the given kind and one of the first `n` items, are
/// in the order of drawing.
spec fn in_order(ops: Seq<DrawOp>, kind: int, n: int) -> bool {
    &&& forall|k: int|
        0 <= k < ops.len() ==> (about(#[trigger] ops[k]) matches Some(o) && rank(o).0 == kind
            && 0 <= rank(o).1 < n)
    &&& forall|k: int, m: int|
        0 <= k <= m < ops.len() ==> no_later(
            rank(about(#[trigger] ops[k])->0),
            rank(about(#[trigger] ops[m])->0),
        )
}

proof fn lemma_order_concat(a: Seq<DrawOp>, b: Seq<DrawOp>, kind: int, n: int)
    requires
        in_order(a, kind, n),
        forall|k: int|
            0 <= k < b.len() ==> (about(#[trigger] b[k]) matches Some(o) && rank(o).0 == kind
                && rank(o).1 == n),
        forall|k: int, m: int|
            0 <= k <= m < b.len() ==> no_later(
                rank(about(#[trigger] b[k])->0),
                rank(about(#[trigger] b[m])->0),
            ),
        0 <= n,
    ensures
        in_order(a + b, kind, n + 1),
{
    let c = a + b;
    assert forall|k: int| 0 <= k < c.len() implies (about(#[trigger] c[k]) matches Some(o) && rank(
        o,
    ).0 == kind && 0 <= rank(o).1 < n + 1) by {
        if k < a.len() {
            assert(c[k] == a[k]);
        } else {
            assert(c[k] == b[k - a.len()]);
        }
    }
    assert forall|k: int, m: int| 0 <= k <= m < c.len() implies no_later(
        rank(about(#[trigger] c[k])->0),
        rank(about(#[trigger] c[m])->0),
    ) by {
        if m < a.len() {
            assert(c[k] == a[k] && c[m] == a[m]);
        } else if k >= a.len() {
            assert(c[k] == b[k - a.len()] && c[m] == b[m - a.len()]);
        } else {
            assert(c[k] == a[k] && c[m] == b[m - a.len()]);
        }
    }
}

proof fn lemma_button_about(
    b: crate::layout::Button,
    i: usize,
    pressed: bool,
    scale: Scalar,
    labels: bool,
)
    ensures
        ({
            let ops = crate::render::button_ops(b, i, pressed, scale, labels);
            forall|k: int|
                0 <= k < ops.len() ==> about(#[trigger] ops[k]) == Some(Outline::Button(i))
        }),
{
}

proof fn lemma_axis_about(a: crate::layout::Axis, i: usize, percent: Scalar)
    ensures
        ({
            let ops = crate::render::axis_ops(a, i, percent);
            forall|k: int| 0 <= k < ops.len() ==> about(#[trigger] ops[k]) == Some(Outline::Axis(i))
        }),
{
}

/// The operations of a stick that are about its gate, if it has one, and those about the stick.
spec fn gate_part(s: crate::layout::Stick, ops: Seq<DrawOp>) -> int {
    if s.gate is Some {
        1
    } else {
        0
    }
}

proof fn lemma_stick_about(s: crate::layout::Stick, i: usize, x: Scalar, y: Scalar)
    ensures
        ({
            let ops = crate::render::stick_ops(s, i, x, y);
            let g = gate_part(s, ops);
            &&& g <= ops.len()
            &&& forall|k: int|
                0 <= k < ops.len() ==> about(#[trigger] ops[k]) == Some(
                    if k < g {
                        Outline::Gate(i)
                    } else {
                        Outline::Stick(i)
                    },
                )
        }),
{
}

proof fn lemma_buttons_for(
    inputs: Inputs,
    state: InputState,
    scale: Scalar,
    labels: bool,
    n: nat,
    item: Outline,
)
    requires
        n <= inputs.buttons@.len(),
    ensures
        drawn_for(crate::render::all_buttons(inputs, state, scale, labels, n), item) == (
        match item {
            Outline::Button(i) => if i < n {
                crate::render::button_ops(
                    inputs.buttons@[i as int],
                    i,
                    state.buttons@[i as int],
                    scale,
                    labels,
                )
            } else {
                seq![]
            },
            _ => seq![],
        }),
        in_order(crate::render::all_buttons(inputs, state, scale, labels, n), 0, n as int),
    decreases n,
{
    if n > 0 {
        let m = (n - 1) as nat;
        assert(inputs.buttons.len() == inputs.buttons@.len());
        let at = m as usize;
        let last = crate::render::button_ops(
            inputs.buttons@[m as int],
            at,
            state.buttons@[m as int],
            scale,
            labels,
        );
        let before = crate::render::all_buttons(inputs, state, scale, labels, m);
        lemma_buttons_for(inputs, state, scale, labels, m, item);
        lemma_button_about(inputs.buttons@[m as int], at, state.buttons@[m as int], scale, labels);
        lemma_drawn_concat(before, last, item);
        lemma_order_concat(before, last, 0, m as int);
        if item == Outline::Button(at) {
            lemma_drawn_all(last, item);
            assert(Seq::<DrawOp>::empty() + last == last);
        } else {
            lemma_drawn_none(last, item);
        }
    }
}

proof fn lemma_axes_for(inputs: Inputs, state: InputState, n: nat, item: Outline)
    requires
        n <= inputs.axes@.len(),
    ensures
        drawn_for(crate::render::all_axes(inputs, state, n), item) == (match item {
            Outline::Axis(i) => if i < n {
                crate::render::axis_ops(inputs.axes@[i as int], i, state.axes@[i as int])
            } else {
                seq![]
            },
            _ => seq![],
        }),
        in_order(crate::render::all_axes(inputs, state, n), 1, n as int),
    decreases n,
{
    if n > 0 {
        let m = (n - 1) as nat;
        assert(inputs.axes.len() == inputs.axes@.len());
        let at = m as usize;
        let last = crate::render::axis_ops(inputs.axes@[m as int], at, state.axes@[m as int]);
        let before = crate::render::all_axes(inputs, state, m);
        lemma_axes_for(inputs, state, m, item);
        lemma_axis_about(inputs.axes@[m as int], at, state.axes@[m as int]);
        lemma_drawn_concat(before, last, item);
        lemma_order_concat(before, last, 1, m as int);
        if item == Outline::Axis(at) {
            lemma_drawn_all(last, item);
            assert(Seq::<DrawOp>::empty() + last == last);
        } else {
            lemma_drawn_none(last, item);
        }
    }
}

#[verifier::rlimit(40)]
proof fn lemma_sticks_for(inputs: Inputs, state: InputState, n: nat, item: Outline)
    requires
        n <= inputs.sticks@.len(),
    ensures
        drawn_for(crate::render::all_sticks(inputs, state, n), item) == (match item {
            Outline::Stick(i) => if i < n {
                let s = inputs.sticks@[i as int];
                let (x, y) = state.sticks@[i as int];
                let ops = crate::render::stick_ops(s, i, x, y);
                ops.skip(gate_part(s, ops))
            } else {
                seq![]
            },
            Outline::Gate(i) => if i < n {
                let s = inputs.sticks@[i as int];
                let (x, y) = state.sticks@[i as int];
                let ops = crate::render::stick_ops(s, i, x, y);
                ops.take(gate_part(s, ops))
            } else {
                seq![]
            },
            _ => seq![],
        }),
        in_order(crate::render::all_sticks(inputs, state, n), 2, n as int),
    decreases n,
{
    if n > 0 {
        let m = (n - 1) as nat;
        assert(inputs.sticks.len() == inputs.sticks@.len());
        let at = m as usize;
        let s = inputs.sticks@[m as int];
        let (x, y) = state.sticks@[m as int];
        let last = crate::render::stick_ops(s, at, x, y);
        let before = crate::render::all_sticks(inputs, state, m);
        let g = gate_part(s, last);
        lemma_sticks_for(inputs, state, m, item);
        lemma_stick_about(s, at, x, y);
        lemma_drawn_concat(before, last, item);
        lemma_order_concat(before, last, 2, m as int);
        let head = last.take(g);
        let tail = last.skip(g);
        assert(head + tail == last);
        lemma_drawn_concat(head, tail, item);
        if item == Outline::Stick(at) {
            lemma_drawn_none(head, item);
            lemma_drawn_all(tail, item);
            assert(Seq::<DrawOp>::empty() + tail == tail);
        } else if item == Outline::Gate(at) {
            lemma_drawn_all(head, item);
            lemma_drawn_none(tail, item);
            assert(Seq::<DrawOp>::empty() + head == head);
        } else {
            lemma_drawn_none(head, item);
            lemma_drawn_none(tail, item);
        }
    }
}

proof fn lemma_image_for(
    inputs: Inputs,
    state: InputState,
    scale: Scalar,
    labels: bool,
    item: Outline,
)
    ensures
        ({
            let nb = crate::render::both(inputs.buttons@.len(), state.buttons@.len());
            let na = crate::render::both(inputs.axes@.len(), state.axes@.len());
            let ns = crate::render::both(inputs.sticks@.len(), state.sticks@.len());
            drawn_for(crate::render::image_ops(inputs, state, scale, labels), item) == drawn_for(
                crate::render::all_buttons(inputs, state, scale, labels, nb),
                item,
            ) + drawn_for(crate::render::all_axes(inputs, state, na), item) + drawn_for(
                crate::render::all_sticks(inputs, state, ns),
                item,
            )
        }),
{
    let nb = crate::render::both(inputs.buttons@.len(), state.buttons@.len());
    let na = crate::render::both(inputs.axes@.len(), state.axes@.len());
    let ns = crate::render::both(inputs.sticks@.len(), state.sticks@.len());
    let clear = seq![DrawOp::Clear];
    let buttons = crate::render::all_buttons(inputs, state, scale, labels, nb);
    let axes = crate::render::all_axes(inputs, state, na);
    let sticks = crate::render::all_sticks(inputs, state, ns);
    lemma_drawn_concat(clear, buttons, item);
    lemma_drawn_concat(clear + buttons, axes, item);
    lemma_drawn_concat(clear + buttons + axes, sticks, item);
    lemma_drawn_none(clear, item);
    assert(Seq::<DrawOp>::empty() + drawn_for(buttons, item) == drawn_for(buttons, item));
}

/// The image is cleared first and never again, and then drawn in order: buttons, gauges and sticks,
/// each in the order of the layout, a gate before its stick.
pub proof fn lemma_drawing_order(
    inputs: Inputs,
    state: InputState,
    scale: Scalar,
    labels: bool,
    k: int,
    m: int,
)
    requires
        0 < k <= m < crate::render::image_ops(inputs, state, scale, labels).len(),
    ensures
        ({
            let ops = crate::render::image_ops(inputs, state, scale, labels);
            &&& ops[0] is Clear
            &&& about(ops[k]) is Some
            &&& about(ops[m]) is Some
            &&& no_later(rank(about(ops[k])->0), rank(about(ops[m])->0))
        }),
{
    let nb = crate::render::both(inputs.buttons@.len(), state.buttons@.len());
    let na = crate::render::both(inputs.axes@.len(), state.axes@.len());
    let ns = crate::render::both(inputs.sticks@.len(), state.sticks@.len());
    let buttons = crate::render::all_buttons(inputs, state, scale, labels, nb);
    let axes = crate::render::all_axes(inputs, state, na);
    let sticks = crate::render::all_sticks(inputs, state, ns);
    let ops = crate::render::image_ops(inputs, state, scale, labels);
    lemma_buttons_for(inputs, state, scale, labels, nb, Outline::Button(0));
    lemma_axes_for(inputs, state, na, Outline::Button(0));
    lemma_sticks_for(inputs, state, ns, Outline::Button(0));
    let a = 1 + buttons.len();
    let b = a + axes.len();
    assert forall|j: int| 0 < j < ops.len() implies #[trigger] ops[j] == (if j < a {
        buttons[j - 1]
    } else if j < b {
        axes[j - a]
    } else {
        sticks[j - b]
    }) by {}
    assert(ops[k] == ops[k] && ops[m] == ops[m]);
}

/// What has no reading, or is not in the layout, is not drawn.
pub proof fn lemma_nothing_else_drawn(
    inputs: Inputs,
    state: InputState,
    scale: Scalar,
    labels: bool,
    item: Outline,
)
    requires
        match item {
            Outline::Button(i) => i >= inputs.buttons@.len() || i >= state.buttons@.len(),
            Outline::Axis(i) => i >= inputs.axes@.len() || i >= state.axes@.len(),
            Outline::Stick(i) => i >= inputs.sticks@.len() || i >= state.sticks@.len(),
            Outline::Gate(i) => i >= inputs.sticks@.len() || i >= state.sticks@.len()
                || inputs.sticks@[i as int].gate is None,
        },
    ensures
        drawn_for(crate::render::image_ops(inputs, state, scale, labels), item).len() == 0,
{
    let nb = crate::render::both(inputs.buttons@.len(), state.buttons@.len());
    let na = crate::render::both(inputs.axes@.len(), state.axes@.len());
    let ns = crate::render::both(inputs.sticks@.len(), state.sticks@.len());
    lemma_image_for(inputs, state, scale, labels, item);
    lemma_buttons_for(inputs, state, scale, labels, nb, item);
    lemma_axes_for(inputs, state, na, item);
    lemma_sticks_for(inputs, state, ns, item);
}

/// A button with a reading is drawn as its fill, then its line if it has one, then its label if
/// labels are on and it has one. All of it is in the colors of a pressed button exactly while the
/// button is pressed. The label is white where the button has no color for it.
pub proof fn lemma_button_drawn(
    inputs: Inputs,
    state: InputState,
    scale: Scalar,
    labels: bool,
    i: usize,
)
    requires
        i < inputs.buttons@.len(),
        i < state.buttons@.len(),
    ensures
        ({
            let d = drawn_for(
                crate::render::image_ops(inputs, state, scale, labels),
                Outline::Button(i),
            );
            let b = inputs.buttons@[i as int];
            let pressed = state.buttons@[i as int];
            let lines: int = if b.outline is Some {
                1
            } else {
                0
            };
            let texts: int = if labels && b.label is Some {
                1
            } else {
                0
            };
            &&& d.len() == 1 + lines + texts
            &&& d[0] matches DrawOp::Fill { outline, color, offset } && outline == Outline::Button(i)
                && offset is None && color == (if pressed {
                b.fill.active
            } else {
                b.fill.inactive
            })
            &&& b.outline matches Some((colors, w)) ==> (d[1] matches DrawOp::Stroke {
                outline,
                color,
                width,
                offset,
            } && outline == Outline::Button(i) && offset is None && width == w && color == (
            if pressed {
                colors.active
            } else {
                colors.inactive
            }))
            &&& texts == 1 ==> (d.last() matches DrawOp::Label { button, color, .. } && button == i
                && match b.label_color {
                Some(pair) => color == (if pressed {
                    pair.active
                } else {
                    pair.inactive
                }),
                None => {
                    let one = crate::scalar::unit();
                    &&& color.red.value() == one
                    &&& color.green.value() == one
                    &&& color.blue.value() == one
                    &&& color.alpha.value() == one
                },
            })
        }),
{
    let nb = crate::render::both(inputs.buttons@.len(), state.buttons@.len());
    let na = crate::render::both(inputs.axes@.len(), state.axes@.len());
    let ns = crate::render::both(inputs.sticks@.len(), state.sticks@.len());
    let item = Outline::Button(i);
    lemma_image_for(inputs, state, scale, labels, item);
    lemma_buttons_for(inputs, state, scale, labels, nb, item);
    lemma_axes_for(inputs, state, na, item);
    lemma_sticks_for(inputs, state, ns, item);
    let d = drawn_for(crate::render::image_ops(inputs, state, scale, labels), item);
    let ops = crate::render::button_ops(
        inputs.buttons@[i as int],
        i,
        state.buttons@[i as int],
        scale,
        labels,
    );
    assert(d == ops);
    crate::scalar::lemma_one();
}

/// The label of a button stands in the middle of the button, and its radius is half the button's
/// width, all times the scale.
pub proof fn lemma_label_centered(
    inputs: Inputs,
    state: InputState,
    scale: Scalar,
    i: usize,
    k: int,
)
    requires
        i < inputs.buttons@.len(),
        i < state.buttons@.len(),
        inputs.buttons@[i as int].shape.valid(),
        0 <= k < drawn_for(
            crate::render::image_ops(inputs, state, scale, true),
            Outline::Button(i),
        ).len(),
    ensures
        ({
            let op = drawn_for(
                crate::render::image_ops(inputs, state, scale, true),
                Outline::Button(i),
            )[k];
            let shape = inputs.buttons@[i as int].shape;
            let left = shape.left.value();
            let right = shape.right.value();
            op matches DrawOp::Label { cx, cy, radius, .. } ==> {
                &&& cx.is_finite() ==> crate::precision::centered(
                    cx.value(),
                    left,
                    right,
                    scale.value(),
                )
                &&& cy.is_finite() ==> crate::precision::centered(
                    cy.value(),
                    shape.top.value(),
                    shape.bottom.value(),
                    scale.value(),
                )
                &&& radius.is_finite() ==> crate::precision::centered(
                    radius.value(),
                    right,
                    -left,
                    scale.value(),
                )
            }
        }),
{
    let nb = crate::render::both(inputs.buttons@.len(), state.buttons@.len());
    let na = crate::render::both(inputs.axes@.len(), state.axes@.len());
    let ns = crate::render::both(inputs.sticks@.len(), state.sticks@.len());
    let item = Outline::Button(i);
    lemma_image_for(inputs, state, scale, true, item);
    lemma_buttons_for(inputs, state, scale, true, nb, item);
    lemma_axes_for(inputs, state, na, item);
    lemma_sticks_for(inputs, state, ns, item);
    let d = drawn_for(crate::render::image_ops(inputs, state, scale, true), item);
    let b = inputs.buttons@[i as int];
    let ops = crate::render::button_ops(b, i, state.buttons@[i as int], scale, true);
    assert(d == ops);
    crate::layout::lemma_negated(b.shape.left);
    if let DrawOp::Label { cx, cy, radius, .. } = d[k] {
        if cx.is_finite() {
            crate::precision::lemma_middle(b.shape.left, b.shape.right, scale);
        }
        if cy.is_finite() {
            crate::precision::lemma_middle(b.shape.top, b.shape.bottom, scale);
        }
        if radius.is_finite() {
            crate::precision::lemma_middle(b.shape.right, b.shape.left.negated(), scale);
        }
    }
}

/// A gauge with a reading is drawn as its background, then its fill if there is something to see of
/// it, and at every level its border if it has one.
pub proof fn lemma_gauge_drawn(
    inputs: Inputs,
    state: InputState,
    scale: Scalar,
    labels: bool,
    i: usize,
)
    requires
        i < inputs.axes@.len(),
        i < state.axes@.len(),
    ensures
        ({
            let d = drawn_for(
                crate::render::image_ops(inputs, state, scale, labels),
                Outline::Axis(i),
            );
            let a = inputs.axes@[i as int];
            let lines: int = if a.outline is Some {
                1
            } else {
                0
            };
            &&& 1 + lines <= d.len() <= 2 + lines
            &&& d[0] matches DrawOp::Fill { outline, color, offset } && outline == Outline::Axis(i)
                && offset is None && color == a.fill.inactive
            &&& d.len() == 2 + lines ==> (d[1] matches DrawOp::FillPart { outline, color, .. }
                && outline == Outline::Axis(i) && color == a.fill.active)
            &&& a.outline matches Some((c, w)) ==> (d.last() matches DrawOp::Stroke {
                outline,
                color,
                width,
                offset,
            } && outline == Outline::Axis(i) && offset is None && color == c && width == w)
            &&& a.outline is None ==> forall|k: int|
                0 <= k < d.len() ==> !((#[trigger] d[k]) is Stroke)
        }),
{
    lemma_gauge_ops(inputs, state, scale, labels, i);
}

proof fn lemma_gauge_ops(
    inputs: Inputs,
    state: InputState,
    scale: Scalar,
    labels: bool,
    i: usize,
)
    requires
        i < inputs.axes@.len(),
        i < state.axes@.len(),
    ensures
        drawn_for(crate::render::image_ops(inputs, state, scale, labels), Outline::Axis(i))
            == crate::render::axis_ops(inputs.axes@[i as int], i, state.axes@[i as int]),
{
    let nb = crate::render::both(inputs.buttons@.len(), state.buttons@.len());
    let na = crate::render::both(inputs.axes@.len(), state.axes@.len());
    let ns = crate::render::both(inputs.sticks@.len(), state.sticks@.len());
    let item = Outline::Axis(i);
    lemma_image_for(inputs, state, scale, labels, item);
    lemma_buttons_for(inputs, state, scale, labels, nb, item);
    lemma_axes_for(inputs, state, na, item);
    lemma_sticks_for(inputs, state, ns, item);
    let d = drawn_for(crate::render::image_ops(inputs, state, scale, labels), item);
    assert(d =~= crate::render::axis_ops(inputs.axes@[i as int], i, state.axes@[i as int]));
}

/// Whether a reading has left the dead zone around rest along one axis or the other.
pub open spec fn away(x: int, y: int, zone: int) -> bool {
    crate::precision::size(x) >= zone || crate::precision::size(y) >= zone
}

/// A stick with a reading is drawn as its shape and then its line, if it has one, both moved
/// alike. Its gate, if it has one, is drawn where it is. All of it is in the active colors exactly
/// while the stick has left its dead zone.
pub proof fn lemma_stick_drawn(
    inputs: Inputs,
    state: InputState,
    scale: Scalar,
    labels: bool,
    i: usize,
)
    requires
        i < inputs.sticks@.len(),
        i < state.sticks@.len(),
        !inputs.sticks@[i as int].deadzone.is_nan(),
        !state.sticks@[i as int].0.is_nan(),
        !state.sticks@[i as int].1.is_nan(),
    ensures
        ({
            let all = crate::render::image_ops(inputs, state, scale, labels);
            let g = drawn_for(all, Outline::Gate(i));
            let d = drawn_for(all, Outline::Stick(i));
            let s = inputs.sticks@[i as int];
            let (x, y) = state.sticks@[i as int];
            let active = away(x.value(), y.value(), s.deadzone.value());
            &&& s.gate is None ==> g.len() == 0
            &&& s.gate matches Some((_, colors, w)) ==> {
                &&& g.len() == 1
                &&& g[0] matches DrawOp::Stroke { outline, color, width, offset }
                &&& outline == Outline::Gate(i)
                &&& offset is None
                &&& width == w
                &&& color == (if active {
                    colors.active
                } else {
                    colors.inactive
                })
            }
            &&& d.len() == 1 + (if s.outline is Some {
                1int
            } else {
                0int
            })
            &&& d[0] matches DrawOp::Fill { outline, color, offset } && outline == Outline::Stick(i)
                && offset is Some && color == (if active {
                s.fill.active
            } else {
                s.fill.inactive
            })
            &&& s.outline matches Some((colors, w)) ==> {
                &&& d[1] matches DrawOp::Stroke { outline, color, width, offset }
                &&& outline == Outline::Stick(i)
                &&& offset == d[0]->Fill_offset
                &&& width == w
                &&& color == (if active {
                    colors.active
                } else {
                    colors.inactive
                })
            }
        }),
{
    let s = inputs.sticks@[i as int];
    let (x, y) = state.sticks@[i as int];
    lemma_stick_list(inputs, state, scale, labels, i);
    crate::layout::lemma_negated(s.deadzone);
    assert(crate::render::deflected(s, x, y) == away(x.value(), y.value(), s.deadzone.value()));
}

proof fn lemma_stick_list(
    inputs: Inputs,
    state: InputState,
    scale: Scalar,
    labels: bool,
    i: usize,
)
    requires
        i < inputs.sticks@.len(),
        i < state.sticks@.len(),
    ensures
        ({
            let all = crate::render::image_ops(inputs, state, scale, labels);
            let s = inputs.sticks@[i as int];
            let (x, y) = state.sticks@[i as int];
            let ops = crate::render::stick_ops(s, i, x, y);
            &&& drawn_for(all, Outline::Gate(i)) == ops.take(gate_part(s, ops))
            &&& drawn_for(all, Outline::Stick(i)) == ops.skip(gate_part(s, ops))
        }),
{
    let nb = crate::render::both(inputs.buttons@.len(), state.buttons@.len());
    let na = crate::render::both(inputs.axes@.len(), state.axes@.len());
    let ns = crate::render::both(inputs.sticks@.len(), state.sticks@.len());
    let s = inputs.sticks@[i as int];
    let (x, y) = state.sticks@[i as int];
    let ops = crate::render::stick_ops(s, i, x, y);
    lemma_image_for(inputs, state, scale, labels, Outline::Gate(i));
    lemma_buttons_for(inputs, state, scale, labels, nb, Outline::Gate(i));
    lemma_axes_for(inputs, state, na, Outline::Gate(i));
    lemma_sticks_for(inputs, state, ns, Outline::Gate(i));
    lemma_image_for(inputs, state, scale, labels, Outline::Stick(i));
    lemma_buttons_for(inputs, state, scale, labels, nb, Outline::Stick(i));
    lemma_axes_for(inputs, state, na, Outline::Stick(i));
    lemma_sticks_for(inputs, state, ns, Outline::Stick(i));
    let all = crate::render::image_ops(inputs, state, scale, labels);
    assert(drawn_for(all, Outline::Gate(i)) =~= ops.take(gate_part(s, ops)));
    assert(drawn_for(all, Outline::Stick(i)) =~= ops.skip(gate_part(s, ops)));
}

/// Whether `r` is the part of `shape` that a gauge fills at the level `q`, a share of 2^149 units:
/// three edges are those of the shape, and one has moved in proportion to the level. Gauges that
/// fill towards the bottom or the right are full at level 0, the others at level 1. `m` is how far
/// the shape reaches from the origin.
pub open spec fn filled_to(r: Rect, shape: Rect, direction: FillDir, q: int, m: int) -> bool {
    let one = crate::scalar::unit() as int;
    let (left, right) = (shape.left.value(), shape.right.value());
    let (top, bottom) = (shape.top.value(), shape.bottom.value());
    match direction {
        FillDir::TopToBottom => {
            &&& r.left == shape.left && r.top == shape.top && r.right == shape.right
            &&& r.bottom.is_finite() ==> crate::precision::moved_by_share(
                r.bottom.value(),
                bottom,
                top,
                bottom,
                q,
                true,
                m,
            )
        },
        FillDir::LeftToRight => {
            &&& r.left == shape.left && r.top == shape.top && r.bottom == shape.bottom
            &&& r.right.is_finite() ==> crate::precision::moved_by_share(
                r.right.value(),
                right,
                left,
                right,
                q,
                true,
                m,
            )
        },
        FillDir::BottomToTop => {
            &&& r.left == shape.left && r.right == shape.right && r.bottom == shape.bottom
            &&& r.top.is_finite() ==> crate::precision::moved_by_share(
                r.top.value(),
                top,
                top,
                bottom,
                one - q,
                false,
                m,
            )
        },
        FillDir::RightToLeft => {
            &&& r.top == shape.top && r.right == shape.right && r.bottom == shape.bottom
            &&& r.left.is_finite() ==> crate::precision::moved_by_share(
                r.left.value(),
                left,
                left,
                right,
                one - q,
                false,
                m,
            )
        },
    }
}

/// Whether a rectangle is more than a twentieth of a unit wide and high.
pub open spec fn seen(r: Rect) -> bool {
    &&& r.valid()
    &&& 20 * (r.right.value() - r.left.value()) > crate::scalar::unit()
    &&& 20 * (r.bottom.value() - r.top.value()) > crate::scalar::unit()
}

/// Whether a rectangle is at most a twentieth of a unit wide or high, but for rounding.
pub open spec fn barely_seen(r: Rect) -> bool {
    ||| !r.valid()
    ||| 0x4_0000 * (20 * (r.right.value() - r.left.value()) - crate::scalar::unit())
        <= crate::scalar::unit()
    ||| 0x4_0000 * (20 * (r.bottom.value() - r.top.value()) - crate::scalar::unit())
        <= crate::scalar::unit()
}

proof fn lemma_least_fill()
    ensures
        ({
            let least = crate::scalar::magnitude(crate::render::LEAST_FILL as nat);
            let u = crate::scalar::unit();
            &&& 20 * least > u
            &&& 0x10_0000 * (20 * least - u) <= u
        }),
        (Scalar { bits: crate::render::LEAST_FILL }).value() == crate::scalar::magnitude(
            crate::render::LEAST_FILL as nat,
        ),
{
    vstd::arithmetic::power2::lemma2_to64();
    vstd::arithmetic::power2::lemma_pow2_adds(28, 121);
    vstd::arithmetic::power2::lemma_pow2_pos(121);
    crate::scalar::lemma_pattern(121, 0xcc_cccd);
    let p = vstd::arithmetic::power2::pow2(121);
    assert(0xcc_cccd * p * 20 == 0x1000_0004 * p) by (nonlinear_arith);
}

proof fn lemma_length_seen(near: Scalar, far: Scalar)
    requires
        near.is_finite(),
        far.is_finite(),
        0 <= far.value() - near.value() < crate::layout::too_far(),
    ensures
        ({
            let least = Scalar { bits: crate::render::LEAST_FILL };
            let u = crate::scalar::unit();
            let d = far.value() - near.value();
            &&& least.below(far.difference(near)) ==> 20 * d > u
            &&& !least.below(far.difference(near)) ==> 0x4_0000 * (20 * d - u) <= u
        }),
{
    let least = Scalar { bits: crate::render::LEAST_FILL };
    lemma_least_fill();
    crate::scalar::lemma_one();
    crate::render::lemma_distance(near, far);
    crate::layout::lemma_negated(near);
    crate::arith::lemma_sum_error(far, near.negated());
    let d = (far.value() - near.value()) as nat;
    let w = far.difference(near);
    if d <= least.value() {
        reveal(Scalar::sum);
        assert(d <= crate::scalar::magnitude(crate::render::LEAST_FILL as nat) * 1)
            by (nonlinear_arith)
            requires
                d <= crate::scalar::magnitude(crate::render::LEAST_FILL as nat),
        ;
        crate::arith::lemma_nearest_at_most(d, 1, crate::render::LEAST_FILL as nat);
        if w.low() < crate::render::LEAST_FILL {
            crate::scalar::lemma_magnitude_order(w.low(), crate::render::LEAST_FILL as nat);
        }
    }
}

proof fn lemma_seen(r: Rect)
    ensures
        crate::render::visible(r) ==> seen(r),
        !crate::render::visible(r) ==> barely_seen(r),
{
    if r.valid() {
        lemma_length_seen(r.left, r.right);
        lemma_length_seen(r.top, r.bottom);
    }
}

proof fn lemma_filled_to(shape: Rect, direction: FillDir, level: Scalar, q: int, m: int)
    requires
        shape.valid(),
        crate::precision::size(shape.left.value()) <= m,
        crate::precision::size(shape.top.value()) <= m,
        crate::precision::size(shape.right.value()) <= m,
        crate::precision::size(shape.bottom.value()) <= m,
        level.is_finite(),
        crate::precision::size(level.value()) <= 2 * crate::scalar::unit(),
        crate::precision::size(q) <= 2 * crate::scalar::unit(),
        0x100_0000 * crate::precision::size(level.value() - q) <= 3 * crate::scalar::unit(),
    ensures
        filled_to(crate::render::filled(shape, direction, level), shape, direction, q, m),
{
    let one = crate::scalar::unit() as int;
    crate::render::lemma_distance(shape.left, shape.right);
    crate::render::lemma_distance(shape.top, shape.bottom);
    crate::precision::lemma_rest_near(level, q, 3 * one);
    let rest = (Scalar { bits: crate::scalar::ONE }).difference(level);
    let r = crate::render::filled(shape, direction, level);
    match direction {
        FillDir::TopToBottom => if r.bottom.is_finite() {
            crate::precision::lemma_moved_by_share(
                shape.bottom,
                shape.top,
                shape.bottom,
                level,
                q,
                true,
                m,
            );
        },
        FillDir::LeftToRight => if r.right.is_finite() {
            crate::precision::lemma_moved_by_share(
                shape.right,
                shape.left,
                shape.right,
                level,
                q,
                true,
                m,
            );
        },
        FillDir::BottomToTop => if r.top.is_finite() {
            crate::precision::lemma_moved_by_share(
                shape.top,
                shape.top,
                shape.bottom,
                rest,
                one - q,
                false,
                m,
            );
        },
        FillDir::RightToLeft => if r.left.is_finite() {
            crate::precision::lemma_moved_by_share(
                shape.left,
                shape.left,
                shape.right,
                rest,
                one - q,
                false,
                m,
            );
        },
    }
}

proof fn lemma_level(a: Axis, percent: Scalar)
    requires
        percent.is_finite(),
        crate::precision::size(percent.value()) <= crate::scalar::unit(),
    ensures
        ({
            let level = crate::render::level(a, percent);
            let one = crate::scalar::unit() as int;
            let q = if a.axis.invert {
                one - percent.value()
            } else {
                percent.value()
            };
            &&& level.is_finite()
            &&& crate::precision::size(level.value()) <= 2 * one
            &&& crate::precision::size(q) <= 2 * one
            &&& 0x100_0000 * crate::precision::size(level.value() - q) <= 3 * one
        }),
{
    crate::scalar::lemma_one();
    crate::layout::lemma_negated(percent);
    crate::precision::lemma_rest_near(percent, percent.value(), 0);
    crate::lettered::lemma_sum_bounded(
        Scalar { bits: crate::scalar::ONE },
        percent.negated(),
        2,
    );
}

/// Whether the operations of a gauge with the reading `p` fill `r`, where there is something to see
/// of that.
pub open spec fn shows_fill(d: Seq<DrawOp>, a: Axis, p: int, r: Rect, m: int) -> bool {
    let q = if a.axis.invert {
        crate::scalar::unit() - p
    } else {
        p
    };
    &&& filled_to(r, a.shape, a.direction, q, m)
    &&& d.len() > 1 && d[1] is FillPart ==> d[1]->FillPart_rect == r && seen(r)
    &&& d.len() == 1 || !(d[1] is FillPart) ==> barely_seen(r)
}

/// A gauge is filled in proportion to its reading, or to what 1 leaves over it where the layout
/// flips the gauge. The fill is drawn as soon as there is something to see of it.
pub proof fn lemma_gauge_filled(
    inputs: Inputs,
    state: InputState,
    scale: Scalar,
    labels: bool,
    i: usize,
    m: int,
)
    requires
        i < inputs.axes@.len(),
        i < state.axes@.len(),
        state.axes@[i as int].is_finite(),
        crate::precision::size(state.axes@[i as int].value()) <= crate::scalar::unit(),
        ({
            let shape = inputs.axes@[i as int].shape;
            &&& shape.valid()
            &&& crate::precision::size(shape.left.value()) <= m
            &&& crate::precision::size(shape.top.value()) <= m
            &&& crate::precision::size(shape.right.value()) <= m
            &&& crate::precision::size(shape.bottom.value()) <= m
        }),
    ensures
        exists|r: Rect| #[trigger]
            shows_fill(
                drawn_for(
                    crate::render::image_ops(inputs, state, scale, labels),
                    Outline::Axis(i),
                ),
                inputs.axes@[i as int],
                state.axes@[i as int].value(),
                r,
                m,
            ),
{
    lemma_gauge_ops(inputs, state, scale, labels, i);
    let a = inputs.axes@[i as int];
    let percent = state.axes@[i as int];
    let level = crate::render::level(a, percent);
    let one = crate::scalar::unit() as int;
    let q = if a.axis.invert {
        one - percent.value()
    } else {
        percent.value()
    };
    lemma_level(a, percent);
    let r = crate::render::filled(a.shape, a.direction, level);
    lemma_filled_to(a.shape, a.direction, level, q, m);
    lemma_seen(r);
    assert(shows_fill(
        drawn_for(crate::render::image_ops(inputs, state, scale, labels), Outline::Axis(i)),
        a,
        percent.value(),
        r,
        m,
    ));
}

/// A stick moves along with its reading, by its displacement at most, and so that it stays in a
/// circle: `x * sqrt(1 - y^2 / 2)` across and `y * sqrt(1 - x^2 / 2)` down, times the displacement.
/// Where the layout flips the stick's horizontal axis, it moves the other way along both.
pub proof fn lemma_stick_moved(
    inputs: Inputs,
    state: InputState,
    scale: Scalar,
    labels: bool,
    i: usize,
)
    requires
        i < inputs.sticks@.len(),
        i < state.sticks@.len(),
        inputs.sticks@[i as int].displacement.is_finite(),
        crate::render::within_unit(state.sticks@[i as int].0),
        crate::render::within_unit(state.sticks@[i as int].1),
    ensures
        ({
            let s = inputs.sticks@[i as int];
            let x = state.sticks@[i as int].0.value();
            let y = state.sticks@[i as int].1.value();
            let d = drawn_for(
                crate::render::image_ops(inputs, state, scale, labels),
                Outline::Stick(i),
            );
            let across = if s.x.invert {
                -x
            } else {
                x
            };
            let down = if s.x.invert {
                -y
            } else {
                y
            };
            &&& d.len() > 0
            &&& d[0] matches DrawOp::Fill { offset: Some((cx, cy)), .. }
            &&& cx.is_finite() && cy.is_finite()
            &&& crate::precision::travels(cx.value(), s.displacement.value(), across, down)
            &&& crate::precision::travels(cy.value(), s.displacement.value(), down, across)
        }),
{
    lemma_stick_list(inputs, state, scale, labels, i);
    let s = inputs.sticks@[i as int];
    let (x, y) = state.sticks@[i as int];
    let fx = crate::render::flipped(x, s.x.invert);
    let fy = crate::render::flipped(y, s.x.invert);
    crate::layout::lemma_negated(x);
    crate::layout::lemma_negated(y);
    crate::precision::lemma_travels(s.displacement, fx, fy);
    crate::precision::lemma_travels(s.displacement, fy, fx);
}

} // verus!
