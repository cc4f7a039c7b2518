//! What an image of the overlay shows, as a list of drawing operations.

use crate::gamepad::{Backend, Gamepad};
use crate::label::TWO;
use crate::layout::{Axis, Button, Color, FillDir, InputState, Inputs, Rect, Stick};
use crate::scalar::{Scalar, ONE};
use vstd::prelude::*;

verus! {

/// The bit pattern of 0.05: the least width and height of a visible fill.
pub const LEAST_FILL: u32 = 0x3d4c_cccd;

/// An outline of the layout.
#[derive(Debug, Clone, Copy, PartialEq, Eq, Structural)]
pub enum Outline {
    Button(usize),
    Axis(usize),
    Stick(usize),
    Gate(usize),
}

/// One step of drawing an image. All lengths but those of a label are in layout units.
#[derive(Debug, Clone, Copy, PartialEq, Eq)]
pub enum DrawOp {
    /// Makes the whole image transparent.
    Clear,
    /// Fills an outline, moved by `offset`.
    Fill { outline: Outline, color: Color, offset: Option<(Scalar, Scalar)> },
    /// Draws a line along an outline, moved by `offset`.
    Stroke { outline: Outline, color: Color, width: Scalar, offset: Option<(Scalar, Scalar)> },
    /// Fills the part of an outline that lies in `rect`.
    FillPart { outline: Outline, rect: Rect, color: Color },
    /// Writes the label of a button, around a center and with a radius in pixels.
    Label { button: usize, cx: Scalar, cy: Scalar, radius: Scalar, color: Color },
}

/// White.
pub open spec fn white() -> Color {
    let one = Scalar { bits: ONE };
    Color { red: one, green: one, blue: one, alpha: one }
}

// ---------------------------------------------------------------------------
// Buttons
// ---------------------------------------------------------------------------

/// The middle between two edges, in pixels.
pub open spec fn middle(a: Scalar, b: Scalar, scale: Scalar) -> Scalar {
    a.sum(b).quotient(Scalar { bits: TWO }).product(scale)
}

/// How a button's label is drawn.
pub open spec fn label_op(b: Button, i: usize, pressed: bool, scale: Scalar) -> DrawOp {
    DrawOp::Label {
        button: i,
        cx: middle(b.shape.left, b.shape.right, scale),
        cy: middle(b.shape.top, b.shape.bottom, scale),
        radius: b.shape.right.difference(b.shape.left).quotient(Scalar { bits: TWO }).product(scale),
        color: match b.label_color {
            Some(pair) => pair.of(pressed),
            None => white(),
        },
    }
}

/// How a button is drawn: its fill, its line, its label.
pub open spec fn button_ops(
    b: Button,
    i: usize,
    pressed: bool,
    scale: Scalar,
    labels: bool,
) -> Seq<DrawOp> {
    let fill = DrawOp::Fill {
        outline: Outline::Button(i),
        color: b.fill.of(pressed),
        offset: None,
    };
    let line: Seq<DrawOp> = match b.outline {
        Some((colors, width)) => seq![
            DrawOp::Stroke {
                outline: Outline::Button(i),
                color: colors.of(pressed),
                width,
                offset: None,
            },
        ],
        None => seq![],
    };
    let label: Seq<DrawOp> = if labels && b.label is Some {
        seq![label_op(b, i, pressed, scale)]
    } else {
        seq![]
    };
    seq![fill] + line + label
}

fn draw_button(b: &Button, i: usize, pressed: bool, scale: Scalar, labels: bool) -> (r: Vec<DrawOp>)
    ensures
        r@ == button_ops(*b, i, pressed, scale, labels),
{
    let mut r: Vec<DrawOp> = Vec::new();
    r.push(
        DrawOp::Fill { outline: Outline::Button(i), color: b.fill.get(pressed), offset: None },
    );
    if let Some((colors, width)) = b.outline {
        r.push(
            DrawOp::Stroke {
                outline: Outline::Button(i),
                color: colors.get(pressed),
                width,
                offset: None,
            },
        );
    }
    if labels && b.label.is_some() {
        let two = Scalar { bits: TWO };
        let one = Scalar { bits: ONE };
        let color = match b.label_color {
            Some(pair) => pair.get(pressed),
            None => Color { red: one, green: one, blue: one, alpha: one },
        };
        r.push(
            DrawOp::Label {
                button: i,
                cx: b.shape.left.plus(b.shape.right).over(two).times(scale),
                cy: b.shape.top.plus(b.shape.bottom).over(two).times(scale),
                radius: b.shape.width().over(two).times(scale),
                color,
            },
        );
    }
    r
}

// ---------------------------------------------------------------------------
// Gauges
// ---------------------------------------------------------------------------

/// The part of a gauge that is filled at the level `percent`.
pub open spec fn filled(shape: Rect, direction: FillDir, percent: Scalar) -> Rect {
    let width = shape.right.difference(shape.left);
    let height = shape.bottom.difference(shape.top);
    let rest = (Scalar { bits: ONE }).difference(percent);
    match direction {
        FillDir::TopToBottom => Rect {
            bottom: shape.bottom.difference(height.product(percent)),
            ..shape
        },
        FillDir::LeftToRight => Rect {
            right: shape.right.difference(width.product(percent)),
            ..shape
        },
        FillDir::BottomToTop => Rect { top: shape.top.sum(height.product(rest)), ..shape },
        FillDir::RightToLeft => Rect { left: shape.left.sum(width.product(rest)), ..shape },
    }
}

/// Whether a fill is a rectangle large enough to see.
pub open spec fn visible(r: Rect) -> bool {
    let least = Scalar { bits: LEAST_FILL };
    &&& r.valid()
    &&& least.below(r.right.difference(r.left))
    &&& least.below(r.bottom.difference(r.top))
}

/// The level that a gauge shows.
pub open spec fn level(a: Axis, percent: Scalar) -> Scalar {
    if a.axis.invert {
        (Scalar { bits: ONE }).difference(percent)
    } else {
        percent
    }
}

/// How a gauge is drawn: its background, its fill, its line.
pub open spec fn axis_ops(a: Axis, i: usize, percent: Scalar) -> Seq<DrawOp> {
    let back = DrawOp::Fill { outline: Outline::Axis(i), color: a.fill.inactive, offset: None };
    let part = filled(a.shape, a.direction, level(a, percent));
    let fill: Seq<DrawOp> = if visible(part) {
        seq![DrawOp::FillPart { outline: Outline::Axis(i), rect: part, color: a.fill.active }]
    } else {
        seq![]
    };
    let line: Seq<DrawOp> = match a.outline {
        Some((color, width)) => seq![
            DrawOp::Stroke { outline: Outline::Axis(i), color, width, offset: None },
        ],
        None => seq![],
    };
    seq![back] + fill + line
}

fn fill_rect(shape: Rect, direction: FillDir, percent: Scalar) -> (r: Rect)
    ensures
        r == filled(shape, direction, percent),
{
    let one = Scalar { bits: ONE };
    let mut r = shape;
    match direction {
        FillDir::TopToBottom => {
            r.bottom = shape.bottom.minus(shape.height().times(percent));
        },
        FillDir::LeftToRight => {
            r.right = shape.right.minus(shape.width().times(percent));
        },
        FillDir::BottomToTop => {
            r.top = shape.top.plus(shape.height().times(one.minus(percent)));
        },
        FillDir::RightToLeft => {
            r.left = shape.left.plus(shape.width().times(one.minus(percent)));
        },
    }
    r
}

fn draw_axis(a: &Axis, i: usize, percent: Scalar) -> (r: Vec<DrawOp>)
    ensures
        r@ == axis_ops(*a, i, percent),
{
    let mut r: Vec<DrawOp> = Vec::new();
    r.push(DrawOp::Fill { outline: Outline::Axis(i), color: a.fill.inactive, offset: None });
    let shown = if a.axis.invert {
        Scalar { bits: ONE }.minus(percent)
    } else {
        percent
    };
    let part = fill_rect(a.shape, a.direction, shown);
    let least = Scalar { bits: LEAST_FILL };
    if let Some(rect) = Rect::from_ltrb(part.left, part.top, part.right, part.bottom) {
        if least.lt(rect.width()) && least.lt(rect.height()) {
            r.push(DrawOp::FillPart { outline: Outline::Axis(i), rect, color: a.fill.active });
        }
    }
    if let Some((color, width)) = a.outline {
        r.push(DrawOp::Stroke { outline: Outline::Axis(i), color, width, offset: None });
    }
    r
}

// ---------------------------------------------------------------------------
// Sticks
// ---------------------------------------------------------------------------

/// Whether a stick has left its dead zone.
pub open spec fn deflected(s: Stick, x: Scalar, y: Scalar) -> bool {
    let least = s.deadzone.negated();
    !(least.below(x) && x.below(s.deadzone) && least.below(y) && y.below(s.deadzone))
}

/// How far a stick's shape moves along one axis, which is at `along`, with the other axis at
/// `across`.
pub open spec fn travel(displacement: Scalar, along: Scalar, across: Scalar) -> Scalar {
    displacement.product(along).product(
        (Scalar { bits: ONE }).difference(
            across.product(across).quotient(Scalar { bits: TWO }),
        ).root(),
    )
}

/// A reading of a stick, flipped if the layout says so.
pub open spec fn flipped(v: Scalar, invert: bool) -> Scalar {
    if invert {
        v.negated()
    } else {
        v
    }
}

/// How a stick is drawn: its gate, its moving shape, the line of that.
pub open spec fn stick_ops(s: Stick, i: usize, x: Scalar, y: Scalar) -> Seq<DrawOp> {
    let active = deflected(s, x, y);
    let fx = flipped(x, s.x.invert);
    let fy = flipped(y, s.x.invert);
    let offset = Some((travel(s.displacement, fx, fy), travel(s.displacement, fy, fx)));
    let gate: Seq<DrawOp> = match s.gate {
        Some((_, colors, width)) => seq![
            DrawOp::Stroke {
                outline: Outline::Gate(i),
                color: colors.of(active),
                width,
                offset: None,
            },
        ],
        None => seq![],
    };
    let fill = DrawOp::Fill { outline: Outline::Stick(i), color: s.fill.of(active), offset };
    let line: Seq<DrawOp> = match s.outline {
        Some((colors, width)) => seq![
            DrawOp::Stroke { outline: Outline::Stick(i), color: colors.of(active), width, offset },
        ],
        None => seq![],
    };
    gate + seq![fill] + line
}

fn move_along(displacement: Scalar, along: Scalar, across: Scalar) -> (r: Scalar)
    ensures
        r == travel(displacement, along, across),
{
    let one = Scalar { bits: ONE };
    let two = Scalar { bits: TWO };
    displacement.times(along).times(one.minus(across.times(across).over(two)).sqrt())
}

fn draw_stick(s: &Stick, i: usize, x: Scalar, y: Scalar) -> (r: Vec<DrawOp>)
    ensures
        r@ == stick_ops(*s, i, x, y),
{
    let zone = s.deadzone;
    let least = zone.neg();
    let active = !(least.lt(x) && x.lt(zone) && least.lt(y) && y.lt(zone));
    let fx = if s.x.invert {
        x.neg()
    } else {
        x
    };
    let fy = if s.x.invert {
        y.neg()
    } else {
        y
    };
    let offset = Some(
        (move_along(s.displacement, fx, fy), move_along(s.displacement, fy, fx)),
    );
    let mut r: Vec<DrawOp> = Vec::new();
    if let Some((_, colors, width)) = s.gate {
        r.push(
            DrawOp::Stroke {
                outline: Outline::Gate(i),
                color: colors.get(active),
                width,
                offset: None,
            },
        );
    }
    r.push(DrawOp::Fill { outline: Outline::Stick(i), color: s.fill.get(active), offset });
    if let Some((colors, width)) = s.outline {
        r.push(
            DrawOp::Stroke { outline: Outline::Stick(i), color: colors.get(active), width, offset },
        );
    }
    r
}

// ---------------------------------------------------------------------------
// The image
// ---------------------------------------------------------------------------

/// How the first `n` buttons are drawn.
pub open spec fn all_buttons(
    inputs: Inputs,
    state: InputState,
    scale: Scalar,
    labels: bool,
    n: nat,
) -> Seq<DrawOp>
    decreases n,
{
    if n == 0 {
        seq![]
    } else {
        all_buttons(inputs, state, scale, labels, (n - 1) as nat) + button_ops(
            inputs.buttons@[n - 1],
            (n - 1) as usize,
            state.buttons@[n - 1],
            scale,
            labels,
        )
    }
}

/// How the first `n` gauges are drawn.
pub open spec fn all_axes(inputs: Inputs, state: InputState, n: nat) -> Seq<DrawOp>
    decreases n,
{
    if n == 0 {
        seq![]
    } else {
        all_axes(inputs, state, (n - 1) as nat) + axis_ops(
            inputs.axes@[n - 1],
            (n - 1) as usize,
            state.axes@[n - 1],
        )
    }
}

/// How the first `n` sticks are drawn.
pub open spec fn all_sticks(inputs: Inputs, state: InputState, n: nat) -> Seq<DrawOp>
    decreases n,
{
    if n == 0 {
        seq![]
    } else {
        all_sticks(inputs, state, (n - 1) as nat) + stick_ops(
            inputs.sticks@[n - 1],
            (n - 1) as usize,
            state.sticks@[n - 1].0,
            state.sticks@[n - 1].1,
        )
    }
}

/// The lesser of two counts.
pub open spec fn both(a: nat, b: nat) -> nat {
    if a < b {
        a
    } else {
        b
    }
}

/// How the overlay is drawn: buttons, then gauges, then sticks, on a transparent image. Items
/// without a reading are left out.
pub open spec fn image_ops(
    inputs: Inputs,
    state: InputState,
    scale: Scalar,
    labels: bool,
) -> Seq<DrawOp> {
    seq![DrawOp::Clear] + all_buttons(
        inputs,
        state,
        scale,
        labels,
        both(inputs.buttons@.len(), state.buttons@.len()),
    ) + all_axes(inputs, state, both(inputs.axes@.len(), state.axes@.len())) + all_sticks(
        inputs,
        state,
        both(inputs.sticks@.len(), state.sticks@.len()),
    )
}

impl<B: Backend> Gamepad<B> {
    fn draw_buttons(&self) -> (r: Vec<DrawOp>)
        ensures
            r@ == all_buttons(
                self.inputs,
                self.input_state,
                self.scale,
                self.render_labels,
                both(self.inputs.buttons@.len(), self.input_state.buttons@.len()),
            ),
    {
        let mut r: Vec<DrawOp> = Vec::new();
        let mut i: usize = 0;
        while i < self.inputs.buttons.len() && i < self.input_state.buttons.len()
            invariant
                i <= self.inputs.buttons@.len(),
                i <= self.input_state.buttons@.len(),
                r@ == all_buttons(
                    self.inputs,
                    self.input_state,
                    self.scale,
                    self.render_labels,
                    i as nat,
                ),
            decreases self.inputs.buttons@.len() - i,
        {
            let mut ops = draw_button(
                &self.inputs.buttons[i],
                i,
                self.input_state.buttons[i],
                self.scale,
                self.render_labels,
            );
            r.append(&mut ops);
            i += 1;
        }
        r
    }

    fn draw_axes(&self) -> (r: Vec<DrawOp>)
        ensures
            r@ == all_axes(
                self.inputs,
                self.input_state,
                both(self.inputs.axes@.len(), self.input_state.axes@.len()),
            ),
    {
        let mut r: Vec<DrawOp> = Vec::new();
        let mut i: usize = 0;
        while i < self.inputs.axes.len() && i < self.input_state.axes.len()
            invariant
                i <= self.inputs.axes@.len(),
                i <= self.input_state.axes@.len(),
                r@ == all_axes(self.inputs, self.input_state, i as nat),
            decreases self.inputs.axes@.len() - i,
        {
            let mut ops = draw_axis(&self.inputs.axes[i], i, self.input_state.axes[i]);
            r.append(&mut ops);
            i += 1;
        }
        r
    }

    fn draw_sticks(&self) -> (r: Vec<DrawOp>)
        ensures
            r@ == all_sticks(
                self.inputs,
                self.input_state,
                both(self.inputs.sticks@.len(), self.input_state.sticks@.len()),
            ),
    {
        let mut r: Vec<DrawOp> = Vec::new();
        let mut i: usize = 0;
        while i < self.inputs.sticks.len() && i < self.input_state.sticks.len()
            invariant
                i <= self.inputs.sticks@.len(),
                i <= self.input_state.sticks@.len(),
                r@ == all_sticks(self.inputs, self.input_state, i as nat),
            decreases self.inputs.sticks@.len() - i,
        {
            let (x, y) = self.input_state.sticks[i];
            let mut ops = draw_stick(&self.inputs.sticks[i], i, x, y);
            r.append(&mut ops);
            i += 1;
        }
        r
    }

    /// How the overlay is drawn.
    pub fn render(&self) -> (r: Vec<DrawOp>)
        ensures
            r@ == image_ops(self.inputs, self.input_state, self.scale, self.render_labels),
    {
        let mut r: Vec<DrawOp> = Vec::new();
        r.push(DrawOp::Clear);
        let mut ops = self.draw_buttons();
        r.append(&mut ops);
        let mut ops = self.draw_axes();
        r.append(&mut ops);
        let mut ops = self.draw_sticks();
        r.append(&mut ops);
        r
    }
}

// ---------------------------------------------------------------------------
// What an image shows
// ---------------------------------------------------------------------------

/// Whether `part` stands in `all` as it is.
pub open spec fn shows(all: Seq<DrawOp>, part: Seq<DrawOp>) -> bool {
    exists|from: int|
        0 <= from && from + part.len() <= all.len() && #[trigger] all.subrange(
            from,
            from + part.len(),
        ) == part
}

proof fn lemma_shows_more(before: Seq<DrawOp>, all: Seq<DrawOp>, after: Seq<DrawOp>, part: Seq<DrawOp>)
    requires
        shows(all, part),
    ensures
        shows(before + all + after, part),
{
    let from = choose|from: int|
        0 <= from && from + part.len() <= all.len() && #[trigger] all.subrange(
            from,
            from + part.len(),
        ) == part;
    let at = before.len() + from;
    assert((before + all + after).subrange(at, at + part.len()) == part);
}

proof fn lemma_all_buttons(
    inputs: Inputs,
    state: InputState,
    scale: Scalar,
    labels: bool,
    n: nat,
    i: int,
)
    requires
        0 <= i < n,
    ensures
        shows(
            all_buttons(inputs, state, scale, labels, n),
            button_ops(inputs.buttons@[i], i as usize, state.buttons@[i], scale, labels),
        ),
    decreases n,
{
    let before = all_buttons(inputs, state, scale, labels, (n - 1) as nat);
    let last = button_ops(
        inputs.buttons@[n - 1],
        (n - 1) as usize,
        state.buttons@[n - 1],
        scale,
        labels,
    );
    let none = Seq::<DrawOp>::empty();
    if i == n - 1 {
        assert(last.subrange(0int, 0int + last.len()) == last);
        lemma_shows_more(before, last, none, last);
        assert(before + last + none == before + last);
    } else {
        lemma_all_buttons(inputs, state, scale, labels, (n - 1) as nat, i);
        lemma_shows_more(
            none,
            before,
            last,
            button_ops(inputs.buttons@[i], i as usize, state.buttons@[i], scale, labels),
        );
        assert(none + before + last == before + last);
    }
}

proof fn lemma_all_axes(inputs: Inputs, state: InputState, n: nat, i: int)
    requires
        0 <= i < n,
    ensures
        shows(
            all_axes(inputs, state, n),
            axis_ops(inputs.axes@[i], i as usize, state.axes@[i]),
        ),
    decreases n,
{
    let before = all_axes(inputs, state, (n - 1) as nat);
    let last = axis_ops(inputs.axes@[n - 1], (n - 1) as usize, state.axes@[n - 1]);
    let none = Seq::<DrawOp>::empty();
    if i == n - 1 {
        assert(last.subrange(0int, 0int + last.len()) == last);
        lemma_shows_more(before, last, none, last);
        assert(before + last + none == before + last);
    } else {
        lemma_all_axes(inputs, state, (n - 1) as nat, i);
        lemma_shows_more(
            none,
            before,
            last,
            axis_ops(inputs.axes@[i], i as usize, state.axes@[i]),
        );
        assert(none + before + last == before + last);
    }
}

proof fn lemma_all_sticks(inputs: Inputs, state: InputState, n: nat, i: int)
    requires
        0 <= i < n,
    ensures
        shows(
            all_sticks(inputs, state, n),
            stick_ops(
                inputs.sticks@[i],
                i as usize,
                state.sticks@[i].0,
                state.sticks@[i].1,
            ),
        ),
    decreases n,
{
    let before = all_sticks(inputs, state, (n - 1) as nat);
    let last = stick_ops(
        inputs.sticks@[n - 1],
        (n - 1) as usize,
        state.sticks@[n - 1].0,
        state.sticks@[n - 1].1,
    );
    let none = Seq::<DrawOp>::empty();
    if i == n - 1 {
        assert(last.subrange(0int, 0int + last.len()) == last);
        lemma_shows_more(before, last, none, last);
        assert(before + last + none == before + last);
    } else {
        lemma_all_sticks(inputs, state, (n - 1) as nat, i);
        lemma_shows_more(
            none,
            before,
            last,
            stick_ops(inputs.sticks@[i], i as usize, state.sticks@[i].0, state.sticks@[i].1),
        );
        assert(none + before + last == before + last);
    }
}

/// Every button, gauge and stick with a reading is drawn, on an image that is cleared first.
pub proof fn lemma_everything_drawn(
    inputs: Inputs,
    state: InputState,
    scale: Scalar,
    labels: bool,
    i: int,
)
    requires
        0 <= i,
    ensures
        image_ops(inputs, state, scale, labels)[0] == DrawOp::Clear,
        i < inputs.buttons@.len() && i < state.buttons@.len() ==> shows(
            image_ops(inputs, state, scale, labels),
            button_ops(inputs.buttons@[i], i as usize, state.buttons@[i], scale, labels),
        ),
        i < inputs.axes@.len() && i < state.axes@.len() ==> shows(
            image_ops(inputs, state, scale, labels),
            axis_ops(inputs.axes@[i], i as usize, state.axes@[i]),
        ),
        i < inputs.sticks@.len() && i < state.sticks@.len() ==> shows(
            image_ops(inputs, state, scale, labels),
            stick_ops(
                inputs.sticks@[i],
                i as usize,
                state.sticks@[i].0,
                state.sticks@[i].1,
            ),
        ),
{
    let all = image_ops(inputs, state, scale, labels);
    let clear = seq![DrawOp::Clear];
    let nb = both(inputs.buttons@.len(), state.buttons@.len());
    let na = both(inputs.axes@.len(), state.axes@.len());
    let ns = both(inputs.sticks@.len(), state.sticks@.len());
    let buttons = all_buttons(inputs, state, scale, labels, nb);
    let axes = all_axes(inputs, state, na);
    let sticks = all_sticks(inputs, state, ns);
    let none = Seq::<DrawOp>::empty();
    assert(all == clear + buttons + axes + sticks);
    if i < nb {
        lemma_all_buttons(inputs, state, scale, labels, nb, i);
        lemma_shows_more(
            clear,
            buttons,
            axes + sticks,
            button_ops(inputs.buttons@[i], i as usize, state.buttons@[i], scale, labels),
        );
        assert(clear + buttons + (axes + sticks) == all);
    }
    if i < na {
        lemma_all_axes(inputs, state, na, i);
        lemma_shows_more(
            clear + buttons,
            axes,
            sticks,
            axis_ops(inputs.axes@[i], i as usize, state.axes@[i]),
        );
    }
    if i < ns {
        lemma_all_sticks(inputs, state, ns, i);
        lemma_shows_more(
            clear + buttons + axes,
            sticks,
            none,
            stick_ops(inputs.sticks@[i], i as usize, state.sticks@[i].0, state.sticks@[i].1),
        );
        assert(clear + buttons + axes + sticks + none == all);
    }
}

proof fn lemma_buttons_unlabelled(
    inputs: Inputs,
    state: InputState,
    scale: Scalar,
    n: nat,
    k: int,
)
    requires
        0 <= k < all_buttons(inputs, state, scale, false, n).len(),
    ensures
        !(all_buttons(inputs, state, scale, false, n)[k] is Label),
    decreases n,
{
    if n > 0 {
        let before = all_buttons(inputs, state, scale, false, (n - 1) as nat);
        if k < before.len() {
            lemma_buttons_unlabelled(inputs, state, scale, (n - 1) as nat, k);
        }
    }
}

proof fn lemma_rest_unlabelled(inputs: Inputs, state: InputState, na: nat, ns: nat)
    ensures
        forall|k: int|
            0 <= k < all_axes(inputs, state, na).len() ==> !(#[trigger] all_axes(
                inputs,
                state,
                na,
            )[k] is Label),
        forall|k: int|
            0 <= k < all_sticks(inputs, state, ns).len() ==> !(#[trigger] all_sticks(
                inputs,
                state,
                ns,
            )[k] is Label),
    decreases na + ns,
{
    if na > 0 {
        lemma_rest_unlabelled(inputs, state, (na - 1) as nat, ns);
    }
    if ns > 0 {
        lemma_rest_unlabelled(inputs, state, na, (ns - 1) as nat);
    }
}

/// Where labels are off, none is drawn.
pub proof fn lemma_labels_off(inputs: Inputs, state: InputState, scale: Scalar, k: int)
    requires
        0 <= k < image_ops(inputs, state, scale, false).len(),
    ensures
        !(image_ops(inputs, state, scale, false)[k] is Label),
{
    let nb = both(inputs.buttons@.len(), state.buttons@.len());
    let na = both(inputs.axes@.len(), state.axes@.len());
    let ns = both(inputs.sticks@.len(), state.sticks@.len());
    let buttons = all_buttons(inputs, state, scale, false, nb);
    lemma_rest_unlabelled(inputs, state, na, ns);
    if 1 <= k < 1 + buttons.len() {
        lemma_buttons_unlabelled(inputs, state, scale, nb, k - 1);
    }
}

/// Whether a reading of an axis lies between -1 and 1.
pub open spec fn within_unit(v: Scalar) -> bool {
    !v.is_nan() && -crate::scalar::unit() <= v.value() <= crate::scalar::unit()
}

proof fn lemma_within_unit(v: Scalar)
    requires
        within_unit(v),
    ensures
        v.low() <= ONE,
{
    crate::scalar::lemma_one();
    if v.low() > ONE {
        crate::scalar::lemma_magnitude_order(ONE as nat, v.low());
    }
}

/// A stick moves no further than its displacement, so it stays within its bounds.
pub proof fn lemma_travel_bounded(displacement: Scalar, along: Scalar, across: Scalar)
    requires
        displacement.is_finite(),
        within_unit(along),
        within_unit(across),
    ensures
        !travel(displacement, along, across).is_nan(),
        displacement.value() >= 0 ==> -displacement.value() <= travel(
            displacement,
            along,
            across,
        ).value() <= displacement.value(),
{
    lemma_within_unit(along);
    lemma_within_unit(across);
    let square = across.product(across);
    crate::arith::lemma_product_shrinks(across, across);
    crate::arith::lemma_half(square);
    let half = square.quotient(Scalar { bits: TWO });
    crate::arith::lemma_root_of_rest(half);
    let root = (Scalar { bits: ONE }).difference(half).root();
    crate::arith::lemma_product_shrinks(displacement, along);
    crate::arith::lemma_product_shrinks(displacement.product(along), root);
    let t = travel(displacement, along, across);
    if t.low() < displacement.low() {
        crate::scalar::lemma_magnitude_order(t.low(), displacement.low());
    }
}

/// Whether a level lies between 0 and 1.
pub open spec fn is_share(v: Scalar) -> bool {
    !v.is_nan() && 0 <= v.value() <= crate::scalar::unit()
}

/// What is left of a share is a share.
proof fn lemma_rest(v: Scalar)
    requires
        is_share(v),
    ensures
        is_share((Scalar { bits: ONE }).difference(v)),
{
    crate::scalar::lemma_one();
    lemma_within_unit(v);
    crate::layout::lemma_negated(v);
    crate::arith::lemma_sum_order(Scalar { bits: ONE }, v.negated());
}

/// The distance between two edges of a rectangle is a length.
pub proof fn lemma_distance(near: Scalar, far: Scalar)
    requires
        near.is_finite(),
        far.is_finite(),
        0 <= far.value() - near.value() < crate::layout::too_far(),
    ensures
        crate::layout::length(far.difference(near)),
{
    reveal(Scalar::sum);
    crate::scalar::lemma_one();
    crate::layout::lemma_landmarks();
    crate::layout::lemma_negated(near);
    crate::arith::lemma_sum_order(far, near.negated());
    let d = (far.value() - near.value()) as nat;
    let most = crate::scalar::magnitude(crate::layout::LARGEST as nat);
    assert(most * 1 == most) by (nonlinear_arith);
    crate::arith::lemma_nearest_at_most(d, 1, crate::layout::LARGEST as nat);
}

/// A share of a length is a length.
proof fn lemma_part(whole: Scalar, share: Scalar)
    requires
        crate::layout::length(whole),
        is_share(share),
    ensures
        crate::layout::length(whole.product(share)),
{
    lemma_within_unit(share);
    crate::arith::lemma_product_shrinks(whole, share);
    lemma_no_negative_part(whole, share);
}

proof fn lemma_no_negative_part(whole: Scalar, share: Scalar)
    requires
        crate::layout::length(whole),
        is_share(share),
    ensures
        whole.product(share).value() >= 0,
{
    reveal(Scalar::product);
    crate::scalar::lemma_one();
    lemma_within_unit(share);
    let u = crate::scalar::unit();
    let m = crate::scalar::magnitude(whole.low());
    let n = crate::scalar::magnitude(share.low());
    if whole.low() > 0 {
        crate::scalar::lemma_magnitude_order(0, whole.low());
    }
    if share.low() > 0 {
        crate::scalar::lemma_magnitude_order(0, share.low());
    }
    if m == 0 || n == 0 {
        assert(m * n == 0) by (nonlinear_arith)
            requires
                m == 0 || n == 0,
        ;
        assert(0 * u == 0) by (nonlinear_arith);
        crate::arith::lemma_nearest_at_most(0, u, 0);
    }
}

/// The fill of a gauge stays inside the gauge.
pub proof fn lemma_fill_inside(a: Axis, percent: Scalar)
    requires
        a.shape.valid(),
        is_share(percent),
    ensures
        is_share(level(a, percent)),
        visible(filled(a.shape, a.direction, level(a, percent))) ==> a.shape.covers(
            filled(a.shape, a.direction, level(a, percent)),
        ),
{
    let shape = a.shape;
    lemma_rest(percent);
    let p = level(a, percent);
    lemma_rest(p);
    let rest = (Scalar { bits: ONE }).difference(p);
    lemma_distance(shape.left, shape.right);
    lemma_distance(shape.top, shape.bottom);
    let width = shape.right.difference(shape.left);
    let height = shape.bottom.difference(shape.top);
    lemma_part(width, p);
    lemma_part(height, p);
    lemma_part(width, rest);
    lemma_part(height, rest);
    crate::layout::lemma_negated(height.product(p));
    crate::layout::lemma_negated(width.product(p));
    crate::arith::lemma_sum_order(shape.bottom, height.product(p).negated());
    crate::arith::lemma_sum_order(shape.right, width.product(p).negated());
    crate::arith::lemma_sum_order(shape.top, height.product(rest));
    crate::arith::lemma_sum_order(shape.left, width.product(rest));
}

} // verus!
