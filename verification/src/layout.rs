//! What a controller layout holds: buttons, sticks and gauges, where they are and how they look.

use crate::scalar::{Scalar, INFINITY, SIGN};
use vstd::prelude::*;

verus! {

/// A color with components from 0 to 1.
#[derive(Debug, Clone, Copy, PartialEq, Eq, Structural)]
pub struct Color {
    pub red: Scalar,
    pub green: Scalar,
    pub blue: Scalar,
    pub alpha: Scalar,
}

/// The colors of something that can be active or not.
#[derive(Debug, Clone, Copy, PartialEq, Eq, Structural)]
pub struct ColorPair {
    pub active: Color,
    pub inactive: Color,
}

impl ColorPair {
    /// A pair of colors.
    pub fn new(active: Color, inactive: Color) -> (r: ColorPair)
        ensures
            r.active == active,
            r.inactive == inactive,
    {
        ColorPair { active, inactive }
    }

    /// The color for the given state.
    pub open spec fn of(self, active: bool) -> Color {
        if active {
            self.active
        } else {
            self.inactive
        }
    }

    /// The color for the given state.
    pub fn get(&self, active: bool) -> (r: Color)
        ensures
            r == self.of(active),
    {
        if active {
            self.active
        } else {
            self.inactive
        }
    }
}

/// A rectangle given by its edges.
#[derive(Debug, Clone, Copy, PartialEq, Eq, Structural)]
pub struct Rect {
    pub left: Scalar,
    pub top: Scalar,
    pub right: Scalar,
    pub bottom: Scalar,
}

/// The bit pattern of 100.
pub const HUNDRED: u32 = 0x42c8_0000;

/// The lesser of two numbers; where one is not a number, the other.
pub open spec fn lesser(a: Scalar, b: Scalar) -> Scalar {
    if a.is_nan() || b.below(a) {
        b
    } else {
        a
    }
}

/// The greater of two numbers; where one is not a number, the other.
pub open spec fn greater(a: Scalar, b: Scalar) -> Scalar {
    if a.is_nan() || a.below(b) {
        b
    } else {
        a
    }
}

fn is_nan(a: Scalar) -> (r: bool)
    ensures
        r == a.is_nan(),
{
    a.bits % SIGN > INFINITY
}

fn is_finite(a: Scalar) -> (r: bool)
    ensures
        r == a.is_finite(),
{
    a.bits % SIGN < INFINITY
}

fn min(a: Scalar, b: Scalar) -> (r: Scalar)
    ensures
        r == lesser(a, b),
{
    if is_nan(a) || b.lt(a) {
        b
    } else {
        a
    }
}

fn max(a: Scalar, b: Scalar) -> (r: Scalar)
    ensures
        r == greater(a, b),
{
    if is_nan(a) || a.lt(b) {
        b
    } else {
        a
    }
}

/// How far apart two edges of a rectangle cannot be, in units of 2^-149: 2^74 less than the
/// largest single-precision number, which is where double precision no longer tells the two
/// apart.
pub open spec fn too_far() -> int {
    vstd::arithmetic::power2::pow2(277) - vstd::arithmetic::power2::pow2(253)
        - vstd::arithmetic::power2::pow2(223)
}

/// The pattern of the largest single-precision number.
pub const LARGEST: u32 = 0x7f7f_ffff;

/// The pattern of 2^74.
pub const SLACK: u32 = 0x6480_0000;

/// The values of the patterns around the largest number.
pub proof fn lemma_landmarks()
    ensures
        crate::scalar::magnitude(LARGEST as nat) == vstd::arithmetic::power2::pow2(277)
            - vstd::arithmetic::power2::pow2(253),
        crate::scalar::magnitude((LARGEST - 1) as nat) == vstd::arithmetic::power2::pow2(277) - 2
            * vstd::arithmetic::power2::pow2(253),
        crate::scalar::magnitude(SLACK as nat) == vstd::arithmetic::power2::pow2(223),
        vstd::arithmetic::power2::pow2(277) == 0x200_0000 * vstd::arithmetic::power2::pow2(252),
        vstd::arithmetic::power2::pow2(253) == 2 * vstd::arithmetic::power2::pow2(252),
        vstd::arithmetic::power2::pow2(252) == 0x2000_0000 * vstd::arithmetic::power2::pow2(223),
        vstd::arithmetic::power2::pow2(223) > 0,
{
    vstd::arithmetic::power2::lemma2_to64();
    vstd::arithmetic::power2::lemma_pow2_pos(223);
    vstd::arithmetic::power2::lemma_pow2_adds(24, 253);
    vstd::arithmetic::power2::lemma_pow2_adds(25, 252);
    vstd::arithmetic::power2::lemma_pow2_adds(1, 252);
    vstd::arithmetic::power2::lemma_pow2_adds(29, 223);
    vstd::arithmetic::power2::lemma_pow2_adds(23, 200);
    crate::scalar::lemma_pattern(253, 0xff_ffff);
    crate::scalar::lemma_pattern(253, 0xff_fffe);
    crate::scalar::lemma_pattern(200, 0x80_0000);
    let p = vstd::arithmetic::power2::pow2(253);
    assert(0xff_ffff * p == 0x100_0000 * p - p);
    assert(0xff_fffe * p == 0x100_0000 * p - 2 * p);
}

/// How often 2^252 units fit into the magnitude of a pattern. What is left over is nothing for a
/// large magnitude, and never close to another 2^252.
fn tops(low: u32) -> (r: u32)
    requires
        low < INFINITY,
    ensures
        ({
            let q = vstd::arithmetic::power2::pow2(252);
            let m = crate::scalar::magnitude(low as nat);
            &&& r <= 0x1ff_fffe
            &&& r * q <= m
            &&& r >= 0x80_0000 ==> m == r * q
            &&& m < r * q + q - vstd::arithmetic::power2::pow2(223)
        }),
{
    let e: u32 = low / 0x80_0000;
    let m: u32 = low % 0x80_0000;
    let ghost q = vstd::arithmetic::power2::pow2(252);
    let ghost slack = vstd::arithmetic::power2::pow2(223);
    let ghost mag = crate::scalar::magnitude(low as nat);
    proof {
        lemma_landmarks();
        vstd::arithmetic::power2::lemma2_to64();
        assert(0 * q == 0) by (nonlinear_arith);
    }
    if e == 0 {
        proof {
            vstd::arithmetic::power2::lemma_pow2_strictly_increases(24, 223);
        }
        return 0;
    }
    let sig: u32 = 0x80_0000 + m;
    let s: u32 = e - 1;
    let ghost p = vstd::arithmetic::power2::pow2(s as nat);
    proof {
        assert(mag == sig * p);
        assert(s <= 253);
    }
    if s == 253 {
        proof {
            assert(sig * (2 * q) == (2 * sig) * q) by (nonlinear_arith);
        }
        return 2 * sig;
    }
    if s == 252 {
        return sig;
    }
    if s < 224 {
        proof {
            vstd::arithmetic::power2::lemma_pow2_adds(24, 223);
            crate::scalar::lemma_pow2_bound(s as nat, 223);
            assert(sig * p <= 0x100_0000 * slack) by (nonlinear_arith)
                requires
                    sig < 0x100_0000,
                    p <= slack,
                    slack > 0,
            ;
        }
        return 0;
    }
    let shift: u32 = 252 - s;
    proof {
        assert(1u32 << shift == vstd::arithmetic::power2::pow2(shift as nat)) by {
            crate::scalar::lemma_pow2_bound(shift as nat, 28);
            vstd::bits::lemma_u32_shl_is_mul(1, shift);
        }
    }
    let d: u32 = 1u32 << shift;
    let r: u32 = sig / d;
    proof {
        vstd::arithmetic::power2::lemma_pow2_pos(shift as nat);
        vstd::arithmetic::power2::lemma_pow2_pos(s as nat);
        vstd::arithmetic::power2::lemma_pow2_adds(s as nat, shift as nat);
        vstd::arithmetic::power2::lemma_pow2_strictly_increases(223, s as nat);
        vstd::arithmetic::power2::lemma_pow2_strictly_increases(0, shift as nat);
        vstd::arithmetic::div_mod::lemma_fundamental_div_mod(sig as int, d as int);
        assert(r * q <= mag && mag <= r * q + q - p) by (nonlinear_arith)
            requires
                mag == sig * p,
                q == p * d,
                sig == d * r + sig % d,
                0 <= sig % d < d,
                p > 0,
        ;
        assert(2 * r <= sig) by (nonlinear_arith)
            requires
                sig == d * r + sig % d,
                0 <= sig % d,
                d >= 2,
        ;
    }
    r
}

/// Whether two edges are near enough for a rectangle.
fn near(a: Scalar, b: Scalar) -> (r: bool)
    requires
        a.is_finite(),
        b.is_finite(),
        a.value() <= b.value(),
    ensures
        r == (b.value() - a.value() < too_far()),
{
    let la: u32 = a.bits % SIGN;
    let lb: u32 = b.bits % SIGN;
    proof {
        lemma_landmarks();
        lemma_zero_magnitude();
    }
    if (a.bits >= SIGN) == (b.bits >= SIGN) {
        let big: u32 = if la < lb {
            lb
        } else {
            la
        };
        let small: u32 = if la < lb {
            la
        } else {
            lb
        };
        proof {
            if la < lb {
                crate::scalar::lemma_magnitude_order(la as nat, lb as nat);
            }
            if lb < la {
                crate::scalar::lemma_magnitude_order(lb as nat, la as nat);
            }
            if big < LARGEST - 1 {
                crate::scalar::lemma_magnitude_order(big as nat, (LARGEST - 1) as nat);
            }
            if small < SLACK {
                crate::scalar::lemma_magnitude_order(small as nat, SLACK as nat);
            }
            if small > SLACK {
                crate::scalar::lemma_magnitude_order(SLACK as nat, small as nat);
            }
        }
        !(big == LARGEST && small <= SLACK)
    } else {
        let ta = tops(la);
        let tb = tops(lb);
        proof {
            let q = vstd::arithmetic::power2::pow2(252);
            let total = (ta + tb) as nat;
            assert(ta * q + tb * q == total * q) by (nonlinear_arith)
                requires
                    total == ta + tb,
            ;
            if total >= 0x1ff_fffe {
                assert(total * q >= 0x1ff_fffe * q) by (nonlinear_arith)
                    requires
                        total >= 0x1ff_fffe,
                ;
            } else if total >= 0x1ff_fffc {
                assert(total * q <= 0x1ff_fffd * q) by (nonlinear_arith)
                    requires
                        total <= 0x1ff_fffd,
                ;
            } else {
                assert(total * q <= 0x1ff_fffb * q) by (nonlinear_arith)
                    requires
                        total <= 0x1ff_fffb,
                ;
            }
        }
        ta + tb < 0x1ff_fffe
    }
}

proof fn lemma_zero_magnitude()
    ensures
        crate::scalar::magnitude(0) == 0,
{
}

impl Rect {
    /// Edges that are finite, in order, and not too far apart.
    pub open spec fn valid(self) -> bool {
        &&& self.left.is_finite()
        &&& self.top.is_finite()
        &&& self.right.is_finite()
        &&& self.bottom.is_finite()
        &&& self.left.value() <= self.right.value()
        &&& self.top.value() <= self.bottom.value()
        &&& self.right.value() - self.left.value() < too_far()
        &&& self.bottom.value() - self.top.value() < too_far()
    }

    /// `self`, if it is a valid rectangle.
    pub open spec fn checked(self) -> Option<Rect> {
        if self.valid() {
            Some(self)
        } else {
            None
        }
    }

    /// Whether every point of `other` lies in `self`.
    pub open spec fn covers(self, other: Rect) -> bool {
        &&& self.left.value() <= other.left.value()
        &&& self.top.value() <= other.top.value()
        &&& other.right.value() <= self.right.value()
        &&& other.bottom.value() <= self.bottom.value()
    }

    /// `self` with every edge moved outwards by `by`.
    pub open spec fn grown(self, by: Scalar) -> Option<Rect> {
        (Rect {
            left: self.left.difference(by),
            top: self.top.difference(by),
            right: self.right.sum(by),
            bottom: self.bottom.sum(by),
        }).checked()
    }

    /// The least rectangle that covers `self` and `other`.
    pub open spec fn joined(self, other: Rect) -> Option<Rect> {
        (Rect {
            left: lesser(self.left, other.left),
            top: lesser(self.top, other.top),
            right: greater(self.right, other.right),
            bottom: greater(self.bottom, other.bottom),
        }).checked()
    }

    /// `self` moved by `dx` and `dy`, unless both are zero.
    pub open spec fn moved(self, dx: Scalar, dy: Scalar) -> Option<Rect> {
        let zero = Scalar { bits: 0 };
        if dx.equals(zero) && dy.equals(zero) {
            Some(self)
        } else {
            (Rect {
                left: self.left.sum(dx),
                top: self.top.sum(dy),
                right: self.right.sum(dx),
                bottom: self.bottom.sum(dy),
            }).checked()
        }
    }

    /// The rectangle with these edges, if they are finite, in order, and not too far apart.
    pub fn from_ltrb(left: Scalar, top: Scalar, right: Scalar, bottom: Scalar) -> (r: Option<Rect>)
        ensures
            r == (Rect { left, top, right, bottom }).checked(),
    {
        if is_finite(left) && is_finite(top) && is_finite(right) && is_finite(bottom) && !right.lt(
            left,
        ) && !bottom.lt(top) && near(left, right) && near(top, bottom) {
            Some(Rect { left, top, right, bottom })
        } else {
            None
        }
    }

    /// The rectangle from (0, 0) to (100, 100).
    pub open spec fn blank() -> Rect {
        Rect {
            left: Scalar { bits: 0 },
            top: Scalar { bits: 0 },
            right: Scalar { bits: HUNDRED },
            bottom: Scalar { bits: HUNDRED },
        }
    }

    /// The width.
    pub fn width(&self) -> (r: Scalar)
        ensures
            r == self.right.difference(self.left),
    {
        self.right.minus(self.left)
    }

    /// The height.
    pub fn height(&self) -> (r: Scalar)
        ensures
            r == self.bottom.difference(self.top),
    {
        self.bottom.minus(self.top)
    }

    /// `self` moved by `dx` and `dy`, if the result is a rectangle.
    pub fn translate(&self, dx: Scalar, dy: Scalar) -> (r: Option<Rect>)
        ensures
            r == self.moved(dx, dy),
    {
        let zero = Scalar { bits: 0 };
        if dx.same(zero) && dy.same(zero) {
            return Some(*self);
        }
        Rect::from_ltrb(
            self.left.plus(dx),
            self.top.plus(dy),
            self.right.plus(dx),
            self.bottom.plus(dy),
        )
    }
}

/// The least rectangle that covers both.
pub fn combine(a: Rect, b: Rect) -> (r: Option<Rect>)
    ensures
        r == a.joined(b),
{
    Rect::from_ltrb(
        min(a.left, b.left),
        min(a.top, b.top),
        max(a.right, b.right),
        max(a.bottom, b.bottom),
    )
}

/// `r` with every edge moved outwards by `f`, if the result is a rectangle.
pub fn expand(r: Rect, f: Scalar) -> (out: Option<Rect>)
    ensures
        out == r.grown(f),
{
    Rect::from_ltrb(r.left.minus(f), r.top.minus(f), r.right.plus(f), r.bottom.plus(f))
}

/// Joining two rectangles gives one that covers both, unless its edges are too far apart.
pub proof fn lemma_joined_covers(a: Rect, b: Rect)
    requires
        a.valid(),
        b.valid(),
    ensures
        a.joined(b) matches Some(r) ==> r.valid() && r.covers(a) && r.covers(b),
        a.joined(b) is None ==> ({
            ||| b.right.value() - a.left.value() >= too_far()
            ||| a.right.value() - b.left.value() >= too_far()
            ||| b.bottom.value() - a.top.value() >= too_far()
            ||| a.bottom.value() - b.top.value() >= too_far()
        }),
{
}

/// Where the controller reports an axis, and whether the layout flips it.
#[derive(Debug, Clone, Copy, PartialEq, Eq, Structural)]
pub struct RawAxis {
    pub id: u8,
    pub invert: bool,
}

/// The side from which a gauge fills up.
#[derive(Debug, Clone, Copy, PartialEq, Eq, Structural)]
pub enum FillDir {
    TopToBottom,
    LeftToRight,
    BottomToTop,
    RightToLeft,
}

/// A button of the layout.
#[derive(Debug, Clone)]
pub struct Button {
    pub id: u8,
    /// The bounds of the button's outline.
    pub shape: Rect,
    pub fill: ColorPair,
    /// The colors and the width of the line around the button.
    pub outline: Option<(ColorPair, Scalar)>,
    pub label: Option<String>,
    /// Label text colors; without them labels are white.
    pub label_color: Option<ColorPair>,
    /// The elements of the skin that the button stands for, separated by white space.
    pub skin: Option<String>,
}

/// A gauge that shows a single axis.
#[derive(Debug, Clone, Copy)]
pub struct Axis {
    pub axis: RawAxis,
    pub shape: Rect,
    pub direction: FillDir,
    pub fill: ColorPair,
    pub outline: Option<(Color, Scalar)>,
}

/// A stick: a shape that moves with two axes.
#[derive(Debug, Clone)]
pub struct Stick {
    pub x: RawAxis,
    pub y: RawAxis,
    pub deadzone: Scalar,
    pub shape: Rect,
    /// How far the shape moves at full deflection.
    pub displacement: Scalar,
    pub fill: ColorPair,
    pub outline: Option<(ColorPair, Scalar)>,
    /// The shape, colors and line width of a gate around the stick.
    pub gate: Option<(Rect, ColorPair, Scalar)>,
    pub skin: Option<String>,
}

/// A directional pad, with a shape for each direction.
#[derive(Debug, Clone, Copy)]
pub struct Dpad {
    pub x: RawAxis,
    pub y: RawAxis,
    pub up: Rect,
    pub down: Rect,
    pub left: Rect,
    pub right: Rect,
    pub fill: ColorPair,
    pub outline: Option<(Rect, Color, Scalar)>,
}

impl Button {
    /// What the button covers, line included.
    pub open spec fn extent(self) -> Option<Rect> {
        match self.outline {
            Some((_, width)) => self.shape.grown(width),
            None => Some(self.shape),
        }
    }

    /// What the button covers, line included; `None` if that is no rectangle.
    pub fn bounds(&self) -> (r: Option<Rect>)
        ensures
            r == self.extent(),
    {
        if let Some((_, width)) = self.outline {
            expand(self.shape, width)
        } else {
            Some(self.shape)
        }
    }
}

impl Axis {
    /// What the gauge covers, line included.
    pub open spec fn extent(self) -> Option<Rect> {
        match self.outline {
            Some((_, width)) => self.shape.grown(width),
            None => Some(self.shape),
        }
    }

    /// What the gauge covers, line included; `None` if that is no rectangle.
    pub fn bounds(&self) -> (r: Option<Rect>)
        ensures
            r == self.extent(),
    {
        if let Some((_, width)) = self.outline {
            expand(self.shape, width)
        } else {
            Some(self.shape)
        }
    }
}

impl Stick {
    /// What the moving shape can cover, line included.
    pub open spec fn reach(self) -> Option<Rect> {
        match (self.shape.grown(self.displacement), self.outline) {
            (Some(r), Some((_, width))) => r.grown(width),
            (r, _) => r,
        }
    }

    /// What the stick and its gate can cover, lines included.
    pub open spec fn extent(self) -> Option<Rect> {
        match (self.reach(), self.gate) {
            (Some(r), Some((shape, _, width))) => match shape.grown(width) {
                Some(g) => r.joined(g),
                None => None,
            },
            (r, _) => r,
        }
    }

    /// What the stick and its gate can cover, lines included; `None` if that is no rectangle.
    pub fn bounds(&self) -> (r: Option<Rect>)
        ensures
            r == self.extent(),
    {
        let mut bounds = match expand(self.shape, self.displacement) {
            Some(b) => b,
            None => return None,
        };
        if let Some((_, width)) = self.outline {
            bounds = match expand(bounds, width) {
                Some(b) => b,
                None => return None,
            };
        }
        if let Some((shape, _, width)) = self.gate {
            bounds = match expand(shape, width) {
                Some(g) => match combine(bounds, g) {
                    Some(b) => b,
                    None => return None,
                },
                None => return None,
            };
        }
        Some(bounds)
    }
}

/// A layout.
#[derive(Debug, Clone)]
pub struct Inputs {
    pub buttons: Vec<Button>,
    pub sticks: Vec<Stick>,
    pub axes: Vec<Axis>,
}

/// A layout as it is written down: its items wherever they were put.
#[derive(Debug, Clone)]
pub struct Config {
    pub inputs: Inputs,
    /// Whether to show the labels of buttons.
    pub show_labels: bool,
}

/// What the controller reports for each item of a layout.
#[derive(Debug, Clone)]
pub struct InputState {
    pub buttons: Vec<bool>,
    pub sticks: Vec<(Scalar, Scalar)>,
    pub axes: Vec<Scalar>,
}

/// The least rectangle that covers all of `parts`: the blank one without any, `None` if one of
/// them is no rectangle.
pub open spec fn hull(parts: Seq<Option<Rect>>) -> Option<Rect>
    decreases parts.len(),
{
    if parts.len() == 0 {
        Some(Rect::blank())
    } else if parts.len() == 1 {
        parts[0]
    } else {
        match (hull(parts.drop_last()), parts.last()) {
            (Some(a), Some(b)) => a.joined(b),
            _ => None,
        }
    }
}

proof fn lemma_covers_through(a: Rect, b: Rect, c: Rect)
    requires
        a.covers(b),
        b.covers(c),
    ensures
        a.covers(c),
{
}

/// The hull of rectangles, where there is one, is a rectangle that covers each of them.
pub proof fn lemma_hull_covers(parts: Seq<Option<Rect>>, i: int)
    requires
        0 <= i < parts.len(),
        hull(parts) is Some,
        forall|k: int| 0 <= k < parts.len() ==> ((#[trigger] parts[k]) matches Some(r) ==> r.valid()),
    ensures
        hull(parts)->0.valid(),
        parts[i] is Some,
        hull(parts)->0.covers(parts[i]->0),
    decreases parts.len(),
{
    assert(parts.last() == parts[parts.len() - 1]);
    if parts.len() > 1 {
        let rest = parts.drop_last();
        assert forall|k: int| 0 <= k < rest.len() implies ((#[trigger] rest[k]) matches Some(r)
            ==> r.valid()) by {
            assert(rest[k] == parts[k]);
        }
        let j = if i < rest.len() {
            i
        } else {
            0
        };
        lemma_hull_covers(rest, j);
        lemma_joined_covers(hull(rest)->0, parts.last()->0);
        if i < rest.len() {
            assert(rest[i] == parts[i]);
            lemma_covers_through(hull(parts)->0, hull(rest)->0, parts[i]->0);
        }
    }
}

impl Inputs {
    /// What each item covers: buttons, then sticks, then gauges.
    pub open spec fn extents(self) -> Seq<Option<Rect>> {
        Seq::new(self.buttons@.len(), |i: int| self.buttons@[i].extent()) + Seq::new(
            self.sticks@.len(),
            |i: int| self.sticks@[i].extent(),
        ) + Seq::new(self.axes@.len(), |i: int| self.axes@[i].extent())
    }

    fn extent_list(&self) -> (r: Vec<Option<Rect>>)
        ensures
            r@ == self.extents(),
    {
        let mut r: Vec<Option<Rect>> = Vec::new();
        let mut i: usize = 0;
        while i < self.buttons.len()
            invariant
                i <= self.buttons@.len(),
                r@ == self.extents().take(i as int),
            decreases self.buttons@.len() - i,
        {
            r.push(self.buttons[i].bounds());
            i += 1;
        }
        let mut j: usize = 0;
        while j < self.sticks.len()
            invariant
                j <= self.sticks@.len(),
                r@ == self.extents().take(self.buttons@.len() + j),
            decreases self.sticks@.len() - j,
        {
            r.push(self.sticks[j].bounds());
            j += 1;
        }
        let mut k: usize = 0;
        while k < self.axes.len()
            invariant
                k <= self.axes@.len(),
                r@ == self.extents().take(self.buttons@.len() + self.sticks@.len() + k),
            decreases self.axes@.len() - k,
        {
            r.push(self.axes[k].bounds());
            k += 1;
        }
        r
    }

    /// The least rectangle that covers every item; `None` if some item covers no rectangle.
    pub fn bounds(&self) -> (r: Option<Rect>)
        ensures
            r == hull(self.extents()),
    {
        let parts = self.extent_list();
        if parts.len() == 0 {
            return Some(
                Rect {
                    left: Scalar { bits: 0 },
                    top: Scalar { bits: 0 },
                    right: Scalar { bits: HUNDRED },
                    bottom: Scalar { bits: HUNDRED },
                },
            );
        }
        let mut all = parts[0];
        let mut i: usize = 1;
        assert(parts@.take(1)[0] == parts@[0]);
        while i < parts.len()
            invariant
                1 <= i <= parts@.len(),
                all == hull(parts@.take(i as int)),
            decreases parts@.len() - i,
        {
            assert(parts@.take(i + 1).drop_last() == parts@.take(i as int));
            all = match (all, parts[i]) {
                (Some(a), Some(b)) => combine(a, b),
                _ => None,
            };
            i += 1;
        }
        assert(parts@.take(parts@.len() as int) == parts@);
        all
    }
}

impl Button {
    /// The button moved by `dx` and `dy`.
    pub open spec fn shifted(self, dx: Scalar, dy: Scalar) -> Option<Button> {
        match self.shape.moved(dx, dy) {
            Some(shape) => Some(Button { shape, ..self }),
            None => None,
        }
    }
}

impl Axis {
    /// The gauge moved by `dx` and `dy`.
    pub open spec fn shifted(self, dx: Scalar, dy: Scalar) -> Option<Axis> {
        match self.shape.moved(dx, dy) {
            Some(shape) => Some(Axis { shape, ..self }),
            None => None,
        }
    }
}

impl Stick {
    /// The stick moved by `dx` and `dy`, with its gate.
    pub open spec fn shifted(self, dx: Scalar, dy: Scalar) -> Option<Stick> {
        match (self.shape.moved(dx, dy), self.gate) {
            (Some(shape), Some((g, colors, width))) => match g.moved(dx, dy) {
                Some(g) => Some(Stick { shape, gate: Some((g, colors, width)), ..self }),
                None => None,
            },
            (Some(shape), None) => Some(Stick { shape, ..self }),
            _ => None,
        }
    }
}

impl Inputs {
    /// Whether every item can move by `dx` and `dy`.
    pub open spec fn movable(self, dx: Scalar, dy: Scalar) -> bool {
        &&& forall|i: int|
            0 <= i < self.buttons@.len() ==> (#[trigger] self.buttons@[i]).shifted(dx, dy) is Some
        &&& forall|i: int|
            0 <= i < self.sticks@.len() ==> (#[trigger] self.sticks@[i]).shifted(dx, dy) is Some
        &&& forall|i: int|
            0 <= i < self.axes@.len() ==> (#[trigger] self.axes@[i]).shifted(dx, dy) is Some
    }

    /// What each item covers once it is moved by `dx` and `dy`.
    pub open spec fn extents_at(self, dx: Scalar, dy: Scalar) -> Seq<Option<Rect>> {
        Seq::new(
            self.buttons@.len(),
            |i: int| self.buttons@[i].shifted(dx, dy)->0.extent(),
        ) + Seq::new(
            self.sticks@.len(),
            |i: int| self.sticks@[i].shifted(dx, dy)->0.extent(),
        ) + Seq::new(self.axes@.len(), |i: int| self.axes@[i].shifted(dx, dy)->0.extent())
    }

    /// Whether `self` is `from` with every item moved by `dx` and `dy`.
    pub open spec fn moved_from(self, from: Inputs, dx: Scalar, dy: Scalar) -> bool {
        &&& self.buttons@.len() == from.buttons@.len()
        &&& self.sticks@.len() == from.sticks@.len()
        &&& self.axes@.len() == from.axes@.len()
        &&& forall|i: int|
            0 <= i < self.buttons@.len() ==> Some(#[trigger] self.buttons@[i])
                == from.buttons@[i].shifted(dx, dy)
        &&& forall|i: int|
            0 <= i < self.sticks@.len() ==> Some(#[trigger] self.sticks@[i])
                == from.sticks@[i].shifted(dx, dy)
        &&& forall|i: int|
            0 <= i < self.axes@.len() ==> Some(#[trigger] self.axes@[i])
                == from.axes@[i].shifted(dx, dy)
    }

    fn is_movable(&self, dx: Scalar, dy: Scalar) -> (r: bool)
        ensures
            r == self.movable(dx, dy),
    {
        let mut i: usize = 0;
        while i < self.buttons.len()
            invariant
                i <= self.buttons@.len(),
                forall|k: int|
                    0 <= k < i ==> (#[trigger] self.buttons@[k]).shifted(dx, dy) is Some,
            decreases self.buttons@.len() - i,
        {
            if self.buttons[i].shape.translate(dx, dy).is_none() {
                assert(self.buttons@[i as int].shifted(dx, dy) is None);
                return false;
            }
            i += 1;
        }
        let mut j: usize = 0;
        while j < self.sticks.len()
            invariant
                j <= self.sticks@.len(),
                forall|k: int|
                    0 <= k < j ==> (#[trigger] self.sticks@[k]).shifted(dx, dy) is Some,
            decreases self.sticks@.len() - j,
        {
            if self.sticks[j].shape.translate(dx, dy).is_none() {
                assert(self.sticks@[j as int].shifted(dx, dy) is None);
                return false;
            }
            if let Some((g, _, _)) = self.sticks[j].gate {
                if g.translate(dx, dy).is_none() {
                    assert(self.sticks@[j as int].shifted(dx, dy) is None);
                    return false;
                }
            }
            j += 1;
        }
        let mut k: usize = 0;
        while k < self.axes.len()
            invariant
                k <= self.axes@.len(),
                forall|m: int| 0 <= m < k ==> (#[trigger] self.axes@[m]).shifted(dx, dy) is Some,
            decreases self.axes@.len() - k,
        {
            if self.axes[k].shape.translate(dx, dy).is_none() {
                assert(self.axes@[k as int].shifted(dx, dy) is None);
                return false;
            }
            k += 1;
        }
        true
    }

    /// Moves every item so that the corner of what the layout covers comes to the origin, and
    /// says by how much. Where an item would be no rectangle after that, nothing moves.
    pub fn minimize(&mut self) -> (r: Option<(Scalar, Scalar)>)
        ensures
            match hull(old(self).extents()) {
                Some(b) => {
                    let dx = b.left.negated();
                    let dy = b.top.negated();
                    if old(self).movable(dx, dy) {
                        r == Some((dx, dy)) && final(self).moved_from(*old(self), dx, dy)
                    } else {
                        r is None && *final(self) == *old(self)
                    }
                },
                None => r is None && *final(self) == *old(self),
            },
    {
        let bounds = match self.bounds() {
            Some(b) => b,
            None => return None,
        };
        let dx = bounds.left.neg();
        let dy = bounds.top.neg();
        if !self.is_movable(dx, dy) {
            return None;
        }
        let ghost from = *self;
        let n = self.buttons.len();
        let mut i: usize = 0;
        while i < n
            invariant
                i <= n == from.buttons@.len(),
                from.movable(dx, dy),
                self.buttons@.len() == n,
                self.sticks@ == from.sticks@,
                self.axes@ == from.axes@,
                forall|k: int|
                    0 <= k < i ==> Some(#[trigger] self.buttons@[k]) == from.buttons@[k].shifted(
                        dx,
                        dy,
                    ),
                forall|k: int| i <= k < n ==> self.buttons@[k] == from.buttons@[k],
            decreases n - i,
        {
            assert(from.buttons@[i as int].shifted(dx, dy) is Some);
            if let Some(shape) = self.buttons[i].shape.translate(dx, dy) {
                self.buttons[i].shape = shape;
            }
            i += 1;
        }
        let n = self.sticks.len();
        let mut i: usize = 0;
        while i < n
            invariant
                i <= n == from.sticks@.len(),
                from.movable(dx, dy),
                self.buttons@.len() == from.buttons@.len(),
                self.sticks@.len() == n,
                self.axes@ == from.axes@,
                forall|k: int|
                    0 <= k < self.buttons@.len() ==> Some(#[trigger] self.buttons@[k])
                        == from.buttons@[k].shifted(dx, dy),
                forall|k: int|
                    0 <= k < i ==> Some(#[trigger] self.sticks@[k]) == from.sticks@[k].shifted(
                        dx,
                        dy,
                    ),
                forall|k: int| i <= k < n ==> self.sticks@[k] == from.sticks@[k],
            decreases n - i,
        {
            assert(from.sticks@[i as int].shifted(dx, dy) is Some);
            if let Some(shape) = self.sticks[i].shape.translate(dx, dy) {
                self.sticks[i].shape = shape;
            }
            if let Some((g, colors, width)) = self.sticks[i].gate {
                if let Some(g) = g.translate(dx, dy) {
                    self.sticks[i].gate = Some((g, colors, width));
                }
            }
            i += 1;
        }
        let n = self.axes.len();
        let mut i: usize = 0;
        while i < n
            invariant
                i <= n == from.axes@.len(),
                from.movable(dx, dy),
                self.buttons@.len() == from.buttons@.len(),
                self.sticks@.len() == from.sticks@.len(),
                self.axes@.len() == n,
                forall|k: int|
                    0 <= k < self.buttons@.len() ==> Some(#[trigger] self.buttons@[k])
                        == from.buttons@[k].shifted(dx, dy),
                forall|k: int|
                    0 <= k < self.sticks@.len() ==> Some(#[trigger] self.sticks@[k])
                        == from.sticks@[k].shifted(dx, dy),
                forall|k: int|
                    0 <= k < i ==> Some(#[trigger] self.axes@[k]) == from.axes@[k].shifted(dx, dy),
                forall|k: int| i <= k < n ==> self.axes@[k] == from.axes@[k],
            decreases n - i,
        {
            assert(from.axes@[i as int].shifted(dx, dy) is Some);
            if let Some(shape) = self.axes[i].shape.translate(dx, dy) {
                self.axes[i].shape = shape;
            }
            i += 1;
        }
        Some((dx, dy))
    }
}

impl Config {
    /// By how much the items have to move to have the corner of what they cover at the origin;
    /// `None` if they cover no rectangle, or one of them would be none after that.
    pub open spec fn shift(self) -> Option<(Scalar, Scalar)> {
        match hull(self.inputs.extents()) {
            Some(b) => if self.inputs.movable(b.left.negated(), b.top.negated()) {
                Some((b.left.negated(), b.top.negated()))
            } else {
                None
            },
            None => None,
        }
    }

    /// Whether `inputs` are the items, moved to the origin.
    pub open spec fn arranged(self, inputs: Inputs) -> bool {
        self.shift() matches Some((dx, dy)) && inputs.moved_from(self.inputs, dx, dy)
    }

    /// What the items cover once they are at the origin, if they can be there.
    pub open spec fn bounds(self) -> Option<Rect> {
        match self.shift() {
            Some((dx, dy)) => hull(self.inputs.extents_at(dx, dy)),
            None => None,
        }
    }

    /// By how much the items have to move to come to the origin; `None` if they cannot.
    pub fn offset(&self) -> (r: Option<(Scalar, Scalar)>)
        ensures
            r == self.shift(),
    {
        match self.inputs.bounds() {
            Some(b) => {
                let dx = b.left.neg();
                let dy = b.top.neg();
                if self.inputs.is_movable(dx, dy) {
                    Some((dx, dy))
                } else {
                    None
                }
            },
            None => None,
        }
    }

    /// The items, moved to the origin; `None` if they cannot be.
    pub fn arrange(self) -> (r: Option<Inputs>)
        ensures
            match r {
                Some(inputs) => self.arranged(inputs),
                None => self.shift() is None,
            },
    {
        let mut inputs = self.inputs;
        match inputs.minimize() {
            Some(_) => Some(inputs),
            None => None,
        }
    }
}

/// Items at the origin cover what `bounds` says.
pub proof fn lemma_arranged_bounds(config: Config, inputs: Inputs)
    requires
        config.arranged(inputs),
    ensures
        hull(inputs.extents()) == config.bounds(),
{
    let (dx, dy) = config.shift()->0;
    let from = config.inputs;
    let parts = inputs.extents();
    let nb = from.buttons@.len() as int;
    let ns = from.sticks@.len() as int;
    assert forall|k: int| 0 <= k < parts.len() implies #[trigger] parts[k] == from.extents_at(
        dx,
        dy,
    )[k] by {
        if k < nb {
            assert(Some(inputs.buttons@[k]) == from.buttons@[k].shifted(dx, dy));
        } else if k < nb + ns {
            assert(Some(inputs.sticks@[k - nb]) == from.sticks@[k - nb].shifted(dx, dy));
        } else {
            assert(Some(inputs.axes@[k - nb - ns]) == from.axes@[k - nb - ns].shifted(dx, dy));
        }
    }
    assert(parts == from.extents_at(dx, dy));
}

impl Inputs {
    /// How many buttons, sticks and gauges the layout has.
    pub open spec fn counts(self) -> (nat, nat, nat) {
        (self.buttons@.len(), self.sticks@.len(), self.axes@.len())
    }
}

impl Default for Inputs {
    /// A layout without items.
    fn default() -> (r: Inputs)
        ensures
            r.counts() == (0nat, 0nat, 0nat),
    {
        Inputs { buttons: Vec::new(), sticks: Vec::new(), axes: Vec::new() }
    }
}

impl Default for InputState {
    /// The state for a layout without items.
    fn default() -> (r: InputState)
        ensures
            r.counts() == (0nat, 0nat, 0nat),
    {
        InputState { buttons: Vec::new(), sticks: Vec::new(), axes: Vec::new() }
    }
}

impl Default for RawAxis {
    /// The first axis, as it is reported.
    fn default() -> (r: RawAxis)
        ensures
            r == (RawAxis { id: 0, invert: false }),
    {
        RawAxis { id: 0, invert: false }
    }
}

impl InputState {
    /// How many buttons, sticks and gauges the state is for.
    pub open spec fn counts(self) -> (nat, nat, nat) {
        (self.buttons@.len(), self.sticks@.len(), self.axes@.len())
    }

    /// Whether nothing is pressed or moved.
    pub open spec fn at_rest(self) -> bool {
        let zero = Scalar { bits: 0 };
        &&& forall|i: int| 0 <= i < self.buttons@.len() ==> !#[trigger] self.buttons@[i]
        &&& forall|i: int|
            0 <= i < self.sticks@.len() ==> #[trigger] self.sticks@[i] == (zero, zero)
        &&& forall|i: int| 0 <= i < self.axes@.len() ==> #[trigger] self.axes@[i] == zero
    }

    /// The state of a controller at rest, for the items of `inputs`.
    pub fn from(inputs: &Inputs) -> (r: InputState)
        ensures
            r.counts() == inputs.counts(),
            r.at_rest(),
    {
        let zero = Scalar { bits: 0 };
        let mut sticks: Vec<(Scalar, Scalar)> = Vec::new();
        while sticks.len() < inputs.sticks.len()
            invariant
                sticks@.len() <= inputs.sticks@.len(),
                forall|i: int| 0 <= i < sticks@.len() ==> #[trigger] sticks@[i] == (zero, zero),
            decreases inputs.sticks@.len() - sticks@.len(),
        {
            sticks.push((zero, zero));
        }
        InputState {
            buttons: vec![false; inputs.buttons.len()],
            sticks,
            axes: vec![zero; inputs.axes.len()],
        }
    }
}

impl Inputs {
    /// Whether the outlines of all buttons and gauges are rectangles.
    pub open spec fn outlined(self) -> bool {
        &&& forall|i: int|
            0 <= i < self.buttons@.len() ==> (#[trigger] self.buttons@[i]).shape.valid()
        &&& forall|i: int| 0 <= i < self.axes@.len() ==> (#[trigger] self.axes@[i]).shape.valid()
    }
}

pub proof fn lemma_extents_valid(inputs: Inputs)
    requires
        inputs.outlined(),
    ensures
        forall|k: int|
            0 <= k < inputs.extents().len() ==> ((#[trigger] inputs.extents()[k]) matches Some(r)
                ==> r.valid()),
{
    let parts = inputs.extents();
    let nb = inputs.buttons@.len() as int;
    let ns = inputs.sticks@.len() as int;
    assert forall|k: int| 0 <= k < parts.len() implies ((#[trigger] parts[k]) matches Some(r)
        ==> r.valid()) by {
        if k < nb {
            assert(inputs.buttons@[k].shape.valid());
            assert(parts[k] == inputs.buttons@[k].extent());
        } else if k < nb + ns {
            let s = inputs.sticks@[k - nb];
            assert(parts[k] == s.extent());
            assert(s.shape.grown(s.displacement) matches Some(r) ==> r.valid());
        } else {
            assert(inputs.axes@[k - nb - ns].shape.valid());
            assert(parts[k] == inputs.axes@[k - nb - ns].extent());
        }
    }
}

proof fn lemma_bounds_valid(inputs: Inputs)
    requires
        inputs.outlined(),
        hull(inputs.extents()) is Some,
        inputs.extents().len() > 0,
    ensures
        hull(inputs.extents())->0.valid(),
{
    lemma_extents_valid(inputs);
    lemma_hull_covers(inputs.extents(), 0);
}

/// The bounds of a layout, where it has any, cover every item of it.
pub proof fn lemma_bounds_cover(inputs: Inputs, i: int)
    requires
        inputs.outlined(),
        hull(inputs.extents()) is Some,
        0 <= i < inputs.extents().len(),
    ensures
        inputs.extents()[i] is Some,
        hull(inputs.extents())->0.covers(inputs.extents()[i]->0),
{
    lemma_extents_valid(inputs);
    lemma_hull_covers(inputs.extents(), i);
}

/// Whether a length is one: finite and not negative.
pub open spec fn length(v: Scalar) -> bool {
    v.is_finite() && v.value() >= 0
}

impl Inputs {
    /// Whether all outlines are rectangles, and all lines and displacements lengths.
    pub open spec fn sound(self) -> bool {
        &&& forall|i: int|
            0 <= i < self.buttons@.len() ==> ({
                let b = #[trigger] self.buttons@[i];
                b.shape.valid() && (b.outline matches Some((_, w)) ==> length(w))
            })
        &&& forall|i: int|
            0 <= i < self.axes@.len() ==> ({
                let a = #[trigger] self.axes@[i];
                a.shape.valid() && (a.outline matches Some((_, w)) ==> length(w))
            })
        &&& forall|i: int|
            0 <= i < self.sticks@.len() ==> ({
                let s = #[trigger] self.sticks@[i];
                &&& s.shape.valid()
                &&& length(s.displacement)
                &&& s.outline matches Some((_, w)) ==> length(w)
                &&& s.gate matches Some((g, _, w)) ==> g.valid() && length(w)
            })
    }
}

proof fn lemma_edge_out(x: Scalar, by: Scalar)
    requires
        x.is_finite(),
        length(by),
    ensures
        x.difference(by).value() <= x.value() <= x.sum(by).value(),
{
    lemma_negated(by);
    crate::arith::lemma_sum_order(x, by.negated());
    crate::arith::lemma_sum_order(x, by);
}

pub proof fn lemma_grown_covers(r: Rect, by: Scalar)
    requires
        r.valid(),
        length(by),
    ensures
        r.grown(by) matches Some(g) ==> g.valid() && g.covers(r),
{
    lemma_edge_out(r.left, by);
    lemma_edge_out(r.top, by);
    lemma_edge_out(r.right, by);
    lemma_edge_out(r.bottom, by);
    if let Some(g) = r.grown(by) {
        assert(g.left == r.left.difference(by) && g.top == r.top.difference(by));
        assert(g.right == r.right.sum(by) && g.bottom == r.bottom.sum(by));
    }
}

proof fn lemma_edge_inside(x: Scalar, y: Scalar)
    requires
        x.is_finite(),
        y.is_finite(),
        y.value() <= x.value(),
    ensures
        x.sum(y.negated()).value() >= 0,
        y.negated().equals(Scalar { bits: 0 }) ==> x.value() >= 0,
{
    crate::scalar::lemma_one();
    lemma_negated(y);
    crate::arith::lemma_sum_order(x, y.negated());
}

/// The other sign means the other value.
pub proof fn lemma_negated(y: Scalar)
    ensures
        y.negated().value() == -y.value(),
        y.negated().is_finite() == y.is_finite(),
        y.negated().is_nan() == y.is_nan(),
{
}

proof fn lemma_moved_inside(b: Rect, r: Rect)
    requires
        b.valid(),
        r.valid(),
        b.covers(r),
    ensures
        r.moved(b.left.negated(), b.top.negated()) matches Some(m) ==> m.left.value() >= 0
            && m.top.value() >= 0,
{
    lemma_edge_inside(r.left, b.left);
    lemma_edge_inside(r.top, b.top);
    let zero = Scalar { bits: 0 };
    let dx = b.left.negated();
    let dy = b.top.negated();
    if dx.equals(zero) && dy.equals(zero) {
        assert(r.moved(dx, dy) == Some(r));
    } else if let Some(m) = r.moved(dx, dy) {
        assert(m.left == r.left.sum(dx));
        assert(m.top == r.top.sum(dy));
    }
}

pub proof fn lemma_stick_covers(s: Stick)
    requires
        s.shape.valid(),
        length(s.displacement),
        s.outline matches Some((_, w)) ==> length(w),
        s.gate matches Some((g, _, w)) ==> g.valid() && length(w),
    ensures
        s.extent() matches Some(e) ==> {
            &&& e.covers(s.shape)
            &&& s.gate matches Some((g, _, _)) ==> e.covers(g)
        },
{
    lemma_grown_covers(s.shape, s.displacement);
    if let Some(r) = s.shape.grown(s.displacement) {
        if let Some((_, w)) = s.outline {
            lemma_grown_covers(r, w);
        }
        if let Some(reach) = s.reach() {
            if let Some((g, _, w)) = s.gate {
                lemma_grown_covers(g, w);
                if let Some(outer) = g.grown(w) {
                    lemma_joined_covers(reach, outer);
                }
            }
        }
    }
}

proof fn lemma_sound_outlined(inputs: Inputs)
    requires
        inputs.sound(),
    ensures
        inputs.outlined(),
{
}

proof fn lemma_button_inside(before: Inputs, b: Rect, i: int)
    requires
        before.sound(),
        hull(before.extents()) == Some(b),
        b.valid(),
        0 <= i < before.buttons@.len(),
    ensures
        before.buttons@[i].shape.moved(b.left.negated(), b.top.negated()) matches Some(m)
            ==> m.left.value() >= 0 && m.top.value() >= 0,
{
    let item = before.buttons@[i];
    assert(before.extents()[i] == item.extent());
    lemma_sound_outlined(before);
    lemma_bounds_cover(before, i);
    if let Some((_, w)) = item.outline {
        lemma_grown_covers(item.shape, w);
    }
    lemma_covers_through(b, item.extent()->0, item.shape);
    lemma_moved_inside(b, item.shape);
}

proof fn lemma_axis_inside(before: Inputs, b: Rect, i: int)
    requires
        before.sound(),
        hull(before.extents()) == Some(b),
        b.valid(),
        0 <= i < before.axes@.len(),
    ensures
        before.axes@[i].shape.moved(b.left.negated(), b.top.negated()) matches Some(m)
            ==> m.left.value() >= 0 && m.top.value() >= 0,
{
    let item = before.axes@[i];
    let k = before.buttons@.len() + before.sticks@.len() + i;
    assert(before.extents()[k] == item.extent());
    lemma_sound_outlined(before);
    lemma_bounds_cover(before, k);
    if let Some((_, w)) = item.outline {
        lemma_grown_covers(item.shape, w);
    }
    lemma_covers_through(b, item.extent()->0, item.shape);
    lemma_moved_inside(b, item.shape);
}

proof fn lemma_stick_inside(before: Inputs, b: Rect, i: int)
    requires
        before.sound(),
        hull(before.extents()) == Some(b),
        b.valid(),
        0 <= i < before.sticks@.len(),
    ensures
        before.sticks@[i].shape.moved(b.left.negated(), b.top.negated()) matches Some(m)
            ==> m.left.value() >= 0 && m.top.value() >= 0,
        before.sticks@[i].gate matches Some((g, _, _)) ==> (g.moved(
            b.left.negated(),
            b.top.negated(),
        ) matches Some(m) ==> m.left.value() >= 0 && m.top.value() >= 0),
{
    let item = before.sticks@[i];
    let k = before.buttons@.len() + i;
    assert(before.extents()[k] == item.extent());
    lemma_sound_outlined(before);
    lemma_bounds_cover(before, k);
    lemma_stick_covers(item);
    lemma_covers_through(b, item.extent()->0, item.shape);
    lemma_moved_inside(b, item.shape);
    if let Some((g, _, _)) = item.gate {
        lemma_covers_through(b, item.extent()->0, g);
        lemma_moved_inside(b, g);
    }
}

/// After minimizing, no outline reaches beyond the left or the top of the image.
pub proof fn lemma_minimized_inside(before: Inputs, after: Inputs, i: int)
    requires
        before.sound(),
        hull(before.extents()) matches Some(b) && after.moved_from(
            before,
            b.left.negated(),
            b.top.negated(),
        ),
        0 <= i,
    ensures
        i < after.buttons@.len() ==> after.buttons@[i].shape.left.value() >= 0
            && after.buttons@[i].shape.top.value() >= 0,
        i < after.axes@.len() ==> after.axes@[i].shape.left.value() >= 0
            && after.axes@[i].shape.top.value() >= 0,
        i < after.sticks@.len() ==> after.sticks@[i].shape.left.value() >= 0
            && after.sticks@[i].shape.top.value() >= 0,
        i < after.sticks@.len() ==> (after.sticks@[i].gate matches Some((g, _, _))
            ==> g.left.value() >= 0 && g.top.value() >= 0),
{
    let b = hull(before.extents())->0;
    let dx = b.left.negated();
    let dy = b.top.negated();
    if before.extents().len() > 0 {
        lemma_sound_outlined(before);
        lemma_bounds_valid(before);
    }
    if i < after.buttons@.len() {
        lemma_button_inside(before, b, i);
        assert(Some(after.buttons@[i]) == before.buttons@[i].shifted(dx, dy));
    }
    if i < after.axes@.len() {
        lemma_axis_inside(before, b, i);
        assert(Some(after.axes@[i]) == before.axes@[i].shifted(dx, dy));
    }
    if i < after.sticks@.len() {
        lemma_stick_inside(before, b, i);
        assert(Some(after.sticks@[i]) == before.sticks@[i].shifted(dx, dy));
    }
}

} // verus!
