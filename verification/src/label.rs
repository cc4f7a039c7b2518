//! Button labels: how large the text is, where each glyph goes, and how it mixes with what is
//! below it.

use crate::canvas::{pixel_at, put_pixel};
use crate::layout::Color;
use crate::scalar::{Scalar, ONE};
use crate::text::chars_of;
use tiny_skia::Pixmap;
use vstd::prelude::*;

verus! {

/// The bit pattern of 2.
pub const TWO: u32 = 0x4000_0000;

/// The bit pattern of 1/2.
pub const HALF: u32 = 0x3f00_0000;

/// The bit pattern of 0.75: the height of the text, as a share of the button's diameter.
pub const TEXT_HEIGHT: u32 = 0x3f40_0000;

/// The bit pattern of 0.92: the greatest width of the text, as a share of the button's diameter.
pub const TEXT_WIDTH: u32 = 0x3f6b_851f;

/// The bit pattern of 0.7: the width of an arrow, as a share of the height of the text.
pub const ARROW_WIDTH: u32 = 0x3f33_3333;

/// The bit pattern of 0.35: half the width of an arrow.
pub const ARROW_CENTER: u32 = 0x3eb3_3333;

/// The bit pattern of 0.28: half the length of an arrow, as a share of the height of the text.
pub const ARROW_REACH: u32 = 0x3e8f_5c29;

/// The bit pattern of 0.9: how opaque the shadow of the text is.
pub const SHADOW: u32 = 0x3f66_6666;

/// The bit pattern of 255.
pub const FULL: u32 = 0x437f_0000;

/// The bit pattern of -1.
pub const MINUS_ONE: u32 = 0xbf80_0000;

/// Whether `c` is an arrow.
pub open spec fn arrow(c: char) -> bool {
    c == '←' || c == '→' || c == '↑' || c == '↓'
}

/// Whether `c` is an arrow. Arrows are drawn as shapes: the label font lacks them.
pub fn is_arrow(c: char) -> (r: bool)
    ensures
        r == arrow(c),
{
    c == '←' || c == '→' || c == '↑' || c == '↓'
}

// ---------------------------------------------------------------------------
// Arrows
// ---------------------------------------------------------------------------

/// The corners of the triangle that shows the arrow `c`, for text of the height `size` around
/// (`x`, `y`); `None` if `c` is no arrow.
pub open spec fn arrow_shape(c: char, x: Scalar, y: Scalar, size: Scalar) -> Option<
    ((Scalar, Scalar), (Scalar, Scalar), (Scalar, Scalar)),
> {
    let reach = size.product(Scalar { bits: ARROW_REACH });
    let wide = reach.product(Scalar { bits: ARROW_WIDTH });
    if c == '→' {
        Some(
            (
                (x.sum(reach), y),
                (x.difference(reach), y.difference(wide)),
                (x.difference(reach), y.sum(wide)),
            ),
        )
    } else if c == '←' {
        Some(
            (
                (x.difference(reach), y),
                (x.sum(reach), y.difference(wide)),
                (x.sum(reach), y.sum(wide)),
            ),
        )
    } else if c == '↑' {
        Some(
            (
                (x, y.difference(reach)),
                (x.difference(wide), y.sum(reach)),
                (x.sum(wide), y.sum(reach)),
            ),
        )
    } else if c == '↓' {
        Some(
            (
                (x, y.sum(reach)),
                (x.difference(wide), y.difference(reach)),
                (x.sum(wide), y.difference(reach)),
            ),
        )
    } else {
        None
    }
}

/// The corners of the triangle that shows the arrow `ch`, for text of the height `font_size`
/// around (`cx`, `cy`); `None` if `ch` is no arrow.
pub fn draw_arrow_glyph(ch: char, cx: Scalar, cy: Scalar, font_size: Scalar) -> (r: Option<
    ((Scalar, Scalar), (Scalar, Scalar), (Scalar, Scalar)),
>)
    ensures
        r == arrow_shape(ch, cx, cy, font_size),
        r is Some == arrow(ch),
{
    let hs = font_size.times(Scalar { bits: ARROW_REACH });
    let hw = hs.times(Scalar { bits: ARROW_WIDTH });
    if ch == '→' {
        Some(((cx.plus(hs), cy), (cx.minus(hs), cy.minus(hw)), (cx.minus(hs), cy.plus(hw))))
    } else if ch == '←' {
        Some(((cx.minus(hs), cy), (cx.plus(hs), cy.minus(hw)), (cx.plus(hs), cy.plus(hw))))
    } else if ch == '↑' {
        Some(((cx, cy.minus(hs)), (cx.minus(hw), cy.plus(hs)), (cx.plus(hw), cy.plus(hs))))
    } else if ch == '↓' {
        Some(((cx, cy.plus(hs)), (cx.minus(hw), cy.minus(hs)), (cx.plus(hw), cy.minus(hs))))
    } else {
        None
    }
}

// ---------------------------------------------------------------------------
// Layout of the text
// ---------------------------------------------------------------------------

/// The width of a character in text of the height `size`: that of its glyph, or of an arrow.
pub open spec fn advance(c: char, glyph: Scalar, size: Scalar) -> Scalar {
    if arrow(c) {
        size.product(Scalar { bits: ARROW_WIDTH })
    } else {
        glyph
    }
}

/// Where the character at `n` starts, in text of the height `size` with these glyph widths.
pub open spec fn cursor(text: Seq<char>, glyphs: Seq<Scalar>, size: Scalar, n: nat) -> Scalar
    decreases n,
{
    if n == 0 {
        Scalar { bits: 0 }
    } else {
        cursor(text, glyphs, size, (n - 1) as nat).sum(
            advance(text[n - 1], glyphs[n - 1], size),
        )
    }
}

/// The height of the text on a button with the given radius, before it is made to fit.
pub open spec fn starting_size(radius: Scalar) -> Scalar {
    radius.product(Scalar { bits: TWO }).product(Scalar { bits: TEXT_HEIGHT })
}

/// The height of the text on a button with the given radius, before it is made to fit.
pub fn initial_size(radius: Scalar) -> (r: Scalar)
    ensures
        r == starting_size(radius),
        r == radius.product(Scalar { bits: TWO }).product(Scalar { bits: TEXT_HEIGHT }),
{
    radius.times(Scalar { bits: TWO }).times(Scalar { bits: TEXT_HEIGHT })
}

/// The height of the text on a button with the given radius: less than at first where the text,
/// with these glyph widths at first, would be too wide.
pub open spec fn fitted(text: Seq<char>, glyphs: Seq<Scalar>, radius: Scalar) -> Scalar {
    let diameter = radius.product(Scalar { bits: TWO });
    let initial = diameter.product(Scalar { bits: TEXT_HEIGHT });
    let measured = cursor(text, glyphs, initial, text.len());
    let widest = diameter.product(Scalar { bits: TEXT_WIDTH });
    if widest.below(measured) {
        initial.product(widest).quotient(measured)
    } else {
        initial
    }
}

fn text_width(chars: &Vec<char>, glyphs: &Vec<Scalar>, size: Scalar) -> (r: Scalar)
    requires
        glyphs@.len() == chars@.len(),
    ensures
        r == cursor(chars@, glyphs@, size, chars@.len()),
{
    let mut x = Scalar { bits: 0 };
    let mut i: usize = 0;
    while i < chars.len()
        invariant
            glyphs@.len() == chars@.len(),
            i <= chars@.len(),
            x == cursor(chars@, glyphs@, size, i as nat),
        decreases chars@.len() - i,
    {
        let w = if is_arrow(chars[i]) {
            size.times(Scalar { bits: ARROW_WIDTH })
        } else {
            glyphs[i]
        };
        x = x.plus(w);
        i += 1;
    }
    x
}

/// The height of the text on a button with the given radius, given the width that the glyph of
/// each character has at the initial size.
pub fn fit_font(text: &str, glyphs: &Vec<Scalar>, radius: Scalar) -> (r: Scalar)
    requires
        glyphs@.len() == text@.len(),
    ensures
        r == fitted(text@, glyphs@, radius),
{
    let chars = chars_of(text);
    let diameter = radius.times(Scalar { bits: TWO });
    let initial = diameter.times(Scalar { bits: TEXT_HEIGHT });
    let measured = text_width(&chars, glyphs, initial);
    let widest = diameter.times(Scalar { bits: TEXT_WIDTH });
    if widest.lt(measured) {
        initial.times(widest).over(measured)
    } else {
        initial
    }
}

/// Where the text of a label goes.
#[derive(Debug)]
pub struct Placement {
    /// The baseline of the text.
    pub baseline: Scalar,
    /// The left end of the text.
    pub start: Scalar,
    /// How far from the left end each character starts.
    pub offsets: Vec<Scalar>,
}

/// Whether the text is placed around a point, at whole pixels, given the height of the text, the
/// width of each glyph, and how far the font reaches above and below (negative) the baseline.
pub open spec fn placed(
    r: Placement,
    text: Seq<char>,
    glyphs: Seq<Scalar>,
    font_size: Scalar,
    reach: (Scalar, Scalar),
    center: (Scalar, Scalar),
) -> bool {
    let two = Scalar { bits: TWO };
    &&& r.baseline == center.1.sum(reach.0.sum(reach.1).quotient(two)).rounded()
    &&& r.start == center.0.difference(
        cursor(text, glyphs, font_size, text.len()).quotient(two),
    ).rounded()
    &&& r.offsets@ == Seq::new(text.len(), |i: int| cursor(text, glyphs, font_size, i as nat))
}

/// Centers the text on (`cx`, `cy`), at whole pixels, given the height of the text, the width of
/// each glyph, and how far the font reaches above and below (negative) the baseline.
pub fn place_label(
    text: &str,
    glyphs: &Vec<Scalar>,
    font_size: Scalar,
    ascent: Scalar,
    descent: Scalar,
    cx: Scalar,
    cy: Scalar,
) -> (r: Placement)
    requires
        glyphs@.len() == text@.len(),
    ensures
        r.baseline == cy.sum(ascent.sum(descent).quotient(Scalar { bits: TWO })).rounded(),
        r.start == cx.difference(
            cursor(text@, glyphs@, font_size, text@.len()).quotient(Scalar { bits: TWO }),
        ).rounded(),
        r.offsets@ == Seq::new(text@.len(), |i: int| cursor(text@, glyphs@, font_size, i as nat)),
        placed(r, text@, glyphs@, font_size, (ascent, descent), (cx, cy)),
{
    let chars = chars_of(text);
    let baseline = cy.plus(ascent.plus(descent).over(Scalar { bits: TWO })).round();
    let mut offsets: Vec<Scalar> = Vec::new();
    let mut x = Scalar { bits: 0 };
    let mut i: usize = 0;
    while i < chars.len()
        invariant
            chars@ == text@,
            glyphs@.len() == chars@.len(),
            i <= chars@.len(),
            x == cursor(chars@, glyphs@, font_size, i as nat),
            offsets@ == Seq::new(i as nat, |k: int| cursor(text@, glyphs@, font_size, k as nat)),
        decreases chars@.len() - i,
    {
        offsets.push(x);
        let w = if is_arrow(chars[i]) {
            font_size.times(Scalar { bits: ARROW_WIDTH })
        } else {
            glyphs[i]
        };
        x = x.plus(w);
        i += 1;
    }
    let start = cx.minus(x.over(Scalar { bits: TWO })).round();
    Placement { baseline, start, offsets }
}

/// One glyph to draw: a character, where its outline starts, and its color.
#[derive(Debug, Clone, Copy, PartialEq, Eq, Structural)]
pub struct Stamp {
    pub glyph: char,
    pub x: Scalar,
    pub y: Scalar,
    pub color: Color,
}

/// The color of a label's shadow.
pub open spec fn shadow() -> Color {
    Color {
        red: Scalar { bits: 0 },
        green: Scalar { bits: 0 },
        blue: Scalar { bits: 0 },
        alpha: Scalar { bits: SHADOW },
    }
}

/// The glyphs of the first `n` characters that are no arrows, moved by `dx` and `dy`.
pub open spec fn layer(
    text: Seq<char>,
    at: Placement,
    dx: Scalar,
    dy: Scalar,
    color: Color,
    n: nat,
) -> Seq<Stamp>
    decreases n,
{
    if n == 0 {
        seq![]
    } else {
        let before = layer(text, at, dx, dy, color, (n - 1) as nat);
        if arrow(text[n - 1]) {
            before
        } else {
            before.push(
                Stamp {
                    glyph: text[n - 1],
                    x: at.start.sum(at.offsets@[n - 1]).sum(dx),
                    y: at.baseline.sum(dy),
                    color,
                },
            )
        }
    }
}

/// The layers of a label from the bottom up: a shadow towards each of the four corners, then the
/// text itself.
pub open spec fn layers(text: Seq<char>, at: Placement, color: Color) -> Seq<Stamp> {
    let one = Scalar { bits: ONE };
    let less = Scalar { bits: MINUS_ONE };
    let zero = Scalar { bits: 0 };
    layer(text, at, less, less, shadow(), text.len()) + layer(
        text,
        at,
        one,
        less,
        shadow(),
        text.len(),
    ) + layer(text, at, less, one, shadow(), text.len()) + layer(
        text,
        at,
        one,
        one,
        shadow(),
        text.len(),
    ) + layer(text, at, zero, zero, color, text.len())
}

fn stamp_layer(
    chars: &Vec<char>,
    at: &Placement,
    dx: Scalar,
    dy: Scalar,
    color: Color,
) -> (out: Vec<Stamp>)
    requires
        at.offsets@.len() == chars@.len(),
    ensures
        out@ == layer(chars@, *at, dx, dy, color, chars@.len()),
{
    let mut out: Vec<Stamp> = Vec::new();
    let mut i: usize = 0;
    while i < chars.len()
        invariant
            at.offsets@.len() == chars@.len(),
            i <= chars@.len(),
            out@ == layer(chars@, *at, dx, dy, color, i as nat),
        decreases chars@.len() - i,
    {
        if !is_arrow(chars[i]) {
            out.push(
                Stamp {
                    glyph: chars[i],
                    x: at.start.plus(at.offsets[i]).plus(dx),
                    y: at.baseline.plus(dy),
                    color,
                },
            );
        }
        i += 1;
    }
    out
}

/// The glyphs of a label in the order they are drawn.
pub fn label_stamps(text: &str, at: &Placement, color: Color) -> (r: Vec<Stamp>)
    requires
        at.offsets@.len() == text@.len(),
    ensures
        r@ == layers(text@, *at, color),
{
    let chars = chars_of(text);
    let one = Scalar { bits: ONE };
    let less = Scalar { bits: MINUS_ONE };
    let zero = Scalar { bits: 0 };
    let dark = Color { red: zero, green: zero, blue: zero, alpha: Scalar { bits: SHADOW } };
    let mut r = stamp_layer(&chars, at, less, less, dark);
    let mut next = stamp_layer(&chars, at, one, less, dark);
    r.append(&mut next);
    let mut next = stamp_layer(&chars, at, less, one, dark);
    r.append(&mut next);
    let mut next = stamp_layer(&chars, at, one, one, dark);
    r.append(&mut next);
    let mut next = stamp_layer(&chars, at, zero, zero, color);
    r.append(&mut next);
    r
}

/// The arrows among the first `n` characters of a label, each with its center.
pub open spec fn arrow_marks(
    text: Seq<char>,
    at: Placement,
    cy: Scalar,
    font_size: Scalar,
    n: nat,
) -> Seq<(char, Scalar, Scalar)>
    decreases n,
{
    if n == 0 {
        seq![]
    } else {
        let before = arrow_marks(text, at, cy, font_size, (n - 1) as nat);
        if arrow(text[n - 1]) {
            before.push(
                (
                    text[n - 1],
                    at.start.sum(at.offsets@[n - 1]).sum(
                        font_size.product(Scalar { bits: ARROW_CENTER }),
                    ),
                    cy,
                ),
            )
        } else {
            before
        }
    }
}

/// The arrows of a label, each with its center, in the order they are drawn: after the glyphs.
pub fn label_arrows(text: &str, at: &Placement, cy: Scalar, font_size: Scalar) -> (r: Vec<
    (char, Scalar, Scalar),
>)
    requires
        at.offsets@.len() == text@.len(),
    ensures
        r@ == arrow_marks(text@, *at, cy, font_size, text@.len()),
{
    let chars = chars_of(text);
    let mut r: Vec<(char, Scalar, Scalar)> = Vec::new();
    let mut i: usize = 0;
    while i < chars.len()
        invariant
            chars@ == text@,
            at.offsets@.len() == chars@.len(),
            i <= chars@.len(),
            r@ == arrow_marks(text@, *at, cy, font_size, i as nat),
        decreases chars@.len() - i,
    {
        if is_arrow(chars[i]) {
            let x = at.start.plus(at.offsets[i]).plus(
                font_size.times(Scalar { bits: ARROW_CENTER }),
            );
            r.push((chars[i], x, cy));
        }
        i += 1;
    }
    r
}

// ---------------------------------------------------------------------------
// Mixing a glyph with the image
// ---------------------------------------------------------------------------

/// One color of a pixel, `below`, with `above` put over it at an opacity of `alpha`.
#[verifier::opaque]
pub open spec fn mixed(above: Scalar, alpha: Scalar, below: u8) -> u8 {
    let rest = (Scalar { bits: ONE }).difference(alpha);
    above.product(alpha).sum(
        Scalar::of(false, below as nat).quotient(Scalar { bits: FULL }).product(rest),
    ).product(Scalar { bits: FULL }).byte() as u8
}

/// The opacity of a pixel of the opacity `below`, with something of the opacity `alpha` over it.
#[verifier::opaque]
pub open spec fn mixed_alpha(alpha: Scalar, below: u8) -> u8 {
    let rest = (Scalar { bits: ONE }).difference(alpha);
    alpha.sum(
        Scalar::of(false, below as nat).quotient(Scalar { bits: FULL }).product(rest),
    ).product(Scalar { bits: FULL }).byte() as u8
}

/// The pixel `below` where a glyph of the given color covers a share of `coverage` of it.
pub open spec fn inked(below: (u8, u8, u8, u8), color: Color, coverage: Scalar) -> (
    u8,
    u8,
    u8,
    u8,
) {
    let alpha = color.alpha.product(coverage);
    let a = mixed_alpha(alpha, below.3);
    (
        crate::canvas::at_most(mixed(color.red, alpha, below.0), a),
        crate::canvas::at_most(mixed(color.green, alpha, below.1), a),
        crate::canvas::at_most(mixed(color.blue, alpha, below.2), a),
        a,
    )
}

fn mix(above: Scalar, alpha: Scalar, below: u8) -> (r: u8)
    ensures
        r == mixed(above, alpha, below),
{
    reveal(mixed);
    let rest = Scalar { bits: ONE }.minus(alpha);
    above.times(alpha).plus(
        Scalar::whole(below as u32).over(Scalar { bits: FULL }).times(rest),
    ).times(Scalar { bits: FULL }).to_byte()
}

fn mix_alpha(alpha: Scalar, below: u8) -> (r: u8)
    ensures
        r == mixed_alpha(alpha, below),
{
    reveal(mixed_alpha);
    let rest = Scalar { bits: ONE }.minus(alpha);
    alpha.plus(Scalar::whole(below as u32).over(Scalar { bits: FULL }).times(rest)).times(
        Scalar { bits: FULL },
    ).to_byte()
}

/// Draws one pixel of a glyph: the glyph, which starts at (`left`, `top`) in the image, covers a
/// share of `coverage` of its pixel (`x`, `y`). Outside the image nothing happens.
pub fn ink_pixel(
    img: &mut Pixmap,
    left: i32,
    top: i32,
    x: u32,
    y: u32,
    coverage: Scalar,
    color: Color,
)
    requires
        x <= i32::MAX,
        y <= i32::MAX,
        left + x <= i32::MAX,
        top + y <= i32::MAX,
    ensures
        crate::canvas::pixmap_size(*final(img)) == crate::canvas::pixmap_size(*old(img)),
        ({
            let data = crate::canvas::pixmap_data(*old(img));
            crate::canvas::pixmap_data(*final(img)) == match crate::canvas::place(
                crate::canvas::pixmap_size(*old(img)),
                data.len(),
                left + x,
                top + y,
            ) {
                Some(i) => crate::canvas::painted(
                    data,
                    i,
                    inked(crate::canvas::pixel_of(data, i), color, coverage),
                ),
                None => data,
            }
        }),
{
    let px: i32 = (left as i64 + x as i64) as i32;
    let py: i32 = (top as i64 + y as i64) as i32;
    if let Some((index, below)) = pixel_at(img, px, py) {
        let alpha = color.alpha.times(coverage);
        let a = mix_alpha(alpha, below.3);
        let r = mix(color.red, alpha, below.0);
        let g = mix(color.green, alpha, below.1);
        let b = mix(color.blue, alpha, below.2);
        put_pixel(img, index, r, g, b, a);
    }
}

/// The range of characters.
pub proof fn lemma_char(c: char)
    ensures
        0 <= c as int <= 0x10_ffff,
        !(0xd800 <= c as int <= 0xdfff),
{
}

/// Every character of a label is drawn one way: as a glyph in each layer, or as an arrow.
pub proof fn lemma_each_drawn(
    text: Seq<char>,
    at: Placement,
    dx: Scalar,
    dy: Scalar,
    color: Color,
    cy: Scalar,
    font_size: Scalar,
    n: nat,
)
    requires
        at.offsets@.len() == text.len(),
        n <= text.len(),
    ensures
        layer(text, at, dx, dy, color, n).len() + arrow_marks(text, at, cy, font_size, n).len()
            == n,
        forall|i: int|
            0 <= i < layer(text, at, dx, dy, color, n).len() ==> !arrow(
                (#[trigger] layer(text, at, dx, dy, color, n)[i]).glyph,
            ),
        forall|i: int|
            0 <= i < arrow_marks(text, at, cy, font_size, n).len() ==> arrow(
                (#[trigger] arrow_marks(text, at, cy, font_size, n)[i]).0,
            ),
    decreases n,
{
    if n > 0 {
        lemma_each_drawn(text, at, dx, dy, color, cy, font_size, (n - 1) as nat);
        lemma_char(text[n - 1]);
    }
}

/// Ink keeps colors within alpha.
pub proof fn lemma_ink_valid(below: (u8, u8, u8, u8), color: Color, coverage: Scalar)
    ensures
        inked(below, color, coverage).0 <= inked(below, color, coverage).3,
        inked(below, color, coverage).1 <= inked(below, color, coverage).3,
        inked(below, color, coverage).2 <= inked(below, color, coverage).3,
{
}

} // verus!
