//! Live reloading: showing a layout that was read again.

use crate::canvas::blank;
use crate::gamepad::{Backend, Gamepad};
use crate::layout::Config;
use crate::scalar::Scalar;
use tiny_skia::Pixmap;
use vstd::prelude::*;

verus! {

/// What became of a layout that was read again.
#[derive(Debug, Clone, Copy, PartialEq, Eq, Structural)]
pub enum Reload {
    /// It could not be read, so everything stays as it is.
    Refused,
    /// It fits no rectangle, or there is no image of its size. Everything stays as it is.
    Unfit,
    /// It is to be drawn on the same image.
    Kept,
    /// It is to be drawn on a new image.
    Resized,
}

/// The size in pixels of an image of a layout at a resolution of `scale`, once the layout is at
/// the origin; `None` if it fits no rectangle.
pub open spec fn size_for<B: Backend>(config: Config, scale: Scalar) -> Option<(u32, u32)> {
    match config.bounds() {
        Some(b) => Some(Gamepad::<B>::size_of(b, scale)),
        None => None,
    }
}

/// What becomes of a layout that was read again, `None` if it could not be read.
pub open spec fn outcome<B: Backend>(
    gamepad: Gamepad<B>,
    img: Pixmap,
    config: Option<Config>,
) -> Reload {
    match config {
        Some(c) => match size_for::<B>(c, gamepad.scale) {
            Some(size) => if size == crate::canvas::pixmap_size(img) {
                Reload::Kept
            } else if crate::canvas::possible(size.0, size.1) {
                Reload::Resized
            } else {
                Reload::Unfit
            },
            None => Reload::Unfit,
        },
        None => Reload::Refused,
    }
}

/// A layout with its labels drawn into the image or not.
pub open spec fn labelled(config: Config, web: bool) -> Config {
    Config { show_labels: config.show_labels && !web, ..config }
}

/// Whether reloading leaves `gamepad` and `img` behind: those of `before`, or the new layout at
/// the origin and an image of its size, a transparent one where that is a new image.
pub open spec fn reloaded<B: Backend>(
    before: (Gamepad<B>, Pixmap),
    config: Option<Config>,
    web: bool,
    gamepad: Gamepad<B>,
    img: Pixmap,
) -> bool {
    match (outcome(before.0, before.1, config), config) {
        (Reload::Kept, Some(c)) => {
            &&& gamepad.replaced(before.0, labelled(c, web))
            &&& img == before.1
        },
        (Reload::Resized, Some(c)) => {
            &&& gamepad.replaced(before.0, labelled(c, web))
            &&& Some(crate::canvas::pixmap_size(img)) == size_for::<B>(c, before.0.scale)
            &&& crate::canvas::pixmap_data(img) == crate::canvas::transparent(
                crate::canvas::pixmap_size(img),
            )
        },
        _ => gamepad == before.0 && img == before.1,
    }
}

/// Whether labels are drawn into the image, where the layout has them shown or not: in web mode
/// the label page shows them.
pub fn draws_labels(web: bool, show_labels: bool) -> (r: bool)
    ensures
        r == (show_labels && !web),
{
    show_labels && !web
}

/// Takes in a layout that was read again, `None` if it could not be read. Where the result says
/// so, the overlay is then to be drawn on `img`.
pub fn reload<B: Backend>(
    gamepad: &mut Gamepad<B>,
    img: &mut Pixmap,
    config: Option<Config>,
    web: bool,
) -> (r: Reload)
    ensures
        r == outcome(*old(gamepad), *old(img), config),
        reloaded((*old(gamepad), *old(img)), config, web, *final(gamepad), *final(img)),
{
    let config = match config {
        Some(c) => c,
        None => return Reload::Refused,
    };
    let ghost read = config;
    let labels = draws_labels(web, config.show_labels);
    let inputs = match config.arrange() {
        Some(inputs) => inputs,
        None => return Reload::Unfit,
    };
    proof {
        crate::layout::lemma_arranged_bounds(read, inputs);
    }
    let (width, height) = match inputs.bounds() {
        Some(b) => (b.right.times(gamepad.scale).pixels(), b.bottom.times(gamepad.scale).pixels()),
        None => return Reload::Unfit,
    };
    let mut r = Reload::Kept;
    if img.width() != width || img.height() != height {
        match blank(width, height) {
            Some(new) => *img = new,
            None => return Reload::Unfit,
        }
        r = Reload::Resized;
    }
    gamepad.replace(inputs, labels);
    r
}

/// An accepted layout is shown at the origin, on an image of its size and at the same resolution;
/// a refused one changes nothing.
pub proof fn lemma_reloaded<B: Backend>(
    before: (Gamepad<B>, Pixmap),
    config: Option<Config>,
    web: bool,
    gamepad: Gamepad<B>,
    img: Pixmap,
)
    requires
        reloaded(before, config, web, gamepad, img),
    ensures
        match outcome(before.0, before.1, config) {
            Reload::Kept | Reload::Resized => {
                &&& gamepad.wf()
                &&& config matches Some(c) && c.arranged(gamepad.inputs)
                &&& gamepad.scale == before.0.scale
                &&& gamepad.size() == Some(crate::canvas::pixmap_size(img))
            },
            Reload::Refused | Reload::Unfit => gamepad == before.0 && img == before.1,
        },
{
    if let Some(c) = config {
        if c.arranged(gamepad.inputs) {
            crate::layout::lemma_arranged_bounds(c, gamepad.inputs);
        }
    }
}

/// What becomes of a layout that was read again depends on the image it needs: a gamepad with that
/// layout at the origin, at the same scale, is drawn on the same image exactly if that has its
/// size, and else on a new one, if there can be one of that size.
pub proof fn lemma_reload_decided<B: Backend>(
    before: (Gamepad<B>, Pixmap),
    config: Config,
    new: Gamepad<B>,
)
    requires
        config.arranged(new.inputs),
        new.scale == before.0.scale,
    ensures
        ({
            let r = outcome(before.0, before.1, Some(config));
            let size = new.size();
            let fits = size matches Some((w, h)) && 0 < w <= 0x1fff_ffff && 0 < h && 4 * (w as int
                * h as int) <= isize::MAX;
            &&& r is Kept <==> size == Some(crate::canvas::pixmap_size(before.1))
            &&& r is Resized <==> size != Some(crate::canvas::pixmap_size(before.1)) && fits
            &&& !(r is Refused)
        }),
        outcome(before.0, before.1, None) is Refused,
{
    crate::layout::lemma_arranged_bounds(config, new.inputs);
}

/// A layout that fits no rectangle is refused.
pub proof fn lemma_reload_unfit<B: Backend>(before: (Gamepad<B>, Pixmap), config: Config)
    requires
        config.shift() is None,
    ensures
        outcome(before.0, before.1, Some(config)) is Unfit,
{
}

/// An accepted layout brings all of itself: its items, with everything at rest, and its labels,
/// which are drawn exactly if the layout has them shown and the overlay is not served, whatever was
/// shown before. The controller is the same one, set up for the new items. An image that is kept is
/// the same image, and a new one is transparent.
pub proof fn lemma_reload_brings<B: Backend>(
    before: (Gamepad<B>, Pixmap),
    config: Config,
    web: bool,
    gamepad: Gamepad<B>,
    img: Pixmap,
)
    requires
        reloaded(before, Some(config), web, gamepad, img),
        ({
            let r = outcome(before.0, before.1, Some(config));
            r is Kept || r is Resized
        }),
    ensures
        gamepad.render_labels == (config.show_labels && !web),
        config.arranged(gamepad.inputs),
        gamepad.scale == before.0.scale,
        gamepad.input_state.buttons@.len() == gamepad.inputs.buttons@.len(),
        gamepad.input_state.sticks@.len() == gamepad.inputs.sticks@.len(),
        gamepad.input_state.axes@.len() == gamepad.inputs.axes@.len(),
        forall|i: int|
            0 <= i < gamepad.input_state.buttons@.len()
                ==> !#[trigger] gamepad.input_state.buttons@[i],
        forall|i: int|
            0 <= i < gamepad.input_state.sticks@.len() ==> (
            #[trigger] gamepad.input_state.sticks@[i]).0.bits == 0
                && gamepad.input_state.sticks@[i].1.bits == 0,
        forall|i: int|
            0 <= i < gamepad.input_state.axes@.len() ==> (
            #[trigger] gamepad.input_state.axes@[i]).bits == 0,
        match before.0.backend {
            Some(b) => gamepad.backend matches Some(c) && b.reloaded(&gamepad.inputs, c) && c.tracks(
                &gamepad.inputs,
            ),
            None => gamepad.backend is None,
        },
        gamepad.size() == Some(crate::canvas::pixmap_size(img)),
        gamepad.size() == Some(crate::canvas::pixmap_size(before.1)) ==> img == before.1,
        gamepad.size() != Some(crate::canvas::pixmap_size(before.1)) ==> forall|k: int|
            0 <= k < crate::canvas::pixmap_data(img).len() ==> #[trigger] crate::canvas::pixmap_data(
                img,
            )[k] == 0,
        gamepad.size() != Some(crate::canvas::pixmap_size(before.1)) ==> crate::canvas::pixmap_data(
            img,
        ).len() == 4 * (crate::canvas::pixmap_width(img) * crate::canvas::pixmap_height(img)),
{
    lemma_reloaded(before, Some(config), web, gamepad, img);
    lemma_reload_decided(before, config, gamepad);
}

} // verus!
