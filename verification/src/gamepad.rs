//! The overlay's state: a layout, what the controller reports, and where the reports come from.

use crate::layout::{Config, InputState, Inputs, Rect};
use crate::scalar::{Scalar, ONE};
use vstd::prelude::*;

verus! {

/// A source of controller reports, set up for the items of a layout.
pub trait Backend: Sized {
    /// What it takes to set the source up.
    type InitState;

    /// Why it could not be set up.
    type Err;

    /// Whether the source can bring `state` up to date.
    spec fn takes(&self, state: InputState) -> bool;

    /// Whether the source is set up for the items of `inputs`.
    spec fn tracks(&self, inputs: &Inputs) -> bool;

    /// Whether the source, asked to bring the state `before` up to date, makes `after` of it and
    /// says `changed`.
    spec fn reports(&self, before: InputState, after: InputState, changed: bool) -> bool;

    /// Whether asking the source for a report makes `after` of it.
    spec fn polled(self, after: Self) -> bool;

    /// Whether setting the source up for the items of `inputs` makes `after` of it.
    spec fn reloaded(self, inputs: &Inputs, after: Self) -> bool;

    /// Sets the source up for the items of `inputs`.
    fn init(state: Self::InitState, inputs: &Inputs) -> (r: Result<Self, Self::Err>)
        ensures
            r matches Ok(b) ==> b.tracks(inputs) && forall|state: InputState|
                state.counts() == inputs.counts() ==> #[trigger] b.takes(state),
    ;

    /// Brings `state` up to date and says whether it changed.
    fn poll(&mut self, state: &mut InputState) -> (changed: bool)
        requires
            old(self).takes(*old(state)),
        ensures
            final(self).takes(*final(state)),
            final(state).counts() == old(state).counts(),
            forall|inputs: &Inputs| old(self).tracks(inputs) ==> final(self).tracks(inputs),
            old(self).reports(*old(state), *final(state), changed),
            old(self).polled(*final(self)),
    ;

    /// Sets the source up for the items of another layout.
    fn reload(&mut self, inputs: &Inputs)
        ensures
            final(self).tracks(inputs),
            forall|state: InputState|
                state.counts() == inputs.counts() ==> #[trigger] final(self).takes(state),
            old(self).reloaded(inputs, *final(self)),
    ;
}

/// A layout together with the reports of a controller.
#[derive(Debug)]
pub struct Gamepad<B: Backend> {
    pub backend: Option<B>,
    pub inputs: Inputs,
    pub input_state: InputState,
    /// Render-resolution multiplier: above 1 the same layout renders into a proportionally
    /// larger image.
    pub scale: Scalar,
    /// Whether to draw button labels into the image. The web overlay has labels of its own.
    pub render_labels: bool,
}

impl<B: Backend> Default for Gamepad<B> {
    /// An empty layout at its own size, without a controller.
    fn default() -> (r: Gamepad<B>)
        ensures
            r.wf(),
            r.backend is None,
            r.inputs.counts() == (0nat, 0nat, 0nat),
            r.scale == (Scalar { bits: ONE }),
            r.render_labels,
    {
        Gamepad {
            backend: None,
            inputs: Inputs::default(),
            input_state: InputState::default(),
            scale: Scalar { bits: ONE },
            render_labels: true,
        }
    }
}

impl<B: Backend> Gamepad<B> {
    /// The state and the controller fit the layout.
    pub open spec fn wf(self) -> bool {
        &&& self.input_state.counts() == self.inputs.counts()
        &&& self.backend matches Some(b) ==> b.tracks(&self.inputs)
        &&& self.ready()
    }

    /// The controller can bring the state up to date.
    pub open spec fn ready(self) -> bool {
        self.backend matches Some(b) ==> b.takes(self.input_state)
    }

    /// A layout at its own size, moved to the origin, without a controller.
    pub fn new(config: Config) -> (r: Gamepad<B>)
        requires
            config.shift() is Some,
        ensures
            r.wf(),
            r.backend is None,
            config.arranged(r.inputs),
            r.input_state.at_rest(),
            r.scale == (Scalar { bits: ONE }),
            r.render_labels,
    {
        let mut r = Gamepad::default();
        if let Some(inputs) = config.arrange() {
            r.input_state = InputState::from(&inputs);
            r.inputs = inputs;
        }
        r
    }

    /// The size in pixels of an image of what lies within `bounds`, at a resolution of `scale`.
    pub open spec fn size_of(bounds: Rect, scale: Scalar) -> (u32, u32) {
        (
            bounds.right.product(scale).covered() as u32,
            bounds.bottom.product(scale).covered() as u32,
        )
    }

    /// Pixel dimensions of the output image at the current `scale`; `None` if the layout does
    /// not fit into a rectangle.
    pub fn image_size(&self) -> (r: Option<(u32, u32)>)
        ensures
            r == self.size(),
            r matches Some(size) ==> size.0 >= 1 && size.1 >= 1,
    {
        match self.inputs.bounds() {
            Some(b) => Some(
                (b.right.times(self.scale).pixels(), b.bottom.times(self.scale).pixels()),
            ),
            None => None,
        }
    }

    /// The size in pixels of an image of the overlay; `None` if the layout does not fit into a
    /// rectangle.
    pub open spec fn size(self) -> Option<(u32, u32)> {
        match crate::layout::hull(self.inputs.extents()) {
            Some(b) => Some(Self::size_of(b, self.scale)),
            None => None,
        }
    }

    /// Whether `self` is `before` with the layout of `config`, moved to the origin, and the same
    /// controller.
    pub open spec fn replaced(self, before: Gamepad<B>, config: Config) -> bool {
        &&& self.wf()
        &&& config.arranged(self.inputs)
        &&& self.input_state.at_rest()
        &&& self.render_labels == config.show_labels
        &&& self.scale == before.scale
        &&& match before.backend {
            Some(b) => self.backend matches Some(c) && b.reloaded(&self.inputs, c),
            None => self.backend is None,
        }
    }

    /// Shows another layout with the same controller.
    pub fn reload(&mut self, config: Config)
        requires
            config.shift() is Some,
        ensures
            final(self).replaced(*old(self), config),
    {
        let show_labels = config.show_labels;
        if let Some(inputs) = config.arrange() {
            self.replace(inputs, show_labels);
        }
    }

    /// Puts a layout in the place of the one before, with everything at rest.
    pub(crate) fn replace(&mut self, inputs: Inputs, show_labels: bool)
        ensures
            final(self).wf(),
            final(self).inputs == inputs,
            final(self).input_state.at_rest(),
            final(self).render_labels == show_labels,
            final(self).scale == old(self).scale,
            match old(self).backend {
                Some(b) => final(self).backend matches Some(c) && b.reloaded(&inputs, c),
                None => final(self).backend is None,
            },
    {
        self.inputs = inputs;
        self.input_state = InputState::from(&self.inputs);
        self.render_labels = show_labels;
        match self.backend.take() {
            Some(mut b) => {
                b.reload(&self.inputs);
                self.backend = Some(b);
            },
            None => {},
        }
    }

    /// Whether `self` is `before`, but for what became of setting a controller up.
    pub open spec fn adopted(
        self,
        before: Gamepad<B>,
        outcome: Result<B, B::Err>,
        r: Result<(), B::Err>,
    ) -> bool {
        match outcome {
            Ok(b) => r == Ok::<(), B::Err>(()) && self == (Gamepad { backend: Some(b), ..before }),
            Err(e) => r == Err::<(), B::Err>(e) && self == before,
        }
    }

    /// Takes the controller of `outcome` for the layout. Where that could not be set up, the
    /// controller stays.
    pub fn adopt(&mut self, outcome: Result<B, B::Err>) -> (r: Result<(), B::Err>)
        ensures
            final(self).adopted(*old(self), outcome, r),
    {
        match outcome {
            Ok(b) => {
                self.backend = Some(b);
                Ok(())
            },
            Err(e) => Err(e),
        }
    }

    /// Shows a layout, moved to the origin, with a controller set up from `state`.
    pub fn load(&mut self, config: Config, state: B::InitState) -> (r: Result<(), B::Err>)
        requires
            config.shift() is Some,
        ensures
            config.arranged(final(self).inputs),
            final(self).input_state.counts() == final(self).inputs.counts(),
            final(self).input_state.at_rest(),
            final(self).scale == old(self).scale,
            final(self).render_labels == old(self).render_labels,
            exists|outcome: Result<B, B::Err>| #[trigger]
                call_ensures(B::init, (state, &final(self).inputs), outcome) && match outcome {
                    Ok(b) => r is Ok && final(self).backend == Some(b),
                    Err(e) => r == Err::<(), B::Err>(e) && final(self).backend
                        == old(self).backend,
                },
            r is Ok ==> final(self).wf() && final(self).backend is Some,
            old(self).backend is None ==> final(self).wf(),
    {
        if let Some(inputs) = config.arrange() {
            self.input_state = InputState::from(&inputs);
            self.inputs = inputs;
        }
        let outcome = B::init(state, &self.inputs);
        assert(call_ensures(B::init, (state, &self.inputs), outcome));
        self.adopt(outcome)
    }

    /// Brings the state up to date and says whether it changed; without a controller nothing
    /// changes.
    pub fn poll(&mut self) -> (changed: bool)
        requires
            old(self).ready(),
        ensures
            final(self).ready(),
            old(self).wf() ==> final(self).wf(),
            final(self).inputs == old(self).inputs,
            final(self).scale == old(self).scale,
            final(self).render_labels == old(self).render_labels,
            match old(self).backend {
                Some(b) => {
                    &&& b.reports(old(self).input_state, final(self).input_state, changed)
                    &&& final(self).backend matches Some(c) && b.polled(c)
                },
                None => !changed && *final(self) == *old(self),
            },
    {
        match self.backend.take() {
            Some(mut b) => {
                let changed = b.poll(&mut self.input_state);
                self.backend = Some(b);
                changed
            },
            None => false,
        }
    }
}

/// The image is as large as it has to be: it covers the layout, and with a pixel less it would
/// not.
pub proof fn lemma_image_covers(length: Scalar)
    requires
        !length.is_nan(),
        length.value() <= u32::MAX * crate::scalar::unit(),
    ensures
        length.covered() * crate::scalar::unit() >= length.value(),
        length.covered() > 1 ==> (length.covered() - 1) * crate::scalar::unit() < length.value(),
{
    let u = crate::scalar::unit();
    crate::scalar::lemma_one();
    let m = crate::scalar::magnitude(length.low());
    let up = (m + u - 1) as nat / u;
    vstd::arithmetic::div_mod::lemma_fundamental_div_mod((m + u - 1) as int, u as int);
    assert(up * u == u * up) by (nonlinear_arith);
    assert((up - 1) * u == up * u - u) by (nonlinear_arith);
    assert(1 * u == u) by (nonlinear_arith);
    if !length.is_signed() {
        if up < 1 {
            assert(up * u <= 0) by (nonlinear_arith)
                requires
                    up == 0,
            ;
        }
        if up > u32::MAX {
            assert((up - 1) * u >= u32::MAX * u) by (nonlinear_arith)
                requires
                    up - 1 >= u32::MAX,
                    u > 0,
            ;
        }
    }
}

/// A controller that could be set up is the one from then on; one that could not leaves the
/// controller as it was, and says why. The layout and what is shown stay either way.
pub proof fn lemma_adopted<B: Backend>(
    before: Gamepad<B>,
    after: Gamepad<B>,
    outcome: Result<B, B::Err>,
    r: Result<(), B::Err>,
)
    requires
        after.adopted(before, outcome, r),
    ensures
        outcome matches Ok(b) ==> r is Ok && after.backend == Some(b),
        outcome matches Err(e) ==> r == Err::<(), B::Err>(e) && after.backend == before.backend,
        after.inputs == before.inputs,
        after.input_state == before.input_state,
        after.scale == before.scale,
        after.render_labels == before.render_labels,
{
}

/// A layout that takes the place of another brings its items, with everything at rest, and says
/// whether labels are drawn. The resolution stays, and so does the controller, set up for the new
/// items.
pub proof fn lemma_replaced<B: Backend>(before: Gamepad<B>, after: Gamepad<B>, config: Config)
    requires
        after.replaced(before, config),
    ensures
        config.arranged(after.inputs),
        after.render_labels == config.show_labels,
        after.scale == before.scale,
        after.input_state.buttons@.len() == after.inputs.buttons@.len(),
        after.input_state.sticks@.len() == after.inputs.sticks@.len(),
        after.input_state.axes@.len() == after.inputs.axes@.len(),
        forall|i: int|
            0 <= i < after.input_state.buttons@.len() ==> !#[trigger] after.input_state.buttons@[i],
        match before.backend {
            Some(b) => after.backend matches Some(c) && b.reloaded(&after.inputs, c) && c.tracks(
                &after.inputs,
            ),
            None => after.backend is None,
        },
{
}

} // verus!
