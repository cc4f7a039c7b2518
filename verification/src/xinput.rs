//! XInput controllers: any Xbox-style controller, including a GameCube adapter in XInput mode.
//!
//! Layout `id` conventions:
//! - buttons `id` 0..=15 = bit position in the XInput button mask
//!   (0 Up,1 Down,2 Left,3 Right,4 Start,5 Back,6 L3,7 R3,8 LB,9 RB,12 A,13 B,14 X,15 Y)
//! - button `id` 16 = Left Trigger, 17 = Right Trigger (pressed past a threshold)
//! - stick axes / single axes `id`: 0 LX, 1 LY, 2 RX, 3 RY, 16 LT, 17 RT.
//!   Stick values are in screen orientation (x right+, y down+).

use crate::gamepad::Backend;
use crate::layout::{InputState, Inputs};
use crate::scalar::{Scalar, ONE, SIGN};
use vstd::prelude::*;

verus! {

/// What a controller reports.
#[derive(Debug, Clone, Copy, PartialEq, Eq, Structural)]
pub struct XInputGamepad {
    pub buttons: u16,
    pub left_trigger: u8,
    pub right_trigger: u8,
    pub thumb_lx: i16,
    pub thumb_ly: i16,
    pub thumb_rx: i16,
    pub thumb_ry: i16,
}

/// The status code of a successful read.
pub const ERROR_SUCCESS: u32 = 0;

/// How far a trigger has to be pulled to count as pressed.
pub const TRIGGER_THRESHOLD: u8 = 40;

/// The bit pattern of 32767, the full deflection of a stick.
pub const FULL_STICK: u32 = 0x46ff_fe00;

/// The bit pattern of 255, the full pull of a trigger.
pub const FULL_TRIGGER: u32 = 0x437f_0000;

/// The share of its full deflection that a stick axis reports, the other way round if `flip`,
/// limited to the range from -1 to 1.
pub open spec fn deflection(raw: i16, flip: bool) -> Scalar {
    let negative = if flip {
        raw >= 0
    } else {
        raw < 0
    };
    let size = if raw < 0 {
        -raw
    } else {
        raw as int
    };
    Scalar::of(negative, size as nat).quotient(Scalar { bits: FULL_STICK }).clamped()
}

/// The share of its full pull that a trigger reports.
pub open spec fn pull(raw: u8) -> Scalar {
    Scalar::of(false, raw as nat).quotient(Scalar { bits: FULL_TRIGGER })
}

/// The value of the axis `id`.
pub open spec fn axis_value(g: XInputGamepad, id: u8) -> Scalar {
    if id == 0 {
        deflection(g.thumb_lx, false)
    } else if id == 1 {
        deflection(g.thumb_ly, true)
    } else if id == 2 {
        deflection(g.thumb_rx, false)
    } else if id == 3 {
        deflection(g.thumb_ry, true)
    } else if id == 16 {
        pull(g.left_trigger)
    } else if id == 17 {
        pull(g.right_trigger)
    } else {
        Scalar { bits: 0 }
    }
}

/// Whether the button `id` is pressed.
pub open spec fn button_value(g: XInputGamepad, id: u8) -> bool {
    if id <= 15 {
        (g.buttons >> (id as u16)) & 1 == 1
    } else if id == 16 {
        g.left_trigger > TRIGGER_THRESHOLD
    } else if id == 17 {
        g.right_trigger > TRIGGER_THRESHOLD
    } else {
        false
    }
}

fn stick_axis(raw: i16, flip: bool) -> (r: Scalar)
    ensures
        r == deflection(raw, flip),
{
    let negative = if flip {
        raw >= 0
    } else {
        raw < 0
    };
    let size: u32 = if raw < 0 {
        (-(raw as i32)) as u32
    } else {
        raw as u32
    };
    let w = Scalar::whole(size);
    let n = if negative {
        w.neg()
    } else {
        w
    };
    n.over(Scalar { bits: FULL_STICK }).clamp_unit()
}

fn trigger_axis(raw: u8) -> (r: Scalar)
    ensures
        r == pull(raw),
{
    Scalar::whole(raw as u32).over(Scalar { bits: FULL_TRIGGER })
}

/// Axis value in screen orientation: sticks from -1 to 1 (Y is negated so down is positive),
/// triggers from 0 to 1, and 0 for an `id` that is no axis.
pub fn axis(g: &XInputGamepad, id: u8) -> (r: Scalar)
    ensures
        r == axis_value(*g, id),
{
    match id {
        0 => stick_axis(g.thumb_lx, false),
        1 => stick_axis(g.thumb_ly, true),
        2 => stick_axis(g.thumb_rx, false),
        3 => stick_axis(g.thumb_ry, true),
        16 => trigger_axis(g.left_trigger),
        17 => trigger_axis(g.right_trigger),
        _ => Scalar { bits: 0 },
    }
}

/// Whether the button `id` is pressed.
pub fn button(g: &XInputGamepad, id: u8) -> (r: bool)
    ensures
        r == button_value(*g, id),
{
    if id <= 15 {
        let mask = g.buttons;
        let at = id as u16;
        proof {
            assert((mask & (1u16 << at) != 0) == ((mask >> at) & 1 == 1)) by (bit_vector)
                requires
                    at <= 15,
            ;
        }
        mask & (1u16 << at) != 0
    } else if id == 16 {
        g.left_trigger > TRIGGER_THRESHOLD
    } else if id == 17 {
        g.right_trigger > TRIGGER_THRESHOLD
    } else {
        false
    }
}

/// The controller in one slot, mapped to the items of a layout.
#[derive(Debug, Clone)]
pub struct XInput {
    pub slot: u32,
    pub button_ids: Vec<u8>,
    pub sticks: Vec<(u8, u8)>,
    pub axis_ids: Vec<u8>,
    /// What the controller last reported, if it could be read.
    pub reading: Option<XInputGamepad>,
}

/// Why no controller could be set up.
#[derive(Debug, Clone, Copy, PartialEq, Eq, Structural)]
pub enum XInputError {
    /// No XInput library is present.
    NoLibrary,
}

impl XInputError {
    /// The message for the user.
    pub fn message(&self) -> (r: String)
        ensures
            r@ == "no XInput DLL available"@,
    {
        "no XInput DLL available".to_owned()
    }
}

/// A slot, and whether an XInput library is present to read it.
#[derive(Debug, Clone, Copy, PartialEq, Eq, Structural)]
pub struct XInputSlot {
    pub slot: u32,
    pub available: bool,
}

impl XInput {
    /// Maps the controller to the items of `inputs`.
    fn map(&mut self, inputs: &Inputs)
        ensures
            final(self).tracks(inputs),
            final(self).slot == old(self).slot,
            final(self).reading == old(self).reading,
    {
        let mut ids: Vec<u8> = Vec::new();
        let mut i: usize = 0;
        while i < inputs.buttons.len()
            invariant
                i <= inputs.buttons@.len(),
                ids@ == Seq::new(i as nat, |k: int| inputs.buttons@[k].id),
            decreases inputs.buttons@.len() - i,
        {
            ids.push(inputs.buttons[i].id);
            i += 1;
        }
        self.button_ids = ids;
        let mut sticks: Vec<(u8, u8)> = Vec::new();
        let mut i: usize = 0;
        while i < inputs.sticks.len()
            invariant
                i <= inputs.sticks@.len(),
                sticks@ == Seq::new(
                    i as nat,
                    |k: int| (inputs.sticks@[k].x.id, inputs.sticks@[k].y.id),
                ),
            decreases inputs.sticks@.len() - i,
        {
            sticks.push((inputs.sticks[i].x.id, inputs.sticks[i].y.id));
            i += 1;
        }
        self.sticks = sticks;
        let mut ids: Vec<u8> = Vec::new();
        let mut i: usize = 0;
        while i < inputs.axes.len()
            invariant
                i <= inputs.axes@.len(),
                ids@ == Seq::new(i as nat, |k: int| inputs.axes@[k].axis.id),
            decreases inputs.axes@.len() - i,
        {
            ids.push(inputs.axes[i].axis.id);
            i += 1;
        }
        self.axis_ids = ids;
    }

    /// What a read with the status `code` reported.
    pub fn read(code: u32, gamepad: XInputGamepad) -> (r: Option<XInputGamepad>)
        ensures
            r == if code == ERROR_SUCCESS {
                Some(gamepad)
            } else {
                None
            },
    {
        if code == ERROR_SUCCESS {
            Some(gamepad)
        } else {
            None
        }
    }

    /// Takes in what the controller reported.
    pub fn observe(&mut self, reading: Option<XInputGamepad>)
        ensures
            *final(self) == (XInput { reading, ..*old(self) }),
    {
        self.reading = reading;
    }

    /// The buttons `before`, with what the reading `g` makes of those that are mapped.
    pub open spec fn shown_buttons(&self, g: XInputGamepad, before: Seq<bool>) -> Seq<bool> {
        Seq::new(
            before.len(),
            |i: int|
                if i < self.button_ids@.len() {
                    button_value(g, self.button_ids@[i])
                } else {
                    before[i]
                },
        )
    }

    /// The sticks `before`, with what the reading `g` makes of those that are mapped.
    pub open spec fn shown_sticks(&self, g: XInputGamepad, before: Seq<(Scalar, Scalar)>) -> Seq<
        (Scalar, Scalar),
    > {
        Seq::new(
            before.len(),
            |i: int|
                if i < self.sticks@.len() {
                    (axis_value(g, self.sticks@[i].0), axis_value(g, self.sticks@[i].1))
                } else {
                    before[i]
                },
        )
    }

    /// The gauges `before`, with what the reading `g` makes of those that are mapped.
    pub open spec fn shown_axes(&self, g: XInputGamepad, before: Seq<Scalar>) -> Seq<Scalar> {
        Seq::new(
            before.len(),
            |i: int|
                if i < self.axis_ids@.len() {
                    axis_value(g, self.axis_ids@[i])
                } else {
                    before[i]
                },
        )
    }

    /// Whether the reading `g` makes `after` of the state `before`: mapped items show the reading,
    /// later ones stay.
    pub open spec fn shows(
        &self,
        g: XInputGamepad,
        before: InputState,
        after: InputState,
    ) -> bool {
        &&& after.buttons@ == self.shown_buttons(g, before.buttons@)
        &&& after.sticks@ == self.shown_sticks(g, before.sticks@)
        &&& after.axes@ == self.shown_axes(g, before.axes@)
    }

    /// Whether two states differ in some mapped button, stick or gauge.
    pub open spec fn differs(&self, a: InputState, b: InputState) -> bool {
        ||| exists|i: int|
            0 <= i < self.button_ids@.len() && #[trigger] a.buttons@[i] != b.buttons@[i]
        ||| exists|i: int|
            0 <= i < self.sticks@.len() && !((#[trigger] a.sticks@[i]).0.equals(b.sticks@[i].0)
                && a.sticks@[i].1.equals(b.sticks@[i].1))
        ||| exists|i: int|
            0 <= i < self.axis_ids@.len() && !(#[trigger] a.axes@[i]).equals(b.axes@[i])
    }

    fn poll_buttons(&self, g: &XInputGamepad, buttons: &mut Vec<bool>) -> (changed: bool)
        requires
            self.button_ids@.len() <= old(buttons)@.len(),
        ensures
            final(buttons)@ == self.shown_buttons(*g, old(buttons)@),
            changed == exists|i: int|
                0 <= i < self.button_ids@.len() && #[trigger] old(buttons)@[i]
                    != final(buttons)@[i],
    {
        let ghost before = buttons@;
        let mut changed = false;
        let mut i: usize = 0;
        while i < self.button_ids.len()
            invariant
                i <= self.button_ids@.len() <= before.len(),
                before == old(buttons)@,
                buttons@.len() == before.len(),
                forall|k: int|
                    0 <= k < i ==> #[trigger] buttons@[k] == button_value(*g, self.button_ids@[k]),
                forall|k: int| i <= k < before.len() ==> buttons@[k] == before[k],
                changed == exists|k: int| 0 <= k < i && #[trigger] before[k] != buttons@[k],
            decreases self.button_ids@.len() - i,
        {
            let new = button(g, self.button_ids[i]);
            let ghost mid = buttons@;
            if buttons[i] != new {
                changed = true;
            }
            buttons.set(i, new);
            assert(forall|k: int| 0 <= k < i ==> mid[k] == buttons@[k]);
            assert(mid[i as int] == before[i as int]);
            i += 1;
        }
        assert(buttons@ =~= self.shown_buttons(*g, before));
        changed
    }

    fn poll_sticks(&self, g: &XInputGamepad, sticks: &mut Vec<(Scalar, Scalar)>) -> (changed: bool)
        requires
            self.sticks@.len() <= old(sticks)@.len(),
        ensures
            final(sticks)@ == self.shown_sticks(*g, old(sticks)@),
            changed == exists|i: int|
                0 <= i < self.sticks@.len() && !((#[trigger] old(sticks)@[i]).0.equals(
                    final(sticks)@[i].0,
                ) && old(sticks)@[i].1.equals(final(sticks)@[i].1)),
    {
        let ghost before = sticks@;
        let mut changed = false;
        let mut i: usize = 0;
        while i < self.sticks.len()
            invariant
                i <= self.sticks@.len() <= before.len(),
                before == old(sticks)@,
                sticks@.len() == before.len(),
                forall|k: int|
                    0 <= k < i ==> #[trigger] sticks@[k] == (
                        axis_value(*g, self.sticks@[k].0),
                        axis_value(*g, self.sticks@[k].1),
                    ),
                forall|k: int| i <= k < before.len() ==> sticks@[k] == before[k],
                changed == exists|k: int|
                    0 <= k < i && !((#[trigger] before[k]).0.equals(sticks@[k].0)
                        && before[k].1.equals(sticks@[k].1)),
            decreases self.sticks@.len() - i,
        {
            let (xid, yid) = self.sticks[i];
            let new = (axis(g, xid), axis(g, yid));
            let ghost mid = sticks@;
            let was = sticks[i];
            if !(was.0.same(new.0) && was.1.same(new.1)) {
                changed = true;
            }
            sticks.set(i, new);
            assert(forall|k: int| 0 <= k < i ==> mid[k] == sticks@[k]);
            assert(mid[i as int] == before[i as int]);
            i += 1;
        }
        assert(sticks@ =~= self.shown_sticks(*g, before));
        changed
    }

    fn poll_axes(&self, g: &XInputGamepad, axes: &mut Vec<Scalar>) -> (changed: bool)
        requires
            self.axis_ids@.len() <= old(axes)@.len(),
        ensures
            final(axes)@ == self.shown_axes(*g, old(axes)@),
            changed == exists|i: int|
                0 <= i < self.axis_ids@.len() && !(#[trigger] old(axes)@[i]).equals(
                    final(axes)@[i],
                ),
    {
        let ghost before = axes@;
        let mut changed = false;
        let mut i: usize = 0;
        while i < self.axis_ids.len()
            invariant
                i <= self.axis_ids@.len() <= before.len(),
                before == old(axes)@,
                axes@.len() == before.len(),
                forall|k: int|
                    0 <= k < i ==> #[trigger] axes@[k] == axis_value(*g, self.axis_ids@[k]),
                forall|k: int| i <= k < before.len() ==> axes@[k] == before[k],
                changed == exists|k: int|
                    0 <= k < i && !(#[trigger] before[k]).equals(axes@[k]),
            decreases self.axis_ids@.len() - i,
        {
            let new = axis(g, self.axis_ids[i]);
            let ghost mid = axes@;
            if !axes[i].same(new) {
                changed = true;
            }
            axes.set(i, new);
            assert(forall|k: int| 0 <= k < i ==> mid[k] == axes@[k]);
            assert(mid[i as int] == before[i as int]);
            i += 1;
        }
        assert(axes@ =~= self.shown_axes(*g, before));
        changed
    }
}

impl Backend for XInput {
    type InitState = XInputSlot;

    type Err = XInputError;

    open spec fn takes(&self, state: InputState) -> bool {
        self.reading is Some ==> {
            &&& self.button_ids@.len() <= state.buttons@.len()
            &&& self.sticks@.len() <= state.sticks@.len()
            &&& self.axis_ids@.len() <= state.axes@.len()
        }
    }

    open spec fn tracks(&self, inputs: &Inputs) -> bool {
        &&& self.button_ids@ == Seq::new(inputs.buttons@.len(), |i: int| inputs.buttons@[i].id)
        &&& self.sticks@ == Seq::new(
            inputs.sticks@.len(),
            |i: int| (inputs.sticks@[i].x.id, inputs.sticks@[i].y.id),
        )
        &&& self.axis_ids@ == Seq::new(inputs.axes@.len(), |i: int| inputs.axes@[i].axis.id)
    }

    open spec fn reports(&self, before: InputState, after: InputState, changed: bool) -> bool {
        match self.reading {
            Some(g) => self.shows(g, before, after) && changed == self.differs(before, after),
            None => !changed && after == before,
        }
    }

    open spec fn polled(self, after: XInput) -> bool {
        after == self
    }

    open spec fn reloaded(self, inputs: &Inputs, after: XInput) -> bool {
        after.slot == self.slot && after.reading == self.reading
    }

    fn init(slot: XInputSlot, inputs: &Inputs) -> (r: Result<XInput, XInputError>)
        ensures
            r is Ok == slot.available,
            r matches Ok(x) ==> x.slot == slot.slot && x.reading is None,
            r matches Err(e) ==> e == XInputError::NoLibrary,
    {
        if !slot.available {
            return Err(XInputError::NoLibrary);
        }
        let mut xi = XInput {
            slot: slot.slot,
            button_ids: Vec::new(),
            sticks: Vec::new(),
            axis_ids: Vec::new(),
            reading: None,
        };
        xi.map(inputs);
        Ok(xi)
    }

    fn poll(&mut self, state: &mut InputState) -> (changed: bool) {
        let g = match self.reading {
            Some(g) => g,
            None => return false,
        };
        let pressed = self.poll_buttons(&g, &mut state.buttons);
        let moved = self.poll_sticks(&g, &mut state.sticks);
        let filled = self.poll_axes(&g, &mut state.axes);
        pressed || moved || filled
    }

    fn reload(&mut self, inputs: &Inputs) {
        self.map(inputs);
    }
}

/// The slots below `n` that answered with success, in order.
pub open spec fn connected(status: Seq<u32>, n: nat) -> Seq<u32>
    decreases n,
{
    if n == 0 {
        seq![]
    } else if status[n - 1] == ERROR_SUCCESS {
        connected(status, (n - 1) as nat).push((n - 1) as u32)
    } else {
        connected(status, (n - 1) as nat)
    }
}

/// XInput slots (0-3) that currently have a controller connected, given the status code that a
/// read of each slot answered with; none without an XInput library.
pub fn get_slots(status: Option<[u32; 4]>) -> (r: Vec<u32>)
    ensures
        r@ == match status {
            Some(s) => connected(s@, 4),
            None => seq![],
        },
{
    let mut r: Vec<u32> = Vec::new();
    if let Some(s) = status {
        let mut slot: u32 = 0;
        while slot < 4
            invariant
                slot <= 4,
                r@ == connected(s@, slot as nat),
            decreases 4 - slot,
        {
            if s[slot as usize] == ERROR_SUCCESS {
                r.push(slot);
            }
            slot += 1;
        }
    }
    r
}

// ---------------------------------------------------------------------------
// What reports can be relied on for
// ---------------------------------------------------------------------------

pub proof fn lemma_full()
    ensures
        (Scalar { bits: FULL_STICK }).is_finite(),
        (Scalar { bits: FULL_STICK }).value() == 32767 * crate::scalar::unit(),
        (Scalar { bits: FULL_TRIGGER }).is_finite(),
        (Scalar { bits: FULL_TRIGGER }).value() == 255 * crate::scalar::unit(),
{
    vstd::arithmetic::power2::lemma2_to64();
    vstd::arithmetic::power2::lemma_pow2_adds(9, 140);
    vstd::arithmetic::power2::lemma_pow2_adds(16, 133);
    crate::scalar::lemma_pattern(140, 0xff_fe00);
    crate::scalar::lemma_pattern(133, 0xff_0000);
}

proof fn lemma_low_order(a: nat)
    ensures
        a <= ONE ==> crate::scalar::magnitude(a) <= crate::scalar::unit(),
        a == 0 <==> crate::scalar::magnitude(a) == 0,
{
    crate::scalar::lemma_one();
    if a < ONE {
        crate::scalar::lemma_magnitude_order(a, ONE as nat);
    }
    if a > 0 {
        crate::scalar::lemma_magnitude_order(0, a);
    }
}

proof fn lemma_deflection(raw: i16, flip: bool)
    ensures
        !deflection(raw, flip).is_nan(),
        -crate::scalar::unit() <= deflection(raw, flip).value() <= crate::scalar::unit(),
        deflection(raw, flip).value() == 0 <==> raw == 0,
        deflection(raw, flip).value() > 0 <==> (if flip {
            raw < 0
        } else {
            raw > 0
        }),
{
    let negative = if flip {
        raw >= 0
    } else {
        raw < 0
    };
    let size = if raw < 0 {
        -raw
    } else {
        raw as int
    };
    lemma_full();
    crate::scalar::lemma_one();
    crate::arith::lemma_share(negative, size as nat, 32767, Scalar { bits: FULL_STICK });
    let q = Scalar::of(negative, size as nat).quotient(Scalar { bits: FULL_STICK });
    lemma_low_order(q.low());
    assert((ONE + SIGN) as u32 % SIGN == ONE);
}

proof fn lemma_pull(raw: u8)
    ensures
        !pull(raw).is_nan(),
        0 <= pull(raw).value() <= crate::scalar::unit(),
{
    lemma_full();
    crate::arith::lemma_share(false, raw as nat, 255, Scalar { bits: FULL_TRIGGER });
    lemma_low_order(pull(raw).low());
}

/// Stick axes lie between -1 and 1, triggers between 0 and 1.
pub proof fn lemma_axis_range(g: XInputGamepad, id: u8)
    ensures
        !axis_value(g, id).is_nan(),
        -crate::scalar::unit() <= axis_value(g, id).value() <= crate::scalar::unit(),
        id > 3 ==> axis_value(g, id).value() >= 0,
{
    if id == 0 {
        lemma_deflection(g.thumb_lx, false);
    } else if id == 1 {
        lemma_deflection(g.thumb_ly, true);
    } else if id == 2 {
        lemma_deflection(g.thumb_rx, false);
    } else if id == 3 {
        lemma_deflection(g.thumb_ry, true);
    } else if id == 16 {
        lemma_pull(g.left_trigger);
    } else if id == 17 {
        lemma_pull(g.right_trigger);
    } else {
        crate::scalar::lemma_one();
    }
}

/// Sticks are in screen orientation: right and down are positive, and a stick at rest is at 0.
/// The controller itself reports up as positive.
pub proof fn lemma_screen_orientation(g: XInputGamepad)
    ensures
        axis_value(g, 0).value() > 0 <==> g.thumb_lx > 0,
        axis_value(g, 0).value() < 0 <==> g.thumb_lx < 0,
        axis_value(g, 1).value() > 0 <==> g.thumb_ly < 0,
        axis_value(g, 1).value() < 0 <==> g.thumb_ly > 0,
        axis_value(g, 2).value() > 0 <==> g.thumb_rx > 0,
        axis_value(g, 2).value() < 0 <==> g.thumb_rx < 0,
        axis_value(g, 3).value() > 0 <==> g.thumb_ry < 0,
        axis_value(g, 3).value() < 0 <==> g.thumb_ry > 0,
{
    lemma_deflection(g.thumb_lx, false);
    lemma_deflection(g.thumb_ly, true);
    lemma_deflection(g.thumb_rx, false);
    lemma_deflection(g.thumb_ry, true);
}

/// As long as the controller reports the same, only the first look at it can bring a change.
pub proof fn lemma_poll_settles(
    x: XInput,
    before: InputState,
    first: InputState,
    second: InputState,
    changed: bool,
    again: bool,
)
    requires
        x.takes(before),
        x.reports(before, first, changed),
        x.reports(first, second, again),
    ensures
        !again,
        second.buttons@ == first.buttons@,
        second.sticks@ == first.sticks@,
        second.axes@ == first.axes@,
{
    match x.reading {
        Some(g) => {
            assert(second.buttons@ =~= first.buttons@);
            assert(second.sticks@ =~= first.sticks@);
            assert(second.axes@ =~= first.axes@);
            assert forall|i: int| 0 <= i < x.sticks@.len() implies (
            #[trigger] first.sticks@[i]).0.equals(second.sticks@[i].0)
                && first.sticks@[i].1.equals(second.sticks@[i].1) by {
                lemma_axis_range(g, x.sticks@[i].0);
                lemma_axis_range(g, x.sticks@[i].1);
            }
            assert forall|i: int| 0 <= i < x.axis_ids@.len() implies (
            #[trigger] first.axes@[i]).equals(second.axes@[i]) by {
                lemma_axis_range(g, x.axis_ids@[i]);
            }
        },
        None => {},
    }
}

/// Exactly the slots that answer are listed.
pub proof fn lemma_slots_answer(status: Seq<u32>, n: nat, slot: u32)
    requires
        n <= 4,
    ensures
        connected(status, n).contains(slot) <==> slot < n && status[slot as int] == ERROR_SUCCESS,
    decreases n,
{
    if n > 0 {
        let m = (n - 1) as nat;
        lemma_slots_answer(status, m, slot);
        let before = connected(status, m);
        let all = connected(status, n);
        if all.contains(slot) && !before.contains(slot) {
            let i = choose|i: int| 0 <= i < all.len() && all[i] == slot;
            if i < before.len() {
                assert(before[i] == slot);
            }
        }
        if before.contains(slot) {
            let i = choose|i: int| 0 <= i < before.len() && before[i] == slot;
            assert(all[i] == slot);
        }
        if status[n - 1] == ERROR_SUCCESS && slot == n - 1 {
            assert(all[all.len() - 1] == slot);
        }
    }
}

} // verus!
