//! What the skin view shows: lit elements, stick deflections, and the event text that carries
//! them to the browser.

use crate::gamepad::{Backend, Gamepad};
use crate::layout::{Button, InputState, Inputs, Stick};
use crate::scalar::{Scalar, ONE};
use crate::text::{push_decimal, split_whitespace};
use vstd::prelude::*;

verus! {

// ---------------------------------------------------------------------------
// Roles
// ---------------------------------------------------------------------------

/// The bit of the skin element that a role names; `None` for what names none.
pub open spec fn role_bit(role: Seq<char>) -> Option<u8> {
    if role == "a"@ {
        Some(0u8)
    } else if role == "b"@ {
        Some(1u8)
    } else if role == "x"@ {
        Some(2u8)
    } else if role == "y"@ {
        Some(3u8)
    } else if role == "lb"@ {
        Some(4u8)
    } else if role == "rb"@ {
        Some(5u8)
    } else if role == "lt"@ {
        Some(6u8)
    } else if role == "rt"@ {
        Some(7u8)
    } else if role == "l3"@ {
        Some(8u8)
    } else if role == "r3"@ {
        Some(9u8)
    } else if role == "start"@ {
        Some(10u8)
    } else {
        None
    }
}

/// Bit position of a named skin button, or `None` for a role that is no button.
pub fn skin_button_bit(role: &str) -> (r: Option<u8>)
    ensures
        r == role_bit(role@),
{
    if *role == *"a" {
        Some(0)
    } else if *role == *"b" {
        Some(1)
    } else if *role == *"x" {
        Some(2)
    } else if *role == *"y" {
        Some(3)
    } else if *role == *"lb" {
        Some(4)
    } else if *role == *"rb" {
        Some(5)
    } else if *role == *"lt" {
        Some(6)
    } else if *role == *"rt" {
        Some(7)
    } else if *role == *"l3" {
        Some(8)
    } else if *role == *"r3" {
        Some(9)
    } else if *role == *"start" {
        Some(10)
    } else {
        None
    }
}

/// The state of the skin.
#[derive(Debug, Clone, Copy, PartialEq, Eq)]
pub struct SkinState {
    /// The lit elements, one bit each.
    pub mask: u16,
    /// The deflection of the left stick, to the right and down.
    pub left: (Scalar, Scalar),
    /// The deflection of the right stick, to the right and down.
    pub right: (Scalar, Scalar),
    /// The pressed buttons of the layout, one bit for each id.
    pub raw: u64,
}

impl SkinState {
    /// Nothing lit, nothing deflected.
    pub open spec fn rest() -> SkinState {
        let zero = Scalar { bits: 0 };
        SkinState { mask: 0, left: (zero, zero), right: (zero, zero), raw: 0 }
    }

    /// `self` with one more role pressed: an element lights up, or a digital direction
    /// deflects a stick.
    pub open spec fn with_role(self, role: Seq<char>) -> SkinState {
        let one = Scalar { bits: ONE };
        let (lx, ly) = self.left;
        let (rx, ry) = self.right;
        match role_bit(role) {
            Some(bit) => SkinState { mask: self.mask | (1u16 << bit), ..self },
            None => if role == "lup"@ {
                SkinState { left: (lx, ly.difference(one)), ..self }
            } else if role == "ldown"@ {
                SkinState { left: (lx, ly.sum(one)), ..self }
            } else if role == "lleft"@ {
                SkinState { left: (lx.difference(one), ly), ..self }
            } else if role == "lright"@ {
                SkinState { left: (lx.sum(one), ly), ..self }
            } else if role == "rup"@ {
                SkinState { right: (rx, ry.difference(one)), ..self }
            } else if role == "rdown"@ {
                SkinState { right: (rx, ry.sum(one)), ..self }
            } else if role == "rleft"@ {
                SkinState { right: (rx.difference(one), ry), ..self }
            } else if role == "rright"@ {
                SkinState { right: (rx.sum(one), ry), ..self }
            } else {
                self
            },
        }
    }

    /// `self` with the first `n` of `roles` pressed.
    pub open spec fn with_roles(self, roles: Seq<Seq<char>>, n: nat) -> SkinState
        decreases n,
    {
        if n == 0 {
            self
        } else {
            self.with_roles(roles, (n - 1) as nat).with_role(roles[n - 1])
        }
    }

    /// `self` with one more button pressed.
    pub open spec fn with_button(self, b: Button) -> SkinState {
        let lit = SkinState { raw: self.raw | (1u64 << b.id), ..self };
        match b.skin {
            Some(skin) => lit.with_roles(
                crate::text::words(skin@),
                crate::text::words(skin@).len(),
            ),
            None => lit,
        }
    }

    /// `self` with those of the first `n` buttons pressed that `pressed` says are.
    pub open spec fn with_buttons(self, buttons: Seq<Button>, pressed: Seq<bool>, n: nat) -> SkinState
        decreases n,
    {
        if n == 0 {
            self
        } else {
            let before = self.with_buttons(buttons, pressed, (n - 1) as nat);
            if pressed[n - 1] {
                before.with_button(buttons[n - 1])
            } else {
                before
            }
        }
    }

    /// `self` with the stick `s` at `at`, in place of any digital deflection.
    pub open spec fn with_stick(self, s: Stick, at: (Scalar, Scalar)) -> SkinState {
        match s.skin {
            Some(side) => if side@ == "left"@ {
                SkinState { left: at, ..self }
            } else if side@ == "right"@ {
                SkinState { right: at, ..self }
            } else {
                self
            },
            None => self,
        }
    }

    /// `self` with the first `n` sticks where `at` says they are.
    pub open spec fn with_sticks(
        self,
        sticks: Seq<Stick>,
        at: Seq<(Scalar, Scalar)>,
        n: nat,
    ) -> SkinState
        decreases n,
    {
        if n == 0 {
            self
        } else {
            self.with_sticks(sticks, at, (n - 1) as nat).with_stick(sticks[n - 1], at[n - 1])
        }
    }

    /// The state of the skin for a layout and what the controller reports: first what the
    /// buttons do, then the analog sticks.
    pub open spec fn shown(inputs: Inputs, state: InputState) -> SkinState {
        SkinState::rest().with_buttons(
            inputs.buttons@,
            state.buttons@,
            crate::render::both(inputs.buttons@.len(), state.buttons@.len()),
        ).with_sticks(
            inputs.sticks@,
            state.sticks@,
            crate::render::both(inputs.sticks@.len(), state.sticks@.len()),
        )
    }

    /// The text of the state: lit elements, stick deflections limited to the range from -1 to 1,
    /// and pressed buttons.
    pub open spec fn text(self) -> Seq<char> {
        crate::text::decimal(self.mask as nat) + seq![';'] + self.left.0.clamped().fixed(3)
            + seq![','] + self.left.1.clamped().fixed(3) + seq![',']
            + self.right.0.clamped().fixed(3) + seq![','] + self.right.1.clamped().fixed(3)
            + seq![';'] + crate::text::decimal(self.raw as nat)
    }

    fn press_role(&mut self, role: &str)
        ensures
            *final(self) == old(self).with_role(role@),
    {
        let one = Scalar { bits: ONE };
        if let Some(bit) = skin_button_bit(role) {
            self.mask = self.mask | (1u16 << bit);
        } else if *role == *"lup" {
            self.left.1 = self.left.1.minus(one);
        } else if *role == *"ldown" {
            self.left.1 = self.left.1.plus(one);
        } else if *role == *"lleft" {
            self.left.0 = self.left.0.minus(one);
        } else if *role == *"lright" {
            self.left.0 = self.left.0.plus(one);
        } else if *role == *"rup" {
            self.right.1 = self.right.1.minus(one);
        } else if *role == *"rdown" {
            self.right.1 = self.right.1.plus(one);
        } else if *role == *"rleft" {
            self.right.0 = self.right.0.minus(one);
        } else if *role == *"rright" {
            self.right.0 = self.right.0.plus(one);
        }
    }

    fn press_button(&mut self, b: &Button)
        requires
            b.id < 64,
        ensures
            *final(self) == old(self).with_button(*b),
    {
        self.raw = self.raw | (1u64 << b.id);
        if let Some(skin) = &b.skin {
            let roles = split_whitespace(skin.as_str());
            let ghost lit = *self;
            let ghost words = crate::text::words(skin@);
            let mut i: usize = 0;
            while i < roles.len()
                invariant
                    i <= roles@.len(),
                    roles@.len() == words.len(),
                    forall|k: int| 0 <= k < roles@.len() ==> (#[trigger] roles@[k])@ == words[k],
                    *self == lit.with_roles(words, i as nat),
                decreases roles@.len() - i,
            {
                assert(roles@[i as int]@ == words[i as int]);
                self.press_role(roles[i].as_str());
                i += 1;
            }
        }
    }

    fn place_stick(&mut self, s: &Stick, at: (Scalar, Scalar))
        ensures
            *final(self) == old(self).with_stick(*s, at),
    {
        if let Some(side) = &s.skin {
            if *side.as_str() == *"left" {
                self.left = at;
            } else if *side.as_str() == *"right" {
                self.right = at;
            }
        }
    }

    /// The text of the state.
    pub fn to_text(&self) -> (r: String)
        ensures
            r@ == self.text(),
    {
        let mut out = String::new();
        push_decimal(&mut out, self.mask as u128);
        out.push(';');
        out.append(self.left.0.clamp_unit().to_fixed(3).as_str());
        out.push(',');
        out.append(self.left.1.clamp_unit().to_fixed(3).as_str());
        out.push(',');
        out.append(self.right.0.clamp_unit().to_fixed(3).as_str());
        out.push(',');
        out.append(self.right.1.clamp_unit().to_fixed(3).as_str());
        out.push(';');
        push_decimal(&mut out, self.raw as u128);
        out
    }
}

/// Whether every pressed button has an id that fits into the mask of raw ids.
pub open spec fn raw_fits(inputs: Inputs, state: InputState) -> bool {
    forall|i: int|
        0 <= i < inputs.buttons@.len() && i < state.buttons@.len() && state.buttons@[i] ==> (
        #[trigger] inputs.buttons@[i]).id < 64
}

/// The state of the skin that a gamepad shows.
pub fn skin_state<B: Backend>(gamepad: &Gamepad<B>) -> (r: SkinState)
    requires
        raw_fits(gamepad.inputs, gamepad.input_state),
    ensures
        r == SkinState::shown(gamepad.inputs, gamepad.input_state),
{
    let zero = Scalar { bits: 0 };
    let mut r = SkinState { mask: 0, left: (zero, zero), right: (zero, zero), raw: 0 };
    let mut i: usize = 0;
    while i < gamepad.inputs.buttons.len() && i < gamepad.input_state.buttons.len()
        invariant
            i <= gamepad.inputs.buttons@.len(),
            i <= gamepad.input_state.buttons@.len(),
            raw_fits(gamepad.inputs, gamepad.input_state),
            r == SkinState::rest().with_buttons(
                gamepad.inputs.buttons@,
                gamepad.input_state.buttons@,
                i as nat,
            ),
        decreases gamepad.inputs.buttons@.len() - i,
    {
        if gamepad.input_state.buttons[i] {
            r.press_button(&gamepad.inputs.buttons[i]);
        }
        i += 1;
    }
    let ghost pressed = r;
    let mut i: usize = 0;
    while i < gamepad.inputs.sticks.len() && i < gamepad.input_state.sticks.len()
        invariant
            i <= gamepad.inputs.sticks@.len(),
            i <= gamepad.input_state.sticks@.len(),
            r == pressed.with_sticks(
                gamepad.inputs.sticks@,
                gamepad.input_state.sticks@,
                i as nat,
            ),
        decreases gamepad.inputs.sticks@.len() - i,
    {
        r.place_stick(&gamepad.inputs.sticks[i], gamepad.input_state.sticks[i]);
        i += 1;
    }
    r
}

/// The event text for the skin view, computed from the layout's skin roles so that any
/// controller maps onto the same skin.
pub fn skin_event<B: Backend>(gamepad: &Gamepad<B>) -> (r: String)
    requires
        raw_fits(gamepad.inputs, gamepad.input_state),
    ensures
        r@ == SkinState::shown(gamepad.inputs, gamepad.input_state).text(),
{
    skin_state(gamepad).to_text()
}

// ---------------------------------------------------------------------------
// What the state tells
// ---------------------------------------------------------------------------

/// Whether bit `k` of `mask` is set.
pub open spec fn lit(mask: u16, k: u8) -> bool {
    (mask >> k) & 1 == 1
}

/// Whether bit `k` of `raw` is set.
pub open spec fn held(raw: u64, k: u8) -> bool {
    (raw >> k) & 1 == 1
}

/// Whether one of the first `n` of `roles` names the element with bit `k`.
pub open spec fn names(roles: Seq<Seq<char>>, k: u8, n: nat) -> bool {
    exists|w: int| 0 <= w < n && role_bit(#[trigger] roles[w]) == Some(k)
}

/// Whether a button stands for the element with bit `k`.
pub open spec fn stands_for(b: Button, k: u8) -> bool {
    b.skin matches Some(skin) && names(
        crate::text::words(skin@),
        k,
        crate::text::words(skin@).len(),
    )
}

proof fn lemma_set_bit(m: u16, b: u8, k: u8)
    requires
        b < 16,
        k < 16,
    ensures
        lit(m | (1u16 << b), k) == (lit(m, k) || b == k),
{
    assert(((m | (1u16 << b)) >> k) & 1 == 1 <==> ((m >> k) & 1 == 1 || b == k)) by (bit_vector)
        requires
            b < 16,
            k < 16,
    ;
}

proof fn lemma_roles_mask(s: SkinState, roles: Seq<Seq<char>>, k: u8, n: nat)
    requires
        k < 16,
    ensures
        lit(s.with_roles(roles, n).mask, k) == (lit(s.mask, k) || names(roles, k, n)),
        s.with_roles(roles, n).raw == s.raw,
    decreases n,
{
    if n > 0 {
        let before = s.with_roles(roles, (n - 1) as nat);
        lemma_roles_mask(s, roles, k, (n - 1) as nat);
        match role_bit(roles[n - 1]) {
            Some(bit) => {
                lemma_set_bit(before.mask, bit, k);
            },
            None => {},
        }
        if names(roles, k, n) && !names(roles, k, (n - 1) as nat) {
            let w = choose|w: int| 0 <= w < n && role_bit(#[trigger] roles[w]) == Some(k);
            assert(w == n - 1);
        }
        if names(roles, k, (n - 1) as nat) {
            let w = choose|w: int| 0 <= w < n - 1 && role_bit(#[trigger] roles[w]) == Some(k);
            assert(0 <= w < n && role_bit(roles[w]) == Some(k));
        }
        if role_bit(roles[n - 1]) == Some(k) {
            assert(0 <= n - 1 < n && role_bit(roles[n - 1]) == Some(k));
        }
    }
}

proof fn lemma_buttons_mask(
    s: SkinState,
    buttons: Seq<Button>,
    pressed: Seq<bool>,
    k: u8,
    n: nat,
)
    requires
        k < 16,
    ensures
        lit(s.with_buttons(buttons, pressed, n).mask, k) <==> lit(s.mask, k) || exists|i: int|
            0 <= i < n && pressed[i] && stands_for(#[trigger] buttons[i], k),
    decreases n,
{
    if n > 0 {
        let before = s.with_buttons(buttons, pressed, (n - 1) as nat);
        lemma_buttons_mask(s, buttons, pressed, k, (n - 1) as nat);
        let b = buttons[n - 1];
        if pressed[n - 1] {
            match b.skin {
                Some(skin) => {
                    let words = crate::text::words(skin@);
                    let raised = SkinState { raw: before.raw | (1u64 << b.id), ..before };
                    lemma_roles_mask(raised, words, k, words.len());
                },
                None => {},
            }
            if stands_for(b, k) {
                assert(0 <= n - 1 < n && pressed[n - 1] && stands_for(buttons[n - 1], k));
            }
        }
    }
}

proof fn lemma_sticks_keep(s: SkinState, sticks: Seq<Stick>, at: Seq<(Scalar, Scalar)>, n: nat)
    ensures
        s.with_sticks(sticks, at, n).mask == s.mask,
        s.with_sticks(sticks, at, n).raw == s.raw,
    decreases n,
{
    if n > 0 {
        lemma_sticks_keep(s, sticks, at, (n - 1) as nat);
    }
}

/// An element of the skin is lit exactly when some pressed button stands for it.
pub proof fn lemma_lit_iff_pressed(inputs: Inputs, state: InputState, k: u8)
    requires
        k < 16,
    ensures
        lit(SkinState::shown(inputs, state).mask, k) <==> exists|i: int|
            0 <= i < inputs.buttons@.len() && i < state.buttons@.len() && state.buttons@[i]
                && stands_for(#[trigger] inputs.buttons@[i], k),
{
    let n = crate::render::both(inputs.buttons@.len(), state.buttons@.len());
    let m = crate::render::both(inputs.sticks@.len(), state.sticks@.len());
    let pressed = SkinState::rest().with_buttons(inputs.buttons@, state.buttons@, n);
    lemma_buttons_mask(SkinState::rest(), inputs.buttons@, state.buttons@, k, n);
    lemma_sticks_keep(pressed, inputs.sticks@, state.sticks@, m);
    assert((0u16 >> k) & 1 == 0) by (bit_vector);
}

proof fn lemma_buttons_raw(
    s: SkinState,
    buttons: Seq<Button>,
    pressed: Seq<bool>,
    k: u8,
    n: nat,
)
    requires
        k < 64,
        forall|i: int| 0 <= i < n && pressed[i] ==> (#[trigger] buttons[i]).id < 64,
    ensures
        held(s.with_buttons(buttons, pressed, n).raw, k) <==> held(s.raw, k) || exists|i: int|
            0 <= i < n && pressed[i] && (#[trigger] buttons[i]).id == k,
    decreases n,
{
    if n > 0 {
        let before = s.with_buttons(buttons, pressed, (n - 1) as nat);
        lemma_buttons_raw(s, buttons, pressed, k, (n - 1) as nat);
        let b = buttons[n - 1];
        if pressed[n - 1] {
            let raw = before.raw;
            let id = b.id;
            assert(((raw | (1u64 << id)) >> k) & 1 == 1 <==> ((raw >> k) & 1 == 1 || id == k))
                by (bit_vector)
                requires
                    id < 64,
                    k < 64,
            ;
            match b.skin {
                Some(skin) => {
                    let words = crate::text::words(skin@);
                    let raised = SkinState { raw: raw | (1u64 << id), ..before };
                    lemma_roles_mask(raised, words, 0, words.len());
                },
                None => {},
            }
            if id == k {
                assert(0 <= n - 1 < n && pressed[n - 1] && buttons[n - 1].id == k);
            }
        }
    }
}

/// The mask of raw ids holds exactly the ids of the pressed buttons.
pub proof fn lemma_held_iff_pressed(inputs: Inputs, state: InputState, k: u8)
    requires
        k < 64,
        raw_fits(inputs, state),
    ensures
        held(SkinState::shown(inputs, state).raw, k) <==> exists|i: int|
            0 <= i < inputs.buttons@.len() && i < state.buttons@.len() && state.buttons@[i] && (
            #[trigger] inputs.buttons@[i]).id == k,
{
    let n = crate::render::both(inputs.buttons@.len(), state.buttons@.len());
    let m = crate::render::both(inputs.sticks@.len(), state.sticks@.len());
    let pressed = SkinState::rest().with_buttons(inputs.buttons@, state.buttons@, n);
    lemma_buttons_raw(SkinState::rest(), inputs.buttons@, state.buttons@, k, n);
    lemma_sticks_keep(pressed, inputs.sticks@, state.sticks@, m);
    assert((0u64 >> k) & 1 == 0) by (bit_vector);
}

/// Whether `s` is the analog stick of the given side.
pub open spec fn on_side(s: Stick, side: Seq<char>) -> bool {
    s.skin matches Some(skin) && skin@ == side
}

proof fn lemma_sides()
    ensures
        "left"@ != "right"@,
{
    reveal_strlit("left");
    reveal_strlit("right");
    assert("left"@.len() == 4 && "right"@.len() == 5);
}

proof fn lemma_sticks_side(
    s: SkinState,
    sticks: Seq<Stick>,
    at: Seq<(Scalar, Scalar)>,
    n: nat,
    j: int,
)
    requires
        -1 <= j < n,
    ensures
        (j >= 0 ==> on_side(sticks[j], "left"@)) && (forall|i: int|
            j < i < n ==> !on_side(#[trigger] sticks[i], "left"@)) ==> s.with_sticks(
            sticks,
            at,
            n,
        ).left == (if j < 0 {
            s.left
        } else {
            at[j]
        }),
        (j >= 0 ==> on_side(sticks[j], "right"@)) && (forall|i: int|
            j < i < n ==> !on_side(#[trigger] sticks[i], "right"@)) ==> s.with_sticks(
            sticks,
            at,
            n,
        ).right == (if j < 0 {
            s.right
        } else {
            at[j]
        }),
    decreases n,
{
    lemma_sides();
    if n > 0 {
        if j < n - 1 {
            lemma_sticks_side(s, sticks, at, (n - 1) as nat, j);
            assert(on_side(sticks[n - 1], "left"@) || !on_side(sticks[n - 1], "left"@));
            assert(on_side(sticks[n - 1], "right"@) || !on_side(sticks[n - 1], "right"@));
        }
    }
}

/// An analog stick overrides any digital deflection of its side; of several, the last one does.
/// Here `j` is that last one, and -1 stands for none: the digital deflection is then shown.
pub proof fn lemma_analog_overrides(inputs: Inputs, state: InputState, j: int)
    requires
        -1 <= j < inputs.sticks@.len(),
        j < state.sticks@.len(),
    ensures
        (j >= 0 ==> on_side(inputs.sticks@[j], "left"@)) && (forall|i: int|
            j < i < inputs.sticks@.len() && i < state.sticks@.len() ==> !on_side(
                #[trigger] inputs.sticks@[i],
                "left"@,
            )) ==> SkinState::shown(inputs, state).left == (if j < 0 {
            digital(inputs, state).left
        } else {
            state.sticks@[j]
        }),
        (j >= 0 ==> on_side(inputs.sticks@[j], "right"@)) && (forall|i: int|
            j < i < inputs.sticks@.len() && i < state.sticks@.len() ==> !on_side(
                #[trigger] inputs.sticks@[i],
                "right"@,
            )) ==> SkinState::shown(inputs, state).right == (if j < 0 {
            digital(inputs, state).right
        } else {
            state.sticks@[j]
        }),
{
    let m = crate::render::both(inputs.sticks@.len(), state.sticks@.len());
    lemma_sticks_side(digital(inputs, state), inputs.sticks@, state.sticks@, m, j);
}

/// The state of the skin without its analog sticks.
pub open spec fn digital(inputs: Inputs, state: InputState) -> SkinState {
    SkinState::rest().with_buttons(
        inputs.buttons@,
        state.buttons@,
        crate::render::both(inputs.buttons@.len(), state.buttons@.len()),
    )
}

/// How often `role` stands among the first `n` of `roles`.
pub open spec fn uses(roles: Seq<Seq<char>>, role: Seq<char>, n: nat) -> nat
    decreases n,
{
    if n == 0 {
        0
    } else {
        uses(roles, role, (n - 1) as nat) + if roles[n - 1] == role {
            1nat
        } else {
            0nat
        }
    }
}

/// The roles of a button.
pub open spec fn roles_of(b: Button) -> Seq<Seq<char>> {
    match b.skin {
        Some(skin) => crate::text::words(skin@),
        None => seq![],
    }
}

/// How often `role` is pressed by the first `n` buttons.
pub open spec fn presses(buttons: Seq<Button>, pressed: Seq<bool>, role: Seq<char>, n: nat) -> nat
    decreases n,
{
    if n == 0 {
        0
    } else {
        presses(buttons, pressed, role, (n - 1) as nat) + if pressed[n - 1] {
            uses(roles_of(buttons[n - 1]), role, roles_of(buttons[n - 1]).len())
        } else {
            0nat
        }
    }
}

/// How many roles the first `n` buttons have.
pub open spec fn role_count(buttons: Seq<Button>, n: nat) -> nat
    decreases n,
{
    if n == 0 {
        0
    } else {
        role_count(buttons, (n - 1) as nat) + roles_of(buttons[n - 1]).len()
    }
}

/// Directions name no element of the skin, and no two of them are alike.
pub proof fn lemma_directions()
    ensures
        role_bit("lup"@) is None,
        role_bit("ldown"@) is None,
        role_bit("lleft"@) is None,
        role_bit("lright"@) is None,
        role_bit("rup"@) is None,
        role_bit("rdown"@) is None,
        role_bit("rleft"@) is None,
        role_bit("rright"@) is None,
        seq![
            "lup"@,
            "ldown"@,
            "lleft"@,
            "lright"@,
            "rup"@,
            "rdown"@,
            "rleft"@,
            "rright"@,
        ].no_duplicates(),
{
    reveal_strlit("a");
    reveal_strlit("b");
    reveal_strlit("x");
    reveal_strlit("y");
    reveal_strlit("lb");
    reveal_strlit("rb");
    reveal_strlit("lt");
    reveal_strlit("rt");
    reveal_strlit("l3");
    reveal_strlit("r3");
    reveal_strlit("start");
    reveal_strlit("lup");
    reveal_strlit("ldown");
    reveal_strlit("lleft");
    reveal_strlit("lright");
    reveal_strlit("rup");
    reveal_strlit("rdown");
    reveal_strlit("rleft");
    reveal_strlit("rright");
    assert("a"@.len() == 1 && "b"@.len() == 1 && "x"@.len() == 1 && "y"@.len() == 1);
    assert("lb"@.len() == 2 && "rb"@.len() == 2 && "lt"@.len() == 2 && "rt"@.len() == 2);
    assert("l3"@.len() == 2 && "r3"@.len() == 2 && "start"@.len() == 5);
    assert("lup"@.len() == 3 && "rup"@.len() == 3);
    assert("ldown"@.len() == 5 && "rdown"@.len() == 5);
    assert("lleft"@.len() == 5 && "rleft"@.len() == 5);
    assert("lright"@.len() == 6 && "rright"@.len() == 6);
    assert("start"@[0] == 's');
    assert("lup"@[0] == 'l' && "rup"@[0] == 'r');
    assert("ldown"@[0] == 'l' && "rdown"@[0] == 'r');
    assert("ldown"@[1] == 'd' && "rdown"@[1] == 'd');
    assert("lleft"@[0] == 'l' && "rleft"@[0] == 'r');
    assert("lleft"@[1] == 'l' && "rleft"@[1] == 'l');
    assert("lright"@[0] == 'l' && "rright"@[0] == 'r');
}

/// Whether the sticks are deflected by whole steps, `x` to the right and `y` down for the left
/// one, `z` and `w` for the right one.
pub open spec fn deflected(s: SkinState, x: int, y: int, z: int, w: int) -> bool {
    &&& s.left == (Scalar::integer(x), Scalar::integer(y))
    &&& s.right == (Scalar::integer(z), Scalar::integer(w))
}

proof fn lemma_roles_deflect(
    s: SkinState,
    roles: Seq<Seq<char>>,
    n: nat,
    total: nat,
    x: int,
    y: int,
    z: int,
    w: int,
)
    requires
        deflected(s, x, y, z, w),
        -total <= x <= total,
        -total <= y <= total,
        -total <= z <= total,
        -total <= w <= total,
        total + n <= 0x100_0000,
    ensures
        deflected(
            s.with_roles(roles, n),
            x + uses(roles, "lright"@, n) - uses(roles, "lleft"@, n),
            y + uses(roles, "ldown"@, n) - uses(roles, "lup"@, n),
            z + uses(roles, "rright"@, n) - uses(roles, "rleft"@, n),
            w + uses(roles, "rdown"@, n) - uses(roles, "rup"@, n),
        ),
        uses(roles, "lright"@, n) <= n,
        uses(roles, "lleft"@, n) <= n,
        uses(roles, "ldown"@, n) <= n,
        uses(roles, "lup"@, n) <= n,
        uses(roles, "rright"@, n) <= n,
        uses(roles, "rleft"@, n) <= n,
        uses(roles, "rdown"@, n) <= n,
        uses(roles, "rup"@, n) <= n,
    decreases n,
{
    if n > 0 {
        let m = (n - 1) as nat;
        lemma_roles_deflect(s, roles, m, total, x, y, z, w);
        lemma_step_role(
            s.with_roles(roles, m),
            roles[n - 1],
            x + uses(roles, "lright"@, m) - uses(roles, "lleft"@, m),
            y + uses(roles, "ldown"@, m) - uses(roles, "lup"@, m),
            z + uses(roles, "rright"@, m) - uses(roles, "rleft"@, m),
            w + uses(roles, "rdown"@, m) - uses(roles, "rup"@, m),
        );
    }
}

/// One if `role` is `a`, else zero.
pub open spec fn hit(role: Seq<char>, a: Seq<char>) -> int {
    if role == a {
        1
    } else {
        0
    }
}

proof fn lemma_step_role(s: SkinState, role: Seq<char>, x: int, y: int, z: int, w: int)
    requires
        deflected(s, x, y, z, w),
        -0x100_0000 < x < 0x100_0000,
        -0x100_0000 < y < 0x100_0000,
        -0x100_0000 < z < 0x100_0000,
        -0x100_0000 < w < 0x100_0000,
    ensures
        deflected(
            s.with_role(role),
            x + hit(role, "lright"@) - hit(role, "lleft"@),
            y + hit(role, "ldown"@) - hit(role, "lup"@),
            z + hit(role, "rright"@) - hit(role, "rleft"@),
            w + hit(role, "rdown"@) - hit(role, "rup"@),
        ),
{
    lemma_directions();
    let all = seq![
        "lup"@,
        "ldown"@,
        "lleft"@,
        "lright"@,
        "rup"@,
        "rdown"@,
        "rleft"@,
        "rright"@,
    ];
    assert forall|i: int, j: int| 0 <= i < j < 8 implies all[i] != all[j] by {}
    assert(all[0] == "lup"@ && all[1] == "ldown"@ && all[2] == "lleft"@ && all[3] == "lright"@);
    assert(all[4] == "rup"@ && all[5] == "rdown"@ && all[6] == "rleft"@ && all[7] == "rright"@);
    crate::arith::lemma_integer_step(x);
    crate::arith::lemma_integer_step(y);
    crate::arith::lemma_integer_step(z);
    crate::arith::lemma_integer_step(w);
}

proof fn lemma_buttons_deflect(buttons: Seq<Button>, pressed: Seq<bool>, n: nat)
    requires
        role_count(buttons, n) <= 0x100_0000,
    ensures
        deflected(
            SkinState::rest().with_buttons(buttons, pressed, n),
            presses(buttons, pressed, "lright"@, n) - presses(buttons, pressed, "lleft"@, n),
            presses(buttons, pressed, "ldown"@, n) - presses(buttons, pressed, "lup"@, n),
            presses(buttons, pressed, "rright"@, n) - presses(buttons, pressed, "rleft"@, n),
            presses(buttons, pressed, "rdown"@, n) - presses(buttons, pressed, "rup"@, n),
        ),
        presses(buttons, pressed, "lright"@, n) <= role_count(buttons, n),
        presses(buttons, pressed, "lleft"@, n) <= role_count(buttons, n),
        presses(buttons, pressed, "ldown"@, n) <= role_count(buttons, n),
        presses(buttons, pressed, "lup"@, n) <= role_count(buttons, n),
        presses(buttons, pressed, "rright"@, n) <= role_count(buttons, n),
        presses(buttons, pressed, "rleft"@, n) <= role_count(buttons, n),
        presses(buttons, pressed, "rdown"@, n) <= role_count(buttons, n),
        presses(buttons, pressed, "rup"@, n) <= role_count(buttons, n),
    decreases n,
{
    if n == 0 {
        crate::arith::lemma_integer_clamped(0);
        crate::arith::lemma_integer_value(0);
        crate::scalar::lemma_one();
    } else {
        let m = (n - 1) as nat;
        lemma_buttons_deflect(buttons, pressed, m);
        let b = buttons[n - 1];
        let before = SkinState::rest().with_buttons(buttons, pressed, m);
        if pressed[n - 1] {
            let raised = SkinState { raw: before.raw | (1u64 << b.id), ..before };
            let roles = roles_of(b);
            assert(before.with_button(b) == raised.with_roles(roles, roles.len()));
            lemma_roles_deflect(
                raised,
                roles,
                roles.len(),
                role_count(buttons, m),
                presses(buttons, pressed, "lright"@, m) - presses(buttons, pressed, "lleft"@, m),
                presses(buttons, pressed, "ldown"@, m) - presses(buttons, pressed, "lup"@, m),
                presses(buttons, pressed, "rright"@, m) - presses(buttons, pressed, "rleft"@, m),
                presses(buttons, pressed, "rdown"@, m) - presses(buttons, pressed, "rup"@, m),
            );
        }
    }
}

/// The deflection that as many presses one way and the other make: full to the side with more
/// presses, none where both are alike.
pub open spec fn tug(there: nat, back: nat) -> Scalar {
    if there > back {
        Scalar { bits: ONE }
    } else if there < back {
        Scalar { bits: crate::label::MINUS_ONE }
    } else {
        Scalar { bits: 0 }
    }
}

/// Digital directions deflect a stick fully, and opposite ones cancel each other.
pub proof fn lemma_digital_deflection(inputs: Inputs, state: InputState)
    requires
        role_count(
            inputs.buttons@,
            crate::render::both(inputs.buttons@.len(), state.buttons@.len()),
        ) <= 0x100_0000,
    ensures
        ({
            let n = crate::render::both(inputs.buttons@.len(), state.buttons@.len());
            let s = digital(inputs, state);
            let count = |role: Seq<char>| presses(inputs.buttons@, state.buttons@, role, n);
            &&& s.left.0.clamped() == tug(count("lright"@), count("lleft"@))
            &&& s.left.1.clamped() == tug(count("ldown"@), count("lup"@))
            &&& s.right.0.clamped() == tug(count("rright"@), count("rleft"@))
            &&& s.right.1.clamped() == tug(count("rdown"@), count("rup"@))
        }),
{
    let n = crate::render::both(inputs.buttons@.len(), state.buttons@.len());
    let count = |role: Seq<char>| presses(inputs.buttons@, state.buttons@, role, n);
    lemma_buttons_deflect(inputs.buttons@, state.buttons@, n);
    crate::arith::lemma_integer_clamped(count("lright"@) - count("lleft"@));
    crate::arith::lemma_integer_clamped(count("ldown"@) - count("lup"@));
    crate::arith::lemma_integer_clamped(count("rright"@) - count("rleft"@));
    crate::arith::lemma_integer_clamped(count("rdown"@) - count("rup"@));
}

// ---------------------------------------------------------------------------
// Reading an event
// ---------------------------------------------------------------------------

/// Whether `s` is free of what separates the fields and lines of an event.
pub open spec fn unbroken(s: Seq<char>) -> bool {
    forall|i: int| 0 <= i < s.len() ==> #[trigger] s[i] != ';' && s[i] != ',' && s[i] != '\n'
}

proof fn lemma_digits_unbroken(s: Seq<char>)
    requires
        crate::text::all_digits(s),
    ensures
        unbroken(s),
{
}

proof fn lemma_unbroken_concat(a: Seq<char>, b: Seq<char>)
    requires
        unbroken(a),
        unbroken(b),
    ensures
        unbroken(a + b),
{
}

proof fn lemma_fixed_unbroken(v: Scalar, places: nat)
    ensures
        unbroken(v.fixed(places)),
{
    reveal_strlit("NaN");
    reveal_strlit("inf");
    let prefix: Seq<char> = if v.is_signed() {
        seq!['-']
    } else {
        seq![]
    };
    assert(unbroken(prefix));
    if v.is_nan() {
    } else if !v.is_finite() {
        assert(unbroken("inf"@));
        lemma_unbroken_concat(prefix, "inf"@);
    } else {
        let ten = crate::scalar::pow10(places);
        let scaled = crate::scalar::half_even(
            crate::scalar::magnitude(v.low()) * ten,
            crate::scalar::unit(),
        );
        let whole = crate::text::decimal(scaled / ten);
        let part = crate::text::padded(scaled % ten, places);
        crate::text::lemma_decimal(scaled / ten);
        crate::text::lemma_padded(scaled % ten, places);
        lemma_digits_unbroken(whole);
        lemma_digits_unbroken(part);
        lemma_unbroken_concat(prefix, whole);
        lemma_unbroken_concat(prefix + whole, seq!['.']);
        lemma_unbroken_concat(prefix + whole + seq!['.'], part);
    }
}

/// The stick deflections in an event.
pub open spec fn sticks_text(s: SkinState) -> Seq<char> {
    s.left.0.clamped().fixed(3) + seq![','] + s.left.1.clamped().fixed(3) + seq![',']
        + s.right.0.clamped().fixed(3) + seq![','] + s.right.1.clamped().fixed(3)
}

/// An event has three fields with semicolons between them: the lit elements, the deflections
/// with commas between them, and the pressed buttons. The masks can be read back, and all of it
/// is one line.
pub proof fn lemma_event_fields(s: SkinState)
    ensures
        crate::text::pieces(s.text(), ';') == seq![
            crate::text::decimal(s.mask as nat),
            sticks_text(s),
            crate::text::decimal(s.raw as nat),
        ],
        crate::text::pieces(sticks_text(s), ',') == seq![
            s.left.0.clamped().fixed(3),
            s.left.1.clamped().fixed(3),
            s.right.0.clamped().fixed(3),
            s.right.1.clamped().fixed(3),
        ],
        crate::text::unsigned_value(crate::text::decimal(s.mask as nat), u16::MAX as nat) == Some(
            s.mask as nat,
        ),
        crate::text::unsigned_value(crate::text::decimal(s.raw as nat), u64::MAX as nat) == Some(
            s.raw as nat,
        ),
        forall|i: int| 0 <= i < s.text().len() ==> s.text()[i] != '\n',
{
    let mask = crate::text::decimal(s.mask as nat);
    let raw = crate::text::decimal(s.raw as nat);
    let a = s.left.0.clamped().fixed(3);
    let b = s.left.1.clamped().fixed(3);
    let c = s.right.0.clamped().fixed(3);
    let d = s.right.1.clamped().fixed(3);
    crate::text::lemma_decimal(s.mask as nat);
    crate::text::lemma_decimal(s.raw as nat);
    lemma_digits_unbroken(mask);
    lemma_digits_unbroken(raw);
    crate::text::lemma_decimal_read(s.mask as nat, u16::MAX as nat);
    crate::text::lemma_decimal_read(s.raw as nat, u64::MAX as nat);
    lemma_fixed_unbroken(s.left.0.clamped(), 3);
    lemma_fixed_unbroken(s.left.1.clamped(), 3);
    lemma_fixed_unbroken(s.right.0.clamped(), 3);
    lemma_fixed_unbroken(s.right.1.clamped(), 3);
    let sticks = sticks_text(s);
    lemma_joined(a, b, c, d);
    assert forall|i: int| 0 <= i < sticks.len() implies sticks[i] != ';' by {}
    assert(s.text() == mask + seq![';'] + (sticks + seq![';'] + raw));
    crate::text::lemma_pieces(mask, ';', sticks + seq![';'] + raw);
    crate::text::lemma_pieces(sticks, ';', raw);
    crate::text::lemma_pieces(raw, ';', seq![]);
    assert(seq![mask] + (seq![sticks] + seq![raw]) == seq![mask, sticks, raw]);
    assert forall|i: int| 0 <= i < s.text().len() implies s.text()[i] != '\n' by {
        let m = mask.len() as int;
        let n = m + 1 + sticks.len();
        if i < m {
            assert(s.text()[i] == mask[i]);
        } else if i == m {
        } else if i < n {
            assert(s.text()[i] == sticks[i - m - 1]);
        } else if i == n {
        } else {
            assert(s.text()[i] == raw[i - n - 1]);
        }
    }
}

proof fn lemma_joined(a: Seq<char>, b: Seq<char>, c: Seq<char>, d: Seq<char>)
    requires
        unbroken(a),
        unbroken(b),
        unbroken(c),
        unbroken(d),
    ensures
        ({
            let all = a + seq![','] + b + seq![','] + c + seq![','] + d;
            &&& crate::text::pieces(all, ',') == seq![a, b, c, d]
            &&& forall|i: int| 0 <= i < all.len() ==> #[trigger] all[i] != ';' && all[i] != '\n'
        }),
{
    let all = a + seq![','] + b + seq![','] + c + seq![','] + d;
    crate::text::lemma_pieces(a, ',', b + seq![','] + (c + seq![','] + d));
    crate::text::lemma_pieces(b, ',', c + seq![','] + d);
    crate::text::lemma_pieces(c, ',', d);
    crate::text::lemma_pieces(d, ',', seq![]);
    assert(all == a + seq![','] + (b + seq![','] + (c + seq![','] + d)));
    assert(seq![a] + (seq![b] + (seq![c] + seq![d])) == seq![a, b, c, d]);
    assert forall|i: int| 0 <= i < all.len() implies #[trigger] all[i] != ';' && all[i] != '\n' by {
        let p = a.len() as int;
        let q = p + 1 + b.len();
        let r = q + 1 + c.len();
        if i < p {
            assert(all[i] == a[i]);
        } else if i == p {
        } else if i < q {
            assert(all[i] == b[i - p - 1]);
        } else if i == q {
        } else if i < r {
            assert(all[i] == c[i - q - 1]);
        } else if i == r {
        } else {
            assert(all[i] == d[i - r - 1]);
        }
    }
}

// ---------------------------------------------------------------------------
// The order of buttons and roles
// ---------------------------------------------------------------------------

/// What of a button counts for the skin: its id, whether it is pressed, and how often it has each
/// role.
pub type Tag = (u8, bool, vstd::multiset::Multiset<Seq<char>>);

/// What of a button counts for the skin.
pub open spec fn tag(b: Button, pressed: bool) -> Tag {
    (b.id, pressed, roles_of(b).to_multiset())
}

/// What of the first `n` buttons counts for the skin.
pub open spec fn tags(buttons: Seq<Button>, pressed: Seq<bool>, n: nat) -> Seq<Tag> {
    Seq::new(n, |i: int| tag(buttons[i], pressed[i]))
}

/// Whether `p` lists each number below its length once.
pub open spec fn is_order(p: Seq<int>) -> bool {
    &&& p.no_duplicates()
    &&& forall|i: int| 0 <= i < p.len() ==> 0 <= #[trigger] p[i] < p.len()
}

/// A sequence in another order has the same elements.
proof fn lemma_reordered<T>(a: Seq<T>, b: Seq<T>, p: Seq<int>)
    requires
        is_order(p),
        a.len() == p.len(),
        b.len() == p.len(),
        forall|i: int| 0 <= i < a.len() ==> #[trigger] a[i] == b[p[i]],
    ensures
        a.to_multiset() == b.to_multiset(),
    decreases a.len(),
{
    if a.len() == 0 {
        assert(a == b);
    } else {
        let n = a.len() - 1;
        let m = p[n];
        let q = Seq::new(
            n as nat,
            |i: int|
                if p[i] > m {
                    p[i] - 1
                } else {
                    p[i]
                },
        );
        let c = a.drop_last();
        let d = b.remove(m);
        assert forall|i: int| 0 <= i < q.len() implies 0 <= #[trigger] q[i] < q.len() by {
            assert(p[i] != p[n]);
            assert(0 <= p[i] < p.len());
        }
        assert forall|i: int, j: int| 0 <= i < q.len() && 0 <= j < q.len() && i != j implies q[i]
            != q[j] by {
            assert(p[i] != p[j] && p[i] != p[n] && p[j] != p[n]);
        }
        assert forall|i: int| 0 <= i < c.len() implies #[trigger] c[i] == d[q[i]] by {
            assert(a[i] == b[p[i]]);
            assert(p[i] != p[n]);
            assert(0 <= p[i] < p.len());
        }
        lemma_reordered(c, d, q);
        assert(a[n] == b[p[n]]);
        assert(a == c.push(a[n]));
        vstd::seq_lib::to_multiset_build(c, a[n]);
        vstd::seq_lib::to_multiset_remove(b, m);
        b.to_multiset_ensures();
        assert(b.contains(b[m]));
        assert(b.to_multiset().remove(b[m]).insert(b[m]) =~= b.to_multiset());
    }
}

/// Sequences with the same elements sum up to the same.
proof fn lemma_same_sum(a: Seq<Tag>, b: Seq<Tag>, weight: spec_fn(Tag) -> nat)
    requires
        a.to_multiset() == b.to_multiset(),
    ensures
        total(a, weight) == total(b, weight),
    decreases a.len(),
{
    a.to_multiset_ensures();
    b.to_multiset_ensures();
    if a.len() == 0 {
        assert(b.len() == 0);
    } else {
        let x = a.last();
        assert(a.contains(a[a.len() - 1]));
        assert(a.to_multiset().count(x) > 0 && b.to_multiset().count(x) > 0);
        assert(b.contains(x));
        let i = choose|i: int| 0 <= i < b.len() && b[i] == x;
        assert(a.remove(a.len() - 1) == a.drop_last());
        vstd::seq_lib::to_multiset_remove(a, a.len() - 1);
        vstd::seq_lib::to_multiset_remove(b, i);
        lemma_same_sum(a.drop_last(), b.remove(i), weight);
        lemma_sum_without(b, i, weight);
    }
}

/// The sum of the weights of `a`.
pub open spec fn total(a: Seq<Tag>, weight: spec_fn(Tag) -> nat) -> nat
    decreases a.len(),
{
    if a.len() == 0 {
        0
    } else {
        total(a.drop_last(), weight) + weight(a.last())
    }
}

proof fn lemma_sum_without(a: Seq<Tag>, i: int, weight: spec_fn(Tag) -> nat)
    requires
        0 <= i < a.len(),
    ensures
        total(a, weight) == total(a.remove(i), weight) + weight(a[i]),
    decreases a.len(),
{
    if i == a.len() - 1 {
        assert(a.remove(i) == a.drop_last());
    } else {
        lemma_sum_without(a.drop_last(), i, weight);
        assert(a.remove(i).drop_last() == a.drop_last().remove(i));
        assert(a.remove(i).last() == a.last());
    }
}

proof fn lemma_uses(roles: Seq<Seq<char>>, role: Seq<char>, n: nat)
    requires
        n <= roles.len(),
    ensures
        uses(roles, role, n) == roles.take(n as int).to_multiset().count(role),
    decreases n,
{
    roles.take(n as int).to_multiset_ensures();
    if n > 0 {
        lemma_uses(roles, role, (n - 1) as nat);
        assert(roles.take(n as int) == roles.take(n - 1).push(roles[n - 1]));
        vstd::seq_lib::to_multiset_build(roles.take(n - 1), roles[n - 1]);
    }
}

proof fn lemma_presses_total(buttons: Seq<Button>, pressed: Seq<bool>, role: Seq<char>, n: nat)
    ensures
        presses(buttons, pressed, role, n) == total(
            tags(buttons, pressed, n),
            |t: Tag|
                if t.1 {
                    t.2.count(role)
                } else {
                    0
                },
        ),
    decreases n,
{
    if n > 0 {
        lemma_presses_total(buttons, pressed, role, (n - 1) as nat);
        assert(tags(buttons, pressed, n).drop_last() == tags(buttons, pressed, (n - 1) as nat));
        let roles = roles_of(buttons[n - 1]);
        lemma_uses(roles, role, roles.len());
        assert(roles.take(roles.len() as int) == roles);
    }
}

proof fn lemma_role_total(buttons: Seq<Button>, pressed: Seq<bool>, n: nat)
    ensures
        role_count(buttons, n) == total(tags(buttons, pressed, n), |t: Tag| t.2.len()),
    decreases n,
{
    if n > 0 {
        lemma_role_total(buttons, pressed, (n - 1) as nat);
        assert(tags(buttons, pressed, n).drop_last() == tags(buttons, pressed, (n - 1) as nat));
        roles_of(buttons[n - 1]).to_multiset_ensures();
    }
}

/// Whether a tag holds a role for the element with bit `k`.
pub open spec fn tag_names(t: Tag, k: u8) -> bool {
    exists|role: Seq<char>| #[trigger] t.2.count(role) > 0 && role_bit(role) == Some(k)
}

proof fn lemma_tag_names(b: Button, pressed: bool, k: u8)
    ensures
        stands_for(b, k) == tag_names(tag(b, pressed), k),
{
    let roles = roles_of(b);
    roles.to_multiset_ensures();
    if stands_for(b, k) {
        let w = choose|w: int| 0 <= w < roles.len() && role_bit(#[trigger] roles[w]) == Some(k);
        assert(roles.contains(roles[w]));
        assert(tag(b, pressed).2.count(roles[w]) > 0);
    }
    if tag_names(tag(b, pressed), k) {
        let role = choose|role: Seq<char>|
            #[trigger] tag(b, pressed).2.count(role) > 0 && role_bit(role) == Some(k);
        assert(roles.contains(role));
        let w = choose|w: int| 0 <= w < roles.len() && roles[w] == role;
        assert(role_bit(roles[w]) == Some(k));
    }
}

/// Patterns with the same bits are the same.
proof fn lemma_same_bits(a: u64, b: u64)
    requires
        forall|k: u8| k < 64 ==> held(a, k) == held(b, k),
    ensures
        a == b,
    decreases a,
{
    assert(held(a, 0) == held(b, 0));
    assert(a & 1 == b & 1) by {
        assert((a >> 0u8) & 1 == a & 1 && (b >> 0u8) & 1 == b & 1) by (bit_vector);
        assert((a & 1 == 0 || a & 1 == 1) && (b & 1 == 0 || b & 1 == 1)) by (bit_vector);
    }
    if a == 0 {
        assert forall|k: u8| k < 64 implies !held(b, k) by {
            assert(held(0, k) == held(b, k));
            assert((0u64 >> k) & 1 == 0) by (bit_vector);
        }
        lemma_no_bits(b);
    } else {
        let c = a >> 1;
        let d = b >> 1;
        assert forall|k: u8| k < 64 implies held(c, k) == held(d, k) by {
            if k < 63 {
                let j = (k + 1) as u8;
                assert((a >> 1) >> k == a >> j && (b >> 1) >> k == b >> j) by (bit_vector)
                    requires
                        k < 63,
                        j == k + 1,
                ;
                assert(held(a, j) == held(b, j));
            } else {
                assert((a >> 1) >> k == 0 && (b >> 1) >> k == 0) by (bit_vector)
                    requires
                        63 <= k < 64,
                ;
            }
        }
        assert((a >> 1) < a) by (bit_vector)
            requires
                a != 0,
        ;
        lemma_same_bits(c, d);
        assert(a >> 1 == b >> 1 && a & 1 == b & 1 ==> a == b) by (bit_vector);
    }
}

proof fn lemma_no_bits(b: u64)
    requires
        forall|k: u8| k < 64 ==> !held(b, k),
    ensures
        b == 0,
    decreases b,
{
    if b != 0 {
        let d = b >> 1;
        assert forall|k: u8| k < 64 implies !held(d, k) by {
            if k < 63 {
                let j = (k + 1) as u8;
                assert((b >> 1) >> k == b >> j) by (bit_vector)
                    requires
                        k < 63,
                        j == k + 1,
                ;
                assert(!held(b, j));
            } else {
                assert(((b >> 1) >> k) & 1 == 0) by (bit_vector)
                    requires
                        63 <= k < 64,
                ;
            }
        }
        assert((b >> 1) < b) by (bit_vector)
            requires
                b != 0,
        ;
        lemma_no_bits(d);
        assert(!held(b, 0));
        assert((b >> 0u8) & 1 != 1 && b >> 1 == 0 ==> b == 0) by (bit_vector);
    }
}

proof fn lemma_same_mask(a: u16, b: u16)
    requires
        forall|k: u8| k < 16 ==> lit(a, k) == lit(b, k),
    ensures
        a == b,
{
    let c = a as u64;
    let d = b as u64;
    assert forall|k: u8| k < 64 implies held(c, k) == held(d, k) by {
        if k < 16 {
            assert(lit(a, k) == lit(b, k));
            assert(((a as u64) >> k) & 1 == 1 <==> (a >> k) & 1 == 1) by (bit_vector)
                requires
                    k < 16,
            ;
            assert(((b as u64) >> k) & 1 == 1 <==> (b >> k) & 1 == 1) by (bit_vector)
                requires
                    k < 16,
            ;
        } else {
            assert((a as u64) >> k == 0 && (b as u64) >> k == 0) by (bit_vector)
                requires
                    16 <= k < 64,
            ;
        }
    }
    lemma_same_bits(c, d);
}

/// Whether two states of the skin have the same text: they agree but for what is clamped away.
pub open spec fn agree(s: SkinState, t: SkinState) -> bool {
    &&& s.mask == t.mask
    &&& s.raw == t.raw
    &&& s.left.0.clamped() == t.left.0.clamped()
    &&& s.left.1.clamped() == t.left.1.clamped()
    &&& s.right.0.clamped() == t.right.0.clamped()
    &&& s.right.1.clamped() == t.right.1.clamped()
}

proof fn lemma_sticks_agree(
    s: SkinState,
    t: SkinState,
    sticks: Seq<Stick>,
    at: Seq<(Scalar, Scalar)>,
    n: nat,
)
    requires
        agree(s, t),
    ensures
        agree(s.with_sticks(sticks, at, n), t.with_sticks(sticks, at, n)),
    decreases n,
{
    if n > 0 {
        lemma_sticks_agree(s, t, sticks, at, (n - 1) as nat);
    }
}

/// Whether `a` has the buttons of `b` in the order `p`, and their roles in any order.
pub open spec fn reordered(
    a: (Seq<Button>, Seq<bool>),
    b: (Seq<Button>, Seq<bool>),
    p: Seq<int>,
) -> bool {
    &&& is_order(p)
    &&& a.0.len() == p.len() && a.1.len() == p.len()
    &&& b.0.len() == p.len() && b.1.len() == p.len()
    &&& forall|i: int|
        0 <= i < p.len() ==> {
            &&& (#[trigger] a.0[i]).id == b.0[p[i]].id
            &&& roles_of(a.0[i]).to_multiset() == roles_of(b.0[p[i]]).to_multiset()
            &&& a.1[i] == b.1[p[i]]
        }
}

proof fn lemma_same_tags(a: (Seq<Button>, Seq<bool>), b: (Seq<Button>, Seq<bool>), p: Seq<int>)
    requires
        reordered(a, b, p),
    ensures
        tags(a.0, a.1, p.len()).to_multiset() == tags(b.0, b.1, p.len()).to_multiset(),
{
    let s = tags(a.0, a.1, p.len());
    let t = tags(b.0, b.1, p.len());
    assert forall|i: int| 0 <= i < s.len() implies #[trigger] s[i] == t[p[i]] by {
        assert(a.0[i].id == b.0[p[i]].id);
    }
    lemma_reordered(s, t, p);
}

/// A pressed button with the same tag is found on the other side.
proof fn lemma_counterpart(
    a: (Seq<Button>, Seq<bool>),
    b: (Seq<Button>, Seq<bool>),
    n: nat,
    i: int,
) -> (j: int)
    requires
        tags(a.0, a.1, n).to_multiset() == tags(b.0, b.1, n).to_multiset(),
        0 <= i < n,
    ensures
        0 <= j < n,
        tag(b.0[j], b.1[j]) == tag(a.0[i], a.1[i]),
{
    let s = tags(a.0, a.1, n);
    let t = tags(b.0, b.1, n);
    s.to_multiset_ensures();
    t.to_multiset_ensures();
    assert(s.contains(s[i]));
    assert(s.to_multiset().count(s[i]) > 0 && t.to_multiset().count(s[i]) > 0);
    assert(t.contains(s[i]));
    choose|j: int| 0 <= j < t.len() && t[j] == s[i]
}

proof fn lemma_same_masks(a: Inputs, s: InputState, b: Inputs, t: InputState, n: nat)
    requires
        a.buttons@.len() == n && s.buttons@.len() == n,
        b.buttons@.len() == n && t.buttons@.len() == n,
        tags(a.buttons@, s.buttons@, n).to_multiset() == tags(
            b.buttons@,
            t.buttons@,
            n,
        ).to_multiset(),
        raw_fits(a, s),
        raw_fits(b, t),
    ensures
        SkinState::shown(a, s).mask == SkinState::shown(b, t).mask,
        SkinState::shown(a, s).raw == SkinState::shown(b, t).raw,
{
    let x = (a.buttons@, s.buttons@);
    let y = (b.buttons@, t.buttons@);
    assert forall|k: u8| k < 16 implies lit(SkinState::shown(a, s).mask, k) == lit(
        SkinState::shown(b, t).mask,
        k,
    ) by {
        lemma_lit_iff_pressed(a, s, k);
        lemma_lit_iff_pressed(b, t, k);
        lemma_lit_moves(x, y, n, k);
        lemma_lit_moves(y, x, n, k);
    }
    lemma_same_mask(SkinState::shown(a, s).mask, SkinState::shown(b, t).mask);
    assert forall|k: u8| k < 64 implies held(SkinState::shown(a, s).raw, k) == held(
        SkinState::shown(b, t).raw,
        k,
    ) by {
        lemma_held_iff_pressed(a, s, k);
        lemma_held_iff_pressed(b, t, k);
        lemma_held_moves(x, y, n, k);
        lemma_held_moves(y, x, n, k);
    }
    lemma_same_bits(SkinState::shown(a, s).raw, SkinState::shown(b, t).raw);
}

proof fn lemma_lit_moves(
    a: (Seq<Button>, Seq<bool>),
    b: (Seq<Button>, Seq<bool>),
    n: nat,
    k: u8,
)
    requires
        tags(a.0, a.1, n).to_multiset() == tags(b.0, b.1, n).to_multiset(),
    ensures
        (exists|i: int| 0 <= i < n && a.1[i] && stands_for(#[trigger] a.0[i], k)) ==> exists|i: int|
            0 <= i < n && b.1[i] && stands_for(#[trigger] b.0[i], k),
{
    if exists|i: int| 0 <= i < n && a.1[i] && stands_for(#[trigger] a.0[i], k) {
        let i = choose|i: int| 0 <= i < n && a.1[i] && stands_for(#[trigger] a.0[i], k);
        let j = lemma_counterpart(a, b, n, i);
        lemma_tag_names(a.0[i], a.1[i], k);
        lemma_tag_names(b.0[j], b.1[j], k);
        assert(b.1[j] && stands_for(b.0[j], k));
    }
}

proof fn lemma_held_moves(
    a: (Seq<Button>, Seq<bool>),
    b: (Seq<Button>, Seq<bool>),
    n: nat,
    k: u8,
)
    requires
        tags(a.0, a.1, n).to_multiset() == tags(b.0, b.1, n).to_multiset(),
    ensures
        (exists|i: int| 0 <= i < n && a.1[i] && (#[trigger] a.0[i]).id == k) ==> exists|i: int|
            0 <= i < n && b.1[i] && (#[trigger] b.0[i]).id == k,
{
    if exists|i: int| 0 <= i < n && a.1[i] && (#[trigger] a.0[i]).id == k {
        let i = choose|i: int| 0 <= i < n && a.1[i] && (#[trigger] a.0[i]).id == k;
        let j = lemma_counterpart(a, b, n, i);
        assert(b.1[j] && b.0[j].id == k);
    }
}

/// Neither the order of the buttons nor that of the roles of a button changes an event, as long as
/// there are not more roles than single precision can count.
pub proof fn lemma_order_irrelevant(
    a: Inputs,
    s: InputState,
    b: Inputs,
    t: InputState,
    p: Seq<int>,
)
    requires
        reordered((a.buttons@, s.buttons@), (b.buttons@, t.buttons@), p),
        a.sticks@ == b.sticks@,
        s.sticks@ == t.sticks@,
        raw_fits(b, t),
        role_count(b.buttons@, b.buttons@.len()) <= 0x100_0000,
    ensures
        raw_fits(a, s),
        SkinState::shown(a, s).text() == SkinState::shown(b, t).text(),
{
    let n = p.len();
    let x = tags(a.buttons@, s.buttons@, n);
    let y = tags(b.buttons@, t.buttons@, n);
    lemma_same_tags((a.buttons@, s.buttons@), (b.buttons@, t.buttons@), p);
    assert forall|i: int| 0 <= i < n && s.buttons@[i] implies (#[trigger] a.buttons@[i]).id
        < 64 by {
        assert(0 <= p[i] < n);
        assert(b.buttons@[p[i]].id == a.buttons@[i].id);
    }
    lemma_same_masks(a, s, b, t, n);
    lemma_role_total(a.buttons@, s.buttons@, n);
    lemma_role_total(b.buttons@, t.buttons@, n);
    lemma_same_sum(x, y, |t: Tag| t.2.len());
    lemma_same_presses(a, s, b, t, n, "lright"@);
    lemma_same_presses(a, s, b, t, n, "lleft"@);
    lemma_same_presses(a, s, b, t, n, "ldown"@);
    lemma_same_presses(a, s, b, t, n, "lup"@);
    lemma_same_presses(a, s, b, t, n, "rright"@);
    lemma_same_presses(a, s, b, t, n, "rleft"@);
    lemma_same_presses(a, s, b, t, n, "rdown"@);
    lemma_same_presses(a, s, b, t, n, "rup"@);
    lemma_digital_deflection(a, s);
    lemma_digital_deflection(b, t);
    let m = crate::render::both(a.sticks@.len(), s.sticks@.len());
    lemma_sticks_keep(digital(a, s), a.sticks@, s.sticks@, m);
    lemma_sticks_keep(digital(b, t), b.sticks@, t.sticks@, m);
    assert(agree(digital(a, s), digital(b, t)));
    lemma_sticks_agree(digital(a, s), digital(b, t), a.sticks@, s.sticks@, m);
}

proof fn lemma_same_presses(
    a: Inputs,
    s: InputState,
    b: Inputs,
    t: InputState,
    n: nat,
    role: Seq<char>,
)
    requires
        tags(a.buttons@, s.buttons@, n).to_multiset() == tags(
            b.buttons@,
            t.buttons@,
            n,
        ).to_multiset(),
    ensures
        presses(a.buttons@, s.buttons@, role, n) == presses(b.buttons@, t.buttons@, role, n),
{
    let weight = |t: Tag|
        if t.1 {
            t.2.count(role)
        } else {
            0nat
        };
    lemma_presses_total(a.buttons@, s.buttons@, role, n);
    lemma_presses_total(b.buttons@, t.buttons@, role, n);
    lemma_same_sum(tags(a.buttons@, s.buttons@, n), tags(b.buttons@, t.buttons@, n), weight);
}

} // verus!
