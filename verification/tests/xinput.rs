use obs_gamepad::gamepad::{Backend, Gamepad};
use obs_gamepad::layout::{
    Axis, Button, Color, ColorPair, Config, FillDir, InputState, Inputs, RawAxis, Rect, Stick,
};
use obs_gamepad::scalar::Scalar;
use obs_gamepad::xinput::{
    axis, button, get_slots, XInput, XInputError, XInputGamepad, XInputSlot,
};

fn s(x: f32) -> Scalar {
    Scalar { bits: x.to_bits() }
}

fn config(inputs: Inputs) -> Config {
    Config { inputs, show_labels: true }
}

fn rest() -> XInputGamepad {
    XInputGamepad {
        buttons: 0,
        left_trigger: 0,
        right_trigger: 0,
        thumb_lx: 0,
        thumb_ly: 0,
        thumb_rx: 0,
        thumb_ry: 0,
    }
}

fn pair() -> ColorPair {
    let c = Color { red: s(0.0), green: s(0.0), blue: s(0.0), alpha: s(1.0) };
    ColorPair::new(c, c)
}

fn shape() -> Rect {
    Rect { left: s(0.0), top: s(0.0), right: s(10.0), bottom: s(10.0) }
}

fn layout(buttons: &[u8], sticks: &[(u8, u8)], axes: &[u8]) -> Inputs {
    let raw = |id| RawAxis { id, invert: false };
    Inputs {
        buttons: buttons
            .iter()
            .map(|&id| Button {
                id,
                shape: shape(),
                fill: pair(),
                outline: None,
                label: None,
                label_color: None,
                skin: None,
            })
            .collect(),
        sticks: sticks
            .iter()
            .map(|&(x, y)| Stick {
                x: raw(x),
                y: raw(y),
                deadzone: s(0.1),
                shape: shape(),
                displacement: s(5.0),
                fill: pair(),
                outline: None,
                gate: None,
                skin: None,
            })
            .collect(),
        axes: axes
            .iter()
            .map(|&id| Axis {
                axis: raw(id),
                shape: shape(),
                direction: FillDir::BottomToTop,
                fill: pair(),
                outline: None,
            })
            .collect(),
    }
}

fn same_state(a: &InputState, b: &InputState) {
    assert_eq!(a.buttons, b.buttons);
    assert_eq!(a.sticks, b.sticks);
    assert_eq!(a.axes, b.axes);
}

#[test]
fn stick_axes_are_shares_of_the_full_deflection() {
    for raw in i16::MIN..=i16::MAX {
        let g = XInputGamepad {
            thumb_lx: raw,
            thumb_ly: raw,
            thumb_rx: raw,
            thumb_ry: raw,
            ..rest()
        };
        let right = (raw as f32 / 32767.0).clamp(-1.0, 1.0);
        let down = (-(raw as f32) / 32767.0).clamp(-1.0, 1.0);
        assert_eq!(axis(&g, 0).bits, right.to_bits());
        assert_eq!(axis(&g, 1).bits, down.to_bits());
        assert_eq!(axis(&g, 2).bits, right.to_bits());
        assert_eq!(axis(&g, 3).bits, down.to_bits());
    }
}

#[test]
fn each_stick_axis_reads_its_own_field() {
    let g = XInputGamepad {
        thumb_lx: 32767,
        thumb_ly: 32767,
        thumb_rx: -32768,
        thumb_ry: -32768,
        ..rest()
    };
    assert_eq!(axis(&g, 0), s(1.0));
    assert_eq!(axis(&g, 1), s(-1.0));
    assert_eq!(axis(&g, 2), s(-1.0));
    assert_eq!(axis(&g, 3), s(1.0));
}

#[test]
fn triggers_are_shares_of_the_full_pull() {
    for raw in 0..=255u8 {
        let g = XInputGamepad { left_trigger: raw, right_trigger: 255 - raw, ..rest() };
        assert_eq!(axis(&g, 16).bits, (raw as f32 / 255.0).to_bits());
        assert_eq!(axis(&g, 17).bits, ((255 - raw) as f32 / 255.0).to_bits());
    }
}

#[test]
fn other_axes_are_zero() {
    let g = XInputGamepad { thumb_lx: 5, left_trigger: 7, ..rest() };
    for id in (4..=15u8).chain(18..=255) {
        assert_eq!(axis(&g, id), s(0.0));
    }
}

#[test]
fn buttons_are_bits_of_the_mask() {
    for bit in 0..16u8 {
        let g = XInputGamepad { buttons: 1 << bit, ..rest() };
        for id in 0..=255u8 {
            assert_eq!(button(&g, id), id == bit, "bit {bit}, id {id}");
        }
    }
    let all = XInputGamepad { buttons: 0xffff, ..rest() };
    assert!((0..16).all(|id| button(&all, id)));
}

#[test]
fn triggers_press_past_a_threshold() {
    for pull in [0u8, 39, 40, 41, 255] {
        let g = XInputGamepad { left_trigger: pull, ..rest() };
        assert_eq!(button(&g, 16), pull > 40);
        assert!(!button(&g, 17));
        let g = XInputGamepad { right_trigger: pull, ..rest() };
        assert_eq!(button(&g, 17), pull > 40);
        assert!(!button(&g, 16));
    }
}

#[test]
fn a_read_counts_only_if_it_succeeds() {
    let g = XInputGamepad { buttons: 3, ..rest() };
    assert_eq!(XInput::read(0, g), Some(g));
    assert_eq!(XInput::read(1167, g), None);
}

#[test]
fn only_slots_that_answer_are_listed() {
    assert_eq!(get_slots(None), Vec::<u32>::new());
    assert_eq!(get_slots(Some([0, 1167, 0, 1167])), vec![0, 2]);
    assert_eq!(get_slots(Some([0; 4])), vec![0, 1, 2, 3]);
    assert_eq!(get_slots(Some([1167; 4])), Vec::<u32>::new());
}

#[test]
fn without_a_library_there_is_no_controller() {
    let r = XInput::init(XInputSlot { slot: 1, available: false }, &layout(&[0], &[], &[]));
    assert_eq!(r.unwrap_err(), XInputError::NoLibrary);
    assert_eq!(XInputError::NoLibrary.message(), "no XInput DLL available");
}

#[test]
fn a_controller_is_mapped_to_its_layout() {
    let inputs = layout(&[12, 16], &[(0, 1), (2, 3)], &[17]);
    let x = XInput::init(XInputSlot { slot: 2, available: true }, &inputs).unwrap();
    assert_eq!(x.slot, 2);
    assert_eq!(x.button_ids, vec![12, 16]);
    assert_eq!(x.sticks, vec![(0, 1), (2, 3)]);
    assert_eq!(x.axis_ids, vec![17]);
    assert_eq!(x.reading, None);
}

#[test]
fn a_poll_shows_the_reading_and_tells_changes() {
    let mut gamepad: Gamepad<XInput> = Gamepad::default();
    let inputs = layout(&[12, 13], &[(0, 1)], &[16]);
    gamepad.load(config(inputs), XInputSlot { slot: 0, available: true }).unwrap();
    assert_eq!(gamepad.input_state.buttons, vec![false, false]);

    // Nothing read yet.
    assert!(!gamepad.poll());

    let g = XInputGamepad {
        buttons: 1 << 13,
        left_trigger: 255,
        thumb_lx: 32767,
        thumb_ly: 32767,
        ..rest()
    };
    gamepad.backend.as_mut().unwrap().observe(Some(g));
    assert!(gamepad.poll());
    assert_eq!(gamepad.input_state.buttons, vec![false, true]);
    assert_eq!(gamepad.input_state.sticks, vec![(s(1.0), s(-1.0))]);
    assert_eq!(gamepad.input_state.axes, vec![s(1.0)]);

    // The same reading brings no second change.
    let before = gamepad.input_state.clone();
    assert!(!gamepad.poll());
    same_state(&gamepad.input_state, &before);

    // One button more is a change.
    gamepad.backend.as_mut().unwrap().observe(Some(XInputGamepad { buttons: 3 << 12, ..g }));
    assert!(gamepad.poll());
    assert_eq!(gamepad.input_state.buttons, vec![true, true]);

    // So is a stick, and so is a gauge.
    gamepad.backend.as_mut().unwrap().observe(Some(XInputGamepad {
        buttons: 3 << 12,
        thumb_lx: 0,
        ..g
    }));
    assert!(gamepad.poll());
    gamepad.backend.as_mut().unwrap().observe(Some(XInputGamepad {
        buttons: 3 << 12,
        thumb_lx: 0,
        left_trigger: 254,
        ..g
    }));
    assert!(gamepad.poll());
    assert!(!gamepad.poll());

    // A controller that is gone keeps its last state.
    let before = gamepad.input_state.clone();
    gamepad.backend.as_mut().unwrap().observe(None);
    assert!(!gamepad.poll());
    same_state(&gamepad.input_state, &before);
}

#[test]
fn a_stick_at_rest_is_no_change() {
    let mut gamepad: Gamepad<XInput> = Gamepad::default();
    let c = config(layout(&[], &[(0, 1)], &[]));
    gamepad.load(c, XInputSlot { slot: 0, available: true }).unwrap();
    gamepad.backend.as_mut().unwrap().observe(Some(rest()));
    assert!(!gamepad.poll());
    assert_eq!(gamepad.input_state.sticks[0].1.bits, (-0.0f32).to_bits());
}

#[test]
fn a_failed_load_changes_the_layout_only() {
    let mut gamepad: Gamepad<XInput> = Gamepad::default();
    gamepad.scale = s(3.0);
    let c = config(layout(&[1, 2, 3], &[], &[]));
    let r = gamepad.load(c, XInputSlot { slot: 0, available: false });
    assert_eq!(r, Err(XInputError::NoLibrary));
    assert!(gamepad.backend.is_none());
    assert_eq!(gamepad.input_state.buttons, vec![false; 3]);
    assert_eq!(gamepad.scale, s(3.0));
    assert!(!gamepad.poll());
}

#[test]
fn a_reload_maps_the_controller_anew() {
    let mut gamepad: Gamepad<XInput> = Gamepad::default();
    gamepad.load(config(layout(&[0], &[], &[])), XInputSlot { slot: 3, available: true }).unwrap();
    gamepad.backend.as_mut().unwrap().observe(Some(XInputGamepad { buttons: 1 << 5, ..rest() }));
    assert!(!gamepad.poll());
    gamepad.reload(Config { inputs: layout(&[5, 6], &[(2, 3)], &[]), show_labels: false });
    assert!(!gamepad.render_labels);
    assert_eq!(gamepad.backend.as_ref().unwrap().slot, 3);
    assert_eq!(gamepad.input_state.buttons, vec![false, false]);
    assert!(gamepad.poll());
    assert_eq!(gamepad.input_state.buttons, vec![true, false]);
    assert_eq!(gamepad.input_state.sticks.len(), 1);
}

#[test]
fn a_new_gamepad_is_at_rest_and_labelled() {
    let gamepad: Gamepad<XInput> = Gamepad::new(config(layout(&[1, 2], &[(0, 1)], &[16])));
    assert!(gamepad.backend.is_none());
    assert!(gamepad.render_labels);
    assert_eq!(gamepad.scale, s(1.0));
    assert_eq!(gamepad.input_state.buttons, vec![false, false]);
    assert_eq!(gamepad.input_state.sticks, vec![(s(0.0), s(0.0))]);
    assert_eq!(gamepad.input_state.axes, vec![s(0.0)]);
    let empty: Gamepad<XInput> = Gamepad::default();
    assert!(empty.inputs.buttons.is_empty() && empty.inputs.sticks.is_empty());
    assert!(empty.inputs.axes.is_empty() && empty.render_labels);
}

fn mapped(reading: Option<XInputGamepad>) -> XInput {
    let inputs = layout(&[12], &[(0, 1)], &[16]);
    let mut x = XInput::init(XInputSlot { slot: 0, available: true }, &inputs).unwrap();
    x.observe(reading);
    x
}

#[test]
fn a_longer_state_keeps_its_later_items() {
    let g = XInputGamepad { buttons: 1 << 12, thumb_lx: 32767, left_trigger: 255, ..rest() };
    let mut x = mapped(Some(g));
    let mut state = InputState {
        buttons: vec![false, true, false],
        sticks: vec![(s(0.0), s(0.0)), (s(0.5), s(f32::NAN))],
        axes: vec![s(0.0), s(f32::NAN)],
    };
    assert!(x.poll(&mut state));
    assert_eq!(state.buttons, vec![true, true, false]);
    assert_eq!(state.sticks[0], (s(1.0), s(-0.0)));
    assert_eq!(state.sticks[1], (s(0.5), s(f32::NAN)));
    assert_eq!(state.axes, vec![s(1.0), s(f32::NAN)]);
    // Later items never count as a change, whatever they hold.
    let before = state.clone();
    assert!(!x.poll(&mut state));
    same_state(&state, &before);
}

#[test]
fn without_a_reading_any_state_stays() {
    let mut x = mapped(None);
    let mut empty = InputState::default();
    assert!(!x.poll(&mut empty));
    same_state(&empty, &InputState::default());
    let mut state =
        InputState { buttons: vec![true; 4], sticks: vec![], axes: vec![s(f32::NAN)] };
    let before = state.clone();
    assert!(!x.poll(&mut state));
    same_state(&state, &before);
}
