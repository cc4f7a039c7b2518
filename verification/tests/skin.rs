use obs_gamepad::gamepad::Gamepad;
use obs_gamepad::layout::{Button, Color, ColorPair, InputState, Inputs, RawAxis, Rect, Stick};
use obs_gamepad::scalar::Scalar;
use obs_gamepad::skin::{skin_button_bit, skin_event, skin_state};
use obs_gamepad::xinput::XInput;

fn s(x: f32) -> Scalar {
    Scalar { bits: x.to_bits() }
}

/// A gamepad with a layout where it was put.
fn showing(inputs: Inputs) -> Gamepad<XInput> {
    let input_state = InputState::from(&inputs);
    Gamepad { backend: None, inputs, input_state, scale: s(1.0), render_labels: true }
}

fn pair() -> ColorPair {
    let c = Color { red: s(0.0), green: s(0.0), blue: s(0.0), alpha: s(1.0) };
    ColorPair::new(c, c)
}

fn shape() -> Rect {
    Rect { left: s(0.0), top: s(0.0), right: s(1.0), bottom: s(1.0) }
}

fn button(id: u8, skin: Option<&str>) -> Button {
    Button {
        id,
        shape: shape(),
        fill: pair(),
        outline: None,
        label: None,
        label_color: None,
        skin: skin.map(str::to_owned),
    }
}

fn stick(skin: Option<&str>) -> Stick {
    Stick {
        x: RawAxis { id: 0, invert: false },
        y: RawAxis { id: 1, invert: false },
        deadzone: s(0.1),
        shape: shape(),
        displacement: s(1.0),
        fill: pair(),
        outline: None,
        gate: None,
        skin: skin.map(str::to_owned),
    }
}

fn gamepad(
    buttons: Vec<(Button, bool)>,
    sticks: Vec<(Stick, (f32, f32))>,
) -> Gamepad<XInput> {
    let pressed = buttons.iter().map(|b| b.1).collect();
    let at = sticks.iter().map(|(_, (x, y))| (s(*x), s(*y))).collect();
    let mut g: Gamepad<XInput> = showing(Inputs {
        buttons: buttons.into_iter().map(|b| b.0).collect(),
        sticks: sticks.into_iter().map(|b| b.0).collect(),
        axes: vec![],
    });
    g.input_state.buttons = pressed;
    g.input_state.sticks = at;
    g
}

#[test]
fn every_skin_button_has_its_bit() {
    let names = ["a", "b", "x", "y", "lb", "rb", "lt", "rt", "l3", "r3", "start"];
    for (bit, name) in names.iter().enumerate() {
        assert_eq!(skin_button_bit(name), Some(bit as u8));
    }
    for name in ["", "A", "lup", "left", "back", "a ", "starts", "z"] {
        assert_eq!(skin_button_bit(name), None);
    }
}

#[test]
fn at_rest_the_event_is_all_zero() {
    assert_eq!(skin_event(&gamepad(vec![], vec![])), "0;0.000,0.000,0.000,0.000;0");
    let g = gamepad(vec![(button(3, Some("a")), false)], vec![]);
    assert_eq!(skin_event(&g), "0;0.000,0.000,0.000,0.000;0");
}

#[test]
fn pressed_buttons_light_their_elements() {
    let g = gamepad(
        vec![
            (button(3, Some("a")), true),
            (button(10, Some("  lb\trb ")), true),
            (button(11, Some("start")), false),
            (button(63, None), true),
            (button(5, Some("nothing x")), true),
        ],
        vec![],
    );
    let want: u64 = 1 << 3 | 1 << 10 | 1 << 63 | 1 << 5;
    assert_eq!(skin_event(&g), format!("{};0.000,0.000,0.000,0.000;{want}", 1 | 16 | 32 | 4));
    let state = skin_state(&g);
    assert_eq!(state.mask, 53);
    assert_eq!(state.raw, want);
}

#[test]
fn digital_directions_deflect_their_stick() {
    let one = |role| skin_event(&gamepad(vec![(button(0, Some(role)), true)], vec![]));
    assert_eq!(one("lup"), "0;0.000,-1.000,0.000,0.000;1");
    assert_eq!(one("ldown"), "0;0.000,1.000,0.000,0.000;1");
    assert_eq!(one("lleft"), "0;-1.000,0.000,0.000,0.000;1");
    assert_eq!(one("lright"), "0;1.000,0.000,0.000,0.000;1");
    assert_eq!(one("rup"), "0;0.000,0.000,0.000,-1.000;1");
    assert_eq!(one("rdown"), "0;0.000,0.000,0.000,1.000;1");
    assert_eq!(one("rleft"), "0;0.000,0.000,-1.000,0.000;1");
    assert_eq!(one("rright"), "0;0.000,0.000,1.000,0.000;1");
}

#[test]
fn opposite_directions_cancel_and_more_win() {
    let g = gamepad(
        vec![
            (button(0, Some("lleft")), true),
            (button(1, Some("lright")), true),
            (button(2, Some("rup rup")), true),
            (button(3, Some("rdown")), true),
        ],
        vec![],
    );
    assert_eq!(skin_event(&g), "0;0.000,0.000,0.000,-1.000;15");
}

#[test]
fn analog_sticks_override_digital_directions() {
    let g = gamepad(
        vec![(button(0, Some("lup rright")), true)],
        vec![
            (stick(Some("left")), (0.25, 0.5)),
            (stick(None), (0.9, 0.9)),
            (stick(Some("middle")), (0.8, 0.8)),
        ],
    );
    assert_eq!(skin_event(&g), "0;0.250,0.500,1.000,0.000;1");
    let g = gamepad(
        vec![(button(0, Some("lup rright")), true)],
        vec![
            (stick(Some("right")), (0.1, -0.2)),
            (stick(Some("left")), (0.25, 0.5)),
            (stick(Some("right")), (-0.5, 0.125)),
        ],
    );
    assert_eq!(skin_event(&g), "0;0.250,0.500,-0.500,0.125;1");
}

#[test]
fn deflections_are_limited_and_rounded() {
    let g = gamepad(vec![], vec![
        (stick(Some("left")), (-3.0, 7.5)),
        (stick(Some("right")), (0.0005, -0.0)),
    ]);
    assert_eq!(skin_event(&g), format!("0;-1.000,1.000,{:.3},-0.000;0", 0.0005f32));
    let g = gamepad(vec![], vec![(stick(Some("left")), (f32::NAN, f32::INFINITY))]);
    assert_eq!(skin_event(&g), "0;NaN,1.000,0.000,0.000;0");
}

#[test]
fn items_without_a_reading_are_left_out() {
    let mut g = gamepad(
        vec![(button(0, Some("a")), true), (button(1, Some("b")), true)],
        vec![(stick(Some("left")), (0.5, 0.5))],
    );
    g.input_state.buttons.truncate(1);
    g.input_state.sticks.clear();
    assert_eq!(skin_event(&g), "1;0.000,0.000,0.000,0.000;1");
}

#[test]
fn an_event_splits_into_its_fields() {
    let g = gamepad(
        vec![(button(40, Some("y r3")), true)],
        vec![(stick(Some("right")), (0.75, -0.125))],
    );
    let event = skin_event(&g);
    let fields: Vec<&str> = event.split(';').collect();
    assert_eq!(fields.len(), 3);
    assert_eq!(fields[0].parse::<u16>(), Ok(8 | 512));
    assert_eq!(fields[1].split(',').collect::<Vec<_>>(), ["0.000", "0.000", "0.750", "-0.125"]);
    assert_eq!(fields[2].parse::<u64>(), Ok(1 << 40));
    assert!(!event.contains('\n'));
}

#[test]
fn the_order_of_buttons_and_roles_does_not_matter() {
    let items = vec![
        (button(3, Some("a lup")), true),
        (button(5, Some("lb rb lleft")), true),
        (button(9, Some("lright lright")), true),
        (button(40, Some("start rdown")), false),
        (button(63, None), true),
    ];
    let turned = vec![
        (button(63, None), true),
        (button(9, Some("lright lright")), true),
        (button(40, Some("rdown start")), false),
        (button(5, Some("lleft rb lb")), true),
        (button(3, Some("lup a")), true),
    ];
    let sticks = || vec![(stick(Some("right")), (0.25, -0.5))];
    let event = skin_event(&gamepad(items, sticks()));
    assert_eq!(skin_event(&gamepad(turned, sticks())), event);
    let raw: u64 = 1 << 3 | 1 << 5 | 1 << 9 | 1 << 63;
    assert_eq!(event, format!("{};1.000,-1.000,0.250,-0.500;{raw}", 1 | 16 | 32));
}
