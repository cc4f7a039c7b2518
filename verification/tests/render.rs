use obs_gamepad::gamepad::Gamepad;
use obs_gamepad::layout::{
    Axis, Button, Color, ColorPair, FillDir, InputState, Inputs, RawAxis, Rect, Stick,
};
use obs_gamepad::render::{DrawOp, Outline};
use obs_gamepad::scalar::Scalar;
use obs_gamepad::xinput::XInput;

fn s(x: f32) -> Scalar {
    Scalar { bits: x.to_bits() }
}

/// A gamepad with a layout where it was put.
fn showing(inputs: Inputs) -> Gamepad<XInput> {
    let input_state = InputState::from(&inputs);
    Gamepad { backend: None, inputs, input_state, scale: s(1.0), render_labels: true }
}

fn gray(x: f32) -> Color {
    Color { red: s(x), green: s(x), blue: s(x), alpha: s(1.0) }
}

fn pair(active: f32, inactive: f32) -> ColorPair {
    ColorPair::new(gray(active), gray(inactive))
}

fn rect(l: f32, t: f32, r: f32, b: f32) -> Rect {
    Rect { left: s(l), top: s(t), right: s(r), bottom: s(b) }
}

fn button(label: Option<&str>, colors: Option<ColorPair>) -> Button {
    Button {
        id: 0,
        shape: rect(10.0, 20.0, 41.0, 50.0),
        fill: pair(0.1, 0.2),
        outline: Some((pair(0.3, 0.4), s(2.0))),
        label: label.map(str::to_owned),
        label_color: colors,
        skin: None,
    }
}

fn gauge(direction: FillDir, invert: bool) -> Axis {
    Axis {
        axis: RawAxis { id: 0, invert },
        shape: rect(10.0, 20.0, 50.0, 100.0),
        direction,
        fill: pair(0.5, 0.6),
        outline: None,
    }
}

fn stick(invert_x: bool, invert_y: bool) -> Stick {
    Stick {
        x: RawAxis { id: 0, invert: invert_x },
        y: RawAxis { id: 1, invert: invert_y },
        deadzone: s(0.2),
        shape: rect(0.0, 0.0, 10.0, 10.0),
        displacement: s(12.5),
        fill: pair(0.7, 0.8),
        outline: None,
        gate: None,
        skin: None,
    }
}

fn ops(g: &Gamepad<XInput>) -> Vec<DrawOp> {
    let ops = g.render();
    assert_eq!(ops[0], DrawOp::Clear);
    ops[1..].to_vec()
}

fn with_buttons(buttons: Vec<Button>, pressed: Vec<bool>) -> Gamepad<XInput> {
    let mut g = showing(Inputs { buttons, sticks: vec![], axes: vec![] });
    g.input_state.buttons = pressed;
    g
}

fn with_gauge(a: Axis, percent: f32) -> Gamepad<XInput> {
    let mut g = showing(Inputs { buttons: vec![], sticks: vec![], axes: vec![a] });
    g.input_state.axes = vec![s(percent)];
    g
}

fn with_stick(k: Stick, x: f32, y: f32) -> Gamepad<XInput> {
    let mut g = showing(Inputs { buttons: vec![], sticks: vec![k], axes: vec![] });
    g.input_state.sticks = vec![(s(x), s(y))];
    g
}

#[test]
fn an_empty_layout_only_clears() {
    let g: Gamepad<XInput> = Gamepad::default();
    assert_eq!(g.render(), vec![DrawOp::Clear]);
}

#[test]
fn a_button_shows_whether_it_is_pressed() {
    for (pressed, fill, line) in [(true, 0.1, 0.3), (false, 0.2, 0.4)] {
        let g = with_buttons(vec![button(None, None)], vec![pressed]);
        assert_eq!(
            ops(&g),
            vec![
                DrawOp::Fill { outline: Outline::Button(0), color: gray(fill), offset: None },
                DrawOp::Stroke {
                    outline: Outline::Button(0),
                    color: gray(line),
                    width: s(2.0),
                    offset: None
                },
            ]
        );
    }
}

#[test]
fn a_label_follows_its_button() {
    let mut g = with_buttons(vec![button(Some("x"), None)], vec![true]);
    g.scale = s(3.0);
    let label = |color| DrawOp::Label {
        button: 0,
        cx: s((10.0 + 41.0) / 2.0 * 3.0),
        cy: s((20.0 + 50.0) / 2.0 * 3.0),
        radius: s((41.0 - 10.0) / 2.0 * 3.0),
        color,
    };
    assert_eq!(ops(&g)[2], label(gray(1.0)));
    g.inputs.buttons[0].label_color = Some(pair(0.9, 0.0));
    assert_eq!(ops(&g)[2], label(gray(0.9)));
    g.input_state.buttons[0] = false;
    assert_eq!(ops(&g)[2], label(gray(0.0)));
    g.render_labels = false;
    assert_eq!(ops(&g).len(), 2);
}

#[test]
fn a_gauge_fills_from_its_side() {
    let part = |direction, invert, percent: f32| {
        let all = ops(&with_gauge(gauge(direction, invert), percent));
        assert_eq!(
            all[0],
            DrawOp::Fill { outline: Outline::Axis(0), color: gray(0.6), offset: None }
        );
        match all.get(1) {
            Some(DrawOp::FillPart { outline: Outline::Axis(0), rect, color }) => {
                assert_eq!(*color, gray(0.5));
                Some(*rect)
            }
            None => None,
            other => panic!("{other:?}"),
        }
    };
    let p = 0.3f32;
    assert_eq!(
        part(FillDir::TopToBottom, false, p),
        Some(rect(10.0, 20.0, 50.0, 100.0 - 80.0 * p))
    );
    assert_eq!(
        part(FillDir::LeftToRight, false, p),
        Some(rect(10.0, 20.0, 50.0 - 40.0 * p, 100.0))
    );
    assert_eq!(
        part(FillDir::BottomToTop, false, p),
        Some(rect(10.0, 20.0 + 80.0 * (1.0 - p), 50.0, 100.0))
    );
    assert_eq!(
        part(FillDir::RightToLeft, false, p),
        Some(rect(10.0 + 40.0 * (1.0 - p), 20.0, 50.0, 100.0))
    );
    let q = 1.0 - p;
    assert_eq!(
        part(FillDir::BottomToTop, true, p),
        Some(rect(10.0, 20.0 + 80.0 * (1.0 - q), 50.0, 100.0))
    );
    // A sliver is not drawn.
    assert_eq!(part(FillDir::BottomToTop, false, 0.0), None);
    assert_eq!(part(FillDir::BottomToTop, false, 0.0006), None);
    assert!(part(FillDir::BottomToTop, false, 0.001).is_some());
    assert_eq!(part(FillDir::TopToBottom, false, 1.0), None);
    assert_eq!(part(FillDir::TopToBottom, false, 1.5), None);
    assert_eq!(part(FillDir::TopToBottom, false, f32::NAN), None);
}

#[test]
fn a_gauge_has_its_line_on_top() {
    let mut a = gauge(FillDir::BottomToTop, false);
    a.outline = Some((gray(0.25), s(1.5)));
    let all = ops(&with_gauge(a, 1.0));
    assert_eq!(all.len(), 3);
    assert_eq!(
        all[2],
        DrawOp::Stroke {
            outline: Outline::Axis(0),
            color: gray(0.25),
            width: s(1.5),
            offset: None
        }
    );
}

fn offset(g: &Gamepad<XInput>) -> (f32, f32, Color) {
    match ops(g)[0] {
        DrawOp::Fill { outline: Outline::Stick(0), color, offset: Some((x, y)) } => {
            (f32::from_bits(x.bits), f32::from_bits(y.bits), color)
        }
        other => panic!("{other:?}"),
    }
}

#[test]
fn a_stick_moves_within_a_circle() {
    for (x, y) in [(0.0f32, 0.0f32), (1.0, 0.0), (0.6, -0.8), (-1.0, 1.0), (0.3, 0.9)] {
        let (dx, dy, _) = offset(&with_stick(stick(false, false), x, y));
        assert_eq!(dx, 12.5 * x * (1.0 - y * y / 2.0).sqrt());
        assert_eq!(dy, 12.5 * y * (1.0 - x * x / 2.0).sqrt());
    }
}

#[test]
fn the_horizontal_axis_flips_a_stick() {
    let (dx, dy, _) = offset(&with_stick(stick(true, false), 0.5, 0.25));
    let (x, y) = (-0.5f32, -0.25f32);
    assert_eq!(dx, 12.5 * x * (1.0 - y * y / 2.0).sqrt());
    assert_eq!(dy, 12.5 * y * (1.0 - x * x / 2.0).sqrt());
    let (dx, dy, _) = offset(&with_stick(stick(false, true), 0.5, 0.25));
    assert!(dx > 0.0 && dy > 0.0);
}

#[test]
fn a_stick_is_active_outside_its_dead_zone() {
    for (x, y, active) in [
        (0.0, 0.0, false),
        (0.19, -0.19, false),
        (0.2, 0.0, true),
        (0.0, -0.2, true),
        (-0.5, 0.1, true),
        (f32::NAN, 0.0, true),
    ] {
        let (_, _, color) = offset(&with_stick(stick(false, false), x, y));
        assert_eq!(color, gray(if active { 0.7 } else { 0.8 }), "{x} {y}");
    }
}

#[test]
fn a_stick_is_drawn_over_its_gate() {
    let mut k = stick(false, false);
    k.gate = Some((rect(0.0, 0.0, 9.0, 9.0), pair(0.15, 0.35), s(3.0)));
    k.outline = Some((pair(0.45, 0.65), s(4.0)));
    let all = ops(&with_stick(k, 1.0, 0.0));
    assert_eq!(all.len(), 3);
    assert_eq!(
        all[0],
        DrawOp::Stroke {
            outline: Outline::Gate(0),
            color: gray(0.15),
            width: s(3.0),
            offset: None
        }
    );
    let at = Some((s(12.5), s(0.0)));
    assert_eq!(
        all[1],
        DrawOp::Fill { outline: Outline::Stick(0), color: gray(0.7), offset: at }
    );
    assert_eq!(
        all[2],
        DrawOp::Stroke {
            outline: Outline::Stick(0),
            color: gray(0.45),
            width: s(4.0),
            offset: at
        }
    );
}

#[test]
fn items_are_drawn_in_order_and_only_with_a_reading() {
    let mut g: Gamepad<XInput> = showing(Inputs {
        buttons: vec![button(None, None), button(None, None), button(None, None)],
        sticks: vec![stick(false, false)],
        axes: vec![gauge(FillDir::BottomToTop, false)],
    });
    g.input_state.buttons.truncate(2);
    let outlines: Vec<Outline> = ops(&g)
        .iter()
        .filter_map(|op| match op {
            DrawOp::Fill { outline, .. } => Some(*outline),
            _ => None,
        })
        .collect();
    assert_eq!(
        outlines,
        vec![Outline::Button(0), Outline::Button(1), Outline::Axis(0), Outline::Stick(0)]
    );
}

#[test]
fn a_stick_stays_within_its_displacement() {
    for i in -20..=20 {
        for j in -20..=20 {
            let (dx, dy, _) =
                offset(&with_stick(stick(false, false), i as f32 / 20.0, j as f32 / 20.0));
            assert!(dx.abs() <= 12.5 && dy.abs() <= 12.5);
        }
    }
}

#[test]
fn the_fill_of_a_gauge_stays_inside() {
    let dirs = [
        FillDir::TopToBottom,
        FillDir::LeftToRight,
        FillDir::BottomToTop,
        FillDir::RightToLeft,
    ];
    for dir in dirs {
        for invert in [false, true] {
            for n in 0..=255 {
                let mut a = gauge(dir, invert);
                a.shape = rect(10.1, 20.7, 33.3, 47.9);
                for op in ops(&with_gauge(a, n as f32 / 255.0)) {
                    if let DrawOp::FillPart { rect: r, .. } = op {
                        let f = |x: Scalar| f32::from_bits(x.bits);
                        assert!(f(r.left) >= 10.1 && f(r.top) >= 20.7);
                        assert!(f(r.right) <= 33.3 && f(r.bottom) <= 47.9);
                    }
                }
            }
        }
    }
}
