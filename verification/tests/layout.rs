use obs_gamepad::gamepad::Gamepad;
use obs_gamepad::layout::{
    combine, expand, Axis, Button, Color, ColorPair, FillDir, InputState, Inputs, RawAxis, Rect,
    Stick,
};
use obs_gamepad::scalar::Scalar;
use obs_gamepad::xinput::XInput;

fn s(x: f32) -> Scalar {
    Scalar { bits: x.to_bits() }
}

/// A gamepad with a layout where it was put.
fn showing(inputs: Inputs) -> Gamepad<XInput> {
    let input_state = InputState::from(&inputs);
    Gamepad { backend: None, inputs, input_state, scale: s(1.0), render_labels: true }
}

fn f(x: Scalar) -> f32 {
    f32::from_bits(x.bits)
}

fn rect(l: f32, t: f32, r: f32, b: f32) -> Rect {
    Rect { left: s(l), top: s(t), right: s(r), bottom: s(b) }
}

fn pair() -> ColorPair {
    let c = Color { red: s(0.0), green: s(0.0), blue: s(0.0), alpha: s(1.0) };
    ColorPair::new(c, c)
}

fn button_at(shape: Rect, width: Option<f32>) -> Button {
    Button {
        id: 0,
        shape,
        fill: pair(),
        outline: width.map(|w| (pair(), s(w))),
        label: None,
        label_color: None,
        skin: None,
    }
}

fn axis_at(shape: Rect, width: Option<f32>) -> Axis {
    let black = Color { red: s(0.0), green: s(0.0), blue: s(0.0), alpha: s(1.0) };
    Axis {
        axis: RawAxis { id: 0, invert: false },
        shape,
        direction: FillDir::TopToBottom,
        fill: pair(),
        outline: width.map(|w| (black, s(w))),
    }
}

fn stick_at(shape: Rect, reach: f32, width: Option<f32>, gate: Option<(Rect, f32)>) -> Stick {
    Stick {
        x: RawAxis { id: 0, invert: false },
        y: RawAxis { id: 1, invert: false },
        deadzone: s(0.1),
        shape,
        displacement: s(reach),
        fill: pair(),
        outline: width.map(|w| (pair(), s(w))),
        gate: gate.map(|(r, w)| (r, pair(), s(w))),
        skin: None,
    }
}

fn inputs(buttons: Vec<Button>, sticks: Vec<Stick>, axes: Vec<Axis>) -> Inputs {
    Inputs { buttons, sticks, axes }
}

#[test]
fn rectangles_are_those_of_tiny_skia() {
    let max = f32::MAX;
    let near = f32::from_bits(max.to_bits() - 1);
    let values = [
        0.0, -0.0, 1.0, -1.0, 100.0, 0.1, 2.5e-40, -2.5e-40, 1.0e20, 2.0f32.powi(74),
        f32::from_bits(2.0f32.powi(74).to_bits() + 1), 2.0f32.powi(104), 2.0f32.powi(103),
        -2.0f32.powi(103), 2.0f32.powi(126), 2.0f32.powi(127), -2.0f32.powi(127),
        f32::from_bits(2.0f32.powi(127).to_bits() - 1),
        -f32::from_bits(2.0f32.powi(127).to_bits() - 1),
        f32::from_bits(2.0f32.powi(127).to_bits() + 1), -1.0e38, 1.0e38, max, -max, near, -near,
        f32::INFINITY, f32::NEG_INFINITY, f32::NAN, 2.0f32.powi(80), 2.0f32.powi(102),
    ];
    for &a in &values {
        for &b in &values {
            let want = tiny_skia::Rect::from_ltrb(a, 0.0, b, 1.0).is_some();
            assert_eq!(Rect::from_ltrb(s(a), s(0.0), s(b), s(1.0)).is_some(), want, "{a:e} {b:e}");
            let want = tiny_skia::Rect::from_ltrb(0.0, a, 1.0, b).is_some();
            assert_eq!(Rect::from_ltrb(s(0.0), s(a), s(1.0), s(b)).is_some(), want, "{a:e} {b:e}");
        }
    }
}

#[test]
fn wide_rectangles_are_those_of_tiny_skia() {
    let mut x: u32 = 0x9e37_79b9;
    for _ in 0..200_000 {
        x ^= x << 13;
        x ^= x >> 17;
        x ^= x << 5;
        // Two edges whose distance is close to the largest number.
        let a = -f32::from_bits(0x7f00_0000 - 0x100 + (x & 0x1ff));
        let b = f32::from_bits(0x7eff_ff00 + (x >> 9 & 0x1ff));
        let want = tiny_skia::Rect::from_ltrb(a, 0.0, b, 0.0).is_some();
        assert_eq!(Rect::from_ltrb(s(a), s(0.0), s(b), s(0.0)).is_some(), want, "{a:e} {b:e}");
        let c = f32::from_bits(0x7f7f_ffff - (x & 0xff));
        let d = -f32::from_bits(0x7380_0000 + (x >> 8) % 0x400_0000);
        let want = tiny_skia::Rect::from_ltrb(d, 0.0, c, 0.0).is_some();
        assert_eq!(Rect::from_ltrb(s(d), s(0.0), s(c), s(0.0)).is_some(), want, "{d:e} {c:e}");
    }
}

#[test]
fn width_and_height_are_differences() {
    let r = rect(1.5, -2.0, 4.0, 7.25);
    assert_eq!(r.width(), s(2.5));
    assert_eq!(r.height(), s(9.25));
}

#[test]
fn combining_covers_both() {
    let r = combine(rect(0.0, 5.0, 10.0, 20.0), rect(-3.0, 6.0, 4.0, 30.0)).unwrap();
    assert_eq!(r, rect(-3.0, 5.0, 10.0, 30.0));
    let r = combine(rect(1.0, 1.0, 2.0, 2.0), rect(0.0, 0.0, 3.0, 3.0)).unwrap();
    assert_eq!(r, rect(0.0, 0.0, 3.0, 3.0));
    let far = 3.0e38;
    assert_eq!(combine(rect(-far, 0.0, 0.0, 1.0), rect(0.0, 0.0, far, 1.0)), None);
}

#[test]
fn expanding_moves_every_edge_outwards() {
    assert_eq!(expand(rect(10.0, 20.0, 30.0, 40.0), s(2.5)), Some(rect(7.5, 17.5, 32.5, 42.5)));
    assert_eq!(expand(rect(0.0, 0.0, 4.0, 4.0), s(-2.0)), Some(rect(2.0, 2.0, 2.0, 2.0)));
    assert_eq!(expand(rect(0.0, 0.0, 4.0, 4.0), s(-3.0)), None);
    assert_eq!(expand(rect(0.0, 0.0, 4.0, 4.0), s(f32::NAN)), None);
}

#[test]
fn a_button_covers_its_shape_and_line() {
    let r = rect(10.0, 10.0, 20.0, 20.0);
    assert_eq!(button_at(r, None).bounds(), Some(r));
    assert_eq!(button_at(r, Some(3.0)).bounds(), Some(rect(7.0, 7.0, 23.0, 23.0)));
    assert_eq!(button_at(r, Some(-6.0)).bounds(), None);
}

#[test]
fn a_gauge_covers_its_shape_and_line() {
    let r = rect(10.0, 10.0, 20.0, 20.0);
    assert_eq!(axis_at(r, None).bounds(), Some(r));
    assert_eq!(axis_at(r, Some(1.0)).bounds(), Some(rect(9.0, 9.0, 21.0, 21.0)));
}

#[test]
fn a_stick_covers_what_it_can_reach() {
    let r = rect(40.0, 40.0, 60.0, 60.0);
    assert_eq!(stick_at(r, 5.0, None, None).bounds(), Some(rect(35.0, 35.0, 65.0, 65.0)));
    assert_eq!(stick_at(r, 5.0, Some(2.0), None).bounds(), Some(rect(33.0, 33.0, 67.0, 67.0)));
    let gate = rect(20.0, 30.0, 80.0, 50.0);
    assert_eq!(
        stick_at(r, 5.0, Some(2.0), Some((gate, 1.0))).bounds(),
        Some(rect(19.0, 29.0, 81.0, 67.0))
    );
    assert_eq!(stick_at(r, -15.0, None, None).bounds(), None);
    assert_eq!(stick_at(r, 5.0, Some(-16.0), None).bounds(), None);
    assert_eq!(stick_at(r, 5.0, None, Some((gate, -11.0))).bounds(), None);
}

#[test]
fn a_layout_covers_all_its_items() {
    let l = inputs(
        vec![button_at(rect(10.0, 0.0, 20.0, 10.0), None)],
        vec![stick_at(rect(30.0, 30.0, 40.0, 40.0), 5.0, None, None)],
        vec![axis_at(rect(-5.0, 2.0, 0.0, 80.0), Some(1.0))],
    );
    let b = l.bounds().unwrap();
    assert_eq!(b, rect(-6.0, 0.0, 45.0, 81.0));
    assert_eq!(inputs(vec![], vec![], vec![]).bounds(), Some(rect(0.0, 0.0, 100.0, 100.0)));
    let l = inputs(
        vec![
            button_at(rect(0.0, 0.0, 1.0, 1.0), None),
            button_at(rect(0.0, 0.0, 1.0, 1.0), Some(-5.0)),
        ],
        vec![],
        vec![],
    );
    assert_eq!(l.bounds(), None);
}

#[test]
fn minimizing_moves_the_corner_to_the_origin() {
    let mut l = inputs(
        vec![button_at(rect(10.0, 25.0, 20.0, 35.0), Some(2.0))],
        vec![stick_at(
            rect(50.0, 50.0, 60.0, 60.0),
            4.0,
            None,
            Some((rect(45.0, 45.0, 65.0, 65.0), 1.0)),
        )],
        vec![axis_at(rect(12.0, 30.0, 14.0, 90.0), None)],
    );
    assert_eq!(l.minimize(), Some((s(-8.0), s(-23.0))));
    assert_eq!(l.buttons[0].shape, rect(2.0, 2.0, 12.0, 12.0));
    assert_eq!(l.sticks[0].shape, rect(42.0, 27.0, 52.0, 37.0));
    assert_eq!(l.sticks[0].gate.unwrap().0, rect(37.0, 22.0, 57.0, 42.0));
    assert_eq!(l.axes[0].shape, rect(4.0, 7.0, 6.0, 67.0));
    assert_eq!(l.bounds().unwrap(), rect(0.0, 0.0, 58.0, 67.0));
}

#[test]
fn minimizing_agrees_with_moved_paths() {
    let mut x: u32 = 77;
    let mut next = || {
        x ^= x << 13;
        x ^= x >> 17;
        x ^= x << 5;
        (x % 20_000) as f32 / 7.0 - 1000.0
    };
    for _ in 0..500 {
        let mut path = tiny_skia::PathBuilder::new();
        path.move_to(next(), next());
        path.line_to(next(), next());
        path.line_to(next(), next());
        path.close();
        let path = path.finish().unwrap();
        let b = path.bounds();
        let (dx, dy) = (next(), next());
        let moved = path.transform(tiny_skia::Transform::from_translate(dx, dy)).unwrap().bounds();
        let got = rect(b.left(), b.top(), b.right(), b.bottom()).translate(s(dx), s(dy)).unwrap();
        assert_eq!(got, rect(moved.left(), moved.top(), moved.right(), moved.bottom()));
    }
}

#[test]
fn a_layout_without_bounds_stays_where_it_is() {
    let mut l = inputs(vec![button_at(rect(5.0, 5.0, 6.0, 6.0), Some(-1.0))], vec![], vec![]);
    assert_eq!(l.minimize(), None);
    assert_eq!(l.buttons[0].shape, rect(5.0, 5.0, 6.0, 6.0));
}

#[test]
fn an_empty_layout_has_nothing_to_move() {
    let mut l = inputs(vec![], vec![], vec![]);
    let (dx, dy) = l.minimize().unwrap();
    assert_eq!((f(dx), f(dy)), (0.0, 0.0));
    assert_eq!(rect(-0.0, -0.0, 1.0, 1.0).translate(dx, dy), Some(rect(-0.0, -0.0, 1.0, 1.0)));
}

#[test]
fn a_state_at_rest_fits_its_layout() {
    let l = inputs(
        vec![button_at(rect(0.0, 0.0, 1.0, 1.0), None); 3],
        vec![stick_at(rect(0.0, 0.0, 1.0, 1.0), 0.0, None, None); 2],
        vec![axis_at(rect(0.0, 0.0, 1.0, 1.0), None)],
    );
    let state = InputState::from(&l);
    assert_eq!(state.buttons, vec![false; 3]);
    assert_eq!(state.sticks, vec![(s(0.0), s(0.0)); 2]);
    assert_eq!(state.axes, vec![s(0.0)]);
}

#[test]
fn the_image_covers_the_layout_at_its_scale() {
    let l = inputs(vec![button_at(rect(0.0, 0.0, 30.25, 10.0), None)], vec![], vec![]);
    let mut g: Gamepad<XInput> = showing(l);
    assert_eq!(g.image_size(), Some((31, 10)));
    g.scale = s(3.0);
    assert_eq!(g.image_size(), Some((91, 30)));
    g.scale = s(0.001);
    assert_eq!(g.image_size(), Some((1, 1)));
    g.scale = s(f32::NAN);
    assert_eq!(g.image_size(), Some((1, 1)));
    g.scale = s(f32::INFINITY);
    assert_eq!(g.image_size(), Some((u32::MAX, u32::MAX)));
    let g: Gamepad<XInput> = Gamepad::default();
    assert_eq!(g.image_size(), Some((100, 100)));
    let l = inputs(vec![button_at(rect(0.0, 0.0, 1.0, 1.0), Some(-1.0))], vec![], vec![]);
    let g: Gamepad<XInput> = showing(l);
    assert_eq!(g.image_size(), None);
}

#[test]
fn a_color_pair_has_a_color_for_either_state() {
    let on = Color { red: s(1.0), green: s(0.0), blue: s(0.0), alpha: s(1.0) };
    let off = Color { red: s(0.0), green: s(0.0), blue: s(1.0), alpha: s(0.5) };
    let p = ColorPair::new(on, off);
    assert_eq!(p.active, on);
    assert_eq!(p.get(true), on);
    assert_eq!(p.get(false), off);
}

#[test]
fn defaults_are_empty() {
    let l = Inputs::default();
    assert!(l.buttons.is_empty() && l.sticks.is_empty() && l.axes.is_empty());
    let state = InputState::default();
    assert!(state.buttons.is_empty() && state.sticks.is_empty() && state.axes.is_empty());
    assert_eq!(RawAxis::default(), RawAxis { id: 0, invert: false });
}

#[test]
fn minimized_items_are_inside_the_image() {
    let mut x: u32 = 4242;
    let mut next = || {
        x ^= x << 13;
        x ^= x >> 17;
        x ^= x << 5;
        (x % 30_011) as f32 / 13.0
    };
    for _ in 0..300 {
        let mut place = || {
            let (l, t) = (next() - 1000.0, next() - 1000.0);
            rect(l, t, l + next(), t + next())
        };
        let (a, b, c, d) = (place(), place(), place(), place());
        let mut l = inputs(
            vec![button_at(a, Some(0.3))],
            vec![stick_at(b, 5.1, Some(0.7), Some((c, 1.9)))],
            vec![axis_at(d, Some(2.2))],
        );
        l.minimize().unwrap();
        let shapes = [
            l.buttons[0].shape,
            l.sticks[0].shape,
            l.sticks[0].gate.unwrap().0,
            l.axes[0].shape,
        ];
        for r in shapes {
            assert!(f(r.left) >= 0.0 && f(r.top) >= 0.0);
        }
        let g: Gamepad<XInput> = showing(l);
        let (w, h) = g.image_size().unwrap();
        for r in shapes {
            assert!(f(r.right) <= w as f32 && f(r.bottom) <= h as f32);
        }
    }
}

#[test]
fn whole_layouts_come_exactly_to_the_origin() {
    let mut x: u32 = 99;
    let mut next = |n: u32| {
        x ^= x << 13;
        x ^= x >> 17;
        x ^= x << 5;
        (x % n) as f32
    };
    for _ in 0..300 {
        let mut place = || {
            let (l, t) = (next(900_000) - 450_000.0, next(900_000) - 450_000.0);
            rect(l, t, l + next(500_000), t + next(500_000))
        };
        let (a, b, c, d) = (place(), place(), place(), place());
        let mut l = inputs(
            vec![button_at(a, Some(3.0))],
            vec![stick_at(b, 11.0, Some(2.0), Some((c, 5.0)))],
            vec![axis_at(d, Some(1.0))],
        );
        let old = l.bounds().unwrap();
        l.minimize().unwrap();
        let new = l.bounds().unwrap();
        assert_eq!((f(new.left), f(new.top)), (0.0, 0.0));
        assert_eq!(f(new.right), f(old.right) - f(old.left));
        assert_eq!(f(new.bottom), f(old.bottom) - f(old.top));
        let shapes = (l.buttons[0].shape, l.sticks[0].shape, l.axes[0].shape);
        l.minimize().unwrap();
        assert_eq!((l.buttons[0].shape, l.sticks[0].shape, l.axes[0].shape), shapes);
    }
}

#[test]
fn any_layout_comes_to_the_origin_but_for_rounding() {
    let mut x: u32 = 31;
    let mut next = || {
        x ^= x << 13;
        x ^= x >> 17;
        x ^= x << 5;
        (x % 100_003) as f32 / 17.0
    };
    for _ in 0..300 {
        let mut place = || {
            let (l, t) = (next() - 3000.0, next() - 3000.0);
            rect(l, t, l + next(), t + next())
        };
        let (a, b, c, d) = (place(), place(), place(), place());
        let mut l = inputs(
            vec![button_at(a, Some(0.3))],
            vec![stick_at(b, 7.1, Some(0.9), Some((c, 1.7)))],
            vec![axis_at(d, Some(2.3))],
        );
        let old = l.bounds().unwrap();
        l.minimize().unwrap();
        let new = l.bounds().unwrap();
        let far = [old.left, old.top, old.right, old.bottom, new.right, new.bottom]
            .iter()
            .map(|v| (f(*v) as f64).abs())
            .fold(0.0, f64::max);
        let most = 5.0 * far / 16_777_216.0;
        let off = |v: Scalar, w: f64| (f(v) as f64 - w).abs() <= most;
        assert!(off(new.left, 0.0) && off(new.top, 0.0));
        assert!(off(new.right, f(old.right) as f64 - f(old.left) as f64));
        assert!(off(new.bottom, f(old.bottom) as f64 - f(old.top) as f64));
    }
}
