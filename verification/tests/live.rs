use obs_gamepad::canvas::{new_pixmap, pixel_at, put_pixel, size};
use obs_gamepad::gamepad::Gamepad;
use obs_gamepad::layout::{Button, Color, ColorPair, Config, Inputs, Rect};
use obs_gamepad::live::{draws_labels, reload, Reload};
use obs_gamepad::page::build_labels_page;
use obs_gamepad::scalar::Scalar;
use obs_gamepad::skin::skin_event;
use obs_gamepad::web::Site;
use obs_gamepad::xinput::{XInput, XInputGamepad, XInputSlot};

fn s(x: f32) -> Scalar {
    Scalar { bits: x.to_bits() }
}

fn rect(left: f32, top: f32, right: f32, bottom: f32) -> Rect {
    Rect { left: s(left), top: s(top), right: s(right), bottom: s(bottom) }
}

fn button(id: u8, shape: Rect, label: &str) -> Button {
    let black = Color { red: s(0.0), green: s(0.0), blue: s(0.0), alpha: s(1.0) };
    Button {
        id,
        shape,
        fill: ColorPair::new(black, black),
        outline: None,
        label: Some(label.to_owned()),
        label_color: None,
        skin: Some("a".to_owned()),
    }
}

fn config(buttons: Vec<Button>, show_labels: bool) -> Config {
    Config { inputs: Inputs { buttons, sticks: vec![], axes: vec![] }, show_labels }
}

/// A gamepad with one button and its controller.
fn loaded() -> Gamepad<XInput> {
    let mut g = Gamepad::default();
    let c = config(vec![button(12, rect(5.0, 7.0, 25.0, 17.0), "A")], true);
    g.load(c, XInputSlot { slot: 2, available: true }).unwrap();
    g
}

#[test]
fn a_layout_comes_to_the_origin_when_it_is_loaded() {
    let g = loaded();
    assert_eq!(g.inputs.buttons[0].shape, rect(0.0, 0.0, 20.0, 10.0));
    assert_eq!(g.image_size(), Some((20, 10)));
    let c = config(vec![button(1, rect(-4.0, 3.0, 1.0, 4.0), "B")], true);
    assert_eq!(c.offset(), Some((s(4.0), s(-3.0))));
    let g: Gamepad<XInput> = Gamepad::new(c.clone());
    assert_eq!(g.inputs.buttons[0].shape, rect(0.0, 0.0, 5.0, 1.0));
    let mut g = loaded();
    g.reload(c.clone());
    assert_eq!(g.inputs.buttons[0].shape, rect(0.0, 0.0, 5.0, 1.0));
    let l = c.arrange().unwrap();
    assert_eq!(l.buttons[0].shape, rect(0.0, 0.0, 5.0, 1.0));
    assert_eq!(l.buttons[0].id, 1);
}

#[test]
fn a_layout_without_bounds_cannot_be_arranged() {
    let mut b = button(0, rect(0.0, 0.0, 1.0, 1.0), "x");
    b.outline = Some((b.fill, s(-1.0)));
    let c = config(vec![b], true);
    assert_eq!(c.offset(), None);
    assert!(c.arrange().is_none());
}

#[test]
fn an_accepted_layout_replaces_the_one_before() {
    let mut g = loaded();
    let mut img = new_pixmap(&g).unwrap();
    put_pixel(&mut img, 3, 5, 5, 5, 5);
    // The same size: the image stays.
    let same = config(vec![button(13, rect(100.0, 0.0, 120.0, 10.0), "B")], false);
    assert_eq!(reload(&mut g, &mut img, Some(same), false), Reload::Kept);
    assert_eq!(pixel_at(&img, 3, 0).unwrap().1, (5, 5, 5, 5));
    assert_eq!(g.inputs.buttons[0].id, 13);
    assert_eq!(g.inputs.buttons[0].shape, rect(0.0, 0.0, 20.0, 10.0));
    assert!(!g.render_labels);
    assert_eq!(g.backend.as_ref().unwrap().slot, 2);
    assert_eq!(g.backend.as_ref().unwrap().button_ids, vec![13]);
    // Another size: a new image.
    let larger = config(vec![button(14, rect(1.0, 1.0, 31.0, 5.0), "C")], true);
    assert_eq!(reload(&mut g, &mut img, Some(larger), false), Reload::Resized);
    assert_eq!(size(&img), (30, 4));
    assert_eq!(pixel_at(&img, 3, 0).unwrap().1, (0, 0, 0, 0));
    assert!(g.render_labels);
    assert_eq!(g.image_size(), Some((30, 4)));
}

#[test]
fn a_refused_layout_changes_nothing() {
    let mut g = loaded();
    g.scale = s(2.0);
    let mut img = new_pixmap(&g).unwrap();
    put_pixel(&mut img, 3, 5, 5, 5, 5);
    let before = img.data().to_vec();
    let mut b = button(0, rect(0.0, 0.0, 1.0, 1.0), "x");
    b.outline = Some((b.fill, s(-1.0)));
    let no_rect = config(vec![b], false);
    let too_large = config(vec![button(1, rect(0.0, 0.0, 1.0e9, 1.0), "x")], false);
    for (c, r) in [
        (None, Reload::Refused),
        (Some(no_rect), Reload::Unfit),
        (Some(too_large), Reload::Unfit),
    ] {
        assert_eq!(reload(&mut g, &mut img, c, false), r);
        assert_eq!(g.inputs.buttons[0].id, 12);
        assert_eq!(g.image_size(), Some((40, 20)));
        assert!(g.render_labels);
        assert_eq!(size(&img), (40, 20));
        assert_eq!(img.data(), before);
    }
}

#[test]
fn web_mode_leaves_labels_to_their_page() {
    assert!(draws_labels(false, true));
    assert!(!draws_labels(false, false));
    assert!(!draws_labels(true, true));
    assert!(!draws_labels(true, false));
    let mut g = loaded();
    let mut img = new_pixmap(&g).unwrap();
    let c = config(vec![button(1, rect(0.0, 0.0, 2.0, 2.0), "L")], true);
    assert_eq!(reload(&mut g, &mut img, Some(c), true), Reload::Resized);
    assert!(!g.render_labels);
}

#[test]
fn what_is_served_belongs_to_the_layout() {
    let mut g = loaded();
    let mut img = new_pixmap(&g).unwrap();
    let mut site = Site::new(&g).unwrap();
    assert_eq!((site.frame.seq, site.frame.png.len(), site.frame.event.len()), (0, 0, 0));
    assert_eq!(Some(&site.labels), build_labels_page(&g).as_ref());
    assert!(site.show(&g, &img));
    assert_eq!(site.frame.seq, 1);
    assert_eq!(site.frame.png, img.encode_png().unwrap());
    assert_eq!(site.frame.event, skin_event(&g));
    let first = site.labels.clone();

    // A change of the controller keeps the label page.
    let reading = XInputGamepad {
        buttons: 1 << 12,
        left_trigger: 0,
        right_trigger: 0,
        thumb_lx: 0,
        thumb_ly: 0,
        thumb_rx: 0,
        thumb_ry: 0,
    };
    g.backend.as_mut().unwrap().observe(Some(reading));
    assert!(g.poll());
    assert!(site.show(&g, &img));
    assert_eq!(site.frame.seq, 2);
    assert_eq!(site.frame.event, "1;0.000,0.000,0.000,0.000;4096");
    assert_eq!(site.labels, first);

    // Another layout brings all of it anew.
    let c = config(vec![button(14, rect(1.0, 1.0, 31.0, 5.0), "C")], true);
    assert_eq!(reload(&mut g, &mut img, Some(c), true), Reload::Resized);
    put_pixel(&mut img, 7, 1, 2, 3, 4);
    assert!(site.show_layout(&g, &img));
    assert_eq!(site.frame.seq, 3);
    let shown = tiny_skia::Pixmap::decode_png(&site.frame.png).unwrap();
    assert_eq!((shown.width(), shown.height()), g.image_size().unwrap());
    assert_eq!(site.frame.event, "0;0.000,0.000,0.000,0.000;0");
    assert_eq!(Some(&site.labels), build_labels_page(&g).as_ref());
    assert!(site.labels.contains("data-id=\"14\"") && site.labels.contains("width:30px"));
}

#[test]
fn an_image_that_cannot_be_shown_brings_the_label_page_all_the_same() {
    let mut g = loaded();
    let mut site = Site::new(&g).unwrap();
    let data = [0u8; 15];
    let img = tiny_skia::PixmapRef::from_bytes(&data, 3, 1).unwrap().to_owned();
    let first = site.labels.clone();
    assert!(!site.show(&g, &img));
    assert_eq!((site.frame.seq, &site.labels), (0, &first));
    g.reload(config(vec![button(3, rect(0.0, 0.0, 9.0, 9.0), "N")], true));
    assert!(!site.show_layout(&g, &img));
    assert_eq!(site.frame.seq, 0);
    assert_ne!(site.labels, first);
    let mut b = button(0, rect(0.0, 0.0, 1.0, 1.0), "x");
    b.outline = Some((b.fill, s(-1.0)));
    g.inputs.buttons = vec![b];
    assert!(Site::new(&g).is_none());
}
