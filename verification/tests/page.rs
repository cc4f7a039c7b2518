use obs_gamepad::gamepad::Gamepad;
use obs_gamepad::layout::{Button, Color, ColorPair, InputState, Inputs, Rect};
use obs_gamepad::page::{build_labels_page, css_color, html_escape, mark_arrows};
use obs_gamepad::scalar::Scalar;
use obs_gamepad::xinput::XInput;

fn s(x: f32) -> Scalar {
    Scalar { bits: x.to_bits() }
}

/// A gamepad with a layout where it was put.
fn showing(inputs: Inputs) -> Gamepad<XInput> {
    let input_state = InputState::from(&inputs);
    Gamepad { backend: None, inputs, input_state, scale: s(1.0), render_labels: true }
}

fn color(r: f32, g: f32, b: f32, a: f32) -> Color {
    Color { red: s(r), green: s(g), blue: s(b), alpha: s(a) }
}

fn button(id: u8, r: (f32, f32, f32, f32), label: Option<&str>, colors: Option<ColorPair>) -> Button {
    let black = color(0.0, 0.0, 0.0, 1.0);
    Button {
        id,
        shape: Rect { left: s(r.0), top: s(r.1), right: s(r.2), bottom: s(r.3) },
        fill: ColorPair::new(black, black),
        outline: None,
        label: label.map(str::to_owned),
        label_color: colors,
        skin: None,
    }
}

fn page(buttons: Vec<Button>, scale: f32) -> String {
    let mut g: Gamepad<XInput> = showing(Inputs { buttons, sticks: vec![], axes: vec![] });
    g.scale = s(scale);
    build_labels_page(&g).unwrap()
}

fn labels(page: &str) -> &str {
    let start = "<img src=\"/stream\" alt=\"overlay\">";
    let from = page.find(start).unwrap() + start.len();
    let to = page.find("</div><div id=\"cm\">").unwrap();
    &page[from..to]
}

/// FNV-1a.
fn digest(text: &str) -> u64 {
    text.bytes().fold(0xcbf2_9ce4_8422_2325u64, |h, b| {
        (h ^ b as u64).wrapping_mul(0x100_0000_01b3)
    })
}

#[test]
fn markup_is_escaped() {
    assert_eq!(html_escape("a<b> & \"c\""), "a&lt;b&gt; &amp; \"c\"");
    assert_eq!(html_escape("&lt;"), "&amp;lt;");
    assert_eq!(html_escape(""), "");
    assert_eq!(html_escape("← ü"), "← ü");
    for text in ["<<>>", "&&amp;", "x & y < z", "&gt;&lt;"] {
        let e = html_escape(text);
        assert!(!e.contains('<') && !e.contains('>'));
        let back = e.replace("&lt;", "<").replace("&gt;", ">").replace("&amp;", "&");
        assert_eq!(back, text);
    }
}

#[test]
fn arrows_are_set_apart() {
    assert_eq!(mark_arrows("a"), "a");
    for arrow in ['↑', '↓', '←', '→'] {
        assert_eq!(
            mark_arrows(&format!("x{arrow}{arrow}")),
            format!("x<span class=\"ar\">{arrow}</span><span class=\"ar\">{arrow}</span>")
        );
    }
    assert_eq!(mark_arrows("↔"), "↔");
}

#[test]
fn colors_are_those_of_tiny_skia() {
    for n in 0..=1000 {
        let v = n as f32 / 1000.0;
        let w = 1.0 - v;
        let u = tiny_skia::Color::from_rgba(v, w, v * v, w * v).unwrap().to_color_u8();
        let want = format!("rgba({},{},{},{})", u.red(), u.green(), u.blue(), u.alpha());
        assert_eq!(css_color(color(v, w, v * v, w * v)), want);
    }
    assert_eq!(css_color(color(1.0, 0.5, 0.0, 0.2)), "rgba(255,128,0,51)");
}

#[test]
fn the_page_without_labels_is_fixed() {
    let p = page(vec![button(0, (0.0, 0.0, 120.0, 50.0), None, None)], 1.0);
    assert_eq!(p.len(), 8295);
    assert_eq!(digest(&p), 0x51d8_0283_c2d1_ab1c);
    assert!(p.starts_with("<!doctype html><html><head><meta charset=\"utf-8\">"));
    assert!(p.ends_with("})();\n</script></body></html>"));
    assert!(p.contains("width:120px;height:50px;"));
    assert!(p.contains("innerWidth/120,innerHeight/50)*0.8;"));
    assert_eq!(labels(&p), "");
}

#[test]
fn the_page_has_the_size_of_the_image() {
    let p = page(vec![button(0, (0.0, 0.0, 120.0, 50.0), None, None)], 2.5);
    assert!(p.contains("width:300px;height:125px;"));
    assert!(p.contains("((innerWidth-300*s)/2)+'px,'+((innerHeight-125*s)/2)"));
    assert_eq!(p.len(), 8295 + 3);
}

#[test]
fn a_label_stands_on_its_button() {
    let p = page(vec![button(7, (10.0, 20.0, 50.0, 40.0), Some("A"), None)], 1.0);
    assert_eq!(
        labels(&p),
        "<div class=\"l\" data-id=\"7\" style=\"left:30.0px;top:30.0px;font-size:10.0px\">A</div>"
    );
    let p = page(vec![button(7, (10.0, 20.0, 50.0, 40.0), Some("A"), None)], 3.0);
    assert_eq!(
        labels(&p),
        "<div class=\"l\" data-id=\"7\" style=\"left:90.0px;top:90.0px;font-size:30.0px\">A</div>"
    );
}

#[test]
fn labels_are_escaped_and_their_arrows_marked() {
    let p = page(vec![button(1, (0.0, 0.0, 10.0, 10.0), Some("<←&"), None)], 1.0);
    assert!(labels(&p).ends_with(">&lt;<span class=\"ar\">←</span>&amp;</div>"));
}

#[test]
fn long_labels_shrink() {
    for n in 0..40usize {
        let text = "é".repeat(n);
        let p = page(vec![button(1, (0.0, 0.0, 37.3, 41.9), Some(&text), None)], 1.7);
        let diameter = (41.9f32 - 0.0) * 1.7;
        let shrink = (4.0 / n.max(1) as f32).clamp(0.6, 1.0);
        let size = diameter * 0.5 * shrink;
        assert!(labels(&p).contains(&format!(";font-size:{size:.1}px\">")), "{n}");
    }
}

#[test]
fn label_colors_are_kept_for_either_state() {
    let red = color(1.0, 0.0, 0.0, 1.0);
    let blue = color(0.0, 0.0, 1.0, 0.5);
    let p = page(
        vec![
            button(2, (0.0, 0.0, 10.0, 10.0), Some("x"), Some(ColorPair::new(red, blue))),
            button(3, (0.0, 0.0, 10.0, 10.0), Some("y"), Some(ColorPair::new(blue, blue))),
            button(4, (0.0, 0.0, 10.0, 10.0), None, Some(ColorPair::new(red, blue))),
        ],
        1.0,
    );
    assert_eq!(
        labels(&p),
        "<div class=\"l\" data-id=\"2\" data-lca=\"rgba(255,0,0,255)\" \
         style=\"left:5.0px;top:5.0px;font-size:5.0px;color:rgba(0,0,255,128)\">x</div>\
         <div class=\"l\" data-id=\"3\" \
         style=\"left:5.0px;top:5.0px;font-size:5.0px;color:rgba(0,0,255,128)\">y</div>"
    );
}

#[test]
fn colors_that_look_alike_need_no_attribute() {
    let a = color(0.5, 0.0, 0.0, 1.0);
    let b = color(0.5001, 0.0, 0.0, 1.0);
    let p = page(
        vec![button(2, (0.0, 0.0, 10.0, 10.0), Some("x"), Some(ColorPair::new(a, b)))],
        1.0,
    );
    assert!(!labels(&p).contains("data-lca"));
}

#[test]
fn a_layout_without_bounds_has_no_page() {
    let mut b = button(0, (0.0, 0.0, 1.0, 1.0), Some("x"), None);
    b.outline = Some((b.fill, s(-1.0)));
    let g: Gamepad<XInput> =
        showing(Inputs { buttons: vec![b], sticks: vec![], axes: vec![] });
    assert!(build_labels_page(&g).is_none());
}

#[test]
fn the_viewer_page_is_fixed() {
    let p = obs_gamepad::pages::INDEX_HTML;
    assert_eq!(p.len(), 307);
    assert_eq!(digest(p), 0xfe43_13db_b6e0_886e);
    assert!(p.contains("<img src=\"/stream\" alt=\"gamepad overlay\">"));
}

#[test]
fn labels_follow_the_whole_mask_of_held_ids() {
    let p = page(vec![button(63, (0.0, 0.0, 10.0, 10.0), Some("x"), None)], 1.0);
    assert!(labels(&p).contains("data-id=\"63\""));
    // Ids go up to 63, which takes big integers.
    assert!(p.contains("var m=BigInt(e.data.split(';')[2]||0);"));
    assert!(p.contains("var on=((m>>BigInt(el.dataset.id))&1n)===1n;"));
    assert!(p.contains("if(pressed)el.style.visibility=on?'visible':'hidden';"));
}
