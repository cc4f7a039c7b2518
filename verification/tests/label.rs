use obs_gamepad::canvas::{blank, pixel_at, put_pixel};
use obs_gamepad::label::{
    draw_arrow_glyph, fit_font, initial_size, ink_pixel, is_arrow, label_arrows, label_stamps,
    place_label, Placement,
};
use obs_gamepad::layout::Color;
use obs_gamepad::scalar::Scalar;

fn s(x: f32) -> Scalar {
    Scalar { bits: x.to_bits() }
}

fn f(x: Scalar) -> f32 {
    f32::from_bits(x.bits)
}

#[test]
fn four_characters_are_arrows() {
    for c in ['←', '→', '↑', '↓'] {
        assert!(is_arrow(c));
    }
    for c in ['a', '↔', '↕', '<', '-', '⇐'] {
        assert!(!is_arrow(c));
    }
}

#[test]
fn arrows_point_their_way() {
    let (cx, cy, size) = (50.5f32, 20.25f32, 33.0f32);
    let hs = size * 0.28;
    let hw = hs * 0.70;
    let at = |c| {
        draw_arrow_glyph(c, s(cx), s(cy), s(size))
            .map(|(a, b, c)| [(f(a.0), f(a.1)), (f(b.0), f(b.1)), (f(c.0), f(c.1))])
    };
    assert_eq!(at('→'), Some([(cx + hs, cy), (cx - hs, cy - hw), (cx - hs, cy + hw)]));
    assert_eq!(at('←'), Some([(cx - hs, cy), (cx + hs, cy - hw), (cx + hs, cy + hw)]));
    assert_eq!(at('↑'), Some([(cx, cy - hs), (cx - hw, cy + hs), (cx + hw, cy + hs)]));
    assert_eq!(at('↓'), Some([(cx, cy + hs), (cx - hw, cy - hs), (cx + hw, cy - hs)]));
    assert_eq!(at('x'), None);
}

#[test]
fn text_that_fits_keeps_its_size() {
    let radius = 21.3f32;
    let size = radius * 2.0 * 0.75;
    assert_eq!(f(initial_size(s(radius))), size);
    assert_eq!(f(fit_font("ab", &vec![s(3.0), s(4.5)], s(radius))), size);
    assert_eq!(f(fit_font("", &vec![], s(radius))), size);
}

#[test]
fn text_that_is_too_wide_shrinks() {
    let radius = 20.0f32;
    let diameter = radius * 2.0;
    let initial = diameter * 0.75;
    let glyphs = [17.25f32, 13.0, 9.9];
    let measured: f32 = glyphs[0] + glyphs[1] + glyphs[2];
    let max = diameter * 0.92;
    assert!(measured > max);
    let got = fit_font("abc", &glyphs.iter().map(|&g| s(g)).collect(), s(radius));
    assert_eq!(f(got), initial * max / measured);
}

#[test]
fn arrows_have_a_width_of_their_own() {
    let radius = 20.0f32;
    let diameter = radius * 2.0;
    let initial = diameter * 0.75;
    let measured = initial * 0.7 + initial * 0.7;
    let max = diameter * 0.92;
    // The widths of missing glyphs do not count.
    let got = fit_font("←→", &vec![s(1.0e9), s(0.0)], s(radius));
    let want = if measured > max { initial * max / measured } else { initial };
    assert_eq!(f(got), want);
}

#[test]
fn text_is_centered_at_whole_pixels() {
    let (size, ascent, descent) = (18.0f32, 13.7f32, -4.1f32);
    let (cx, cy) = (60.3f32, 40.8f32);
    let widths = [7.5f32, 100.0, 6.25];
    let p = place_label(
        "a←b",
        &widths.iter().map(|&g| s(g)).collect(),
        s(size),
        s(ascent),
        s(descent),
        s(cx),
        s(cy),
    );
    let arrow = size * 0.7;
    let total = 0.0 + 7.5 + arrow + 6.25;
    assert_eq!(f(p.baseline), (cy + (ascent + descent) / 2.0).round());
    assert_eq!(f(p.start), (cx - total / 2.0).round());
    let offsets: Vec<f32> = p.offsets.iter().map(|&x| f(x)).collect();
    assert_eq!(offsets, vec![0.0, 7.5, 7.5 + arrow]);
}

fn placement() -> Placement {
    Placement { baseline: s(30.0), start: s(10.0), offsets: vec![s(0.0), s(5.5), s(9.25)] }
}

#[test]
fn glyphs_have_a_shadow_towards_each_corner() {
    let red = Color { red: s(1.0), green: s(0.0), blue: s(0.0), alpha: s(0.5) };
    let dark = Color { red: s(0.0), green: s(0.0), blue: s(0.0), alpha: s(0.9) };
    let stamps = label_stamps("a↑b", &placement(), red);
    let got: Vec<(char, f32, f32, Color)> =
        stamps.iter().map(|t| (t.glyph, f(t.x), f(t.y), t.color)).collect();
    let mut want = vec![];
    for (dx, dy, c) in
        [(-1.0, -1.0, dark), (1.0, -1.0, dark), (-1.0, 1.0, dark), (1.0, 1.0, dark), (0.0, 0.0, red)]
    {
        want.push(('a', 10.0 + dx, 30.0 + dy, c));
        want.push(('b', 19.25 + dx, 30.0 + dy, c));
    }
    assert_eq!(got, want);
}

#[test]
fn arrows_stand_in_the_middle_of_their_cell() {
    let got = label_arrows("↓x→", &placement(), s(27.5), s(16.0));
    let half = 16.0f32 * 0.35;
    let got: Vec<(char, f32, f32)> = got.iter().map(|&(c, x, y)| (c, f(x), f(y))).collect();
    assert_eq!(got, vec![('↓', 10.0 + half, 27.5), ('→', 19.25 + half, 27.5)]);
}

#[test]
fn every_character_is_a_glyph_or_an_arrow() {
    let white = Color { red: s(1.0), green: s(1.0), blue: s(1.0), alpha: s(1.0) };
    for text in ["abc", "a←c", "←→↑", "↓↓x"] {
        let glyphs = label_stamps(text, &placement(), white).len();
        let arrows = label_arrows(text, &placement(), s(0.0), s(1.0)).len();
        assert_eq!(glyphs / 5 + arrows, 3);
        assert_eq!(glyphs % 5, 0);
    }
}

#[test]
fn ink_is_put_over_what_is_below() {
    for (below, coverage, ca) in [
        ((0u8, 0u8, 0u8, 0u8), 1.0f32, 1.0f32),
        ((10, 200, 30, 220), 0.5, 0.9),
        ((255, 255, 255, 255), 0.25, 1.0),
        ((100, 0, 50, 128), 0.0, 1.0),
        ((1, 2, 3, 4), 1.0, 0.0),
    ] {
        let (cr, cg, cb) = (0.8f32, 0.1f32, 0.55f32);
        let mut img = blank(4, 3).unwrap();
        put_pixel(&mut img, 6, below.0, below.1, below.2, below.3);
        let color = Color { red: s(cr), green: s(cg), blue: s(cb), alpha: s(ca) };
        ink_pixel(&mut img, 1, -1, 1, 2, s(coverage), color);
        let src = ca * coverage;
        let inv = 1.0 - src;
        let a = ((src + (below.3 as f32 / 255.0) * inv) * 255.0) as u8;
        let mix = |c: f32, d: u8| (((c * src + (d as f32 / 255.0) * inv) * 255.0) as u8).min(a);
        let want = (mix(cr, below.0), mix(cg, below.1), mix(cb, below.2), a);
        assert_eq!(pixel_at(&img, 2, 1).unwrap().1, want);
        // Nothing else changes.
        assert_eq!(pixel_at(&img, 1, 1).unwrap().1, (0, 0, 0, 0));
        assert_eq!(pixel_at(&img, 2, 2).unwrap().1, (0, 0, 0, 0));
    }
}

#[test]
fn ink_outside_the_image_is_dropped() {
    let white = Color { red: s(1.0), green: s(1.0), blue: s(1.0), alpha: s(1.0) };
    let mut img = blank(4, 3).unwrap();
    for (left, top, x, y) in [(-5, 0, 2, 0), (0, -9, 0, 8), (3, 0, 1, 0), (0, 2, 0, 1)] {
        ink_pixel(&mut img, left, top, x, y, s(1.0), white);
    }
    assert!(img.pixels().iter().all(|p| p.alpha() == 0));
    ink_pixel(&mut img, -5, -9, 5, 9, s(1.0), white);
    assert_eq!(pixel_at(&img, 0, 0).unwrap().1, (255, 255, 255, 255));
}
