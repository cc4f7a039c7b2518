use obs_gamepad::canvas::{blank, new_pixmap, pixel_at, put_pixel, size, to_png, update_screen};
use obs_gamepad::gamepad::Gamepad;
use obs_gamepad::scalar::Scalar;
use obs_gamepad::xinput::XInput;

#[test]
fn a_blank_image_is_transparent() {
    let img = blank(7, 5).unwrap();
    assert_eq!(size(&img), (7, 5));
    for y in 0..5 {
        for x in 0..7 {
            let at = (y * 7 + x) as usize;
            assert_eq!(pixel_at(&img, x, y), Some((at, (0, 0, 0, 0))));
        }
    }
}

#[test]
fn there_is_no_image_without_pixels_or_too_wide() {
    assert!(blank(0, 5).is_none());
    assert!(blank(5, 0).is_none());
    assert!(blank(536_870_912, 1).is_none());
    assert!(blank(u32::MAX, u32::MAX).is_none());
    assert!(blank(1, 1).is_some());
}

#[test]
fn points_outside_have_no_pixel() {
    let img = blank(3, 2).unwrap();
    for (x, y) in [(-1, 0), (0, -1), (3, 0), (0, 2), (i32::MIN, 0), (i32::MAX, i32::MAX)] {
        assert_eq!(pixel_at(&img, x, y), None);
    }
    assert!(pixel_at(&img, 2, 1).is_some());
}

#[test]
fn a_pixel_keeps_what_was_put() {
    let mut img = blank(3, 2).unwrap();
    put_pixel(&mut img, 5, 1, 2, 3, 4);
    assert_eq!(pixel_at(&img, 2, 1), Some((5, (1, 2, 3, 4))));
    for (x, y) in [(0, 0), (1, 0), (2, 0), (0, 1), (1, 1)] {
        assert_eq!(pixel_at(&img, x, y).unwrap().1, (0, 0, 0, 0));
    }
    let p = img.pixels()[5];
    assert_eq!((p.red(), p.green(), p.blue(), p.alpha()), (1, 2, 3, 4));
}

#[test]
fn colors_are_limited_to_alpha() {
    let mut img = blank(1, 1).unwrap();
    put_pixel(&mut img, 0, 255, 9, 10, 10);
    assert_eq!(pixel_at(&img, 0, 0).unwrap().1, (10, 9, 10, 10));
}

#[test]
fn the_screen_takes_packed_colors() {
    let mut img = blank(2, 1).unwrap();
    put_pixel(&mut img, 0, 0x12, 0x34, 0x56, 0xff);
    put_pixel(&mut img, 1, 0xff, 0xff, 0xff, 0xff);
    let mut buf = vec![7u32; 2];
    update_screen(&img, &mut buf);
    assert_eq!(buf, vec![0x12_3456, 0xff_ffff]);
    // A longer buffer keeps the rest, a shorter one takes what fits.
    let mut buf = vec![7u32; 4];
    update_screen(&img, &mut buf);
    assert_eq!(buf, vec![0x12_3456, 0xff_ffff, 7, 7]);
    let mut buf = vec![7u32; 1];
    update_screen(&img, &mut buf);
    assert_eq!(buf, vec![0x12_3456]);
}

#[test]
fn an_image_has_the_size_of_the_overlay() {
    let mut g: Gamepad<XInput> = Gamepad::default();
    let img = new_pixmap(&g).unwrap();
    assert_eq!(size(&img), (100, 100));
    g.scale = Scalar { bits: 0.25f32.to_bits() };
    assert_eq!(size(&new_pixmap(&g).unwrap()), (25, 25));
    g.scale = Scalar { bits: 1.0e9f32.to_bits() };
    assert!(new_pixmap(&g).is_none());
}

/// An image with bytes that belong to no pixel.
fn oversized(width: u32, height: u32, bytes: usize) -> tiny_skia::Pixmap {
    let data: Vec<u8> = (0..bytes).map(|i| i as u8).collect();
    tiny_skia::PixmapRef::from_bytes(&data, width, height).unwrap().to_owned()
}

#[test]
fn images_can_have_more_bytes_than_pixels() {
    // Two pixels, and the bytes of another one and a half.
    let mut img = oversized(2, 1, 14);
    assert_eq!(size(&img), (2, 1));
    assert_eq!(pixel_at(&img, 1, 0), Some((1, (4, 5, 6, 7))));
    assert_eq!(pixel_at(&img, 0, 1), None);
    assert_eq!(pixel_at(&img, 2, 0), None);
    let mut buf = vec![9u32; 5];
    update_screen(&img, &mut buf);
    assert_eq!(buf, vec![0x00_0102, 0x04_0506, 0x08_090a, 9, 9]);
    put_pixel(&mut img, 1, 1, 2, 3, 200);
    assert_eq!(img.data(), [0, 1, 2, 3, 1, 2, 3, 200, 8, 9, 10, 11, 12, 13]);
}

#[test]
fn only_an_image_without_further_bytes_is_encoded() {
    assert!(to_png(&blank(2, 1).unwrap()).is_some());
    assert!(to_png(&oversized(2, 1, 8)).is_some());
    assert!(to_png(&oversized(2, 1, 12)).is_none());
    assert!(to_png(&oversized(2, 1, 14)).is_none());
}

#[test]
fn a_pixel_that_is_not_there_is_not_set() {
    let mut img = blank(2, 1).unwrap();
    put_pixel(&mut img, 2, 1, 1, 1, 1);
    put_pixel(&mut img, usize::MAX, 1, 1, 1, 1);
    assert!(img.data().iter().all(|&b| b == 0));
}
