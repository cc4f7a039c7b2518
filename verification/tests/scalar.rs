use obs_gamepad::scalar::Scalar;

/// Bit patterns at the edges of every binade, specials, and a spread of others.
fn patterns() -> Vec<u32> {
    let mut v = vec![
        0, 1, 2, 0x7f_ffff, 0x80_0000, 0x80_0001, 0x3f80_0000, 0x3f80_0001, 0x3f7f_ffff,
        0x7f7f_ffff, 0x7f80_0000, 0x7fc0_0000, 0x7f80_0001, 0x7fff_ffff, 0x4b80_0000, 0x4b7f_ffff,
        0x3f00_0000, 0x4f80_0000, 0x4f7f_ffff, 0x437f_0000, 0x4380_0000, 0x3dcc_cccd, 0x3d4c_cccd,
    ];
    for e in 0..255u32 {
        for m in [0u32, 1, 0x40_0000, 0x7f_ffff] {
            v.push(e << 23 | m);
        }
    }
    let mut x: u32 = 0x1234_5678;
    for _ in 0..2000 {
        x ^= x << 13;
        x ^= x >> 17;
        x ^= x << 5;
        v.push(x & 0x7fff_ffff);
    }
    let signed: Vec<u32> = v.iter().map(|b| b | 0x8000_0000).collect();
    v.extend(signed);
    v
}

fn few() -> Vec<u32> {
    patterns().into_iter().step_by(7).collect()
}

fn s(x: f32) -> Scalar {
    Scalar { bits: x.to_bits() }
}

fn agree(got: Scalar, want: f32, what: &str) {
    let value = f32::from_bits(got.bits);
    if want.is_nan() {
        assert!(value.is_nan(), "{what}: {value} for NaN");
    } else {
        assert_eq!(got.bits, want.to_bits(), "{what}: {value} for {want}");
    }
}

#[test]
fn sums_agree_with_the_machine() {
    let v = few();
    for &a in &v {
        for &b in &v {
            let (x, y) = (f32::from_bits(a), f32::from_bits(b));
            agree(s(x).plus(s(y)), x + y, &format!("{x:e} + {y:e}"));
            agree(s(x).minus(s(y)), x - y, &format!("{x:e} - {y:e}"));
        }
    }
}

#[test]
fn close_sums_agree_with_the_machine() {
    for &a in &patterns() {
        for d in 0..40u32 {
            let x = f32::from_bits(a);
            let y = f32::from_bits((a & 0x7fff_ffff).wrapping_sub(d << 22).wrapping_add(d) & 0x7fff_ffff);
            agree(s(x).plus(s(y)), x + y, &format!("{x:e} + {y:e}"));
            agree(s(x).minus(s(y)), x - y, &format!("{x:e} - {y:e}"));
        }
    }
}

#[test]
fn products_agree_with_the_machine() {
    let v = few();
    for &a in &v {
        for &b in &v {
            let (x, y) = (f32::from_bits(a), f32::from_bits(b));
            agree(s(x).times(s(y)), x * y, &format!("{x:e} * {y:e}"));
        }
    }
}

#[test]
fn quotients_agree_with_the_machine() {
    let v = few();
    for &a in &v {
        for &b in &v {
            let (x, y) = (f32::from_bits(a), f32::from_bits(b));
            agree(s(x).over(s(y)), x / y, &format!("{x:e} / {y:e}"));
        }
    }
}

#[test]
fn roots_agree_with_the_machine() {
    for &a in &patterns() {
        let x = f32::from_bits(a);
        agree(s(x).sqrt(), x.sqrt(), &format!("root of {x:e}"));
    }
}

#[test]
fn rounding_agrees_with_the_machine() {
    let mut v = patterns();
    for n in 0..2000u32 {
        v.push((n as f32 / 4.0).to_bits());
        v.push((-(n as f32) / 4.0).to_bits());
    }
    for &a in &v {
        let x = f32::from_bits(a);
        agree(s(x).round(), x.round(), &format!("round {x:e}"));
        assert_eq!(s(x).to_byte(), x as u8, "byte of {x:e}");
        assert_eq!(s(x).pixels(), (x.ceil() as u32).max(1), "pixels of {x:e}");
        agree(s(x).neg(), -x, &format!("-{x:e}"));
        agree(s(x).clamp_unit(), x.clamp(-1.0, 1.0), &format!("clamp {x:e}"));
    }
}

#[test]
fn comparisons_agree_with_the_machine() {
    let v = few();
    for &a in &v {
        for &b in &v {
            let (x, y) = (f32::from_bits(a), f32::from_bits(b));
            assert_eq!(s(x).lt(s(y)), x < y, "{x:e} < {y:e}");
            assert_eq!(s(x).same(s(y)), x == y, "{x:e} == {y:e}");
        }
    }
    assert!(s(0.0).same(s(-0.0)));
    assert!(!s(f32::NAN).same(s(f32::NAN)));
}

#[test]
fn whole_numbers_are_exact() {
    for n in (0..0x100_0000u32).step_by(977).chain([1, 2, 3, 255, 32767, 32768, 0xff_ffff]) {
        agree(Scalar::whole(n), n as f32, "whole");
    }
}

#[test]
fn decimals_are_written_as_std_writes_them() {
    let mut v = patterns();
    for n in 0..4000u32 {
        v.push((n as f32 * 0.0005).to_bits());
        v.push((n as f32 / 16.0).to_bits());
        v.push((-(n as f32) / 8.0).to_bits());
    }
    for &a in &v {
        let x = f32::from_bits(a);
        assert_eq!(s(x).to_fixed(1), format!("{x:.1}"));
        assert_eq!(s(x).to_fixed(3), format!("{x:.3}"));
        assert_eq!(s(x).to_fixed(9), format!("{x:.9}"));
    }
    assert_eq!(s(0.25).to_fixed(1), "0.2");
    assert_eq!(s(0.75).to_fixed(1), "0.8");
    assert_eq!(s(-0.0).to_fixed(3), "-0.000");
    assert_eq!(s(f32::NAN).to_fixed(1), "NaN");
    assert_eq!(s(f32::NEG_INFINITY).to_fixed(1), "-inf");
}
