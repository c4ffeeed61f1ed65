use oxideav_tiff::cielab::{cielab_to_rgb_byte, lightness_to_gray};

fn srgb_byte(v: f64) -> u8 {
    let v = v.clamp(0.0, 1.0);
    let s = if v <= 0.0031308 { 12.92 * v } else { 1.055 * v.powf(1.0 / 2.4) - 0.055 };
    (s * 255.0).round().clamp(0.0, 255.0) as u8
}

fn luminance(l: f64) -> f64 {
    if l > 7.999625 {
        ((l + 16.0) / 116.0).powi(3)
    } else {
        l / 903.3
    }
}

fn real_rgb(l: u8, a: u8, b: u8) -> (u8, u8, u8) {
    let l = l as f64 * 100.0 / 255.0;
    let a = (a as i8) as f64;
    let b = (b as i8) as f64;
    let fy = (l + 16.0) / 116.0;
    let leg = |f: f64| {
        let c = f.powi(3);
        if c > 0.008856 {
            c
        } else {
            (f - 16.0 / 116.0) / 7.787
        }
    };
    let x = leg(a / 500.0 + fy) * 0.95047;
    let y = luminance(l);
    let z = leg(fy - b / 200.0) * 1.08883;
    (
        srgb_byte(1.9103738257 * x - 0.5337689371 * y - 0.2891315088 * z),
        srgb_byte(-0.9844441268 * x + 1.9985203510 * y - 0.0278510303 * z),
        srgb_byte(0.0584818293 * x - 0.1187239812 * y + 0.9017445257 * z),
    )
}

#[test]
fn lightness_agrees_with_real_arithmetic() {
    for l in 0..=255u8 {
        let y = luminance(l as f64 * 100.0 / 255.0);
        assert_eq!(lightness_to_gray(l), srgb_byte(y), "L* byte {l}");
    }
}

#[test]
fn colours_agree_with_real_arithmetic() {
    for l in (0..=255u8).step_by(5) {
        for a in (0..=255u8).step_by(3) {
            for b in (0..=255u8).step_by(3) {
                assert_eq!(cielab_to_rgb_byte(l, a, b), real_rgb(l, a, b), "({l}, {a}, {b})");
            }
        }
    }
}

#[test]
fn black_and_white_are_neutral() {
    assert_eq!(cielab_to_rgb_byte(0, 0, 0), (0, 0, 0));
    assert_eq!(lightness_to_gray(0), 0);
    assert_eq!(lightness_to_gray(255), 255);
}
