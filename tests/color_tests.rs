use ditherum::color::{
    mean_color, rgbu8_to_srgb, srgb_add, srgb_distance_squared, srgb_sub, srgb_to_rgbu8, ColorRGB,
    ColorSpace, Srgb,
};
use palette::color_difference::Ciede2000;
use palette::{FromColor, Lab, Srgb as FloatSrgb};

/// CIE Lab through the `palette` crate, with CIEDE2000 distances in thousandths.
struct LabSpace;

impl ColorSpace for LabSpace {
    type Perceptual = Lab;

    fn to_perceptual(&self, color: &ColorRGB) -> Lab {
        Lab::from_color(FloatSrgb::new(
            color.0[0] as f32 / 255.0,
            color.0[1] as f32 / 255.0,
            color.0[2] as f32 / 255.0,
        ))
    }

    fn from_perceptual(&self, value: &Lab) -> ColorRGB {
        let s = FloatSrgb::from_color(*value);
        let ch = |v: f32| (v * 255.0).round().clamp(0.0, 255.0) as u8;
        ColorRGB([ch(s.red), ch(s.green), ch(s.blue)])
    }

    fn distance(&self, a: &Lab, b: &Lab) -> u64 {
        (a.difference(*b) * 1000.0).round() as u64
    }

    fn mean(&self, values: &[Lab]) -> Lab {
        let n = values.len() as f32;
        let (l, a, b) = values
            .iter()
            .fold((0.0f32, 0.0f32, 0.0f32), |acc, v| (acc.0 + v.l, acc.1 + v.a, acc.2 + v.b));
        Lab::new(l / n, a / n, b / n)
    }
}

#[test]
fn test_convertion_to_lab() {
    let color = ColorRGB([255, 0, 0]);
    let lab_color = LabSpace.to_perceptual(&color);
    let recreated_color = LabSpace.from_perceptual(&lab_color);
    assert_eq!(color, recreated_color);
}

#[test]
fn lab_round_trip_is_within_one_per_channel() {
    for r in (0..=255u8).step_by(15) {
        for g in (0..=255u8).step_by(17) {
            for b in (0..=255u8).step_by(5) {
                let c = ColorRGB([r, g, b]);
                let back = LabSpace.from_perceptual(&LabSpace.to_perceptual(&c));
                for i in 0..3 {
                    assert!((c.0[i] as i32 - back.0[i] as i32).abs() <= 1, "{c:?} -> {back:?}");
                }
            }
        }
    }
}

#[test]
fn lab_distance_is_zero_only_between_equal_colors_and_symmetric() {
    let a = LabSpace.to_perceptual(&ColorRGB([10, 20, 30]));
    let b = LabSpace.to_perceptual(&ColorRGB([200, 20, 30]));
    assert_eq!(LabSpace.distance(&a, &a), 0);
    assert!(LabSpace.distance(&a, &b) > 0);
    assert_eq!(LabSpace.distance(&a, &b), LabSpace.distance(&b, &a));
}

#[test]
fn channel_accessors() {
    let c = ColorRGB([1, 2, 3]);
    assert_eq!((c.red(), c.green(), c.blue()), (1, 2, 3));
    assert_eq!(c.tuple(), (1, 2, 3));
    assert_eq!(c.as_slice(), &[1, 2, 3]);
}

#[test]
fn saturating_arithmetic() {
    let a = ColorRGB([250, 10, 100]);
    let b = ColorRGB([10, 20, 50]);
    assert_eq!(a.saturating_add(&b), ColorRGB([255, 30, 150]));
    assert_eq!(a.saturating_sub(&b), ColorRGB([240, 0, 50]));
}

#[test]
fn squared_rgb_distance() {
    let a = ColorRGB([0, 0, 0]);
    let b = ColorRGB([255, 255, 255]);
    assert_eq!(a.dist_squared_by_rgb(&b), 3 * 255 * 255);
    assert_eq!(ColorRGB([1, 2, 3]).dist_squared_by_rgb(&ColorRGB([4, 6, 3])), 25);
}

#[test]
fn palette_order_goes_by_luma_then_channels() {
    let black = ColorRGB([0, 0, 0]);
    let blue = ColorRGB([0, 0, 255]);
    let red = ColorRGB([255, 0, 0]);
    assert!(black.precedes(&blue) && blue.precedes(&red));
    assert!(!red.precedes(&blue) && !red.precedes(&red));
}

#[test]
fn mean_color_rounds_half_up() {
    assert_eq!(mean_color(&[ColorRGB([0, 0, 0]), ColorRGB([255, 1, 2])]), ColorRGB([128, 1, 1]));
    assert_eq!(mean_color(&[]), ColorRGB([0, 0, 0]));
}

#[test]
fn working_colors() {
    let w = rgbu8_to_srgb(ColorRGB([10, 20, 30]));
    assert_eq!(w, Srgb { red: 10, green: 20, blue: 30 });
    let d = srgb_sub(&w, &Srgb { red: 20, green: 20, blue: 0 });
    assert_eq!(d, Srgb { red: -10, green: 0, blue: 30 });
    assert_eq!(srgb_add(&d, &w), Srgb { red: 0, green: 20, blue: 60 });
    assert_eq!(srgb_to_rgbu8(Srgb { red: -5, green: 300, blue: 7 }), ColorRGB([0, 255, 7]));
    assert_eq!(srgb_distance_squared(&d, &ColorRGB([0, 0, 0])), 100 + 900);
}
