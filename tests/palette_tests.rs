use ditherum::color::{ColorRGB, ColorSpace, RgbSpace};
use ditherum::kmean::CentroidsFindError;
use ditherum::palette::{find_closest_lab_color, PaletteError, PaletteRGB};
use palette::color_difference::Ciede2000;
use palette::{FromColor, Lab, Srgb};

/// CIE Lab through the `palette` crate, with CIEDE2000 distances in thousandths.
struct LabSpace;

impl ColorSpace for LabSpace {
    type Perceptual = Lab;

    fn to_perceptual(&self, color: &ColorRGB) -> Lab {
        Lab::from_color(Srgb::new(
            color.0[0] as f32 / 255.0,
            color.0[1] as f32 / 255.0,
            color.0[2] as f32 / 255.0,
        ))
    }

    fn from_perceptual(&self, value: &Lab) -> ColorRGB {
        let s = Srgb::from_color(*value);
        let ch = |v: f32| (v * 255.0).round().clamp(0.0, 255.0) as u8;
        ColorRGB([ch(s.red), ch(s.green), ch(s.blue)])
    }

    fn distance(&self, a: &Lab, b: &Lab) -> u64 {
        (a.difference(*b) * 1000.0).round() as u64
    }

    fn mean(&self, values: &[Lab]) -> Lab {
        let n = values.len() as f32;
        let (l, a, b) = values
            .iter()
            .fold((0.0f32, 0.0f32, 0.0f32), |acc, v| (acc.0 + v.l, acc.1 + v.a, acc.2 + v.b));
        Lab::new(l / n, a / n, b / n)
    }
}

#[test]
fn test_grayscale_palette() {
    let steps = 113;
    let palette = PaletteRGB::grayscale(steps);
    assert_eq!(palette.len(), steps);

    assert_eq!(palette[0], ColorRGB([0, 0, 0]));
    assert_eq!(palette[steps - 1], ColorRGB([255, 255, 255]));
}

#[test]
fn grayscale_levels_are_evenly_spaced() {
    let palette = PaletteRGB::grayscale(5);
    let levels: Vec<u8> = palette.iter().map(|c| c.0[0]).collect();
    assert_eq!(levels, vec![0, 63, 127, 191, 255]);
}

#[test]
fn grayscale_with_more_steps_than_levels_keeps_each_level_once() {
    let palette = PaletteRGB::grayscale(1000);
    assert_eq!(palette.len(), 256);
    assert_eq!(palette[0], ColorRGB([0, 0, 0]));
    assert_eq!(palette[255], ColorRGB([255, 255, 255]));
}

#[test]
fn test_try_reduce_not_enough_colors() {
    let palette = PaletteRGB::primary();

    let result = palette.clone().try_reduce(4, &LabSpace);
    assert!(result.is_err());

    if let Err(PaletteError::NotEnoughColors { expected, actual }) = result {
        assert_eq!(expected, 4);
        assert_eq!(actual, palette.len());
    } else {
        panic!("Expected NotEnoughColors error.");
    }
}

#[test]
fn test_reduce_bn_w_palette() {
    let palette = PaletteRGB::black_and_white();
    assert_eq!(palette.len(), 2);

    let reduced_palette = palette.try_reduce(1, &LabSpace);
    assert!(reduced_palette.is_ok());
    let reduced_palette = reduced_palette.unwrap();
    let reduced_color = reduced_palette[0];
    assert_eq!(reduced_color, ColorRGB([119, 119, 119]));
}

#[test]
fn reduce_black_and_white_in_rgb_space_gives_the_channel_mean() {
    let reduced = PaletteRGB::black_and_white().try_reduce(1, &RgbSpace).unwrap();
    assert_eq!(reduced.colors(), &vec![ColorRGB([128, 128, 128])]);
}

#[test]
fn reduce_to_the_same_size_returns_the_palette_unchanged() {
    let palette = PaletteRGB::primary_bw();
    let reduced = palette.clone().try_reduce(palette.len(), &LabSpace).unwrap();
    assert_eq!(reduced, palette);
}

#[test]
fn reduce_primaries_to_one_color_gives_a_muted_blend() {
    let reduced = PaletteRGB::primary().try_reduce(1, &LabSpace).unwrap();
    assert_eq!(reduced.len(), 1);
    let c = reduced[0];
    assert!(!PaletteRGB::primary().contains(&c));
    let (r, g, b) = c.tuple();
    assert!(r < 255 && g < 255 && b < 255);
    assert!(r > 0 && g > 0 && b > 0);
}

#[test]
fn reduce_grayscale_gives_at_most_the_asked_number_of_colors() {
    let palette = PaletteRGB::grayscale(40);
    let reduced = palette.try_reduce(4, &RgbSpace).unwrap();
    assert!(reduced.len() <= 4 && !reduced.is_empty());
}

/// A color space whose mean drifts further on every call, so clustering never settles.
struct DriftingSpace {
    calls: std::cell::Cell<u64>,
}

impl ColorSpace for DriftingSpace {
    type Perceptual = u64;

    fn to_perceptual(&self, color: &ColorRGB) -> u64 {
        color.0[0] as u64
    }

    fn from_perceptual(&self, value: &u64) -> ColorRGB {
        ColorRGB([(*value % 256) as u8, 0, 0])
    }

    fn distance(&self, a: &u64, b: &u64) -> u64 {
        a.abs_diff(*b)
    }

    fn mean(&self, _values: &[u64]) -> u64 {
        self.calls.set(self.calls.get() + 1000);
        self.calls.get()
    }
}

#[test]
fn reduction_that_never_settles_fails_with_conversion_error() {
    let space = DriftingSpace { calls: std::cell::Cell::new(0) };
    let result = PaletteRGB::primary_bw().try_reduce(2, &space);
    assert_eq!(
        result,
        Err(PaletteError::ConversionFailed(CentroidsFindError::TooManyIterations))
    );
}

#[test]
fn test_convertion_to_lab_and_from() {
    let test_palette = PaletteRGB::primary_bw();
    let lab_colors = test_palette.clone().to_lab(&LabSpace);
    let recreated: Vec<ColorRGB> = lab_colors.iter().map(|v| LabSpace.from_perceptual(v)).collect();
    let recreated_palette = PaletteRGB::from_colors(recreated);
    assert_eq!(test_palette, recreated_palette);
}

#[test]
fn test_combining_palettes() {
    let bw_palette = PaletteRGB::black_and_white();
    let mut primary_palette = PaletteRGB::primary();
    primary_palette.combine(bw_palette);
    let combined_palette = primary_palette;

    let expected_combined_palette = PaletteRGB::primary_bw();
    assert_eq!(combined_palette, expected_combined_palette)
}

#[test]
fn from_colors_sorts_and_removes_duplicates() {
    let palette = PaletteRGB::from_colors(vec![
        ColorRGB([255, 255, 255]),
        ColorRGB([0, 0, 0]),
        ColorRGB([255, 255, 255]),
        ColorRGB([255, 0, 0]),
    ]);
    assert_eq!(
        palette.colors(),
        &vec![ColorRGB([0, 0, 0]), ColorRGB([255, 0, 0]), ColorRGB([255, 255, 255])]
    );
}

#[test]
fn from_empty_colors_is_an_empty_palette() {
    assert_eq!(PaletteRGB::from_colors(vec![]).len(), 0);
}

#[test]
fn with_black_and_white_adds_both_once() {
    let palette = PaletteRGB::primary().with_black_and_white().with_black_and_white();
    assert_eq!(palette, PaletteRGB::primary_bw());
}

#[test]
fn find_closest_by_rgb_picks_the_nearest_and_the_first_on_ties() {
    let palette = PaletteRGB::black_and_white();
    assert_eq!(palette.find_closest_by_rgb(&ColorRGB([100, 100, 100])), ColorRGB([0, 0, 0]));
    assert_eq!(palette.find_closest_by_rgb(&ColorRGB([200, 120, 140])), ColorRGB([255, 255, 255]));
    let tie = PaletteRGB::from_colors(vec![ColorRGB([0, 0, 0]), ColorRGB([2, 2, 2])]);
    assert_eq!(tie.find_closest_by_rgb(&ColorRGB([1, 1, 1])), ColorRGB([0, 0, 0]));
}

#[test]
fn find_closest_by_lab_returns_a_palette_color() {
    let palette = PaletteRGB::primary_bw();
    let c = palette.find_closest_by_lab(&ColorRGB([250, 10, 10]), &LabSpace);
    assert_eq!(c, ColorRGB([255, 0, 0]));
}

#[test]
fn to_srgb_keeps_channel_values() {
    let working = PaletteRGB::primary().to_srgb();
    assert_eq!(working.len(), 3);
    assert_eq!((working[1].red, working[1].green, working[1].blue), (255, 0, 0));
}

#[test]
fn ansi_visualization_has_one_line_per_color() {
    let text = PaletteRGB::from_colors(vec![ColorRGB([255, 0, 0]), ColorRGB([7, 42, 100])])
        .get_ansi_colors_visualization();
    assert_eq!(
        text,
        "\x1b[48;2;7;42;100m  \x1b[0m: [7, 42, 100]\n\x1b[48;2;255;0;0m  \x1b[0m: [255, 0, 0]\n"
    );
    assert_eq!(PaletteRGB::from_colors(vec![]).get_ansi_colors_visualization(), "");
}

#[test]
fn reduce_to_no_colors_gives_an_empty_palette() {
    let reduced = PaletteRGB::primary().try_reduce(0, &RgbSpace).unwrap();
    assert_eq!(reduced.len(), 0);
}

#[test]
fn nearest_perceptual_entry_is_the_first_on_ties() {
    let values = [ColorRGB([0, 0, 0]), ColorRGB([2, 2, 2]), ColorRGB([1, 1, 1])];
    assert_eq!(find_closest_lab_color(&RgbSpace, &ColorRGB([1, 1, 1]), &values), 2);
    let tie = [ColorRGB([0, 0, 0]), ColorRGB([2, 2, 2])];
    assert_eq!(find_closest_lab_color(&RgbSpace, &ColorRGB([1, 1, 1]), &tie), 0);
}
