use ditherum::color::{ColorRGB, RgbSpace};
use ditherum::dither::{dithering_floyd_steinberg_rgb, DiffusionWeights};
use ditherum::image::{
    count_image_colors, generate_test_gradient_image, processing, reshape_dimensions,
    thresholding_lab, thresholding_rgb, ImageProcessor, ProcessingAlgorithm, RgbImage,
};
use ditherum::kernel::KernelError;
use ditherum::palette::PaletteRGB;

#[test]
fn test_processing_gradient_image() {
    let (width, height) = (200, 80);
    let source_image =
        generate_test_gradient_image(width, height, ColorRGB([0, 0, 0]), ColorRGB([0, 0, 255]));
    let palette = PaletteRGB::primary();

    let processing_result = ImageProcessor::new(source_image, palette).run().unwrap();
    assert_eq!(processing_result.width(), width);
    assert_eq!(processing_result.height(), height);
}

#[test]
fn test_thresholding_rgb_gradient_image() {
    let (width, height) = (200, 80);
    let gradient_image =
        generate_test_gradient_image(width, height, ColorRGB([0, 0, 0]), ColorRGB([0, 0, 255]));
    let palette = PaletteRGB::grayscale(30);

    let processing_result = ImageProcessor::new(gradient_image, palette)
        .with_algorithm(ProcessingAlgorithm::ThresholdingRgb)
        .run()
        .unwrap();
    assert_eq!(processing_result.width(), width);
    assert_eq!(processing_result.height(), height);
}

#[test]
fn gradient_runs_from_first_to_last_color() {
    let img = generate_test_gradient_image(5, 2, ColorRGB([0, 0, 0]), ColorRGB([100, 200, 255]));
    assert_eq!(img.get_pixel(0, 1), ColorRGB([0, 0, 0]));
    assert_eq!(img.get_pixel(1, 0), ColorRGB([25, 50, 64]));
    assert_eq!(img.get_pixel(2, 1), ColorRGB([50, 100, 128]));
    assert_eq!(img.get_pixel(4, 0), ColorRGB([100, 200, 255]));
}

#[test]
fn one_column_gradient_holds_the_first_color() {
    let img = generate_test_gradient_image(1, 3, ColorRGB([9, 8, 7]), ColorRGB([0, 0, 0]));
    assert_eq!(img.pixels(), &vec![ColorRGB([9, 8, 7]); 3]);
}

#[test]
fn black_white_gradient_thresholds_to_black_left_and_white_right() {
    let (width, height) = (200u32, 80u32);
    let img = generate_test_gradient_image(width, height, ColorRGB([0, 0, 0]), ColorRGB([255, 255, 255]));
    let out = thresholding_rgb(img, PaletteRGB::black_and_white());
    let black = ColorRGB([0, 0, 0]);
    let white = ColorRGB([255, 255, 255]);
    let count = |xs: std::ops::Range<u32>, c: ColorRGB| {
        let mut n = 0;
        for y in 0..height {
            for x in xs.clone() {
                if out.get_pixel(x, y) == c {
                    n += 1;
                }
            }
        }
        n
    };
    let half = (width / 2) * height;
    assert!(count(0..width / 2, black) * 2 > half);
    assert!(count(width / 2..width, white) * 2 > half);
    assert_eq!(PaletteRGB::from_rgbu8_image(&out).len(), 2);
}

#[test]
fn thresholding_uses_only_palette_colors() {
    let img = generate_test_gradient_image(64, 3, ColorRGB([10, 200, 30]), ColorRGB([250, 5, 120]));
    let palette = PaletteRGB::primary_bw();
    let out = thresholding_rgb(img.clone(), palette.clone());
    assert!(out.pixels().iter().all(|c| palette.contains(c)));
    let out = thresholding_lab(img, palette.clone(), &RgbSpace);
    assert!(out.pixels().iter().all(|c| palette.contains(c)));
}

#[test]
fn diffusion_keeps_the_image_size_and_uses_palette_colors() {
    let img = generate_test_gradient_image(31, 17, ColorRGB([0, 0, 0]), ColorRGB([255, 255, 255]));
    let palette = PaletteRGB::black_and_white();
    let out = dithering_floyd_steinberg_rgb(img, palette.clone(), DiffusionWeights::default()).unwrap();
    assert_eq!((out.width(), out.height()), (31, 17));
    assert!(out.pixels().iter().all(|c| palette.contains(c)));
}

#[test]
fn diffusion_spreads_the_error_to_the_neighbors() {
    let gray = ColorRGB([100, 100, 100]);
    let img = RgbImage::from_pixels(2, 2, vec![gray; 4]).unwrap();
    let out = dithering_floyd_steinberg_rgb(img, PaletteRGB::black_and_white(), DiffusionWeights::full())
        .unwrap();
    // The top-left pixel goes to black and passes on its error of 100:
    // 50 to the right, 27 below and 22 diagonally. The right pixel (150)
    // turns white, the lower one (127) black, and the last one ends at 156
    // and turns white.
    let black = ColorRGB([0, 0, 0]);
    let white = ColorRGB([255, 255, 255]);
    assert_eq!(out.pixels(), &vec![black, white, black, white]);
}

#[test]
fn diffusion_refuses_a_single_row() {
    let img = generate_test_gradient_image(5, 1, ColorRGB([0, 0, 0]), ColorRGB([255, 255, 255]));
    assert_eq!(
        dithering_floyd_steinberg_rgb(img, PaletteRGB::black_and_white(), DiffusionWeights::default())
            .err(),
        Some(KernelError::GridTooSmall { width: 5, height: 1 })
    );
}

#[test]
fn processing_dispatches_on_the_algorithm() {
    let img = generate_test_gradient_image(8, 4, ColorRGB([0, 0, 0]), ColorRGB([255, 255, 255]));
    let palette = PaletteRGB::black_and_white();
    let by_processing = processing(
        img.clone(),
        palette.clone(),
        ProcessingAlgorithm::ThresholdingRgb,
        DiffusionWeights::default(),
        &RgbSpace,
    )
    .unwrap();
    let direct = thresholding_rgb(img.clone(), palette.clone());
    assert_eq!(by_processing.pixels(), direct.pixels());
    let dithered = ImageProcessor::new(img, palette)
        .with_algorithm(ProcessingAlgorithm::FloydSteinbergRgb)
        .with_weights(DiffusionWeights::full())
        .run()
        .unwrap();
    assert_eq!(dithered.width(), 8);
}

#[test]
fn from_pixels_checks_the_pixel_count() {
    assert!(RgbImage::from_pixels(2, 2, vec![ColorRGB([0, 0, 0]); 3]).is_none());
    let img = RgbImage::new(3, 2);
    assert_eq!(img.pixels().len(), 6);
}

#[test]
fn reshape_keeps_the_aspect_ratio_of_a_missing_side() {
    assert_eq!(reshape_dimensions(300, 200, Some(90), None), Some((90, 60)));
    assert_eq!(reshape_dimensions(300, 200, None, Some(123)), Some((185, 123)));
    assert_eq!(reshape_dimensions(300, 200, Some(11), Some(7)), Some((11, 7)));
    assert_eq!(reshape_dimensions(300, 200, None, None), Some((300, 200)));
    assert_eq!(reshape_dimensions(0, 200, Some(5), None), None);
    assert_eq!(reshape_dimensions(1, u32::MAX, Some(u32::MAX), None), None);
}

#[test]
fn counting_colors_gives_each_distinct_color_once_with_its_count() {
    let black = ColorRGB([0, 0, 0]);
    let red = ColorRGB([255, 0, 0]);
    let img = RgbImage::from_pixels(3, 2, vec![red, black, red, red, black, red]).unwrap();
    assert_eq!(count_image_colors(&img), vec![(black, 2), (red, 4)]);
}

#[test]
fn thresholding_in_rgb_space_matches_rgb_thresholding() {
    let img = generate_test_gradient_image(40, 3, ColorRGB([10, 200, 30]), ColorRGB([250, 5, 120]));
    let palette = PaletteRGB::primary_bw();
    let by_space = thresholding_lab(img.clone(), palette.clone(), &RgbSpace);
    let direct = thresholding_rgb(img, palette);
    assert_eq!(by_space.pixels(), direct.pixels());
}

#[test]
fn black_white_ramp_splits_into_black_and_white_halves() {
    let (width, height) = (7u32, 2u32);
    let img = generate_test_gradient_image(width, height, ColorRGB([0, 0, 0]), ColorRGB([255, 255, 255]));
    let out = thresholding_rgb(img, PaletteRGB::grayscale(2));
    for y in 0..height {
        for x in 0..width / 2 {
            assert_eq!(out.get_pixel(x, y), ColorRGB([0, 0, 0]));
        }
        for x in width - width / 2..width {
            assert_eq!(out.get_pixel(x, y), ColorRGB([255, 255, 255]));
        }
    }
    assert_eq!(PaletteRGB::from_rgbu8_image(&out), PaletteRGB::black_and_white());
}
