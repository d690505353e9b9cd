//! Images of 8-bit colors, and the processing that renders them with a palette.
use vstd::prelude::*;
use crate::color::{ColorRGB, ColorSpace, RgbSpace, rgb_dist_sq};
use crate::dither::{DiffusionWeights, dithered, dithering_floyd_steinberg_rgb};
use crate::kernel::{KernelError, lemma_position};
use crate::palette::{
    PaletteRGB, closest_by_rgb, nearest_index, closest_in_space, lemma_nearest_in_palette, nearest_by_space,
    perceive_all, perceived,
    lemma_palette_order_is_canonical, lemma_position_of_member, lemma_sorted_distinct,
    search_position, sorted_strictly,
};

verus! {

/// An image of `width × height` colors, stored row by row.
#[derive(Debug)]
pub struct RgbImage {
    width: u32,
    height: u32,
    pixels: Vec<ColorRGB>,
}

impl Clone for RgbImage {
    fn clone(&self) -> (r: Self)
        ensures
            r.spec_width() == self.spec_width(),
            r.spec_height() == self.spec_height(),
            r.spec_pixels() == self.spec_pixels(),
    {
        proof {
            use_type_invariant(self);
        }
        let v = self.pixels.clone();
        proof {
            assert(v@ =~= self.pixels@);
        }
        RgbImage { width: self.width, height: self.height, pixels: v }
    }
}

impl RgbImage {
    #[verifier::type_invariant]
    spec fn inv(self) -> bool {
        self.pixels@.len() == self.width as int * self.height as int
    }

    pub closed spec fn spec_width(&self) -> nat {
        self.width as nat
    }

    pub closed spec fn spec_height(&self) -> nat {
        self.height as nat
    }

    /// The pixels, row by row.
    pub closed spec fn spec_pixels(&self) -> Seq<ColorRGB> {
        self.pixels@
    }

    /// A black image of the given size.
    pub fn new(width: u32, height: u32) -> (r: RgbImage)
        ensures
            r.spec_width() == width,
            r.spec_height() == height,
            r.spec_pixels() == Seq::new((width * height) as nat, |i: int| ColorRGB([0, 0, 0])),
    {
        proof {
            lemma_size_fits(width, height);
        }
        let n = (width as u64) * (height as u64);
        let mut pixels: Vec<ColorRGB> = Vec::new();
        let mut i: u64 = 0;
        while i < n
            invariant
                i <= n,
                pixels@ == Seq::new(i as nat, |k: int| ColorRGB([0, 0, 0])),
            decreases n - i,
        {
            pixels.push(ColorRGB([0, 0, 0]));
            i += 1;
            proof {
                assert(pixels@ =~= Seq::new(i as nat, |k: int| ColorRGB([0, 0, 0])));
            }
        }
        RgbImage { width, height, pixels }
    }

    /// An image of the given size from its pixels, row by row; `None` when
    /// their number is not `width * height`.
    pub fn from_pixels(width: u32, height: u32, pixels: Vec<ColorRGB>) -> (r: Option<RgbImage>)
        ensures
            pixels@.len() != width * height <==> r is None,
            r matches Some(img) ==> img.spec_width() == width && img.spec_height() == height
                && img.spec_pixels() == pixels@,
    {
        proof {
            lemma_size_fits(width, height);
        }
        if pixels.len() as u64 != (width as u64) * (height as u64) {
            None
        } else {
            Some(RgbImage { width, height, pixels })
        }
    }

    /// Width in pixels.
    pub fn width(&self) -> (r: u32)
        ensures
            r == self.spec_width(),
    {
        self.width
    }

    /// Height in pixels.
    pub fn height(&self) -> (r: u32)
        ensures
            r == self.spec_height(),
    {
        self.height
    }

    /// The pixels, row by row.
    pub fn pixels(&self) -> (r: &Vec<ColorRGB>)
        ensures
            r@ == self.spec_pixels(),
            r@.len() == self.spec_width() * self.spec_height(),
    {
        proof {
            use_type_invariant(self);
        }
        &self.pixels
    }

    /// The pixel at column `x` of row `y`.
    pub fn get_pixel(&self, x: u32, y: u32) -> (r: ColorRGB)
        requires
            x < self.spec_width(),
            y < self.spec_height(),
        ensures
            r == self.spec_pixels()[y * self.spec_width() + x],
    {
        proof {
            use_type_invariant(self);
        }
        let n = self.pixels.len();
        proof {
            assert(y * self.spec_width() <= y * self.spec_width() + x < self.spec_width() * self.spec_height())
                by (nonlinear_arith)
                requires
                    x < self.spec_width(),
                    y < self.spec_height(),
            ;
        }
        self.pixels[(y as usize) * (self.width as usize) + (x as usize)]
    }
}

proof fn lemma_size_fits(width: u32, height: u32)
    ensures
        0 <= width * height <= u64::MAX,
{
    assert(0 <= width * height <= 0xffff_ffff * 0xffff_ffff) by (nonlinear_arith)
        requires
            0 <= width <= 0xffff_ffff,
            0 <= height <= 0xffff_ffff,
    ;
}

/// Channel `x` of `w` along a ramp from `a` to `b`: the weighted mean
/// `((w - 1 - x) * a + x * b) / (w - 1)`, rounded half away from zero; a
/// one-column ramp holds `a`.
pub open spec fn ramp_channel(a: int, b: int, x: int, w: int) -> int {
    if w <= 1 {
        a
    } else {
        (2 * ((w - 1 - x) * a + x * b) + (w - 1)) / (2 * (w - 1))
    }
}

/// The color of column `x` of a `w`-column ramp from `from` to `to`.
pub open spec fn ramp_color(from: ColorRGB, to: ColorRGB, x: int, w: int) -> ColorRGB {
    ColorRGB(
        [
            ramp_channel(from.r(), to.r(), x, w) as u8,
            ramp_channel(from.g(), to.g(), x, w) as u8,
            ramp_channel(from.b(), to.b(), x, w) as u8,
        ],
    )
}

fn mix_channel(a: u8, b: u8, x: u32, width: u32) -> (r: u8)
    requires
        x < width,
    ensures
        r == ramp_channel(a as int, b as int, x as int, width as int),
        0 <= ramp_channel(a as int, b as int, x as int, width as int) <= 255,
{
    if width <= 1 {
        return a;
    }
    let d = (width - 1) as u64;
    let xs = x as u64;
    proof {
        assert((d - xs) * a <= d * 255 && xs * b <= d * 255 && d * 255 <= 0xffff_ffff * 255)
            by (nonlinear_arith)
            requires
                0 <= xs <= d <= 0xffff_ffff,
                0 <= a <= 255,
                0 <= b <= 255,
        ;
    }
    let num = 2 * ((d - xs) * (a as u64) + xs * (b as u64)) + d;
    proof {
        let lo = if a < b { a as int } else { b as int };
        let hi = if a < b { b as int } else { a as int };
        assert((d - xs) * a + xs * b <= d * hi) by (nonlinear_arith)
            requires
                0 <= xs <= d,
                0 <= a <= hi,
                0 <= b <= hi,
        ;
        assert(d * hi <= d * 255) by (nonlinear_arith)
            requires
                0 <= d,
                hi <= 255,
        ;
        assert(2 * (d * 255) + d < 2 * d * 256) by (nonlinear_arith)
            requires
                d >= 1,
        ;
        vstd::arithmetic::div_mod::lemma_div_is_ordered(num as int, 2 * d * 256 - 1, 2 * d as int);
        assert((2 * d * 256 - 1) / (2 * d as int) < 256) by {
            vstd::arithmetic::div_mod::lemma_div_by_multiple(256, 2 * d as int);
            vstd::arithmetic::div_mod::lemma_div_is_ordered(2 * d * 256 - 1, 2 * d * 256, 2 * d as int);
            vstd::arithmetic::div_mod::lemma_fundamental_div_mod(2 * d * 256 - 1, 2 * d as int);
            assert((2 * d * 256 - 1) / (2 * d as int) != 256) by (nonlinear_arith)
                requires
                    2 * d * 256 - 1 == (2 * d) * ((2 * d * 256 - 1) / (2 * d as int)) + (2 * d
                        * 256 - 1) % (2 * d as int),
                    0 <= (2 * d * 256 - 1) % (2 * d as int),
                    d >= 1,
            ;
        }
        vstd::arithmetic::div_mod::lemma_div_pos_is_pos(num as int, 2 * d as int);
    }
    (num / (2 * d)) as u8
}

/// A horizontal ramp from `from_color` at the left edge to `to_color` at the
/// right edge, the same in every row.
pub fn generate_test_gradient_image(
    width: u32,
    height: u32,
    from_color: ColorRGB,
    to_color: ColorRGB,
) -> (r: RgbImage)
    requires
        width > 0,
        height > 0,
    ensures
        r.spec_width() == width,
        r.spec_height() == height,
        r.spec_pixels().len() == width * height,
        forall|x: int, y: int|
            0 <= x < width && 0 <= y < height ==> #[trigger] r.spec_pixels()[y * width + x]
                == ramp_color(from_color, to_color, x, width as int),
{
    let mut row: Vec<ColorRGB> = Vec::new();
    let mut x: u32 = 0;
    while x < width
        invariant
            x <= width,
            row@.len() == x,
            forall|k: int| 0 <= k < x ==> #[trigger] row@[k] == ramp_color(from_color, to_color, k, width as int),
        decreases width - x,
    {
        let c = ColorRGB(
            [
                mix_channel(from_color.0[0], to_color.0[0], x, width),
                mix_channel(from_color.0[1], to_color.0[1], x, width),
                mix_channel(from_color.0[2], to_color.0[2], x, width),
            ],
        );
        row.push(c);
        x += 1;
    }
    let mut pixels: Vec<ColorRGB> = Vec::new();
    let mut y: u32 = 0;
    while y < height
        invariant
            y <= height,
            row@.len() == width,
            pixels@.len() == y * width,
            forall|k: int| 0 <= k < width ==> #[trigger] row@[k] == ramp_color(from_color, to_color, k, width as int),
            forall|p: int| 0 <= p < y * width ==> #[trigger] pixels@[p] == row@[p % width as int],
        decreases height - y,
    {
        let mut x: usize = 0;
        while x < row.len()
            invariant
                x <= width,
                row@.len() == width,
                y < height,
                pixels@.len() == y * width + x,
                forall|p: int| 0 <= p < y * width + x ==> #[trigger] pixels@[p] == row@[p % width as int],
            decreases width - x,
        {
            proof {
                vstd::arithmetic::div_mod::lemma_fundamental_div_mod_converse(y * width + x, width as int, y as int, x as int);
            }
            pixels.push(row[x]);
            x += 1;
        }
        proof {
            assert(y * width + width == (y + 1) * width) by (nonlinear_arith);
        }
        y += 1;
    }
    proof {
        assert(height * width == width * height) by (nonlinear_arith);
        assert forall|x: int, y: int| 0 <= x < width && 0 <= y < height implies #[trigger] pixels@[y * width + x]
            == ramp_color(from_color, to_color, x, width as int) by {
            assert(0 <= y * width + x < height * width) by (nonlinear_arith)
                requires
                    0 <= x < width,
                    0 <= y < height,
            ;
            vstd::arithmetic::div_mod::lemma_fundamental_div_mod_converse(y * width + x, width as int, y, x);
        }
    }
    RgbImage { width, height, pixels }
}

/// Each pixel's nearest palette color in RGB space, the first one on ties.
pub open spec fn thresholded_by_rgb(src: Seq<ColorRGB>, pal: Seq<ColorRGB>) -> Seq<ColorRGB> {
    src.map_values(|c: ColorRGB| closest_by_rgb(pal, c))
}

/// A column of a black-to-white ramp goes to black under black-and-white
/// thresholding when it lies in the left half, and to white in the right half.
proof fn lemma_ramp_column(w: int, x: int)
    requires
        w >= 2,
        0 <= x < w,
    ensures
        x < w / 2 ==> closest_by_rgb(
            seq![ColorRGB([0, 0, 0]), ColorRGB([255, 255, 255])],
            ramp_color(ColorRGB([0, 0, 0]), ColorRGB([255, 255, 255]), x, w),
        ) == ColorRGB([0, 0, 0]),
        x >= w - w / 2 ==> closest_by_rgb(
            seq![ColorRGB([0, 0, 0]), ColorRGB([255, 255, 255])],
            ramp_color(ColorRGB([0, 0, 0]), ColorRGB([255, 255, 255]), x, w),
        ) == ColorRGB([255, 255, 255]),
{
    let black = ColorRGB([0, 0, 0]);
    let white = ColorRGB([255, 255, 255]);
    let pal = seq![black, white];
    assert(black.r() == 0 && black.g() == 0 && black.b() == 0);
    assert(white.r() == 255 && white.g() == 255 && white.b() == 255);
    let d = 2 * (w - 1);
    let num = 2 * ((w - 1 - x) * 0 + x * 255) + (w - 1);
    let v = num / d;
    assert(ramp_channel(0, 255, x, w) == v);
    vstd::arithmetic::div_mod::lemma_fundamental_div_mod(num, d);
    vstd::arithmetic::div_mod::lemma_mod_pos_bound(num, d);
    let c = ramp_color(black, white, x, w);
    if x < w / 2 {
        assert(2 * x <= w - 2);
        assert(num < 128 * d);
        assert(v < 128) by (nonlinear_arith)
            requires
                num == d * v + num % d,
                0 <= num % d,
                num < 128 * d,
                d > 0,
        ;
        assert(v >= 0) by (nonlinear_arith)
            requires
                num == d * v + num % d,
                num % d < d,
                num >= 0,
                d > 0,
        ;
        assert(c.r() == v && c.g() == v && c.b() == v);
        assert(rgb_dist_sq(c, white) >= rgb_dist_sq(c, black)) by (nonlinear_arith)
            requires
                0 <= v < 128,
                rgb_dist_sq(c, white) == (v - 255) * (v - 255) + (v - 255) * (v - 255) + (v - 255)
                    * (v - 255),
                rgb_dist_sq(c, black) == v * v + v * v + v * v,
        ;
    }
    if x >= w - w / 2 {
        assert(2 * x >= w);
        assert(num >= 128 * d);
        assert(v >= 128) by (nonlinear_arith)
            requires
                num == d * v + num % d,
                num % d < d,
                num >= 128 * d,
                d > 0,
        ;
        assert(v <= 255) by (nonlinear_arith)
            requires
                num == d * v + num % d,
                0 <= num % d,
                num <= 510 * (w - 1) + (w - 1),
                d == 2 * (w - 1),
                w >= 2,
        ;
        assert(c.r() == v && c.g() == v && c.b() == v);
        assert(rgb_dist_sq(c, white) < rgb_dist_sq(c, black)) by (nonlinear_arith)
            requires
                128 <= v <= 255,
                rgb_dist_sq(c, white) == (v - 255) * (v - 255) + (v - 255) * (v - 255) + (v - 255)
                    * (v - 255),
                rgb_dist_sq(c, black) == v * v + v * v + v * v,
        ;
    }
    assert(pal[0] == black && pal[1] == white);
    let dist = |p: ColorRGB| rgb_dist_sq(c, p);
    assert(nearest_index(pal, dist, 1) == 0);
    assert(nearest_index(pal, dist, 2) == if dist(white) < dist(black) {
        1int
    } else {
        0int
    });
    assert(pal.len() == 2);
}

/// Thresholding a black-to-white ramp of `w × h` pixels (`pixels`, as
/// `generate_test_gradient_image` makes it) with black and white turns every
/// column of the left half black and every column of the right half white,
/// and leaves exactly black and white in the image, so that a palette drawn
/// from the result is black and white.
pub proof fn lemma_ramp_thresholding(
    w: int,
    h: int,
    pixels: Seq<ColorRGB>,
    bw: Seq<ColorRGB>,
    out: Seq<ColorRGB>,
)
    requires
        w >= 2,
        h >= 1,
        pixels.len() == w * h,
        forall|x: int, y: int|
            0 <= x < w && 0 <= y < h ==> #[trigger] pixels[y * w + x] == ramp_color(
                ColorRGB([0, 0, 0]),
                ColorRGB([255, 255, 255]),
                x,
                w,
            ),
        bw == seq![ColorRGB([0, 0, 0]), ColorRGB([255, 255, 255])],
        out == thresholded_by_rgb(pixels, bw),
    ensures
        forall|x: int, y: int|
            0 <= x < w / 2 && 0 <= y < h ==> #[trigger] out[y * w + x] == ColorRGB([0, 0, 0]),
        forall|x: int, y: int|
            w - w / 2 <= x < w && 0 <= y < h ==> #[trigger] out[y * w + x] == ColorRGB(
                [255, 255, 255],
            ),
        out.to_set() == bw.to_set(),
        forall|p: Seq<ColorRGB>| sorted_strictly(p) && p.to_set() == out.to_set() ==> p == bw,
{
    let black = ColorRGB([0, 0, 0]);
    let white = ColorRGB([255, 255, 255]);
    assert forall|x: int, y: int| 0 <= x < w && 0 <= y < h implies #[trigger] out[y * w + x]
        == closest_by_rgb(bw, ramp_color(black, white, x, w)) by {
        lemma_position(w, h, x, y);
        assert(pixels[y * w + x] == ramp_color(black, white, x, w));
    }
    assert forall|x: int, y: int| 0 <= x < w / 2 && 0 <= y < h implies #[trigger] out[y * w + x]
        == black by {
        lemma_ramp_column(w, x);
        assert(out[y * w + x] == closest_by_rgb(bw, ramp_color(black, white, x, w)));
    }
    assert forall|x: int, y: int| w - w / 2 <= x < w && 0 <= y < h implies #[trigger] out[y * w
        + x] == white by {
        lemma_ramp_column(w, x);
        assert(out[y * w + x] == closest_by_rgb(bw, ramp_color(black, white, x, w)));
    }
    assert forall|c: ColorRGB| out.to_set().contains(c) <==> bw.to_set().contains(c) by {
        if out.to_set().contains(c) {
            let i = choose|i: int| 0 <= i < out.len() && out[i] == c;
            lemma_nearest_in_palette(bw, |p: ColorRGB| rgb_dist_sq(pixels[i], p));
            assert(out[i] == closest_by_rgb(bw, pixels[i]));
        }
        if bw.to_set().contains(c) {
            let j = choose|j: int| 0 <= j < bw.len() && bw[j] == c;
            lemma_position(w, h, 0, 0);
            lemma_position(w, h, w - 1, 0);
            if j == 0 {
                assert(out[0 * w + 0] == black);
                assert(out.to_set().contains(out[0 * w + 0]));
            } else {
                assert(out[0 * w + (w - 1)] == white);
                assert(out.to_set().contains(out[0 * w + (w - 1)]));
            }
        }
    }
    assert(out.to_set() =~= bw.to_set());
    assert(sorted_strictly(bw)) by {
        assert(bw[0] == black && bw[1] == white);
    }
    assert forall|p: Seq<ColorRGB>| sorted_strictly(p) && p.to_set() == out.to_set() implies p
        == bw by {
        lemma_palette_order_is_canonical(p, bw);
    }
}

/// Replaces every pixel by its nearest palette color in RGB space, the first
/// one on ties.
pub fn thresholding_rgb(source_image: RgbImage, palette: PaletteRGB) -> (r: RgbImage)
    requires
        palette@.len() > 0,
    ensures
        r.spec_width() == source_image.spec_width(),
        r.spec_height() == source_image.spec_height(),
        r.spec_pixels().len() == source_image.spec_pixels().len(),
        r.spec_pixels() == thresholded_by_rgb(source_image.spec_pixels(), palette@),
        forall|i: int| 0 <= i < r.spec_pixels().len() ==> palette@.contains(#[trigger] r.spec_pixels()[i]),
{
    proof {
        use_type_invariant(&source_image);
    }
    let mut out: Vec<ColorRGB> = Vec::new();
    let mut i: usize = 0;
    while i < source_image.pixels.len()
        invariant
            i <= source_image.pixels@.len(),
            palette@.len() > 0,
            out@.len() == i,
            forall|k: int|
                0 <= k < i ==> #[trigger] out@[k] == closest_by_rgb(palette@, source_image.pixels@[k]),
        decreases source_image.pixels@.len() - i,
    {
        out.push(palette.find_closest_by_rgb(&source_image.pixels[i]));
        i += 1;
    }
    proof {
        assert forall|i: int| 0 <= i < out@.len() implies palette@.contains(#[trigger] out@[i]) by {
            let c = source_image.pixels@[i];
            lemma_nearest_in_palette(palette@, |p: ColorRGB| rgb_dist_sq(c, p));
        }
        assert(out@ =~= thresholded_by_rgb(source_image.pixels@, palette@));
    }
    RgbImage { width: source_image.width, height: source_image.height, pixels: out }
}

/// Replaces every pixel by its nearest palette color by the distance of
/// `space`, the first one on ties.
pub fn thresholding_lab<S: ColorSpace>(source_image: RgbImage, palette: PaletteRGB, space: &S) -> (r:
    RgbImage)
    requires
        palette@.len() > 0,
    ensures
        r.spec_width() == source_image.spec_width(),
        r.spec_height() == source_image.spec_height(),
        r.spec_pixels().len() == source_image.spec_pixels().len(),
        forall|i: int|
            0 <= i < r.spec_pixels().len() ==> nearest_by_space(
                space,
                source_image.spec_pixels()[i],
                palette@,
                #[trigger] r.spec_pixels()[i],
            ),
        forall|i: int| 0 <= i < r.spec_pixels().len() ==> palette@.contains(#[trigger] r.spec_pixels()[i]),
{
    proof {
        use_type_invariant(&source_image);
    }
    let colors = palette.colors();
    let values = perceive_all(space, colors);
    let mut out: Vec<ColorRGB> = Vec::new();
    let mut i: usize = 0;
    while i < source_image.pixels.len()
        invariant
            i <= source_image.pixels@.len(),
            colors@ == palette@,
            perceived(space, colors@, values@),
            palette@.len() > 0,
            out@.len() == i,
            forall|k: int|
                0 <= k < i ==> nearest_by_space(space, source_image.pixels@[k], palette@, #[trigger] out@[k]),
            forall|k: int| 0 <= k < i ==> palette@.contains(#[trigger] out@[k]),
        decreases source_image.pixels@.len() - i,
    {
        let c = closest_in_space(space, colors, &values, &source_image.pixels[i]);
        out.push(c);
        i += 1;
    }
    RgbImage { width: source_image.width, height: source_image.height, pixels: out }
}

/// `side * other / base`, rounded half away from zero: the length that keeps
/// the aspect ratio when one side becomes `side`.
pub open spec fn scaled_side(side: int, other: int, base: int) -> int {
    (2 * (side * other) + base) / (2 * base)
}

/// The size an image of `original_width × original_height` is resized to
/// when `width`, `height` or both are asked for: a side that is not given
/// keeps the aspect ratio, rounded to the nearest pixel. `None` when that side
/// cannot be computed (the side it scales against is zero) or does not fit
/// in `u32`.
pub fn reshape_dimensions(
    original_width: u32,
    original_height: u32,
    width: Option<u32>,
    height: Option<u32>,
) -> (r: Option<(u32, u32)>)
    ensures
        width.is_some() && height.is_some() ==> r == Some((width->Some_0, height->Some_0)),
        width.is_none() && height.is_none() ==> r == Some((original_width, original_height)),
        width.is_none() && height.is_some() ==> {
            let h = height->Some_0 as int;
            if original_height == 0 || scaled_side(h, original_width as int, original_height as int)
                > u32::MAX {
                r.is_none()
            } else {
                r == Some(
                    (
                        scaled_side(h, original_width as int, original_height as int) as u32,
                        h as u32,
                    ),
                )
            }
        },
        width.is_some() && height.is_none() ==> {
            let w = width->Some_0 as int;
            if original_width == 0 || scaled_side(w, original_height as int, original_width as int)
                > u32::MAX {
                r.is_none()
            } else {
                r == Some(
                    (
                        w as u32,
                        scaled_side(w, original_height as int, original_width as int) as u32,
                    ),
                )
            }
        },
{
    match (width, height) {
        (Some(w), Some(h)) => Some((w, h)),
        (None, None) => Some((original_width, original_height)),
        (None, Some(h)) => {
            if original_height == 0 {
                return None;
            }
            let scaled = scale_side(h, original_width, original_height);
            if scaled > u32::MAX as u128 {
                None
            } else {
                Some((scaled as u32, h))
            }
        },
        (Some(w), None) => {
            if original_width == 0 {
                return None;
            }
            let scaled = scale_side(w, original_height, original_width);
            if scaled > u32::MAX as u128 {
                None
            } else {
                Some((w, scaled as u32))
            }
        },
    }
}

fn scale_side(side: u32, other: u32, base: u32) -> (r: u128)
    requires
        base > 0,
    ensures
        r == scaled_side(side as int, other as int, base as int),
{
    proof {
        assert(0 <= side * other <= 0xffff_ffff * 0xffff_ffff) by (nonlinear_arith)
            requires
                0 <= side <= 0xffff_ffff,
                0 <= other <= 0xffff_ffff,
        ;
    }
    let product = (side as u128) * (other as u128);
    (2 * product + base as u128) / (2 * base as u128)
}

/// How many times `c` occurs in `s`.
pub open spec fn occurrences(s: Seq<ColorRGB>, c: ColorRGB) -> nat
    decreases s.len(),
{
    if s.len() == 0 {
        0
    } else {
        occurrences(s.drop_last(), c) + if s.last() == c {
            1nat
        } else {
            0nat
        }
    }
}

proof fn lemma_occurrences_bound(s: Seq<ColorRGB>, c: ColorRGB)
    ensures
        occurrences(s, c) <= s.len(),
    decreases s.len(),
{
    if s.len() > 0 {
        lemma_occurrences_bound(s.drop_last(), c);
    }
}

/// The distinct colors of `src_img`, in palette order, each with the number
/// of pixels that have it.
pub fn count_image_colors(src_img: &RgbImage) -> (r: Vec<(ColorRGB, usize)>)
    ensures
        sorted_strictly(r@.map_values(|e: (ColorRGB, usize)| e.0)),
        r@.map_values(|e: (ColorRGB, usize)| e.0).to_set() == src_img.spec_pixels().to_set(),
        forall|j: int|
            0 <= j < r@.len() ==> (#[trigger] r@[j]).1 == occurrences(
                src_img.spec_pixels(),
                r@[j].0,
            ),
{
    let palette = PaletteRGB::from_rgbu8_image(src_img);
    let colors = palette.colors();
    let pixels = src_img.pixels();
    let k = colors.len();
    let mut counts: Vec<usize> = Vec::new();
    let mut j: usize = 0;
    while j < k
        invariant
            j <= k,
            k == colors@.len(),
            counts@.len() == j,
            forall|m: int| 0 <= m < j ==> #[trigger] counts@[m] == 0,
        decreases k - j,
    {
        counts.push(0);
        j += 1;
    }
    let mut i: usize = 0;
    while i < pixels.len()
        invariant
            i <= pixels@.len(),
            k == colors@.len(),
            sorted_strictly(colors@),
            colors@.to_set() == pixels@.to_set(),
            counts@.len() == k,
            forall|m: int|
                0 <= m < k ==> #[trigger] counts@[m] == occurrences(pixels@.take(i as int), colors@[m]),
        decreases pixels@.len() - i,
    {
        let c = pixels[i];
        let p = search_position(colors, &c);
        proof {
            assert(pixels@.to_set().contains(c)) by {
                assert(pixels@[i as int] == c);
            }
            assert(colors@.to_set().contains(c));
            lemma_position_of_member(colors@, c, p as int);
            lemma_occurrences_bound(pixels@.take(i as int), c);
            assert(pixels@.take(i + 1).drop_last() == pixels@.take(i as int));
            assert forall|m: int| 0 <= m < k && m != p implies colors@[m] != c by {
                lemma_sorted_distinct(colors@, m, p as int);
            }
        }
        let n = counts[p];
        counts.set(p, n + 1);
        i += 1;
    }
    proof {
        assert(pixels@.take(pixels@.len() as int) == pixels@);
    }
    let mut out: Vec<(ColorRGB, usize)> = Vec::new();
    let mut j: usize = 0;
    while j < k
        invariant
            j <= k,
            k == colors@.len(),
            counts@.len() == k,
            forall|m: int| 0 <= m < k ==> #[trigger] counts@[m] == occurrences(pixels@, colors@[m]),
            out@.len() == j,
            forall|m: int| 0 <= m < j ==> #[trigger] out@[m] == (colors@[m], counts@[m]),
        decreases k - j,
    {
        out.push((colors[j], counts[j]));
        j += 1;
    }
    proof {
        assert(out@.map_values(|e: (ColorRGB, usize)| e.0) =~= colors@);
    }
    out
}

/// How a processor renders an image with its palette.
#[derive(Debug, Clone, Copy, PartialEq, Eq, Structural)]
pub enum ProcessingAlgorithm {
    /// Nearest palette color in RGB space.
    ThresholdingRgb,
    /// Nearest palette color by the distance of the processor's color space.
    ThresholdingLab,
    /// Floyd–Steinberg error diffusion.
    FloydSteinbergRgb,
}

/// Renders `source_image` with `palette` by `algorithm`.
pub fn processing<S: ColorSpace>(
    source_image: RgbImage,
    palette: PaletteRGB,
    algorithm: ProcessingAlgorithm,
    weights: DiffusionWeights,
    space: &S,
) -> (r: Result<RgbImage, KernelError>)
    requires
        palette@.len() > 0,
        weights.valid(),
    ensures
        algorithm == ProcessingAlgorithm::ThresholdingRgb ==> (r matches Ok(img) && img.spec_width()
            == source_image.spec_width() && img.spec_height() == source_image.spec_height()
            && img.spec_pixels() == thresholded_by_rgb(source_image.spec_pixels(), palette@)),
        algorithm == ProcessingAlgorithm::ThresholdingLab ==> (r matches Ok(img) && img.spec_width()
            == source_image.spec_width() && img.spec_height() == source_image.spec_height()
            && img.spec_pixels().len() == source_image.spec_pixels().len() && forall|i: int|
            0 <= i < img.spec_pixels().len() ==> nearest_by_space(
                space,
                source_image.spec_pixels()[i],
                palette@,
                #[trigger] img.spec_pixels()[i],
            )),
        algorithm == ProcessingAlgorithm::FloydSteinbergRgb ==> {
            &&& (source_image.spec_width() < 2 || source_image.spec_height() < 2) <==> r is Err
            &&& r matches Ok(img) ==> img.spec_width() == source_image.spec_width()
                && img.spec_height() == source_image.spec_height() && img.spec_pixels()
                == dithered(
                source_image.spec_pixels(),
                source_image.spec_width() as int,
                source_image.spec_height() as int,
                palette@,
                weights,
            )
        },
{
    match algorithm {
        ProcessingAlgorithm::ThresholdingRgb => Ok(thresholding_rgb(source_image, palette)),
        ProcessingAlgorithm::ThresholdingLab => Ok(thresholding_lab(source_image, palette, space)),
        ProcessingAlgorithm::FloydSteinbergRgb => dithering_floyd_steinberg_rgb(
            source_image,
            palette,
            weights,
        ),
    }
}

/// An image, a palette, and the way to render the one with the other.
#[derive(Debug)]
pub struct ImageProcessor<S> {
    source_image: RgbImage,
    palette: PaletteRGB,
    algorithm: ProcessingAlgorithm,
    weights: DiffusionWeights,
    space: S,
}

impl<S> ImageProcessor<S> {
    pub closed spec fn spec_source(&self) -> RgbImage {
        self.source_image
    }

    pub closed spec fn spec_palette(&self) -> Seq<ColorRGB> {
        self.palette@
    }

    pub closed spec fn spec_algorithm(&self) -> ProcessingAlgorithm {
        self.algorithm
    }

    pub closed spec fn spec_weights(&self) -> DiffusionWeights {
        self.weights
    }

    pub closed spec fn spec_space(&self) -> S {
        self.space
    }
}

impl ImageProcessor<RgbSpace> {
    /// A processor that thresholds in RGB space, with the default diffusion
    /// weights should diffusion be chosen.
    pub fn new(source_image: RgbImage, palette: PaletteRGB) -> (r: ImageProcessor<RgbSpace>)
        ensures
            r.spec_source() == source_image,
            r.spec_palette() == palette@,
            r.spec_algorithm() == ProcessingAlgorithm::ThresholdingRgb,
            r.spec_weights() == DiffusionWeights::spec_default(),
            r.spec_space() == RgbSpace,
    {
        ImageProcessor {
            source_image,
            palette,
            algorithm: ProcessingAlgorithm::ThresholdingRgb,
            weights: DiffusionWeights::damped(),
            space: RgbSpace,
        }
    }
}

impl<S: ColorSpace> ImageProcessor<S> {
    /// The same processor with another algorithm.
    pub fn with_algorithm(self, algorithm: ProcessingAlgorithm) -> (r: Self)
        ensures
            r.spec_source() == self.spec_source(),
            r.spec_palette() == self.spec_palette(),
            r.spec_algorithm() == algorithm,
            r.spec_weights() == self.spec_weights(),
            r.spec_space() == self.spec_space(),
    {
        ImageProcessor { algorithm, ..self }
    }

    /// The same processor with other diffusion weights.
    pub fn with_weights(self, weights: DiffusionWeights) -> (r: Self)
        ensures
            r.spec_source() == self.spec_source(),
            r.spec_palette() == self.spec_palette(),
            r.spec_algorithm() == self.spec_algorithm(),
            r.spec_weights() == weights,
            r.spec_space() == self.spec_space(),
    {
        ImageProcessor { weights, ..self }
    }

    /// The same processor measuring perceptual distance in `space`.
    pub fn with_color_space<T: ColorSpace>(self, space: T) -> (r: ImageProcessor<T>)
        ensures
            r.spec_space() == space,
            r.spec_source() == self.spec_source(),
            r.spec_palette() == self.spec_palette(),
            r.spec_algorithm() == self.spec_algorithm(),
            r.spec_weights() == self.spec_weights(),
    {
        ImageProcessor {
            source_image: self.source_image,
            palette: self.palette,
            algorithm: self.algorithm,
            weights: self.weights,
            space,
        }
    }

    /// Renders the image as `processing` does.
    pub fn run(self) -> (r: Result<RgbImage, KernelError>)
        requires
            self.spec_palette().len() > 0,
            self.spec_weights().valid(),
        ensures
            self.spec_algorithm() == ProcessingAlgorithm::ThresholdingRgb ==> (r matches Ok(img)
                && img.spec_width() == self.spec_source().spec_width() && img.spec_height()
                == self.spec_source().spec_height() && img.spec_pixels() == thresholded_by_rgb(
                self.spec_source().spec_pixels(),
                self.spec_palette(),
            )),
            self.spec_algorithm() == ProcessingAlgorithm::ThresholdingLab ==> (r matches Ok(img)
                && img.spec_width() == self.spec_source().spec_width() && img.spec_height()
                == self.spec_source().spec_height() && img.spec_pixels().len()
                == self.spec_source().spec_pixels().len() && forall|i: int|
                0 <= i < img.spec_pixels().len() ==> nearest_by_space(
                    &self.spec_space(),
                    self.spec_source().spec_pixels()[i],
                    self.spec_palette(),
                    #[trigger] img.spec_pixels()[i],
                )),
            self.spec_algorithm() == ProcessingAlgorithm::FloydSteinbergRgb ==> {
                &&& (self.spec_source().spec_width() < 2 || self.spec_source().spec_height() < 2)
                    <==> r is Err
                &&& r matches Ok(img) ==> img.spec_width() == self.spec_source().spec_width()
                    && img.spec_height() == self.spec_source().spec_height() && img.spec_pixels()
                    == dithered(
                    self.spec_source().spec_pixels(),
                    self.spec_source().spec_width() as int,
                    self.spec_source().spec_height() as int,
                    self.spec_palette(),
                    self.spec_weights(),
                )
            },
    {
        processing(self.source_image, self.palette, self.algorithm, self.weights, &self.space)
    }
}

} // verus!
