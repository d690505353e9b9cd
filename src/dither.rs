//! Floyd–Steinberg error diffusion on working colors.
//!
//! At each window the top-left cell is replaced by its nearest palette color,
//! and the difference (the quantization error) is shared out to the three
//! other cells by the weights `tr`, `bl`, `br` over `denominator`. Shares are
//! truncated toward zero, and every channel is held within `±WORK_LIMIT`.
use vstd::prelude::*;
use crate::color::{ColorRGB, Srgb, WORK_LIMIT, clamp_int, rgbu8_to_srgb, srgb_of, srgb_to_rgbu8};
use crate::image::RgbImage;
use crate::kernel::{
    Grid, KernelError, MutKernel2x2, apply_2x2_kernel_processing, is_traversal, read_kernel,
    write_kernel, put, at, lemma_position, lemma_index_position,
};
use crate::palette::{PaletteRGB, closest_by_srgb};

verus! {

/// Error-diffusion weights: the shares of the quantization error that go to
/// the right, lower and lower-right neighbors are `tr`, `bl` and `br` over
/// `denominator`. Shares that sum to at most the denominator keep channels
/// from overshooting.
#[derive(Debug, Clone, Copy, PartialEq, Eq, Structural)]
pub struct DiffusionWeights {
    pub tr: u32,
    pub bl: u32,
    pub br: u32,
    pub denominator: u32,
}

impl DiffusionWeights {
    /// The weights can be applied: the denominator is not zero.
    pub open spec fn valid(self) -> bool {
        self.denominator > 0
    }

    /// The default weights: the damped split.
    pub open spec fn spec_default() -> DiffusionWeights {
        DiffusionWeights { tr: 15, bl: 25, br: 42, denominator: 180 }
    }

    /// The classic Floyd–Steinberg split folded onto a 2×2 window: 9, 5 and 4
    /// eighteenths, which pass on the whole error.
    pub fn full() -> (r: DiffusionWeights)
        ensures
            r == (DiffusionWeights { tr: 9, bl: 5, br: 4, denominator: 18 }),
    {
        DiffusionWeights { tr: 9, bl: 5, br: 4, denominator: 18 }
    }

    /// A damped split of 1.5, 2.5 and 4.2 eighteenths (15, 25 and 42 over
    /// 180), which passes on under half of the error and keeps large flat
    /// areas from saturating. This is the default.
    pub fn damped() -> (r: DiffusionWeights)
        ensures
            r == (DiffusionWeights { tr: 15, bl: 25, br: 42, denominator: 180 }),
    {
        DiffusionWeights { tr: 15, bl: 25, br: 42, denominator: 180 }
    }
}

impl Default for DiffusionWeights {
    fn default() -> (r: DiffusionWeights)
        ensures
            r == DiffusionWeights::spec_default(),
    {
        DiffusionWeights::damped()
    }
}

/// A channel held within `±WORK_LIMIT`.
pub open spec fn clamp_work(v: int) -> int {
    clamp_int(v, -WORK_LIMIT as int, WORK_LIMIT as int)
}

/// A working color with every channel held within `±WORK_LIMIT`.
pub open spec fn bounded(c: Srgb) -> Srgb {
    Srgb {
        red: clamp_work(c.red as int) as i32,
        green: clamp_work(c.green as int) as i32,
        blue: clamp_work(c.blue as int) as i32,
    }
}

/// `num / den` of `e`, truncated toward zero.
pub open spec fn share(e: int, num: int, den: int) -> int {
    if e >= 0 {
        e * num / den
    } else {
        -((-e) * num / den)
    }
}

/// Neighbor `n` after receiving its share `num / den` of the error `(er, eg, eb)`.
pub open spec fn receive(n: Srgb, er: int, eg: int, eb: int, num: int, den: int) -> Srgb {
    Srgb {
        red: clamp_work(n.red + share(er, num, den)) as i32,
        green: clamp_work(n.green + share(eg, num, den)) as i32,
        blue: clamp_work(n.blue + share(eb, num, den)) as i32,
    }
}

/// Neighbor slot after receiving its share; a slot outside the grid stays empty.
pub open spec fn receive_slot(
    slot: Option<Srgb>,
    er: int,
    eg: int,
    eb: int,
    num: int,
    den: int,
) -> Option<Srgb> {
    match slot {
        Some(n) => Some(receive(n, er, eg, eb, num, den)),
        None => None,
    }
}

/// One diffusion step on a window.
pub open spec fn fs_step(
    k: MutKernel2x2<Srgb>,
    pal: Seq<ColorRGB>,
    wts: DiffusionWeights,
) -> MutKernel2x2<Srgb> {
    let tl = bounded(k.tl);
    let chosen = closest_by_srgb(pal, tl);
    let er = tl.red - chosen.r();
    let eg = tl.green - chosen.g();
    let eb = tl.blue - chosen.b();
    let d = wts.denominator as int;
    MutKernel2x2 {
        tl: srgb_of(chosen),
        tr: receive_slot(k.tr, er, eg, eb, wts.tr as int, d),
        bl: receive_slot(k.bl, er, eg, eb, wts.bl as int, d),
        br: receive_slot(k.br, er, eg, eb, wts.br as int, d),
    }
}

/// The grid `g0` after the first `n` diffusion steps in row-major order.
pub open spec fn diffused(
    g0: Seq<Srgb>,
    w: int,
    h: int,
    pal: Seq<ColorRGB>,
    wts: DiffusionWeights,
    n: nat,
) -> Seq<Srgb>
    decreases n,
{
    if n == 0 {
        g0
    } else {
        let prev = diffused(g0, w, h, pal, wts, (n - 1) as nat);
        let i = n - 1;
        write_kernel(prev, w, h, i % w, i / w, fs_step(read_kernel(prev, w, h, i % w, i / w), pal, wts))
    }
}

fn share_exec(e: i64, num: u32, den: u32) -> (r: i64)
    requires
        -2000000 <= e <= 2000000,
        den > 0,
    ensures
        r == share(e as int, num as int, den as int),
        -2000000 * 0x1_0000_0000 <= r <= 2000000 * 0x1_0000_0000,
{
    let mag: u64 = if e >= 0 {
        e as u64
    } else {
        (-e) as u64
    };
    proof {
        assert(mag * num <= 2000000 * 0xffff_ffff) by (nonlinear_arith)
            requires
                mag <= 2000000,
                num <= 0xffff_ffff,
        ;
    }
    let q = mag * (num as u64) / (den as u64);
    proof {
        let x = (mag * num) as int;
        vstd::arithmetic::div_mod::lemma_div_is_ordered_by_denominator(x, 1, den as int);
        vstd::arithmetic::div_mod::lemma_div_basics(x);
        vstd::arithmetic::div_mod::lemma_div_pos_is_pos(x, den as int);
    }
    if e >= 0 {
        q as i64
    } else {
        -(q as i64)
    }
}

fn clamp_work_exec(v: i64) -> (r: i32)
    ensures
        r == clamp_work(v as int),
{
    if v < -(WORK_LIMIT as i64) {
        -WORK_LIMIT
    } else if v > WORK_LIMIT as i64 {
        WORK_LIMIT
    } else {
        v as i32
    }
}

fn bound_exec(c: Srgb) -> (r: Srgb)
    ensures
        r == bounded(c),
        r.in_range(),
{
    Srgb {
        red: clamp_work_exec(c.red as i64),
        green: clamp_work_exec(c.green as i64),
        blue: clamp_work_exec(c.blue as i64),
    }
}

fn receive_exec(slot: Option<Srgb>, er: i64, eg: i64, eb: i64, num: u32, den: u32) -> (r: Option<
    Srgb,
>)
    requires
        -2000000 <= er <= 2000000,
        -2000000 <= eg <= 2000000,
        -2000000 <= eb <= 2000000,
        den > 0,
    ensures
        r == receive_slot(slot, er as int, eg as int, eb as int, num as int, den as int),
{
    match slot {
        Some(n) => Some(
            Srgb {
                red: clamp_work_exec(n.red as i64 + share_exec(er, num, den)),
                green: clamp_work_exec(n.green as i64 + share_exec(eg, num, den)),
                blue: clamp_work_exec(n.blue as i64 + share_exec(eb, num, den)),
            },
        ),
        None => None,
    }
}

/// One diffusion step: the top-left cell takes its nearest palette color and
/// the error is shared out to the other three cells.
fn diffusion_step(
    k: MutKernel2x2<Srgb>,
    palette: &PaletteRGB,
    weights: &DiffusionWeights,
) -> (r: MutKernel2x2<Srgb>)
    requires
        palette@.len() > 0,
        weights.valid(),
    ensures
        r == fs_step(k, palette@, *weights),
{
    let tl = bound_exec(k.tl);
    let chosen = palette.find_closest_by_srgb(&tl);
    let er = tl.red as i64 - chosen.0[0] as i64;
    let eg = tl.green as i64 - chosen.0[1] as i64;
    let eb = tl.blue as i64 - chosen.0[2] as i64;
    let d = weights.denominator;
    MutKernel2x2 {
        tl: rgbu8_to_srgb(chosen),
        tr: receive_exec(k.tr, er, eg, eb, weights.tr, d),
        bl: receive_exec(k.bl, er, eg, eb, weights.bl, d),
        br: receive_exec(k.br, er, eg, eb, weights.br, d),
    }
}

/// The pixels that diffusion renders from `src`, a `w × h` image: each the
/// nearest palette color of its cell once every step has been taken.
pub open spec fn dithered(
    src: Seq<ColorRGB>,
    w: int,
    h: int,
    pal: Seq<ColorRGB>,
    wts: DiffusionWeights,
) -> Seq<ColorRGB> {
    let d = diffused(src.map_values(|c: ColorRGB| srgb_of(c)), w, h, pal, wts, (w * h) as nat);
    Seq::new(src.len(), |i: int| closest_by_srgb(pal, d[i]))
}

/// Every channel of every cell lies within `±WORK_LIMIT`.
pub open spec fn all_in_range(cells: Seq<Srgb>) -> bool {
    forall|i: int| 0 <= i < cells.len() ==> (#[trigger] cells[i]).in_range()
}

/// Writing an in-range value into a grid of in-range cells keeps them all in range.
proof fn lemma_put_in_range(cells: Seq<Srgb>, w: int, h: int, x: int, y: int, v: Option<Srgb>)
    requires
        all_in_range(cells),
        cells.len() == w * h,
        v matches Some(c) ==> c.in_range(),
    ensures
        all_in_range(put(cells, w, h, x, y, v)),
        put(cells, w, h, x, y, v).len() == cells.len(),
{
    if 0 <= x < w && 0 <= y < h {
        lemma_position(w, h, x, y);
    }
}

/// Diffusion keeps the grid's size and every cell within the working range.
proof fn lemma_diffused_in_range(
    g0: Seq<Srgb>,
    w: int,
    h: int,
    pal: Seq<ColorRGB>,
    wts: DiffusionWeights,
    n: nat,
)
    requires
        all_in_range(g0),
        g0.len() == w * h,
        pal.len() > 0,
        w > 0,
        n <= w * h,
    ensures
        diffused(g0, w, h, pal, wts, n).len() == g0.len(),
        all_in_range(diffused(g0, w, h, pal, wts, n)),
    decreases n,
{
    if n > 0 {
        lemma_diffused_in_range(g0, w, h, pal, wts, (n - 1) as nat);
        let prev = diffused(g0, w, h, pal, wts, (n - 1) as nat);
        let i = n - 1;
        let x = i % w;
        let y = i / w;
        lemma_index_position(w, h, i);
        let k = fs_step(read_kernel(prev, w, h, x, y), pal, wts);
        crate::palette::lemma_nearest_index(
            pal,
            |p: ColorRGB| crate::color::srgb_dist_sq(bounded(read_kernel(prev, w, h, x, y).tl), p),
            pal.len() as int,
        );
        let s1 = prev.update(at(w, x, y), k.tl);
        assert(all_in_range(s1));
        let s2 = put(s1, w, h, x + 1, y, k.tr);
        lemma_put_in_range(s1, w, h, x + 1, y, k.tr);
        let s3 = put(s2, w, h, x, y + 1, k.bl);
        lemma_put_in_range(s2, w, h, x, y + 1, k.bl);
        lemma_put_in_range(s3, w, h, x + 1, y + 1, k.br);
    }
}

/// With a step function that does exactly one diffusion step, the states of
/// a traversal are the diffused grids.
proof fn lemma_traversal_diffuses<P: Fn(MutKernel2x2<Srgb>) -> MutKernel2x2<Srgb>>(
    processing: P,
    w: int,
    h: int,
    states: Seq<Seq<Srgb>>,
    outs: Seq<MutKernel2x2<Srgb>>,
    pal: Seq<ColorRGB>,
    wts: DiffusionWeights,
    n: nat,
)
    requires
        is_traversal(processing, w, h, states, outs),
        forall|k: MutKernel2x2<Srgb>, o: MutKernel2x2<Srgb>|
            call_ensures(processing, (k,), o) ==> o == fs_step(k, pal, wts),
        n <= w * h,
    ensures
        states[n as int] == diffused(states[0], w, h, pal, wts, n),
    decreases n,
{
    if n > 0 {
        lemma_traversal_diffuses(processing, w, h, states, outs, pal, wts, (n - 1) as nat);
        let i = n - 1;
        assert(call_ensures(
            processing,
            (read_kernel(states[i], w, h, i % w, i / w),),
            outs[i],
        ));
    }
}

/// The working-color grid of an image.
pub fn rgb_image_to_srgb_grid(source_image: &RgbImage) -> (r: Grid<Srgb>)
    ensures
        r.wf(),
        r.width == source_image.spec_width(),
        r.height == source_image.spec_height(),
        r.width <= u32::MAX,
        r.height <= u32::MAX,
        r.cells@ == source_image.spec_pixels().map_values(|c: ColorRGB| srgb_of(c)),
        all_in_range(r.cells@),
{
    let pixels = source_image.pixels();
    let mut cells: Vec<Srgb> = Vec::new();
    let mut i: usize = 0;
    while i < pixels.len()
        invariant
            i <= pixels@.len(),
            cells@ == pixels@.take(i as int).map_values(|c: ColorRGB| srgb_of(c)),
            all_in_range(cells@),
        decreases pixels@.len() - i,
    {
        cells.push(rgbu8_to_srgb(pixels[i]));
        proof {
            assert(pixels@.take(i + 1).map_values(|c: ColorRGB| srgb_of(c)) =~= pixels@.take(
                i as int,
            ).map_values(|c: ColorRGB| srgb_of(c)).push(srgb_of(pixels@[i as int])));
        }
        i += 1;
    }
    proof {
        assert(pixels@.take(pixels@.len() as int) == pixels@);
    }
    Grid {
        width: source_image.width() as usize,
        height: source_image.height() as usize,
        cells,
    }
}

/// The image whose pixels are the nearest palette colors of the grid's cells.
pub fn srgb_vec_to_rgb_image_using_palette(grid: Grid<Srgb>, palette: &PaletteRGB) -> (r: RgbImage)
    requires
        grid.wf(),
        all_in_range(grid.cells@),
        palette@.len() > 0,
        grid.width <= u32::MAX,
        grid.height <= u32::MAX,
    ensures
        r.spec_width() == grid.width,
        r.spec_height() == grid.height,
        r.spec_pixels().len() == grid.cells@.len(),
        forall|i: int|
            0 <= i < grid.cells@.len() ==> #[trigger] r.spec_pixels()[i] == closest_by_srgb(
                palette@,
                grid.cells@[i],
            ),
{
    let mut pixels: Vec<ColorRGB> = Vec::new();
    let mut i: usize = 0;
    while i < grid.cells.len()
        invariant
            i <= grid.cells@.len(),
            all_in_range(grid.cells@),
            palette@.len() > 0,
            pixels@.len() == i,
            forall|k: int|
                0 <= k < i ==> #[trigger] pixels@[k] == closest_by_srgb(palette@, grid.cells@[k]),
        decreases grid.cells@.len() - i,
    {
        pixels.push(palette.find_closest_by_srgb(&grid.cells[i]));
        i += 1;
    }
    let img = RgbImage::from_pixels(grid.width as u32, grid.height as u32, pixels);
    match img {
        Some(img) => img,
        None => {
            proof {
                assert(false);
            }
            RgbImage::new(0, 0)
        },
    }
}

/// The image of a grid, each channel clamped to `0..=255`.
pub fn srgb_vec_to_rgb_image(grid: Grid<Srgb>) -> (r: RgbImage)
    requires
        grid.wf(),
        grid.width <= u32::MAX,
        grid.height <= u32::MAX,
    ensures
        r.spec_width() == grid.width,
        r.spec_height() == grid.height,
        r.spec_pixels().len() == grid.cells@.len(),
        forall|i: int|
            0 <= i < grid.cells@.len() ==> #[trigger] r.spec_pixels()[i] == srgb_to_rgbu8_spec(
                grid.cells@[i],
            ),
{
    let mut pixels: Vec<ColorRGB> = Vec::new();
    let mut i: usize = 0;
    while i < grid.cells.len()
        invariant
            i <= grid.cells@.len(),
            pixels@.len() == i,
            forall|k: int| 0 <= k < i ==> #[trigger] pixels@[k] == srgb_to_rgbu8_spec(grid.cells@[k]),
        decreases grid.cells@.len() - i,
    {
        let c = srgb_to_rgbu8(grid.cells[i]);
        proof {
            c.lemma_ext_eq(srgb_to_rgbu8_spec(grid.cells@[i as int]));
        }
        pixels.push(c);
        i += 1;
    }
    let img = RgbImage::from_pixels(grid.width as u32, grid.height as u32, pixels);
    match img {
        Some(img) => img,
        None => {
            proof {
                assert(false);
            }
            RgbImage::new(0, 0)
        },
    }
}

/// The 8-bit color of a working color, each channel clamped to `0..=255`.
pub open spec fn srgb_to_rgbu8_spec(c: Srgb) -> ColorRGB {
    ColorRGB(
        [
            clamp_int(c.red as int, 0, 255) as u8,
            clamp_int(c.green as int, 0, 255) as u8,
            clamp_int(c.blue as int, 0, 255) as u8,
        ],
    )
}

/// Renders `source_image` with `palette` by Floyd–Steinberg error diffusion.
///
/// The image's pixels become working colors; every pixel in turn, row by row
/// from the top and left to right, is replaced by its nearest palette color
/// and its error is shared out to its right, lower and lower-right neighbors
/// by `weights`; finally each cell becomes its nearest palette color. An
/// image narrower or lower than two pixels is refused with `GridTooSmall`.
pub fn dithering_floyd_steinberg_rgb(
    source_image: RgbImage,
    palette: PaletteRGB,
    weights: DiffusionWeights,
) -> (r: Result<RgbImage, KernelError>)
    requires
        palette@.len() > 0,
        weights.valid(),
    ensures
        (source_image.spec_width() < 2 || source_image.spec_height() < 2) <==> r is Err,
        r is Err ==> r == Err::<RgbImage, _>(
            KernelError::GridTooSmall {
                width: source_image.spec_width() as usize,
                height: source_image.spec_height() as usize,
            },
        ),
        r matches Ok(img) ==> {
            &&& img.spec_width() == source_image.spec_width()
            &&& img.spec_height() == source_image.spec_height()
            &&& img.spec_pixels() == dithered(
                source_image.spec_pixels(),
                source_image.spec_width() as int,
                source_image.spec_height() as int,
                palette@,
                weights,
            )
            &&& forall|i: int|
                0 <= i < img.spec_pixels().len() ==> palette@.contains(#[trigger] img.spec_pixels()[i])
        },
{
    let mut grid = rgb_image_to_srgb_grid(&source_image);
    let ghost g0 = grid.cells@;
    let step = |k: MutKernel2x2<Srgb>| -> (out: MutKernel2x2<Srgb>)
        ensures
            out == fs_step(k, palette@, weights),
        { diffusion_step(k, &palette, &weights) };
    let traversed = apply_2x2_kernel_processing(&mut grid, step);
    match traversed {
        Err(e) => Err(e),
        Ok(()) => {
            proof {
                let w = grid.width as int;
                let h = grid.height as int;
                let (states, outs) = choose|states: Seq<Seq<Srgb>>, outs: Seq<MutKernel2x2<Srgb>>|
                    #[trigger] is_traversal(step, w, h, states, outs) && states[0] == g0
                        && states.last() == grid.cells@;
                lemma_traversal_diffuses(step, w, h, states, outs, palette@, weights, (w * h) as nat);
                lemma_diffused_in_range(g0, w, h, palette@, weights, (w * h) as nat);
            }
            let img = srgb_vec_to_rgb_image_using_palette(grid, &palette);
            proof {
                assert forall|i: int| 0 <= i < img.spec_pixels().len() implies palette@.contains(
                    #[trigger] img.spec_pixels()[i],
                ) by {
                    let c = grid.cells@[i];
                    crate::palette::lemma_nearest_in_palette(
                        palette@,
                        |p: ColorRGB| crate::color::srgb_dist_sq(c, p),
                    );
                }
                assert(img.spec_pixels() =~= dithered(
                    source_image.spec_pixels(),
                    source_image.spec_width() as int,
                    source_image.spec_height() as int,
                    palette@,
                    weights,
                ));
            }
            Ok(img)
        },
    }
}

} // verus!
