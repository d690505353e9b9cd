//! Colors with 8-bit channels, and the signed working colors that carry
//! quantization error during diffusion.
use vstd::prelude::*;

verus! {

/// An RGB color with three 8-bit channels: red, green, blue.
#[derive(Debug, Hash, Copy, Clone, Eq)]
pub struct ColorRGB(pub [u8; 3]);

/// A color in sRGB on the 0..=255 scale, with signed channels so that it can
/// leave that range while quantization error is being carried.
#[derive(Debug, Copy, Clone, PartialEq, Eq, Structural)]
pub struct Srgb {
    pub red: i32,
    pub green: i32,
    pub blue: i32,
}

impl PartialEq for ColorRGB {
    fn eq(&self, other: &ColorRGB) -> (r: bool)
        ensures
            r == (*self == *other),
    {
        proof {
            self.lemma_ext_eq(*other);
        }
        self.0[0] == other.0[0] && self.0[1] == other.0[1] && self.0[2] == other.0[2]
    }
}

impl vstd::std_specs::cmp::PartialEqSpecImpl for ColorRGB {
    open spec fn obeys_eq_spec() -> bool {
        true
    }

    open spec fn eq_spec(&self, other: &ColorRGB) -> bool {
        *self == *other
    }
}

impl ColorRGB {
    /// Two colors are the same value exactly when their channels agree.
    pub proof fn lemma_ext_eq(self, other: ColorRGB)
        ensures
            (self == other) <==> (self.r() == other.r() && self.g() == other.g() && self.b()
                == other.b()),
    {
        broadcast use vstd::array::group_array_axioms;

        if self.r() == other.r() && self.g() == other.g() && self.b() == other.b() {
            assert forall|i: int| 0 <= i < 3 implies self.0[i] == other.0[i] by {
                if i == 0 {
                } else if i == 1 {
                } else {
                }
            }
            assert(self.0 =~= other.0);
        }
    }

    pub open spec fn r(self) -> int {
        self.0@[0] as int
    }

    pub open spec fn g(self) -> int {
        self.0@[1] as int
    }

    pub open spec fn b(self) -> int {
        self.0@[2] as int
    }

    /// Returns the red component.
    pub fn red(&self) -> (r: u8)
        ensures
            r == self.r(),
    {
        self.0[0]
    }

    /// Returns the green component.
    pub fn green(&self) -> (r: u8)
        ensures
            r == self.g(),
    {
        self.0[1]
    }

    /// Returns the blue component.
    pub fn blue(&self) -> (r: u8)
        ensures
            r == self.b(),
    {
        self.0[2]
    }

    /// Returns the channels as an array.
    pub fn as_slice(&self) -> (r: &[u8; 3])
        ensures
            *r == self.0,
    {
        &self.0
    }

    /// Returns the channels as a tuple.
    pub fn tuple(&self) -> (r: (u8, u8, u8))
        ensures
            r.0 == self.r(),
            r.1 == self.g(),
            r.2 == self.b(),
    {
        (self.red(), self.green(), self.blue())
    }

    /// Channel-wise addition, saturating at 255.
    pub fn saturating_add(&self, other: &Self) -> (r: Self)
        ensures
            r.r() == min_int(self.r() + other.r(), 255),
            r.g() == min_int(self.g() + other.g(), 255),
            r.b() == min_int(self.b() + other.b(), 255),
    {
        ColorRGB(
            [
                self.0[0].saturating_add(other.0[0]),
                self.0[1].saturating_add(other.0[1]),
                self.0[2].saturating_add(other.0[2]),
            ],
        )
    }

    /// Channel-wise subtraction, saturating at 0.
    pub fn saturating_sub(&self, other: &Self) -> (r: Self)
        ensures
            r.r() == max_int(self.r() - other.r(), 0),
            r.g() == max_int(self.g() - other.g(), 0),
            r.b() == max_int(self.b() - other.b(), 0),
    {
        ColorRGB(
            [
                self.0[0].saturating_sub(other.0[0]),
                self.0[1].saturating_sub(other.0[1]),
                self.0[2].saturating_sub(other.0[2]),
            ],
        )
    }

    /// Squared Euclidean distance between two colors in RGB space.
    pub fn dist_squared_by_rgb(&self, other: &Self) -> (r: u32)
        ensures
            r == rgb_dist_sq(*self, *other),
    {
        let dr = (self.0[0] as i32) - (other.0[0] as i32);
        let dg = (self.0[1] as i32) - (other.0[1] as i32);
        let db = (self.0[2] as i32) - (other.0[2] as i32);
        assert(0 <= dr * dr <= 65025) by (nonlinear_arith)
            requires
                -255 <= dr <= 255,
        ;
        assert(0 <= dg * dg <= 65025) by (nonlinear_arith)
            requires
                -255 <= dg <= 255,
        ;
        assert(0 <= db * db <= 65025) by (nonlinear_arith)
            requires
                -255 <= db <= 255,
        ;
        (dr * dr + dg * dg + db * db) as u32
    }

    /// Whether `self` comes strictly before `other` in palette order.
    pub fn precedes(&self, other: &Self) -> (r: bool)
        ensures
            r == color_precedes(*self, *other),
    {
        let la = luma_of(self);
        let lb = luma_of(other);
        if la != lb {
            la < lb
        } else if self.0[0] != other.0[0] {
            self.0[0] < other.0[0]
        } else if self.0[1] != other.0[1] {
            self.0[1] < other.0[1]
        } else {
            self.0[2] < other.0[2]
        }
    }
}

pub open spec fn min_int(a: int, b: int) -> int {
    if a < b {
        a
    } else {
        b
    }
}

pub open spec fn max_int(a: int, b: int) -> int {
    if a > b {
        a
    } else {
        b
    }
}

/// Squared Euclidean distance of two colors over their 8-bit channels.
pub open spec fn rgb_dist_sq(a: ColorRGB, b: ColorRGB) -> int {
    (a.r() - b.r()) * (a.r() - b.r()) + (a.g() - b.g()) * (a.g() - b.g()) + (a.b() - b.b()) * (
    a.b() - b.b())
}

/// Lightness key of a color: its luma with Rec. 709 weights, in ten-thousandths.
pub open spec fn luma(c: ColorRGB) -> int {
    2126 * c.r() + 7152 * c.g() + 722 * c.b()
}

/// Palette order: by luma, then by red, green and blue.
pub open spec fn color_precedes(a: ColorRGB, b: ColorRGB) -> bool {
    if luma(a) != luma(b) {
        luma(a) < luma(b)
    } else if a.r() != b.r() {
        a.r() < b.r()
    } else if a.g() != b.g() {
        a.g() < b.g()
    } else {
        a.b() < b.b()
    }
}

/// Palette order is a strict total order on colors.
pub proof fn lemma_precedes_total(a: ColorRGB, b: ColorRGB, c: ColorRGB)
    ensures
        !color_precedes(a, a),
        color_precedes(a, b) ==> !color_precedes(b, a),
        color_precedes(a, b) && color_precedes(b, c) ==> color_precedes(a, c),
        a != b ==> color_precedes(a, b) || color_precedes(b, a),
{
    a.lemma_ext_eq(b);
}

/// A perceptual color space, supplied by the caller: how colors map to and
/// from a perceptual representation, how far apart two such values are (an
/// integer measure, non-negative by its type; a metric is expected: symmetric,
/// and zero exactly between equal values), and the mean of a group of them.
pub trait ColorSpace {
    type Perceptual: Copy;

    fn to_perceptual(&self, color: &ColorRGB) -> Self::Perceptual;

    fn from_perceptual(&self, value: &Self::Perceptual) -> ColorRGB;

    fn distance(&self, a: &Self::Perceptual, b: &Self::Perceptual) -> u64;

    fn mean(&self, values: &[Self::Perceptual]) -> Self::Perceptual;
}

/// The sum of one channel over a list of colors.
pub open spec fn channel_sum(s: Seq<ColorRGB>, ch: int) -> int
    decreases s.len(),
{
    if s.len() == 0 {
        0
    } else {
        channel_sum(s.drop_last(), ch) + s.last().0@[ch] as int
    }
}

/// The mean of `total` over `n` values, rounded half up.
pub open spec fn rounded_mean(total: int, n: int) -> int {
    (2 * total + n) / (2 * n)
}

proof fn lemma_channel_sum_bound(s: Seq<ColorRGB>, ch: int)
    requires
        0 <= ch < 3,
    ensures
        0 <= channel_sum(s, ch) <= 255 * s.len(),
    decreases s.len(),
{
    if s.len() > 0 {
        lemma_channel_sum_bound(s.drop_last(), ch);
    }
}

proof fn lemma_rounded_mean_bound(total: int, n: int)
    requires
        n > 0,
        0 <= total <= 255 * n,
    ensures
        0 <= rounded_mean(total, n) <= 255,
{
    vstd::arithmetic::div_mod::lemma_div_pos_is_pos(2 * total + n, 2 * n);
    vstd::arithmetic::div_mod::lemma_div_is_ordered(2 * total + n, 2 * n * 256 - n, 2 * n);
    vstd::arithmetic::div_mod::lemma_fundamental_div_mod(2 * n * 256 - n, 2 * n);
    let q = (2 * n * 256 - n) / (2 * n);
    let r = (2 * n * 256 - n) % (2 * n);
    vstd::arithmetic::div_mod::lemma_mod_pos_bound(2 * n * 256 - n, 2 * n);
    assert(q <= 255) by (nonlinear_arith)
        requires
            2 * n * 256 - n == 2 * n * q + r,
            0 <= r < 2 * n,
            n > 0,
    ;
}

/// The channel-wise mean of `values`, each channel rounded half up; black for
/// an empty list.
pub fn mean_color(values: &[ColorRGB]) -> (r: ColorRGB)
    ensures
        values@.len() == 0 ==> r == ColorRGB([0, 0, 0]),
        values@.len() > 0 ==> {
            &&& r.r() == rounded_mean(channel_sum(values@, 0), values@.len() as int)
            &&& r.g() == rounded_mean(channel_sum(values@, 1), values@.len() as int)
            &&& r.b() == rounded_mean(channel_sum(values@, 2), values@.len() as int)
        },
{
    let n = values.len();
    if n == 0 {
        return ColorRGB([0, 0, 0]);
    }
    let mut sums: [u128; 3] = [0, 0, 0];
    let mut i: usize = 0;
    while i < n
        invariant
            n == values@.len(),
            i <= n,
            sums@[0] == channel_sum(values@.take(i as int), 0),
            sums@[1] == channel_sum(values@.take(i as int), 1),
            sums@[2] == channel_sum(values@.take(i as int), 2),
        decreases n - i,
    {
        proof {
            assert(values@.take(i + 1).drop_last() == values@.take(i as int));
            lemma_channel_sum_bound(values@.take(i as int), 0);
            lemma_channel_sum_bound(values@.take(i as int), 1);
            lemma_channel_sum_bound(values@.take(i as int), 2);
        }
        let c = values[i];
        sums = [sums[0] + c.0[0] as u128, sums[1] + c.0[1] as u128, sums[2] + c.0[2] as u128];
        i += 1;
    }
    proof {
        assert(values@.take(n as int) == values@);
        lemma_channel_sum_bound(values@, 0);
        lemma_channel_sum_bound(values@, 1);
        lemma_channel_sum_bound(values@, 2);
        lemma_rounded_mean_bound(channel_sum(values@, 0), n as int);
        lemma_rounded_mean_bound(channel_sum(values@, 1), n as int);
        lemma_rounded_mean_bound(channel_sum(values@, 2), n as int);
    }
    let d = 2 * (n as u128);
    ColorRGB(
        [
            ((2 * sums[0] + n as u128) / d) as u8,
            ((2 * sums[1] + n as u128) / d) as u8,
            ((2 * sums[2] + n as u128) / d) as u8,
        ],
    )
}

/// RGB itself as a color space: squared Euclidean distance over the 8-bit
/// channels, and the channel-wise rounded mean.
#[derive(Debug, Clone, Copy, PartialEq, Eq, Structural)]
pub struct RgbSpace;

impl ColorSpace for RgbSpace {
    type Perceptual = ColorRGB;

    fn to_perceptual(&self, color: &ColorRGB) -> ColorRGB {
        *color
    }

    fn from_perceptual(&self, value: &ColorRGB) -> ColorRGB {
        *value
    }

    fn distance(&self, a: &ColorRGB, b: &ColorRGB) -> u64 {
        a.dist_squared_by_rgb(b) as u64
    }

    fn mean(&self, values: &[ColorRGB]) -> ColorRGB {
        mean_color(values)
    }
}

/// Bound on the magnitude of a working color's channels.
pub const WORK_LIMIT: i32 = 1000000;

impl Srgb {
    /// Every channel lies within `-WORK_LIMIT..=WORK_LIMIT`.
    pub open spec fn in_range(self) -> bool {
        -WORK_LIMIT <= self.red <= WORK_LIMIT && -WORK_LIMIT <= self.green <= WORK_LIMIT
            && -WORK_LIMIT <= self.blue <= WORK_LIMIT
    }
}

/// Squared Euclidean distance of a working color to an 8-bit color.
pub open spec fn srgb_dist_sq(a: Srgb, c: ColorRGB) -> int {
    (a.red - c.r()) * (a.red - c.r()) + (a.green - c.g()) * (a.green - c.g()) + (a.blue - c.b()) * (
    a.blue - c.b())
}

/// A value limited to `lo..=hi`.
pub open spec fn clamp_int(v: int, lo: int, hi: int) -> int {
    if v < lo {
        lo
    } else if v > hi {
        hi
    } else {
        v
    }
}

/// The 8-bit color as a working color.
pub open spec fn srgb_of(c: ColorRGB) -> Srgb {
    Srgb { red: c.r() as i32, green: c.g() as i32, blue: c.b() as i32 }
}

/// Converts an 8-bit color to a working color with the same channel values.
pub fn rgbu8_to_srgb(src: ColorRGB) -> (r: Srgb)
    ensures
        r == srgb_of(src),
        r.in_range(),
{
    Srgb { red: src.0[0] as i32, green: src.0[1] as i32, blue: src.0[2] as i32 }
}

fn clamp_channel(v: i32) -> (r: u8)
    ensures
        r == clamp_int(v as int, 0, 255),
{
    if v < 0 {
        0
    } else if v > 255 {
        255
    } else {
        v as u8
    }
}

/// Converts a working color to 8 bits, clamping each channel to `0..=255`.
pub fn srgb_to_rgbu8(src: Srgb) -> (r: ColorRGB)
    ensures
        r.r() == clamp_int(src.red as int, 0, 255),
        r.g() == clamp_int(src.green as int, 0, 255),
        r.b() == clamp_int(src.blue as int, 0, 255),
{
    ColorRGB([clamp_channel(src.red), clamp_channel(src.green), clamp_channel(src.blue)])
}

/// Channel-wise sum of two working colors.
pub fn srgb_add(left: &Srgb, right: &Srgb) -> (r: Srgb)
    requires
        left.in_range(),
        right.in_range(),
    ensures
        r.red == left.red + right.red,
        r.green == left.green + right.green,
        r.blue == left.blue + right.blue,
{
    Srgb {
        red: left.red + right.red,
        green: left.green + right.green,
        blue: left.blue + right.blue,
    }
}

/// Channel-wise difference of two working colors.
pub fn srgb_sub(left: &Srgb, right: &Srgb) -> (r: Srgb)
    requires
        left.in_range(),
        right.in_range(),
    ensures
        r.red == left.red - right.red,
        r.green == left.green - right.green,
        r.blue == left.blue - right.blue,
{
    Srgb {
        red: left.red - right.red,
        green: left.green - right.green,
        blue: left.blue - right.blue,
    }
}

fn channel_dist_sq(a: i32, c: u8) -> (r: u64)
    requires
        -WORK_LIMIT <= a <= WORK_LIMIT,
    ensures
        r == (a - c) * (a - c),
        r <= 1002000000000,
{
    let d = (a as i64) - (c as i64);
    assert(0 <= d * d <= 1001000000000) by (nonlinear_arith)
        requires
            -1000255 <= d <= 1000255,
    ;
    (d * d) as u64
}

/// Squared Euclidean distance of a working color to an 8-bit color.
pub fn srgb_distance_squared(a: &Srgb, c: &ColorRGB) -> (r: u64)
    requires
        a.in_range(),
    ensures
        r == srgb_dist_sq(*a, *c),
{
    channel_dist_sq(a.red, c.0[0]) + channel_dist_sq(a.green, c.0[1]) + channel_dist_sq(
        a.blue,
        c.0[2],
    )
}

fn luma_of(c: &ColorRGB) -> (r: u32)
    ensures
        r == luma(*c),
{
    2126 * (c.0[0] as u32) + 7152 * (c.0[1] as u32) + 722 * (c.0[2] as u32)
}

} // verus!
