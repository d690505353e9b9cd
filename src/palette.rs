//! Palettes: duplicate-free color lists kept in palette order.
use vstd::prelude::*;
use vstd::string::StringExecFns;
use crate::color::{
    ColorRGB, ColorSpace, Srgb, color_precedes, lemma_precedes_total, rgb_dist_sq, rgbu8_to_srgb,
    srgb_dist_sq, srgb_of,
};
use crate::image::RgbImage;
use crate::kmean::{
    CentroidsFindError, averaged_by, distinct_picks, find_centroids, is_nearest, kmeans_outcome,
    lemma_nearest_weaken, lemma_outcome_weaken, measured_by, picked, result_view,
};

verus! {

/// Errors of palette operations.
#[derive(Debug, Clone, Copy, PartialEq, Eq, Structural)]
pub enum PaletteError {
    /// The palette holds fewer colors than asked for.
    NotEnoughColors { expected: usize, actual: usize },
    /// The centroid search behind a reduction failed.
    ConversionFailed(CentroidsFindError),
}

/// A palette: an ordered list of distinct colors, kept in palette order
/// (by luma, then by channels), so that equal color sets give equal palettes.
#[derive(Debug)]
pub struct PaletteRGB(Vec<ColorRGB>);

impl Clone for PaletteRGB {
    fn clone(&self) -> (r: Self)
        ensures
            r@ == self@,
    {
        proof {
            use_type_invariant(self);
        }
        let v = self.0.clone();
        proof {
            assert(v@ =~= self.0@);
        }
        PaletteRGB(v)
    }
}

impl View for PaletteRGB {
    type V = Seq<ColorRGB>;

    closed spec fn view(&self) -> Seq<ColorRGB> {
        self.0@
    }
}

impl PartialEq for PaletteRGB {
    fn eq(&self, other: &PaletteRGB) -> (r: bool)
        ensures
            r == (self@ == other@),
    {
        if self.0.len() != other.0.len() {
            return false;
        }
        let mut i: usize = 0;
        while i < self.0.len()
            invariant
                i <= self.0@.len(),
                self.0@.len() == other.0@.len(),
                forall|m: int| 0 <= m < i ==> self.0@[m] == other.0@[m],
            decreases self.0@.len() - i,
        {
            if self.0[i] != other.0[i] {
                return false;
            }
            i += 1;
        }
        proof {
            assert(self.0@ =~= other.0@);
        }
        true
    }
}

impl vstd::std_specs::cmp::PartialEqSpecImpl for PaletteRGB {
    open spec fn obeys_eq_spec() -> bool {
        true
    }

    open spec fn eq_spec(&self, other: &PaletteRGB) -> bool {
        self@ == other@
    }
}

impl Eq for PaletteRGB {}

impl PaletteRGB {
    #[verifier::type_invariant]
    spec fn inv(self) -> bool {
        sorted_strictly(self.0@)
    }

    /// Number of colors.
    pub fn len(&self) -> (r: usize)
        ensures
            r == self@.len(),
    {
        self.0.len()
    }

    /// The color at position `i`.
    pub fn get(&self, i: usize) -> (r: ColorRGB)
        requires
            i < self@.len(),
        ensures
            r == self@[i as int],
    {
        self.0[i]
    }

    /// The palette of the distinct colors among `colors`, in palette order.
    pub fn from_colors(colors: Vec<ColorRGB>) -> (r: PaletteRGB)
        ensures
            r@.to_set() == colors@.to_set(),
            sorted_strictly(r@),
    {
        let mut out: Vec<ColorRGB> = Vec::new();
        let mut i: usize = 0;
        while i < colors.len()
            invariant
                i <= colors@.len(),
                sorted_strictly(out@),
                out@.to_set() == colors@.take(i as int).to_set(),
            decreases colors@.len() - i,
        {
            proof {
                lemma_take_next_to_set(colors@, i as int);
            }
            insert_sorted(&mut out, colors[i]);
            i += 1;
        }
        proof {
            assert(colors@.take(colors@.len() as int) == colors@);
        }
        PaletteRGB(out)
    }

    /// A grayscale ramp of `steps` evenly spaced levels from black to white;
    /// levels that coincide (possible with more than 256 steps) appear once.
    pub fn grayscale(steps: usize) -> (r: PaletteRGB)
        requires
            steps >= 2,
        ensures
            sorted_strictly(r@),
            forall|c: ColorRGB|
                r@.contains(c) <==> exists|i: int|
                    0 <= i < steps && c == #[trigger] gray(gray_level(i, steps as int)),
            steps <= 256 ==> r@.len() == steps && forall|i: int|
                0 <= i < steps ==> #[trigger] r@[i] == gray(gray_level(i, steps as int)),
    {
        let mut out: Vec<ColorRGB> = Vec::new();
        let mut last: u8 = 0;
        let mut step: usize = 0;
        while step < steps
            invariant
                2 <= steps,
                step <= steps,
                sorted_strictly(out@),
                step > 0 ==> out@.len() > 0 && out@.last() == gray(last as int) && last
                    == gray_level(step - 1, steps as int),
                step == 0 ==> out@.len() == 0,
                forall|k: int|
                    0 <= k < out@.len() ==> exists|i: int|
                        0 <= i < step && #[trigger] out@[k] == gray(gray_level(i, steps as int)),
                forall|i: int|
                    0 <= i < step ==> out@.contains(#[trigger] gray(gray_level(i, steps as int))),
                forall|k: int| 0 <= k < out@.len() ==> (#[trigger] out@[k]).r() <= last,
                steps <= 256 ==> out@.len() == step && forall|i: int|
                    0 <= i < step ==> #[trigger] out@[i] == gray(gray_level(i, steps as int)),
            decreases steps - step,
        {
            let v128: u128 = (255 * step as u128) / ((steps - 1) as u128);
            proof {
                if step > 0 {
                    lemma_gray_level(step - 1, steps as int);
                } else {
                    assert(gray_level(0, steps as int) == 0);
                }
                if step < steps - 1 {
                    lemma_gray_level(step as int, steps as int);
                } else {
                    vstd::arithmetic::div_mod::lemma_div_by_multiple(255, steps - 1);
                }
                assert(v128 == gray_level(step as int, steps as int));
            }
            let v = v128 as u8;
            if step == 0 || v != last {
                let c = ColorRGB([v, v, v]);
                proof {
                    assert(c == gray(v as int));
                    assert forall|k: int| 0 <= k < out@.len() implies color_precedes(
                        #[trigger] out@[k],
                        c,
                    ) by {
                        let i = choose|i: int|
                            0 <= i < step && #[trigger] out@[k] == gray(gray_level(i, steps as int));
                        lemma_gray_level(i, steps as int);
                        lemma_gray_precedes(gray_level(i, steps as int), v as int);
                    }
                }
                let ghost before = out@;
                out.push(c);
                last = v;
                proof {
                    assert(out@.last() == c);
                    assert forall|i: int| 0 <= i <= step implies out@.contains(
                        #[trigger] gray(gray_level(i, steps as int)),
                    ) by {
                        if i == step {
                            assert(out@[out@.len() - 1] == c);
                        } else {
                            assert(before.contains(gray(gray_level(i, steps as int))));
                            let k = choose|k: int|
                                0 <= k < before.len() && before[k] == gray(
                                    gray_level(i, steps as int),
                                );
                            assert(out@[k] == before[k]);
                        }
                    }
                    assert forall|k: int| 0 <= k < out@.len() implies exists|i: int|
                        0 <= i < step + 1 && #[trigger] out@[k] == gray(
                            gray_level(i, steps as int),
                        ) by {
                        if k == out@.len() - 1 {
                            assert(out@[k] == gray(gray_level(step as int, steps as int)));
                        } else {
                            assert(out@[k] == before[k]);
                        }
                    }
                }
            } else {
                proof {
                    assert(gray(v as int) == out@.last());
                    assert(out@.contains(gray(gray_level(step as int, steps as int)))) by {
                        assert(out@[out@.len() - 1] == out@.last());
                    }
                    if steps <= 256 {
                        lemma_gray_level(step - 1, steps as int);
                    }
                }
            }
            step += 1;
        }
        PaletteRGB(out)
    }

    /// Black and white.
    pub fn black_and_white() -> (r: PaletteRGB)
        ensures
            r@ == seq![ColorRGB([0, 0, 0]), ColorRGB([255, 255, 255])],
    {
        let v = vec![ColorRGB([0, 0, 0]), ColorRGB([255, 255, 255])];
        proof {
            assert(sorted_strictly(v@));
        }
        PaletteRGB(v)
    }

    /// The primaries blue, red and green, in palette order.
    pub fn primary() -> (r: PaletteRGB)
        ensures
            r@ == seq![ColorRGB([0, 0, 255]), ColorRGB([255, 0, 0]), ColorRGB([0, 255, 0])],
    {
        let v = vec![ColorRGB([0, 0, 255]), ColorRGB([255, 0, 0]), ColorRGB([0, 255, 0])];
        proof {
            assert(sorted_strictly(v@));
        }
        PaletteRGB(v)
    }

    /// Black, the three primaries and white, in palette order.
    pub fn primary_bw() -> (r: PaletteRGB)
        ensures
            r@ == seq![
                ColorRGB([0, 0, 0]),
                ColorRGB([0, 0, 255]),
                ColorRGB([255, 0, 0]),
                ColorRGB([0, 255, 0]),
                ColorRGB([255, 255, 255]),
            ],
    {
        let v = vec![
            ColorRGB([0, 0, 0]),
            ColorRGB([0, 0, 255]),
            ColorRGB([255, 0, 0]),
            ColorRGB([0, 255, 0]),
            ColorRGB([255, 255, 255]),
        ];
        proof {
            assert(sorted_strictly(v@));
        }
        PaletteRGB(v)
    }

    /// Adds the colors of `other` to this palette.
    pub fn combine(&mut self, other: PaletteRGB)
        ensures
            final(self)@.to_set() == old(self)@.to_set() + other@.to_set(),
    {
        proof {
            use_type_invariant(&*self);
        }
        let mut out = self.0.clone();
        proof {
            assert(out@ =~= self.0@);
        }
        let ghost s0 = out@.to_set();
        let mut i: usize = 0;
        while i < other.0.len()
            invariant
                i <= other@.len(),
                sorted_strictly(out@),
                out@.to_set() == s0 + other@.take(i as int).to_set(),
            decreases other@.len() - i,
        {
            proof {
                lemma_take_next_to_set(other@, i as int);
                assert((s0 + other@.take(i as int).to_set()).insert(other@[i as int])
                    =~= s0 + other@.take(i + 1).to_set());
            }
            insert_sorted(&mut out, other.0[i]);
            i += 1;
        }
        proof {
            assert(other@.take(other@.len() as int) == other@);
        }
        *self = PaletteRGB(out);
    }

    /// This palette with black and white added.
    pub fn with_black_and_white(self) -> (r: PaletteRGB)
        ensures
            r@.to_set() == self@.to_set().insert(ColorRGB([0, 0, 0])).insert(
                ColorRGB([255, 255, 255]),
            ),
    {
        let mut p = self;
        let bw = PaletteRGB::black_and_white();
        p.combine(bw);
        proof {
            let b = seq![ColorRGB([0, 0, 0]), ColorRGB([255, 255, 255])];
            assert(b.to_set() =~= Set::empty().insert(ColorRGB([0, 0, 0])).insert(
                ColorRGB([255, 255, 255]),
            )) by {
                assert(b[0] == ColorRGB([0, 0, 0]));
                assert(b[1] == ColorRGB([255, 255, 255]));
            }
            assert(p@.to_set() =~= self@.to_set().insert(ColorRGB([0, 0, 0])).insert(
                ColorRGB([255, 255, 255]),
            ));
        }
        p
    }

    /// The palette color nearest to `src_color` in RGB space, the first one on ties.
    pub fn find_closest_by_rgb(&self, src_color: &ColorRGB) -> (r: ColorRGB)
        requires
            self@.len() > 0,
        ensures
            r == closest_by_rgb(self@, *src_color),
    {
        let ghost dist = |p: ColorRGB| rgb_dist_sq(*src_color, p);
        let mut best: usize = 0;
        let mut best_dist = src_color.dist_squared_by_rgb(&self.0[0]);
        let mut i: usize = 1;
        while i < self.0.len()
            invariant
                1 <= i <= self@.len(),
                dist == (|p: ColorRGB| rgb_dist_sq(*src_color, p)),
                best == nearest_index(self@, dist, i as int),
                best < i,
                best_dist == dist(self@[best as int]),
            decreases self@.len() - i,
        {
            let d = src_color.dist_squared_by_rgb(&self.0[i]);
            if d < best_dist {
                best = i;
                best_dist = d;
            }
            i += 1;
        }
        self.0[best]
    }

    /// The palette color nearest to the working color `src_color`, the first one on ties.
    pub fn find_closest_by_srgb(&self, src_color: &Srgb) -> (r: ColorRGB)
        requires
            self@.len() > 0,
            src_color.in_range(),
        ensures
            r == closest_by_srgb(self@, *src_color),
    {
        let ghost dist = |p: ColorRGB| srgb_dist_sq(*src_color, p);
        let mut best: usize = 0;
        let mut best_dist = crate::color::srgb_distance_squared(src_color, &self.0[0]);
        let mut i: usize = 1;
        while i < self.0.len()
            invariant
                1 <= i <= self@.len(),
                src_color.in_range(),
                dist == (|p: ColorRGB| srgb_dist_sq(*src_color, p)),
                best == nearest_index(self@, dist, i as int),
                best < i,
                best_dist == dist(self@[best as int]),
            decreases self@.len() - i,
        {
            let d = crate::color::srgb_distance_squared(src_color, &self.0[i]);
            if d < best_dist {
                best = i;
                best_dist = d;
            }
            i += 1;
        }
        self.0[best]
    }

    /// Reduces the palette to `target_colors_count` colors.
    ///
    /// Asking for more colors than the palette holds fails with
    /// `NotEnoughColors`; asking for as many gives the palette back unchanged.
    /// Otherwise the colors are clustered in `space` with k-means, and the
    /// palette of the centroids, mapped back to colors, is returned; centroids
    /// that map to the same color merge, so it may hold fewer colors than
    /// asked for, but never none when some were asked for. Asking for no
    /// colors gives an empty palette.
    pub fn try_reduce<S: ColorSpace>(self, target_colors_count: usize, space: &S) -> (r: Result<
        PaletteRGB,
        PaletteError,
    >)
        ensures
            self@.len() < target_colors_count <==> r == Err::<PaletteRGB, _>(
                PaletteError::NotEnoughColors {
                    expected: target_colors_count,
                    actual: self@.len() as usize,
                },
            ),
            self@.len() == target_colors_count ==> r == Ok::<_, PaletteError>(self),
            0 == target_colors_count < self@.len() ==> (r matches Ok(p) && p@.len() == 0),
            target_colors_count < self@.len() ==> match r {
                Ok(p) => p@.len() <= target_colors_count && (target_colors_count > 0 ==> p@.len()
                    > 0),
                Err(e) => e == PaletteError::ConversionFailed(CentroidsFindError::TooManyIterations),
            },
            0 < target_colors_count < self@.len() ==> exists|
                items: Seq<S::Perceptual>,
                picks: Seq<usize>,
                found: Result<Seq<S::Perceptual>, CentroidsFindError>,
                colors: Seq<ColorRGB>,
            |
                #[trigger] reduction_witness(
                    space,
                    self@,
                    target_colors_count as int,
                    items,
                    picks,
                    found,
                    colors,
                    r,
                ),
    {
        let n = self.0.len();
        if n < target_colors_count {
            return Err(PaletteError::NotEnoughColors { expected: target_colors_count, actual: n });
        }
        if n == target_colors_count {
            return Ok(self);
        }
        let items = perceive_all(space, &self.0);
        let distance = |a: &S::Perceptual, b: &S::Perceptual| -> (d: u64)
            ensures
                call_ensures(S::distance, (space, a, b), d),
            { space.distance(a, b) };
        let mean = |values: &[S::Perceptual]| -> (m: S::Perceptual)
            ensures
                call_ensures(S::mean, (space, values), m),
            { space.mean(values) };
        let found = find_centroids(items.as_slice(), target_colors_count, distance, mean);
        let ghost dist = space_distance(space);
        let ghost avg = space_mean(space);
        proof {
            assert forall|a: S::Perceptual, b: S::Perceptual, x: u64| #[trigger]
                measured_by(distance)(a, b, x) implies dist(a, b, x) by {}
            assert forall|m: Seq<S::Perceptual>, v: S::Perceptual| #[trigger]
                averaged_by(mean)(m, v) implies avg(m, v) by {
                let sl = choose|sl: &[S::Perceptual]| sl@ == m && #[trigger] call_ensures(
                    mean,
                    (sl,),
                    v,
                );
                assert(call_ensures(S::mean, (space, sl), v));
            }
        }
        match found {
            Err(e) => {
                proof {
                    if 0 < target_colors_count {
                        let picks = choose|picks: Seq<usize>| #[trigger]
                            distinct_picks(picks, n as int, target_colors_count as int)
                                && kmeans_outcome(
                                measured_by(distance),
                                averaged_by(mean),
                                items@,
                                picked(items@, picks),
                                result_view(found),
                            );
                        lemma_outcome_weaken(
                            measured_by(distance),
                            averaged_by(mean),
                            dist,
                            avg,
                            items@,
                            picked(items@, picks),
                            result_view(found),
                        );
                        assert(reduction_witness(
                            space,
                            self@,
                            target_colors_count as int,
                            items@,
                            picks,
                            Err(e),
                            Seq::empty(),
                            Err::<PaletteRGB, _>(PaletteError::ConversionFailed(e)),
                        ));
                    }
                }
                Err(PaletteError::ConversionFailed(e))
            },
            Ok(centroids) => {
                let mut colors: Vec<ColorRGB> = Vec::new();
                let mut j: usize = 0;
                while j < centroids.len()
                    invariant
                        j <= centroids@.len(),
                        colors@.len() == j,
                        forall|m: int|
                            0 <= m < j ==> call_ensures(
                                S::from_perceptual,
                                (space, &centroids@[m]),
                                #[trigger] colors@[m],
                            ),
                    decreases centroids@.len() - j,
                {
                    colors.push(space.from_perceptual(&centroids[j]));
                    j += 1;
                }
                let p = PaletteRGB::from_colors(colors);
                proof {
                    lemma_sorted_len(p@);
                    colors@.lemma_cardinality_of_set();
                    colors@.lemma_cardinality_of_empty_set_is_0();
                    p@.lemma_cardinality_of_empty_set_is_0();
                    if 0 < target_colors_count {
                        let picks = choose|picks: Seq<usize>| #[trigger]
                            distinct_picks(picks, n as int, target_colors_count as int)
                                && kmeans_outcome(
                                measured_by(distance),
                                averaged_by(mean),
                                items@,
                                picked(items@, picks),
                                result_view(found),
                            );
                        lemma_outcome_weaken(
                            measured_by(distance),
                            averaged_by(mean),
                            dist,
                            avg,
                            items@,
                            picked(items@, picks),
                            result_view(found),
                        );
                        assert(reduction_witness(
                            space,
                            self@,
                            target_colors_count as int,
                            items@,
                            picks,
                            Ok(centroids@),
                            colors@,
                            Ok::<_, PaletteError>(p),
                        ));
                    }
                }
                Ok(p)
            },
        }
    }

    /// The palette color nearest to `src_color` by the distance of `space`,
    /// the first one on ties.
    pub fn find_closest_by_lab<S: ColorSpace>(&self, src_color: &ColorRGB, space: &S) -> (r:
        ColorRGB)
        requires
            self@.len() > 0,
        ensures
            nearest_by_space(space, *src_color, self@, r),
            self@.contains(r),
    {
        let values = perceive_all(space, &self.0);
        closest_in_space(space, &self.0, &values, src_color)
    }

    /// The palette of the distinct pixel colors of `img`.
    pub fn from_rgbu8_image(img: &RgbImage) -> (r: PaletteRGB)
        ensures
            r@.to_set() == img.spec_pixels().to_set(),
            sorted_strictly(r@),
    {
        let pixels = img.pixels();
        let mut colors: Vec<ColorRGB> = Vec::new();
        let mut i: usize = 0;
        while i < pixels.len()
            invariant
                i <= pixels@.len(),
                colors@ == pixels@.take(i as int),
            decreases pixels@.len() - i,
        {
            colors.push(pixels[i]);
            i += 1;
            proof {
                assert(colors@ =~= pixels@.take(i as int));
            }
        }
        proof {
            assert(pixels@.take(pixels@.len() as int) == pixels@);
        }
        PaletteRGB::from_colors(colors)
    }

    /// The palette rendered for a true-color terminal, one line per color:
    /// a swatch, then the channels as `[r, g, b]`; empty for an empty palette.
    pub fn get_ansi_colors_visualization(&self) -> (r: String)
        ensures
            r@ == ansi_lines(self@),
    {
        let mut out = String::new();
        let mut i: usize = 0;
        while i < self.0.len()
            invariant
                i <= self@.len(),
                out@ == ansi_lines(self@.take(i as int)),
            decreases self@.len() - i,
        {
            proof {
                assert(self@.take(i + 1).drop_last() == self@.take(i as int));
            }
            push_ansi_line(&mut out, &self.0[i]);
            i += 1;
        }
        proof {
            assert(self@.take(self@.len() as int) == self@);
        }
        out
    }

    /// The colors, in palette order.
    pub fn to_rgbu8(self) -> (r: Vec<ColorRGB>)
        ensures
            r@ == self@,
    {
        self.0
    }

    /// The colors as working colors, in palette order.
    pub fn to_srgb(self) -> (r: Vec<Srgb>)
        ensures
            r@ == self@.map_values(|c: ColorRGB| srgb_of(c)),
    {
        let mut out: Vec<Srgb> = Vec::new();
        let mut i: usize = 0;
        while i < self.0.len()
            invariant
                i <= self@.len(),
                out@ == self@.take(i as int).map_values(|c: ColorRGB| srgb_of(c)),
            decreases self@.len() - i,
        {
            out.push(rgbu8_to_srgb(self.0[i]));
            i += 1;
            proof {
                assert(out@ =~= self@.take(i as int).map_values(|c: ColorRGB| srgb_of(c)));
            }
        }
        proof {
            assert(self@.take(self@.len() as int) == self@);
        }
        out
    }

    /// The colors in the perceptual representation of `space`, in palette order.
    pub fn to_lab<S: ColorSpace>(self, space: &S) -> (r: Vec<S::Perceptual>)
        ensures
            perceived(space, self@, r@),
    {
        perceive_all(space, &self.0)
    }

    /// The colors, in palette order.
    pub fn colors(&self) -> (r: &Vec<ColorRGB>)
        ensures
            r@ == self@,
            sorted_strictly(self@),
    {
        proof {
            use_type_invariant(self);
        }
        &self.0
    }
}

impl std::ops::Deref for PaletteRGB {
    type Target = Vec<ColorRGB>;

    fn deref(&self) -> (r: &Vec<ColorRGB>)
        ensures
            r@ == self@,
    {
        &self.0
    }
}

/// Every color comes strictly before every later one in palette order; so no
/// color appears twice.
pub open spec fn sorted_strictly(s: Seq<ColorRGB>) -> bool {
    forall|i: int, j: int| 0 <= i < j < s.len() ==> color_precedes(#[trigger] s[i], #[trigger] s[j])
}

/// The set of a prefix grows by the next element.
proof fn lemma_take_next_to_set(s: Seq<ColorRGB>, i: int)
    requires
        0 <= i < s.len(),
    ensures
        s.take(i + 1).to_set() == s.take(i).to_set().insert(s[i]),
{
    let t = s.take(i);
    let t1 = s.take(i + 1);
    assert forall|x: ColorRGB| t1.to_set().contains(x) implies t.to_set().insert(s[i]).contains(
        x,
    ) by {
        let k = choose|k: int| 0 <= k < t1.len() && t1[k] == x;
        if k < i {
            assert(t[k] == x);
        }
    }
    assert forall|x: ColorRGB| t.to_set().insert(s[i]).contains(x) implies t1.to_set().contains(
        x,
    ) by {
        if x == s[i] {
            assert(t1[i] == x);
        } else {
            let k = choose|k: int| 0 <= k < t.len() && t[k] == x;
            assert(t1[k] == x);
        }
    }
    assert(t1.to_set() =~= t.to_set().insert(s[i]));
}

/// Position of the first color among the first `n` of `pal` that is nearest
/// by the measure `dist`.
pub open spec fn nearest_index(pal: Seq<ColorRGB>, dist: spec_fn(ColorRGB) -> int, n: int) -> int
    decreases n,
{
    if n <= 1 {
        0
    } else {
        let m = nearest_index(pal, dist, n - 1);
        if dist(pal[n - 1]) < dist(pal[m]) {
            n - 1
        } else {
            m
        }
    }
}

/// The nearest index is a position of the palette, and no color of the
/// palette is nearer.
pub proof fn lemma_nearest_index(pal: Seq<ColorRGB>, dist: spec_fn(ColorRGB) -> int, n: int)
    requires
        1 <= n <= pal.len(),
    ensures
        0 <= nearest_index(pal, dist, n) < n,
        forall|j: int| 0 <= j < n ==> dist(pal[nearest_index(pal, dist, n)]) <= dist(#[trigger] pal[j]),
    decreases n,
{
    if n > 1 {
        lemma_nearest_index(pal, dist, n - 1);
    }
}

/// The palette color nearest to `c` in RGB space, the first one on ties.
pub open spec fn closest_by_rgb(pal: Seq<ColorRGB>, c: ColorRGB) -> ColorRGB {
    pal[nearest_index(pal, |p: ColorRGB| rgb_dist_sq(c, p), pal.len() as int)]
}

/// The palette color nearest to the working color `c`, the first one on ties.
pub open spec fn closest_by_srgb(pal: Seq<ColorRGB>, c: Srgb) -> ColorRGB {
    pal[nearest_index(pal, |p: ColorRGB| srgb_dist_sq(c, p), pal.len() as int)]
}

/// Two places of a strictly sorted list hold different colors.
pub proof fn lemma_sorted_distinct(s: Seq<ColorRGB>, i: int, j: int)
    requires
        sorted_strictly(s),
        0 <= i < s.len(),
        0 <= j < s.len(),
        i != j,
    ensures
        s[i] != s[j],
{
    if i < j {
        lemma_precedes_total(s[i], s[j], s[j]);
    } else {
        lemma_precedes_total(s[j], s[i], s[i]);
    }
}

/// Palette order is canonical: two palettes with the same colors list them in
/// the same order, so equal color sets give equal palettes.
pub proof fn lemma_palette_order_is_canonical(a: Seq<ColorRGB>, b: Seq<ColorRGB>)
    requires
        sorted_strictly(a),
        sorted_strictly(b),
        a.to_set() == b.to_set(),
    ensures
        a == b,
    decreases a.len(),
{
    if a.len() == 0 {
        if b.len() > 0 {
            assert(b.to_set().contains(b[0]));
        }
        assert(a =~= b);
    } else {
        assert(a.to_set().contains(a[0]));
        assert(b.len() > 0);
        let j = choose|j: int| 0 <= j < b.len() && b[j] == a[0];
        assert(b.to_set().contains(b[0]));
        let i = choose|i: int| 0 <= i < a.len() && a[i] == b[0];
        if a[0] != b[0] {
            assert(i > 0 && j > 0);
            assert(color_precedes(a[0], a[i]));
            assert(color_precedes(b[0], b[j]));
            lemma_precedes_total(a[0], b[0], a[0]);
        }
        let ta = a.subrange(1, a.len() as int);
        let tb = b.subrange(1, b.len() as int);
        assert forall|x: ColorRGB| ta.to_set().contains(x) <==> tb.to_set().contains(x) by {
            if ta.to_set().contains(x) {
                let k = choose|k: int| 0 <= k < ta.len() && ta[k] == x;
                assert(a[k + 1] == x);
                assert(a.to_set().contains(x));
                let m = choose|m: int| 0 <= m < b.len() && b[m] == x;
                if m == 0 {
                    lemma_sorted_distinct(a, 0, k + 1);
                }
                assert(tb[m - 1] == x);
            }
            if tb.to_set().contains(x) {
                let k = choose|k: int| 0 <= k < tb.len() && tb[k] == x;
                assert(b[k + 1] == x);
                assert(b.to_set().contains(x));
                let m = choose|m: int| 0 <= m < a.len() && a[m] == x;
                if m == 0 {
                    lemma_sorted_distinct(b, 0, k + 1);
                }
                assert(ta[m - 1] == x);
            }
        }
        assert(ta.to_set() =~= tb.to_set());
        lemma_palette_order_is_canonical(ta, tb);
        assert(a =~= b) by {
            assert forall|k: int| 0 <= k < a.len() implies a[k] == b[k] by {
                if k > 0 {
                    assert(a[k] == ta[k - 1]);
                    assert(b[k] == tb[k - 1]);
                }
            }
        }
    }
}

/// A strictly sorted list has as many elements as its set.
proof fn lemma_sorted_len(s: Seq<ColorRGB>)
    requires
        sorted_strictly(s),
    ensures
        s.len() == s.to_set().len(),
{
    assert forall|i: int, j: int| 0 <= i < s.len() && 0 <= j < s.len() && i != j implies s[i]
        != s[j] by {
        lemma_sorted_distinct(s, i, j);
    }
    s.unique_seq_to_set();
}

/// The gray color whose channels are all `v`.
pub open spec fn gray(v: int) -> ColorRGB {
    ColorRGB([v as u8, v as u8, v as u8])
}

/// Channel value of step `i` of a grayscale ramp with `steps` steps.
pub open spec fn gray_level(i: int, steps: int) -> int {
    255 * i / (steps - 1)
}

/// The ramp's levels stay within `0..=255` and do not decrease; with at most
/// 256 steps they strictly increase.
proof fn lemma_gray_level(i: int, steps: int)
    requires
        steps >= 2,
        0 <= i < steps - 1,
    ensures
        0 <= gray_level(i, steps) <= gray_level(i + 1, steps) <= 255,
        steps <= 256 ==> gray_level(i, steps) < gray_level(i + 1, steps),
{
    let d = steps - 1;
    vstd::arithmetic::div_mod::lemma_div_is_ordered(255 * i, 255 * (i + 1), d);
    vstd::arithmetic::div_mod::lemma_div_is_ordered(255 * (i + 1), 255 * d, d);
    vstd::arithmetic::div_mod::lemma_div_by_multiple(255, d);
    vstd::arithmetic::div_mod::lemma_div_pos_is_pos(255 * i, d);
    if steps <= 256 {
        let q = 255 * i / d;
        vstd::arithmetic::div_mod::lemma_fundamental_div_mod(255 * i, d);
        assert((q + 1) * d <= 255 * (i + 1)) by (nonlinear_arith)
            requires
                255 * i == d * q + (255 * i) % d,
                0 <= (255 * i) % d < d,
                d <= 255,
        ;
        vstd::arithmetic::div_mod::lemma_div_is_ordered((q + 1) * d, 255 * (i + 1), d);
        vstd::arithmetic::div_mod::lemma_div_by_multiple(q + 1, d);
    }
}

/// Gray colors follow palette order by their level.
proof fn lemma_gray_precedes(a: int, b: int)
    requires
        0 <= a < b <= 255,
    ensures
        color_precedes(gray(a), gray(b)),
{
    assert(gray(a).r() == a && gray(a).g() == a && gray(a).b() == a);
    assert(gray(b).r() == b && gray(b).g() == b && gray(b).b() == b);
}

/// The distance relation of a color space: `d` is a distance it may give
/// between `a` and `b`.
pub open spec fn space_distance<S: ColorSpace>(space: &S) -> spec_fn(
    S::Perceptual,
    S::Perceptual,
    u64,
) -> bool {
    |a: S::Perceptual, b: S::Perceptual, d: u64| call_ensures(S::distance, (space, &a, &b), d)
}

/// The mean relation of a color space: `v` is a mean it may give for a slice
/// holding `items`.
pub open spec fn space_mean<S: ColorSpace>(space: &S) -> spec_fn(
    Seq<S::Perceptual>,
    S::Perceptual,
) -> bool {
    |items: Seq<S::Perceptual>, v: S::Perceptual|
        exists|s: &[S::Perceptual]| s@ == items && #[trigger] call_ensures(S::mean, (space, s), v)
}

/// `values` are perceptual values that `space` gives to `colors`, one each.
pub open spec fn perceived<S: ColorSpace>(
    space: &S,
    colors: Seq<ColorRGB>,
    values: Seq<S::Perceptual>,
) -> bool {
    &&& values.len() == colors.len()
    &&& forall|j: int|
        0 <= j < colors.len() ==> call_ensures(
            S::to_perceptual,
            (space, &colors[j]),
            #[trigger] values[j],
        )
}

/// `colors` are colors that `space` gives back for `values`, one each.
pub open spec fn restored<S: ColorSpace>(
    space: &S,
    values: Seq<S::Perceptual>,
    colors: Seq<ColorRGB>,
) -> bool {
    &&& colors.len() == values.len()
    &&& forall|j: int|
        0 <= j < values.len() ==> call_ensures(
            S::from_perceptual,
            (space, &values[j]),
            #[trigger] colors[j],
        )
}

/// `r` is palette color `i`, and `i` is the first position nearest to `src`
/// by the distance of `space`, with `target` and `values` the perceptual
/// values of `src` and of the palette.
pub open spec fn nearest_witness<S: ColorSpace>(
    space: &S,
    src: ColorRGB,
    pal: Seq<ColorRGB>,
    r: ColorRGB,
    target: S::Perceptual,
    values: Seq<S::Perceptual>,
    i: int,
) -> bool {
    &&& call_ensures(S::to_perceptual, (space, &src), target)
    &&& perceived(space, pal, values)
    &&& is_nearest(space_distance(space), target, values, i)
    &&& 0 <= i < pal.len()
    &&& r == pal[i]
}

/// `r` is the palette color nearest to `src` by the distance of `space`, the
/// first one on ties.
pub open spec fn nearest_by_space<S: ColorSpace>(
    space: &S,
    src: ColorRGB,
    pal: Seq<ColorRGB>,
    r: ColorRGB,
) -> bool {
    exists|target: S::Perceptual, values: Seq<S::Perceptual>, i: int|
        #[trigger] nearest_witness(space, src, pal, r, target, values, i)
}

/// Position of the value in `palette` nearest to `color` by the distance of
/// `space`, the first one on ties.
pub fn find_closest_lab_color<S: ColorSpace>(
    space: &S,
    color: &S::Perceptual,
    palette: &[S::Perceptual],
) -> (r: usize)
    requires
        palette@.len() > 0,
    ensures
        r < palette@.len(),
        is_nearest(space_distance(space), *color, palette@, r as int),
{
    let distance = |a: &S::Perceptual, b: &S::Perceptual| -> (d: u64)
        ensures
            call_ensures(S::distance, (space, a, b), d),
        { space.distance(a, b) };
    let r = crate::kmean::find_closest_centroid_idx(color, palette, &distance);
    proof {
        lemma_nearest_weaken(measured_by(distance), space_distance(space), *color, palette@, r as int);
    }
    r
}

/// How a reduction came about: `items` are the palette's perceptual values,
/// `picks` the positions the clustering started from, and `found` its outcome
/// in the distance and mean of `space`. A failed clustering is reported as
/// `ConversionFailed`; otherwise the result is the palette of `colors`, the
/// colors that `space` gives back for the centroids.
pub open spec fn reduction_witness<S: ColorSpace>(
    space: &S,
    pal: Seq<ColorRGB>,
    k: int,
    items: Seq<S::Perceptual>,
    picks: Seq<usize>,
    found: Result<Seq<S::Perceptual>, CentroidsFindError>,
    colors: Seq<ColorRGB>,
    r: Result<PaletteRGB, PaletteError>,
) -> bool {
    &&& perceived(space, pal, items)
    &&& distinct_picks(picks, pal.len() as int, k)
    &&& kmeans_outcome(space_distance(space), space_mean(space), items, picked(items, picks), found)
    &&& match found {
        Ok(cs) => restored(space, cs, colors) && (r matches Ok(p) && p@.to_set() == colors.to_set()),
        Err(e) => r == Err::<PaletteRGB, _>(PaletteError::ConversionFailed(e)),
    }
}

/// The perceptual values of `colors`, in order.
pub(crate) fn perceive_all<S: ColorSpace>(space: &S, colors: &Vec<ColorRGB>) -> (r: Vec<S::Perceptual>)
    ensures
        perceived(space, colors@, r@),
{
    let mut values: Vec<S::Perceptual> = Vec::new();
    let mut i: usize = 0;
    while i < colors.len()
        invariant
            i <= colors@.len(),
            values@.len() == i,
            forall|j: int|
                0 <= j < i ==> call_ensures(S::to_perceptual, (space, &colors@[j]), #[trigger] values@[j]),
        decreases colors@.len() - i,
    {
        values.push(space.to_perceptual(&colors[i]));
        i += 1;
    }
    values
}

/// The palette color nearest to `src_color` by the distance of `space`, given
/// the palette's perceptual values.
pub(crate) fn closest_in_space<S: ColorSpace>(
    space: &S,
    colors: &Vec<ColorRGB>,
    values: &Vec<S::Perceptual>,
    src_color: &ColorRGB,
) -> (r: ColorRGB)
    requires
        colors@.len() > 0,
        perceived(space, colors@, values@),
    ensures
        nearest_by_space(space, *src_color, colors@, r),
        colors@.contains(r),
{
    let target = space.to_perceptual(src_color);
    let best = find_closest_lab_color(space, &target, values.as_slice());
    let r = colors[best];
    proof {
        assert(nearest_witness(space, *src_color, colors@, r, target, values@, best as int));
        assert(colors@[best as int] == r);
    }
    r
}

/// The color nearest by `dist` is a color of the palette.
pub proof fn lemma_nearest_in_palette(pal: Seq<ColorRGB>, dist: spec_fn(ColorRGB) -> int)
    requires
        pal.len() > 0,
    ensures
        pal.contains(pal[nearest_index(pal, dist, pal.len() as int)]),
{
    lemma_nearest_index(pal, dist, pal.len() as int);
}

/// The decimal digit `d` as text.
pub open spec fn digit_text(d: int) -> Seq<char> {
    if d == 0 {
        "0"@
    } else if d == 1 {
        "1"@
    } else if d == 2 {
        "2"@
    } else if d == 3 {
        "3"@
    } else if d == 4 {
        "4"@
    } else if d == 5 {
        "5"@
    } else if d == 6 {
        "6"@
    } else if d == 7 {
        "7"@
    } else if d == 8 {
        "8"@
    } else {
        "9"@
    }
}

/// A channel value in decimal, without leading zeros.
pub open spec fn decimal(v: u8) -> Seq<char> {
    if v < 10 {
        digit_text(v as int)
    } else if v < 100 {
        digit_text(v as int / 10) + digit_text(v as int % 10)
    } else {
        digit_text(v as int / 100) + digit_text((v as int / 10) % 10) + digit_text(v as int % 10)
    }
}

/// One line of the terminal rendering of a palette: a swatch in the color
/// (a true-color ANSI background), then its channels as `[r, g, b]`.
pub open spec fn ansi_line(c: ColorRGB) -> Seq<char> {
    "\x1b[48;2;"@ + decimal(c.0@[0]) + ";"@ + decimal(c.0@[1]) + ";"@ + decimal(c.0@[2])
        + "m  \x1b[0m: ["@ + decimal(c.0@[0]) + ", "@ + decimal(c.0@[1]) + ", "@ + decimal(
        c.0@[2],
    ) + "]\n"@
}

/// The terminal rendering of a list of colors, one line each.
pub open spec fn ansi_lines(s: Seq<ColorRGB>) -> Seq<char>
    decreases s.len(),
{
    if s.len() == 0 {
        Seq::empty()
    } else {
        ansi_lines(s.drop_last()) + ansi_line(s.last())
    }
}

fn digit_str(d: u8) -> (r: &'static str)
    requires
        d < 10,
    ensures
        r@ == digit_text(d as int),
{
    match d {
        0 => "0",
        1 => "1",
        2 => "2",
        3 => "3",
        4 => "4",
        5 => "5",
        6 => "6",
        7 => "7",
        8 => "8",
        _ => "9",
    }
}

fn push_decimal(out: &mut String, v: u8)
    ensures
        final(out)@ == old(out)@ + decimal(v),
{
    if v >= 100 {
        out.append(digit_str(v / 100));
        out.append(digit_str((v / 10) % 10));
    } else if v >= 10 {
        out.append(digit_str(v / 10));
    }
    out.append(digit_str(v % 10));
    proof {
        assert(final(out)@ =~= old(out)@ + decimal(v));
    }
}

fn push_ansi_line(out: &mut String, c: &ColorRGB)
    ensures
        final(out)@ == old(out)@ + ansi_line(*c),
{
    let mut line = String::new();
    line.append("\x1b[48;2;");
    proof {
        assert(line@ =~= "\x1b[48;2;"@);
    }
    push_decimal(&mut line, c.0[0]);
    line.append(";");
    push_decimal(&mut line, c.0[1]);
    line.append(";");
    push_decimal(&mut line, c.0[2]);
    line.append("m  \x1b[0m: [");
    push_decimal(&mut line, c.0[0]);
    line.append(", ");
    push_decimal(&mut line, c.0[1]);
    line.append(", ");
    push_decimal(&mut line, c.0[2]);
    line.append("]\n");
    out.append(line.as_str());
}

/// The place of `c` in a strictly sorted list: every color before it comes
/// before `c` in palette order, and none from it on does.
pub fn search_position(colors: &Vec<ColorRGB>, c: &ColorRGB) -> (p: usize)
    requires
        sorted_strictly(colors@),
    ensures
        p <= colors@.len(),
        forall|m: int| 0 <= m < p ==> color_precedes(#[trigger] colors@[m], *c),
        forall|m: int| p <= m < colors@.len() ==> !color_precedes(#[trigger] colors@[m], *c),
{
    let mut lo: usize = 0;
    let mut hi: usize = colors.len();
    while lo < hi
        invariant
            lo <= hi <= colors@.len(),
            sorted_strictly(colors@),
            forall|m: int| 0 <= m < lo ==> color_precedes(#[trigger] colors@[m], *c),
            forall|m: int| hi <= m < colors@.len() ==> !color_precedes(#[trigger] colors@[m], *c),
        decreases hi - lo,
    {
        let mid = lo + (hi - lo) / 2;
        if colors[mid].precedes(c) {
            proof {
                assert forall|m: int| 0 <= m <= mid implies color_precedes(
                    #[trigger] colors@[m],
                    *c,
                ) by {
                    if m < mid {
                        lemma_precedes_total(colors@[m], colors@[mid as int], *c);
                    }
                }
            }
            lo = mid + 1;
        } else {
            proof {
                assert forall|m: int| mid <= m < colors@.len() implies !color_precedes(
                    #[trigger] colors@[m],
                    *c,
                ) by {
                    if m > mid {
                        lemma_precedes_total(colors@[mid as int], colors@[m], *c);
                    }
                }
            }
            hi = mid;
        }
    }
    lo
}

/// In a strictly sorted list that holds `c`, the place of `c` holds `c`.
pub proof fn lemma_position_of_member(s: Seq<ColorRGB>, c: ColorRGB, p: int)
    requires
        sorted_strictly(s),
        s.contains(c),
        0 <= p <= s.len(),
        forall|m: int| 0 <= m < p ==> color_precedes(#[trigger] s[m], c),
        forall|m: int| p <= m < s.len() ==> !color_precedes(#[trigger] s[m], c),
    ensures
        p < s.len(),
        s[p] == c,
{
    let q = choose|q: int| 0 <= q < s.len() && s[q] == c;
    lemma_precedes_total(c, c, c);
    if q < p {
        assert(color_precedes(s[q], c));
    }
    if q > p {
        assert(color_precedes(s[p], s[q]));
    }
}

/// Inserts `c` at its place in a strictly sorted list, unless it is there already.
fn insert_sorted(colors: &mut Vec<ColorRGB>, c: ColorRGB)
    requires
        sorted_strictly(old(colors)@),
    ensures
        sorted_strictly(final(colors)@),
        final(colors)@.to_set() == old(colors)@.to_set().insert(c),
{
    let ghost s0 = colors@;
    let p = search_position(colors, &c);
    if p < colors.len() && colors[p] == c {
        proof {
            assert(s0.to_set().insert(c) =~= s0.to_set()) by {
                assert(s0.to_set().contains(s0[p as int]));
            }
        }
        return;
    }
    proof {
        if p < s0.len() {
            lemma_precedes_total(s0[p as int], c, c);
            assert(color_precedes(c, s0[p as int]));
            assert forall|m: int| p <= m < s0.len() implies color_precedes(c, #[trigger] s0[m]) by {
                if m > p {
                    lemma_precedes_total(c, s0[p as int], s0[m]);
                }
            }
        }
    }
    colors.insert(p, c);
    proof {
        let s1 = colors@;
        assert(s1 == s0.insert(p as int, c));
        assert forall|i: int, j: int| 0 <= i < j < s1.len() implies color_precedes(
            #[trigger] s1[i],
            #[trigger] s1[j],
        ) by {
            if j < p {
            } else if j == p {
            } else if i < p {
                lemma_precedes_total(s1[i], c, s1[j]);
            } else if i == p {
            } else {
            }
        }
        assert forall|x: ColorRGB| s1.to_set().contains(x) <==> s0.to_set().insert(c).contains(
            x,
        ) by {
            if s1.to_set().contains(x) {
                let i = choose|i: int| 0 <= i < s1.len() && s1[i] == x;
                if i < p {
                    assert(s0[i] == x);
                } else if i > p {
                    assert(s0[i - 1] == x);
                }
            }
            if s0.to_set().contains(x) {
                let i = choose|i: int| 0 <= i < s0.len() && s0[i] == x;
                if i < p {
                    assert(s1[i] == x);
                } else {
                    assert(s1[i + 1] == x);
                }
            }
            if x == c {
                assert(s1[p as int] == c);
            }
        }
        assert(s1.to_set() =~= s0.to_set().insert(c));
    }
}

} // verus!
