//! The render engine: escape-time iteration, the pixel-to-plane mapping, and
//! the band-parallel renderer.
//!
//! Every pixel's value is a pure function of the resolution, the viewport and
//! the pixel's own coordinates, written down by `pixel_value_spec`. A render
//! splits the image into contiguous horizontal bands, hands each band to its
//! own thread, and concatenates the results; the decomposition lemma at the
//! bottom of this file shows that any such split reproduces the sequential
//! image byte for byte.

use vstd::prelude::*;
use vstd::arithmetic::div_mod::{
    lemma_div_basics_1, lemma_div_is_ordered, lemma_div_plus_one, lemma_div_pos_is_pos,
    lemma_fundamental_div_mod, lemma_fundamental_div_mod_converse_div,
    lemma_fundamental_div_mod_converse_mod, lemma_mod_division_less_than_divisor,
};
use vstd::arithmetic::mul::{
    lemma_mul_inequality, lemma_mul_is_distributive_add_other_way, lemma_mul_nonnegative,
};
use crate::complex::{norm_sqr_spec, orbit_ok, point_ok, step_spec, Complex, PlanePoint};
use crate::fixed::{lemma_tdiv_exact, lemma_tdiv_scaled_between, tdiv, COORD_MAX, SCALE};
use crate::viewport::{region_ok, Region, Viewport};

verus! {

/// Iteration budget of the escape test; an escape index is always below it,
/// so `255 - index` fits a grayscale byte.
pub const LIMIT: usize = 255;

/// Number of parallel bands a render is split into.
pub const WORKERS: usize = 8;

/// The render engine: a fixed output resolution in pixels, set once.
#[derive(Debug)]
pub struct Mandelbrot {
    bounds: (usize, usize),
}

/// Where pixel `(col, row)` of a `w * h` image lies on the complex plane,
/// for a viewport with corners `ul` and `lr`: the affine map
/// `re = ul.re + col * (lr.re - ul.re) / w`,
/// `im = ul.im - row * (ul.im - lr.im) / h`, in truncating fixed-point
/// arithmetic. Row zero is the top edge; growing rows walk down the plane.
pub open spec fn pixel_to_point_spec(
    w: int,
    h: int,
    ul: PlanePoint,
    lr: PlanePoint,
    col: int,
    row: int,
) -> PlanePoint
    recommends
        w >= 1,
        h >= 1,
{
    PlanePoint {
        re: ul.re + tdiv(col * (lr.re - ul.re), w),
        im: ul.im - tdiv(row * (ul.im - lr.im), h),
    }
}

/// The escape iteration from state `z` at step `i`: the first step index at
/// which `|z|^2` leaves the disk of radius 2 (`4 * SCALE` in fixed point),
/// or `None` when the budget `limit` runs out first.
pub open spec fn escape_from(z: PlanePoint, c: PlanePoint, i: int, limit: int) -> Option<int>
    decreases limit - i,
{
    if i >= limit {
        None
    } else if norm_sqr_spec(z) > 4 * (SCALE as int) {
        Some(i)
    } else {
        escape_from(step_spec(z, c), c, i + 1, limit)
    }
}

/// The escape time of `c`: the iteration runs from `z = 0`.
pub open spec fn escape_time_spec(c: PlanePoint, limit: int) -> Option<int> {
    escape_from(PlanePoint { re: 0, im: 0 }, c, 0, limit)
}

/// Grayscale intensity of an escape result: a bounded point renders black,
/// an escape at step `i` renders `255 - i`, the brighter the faster.
pub open spec fn intensity_spec(e: Option<int>) -> u8 {
    match e {
        Option::None => 0u8,
        Option::Some(i) => (255 - i) as u8,
    }
}

/// The value of pixel `(col, row)` in a `w * h` render of region `r`.
pub open spec fn pixel_value_spec(w: int, h: int, r: Region, col: int, row: int) -> u8 {
    intensity_spec(
        escape_time_spec(pixel_to_point_spec(w, h, r.ul, r.lr, col, row), LIMIT as int),
    )
}

/// The bytes of `rows` full image rows starting at row `top`, in row-major
/// order, each pixel mapped through the full `w * h` image's scale.
pub open spec fn band_rows_spec(w: int, h: int, r: Region, top: int, rows: int) -> Seq<u8> {
    Seq::new((rows * w) as nat, |k: int| pixel_value_spec(w, h, r, k % w, top + k / w))
}

/// The whole image: all `h` rows from the top.
pub open spec fn render_spec(w: int, h: int, r: Region) -> Seq<u8> {
    band_rows_spec(w, h, r, 0, h)
}

/// Each band after the first starts exactly where its predecessor ended.
pub open spec fn bands_adjacent(bands: Seq<(usize, usize)>) -> bool {
    forall|i: int|
        0 <= i && i + 1 < bands.len() ==> bands[i + 1].0 == (#[trigger] bands[i]).0 + bands[i].1
}

/// The bands tile the whole row range `0 .. h`: contiguous, starting at row
/// zero, ending at row `h`.
pub open spec fn bands_tile(bands: Seq<(usize, usize)>, h: int) -> bool {
    &&& bands.len() == 0 ==> h == 0
    &&& bands.len() >= 1 ==> bands[0].0 == 0
    &&& bands_adjacent(bands)
    &&& bands.len() >= 1 ==> bands[bands.len() - 1].0 + bands[bands.len() - 1].1 == h
}

/// The first row after the first `i` bands.
pub open spec fn band_end(bands: Seq<(usize, usize)>, i: int) -> int {
    if i <= 0 {
        0
    } else {
        bands[i - 1].0 + bands[i - 1].1
    }
}

/// Total row count of a list of bands.
pub open spec fn rows_of(bands: Seq<(usize, usize)>) -> int
    decreases bands.len(),
{
    if bands.len() == 0 {
        0
    } else {
        bands[0].1 + rows_of(bands.drop_first())
    }
}

/// The bytes of a list of bands rendered independently, concatenated in
/// order.
pub open spec fn concat_parts(w: int, h: int, r: Region, bands: Seq<(usize, usize)>) -> Seq<u8>
    decreases bands.len(),
{
    if bands.len() == 0 {
        Seq::empty()
    } else {
        band_rows_spec(w, h, r, bands[0].0 as int, bands[0].1 as int) + concat_parts(
            w,
            h,
            r,
            bands.drop_first(),
        )
    }
}

/// Relies on `crossbeam::scope` and `ScopedJoinHandle::join`
/// (crossbeam-utils): `scope` runs every spawned closure to completion
/// before it returns, and `join` hands back the closure's return value, here
/// collected in spawn order. Each closure only calls the verified
/// `partial_render`, whose contract gives each band's bytes; the stated
/// preconditions are exactly `partial_render`'s, so no closure can panic.
#[verifier::external_body]
fn render_bands(engine: &Mandelbrot, viewport: Viewport, bands: &Vec<(usize, usize)>) -> (parts:
    Vec<Vec<u8>>)
    requires
        engine.width() >= 1,
        engine.height() >= 1,
        region_ok(viewport@),
        forall|i: int|
            0 <= i < bands@.len() ==> (#[trigger] bands@[i]).0 + bands@[i].1 <= engine.height()
                && (bands@[i].1 as int) * (engine.width() as int) <= usize::MAX as int,
    ensures
        parts@.len() == bands@.len(),
        forall|i: int|
            0 <= i < bands@.len() ==> (#[trigger] parts@[i])@ == band_rows_spec(
                engine.width() as int,
                engine.height() as int,
                viewport@,
                bands@[i].0 as int,
                bands@[i].1 as int,
            ),
{
    let mut parts: Vec<Vec<u8>> = Vec::new();
    crossbeam::scope(|spawner| {
        let mut handles = Vec::new();
        for band in bands.iter() {
            let (top, rows) = *band;
            handles.push(spawner.spawn(move |_| engine.partial_render(viewport, top, rows)));
        }
        for handle in handles {
            parts.push(handle.join().unwrap());
        }
    }).unwrap();
    parts
}

impl Mandelbrot {
    /// The fixed output width in pixels.
    pub closed spec fn width(&self) -> usize {
        self.bounds.0
    }

    /// The fixed output height in pixels.
    pub closed spec fn height(&self) -> usize {
        self.bounds.1
    }

    /// Binds an engine to a fixed `(width, height)` resolution.
    pub fn new(bounds: (usize, usize)) -> (m: Mandelbrot)
        ensures
            m.width() == bounds.0,
            m.height() == bounds.1,
    {
        Mandelbrot { bounds }
    }

    /// Maps a pixel of the output image onto the complex plane.
    ///
    /// `bounds` is the image size whose scale the map uses, `pixel` a
    /// `(column, row)` pair within it; `upper_left` and `lower_right` are the
    /// viewport corners. The result always lies within the corners'
    /// coordinate range.
    pub fn pixel_to_point(
        &self,
        bounds: (usize, usize),
        pixel: (usize, usize),
        upper_left: Complex,
        lower_right: Complex,
    ) -> (p: Complex)
        requires
            bounds.0 >= 1,
            bounds.1 >= 1,
            pixel.0 <= bounds.0,
            pixel.1 <= bounds.1,
            point_ok(upper_left@),
            point_ok(lower_right@),
        ensures
            p@ == pixel_to_point_spec(
                bounds.0 as int,
                bounds.1 as int,
                upper_left@,
                lower_right@,
                pixel.0 as int,
                pixel.1 as int,
            ),
            point_ok(p@),
    {
        let plane_width: i64 = lower_right.re - upper_left.re;
        let plane_height: i64 = upper_left.im - lower_right.im;
        proof {
            assert((i128::MIN as int) < (pixel.0 as int) * (plane_width as int)
                && (pixel.0 as int) * (plane_width as int) < (i128::MAX as int)
                && (i128::MIN as int) < (pixel.1 as int) * (plane_height as int)
                && (pixel.1 as int) * (plane_height as int) < (i128::MAX as int))
                by (nonlinear_arith)
                requires
                    0 <= pixel.0 as int <= u64::MAX as int && 0 <= pixel.1 as int <= u64::MAX
                        as int && -2 * (COORD_MAX as int) <= plane_width as int <= 2 * (COORD_MAX
                        as int) && -2 * (COORD_MAX as int) <= plane_height as int <= 2 * (COORD_MAX
                        as int),
            ;
            lemma_tdiv_scaled_between(pixel.0 as int, bounds.0 as int, plane_width as int);
            lemma_tdiv_scaled_between(pixel.1 as int, bounds.1 as int, plane_height as int);
        }
        let re_step: i128 = crate::fixed::div_trunc(
            (pixel.0 as i128) * (plane_width as i128),
            bounds.0 as i128,
        );
        let im_step: i128 = crate::fixed::div_trunc(
            (pixel.1 as i128) * (plane_height as i128),
            bounds.1 as i128,
        );
        let re: i64 = ((upper_left.re as i128) + re_step) as i64;
        let im: i64 = ((upper_left.im as i128) - im_step) as i64;
        Complex { re, im }
    }

    /// Decides whether `c` looks like a member of the Mandelbrot set, using
    /// at most `limit` iterations.
    ///
    /// Returns `Some(i)` when the orbit of `c` leaves the radius-2 disk at
    /// step `i`, `None` when the budget runs out without an escape — the
    /// point is then treated as a member.
    pub fn escape_time(&self, c: Complex, limit: usize) -> (r: Option<usize>)
        requires
            point_ok(c@),
        ensures
            r is None <==> escape_time_spec(c@, limit as int) is None,
            r matches Some(i) ==> escape_time_spec(c@, limit as int) == Some(i as int),
    {
        let mut z = Complex::new(0, 0);
        let mut i: usize = 0;
        while i < limit
            invariant
                point_ok(c@),
                i <= limit,
                orbit_ok(z@),
                escape_from(z@, c@, i as int, limit as int) == escape_time_spec(
                    c@,
                    limit as int,
                ),
            decreases limit as int - i as int,
        {
            let n: u128 = z.norm_sqr();
            if n > 4 * (SCALE as u128) {
                return Some(i);
            }
            proof {
                lemma_radius_bound(z@);
            }
            z = z.step(c);
            i = i + 1;
        }
        None
    }

    /// Renders `rows` full rows starting at row `top`, mapping each pixel
    /// through the engine's whole resolution, into a fresh row-major buffer.
    pub fn partial_render(&self, viewport: Viewport, top: usize, rows: usize) -> (pixels: Vec<
        u8,
    >)
        requires
            self.width() >= 1,
            self.height() >= 1,
            top + rows <= self.height(),
            (rows as int) * (self.width() as int) <= usize::MAX as int,
            region_ok(viewport@),
        ensures
            pixels@ == band_rows_spec(
                self.width() as int,
                self.height() as int,
                viewport@,
                top as int,
                rows as int,
            ),
    {
        let (w, h) = self.bounds;
        let mut pixels: Vec<u8> = Vec::new();
        let mut row: usize = 0;
        while row < rows
            invariant
                w == self.width(),
                h == self.height(),
                w >= 1,
                h >= 1,
                top + rows <= h,
                (rows as int) * (w as int) <= usize::MAX as int,
                region_ok(viewport@),
                row <= rows,
                pixels@.len() == (row as int) * (w as int),
                forall|k: int|
                    0 <= k < pixels@.len() ==> pixels@[k] == pixel_value_spec(
                        w as int,
                        h as int,
                        viewport@,
                        k % (w as int),
                        top + k / (w as int),
                    ),
            decreases rows as int - row as int,
        {
            proof {
                lemma_mul_inequality(row as int + 1, rows as int, w as int);
                lemma_mul_is_distributive_add_other_way(w as int, row as int, 1);
            }
            let mut col: usize = 0;
            while col < w
                invariant
                    w == self.width(),
                    h == self.height(),
                    w >= 1,
                    h >= 1,
                    top + rows <= h,
                    region_ok(viewport@),
                    row < rows,
                    col <= w,
                    (row as int + 1) * (w as int) <= usize::MAX as int,
                    pixels@.len() == (row as int) * (w as int) + col as int,
                    forall|k: int|
                        0 <= k < pixels@.len() ==> pixels@[k] == pixel_value_spec(
                            w as int,
                            h as int,
                            viewport@,
                            k % (w as int),
                            top + k / (w as int),
                        ),
                decreases w as int - col as int,
            {
                let point = self.pixel_to_point((w, h), (col, top + row), viewport.ul, viewport.lr);
                let value: u8 = match self.escape_time(point, LIMIT) {
                    Option::None => 0,
                    Option::Some(count) => {
                        proof {
                            lemma_escape_index_bounds(
                                PlanePoint { re: 0, im: 0 },
                                point@,
                                0,
                                LIMIT as int,
                            );
                        }
                        255 - (count as u8)
                    },
                };
                pixels.push(value);
                proof {
                    let wi = w as int;
                    let idx = (row as int) * wi + (col as int);
                    lemma_fundamental_div_mod_converse_div(idx, wi, row as int, col as int);
                    lemma_fundamental_div_mod_converse_mod(idx, wi, row as int, col as int);
                }
                col = col + 1;
            }
            row = row + 1;
        }
        proof {
            lemma_mul_nonnegative(rows as int, w as int);
            assert(pixels@ =~= band_rows_spec(
                w as int,
                h as int,
                viewport@,
                top as int,
                rows as int,
            ));
        }
        pixels
    }

    /// Renders the viewport at the engine's resolution: a fresh row-major
    /// buffer of `width * height` grayscale bytes, split into contiguous
    /// bands computed in parallel and concatenated in row order.
    pub fn render(&self, viewport: Viewport) -> (pixels: Vec<u8>)
        requires
            self.width() >= 1,
            self.height() >= 1,
            (self.width() as int) * (self.height() as int) <= usize::MAX as int,
            region_ok(viewport@),
        ensures
            pixels@ == render_spec(self.width() as int, self.height() as int, viewport@),
            pixels@.len() == (self.height() as int) * (self.width() as int),
    {
        let (w, h) = self.bounds;
        proof {
            lemma_fundamental_div_mod(h as int, WORKERS as int);
            lemma_div_pos_is_pos(h as int, WORKERS as int);
        }
        let rows_per_band: usize = h / WORKERS + 1;
        let mut bands: Vec<(usize, usize)> = Vec::new();
        let mut top: usize = 0;
        while top < h
            invariant
                rows_per_band >= 1,
                top <= h,
                bands@.len() == 0 ==> top == 0,
                bands@.len() >= 1 ==> bands@[0].0 == 0,
                bands_adjacent(bands@),
                bands@.len() >= 1 ==> bands@[bands@.len() - 1].0 + bands@[bands@.len() - 1].1
                    == top,
                forall|i: int|
                    0 <= i < bands@.len() ==> (#[trigger] bands@[i]).0 + bands@[i].1 <= h,
            decreases h as int - top as int,
        {
            let n: usize = if h - top < rows_per_band {
                h - top
            } else {
                rows_per_band
            };
            let ghost prev = bands@;
            bands.push((top, n));
            proof {
                assert forall|i: int| 0 <= i && i + 1 < bands@.len() implies bands@[i + 1].0 == (
                #[trigger] bands@[i]).0 + bands@[i].1 by {
                    assert(bands@[i] == prev[i]);
                    if i + 1 < prev.len() {
                        assert(bands@[i + 1] == prev[i + 1]);
                        assert(prev[i + 1].0 == prev[i].0 + prev[i].1);
                    } else {
                        assert(bands@[i + 1] == (top, n));
                    }
                }
                assert forall|i: int| 0 <= i < bands@.len() implies (#[trigger] bands@[i]).0
                    + bands@[i].1 <= h by {
                    if i < prev.len() {
                        assert(bands@[i] == prev[i]);
                    }
                }
            }
            top = top + n;
        }
        proof {
            assert(bands_tile(bands@, h as int));
            assert forall|i: int| 0 <= i < bands@.len() implies (#[trigger] bands@[i]).0 + bands@[
                i
            ].1 <= self.height() && (bands@[i].1 as int) * (self.width() as int) <= usize::MAX
                as int by {
                assert(bands@[i].0 + bands@[i].1 <= h);
                assert(bands@[i].1 <= h);
                lemma_mul_inequality(bands@[i].1 as int, h as int, w as int);
                assert((h as int) * (w as int) == (w as int) * (h as int)) by (nonlinear_arith);
            }
        }
        let parts: Vec<Vec<u8>> = render_bands(self, viewport, &bands);
        let mut pixels: Vec<u8> = Vec::new();
        let mut bi: usize = 0;
        while bi < parts.len()
            invariant
                w == self.width(),
                h == self.height(),
                w >= 1,
                h >= 1,
                region_ok(viewport@),
                bands_tile(bands@, h as int),
                parts@.len() == bands@.len(),
                forall|i: int|
                    0 <= i < bands@.len() ==> (#[trigger] parts@[i])@ == band_rows_spec(
                        w as int,
                        h as int,
                        viewport@,
                        bands@[i].0 as int,
                        bands@[i].1 as int,
                    ),
                bi <= parts@.len(),
                pixels@ == band_rows_spec(
                    w as int,
                    h as int,
                    viewport@,
                    0,
                    band_end(bands@, bi as int),
                ),
            decreases parts@.len() - bi as int,
        {
            proof {
                if bi > 0 {
                    let b = bi as int;
                    assert(bands@[b - 1 + 1].0 == bands@[b - 1].0 + bands@[b - 1].1);
                }
                lemma_band_rows_concat(
                    w as int,
                    h as int,
                    viewport@,
                    0,
                    band_end(bands@, bi as int),
                    bands@[bi as int].1 as int,
                );
            }
            let ghost before = pixels@;
            let part_len: usize = parts[bi].len();
            let mut j: usize = 0;
            while j < part_len
                invariant
                    bi < parts@.len(),
                    part_len == parts@[bi as int]@.len(),
                    j <= part_len,
                    pixels@ == before + parts@[bi as int]@.subrange(0, j as int),
                decreases part_len as int - j as int,
            {
                let value: u8 = parts[bi][j];
                pixels.push(value);
                proof {
                    assert(parts@[bi as int]@.subrange(0, j as int + 1) =~= parts@[bi as int
                    ]@.subrange(0, j as int).push(parts@[bi as int]@[j as int]));
                }
                j = j + 1;
            }
            proof {
                assert(parts@[bi as int]@.subrange(0, part_len as int) =~= parts@[bi as int]@);
            }
            bi = bi + 1;
        }
        proof {
            assert(bands@.len() >= 1);
            assert(band_end(bands@, bands@.len() as int) == h as int);
            lemma_mul_nonnegative(h as int, w as int);
        }
        pixels
    }
}

/// A state that passed the radius test has both components within `2 *
/// SCALE`: the squared magnitude bounds each square.
proof fn lemma_radius_bound(z: PlanePoint)
    requires
        norm_sqr_spec(z) <= 4 * (SCALE as int),
    ensures
        -2 * (SCALE as int) <= z.re <= 2 * (SCALE as int),
        -2 * (SCALE as int) <= z.im <= 2 * (SCALE as int),
{
    let s = SCALE as int;
    let raw = z.re * z.re + z.im * z.im;
    assert(z.re * z.re >= 0 && z.im * z.im >= 0) by (nonlinear_arith);
    lemma_fundamental_div_mod(raw, s);
    lemma_mod_division_less_than_divisor(raw, s);
    lemma_mul_inequality(raw / s, 4 * s, s);
    assert((2 * s) * (2 * s) == 4 * (s * s) && (4 * s) * s == 4 * (s * s) && s * (raw / s) == (raw
        / s) * s) by (nonlinear_arith);
    crate::fixed::lemma_square_root_bound(z.re, 2 * s);
    crate::fixed::lemma_square_root_bound(z.im, 2 * s);
}

/// An escape index is never below the step it was reached from and never
/// reaches the budget.
pub proof fn lemma_escape_index_bounds(z: PlanePoint, c: PlanePoint, i: int, limit: int)
    ensures
        escape_from(z, c, i, limit) matches Some(j) ==> i <= j < limit,
    decreases limit - i,
{
    if i < limit && !(norm_sqr_spec(z) > 4 * (SCALE as int)) {
        lemma_escape_index_bounds(step_spec(z, c), c, i + 1, limit);
    }
}

/// The origin never escapes: its orbit is the constant zero, whose squared
/// magnitude never leaves the disk, under any iteration budget.
pub proof fn lemma_origin_never_escapes(limit: int)
    ensures
        escape_time_spec(PlanePoint { re: 0, im: 0 }, limit) is None,
{
    lemma_origin_orbit(0, limit);
}

proof fn lemma_origin_orbit(i: int, limit: int)
    ensures
        escape_from(
            PlanePoint { re: 0, im: 0 },
            PlanePoint { re: 0, im: 0 },
            i,
            limit,
        ) is None,
    decreases limit - i,
{
    let zero = PlanePoint { re: 0, im: 0 };
    if i < limit {
        lemma_div_basics_1(SCALE as int);
        assert(norm_sqr_spec(zero) == 0);
        assert(step_spec(zero, zero) == zero);
        lemma_origin_orbit(i + 1, limit);
    }
}

/// One more pixel along a span of at least one fixed-point unit per pixel
/// advances the scaled offset by at least one unit.
proof fn lemma_scaled_step_increases(span: int, n: int, c: int)
    requires
        n >= 1,
        span >= n,
        0 <= c,
        c + 1 <= n,
    ensures
        tdiv((c + 1) * span, n) >= tdiv(c * span, n) + 1,
{
    lemma_mul_nonnegative(c, span);
    lemma_mul_nonnegative(c + 1, span);
    lemma_mul_is_distributive_add_other_way(span, c, 1);
    lemma_div_is_ordered(c * span + n, (c + 1) * span, n);
    lemma_div_plus_one(c * span, n);
}

/// The mapping is strictly monotonic in the column wherever the viewport
/// spans at least one fixed-point unit per pixel: any step to the right
/// strictly grows the real part. The real part does not depend on the row.
pub proof fn lemma_pixel_to_point_col_monotonic(
    w: int,
    h: int,
    ul: PlanePoint,
    lr: PlanePoint,
    col1: int,
    col2: int,
    row: int,
)
    requires
        w >= 1,
        h >= 1,
        0 <= col1 < col2 <= w,
        lr.re - ul.re >= w,
    ensures
        pixel_to_point_spec(w, h, ul, lr, col2, row).re > pixel_to_point_spec(
            w,
            h,
            ul,
            lr,
            col1,
            row,
        ).re,
    decreases col2 - col1,
{
    lemma_scaled_step_increases(lr.re - ul.re, w, col2 - 1);
    if col1 < col2 - 1 {
        lemma_pixel_to_point_col_monotonic(w, h, ul, lr, col1, col2 - 1, row);
    }
}

/// The counterpart for rows: any step down strictly shrinks the imaginary
/// part, wherever the viewport spans at least one unit per pixel row.
pub proof fn lemma_pixel_to_point_row_monotonic(
    w: int,
    h: int,
    ul: PlanePoint,
    lr: PlanePoint,
    col: int,
    row1: int,
    row2: int,
)
    requires
        w >= 1,
        h >= 1,
        0 <= row1 < row2 <= h,
        ul.im - lr.im >= h,
    ensures
        pixel_to_point_spec(w, h, ul, lr, col, row2).im < pixel_to_point_spec(
            w,
            h,
            ul,
            lr,
            col,
            row1,
        ).im,
    decreases row2 - row1,
{
    lemma_scaled_step_increases(ul.im - lr.im, h, row2 - 1);
    if row1 < row2 - 1 {
        lemma_pixel_to_point_row_monotonic(w, h, ul, lr, col, row1, row2 - 1);
    }
}

/// The corner pixels map exactly onto the viewport corners: `(0, 0)` onto
/// the upper-left, `(w, h)` onto the lower-right.
pub proof fn lemma_pixel_to_point_corners(w: int, h: int, ul: PlanePoint, lr: PlanePoint)
    requires
        w >= 1,
        h >= 1,
    ensures
        pixel_to_point_spec(w, h, ul, lr, 0, 0) == ul,
        pixel_to_point_spec(w, h, ul, lr, w, h) == lr,
{
    lemma_div_basics_1(w);
    lemma_div_basics_1(h);
    lemma_tdiv_exact(lr.re - ul.re, w);
    lemma_tdiv_exact(ul.im - lr.im, h);
    assert(w * (lr.re - ul.re) == (lr.re - ul.re) * w && h * (ul.im - lr.im) == (ul.im - lr.im)
        * h) by (nonlinear_arith);
}

/// A render's bytes depend only on the resolution and the viewport: two
/// buffers that both meet the render specification are identical.
pub proof fn lemma_render_deterministic(
    w: int,
    h: int,
    r: Region,
    first: Seq<u8>,
    second: Seq<u8>,
)
    requires
        first == render_spec(w, h, r),
        second == render_spec(w, h, r),
    ensures
        first == second,
{
}

/// Two adjacent row ranges rendered separately concatenate to the single
/// render of their union.
pub proof fn lemma_band_rows_concat(w: int, h: int, r: Region, top: int, a: int, b: int)
    requires
        w >= 1,
        a >= 0,
        b >= 0,
    ensures
        band_rows_spec(w, h, r, top, a) + band_rows_spec(w, h, r, top + a, b) == band_rows_spec(
            w,
            h,
            r,
            top,
            a + b,
        ),
{
    let first = band_rows_spec(w, h, r, top, a);
    let second = band_rows_spec(w, h, r, top + a, b);
    let whole = band_rows_spec(w, h, r, top, a + b);
    lemma_mul_nonnegative(a, w);
    lemma_mul_nonnegative(b, w);
    lemma_mul_is_distributive_add_other_way(w, a, b);
    assert forall|k: int| 0 <= k < (a + b) * w implies (first + second)[k] == whole[k] by {
        if k < a * w {
        } else {
            let j = k - a * w;
            lemma_fundamental_div_mod(j, w);
            lemma_mod_division_less_than_divisor(j, w);
            lemma_mul_is_distributive_add_other_way(w, a, j / w);
            assert(k == (a + j / w) * w + j % w);
            lemma_fundamental_div_mod_converse_div(k, w, a + j / w, j % w);
            lemma_fundamental_div_mod_converse_mod(k, w, a + j / w, j % w);
        }
    }
    assert(first + second =~= whole);
}

proof fn lemma_rows_of_nonneg(bands: Seq<(usize, usize)>)
    ensures
        rows_of(bands) >= 0,
    decreases bands.len(),
{
    if bands.len() > 0 {
        lemma_rows_of_nonneg(bands.drop_first());
    }
}

/// Dropping the first band keeps the remaining bands adjacent.
proof fn lemma_adjacent_tail(bands: Seq<(usize, usize)>)
    requires
        bands_adjacent(bands),
        bands.len() >= 1,
    ensures
        bands_adjacent(bands.drop_first()),
{
    let tail = bands.drop_first();
    assert forall|i: int| 0 <= i && i + 1 < tail.len() implies tail[i + 1].0 == (#[trigger] tail[
        i
    ]).0 + tail[i].1 by {
        assert(tail[i] == bands[i + 1]);
        assert(tail[i + 1] == bands[i + 2]);
        assert(bands[i + 1 + 1].0 == bands[i + 1].0 + bands[i + 1].1);
    }
}

proof fn lemma_rows_of_adjacent(bands: Seq<(usize, usize)>)
    requires
        bands_adjacent(bands),
        bands.len() >= 1,
    ensures
        rows_of(bands) == bands[bands.len() - 1].0 + bands[bands.len() - 1].1 - bands[0].0,
    decreases bands.len(),
{
    if bands.len() > 1 {
        let tail = bands.drop_first();
        lemma_adjacent_tail(bands);
        assert(tail[0] == bands[1]);
        assert(bands[0int + 1].0 == bands[0int].0 + bands[0int].1);
        assert(tail[tail.len() - 1] == bands[bands.len() - 1]);
        lemma_rows_of_adjacent(tail);
    } else {
        assert(rows_of(bands.drop_first()) == 0);
    }
}

proof fn lemma_concat_parts_from(
    w: int,
    h: int,
    r: Region,
    bands: Seq<(usize, usize)>,
    top: int,
)
    requires
        w >= 1,
        bands_adjacent(bands),
        bands.len() >= 1 ==> bands[0].0 == top,
    ensures
        concat_parts(w, h, r, bands) == band_rows_spec(w, h, r, top, rows_of(bands)),
    decreases bands.len(),
{
    if bands.len() == 0 {
        assert(band_rows_spec(w, h, r, top, 0) =~= Seq::<u8>::empty());
    } else {
        let tail = bands.drop_first();
        lemma_adjacent_tail(bands);
        if tail.len() >= 1 {
            assert(tail[0] == bands[1]);
            assert(bands[0int + 1].0 == bands[0int].0 + bands[0int].1);
        }
        lemma_rows_of_nonneg(tail);
        lemma_concat_parts_from(w, h, r, tail, top + bands[0].1);
        lemma_band_rows_concat(w, h, r, top, bands[0].1 as int, rows_of(tail));
    }
}

/// Splitting the image into any bands that tile its rows, rendering each
/// band independently and concatenating the results in order reproduces the
/// single sequential render of the whole image.
pub proof fn lemma_band_decomposition(w: int, h: int, r: Region, bands: Seq<(usize, usize)>)
    requires
        w >= 1,
        bands_tile(bands, h),
    ensures
        concat_parts(w, h, r, bands) == render_spec(w, h, r),
{
    lemma_concat_parts_from(w, h, r, bands, 0);
    if bands.len() == 0 {
    } else {
        lemma_rows_of_adjacent(bands);
    }
}

} // verus!
