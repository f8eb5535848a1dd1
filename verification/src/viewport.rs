//! The viewport: the rectangle of the complex plane being rendered, with its
//! navigation operations.
//!
//! The axis convention is inherited from the rendering mapping and kept
//! exactly: `translate_x` shifts the `.re` components but measures the step
//! against the `.im` span, `translate_y` the other way around, and `zoom`
//! averages `.im` components as its "x" center. The names follow the pan
//! directions on screen, not the fields they touch; the convention is
//! load-bearing and deliberate.

use vstd::prelude::*;
use vstd::arithmetic::div_mod::{lemma_fundamental_div_mod, lemma_mod_multiples_vanish};
use crate::complex::{point_ok, Complex, PlanePoint};
use crate::fixed::{
    fmul, fmul_spec, lemma_tdiv_bound, lemma_tdiv_exact, lemma_tdiv_neg, div_trunc, tdiv,
    COORD_MAX, SCALE,
};

verus! {

/// The rectangle of the complex plane being rendered: its upper-left and
/// lower-right corners.
#[derive(Debug, Clone, Copy, PartialEq, Eq, Structural)]
pub struct Viewport {
    pub ul: Complex,
    pub lr: Complex,
}

/// The mathematical model of a `Viewport`: both corners as unbounded
/// integer points.
pub struct Region {
    pub ul: PlanePoint,
    pub lr: PlanePoint,
}

impl View for Viewport {
    type V = Region;

    open spec fn view(&self) -> Region {
        Region { ul: self.ul@, lr: self.lr@ }
    }
}

/// All four corner coordinates are acceptable to the engine.
pub open spec fn region_ok(r: Region) -> bool {
    point_ok(r.ul) && point_ok(r.lr)
}

/// What `translate_x` does: shift both `.re` components by the fixed-point
/// product of the `.im` span with `factor`.
pub open spec fn translate_x_spec(r: Region, factor: int) -> Region {
    let step = fmul_spec(r.lr.im - r.ul.im, factor);
    Region {
        ul: PlanePoint { re: r.ul.re + step, im: r.ul.im },
        lr: PlanePoint { re: r.lr.re + step, im: r.lr.im },
    }
}

/// What `translate_y` does: shift both `.im` components by the fixed-point
/// product of the `.re` span with `factor`.
pub open spec fn translate_y_spec(r: Region, factor: int) -> Region {
    let step = fmul_spec(r.lr.re - r.ul.re, factor);
    Region {
        ul: PlanePoint { re: r.ul.re, im: r.ul.im + step },
        lr: PlanePoint { re: r.lr.re, im: r.lr.im + step },
    }
}

/// What `zoom` does: rescale both spans by `factor` around the rectangle's
/// own center, each new corner a half-span from the center.
pub open spec fn zoom_spec(r: Region, factor: int) -> Region {
    let center_x = tdiv(r.ul.im + r.lr.im, 2);
    let center_y = tdiv(r.ul.re + r.lr.re, 2);
    let half_w = tdiv(fmul_spec(r.lr.im - r.ul.im, factor), 2);
    let half_h = tdiv(fmul_spec(r.lr.re - r.ul.re, factor), 2);
    Region {
        ul: PlanePoint { re: center_y - half_h, im: center_x - half_w },
        lr: PlanePoint { re: center_y + half_h, im: center_x + half_w },
    }
}

impl Viewport {
    /// Builds a viewport from its two corners; no validation, as the engine
    /// states its own demands on the corners it accepts.
    pub fn new(ul: Complex, lr: Complex) -> (v: Viewport)
        ensures
            v.ul == ul,
            v.lr == lr,
    {
        Viewport { ul, lr }
    }

    /// Pans horizontally by `factor` of the current span (fixed-point:
    /// `SCALE` stands for a whole span).
    pub fn translate_x(&mut self, factor: i64)
        requires
            region_ok(old(self)@),
            -2 * (SCALE as int) <= factor as int <= 2 * (SCALE as int),
        ensures
            final(self)@ == translate_x_spec(old(self)@, factor as int),
    {
        let width: i64 = self.lr.im - self.ul.im;
        proof {
            lemma_step_product_bound(width as int, factor as int);
            lemma_tdiv_bound(
                (width as int) * (factor as int),
                SCALE as int,
                4 * (COORD_MAX as int),
            );
        }
        let step: i64 = fmul(width, factor);
        self.ul.re = self.ul.re + step;
        self.lr.re = self.lr.re + step;
    }

    /// Pans vertically by `factor` of the current span.
    pub fn translate_y(&mut self, factor: i64)
        requires
            region_ok(old(self)@),
            -2 * (SCALE as int) <= factor as int <= 2 * (SCALE as int),
        ensures
            final(self)@ == translate_y_spec(old(self)@, factor as int),
    {
        let height: i64 = self.lr.re - self.ul.re;
        proof {
            lemma_step_product_bound(height as int, factor as int);
            lemma_tdiv_bound(
                (height as int) * (factor as int),
                SCALE as int,
                4 * (COORD_MAX as int),
            );
        }
        let step: i64 = fmul(height, factor);
        self.ul.im = self.ul.im + step;
        self.lr.im = self.lr.im + step;
    }

    /// Rescales the rectangle around its center by `factor` (fixed-point:
    /// `SCALE` keeps the size, less shrinks, more grows). Both corners are
    /// read before either is written.
    pub fn zoom(&mut self, factor: i64)
        requires
            region_ok(old(self)@),
            -2 * (SCALE as int) <= factor as int <= 2 * (SCALE as int),
        ensures
            final(self)@ == zoom_spec(old(self)@, factor as int),
    {
        proof {
            lemma_tdiv_bound(
                self.ul.im as int + self.lr.im as int,
                2,
                COORD_MAX as int,
            );
            lemma_tdiv_bound(
                self.ul.re as int + self.lr.re as int,
                2,
                COORD_MAX as int,
            );
        }
        let center_x: i64 = div_trunc((self.ul.im as i128) + (self.lr.im as i128), 2) as i64;
        let center_y: i64 = div_trunc((self.ul.re as i128) + (self.lr.re as i128), 2) as i64;
        let width: i64 = self.lr.im - self.ul.im;
        let height: i64 = self.lr.re - self.ul.re;
        proof {
            lemma_step_product_bound(width as int, factor as int);
            lemma_step_product_bound(height as int, factor as int);
            lemma_tdiv_bound(
                (width as int) * (factor as int),
                SCALE as int,
                4 * (COORD_MAX as int),
            );
            lemma_tdiv_bound(
                (height as int) * (factor as int),
                SCALE as int,
                4 * (COORD_MAX as int),
            );
        }
        let new_width: i64 = fmul(width, factor);
        let new_height: i64 = fmul(height, factor);
        proof {
            lemma_tdiv_bound(new_width as int, 2, 2 * (COORD_MAX as int));
            lemma_tdiv_bound(new_height as int, 2, 2 * (COORD_MAX as int));
        }
        let half_w: i64 = div_trunc(new_width as i128, 2) as i64;
        let half_h: i64 = div_trunc(new_height as i128, 2) as i64;
        self.ul.im = center_x - half_w;
        self.ul.re = center_y - half_h;
        self.lr.im = center_x + half_w;
        self.lr.re = center_y + half_h;
    }
}

/// The product of a span (at most `2 * COORD_MAX`) with a factor (at most
/// `2 * SCALE`) stays within what `fmul` accepts.
proof fn lemma_step_product_bound(span: int, factor: int)
    requires
        -2 * (COORD_MAX as int) <= span <= 2 * (COORD_MAX as int),
        -2 * (SCALE as int) <= factor <= 2 * (SCALE as int),
    ensures
        -(i64::MAX as int) * (SCALE as int) <= span * factor <= (i64::MAX as int) * (SCALE as int),
        -(4 * (COORD_MAX as int)) * (SCALE as int) <= span * factor <= (4 * (COORD_MAX as int)) * (
        SCALE as int),
{
    assert(-(i64::MAX as int) * (SCALE as int) <= span * factor <= (i64::MAX as int) * (
    SCALE as int) && -(4 * (COORD_MAX as int)) * (SCALE as int) <= span * factor <= (4 * (
    COORD_MAX as int)) * (SCALE as int)) by (nonlinear_arith)
        requires
            -2 * (COORD_MAX as int) <= span <= 2 * (COORD_MAX as int) && -2 * (SCALE as int)
                <= factor <= 2 * (SCALE as int),
    ;
}

/// An even value halves exactly, under truncating and Euclidean division
/// alike.
proof fn lemma_half_of_even(x: int)
    requires
        x % 2 == 0,
    ensures
        tdiv(x, 2) == x / 2,
        2 * (x / 2) == x,
{
    lemma_fundamental_div_mod(x, 2);
    lemma_tdiv_exact(x / 2, 2);
}

/// Panning by a factor and then by its negation restores both corners
/// exactly: the step is measured against a span the pan itself leaves
/// untouched, and truncation toward zero is odd, so the second step is the
/// exact negation of the first.
pub proof fn lemma_translate_x_round_trip(r: Region, factor: int)
    ensures
        translate_x_spec(translate_x_spec(r, factor), -factor) == r,
{
    let span = r.lr.im - r.ul.im;
    assert(span * (-factor) == -(span * factor)) by (nonlinear_arith);
    lemma_tdiv_neg(span * factor, SCALE as int);
}

/// The same round trip for vertical panning.
pub proof fn lemma_translate_y_round_trip(r: Region, factor: int)
    ensures
        translate_y_spec(translate_y_spec(r, factor), -factor) == r,
{
    let span = r.lr.re - r.ul.re;
    assert(span * (-factor) == -(span * factor)) by (nonlinear_arith);
    lemma_tdiv_neg(span * factor, SCALE as int);
}

/// Zooming by a factor of one leaves both corners unchanged, whenever the
/// corner sums are even so that the center and the half-spans are exact.
/// (With an odd sum the truncated center loses the half unit, as it does in
/// any finite arithmetic.)
pub proof fn lemma_zoom_unit_identity(r: Region)
    requires
        (r.ul.im + r.lr.im) % 2 == 0,
        (r.ul.re + r.lr.re) % 2 == 0,
    ensures
        zoom_spec(r, SCALE as int) == r,
{
    let w = r.lr.im - r.ul.im;
    let h = r.lr.re - r.ul.re;
    lemma_tdiv_exact(w, SCALE as int);
    lemma_tdiv_exact(h, SCALE as int);
    lemma_mod_multiples_vanish(-r.ul.im, r.ul.im + r.lr.im, 2);
    lemma_mod_multiples_vanish(-r.ul.re, r.ul.re + r.lr.re, 2);
    assert(2 * (-r.ul.im) + (r.ul.im + r.lr.im) == w);
    assert(2 * (-r.ul.re) + (r.ul.re + r.lr.re) == h);
    lemma_half_of_even(r.ul.im + r.lr.im);
    lemma_half_of_even(r.ul.re + r.lr.re);
    lemma_half_of_even(w);
    lemma_half_of_even(h);
}

} // verus!
