//! Complex points in fixed-point coordinates, and the escape-time step.
//!
//! `Complex` is the executable value: two `i64` components in units of
//! `1 / SCALE`. Its mathematical model is `PlanePoint`, a pair of unbounded
//! integers reached through the view operator `@`.

use vstd::prelude::*;
use crate::fixed::{
    lemma_square_bound, lemma_tdiv_bound, div_trunc, tdiv, COORD_MAX, ORBIT_MAX, SCALE,
};

verus! {

/// A point of the complex plane in fixed-point units: the pair stands for
/// `(re / SCALE) + (im / SCALE) i`.
#[derive(Debug, Clone, Copy, PartialEq, Eq, Structural)]
pub struct Complex {
    pub re: i64,
    pub im: i64,
}

/// The mathematical model of a `Complex`: the same components as unbounded
/// integers.
pub struct PlanePoint {
    pub re: int,
    pub im: int,
}

impl View for Complex {
    type V = PlanePoint;

    open spec fn view(&self) -> PlanePoint {
        PlanePoint { re: self.re as int, im: self.im as int }
    }
}

/// A coordinate the engine accepts: within `COORD_MAX` in magnitude.
pub open spec fn coord_ok(x: int) -> bool {
    -(COORD_MAX as int) <= x <= COORD_MAX as int
}

/// Both components of a point are acceptable coordinates.
pub open spec fn point_ok(p: PlanePoint) -> bool {
    coord_ok(p.re) && coord_ok(p.im)
}

/// Both components stay within the orbit bound `ORBIT_MAX`; every value the
/// escape iteration produces from an acceptable `c` satisfies this.
pub open spec fn orbit_ok(p: PlanePoint) -> bool {
    -(ORBIT_MAX as int) <= p.re <= ORBIT_MAX as int
        && -(ORBIT_MAX as int) <= p.im <= ORBIT_MAX as int
}

/// The squared magnitude `|z|^2` in fixed-point units: `re^2 + im^2`,
/// rescaled by `SCALE`. Nonnegative, so truncation and floor agree.
pub open spec fn norm_sqr_spec(z: PlanePoint) -> int {
    tdiv(z.re * z.re + z.im * z.im, SCALE as int)
}

/// One escape-time update: `z * z + c` in fixed-point arithmetic.
pub open spec fn step_spec(z: PlanePoint, c: PlanePoint) -> PlanePoint {
    PlanePoint {
        re: tdiv(z.re * z.re - z.im * z.im, SCALE as int) + c.re,
        im: tdiv(2 * z.re * z.im, SCALE as int) + c.im,
    }
}

impl Complex {
    /// Builds a point from its fixed-point components.
    pub fn new(re: i64, im: i64) -> (c: Complex)
        ensures
            c.re == re,
            c.im == im,
    {
        Complex { re, im }
    }

    /// The squared magnitude `|z|^2`, exact in 128-bit arithmetic. The result
    /// can exceed the `i64` range for far-out orbit values, hence `u128`.
    pub fn norm_sqr(&self) -> (n: u128)
        requires
            orbit_ok(self@),
        ensures
            n == norm_sqr_spec(self@),
    {
        proof {
            lemma_square_bound(self.re as int, ORBIT_MAX as int);
            lemma_square_bound(self.im as int, ORBIT_MAX as int);
            assert((ORBIT_MAX as int) * (ORBIT_MAX as int) + (ORBIT_MAX as int) * (ORBIT_MAX
                as int) < i128::MAX as int) by (nonlinear_arith);
        }
        let rr: i128 = (self.re as i128) * (self.re as i128);
        let ii: i128 = (self.im as i128) * (self.im as i128);
        let total: u128 = (rr + ii) as u128;
        total / (SCALE as u128)
    }

    /// One escape-time update `z * z + c`. The bound on `z` is what a passed
    /// radius test guarantees; the result then stays within `ORBIT_MAX`.
    pub fn step(&self, c: Complex) -> (r: Complex)
        requires
            -2 * (SCALE as int) <= self@.re <= 2 * (SCALE as int),
            -2 * (SCALE as int) <= self@.im <= 2 * (SCALE as int),
            point_ok(c@),
        ensures
            r@ == step_spec(self@, c@),
            orbit_ok(r@),
    {
        proof {
            lemma_square_bound(self.re as int, 2 * (SCALE as int));
            lemma_square_bound(self.im as int, 2 * (SCALE as int));
            assert((2 * (SCALE as int)) * (2 * (SCALE as int)) == 4 * ((SCALE as int) * (
            SCALE as int)) && 8 * ((SCALE as int) * (SCALE as int)) < i128::MAX as int)
                by (nonlinear_arith);
        }
        let rr: i128 = (self.re as i128) * (self.re as i128);
        let ii: i128 = (self.im as i128) * (self.im as i128);
        proof {
            assert(-(8 * ((SCALE as int) * (SCALE as int))) <= 2 * (self.re as int) * (self.im
                as int) <= 8 * ((SCALE as int) * (SCALE as int))) by (nonlinear_arith)
                requires
                    -2 * (SCALE as int) <= self.re as int <= 2 * (SCALE as int) && -2 * (
                    SCALE as int) <= self.im as int <= 2 * (SCALE as int),
            ;
        }
        let cross: i128 = 2 * (self.re as i128) * (self.im as i128);
        proof {
            assert((4 * (SCALE as int)) * (SCALE as int) == 4 * ((SCALE as int) * (SCALE as int))
                && (8 * (SCALE as int)) * (SCALE as int) == 8 * ((SCALE as int) * (SCALE as int)))
                by (nonlinear_arith);
            lemma_tdiv_bound((rr - ii) as int, SCALE as int, 4 * (SCALE as int));
            lemma_tdiv_bound(cross as int, SCALE as int, 8 * (SCALE as int));
        }
        let re_q: i128 = div_trunc(rr - ii, SCALE as i128);
        let im_q: i128 = div_trunc(cross, SCALE as i128);
        let re: i128 = re_q + (c.re as i128);
        let im: i128 = im_q + (c.im as i128);
        Complex { re: re as i64, im: im as i64 }
    }
}

} // verus!
