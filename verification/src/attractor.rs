//! The Clifford map as a stateful point generator.
//!
//! From a current point `(x, y)` the map steps to
//! `x' = sin(a*y) + c*cos(a*x)`, `y' = sin(b*x) + d*cos(b*y)`,
//! every operation correctly rounded at the generator's working precision.
//! The generator yields the pre-advance point, so the first yielded point is
//! the seed, and its whole output is pinned, step by step, to the composed
//! models of the arithmetic it performs.

use vstd::prelude::*;

use crate::numeric::{
    BigReal,
    BigRealModel,
    real_add,
    real_cos,
    real_cosine,
    real_mul,
    real_prod,
    real_sin,
    real_sine,
    real_sum,
};

verus! {

/// A visited point of the map.
pub struct Point {
    pub x: BigReal,
    pub y: BigReal,
}

/// Model of a point: the models of its two coordinates.
pub struct PointModel {
    pub x: BigRealModel,
    pub y: BigRealModel,
}

impl View for Point {
    type V = PointModel;

    open spec fn view(&self) -> PointModel {
        PointModel { x: self.x@, y: self.y@ }
    }
}

impl Point {
    /// A copy that provably carries the same representation.
    pub fn duplicate(&self) -> (r: Point)
        ensures
            r@ == self@,
    {
        Point { x: self.x.duplicate(), y: self.y.duplicate() }
    }
}

/// The new x coordinate: `sin(a*y) + c*cos(a*x)` at `prec` bits.
pub open spec fn step_x_spec(
    a: BigRealModel,
    c: BigRealModel,
    x: BigRealModel,
    y: BigRealModel,
    prec: usize,
) -> BigRealModel {
    real_sum(
        real_sine(real_prod(a, y, prec), prec),
        real_prod(c, real_cosine(real_prod(a, x, prec), prec), prec),
        prec,
    )
}

/// The new y coordinate: `sin(b*x) + d*cos(b*y)` at `prec` bits.
pub open spec fn step_y_spec(
    b: BigRealModel,
    d: BigRealModel,
    x: BigRealModel,
    y: BigRealModel,
    prec: usize,
) -> BigRealModel {
    real_sum(
        real_sine(real_prod(b, x, prec), prec),
        real_prod(d, real_cosine(real_prod(b, y, prec), prec), prec),
        prec,
    )
}

/// The point reached after `k` steps of the map from the seed.
pub open spec fn iterate_spec(
    a: BigRealModel,
    b: BigRealModel,
    c: BigRealModel,
    d: BigRealModel,
    seed: PointModel,
    prec: usize,
    k: nat,
) -> PointModel
    decreases k,
{
    if k == 0 {
        seed
    } else {
        let prev = iterate_spec(a, b, c, d, seed, prec, (k - 1) as nat);
        PointModel {
            x: step_x_spec(a, c, prev.x, prev.y, prec),
            y: step_y_spec(b, d, prev.x, prev.y, prec),
        }
    }
}

/// The stateful generator: the map's coefficients, its working precision and
/// the current point, advanced in place by [`CliffordAttractor::next`].
pub struct CliffordAttractor {
    pub point: Point,
    pub a: BigReal,
    pub b: BigReal,
    pub c: BigReal,
    pub d: BigReal,
    pub prec: usize,
}

impl CliffordAttractor {
    /// Coefficients and precision never change while the generator runs.
    pub open spec fn same_map(&self, other: &Self) -> bool {
        self.a@ == other.a@ && self.b@ == other.b@ && self.c@ == other.c@ && self.d@ == other.d@
            && self.prec == other.prec
    }

    /// Advances the internal point one map step and yields the pre-advance
    /// point, so the first yielded point is always the seed.
    pub fn next(&mut self) -> (p: Point)
        ensures
            p@ == old(self).point@,
            final(self).point@ == (PointModel {
                x: step_x_spec(old(self).a@, old(self).c@, old(self).point@.x, old(self).point@.y, old(self).prec),
                y: step_y_spec(old(self).b@, old(self).d@, old(self).point@.x, old(self).point@.y, old(self).prec),
            }),
            final(self).same_map(old(self)),
    {
        let current = self.point.duplicate();
        let ay = real_mul(&self.a, &current.y, self.prec);
        let sin_ay = real_sin(&ay, self.prec);
        let ax = real_mul(&self.a, &current.x, self.prec);
        let cos_ax = real_cos(&ax, self.prec);
        let cx = real_mul(&self.c, &cos_ax, self.prec);
        let nx = real_add(&sin_ay, &cx, self.prec);

        let bx = real_mul(&self.b, &current.x, self.prec);
        let sin_bx = real_sin(&bx, self.prec);
        let by = real_mul(&self.b, &current.y, self.prec);
        let cos_by = real_cos(&by, self.prec);
        let dy = real_mul(&self.d, &cos_by, self.prec);
        let ny = real_add(&sin_bx, &dy, self.prec);

        self.point = Point { x: nx, y: ny };
        current
    }

    /// Takes the first `n` points of the sequence: index `k` holds the point
    /// after `k` map steps from the seed, and the generator is left ready to
    /// continue with step `n`.
    pub fn take_points(&mut self, n: usize) -> (v: Vec<Point>)
        ensures
            v@.len() == n,
            forall|k: int|
                0 <= k < n ==> #[trigger] v@[k]@ == iterate_spec(
                    old(self).a@,
                    old(self).b@,
                    old(self).c@,
                    old(self).d@,
                    old(self).point@,
                    old(self).prec,
                    k as nat,
                ),
            final(self).point@ == iterate_spec(
                old(self).a@,
                old(self).b@,
                old(self).c@,
                old(self).d@,
                old(self).point@,
                old(self).prec,
                n as nat,
            ),
            final(self).same_map(old(self)),
    {
        let ghost a0 = self.a@;
        let ghost b0 = self.b@;
        let ghost c0 = self.c@;
        let ghost d0 = self.d@;
        let ghost seed = self.point@;
        let ghost prec0 = self.prec;
        let mut out: Vec<Point> = Vec::new();
        let mut i: usize = 0;
        while i < n
            invariant
                i <= n,
                out@.len() == i,
                forall|k: int|
                    0 <= k < i ==> #[trigger] out@[k]@ == iterate_spec(
                        a0,
                        b0,
                        c0,
                        d0,
                        seed,
                        prec0,
                        k as nat,
                    ),
                self.point@ == iterate_spec(a0, b0, c0, d0, seed, prec0, i as nat),
                self.a@ == a0,
                self.b@ == b0,
                self.c@ == c0,
                self.d@ == d0,
                self.prec == prec0,
            decreases n - i,
        {
            let p = self.next();
            out.push(p);
            i = i + 1;
        }
        out
    }
}

} // verus!
