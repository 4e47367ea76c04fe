//! The full render pipeline: configuration, validation, point generation,
//! scaling, binning and tone mapping.
//!
//! Every stage is pinned to a spec-level function of the configuration
//! model, so the whole pixel buffer of a successful render is a pure
//! function of the configuration: two runs with equal configurations yield
//! byte-identical histograms and pixel buffers.

use vstd::prelude::*;

use crate::attractor::{CliffordAttractor, Point, PointModel, iterate_spec};
use crate::histogram::{Histogram, accumulate_scaled, cell_count};
use crate::numeric::{BigReal, BigRealModel, real_negated, real_neg, real_eq};
use crate::scaler::{scale, scale_spec};
use crate::tonemap::{pixel_spec, tone_map};
use crate::wordsum::opt_val;

verus! {

/// A complete render configuration: map coefficients, seed point,
/// coordinate window, image dimensions, iteration count and working
/// precision, fixed for the lifetime of a render.
pub struct RenderConfig {
    pub a: BigReal,
    pub b: BigReal,
    pub c: BigReal,
    pub d: BigReal,
    pub seed: Point,
    pub x_min: BigReal,
    pub x_max: BigReal,
    pub y_min: BigReal,
    pub y_max: BigReal,
    pub width: usize,
    pub height: usize,
    pub iterations: usize,
    pub prec: usize,
}

/// Model of a configuration.
pub struct ConfigModel {
    pub a: BigRealModel,
    pub b: BigRealModel,
    pub c: BigRealModel,
    pub d: BigRealModel,
    pub seed: PointModel,
    pub x_min: BigRealModel,
    pub x_max: BigRealModel,
    pub y_min: BigRealModel,
    pub y_max: BigRealModel,
    pub width: int,
    pub height: int,
    pub iterations: int,
    pub prec: usize,
}

impl View for RenderConfig {
    type V = ConfigModel;

    open spec fn view(&self) -> ConfigModel {
        ConfigModel {
            a: self.a@,
            b: self.b@,
            c: self.c@,
            d: self.d@,
            seed: self.seed@,
            x_min: self.x_min@,
            x_max: self.x_max@,
            y_min: self.y_min@,
            y_max: self.y_max@,
            width: self.width as int,
            height: self.height as int,
            iterations: self.iterations as int,
            prec: self.prec,
        }
    }
}

/// Why a render was refused.
#[derive(Debug, PartialEq, Eq, Structural)]
pub enum RenderError {
    /// The image width or height is zero.
    ZeroDimension,
    /// A dimension exceeds the pixel coordinate range.
    DimensionTooLarge,
    /// The histogram would have more cells than the address space holds.
    TooManyCells,
    /// A coordinate window has identical endpoint representations: scaling
    /// would divide by zero.
    DegenerateRange,
    /// A scaled coordinate had no finite machine value: a non-finite input
    /// or window, or a coordinate far outside the pixel range.
    ScaleFailed,
}

/// The finished image: a row-major buffer of 16-bit luminance values.
pub struct Image {
    pub pixels: Vec<u16>,
    pub width: usize,
    pub height: usize,
}

/// The point after `k` map steps from the seed.
pub open spec fn traj_point(cfg: ConfigModel, k: nat) -> PointModel {
    iterate_spec(cfg.a, cfg.b, cfg.c, cfg.d, cfg.seed, cfg.prec, k)
}

/// The scaled pixel column of a point, if finite.
pub open spec fn scaled_x(cfg: ConfigModel, p: PointModel) -> Option<int> {
    scale_spec(cfg.x_min, cfg.x_max, 0u32, (cfg.width - 1) as u32, p.x, cfg.prec)
}

/// The scaled pixel row of a point, if finite. The vertical axis is flipped
/// by scaling `y` over the negated window, so the window's top edge lands on
/// pixel row zero.
pub open spec fn scaled_y(cfg: ConfigModel, p: PointModel) -> Option<int> {
    scale_spec(
        real_negated(cfg.y_max),
        real_negated(cfg.y_min),
        0u32,
        (cfg.height - 1) as u32,
        p.y,
        cfg.prec,
    )
}

/// Every point of the first `n` has finite scaled coordinates.
pub open spec fn scaled_ok(cfg: ConfigModel, n: int) -> bool {
    forall|k: int|
        0 <= k < n ==> (#[trigger] scaled_x(cfg, traj_point(cfg, k as nat))) is Some && scaled_y(
            cfg,
            traj_point(cfg, k as nat),
        ) is Some
}

/// The scaled point sequence of a render.
pub open spec fn pairs_spec(cfg: ConfigModel, n: int) -> Seq<(i32, i32)> {
    Seq::new(
        n as nat,
        |k: int|
            (
                scaled_x(cfg, traj_point(cfg, k as nat)).unwrap() as i32,
                scaled_y(cfg, traj_point(cfg, k as nat)).unwrap() as i32,
            ),
    )
}

/// The histogram of a render, cell by cell.
pub open spec fn hist_spec(cfg: ConfigModel) -> Seq<u64> {
    Seq::new(
        (cfg.width * cfg.height) as nat,
        |idx: int|
            cell_count(
                pairs_spec(cfg, cfg.iterations),
                idx % cfg.width,
                idx / cfg.width,
            ) as u64,
    )
}

/// The pixel buffer of a render, cell by cell.
pub open spec fn image_spec(cfg: ConfigModel) -> Seq<u16> {
    Seq::new((cfg.width * cfg.height) as nat, |i: int| pixel_spec(hist_spec(cfg), i) as u16)
}

/// A configuration the pipeline accepts.
pub open spec fn config_ok(cfg: ConfigModel) -> bool {
    &&& cfg.width >= 1
    &&& cfg.height >= 1
    &&& cfg.width <= u32::MAX + 1
    &&& cfg.height <= u32::MAX + 1
    &&& cfg.width * cfg.height <= usize::MAX
    &&& cfg.x_min != cfg.x_max
    &&& cfg.y_min != cfg.y_max
}

/// Determinism of the pipeline: the histogram and the pixel buffer of a
/// render are pure functions of the configuration, so two runs with equal
/// configurations produce byte-identical histograms and pixel buffers.
pub proof fn lemma_render_deterministic(c1: ConfigModel, c2: ConfigModel)
    requires
        c1 == c2,
    ensures
        hist_spec(c1) == hist_spec(c2),
        image_spec(c1) == image_spec(c2),
{
}

/// Scales a list of generated points to pixel coordinates; `Err` exactly
/// when some point of the list has no finite scaled coordinate.
pub fn scale_points(cfg: &RenderConfig, points: &Vec<Point>) -> (r: Result<
    Vec<(i32, i32)>,
    RenderError,
>)
    requires
        cfg@.width >= 1,
        cfg@.height >= 1,
        cfg@.width <= u32::MAX + 1,
        cfg@.height <= u32::MAX + 1,
    ensures
        match r {
            Ok(pairs) => {
                &&& pairs@.len() == points@.len()
                &&& forall|k: int|
                    0 <= k < points@.len() ==> (#[trigger] scaled_x(cfg@, points@[k]@)) is Some
                        && scaled_y(cfg@, points@[k]@) is Some
                &&& forall|k: int|
                    0 <= k < points@.len() ==> #[trigger] pairs@[k] == (
                        scaled_x(cfg@, points@[k]@).unwrap() as i32,
                        scaled_y(cfg@, points@[k]@).unwrap() as i32,
                    )
            },
            Err(e) => e == RenderError::ScaleFailed && exists|k: int|
                0 <= k < points@.len() && ((#[trigger] scaled_x(cfg@, points@[k]@)) is None
                    || scaled_y(cfg@, points@[k]@) is None),
        },
{
    let nymax = real_neg(&cfg.y_max);
    let nymin = real_neg(&cfg.y_min);
    let bx: u32 = (cfg.width - 1) as u32;
    let by: u32 = (cfg.height - 1) as u32;
    let n = points.len();
    let mut pairs: Vec<(i32, i32)> = Vec::new();
    let mut i: usize = 0;
    while i < n
        invariant
            i <= n,
            n == points@.len(),
            pairs@.len() == i,
            cfg@.width >= 1,
            cfg@.height >= 1,
            cfg@.width <= u32::MAX + 1,
            cfg@.height <= u32::MAX + 1,
            bx as int == cfg@.width - 1,
            by as int == cfg@.height - 1,
            nymax@ == real_negated(cfg@.y_max),
            nymin@ == real_negated(cfg@.y_min),
            forall|k: int|
                0 <= k < i ==> (#[trigger] scaled_x(cfg@, points@[k]@)) is Some && scaled_y(
                    cfg@,
                    points@[k]@,
                ) is Some,
            forall|k: int|
                0 <= k < i ==> #[trigger] pairs@[k] == (
                    scaled_x(cfg@, points@[k]@).unwrap() as i32,
                    scaled_y(cfg@, points@[k]@).unwrap() as i32,
                ),
        decreases n - i,
    {
        let p = &points[i];
        let sx = scale(&cfg.x_min, &cfg.x_max, 0, bx, &p.x, cfg.prec);
        let sy = scale(&nymax, &nymin, 0, by, &p.y, cfg.prec);
        proof {
            assert(opt_val(sx) == scaled_x(cfg@, points@[i as int]@));
            assert(opt_val(sy) == scaled_y(cfg@, points@[i as int]@));
        }
        match (sx, sy) {
            (Some(vx), Some(vy)) => {
                pairs.push((vx, vy));
            },
            _ => {
                proof {
                    assert(scaled_x(cfg@, points@[i as int]@) is None || scaled_y(
                        cfg@,
                        points@[i as int]@,
                    ) is None);
                }
                return Err(RenderError::ScaleFailed);
            },
        }
        i = i + 1;
    }
    Ok(pairs)
}

/// Runs the whole pipeline: validate the configuration, iterate the map,
/// scale and bin the visited points, tone-map the histogram. On success the
/// image has exactly `width * height` pixels and equals, entry for entry,
/// the mathematical image of the configuration; each error comes exactly on
/// the inputs it names.
pub fn render(cfg: &RenderConfig) -> (r: Result<Image, RenderError>)
    ensures
        match r {
            Ok(img) => {
                &&& config_ok(cfg@)
                &&& scaled_ok(cfg@, cfg@.iterations)
                &&& img.width == cfg.width
                &&& img.height == cfg.height
                &&& img.pixels@.len() == cfg@.width * cfg@.height
                &&& img.pixels@ == image_spec(cfg@)
            },
            Err(RenderError::ZeroDimension) => cfg@.width == 0 || cfg@.height == 0,
            Err(RenderError::DimensionTooLarge) => cfg@.width >= 1 && cfg@.height >= 1 && (
            cfg@.width > u32::MAX + 1 || cfg@.height > u32::MAX + 1),
            Err(RenderError::TooManyCells) => cfg@.width >= 1 && cfg@.height >= 1 && cfg@.width
                <= u32::MAX + 1 && cfg@.height <= u32::MAX + 1 && cfg@.width * cfg@.height
                > usize::MAX,
            Err(RenderError::DegenerateRange) => cfg@.width >= 1 && cfg@.height >= 1 && cfg@.width
                <= u32::MAX + 1 && cfg@.height <= u32::MAX + 1 && cfg@.width * cfg@.height
                <= usize::MAX && (cfg@.x_min == cfg@.x_max || cfg@.y_min == cfg@.y_max),
            Err(RenderError::ScaleFailed) => config_ok(cfg@) && !scaled_ok(cfg@, cfg@.iterations),
        },
{
    if cfg.width == 0 || cfg.height == 0 {
        return Err(RenderError::ZeroDimension);
    }
    if (cfg.width - 1) > u32::MAX as usize || (cfg.height - 1) > u32::MAX as usize {
        return Err(RenderError::DimensionTooLarge);
    }
    let cells_opt = cfg.width.checked_mul(cfg.height);
    if cells_opt.is_none() {
        return Err(RenderError::TooManyCells);
    }
    if real_eq(&cfg.x_min, &cfg.x_max) || real_eq(&cfg.y_min, &cfg.y_max) {
        return Err(RenderError::DegenerateRange);
    }

    let mut gen = CliffordAttractor {
        point: cfg.seed.duplicate(),
        a: cfg.a.duplicate(),
        b: cfg.b.duplicate(),
        c: cfg.c.duplicate(),
        d: cfg.d.duplicate(),
        prec: cfg.prec,
    };
    let points = gen.take_points(cfg.iterations);
    proof {
        assert forall|k: int| 0 <= k < points@.len() implies #[trigger] points@[k]@ == traj_point(
            cfg@,
            k as nat,
        ) by {}
    }
    let pairs = match scale_points(cfg, &points) {
        Ok(pairs) => {
            proof {
                assert forall|k: int| 0 <= k < cfg@.iterations implies (#[trigger] scaled_x(
                    cfg@,
                    traj_point(cfg@, k as nat),
                )) is Some && scaled_y(cfg@, traj_point(cfg@, k as nat)) is Some by {
                    assert(points@[k]@ == traj_point(cfg@, k as nat));
                    assert(scaled_x(cfg@, points@[k]@) is Some && scaled_y(
                        cfg@,
                        points@[k]@,
                    ) is Some);
                }
                assert(scaled_ok(cfg@, cfg@.iterations));
                assert forall|k: int| 0 <= k < cfg@.iterations implies pairs@[k] == pairs_spec(
                    cfg@,
                    cfg@.iterations,
                )[k] by {
                    assert(points@[k]@ == traj_point(cfg@, k as nat));
                    assert(pairs@[k] == (
                        scaled_x(cfg@, points@[k]@).unwrap() as i32,
                        scaled_y(cfg@, points@[k]@).unwrap() as i32,
                    ));
                }
                assert(pairs@ =~= pairs_spec(cfg@, cfg@.iterations));
            }
            pairs
        },
        Err(e) => {
            proof {
                let k = choose|k: int|
                    0 <= k < points@.len() && ((#[trigger] scaled_x(cfg@, points@[k]@)) is None
                        || scaled_y(cfg@, points@[k]@) is None);
                assert(points@[k]@ == traj_point(cfg@, k as nat));
                assert(!scaled_ok(cfg@, cfg@.iterations));
            }
            return Err(e);
        },
    };
    let hist = accumulate_scaled(&pairs, cfg.width, cfg.height);
    let pixels = tone_map(&hist);
    proof {
        let w = cfg@.width;
        let h = cfg@.height;
        assert forall|idx: int| 0 <= idx < w * h implies #[trigger] hist.counts@[idx] == hist_spec(
            cfg@,
        )[idx] by {
            let col = idx % w;
            let row = idx / w;
            vstd::arithmetic::div_mod::lemma_fundamental_div_mod(idx, w);
            assert(0 <= col < w && 0 <= row && row * w + col == idx) by (nonlinear_arith)
                requires
                    idx == w * (idx / w) + idx % w,
                    col == idx % w,
                    row == idx / w,
                    0 <= idx,
                    w >= 1,
            ;
            assert(row < h) by (nonlinear_arith)
                requires
                    row * w + col == idx,
                    idx < w * h,
                    0 <= col < w,
                    w >= 1,
                    0 <= row,
            ;
            assert(hist.counts@[row * w + col] == cell_count(pairs@, col, row));
        }
        assert(hist.counts@ =~= hist_spec(cfg@));
        assert(pixels@ =~= image_spec(cfg@));
    }
    Ok(Image { pixels, width: cfg.width, height: cfg.height })
}

} // verus!
