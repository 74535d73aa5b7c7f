//! Axis limits of a dataset and the mapping from data space to pixels.

use vstd::prelude::*;
use crate::geometry::{PlotUnit, Point2D, PlotError};
use crate::label::UNIT;

verus! {

/// The limits of `vals`, folded from `(0, 0)` by minimum and maximum.
pub open spec fn limits_of(vals: Seq<int>) -> (int, int)
    decreases vals.len(),
{
    if vals.len() == 0 {
        (0, 0)
    } else {
        let p = limits_of(vals.drop_last());
        let v = vals.last();
        (if v < p.0 { v } else { p.0 }, if v > p.1 { v } else { p.1 })
    }
}

pub open spec fn xs(s: Seq<Point2D>) -> Seq<int> {
    s.map_values(|p: Point2D| p.x as int)
}

pub open spec fn ys(s: Seq<Point2D>) -> Seq<int> {
    s.map_values(|p: Point2D| p.y as int)
}

/// The limits always hold zero and every value, so `low <= high`.
pub proof fn lemma_limits_hold_zero_and_values(vals: Seq<int>)
    ensures
        limits_of(vals).0 <= 0 <= limits_of(vals).1,
        forall|i: int|
            0 <= i < vals.len() ==> limits_of(vals).0 <= #[trigger] vals[i] <= limits_of(vals).1,
    decreases vals.len(),
{
    if vals.len() > 0 {
        lemma_limits_hold_zero_and_values(vals.drop_last());
        assert forall|i: int| 0 <= i < vals.len() implies limits_of(vals).0 <= #[trigger] vals[i]
            <= limits_of(vals).1 by {
            if i < vals.len() - 1 {
                assert(vals[i] == vals.drop_last()[i]);
            }
        }
    }
}

/// Each limit is zero or one of the values.
pub proof fn lemma_limits_are_attained(vals: Seq<int>)
    ensures
        limits_of(vals).0 == 0 || exists|i: int| 0 <= i < vals.len() && vals[i] == limits_of(vals).0,
        limits_of(vals).1 == 0 || exists|i: int| 0 <= i < vals.len() && vals[i] == limits_of(vals).1,
    decreases vals.len(),
{
    if vals.len() > 0 {
        let d = vals.drop_last();
        lemma_limits_are_attained(d);
        if limits_of(vals).0 != 0 && limits_of(vals).0 != vals.last() {
            let i = choose|i: int| 0 <= i < d.len() && d[i] == limits_of(d).0;
            assert(vals[i] == d[i]);
        }
        if limits_of(vals).1 != 0 && limits_of(vals).1 != vals.last() {
            let i = choose|i: int| 0 <= i < d.len() && d[i] == limits_of(d).1;
            assert(vals[i] == d[i]);
        }
    }
}

/// The limits `(low_x, high_x)` and `(low_y, high_y)` of `data`, seeded at
/// zero: they hold zero and every point.
pub fn compute_limits(data: &Vec<Point2D>) -> (r: ((PlotUnit, PlotUnit), (PlotUnit, PlotUnit)))
    ensures
        (r.0.0 as int, r.0.1 as int) == limits_of(xs(data@)),
        (r.1.0 as int, r.1.1 as int) == limits_of(ys(data@)),
        r.0.0 <= 0 <= r.0.1,
        r.1.0 <= 0 <= r.1.1,
        forall|i: int|
            0 <= i < data@.len() ==> r.0.0 <= #[trigger] data@[i].x <= r.0.1 && r.1.0
                <= data@[i].y <= r.1.1,
{
    let mut lx: (PlotUnit, PlotUnit) = (0, 0);
    let mut ly: (PlotUnit, PlotUnit) = (0, 0);
    let mut i: usize = 0;
    while i < data.len()
        invariant
            i <= data@.len(),
            (lx.0 as int, lx.1 as int) == limits_of(xs(data@.take(i as int))),
            (ly.0 as int, ly.1 as int) == limits_of(ys(data@.take(i as int))),
        decreases data@.len() - i,
    {
        let p = data[i];
        proof {
            let t = data@.take(i as int + 1);
            assert(xs(t).drop_last() =~= xs(data@.take(i as int)));
            assert(ys(t).drop_last() =~= ys(data@.take(i as int)));
            assert(xs(t).last() == p.x);
            assert(ys(t).last() == p.y);
        }
        lx = (if p.x < lx.0 { p.x } else { lx.0 }, if p.x > lx.1 { p.x } else { lx.1 });
        ly = (if p.y < ly.0 { p.y } else { ly.0 }, if p.y > ly.1 { p.y } else { ly.1 });
        i = i + 1;
    }
    proof {
        assert(data@.take(data@.len() as int) =~= data@);
        lemma_limits_hold_zero_and_values(xs(data@));
        lemma_limits_hold_zero_and_values(ys(data@));
        assert forall|i: int| 0 <= i < data@.len() implies lx.0 <= #[trigger] data@[i].x <= lx.1
            && ly.0 <= data@[i].y <= ly.1 by {
            assert(xs(data@)[i] == data@[i].x);
            assert(ys(data@)[i] == data@[i].y);
        }
    }
    (lx, ly)
}


/// The pixel column of `x` (in units of `1 / UNIT` pixel) on a canvas
/// `w` pixels wide that spans `low..high`, rounded down.
pub open spec fn pixel_x(x: int, low: int, high: int, w: int) -> int {
    ((x - low) * w * UNIT) / (high - low)
}

/// The pixel row of `y` (in units of `1 / UNIT` pixel) on a canvas `h`
/// pixels high that spans `low..high`: rows grow downward, so `high` is at
/// the top and `low` at the bottom.
pub open spec fn pixel_y(y: int, low: int, high: int, h: int) -> int {
    h * UNIT - ((y - low) * h * UNIT) / (high - low)
}

/// `n / d` rounded down, for a positive `d`.
fn floor_div(n: i128, d: i128) -> (q: i128)
    requires
        d > 0,
    ensures
        q == n / d,
{
    if n >= 0 {
        n / d
    } else {
        let m: i128 = -(n + 1);
        let t: i128 = m / d;
        assert(-t - 1 == n / d) by (nonlinear_arith)
            requires d > 0, n < 0, m == -n - 1, t == m / d;
        -t - 1
    }
}

/// A bound on the scaled offsets below: `2^117`.
const BOUND: i128 = 0x20_0000_0000_0000_0000_0000_0000_0000;

/// `(v - low) * size * UNIT`, the scaled offset of `v` on an axis.
fn scaled_offset(v: i64, low: i64, size: i32) -> (r: i128)
    ensures
        r == (v - low) * size * UNIT,
        -BOUND <= r <= BOUND,
{
    let diff: i128 = v as i128 - low as i128;
    let s: i128 = size as i128 * 1_000_000;
    assert(-BOUND <= diff * s <= BOUND) by (nonlinear_arith)
        requires
            -0x2_0000_0000_0000_0000 <= diff <= 0x2_0000_0000_0000_0000,
            -0x10_0000_0000_0000 <= s <= 0x10_0000_0000_0000,
    ;
    assert(diff * s == (v - low) * size * UNIT) by (nonlinear_arith)
        requires diff == v - low, s == size * UNIT;
    diff * s
}

/// The pixel position `(column, row)` of `p`, in units of `1 / UNIT`
/// pixel, on a `width` by `height` canvas that spans the limits `lim_x`
/// and `lim_y`. An axis whose limits are equal has no scale, and neither
/// has a canvas without a positive width and height.
pub fn map_to_pixels(
    p: Point2D,
    lim_x: (PlotUnit, PlotUnit),
    lim_y: (PlotUnit, PlotUnit),
    width: i32,
    height: i32,
) -> (r: Result<(i128, i128), PlotError>)
    requires
        lim_x.0 <= lim_x.1,
        lim_y.0 <= lim_y.1,
    ensures
        r is Err <==> lim_x.0 == lim_x.1 || lim_y.0 == lim_y.1 || width <= 0 || height <= 0,
        r matches Err(e) ==> e == PlotError::DegenerateRange,
        r matches Ok(q) ==> q.0 == pixel_x(p.x as int, lim_x.0 as int, lim_x.1 as int, width as int)
            && q.1 == pixel_y(p.y as int, lim_y.0 as int, lim_y.1 as int, height as int),
{
    if lim_x.0 == lim_x.1 || lim_y.0 == lim_y.1 || width <= 0 || height <= 0 {
        return Err(PlotError::DegenerateRange);
    }
    let dx: i128 = lim_x.1 as i128 - lim_x.0 as i128;
    let dy: i128 = lim_y.1 as i128 - lim_y.0 as i128;
    let px = floor_div(scaled_offset(p.x, lim_x.0, width), dx);
    let qy = floor_div(scaled_offset(p.y, lim_y.0, height), dy);
    let ghost n: int = (p.y - lim_y.0) * height * UNIT;
    assert(-BOUND <= qy <= BOUND) by (nonlinear_arith)
        requires
            -BOUND <= n <= BOUND,
            qy == n / (dy as int),
            dy >= 1,
    ;
    let py: i128 = height as i128 * 1_000_000 - qy;
    Ok((px, py))
}

/// The low corner of the limits maps to the bottom left pixel, the high
/// corner to the top right one.
pub proof fn lemma_corners_map_to_canvas_corners(
    low_x: int,
    high_x: int,
    low_y: int,
    high_y: int,
    width: int,
    height: int,
)
    requires
        low_x < high_x,
        low_y < high_y,
    ensures
        pixel_x(low_x, low_x, high_x, width) == 0,
        pixel_y(low_y, low_y, high_y, height) == height * UNIT,
        pixel_x(high_x, low_x, high_x, width) == width * UNIT,
        pixel_y(high_y, low_y, high_y, height) == 0,
{
    assert(((high_x - low_x) * width * UNIT) / (high_x - low_x) == width * UNIT) by (nonlinear_arith)
        requires low_x < high_x;
    assert(((high_y - low_y) * height * UNIT) / (high_y - low_y) == height * UNIT) by (nonlinear_arith)
        requires low_y < high_y;
}

} // verus!
