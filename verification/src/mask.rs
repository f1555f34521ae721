//! Neighbourhood rain masks for the neighbourhood ensemble probability: a
//! cell is marked when some raining cell lies within a circular radius of it.

use vstd::prelude::*;
use crate::constants::{FORECAST_GRID_H, FORECAST_GRID_W, NODATA, RAIN_THRESHOLD};

verus! {

/// A raw value that counts as rain.
pub open spec fn is_rain(v: u16) -> bool {
    v != NODATA && v >= RAIN_THRESHOLD
}

/// The value of a row-major grid of width `w` at column `x`, row `y`.
pub open spec fn cell<T>(s: Seq<T>, w: int, x: int, y: int) -> T {
    s[y * w + x]
}

/// Whether `(x, y)` lies within `radius` of `(sx, sy)`.
pub open spec fn in_disk(x: int, y: int, sx: int, sy: int, radius: int) -> bool {
    (x - sx) * (x - sx) + (y - sy) * (y - sy) <= radius * radius
}

/// Whether source cell `(sx, sy)` comes before `(lx, ly)` in row-major order.
pub open spec fn before(sx: int, sy: int, lx: int, ly: int) -> bool {
    sy < ly || (sy == ly && sx < lx)
}

/// Whether a raining cell before `(lx, ly)` lies within `radius` of `(x, y)`.
pub open spec fn rain_near_before(
    data: Seq<u16>,
    w: int,
    h: int,
    radius: int,
    x: int,
    y: int,
    lx: int,
    ly: int,
) -> bool {
    exists|sx: int, sy: int|
        0 <= sx < w && 0 <= sy < h && before(sx, sy, lx, ly) && is_rain(
            #[trigger] cell(data, w, sx, sy),
        ) && in_disk(x, y, sx, sy, radius)
}

/// Whether a raining cell lies within `radius` of `(x, y)`.
pub open spec fn rain_near(data: Seq<u16>, w: int, h: int, radius: int, x: int, y: int) -> bool {
    rain_near_before(data, w, h, radius, x, y, 0, h)
}

/// Row-major positions of a `w` by `h` grid are distinct and in range.
pub proof fn lemma_cell_index(w: int, h: int, x: int, y: int)
    requires
        0 <= x < w,
        0 <= y < h,
    ensures
        0 <= y * w + x < w * h,
        y * w + x + 1 <= w * h,
{
    assert(0 <= y * w) by (nonlinear_arith)
        requires
            0 <= y,
            0 <= w,
    ;
    assert(y * w + w <= w * h) by (nonlinear_arith)
        requires
            y + 1 <= h,
            0 <= w,
    ;
}

proof fn lemma_cell_index_unique(w: int, x: int, y: int, x2: int, y2: int)
    requires
        0 <= x < w,
        0 <= x2 < w,
        0 <= y,
        0 <= y2,
        y * w + x == y2 * w + x2,
    ensures
        x == x2 && y == y2,
{
    if y < y2 {
        assert(y * w + w <= y2 * w) by (nonlinear_arith)
            requires
                y + 1 <= y2,
                0 <= w,
        ;
    } else if y > y2 {
        assert(y2 * w + w <= y * w) by (nonlinear_arith)
            requires
                y2 + 1 <= y,
                0 <= w,
        ;
    }
}

proof fn lemma_far(d: int, r: int)
    requires
        0 <= r < d || d < -r <= 0,
    ensures
        d * d > r * r,
{
    assert(d * d > r * r) by (nonlinear_arith)
        requires
            0 <= r < d || d < -r <= 0,
    ;
}

/// Whether `(x, y)` lies within `radius` of `(sx, sy)`, for cells of the
/// window of `(sx, sy)`.
fn within_radius(x: usize, y: usize, sx: usize, sy: usize, radius: usize) -> (r: bool)
    requires
        x <= sx + radius,
        sx <= x + radius,
        y <= sy + radius,
        sy <= y + radius,
    ensures
        r == in_disk(x as int, y as int, sx as int, sy as int, radius as int),
{
    let dx: u128 = if x >= sx {
        (x - sx) as u128
    } else {
        (sx - x) as u128
    };
    let dy: u128 = if y >= sy {
        (y - sy) as u128
    } else {
        (sy - y) as u128
    };
    let rr: u128 = radius as u128;
    assert(dx * dx <= rr * rr) by (nonlinear_arith)
        requires
            dx <= rr,
    ;
    assert(rr * rr <= 0xffff_ffff_ffff_ffff * 0xffff_ffff_ffff_ffff) by (nonlinear_arith)
        requires
            rr <= 0xffff_ffff_ffff_ffff,
    ;
    assert(dy * dy <= rr * rr) by (nonlinear_arith)
        requires
            dy <= rr,
    ;
    proof {
        assert((x - sx) * (x - sx) == dx * dx) by (nonlinear_arith)
            requires
                dx == x - sx || dx == sx - x,
        ;
        assert((y - sy) * (y - sy) == dy * dy) by (nonlinear_arith)
            requires
                dy == y - sy || dy == sy - y,
        ;
    }
    dy * dy <= rr * rr - dx * dx
}

/// Marks every cell of the grid within `radius` of `(sx, sy)`.
fn stamp_disk(mask: &mut Vec<bool>, sx: usize, sy: usize, radius: usize, w: usize, h: usize)
    requires
        old(mask)@.len() == w * h,
        w * h <= usize::MAX,
        sx < w,
        sy < h,
    ensures
        final(mask)@.len() == w * h,
        forall|x: int, y: int|
            0 <= x < w && 0 <= y < h ==> #[trigger] cell(final(mask)@, w as int, x, y) == (cell(
                old(mask)@,
                w as int,
                x,
                y,
            ) || in_disk(x, y, sx as int, sy as int, radius as int)),
{
    let ghost start = mask@;
    let y0: usize = if sy >= radius {
        sy - radius
    } else {
        0
    };
    let y1: usize = if h - 1 - sy >= radius {
        sy + radius
    } else {
        h - 1
    };
    let x0: usize = if sx >= radius {
        sx - radius
    } else {
        0
    };
    let x1: usize = if w - 1 - sx >= radius {
        sx + radius
    } else {
        w - 1
    };
    let mut ny = y0;
    while ny <= y1
        invariant
            mask@.len() == w * h,
            start.len() == w * h,
            sx < w,
            sy < h,
            y0 <= ny <= y1 + 1,
            y1 < h,
            x0 <= x1 < w,
            x0 <= sx <= x1,
            y0 <= sy <= y1,
            x0 == sx - radius || x0 == 0,
            x1 == sx + radius || x1 == w - 1,
            y0 == sy - radius || y0 == 0,
            y1 == sy + radius || y1 == h - 1,
            y1 <= sy + radius,
            sy <= y0 + radius,
            x1 <= sx + radius,
            sx <= x0 + radius,
            w * h <= usize::MAX,
            forall|x: int, y: int|
                0 <= x < w && 0 <= y < h ==> #[trigger] cell(mask@, w as int, x, y) == (cell(
                    start,
                    w as int,
                    x,
                    y,
                ) || (in_disk(x, y, sx as int, sy as int, radius as int) && y0 <= y < ny)),
        decreases y1 + 1 - ny,
    {
        let mut nx = x0;
        while nx <= x1
            invariant
                mask@.len() == w * h,
                start.len() == w * h,
                sx < w,
                sy < h,
                y0 <= ny <= y1,
                y1 < h,
                x0 <= nx <= x1 + 1,
                x0 <= x1 < w,
                x0 <= sx <= x1,
                y0 <= sy <= y1,
                x0 == sx - radius || x0 == 0,
                x1 == sx + radius || x1 == w - 1,
                y0 == sy - radius || y0 == 0,
                y1 == sy + radius || y1 == h - 1,
                y1 <= sy + radius,
                sy <= y0 + radius,
                x1 <= sx + radius,
                sx <= x0 + radius,
                w * h <= usize::MAX,
                forall|x: int, y: int|
                    0 <= x < w && 0 <= y < h ==> #[trigger] cell(mask@, w as int, x, y) == (cell(
                        start,
                        w as int,
                        x,
                        y,
                    ) || (in_disk(x, y, sx as int, sy as int, radius as int) && ((y0 <= y < ny)
                        || (y == ny && x0 <= x < nx)))),
            decreases x1 + 1 - nx,
        {
            proof {
                lemma_cell_index(w as int, h as int, nx as int, ny as int);
            }
            if within_radius(nx, ny, sx, sy, radius) {
                let ghost before_set = mask@;
                mask.set(ny * w + nx, true);
                proof {
                    assert forall|x: int, y: int| 0 <= x < w && 0 <= y < h implies #[trigger] cell(
                        mask@,
                        w as int,
                        x,
                        y,
                    ) == (cell(start, w as int, x, y) || (in_disk(
                        x,
                        y,
                        sx as int,
                        sy as int,
                        radius as int,
                    ) && ((y0 <= y < ny) || (y == ny && x0 <= x < nx + 1)))) by {
                        lemma_cell_index(w as int, h as int, x, y);
                        if x != nx || y != ny {
                            if y * w + x == ny * w + nx {
                                lemma_cell_index_unique(w as int, x, y, nx as int, ny as int);
                            }
                            assert(cell(mask@, w as int, x, y) == cell(before_set, w as int, x, y));
                        }
                    }
                }
            }
            nx += 1;
        }
        proof {
            assert forall|x: int, y: int| 0 <= x < w && 0 <= y < h implies #[trigger] cell(
                mask@,
                w as int,
                x,
                y,
            ) == (cell(start, w as int, x, y) || (in_disk(
                x,
                y,
                sx as int,
                sy as int,
                radius as int,
            ) && y0 <= y < ny + 1)) by {
                if y == ny && (x < x0 || x > x1) && in_disk(x, y, sx as int, sy as int, radius as int) {
                    lemma_far(x - sx, radius as int);
                    assert((y - sy) * (y - sy) >= 0) by (nonlinear_arith);
                }
            }
        }
        ny += 1;
    }
    proof {
        assert forall|x: int, y: int| 0 <= x < w && 0 <= y < h implies #[trigger] cell(
            mask@,
            w as int,
            x,
            y,
        ) == (cell(start, w as int, x, y) || in_disk(x, y, sx as int, sy as int, radius as int)) by {
            if (y < y0 || y > y1) && in_disk(x, y, sx as int, sy as int, radius as int) {
                lemma_far(y - sy, radius as int);
                assert((x - sx) * (x - sx) >= 0) by (nonlinear_arith);
            } else if (x < x0 || x > x1) && in_disk(x, y, sx as int, sy as int, radius as int) {
                lemma_far(x - sx, radius as int);
                assert((y - sy) * (y - sy) >= 0) by (nonlinear_arith);
            }
        }
    }
}

/// Marks the cells of a `width` by `height` grid that have a raining cell
/// (not [`NODATA`], at least [`RAIN_THRESHOLD`]) within `radius` cells.
pub fn compute_dilated_mask_with_dims(member_data: &[u16], radius: usize, width: usize, height: usize) -> (mask: Vec<bool>)
    requires
        width * height <= usize::MAX,
        member_data@.len() >= width * height,
    ensures
        mask@.len() == width * height,
        forall|x: int, y: int|
            0 <= x < width && 0 <= y < height ==> #[trigger] cell(mask@, width as int, x, y)
                == rain_near(member_data@, width as int, height as int, radius as int, x, y),
{
    let n = width * height;
    let ghost d = member_data@;
    let ghost wi = width as int;
    let ghost hi = height as int;
    let ghost ri = radius as int;
    let mut any_rain = false;
    let mut i: usize = 0;
    while i < n
        invariant
            n == width * height,
            i <= n,
            member_data@.len() >= n,
            any_rain <==> exists|j: int| 0 <= j < i && is_rain(#[trigger] member_data@[j]),
        decreases n - i,
    {
        let v = member_data[i];
        if v != NODATA && v >= RAIN_THRESHOLD {
            any_rain = true;
        }
        i += 1;
    }
    let mut mask: Vec<bool> = Vec::new();
    let mut k: usize = 0;
    while k < n
        invariant
            k <= n,
            mask@.len() == k,
            forall|j: int| 0 <= j < k ==> !#[trigger] mask@[j],
        decreases n - k,
    {
        mask.push(false);
        k += 1;
    }
    if !any_rain {
        proof {
            assert forall|x: int, y: int| 0 <= x < width && 0 <= y < height implies #[trigger] cell(
                mask@,
                wi,
                x,
                y,
            ) == rain_near(d, wi, hi, ri, x, y) by {
                lemma_cell_index(wi, hi, x, y);
                if rain_near(d, wi, hi, ri, x, y) {
                    let (sx, sy) = choose|sx: int, sy: int|
                        0 <= sx < wi && 0 <= sy < hi && before(sx, sy, 0, hi) && is_rain(
                            #[trigger] cell(d, wi, sx, sy),
                        ) && in_disk(x, y, sx, sy, ri);
                    lemma_cell_index(wi, hi, sx, sy);
                    assert(is_rain(d[sy * wi + sx]));
                }
            }
        }
        return mask;
    }
    proof {
        assert forall|x: int, y: int| 0 <= x < width && 0 <= y < height implies #[trigger] cell(
            mask@,
            wi,
            x,
            y,
        ) == rain_near_before(d, wi, hi, ri, x, y, 0, 0) by {
            lemma_cell_index(wi, hi, x, y);
            assert(!mask@[y * wi + x]);
        }
    }
    let mut sy: usize = 0;
    while sy < height
        invariant
            n == width * height,
            d == member_data@,
            wi == width,
            hi == height,
            ri == radius,
            d.len() >= n,
            sy <= height,
            mask@.len() == n,
            forall|x: int, y: int|
                0 <= x < width && 0 <= y < height ==> #[trigger] cell(mask@, wi, x, y)
                    == rain_near_before(d, wi, hi, ri, x, y, 0, sy as int),
        decreases height - sy,
    {
        let mut sx: usize = 0;
        while sx < width
            invariant
                n == width * height,
                d == member_data@,
                wi == width,
                hi == height,
                ri == radius,
                d.len() >= n,
                sy < height,
                sx <= width,
                mask@.len() == n,
                forall|x: int, y: int|
                    0 <= x < width && 0 <= y < height ==> #[trigger] cell(mask@, wi, x, y)
                        == rain_near_before(d, wi, hi, ri, x, y, sx as int, sy as int),
            decreases width - sx,
        {
            proof {
                lemma_cell_index(wi, hi, sx as int, sy as int);
            }
            let v = member_data[sy * width + sx];
            let ghost old_mask = mask@;
            if v != NODATA && v >= RAIN_THRESHOLD {
                stamp_disk(&mut mask, sx, sy, radius, width, height);
            }
            proof {
                assert forall|x: int, y: int| 0 <= x < width && 0 <= y < height implies #[trigger] cell(
                    mask@,
                    wi,
                    x,
                    y,
                ) == rain_near_before(d, wi, hi, ri, x, y, sx + 1, sy as int) by {
                    assert(cell(d, wi, sx as int, sy as int) == v);
                    if rain_near_before(d, wi, hi, ri, x, y, sx + 1, sy as int) {
                        let (px, py) = choose|px: int, py: int|
                            0 <= px < wi && 0 <= py < hi && before(px, py, sx + 1, sy as int)
                                && is_rain(#[trigger] cell(d, wi, px, py)) && in_disk(
                                x,
                                y,
                                px,
                                py,
                                ri,
                            );
                        if px != sx || py != sy {
                            assert(before(px, py, sx as int, sy as int));
                            assert(rain_near_before(d, wi, hi, ri, x, y, sx as int, sy as int));
                        }
                    }
                    if rain_near_before(d, wi, hi, ri, x, y, sx as int, sy as int) {
                        let (px, py) = choose|px: int, py: int|
                            0 <= px < wi && 0 <= py < hi && before(px, py, sx as int, sy as int)
                                && is_rain(#[trigger] cell(d, wi, px, py)) && in_disk(
                                x,
                                y,
                                px,
                                py,
                                ri,
                            );
                        assert(before(px, py, sx + 1, sy as int));
                    }
                    if is_rain(v) && in_disk(x, y, sx as int, sy as int, ri) {
                        assert(before(sx as int, sy as int, sx + 1, sy as int));
                        assert(is_rain(cell(d, wi, sx as int, sy as int)));
                    }
                }
            }
            sx += 1;
        }
        proof {
            assert forall|x: int, y: int| 0 <= x < width && 0 <= y < height implies #[trigger] cell(
                mask@,
                wi,
                x,
                y,
            ) == rain_near_before(d, wi, hi, ri, x, y, 0, sy + 1) by {
                if rain_near_before(d, wi, hi, ri, x, y, 0, sy + 1) {
                    let (px, py) = choose|px: int, py: int|
                        0 <= px < wi && 0 <= py < hi && before(px, py, 0, sy + 1) && is_rain(
                            #[trigger] cell(d, wi, px, py),
                        ) && in_disk(x, y, px, py, ri);
                    assert(before(px, py, wi, sy as int));
                }
                if rain_near_before(d, wi, hi, ri, x, y, wi, sy as int) {
                    let (px, py) = choose|px: int, py: int|
                        0 <= px < wi && 0 <= py < hi && before(px, py, wi, sy as int) && is_rain(
                            #[trigger] cell(d, wi, px, py),
                        ) && in_disk(x, y, px, py, ri);
                    assert(before(px, py, 0, sy + 1));
                }
            }
        }
        sy += 1;
    }
    mask
}

/// The neighbourhood rain mask of a member grid of the forecast grid size.
pub fn compute_dilated_mask(member_data: &[u16], radius: usize) -> (mask: Vec<bool>)
    requires
        member_data@.len() >= FORECAST_GRID_W * FORECAST_GRID_H,
    ensures
        mask@.len() == FORECAST_GRID_W * FORECAST_GRID_H,
        forall|x: int, y: int|
            0 <= x < FORECAST_GRID_W && 0 <= y < FORECAST_GRID_H ==> #[trigger] cell(
                mask@,
                FORECAST_GRID_W as int,
                x,
                y,
            ) == rain_near(
                member_data@,
                FORECAST_GRID_W as int,
                FORECAST_GRID_H as int,
                radius as int,
                x,
                y,
            ),
{
    compute_dilated_mask_with_dims(member_data, radius, FORECAST_GRID_W, FORECAST_GRID_H)
}

/// A raining cell is always marked.
pub proof fn lemma_rain_is_marked(data: Seq<u16>, w: int, h: int, radius: int, x: int, y: int)
    requires
        0 <= x < w,
        0 <= y < h,
        0 <= radius,
        is_rain(cell(data, w, x, y)),
    ensures
        rain_near(data, w, h, radius, x, y),
{
    assert(before(x, y, 0, h));
    assert(in_disk(x, y, x, y, radius)) by (nonlinear_arith)
        requires
            0 <= radius,
    ;
}

/// A cell marked for a radius is marked for every larger radius.
pub proof fn lemma_mask_grows_with_radius(data: Seq<u16>, w: int, h: int, r1: int, r2: int, x: int, y: int)
    requires
        0 <= r1 <= r2,
        rain_near(data, w, h, r1, x, y),
    ensures
        rain_near(data, w, h, r2, x, y),
{
    let (sx, sy) = choose|sx: int, sy: int|
        0 <= sx < w && 0 <= sy < h && before(sx, sy, 0, h) && is_rain(#[trigger] cell(data, w, sx, sy))
            && in_disk(x, y, sx, sy, r1);
    assert(r1 * r1 <= r2 * r2) by (nonlinear_arith)
        requires
            0 <= r1 <= r2,
    ;
    assert(in_disk(x, y, sx, sy, r2));
}

/// With radius 0 exactly the raining cells are marked.
pub proof fn lemma_radius_zero_marks_rain(data: Seq<u16>, w: int, h: int, x: int, y: int)
    requires
        0 <= x < w,
        0 <= y < h,
    ensures
        rain_near(data, w, h, 0, x, y) <==> is_rain(cell(data, w, x, y)),
{
    if rain_near(data, w, h, 0, x, y) {
        let (sx, sy) = choose|sx: int, sy: int|
            0 <= sx < w && 0 <= sy < h && before(sx, sy, 0, h) && is_rain(
                #[trigger] cell(data, w, sx, sy),
            ) && in_disk(x, y, sx, sy, 0);
        assert(sx == x && sy == y) by (nonlinear_arith)
            requires
                (x - sx) * (x - sx) + (y - sy) * (y - sy) <= 0 * 0,
        ;
    }
    if is_rain(cell(data, w, x, y)) {
        lemma_rain_is_marked(data, w, h, 0, x, y);
    }
}

} // verus!
