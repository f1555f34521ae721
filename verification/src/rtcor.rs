//! Conversion of the RTCOR observation grids: five-minute accumulations in
//! hundredths of a millimetre, stored north row first, become rain rates in
//! hundredths of a millimetre per hour, south row first.

use vstd::prelude::*;
use crate::constants::{NODATA, RTCOR_GRID_H, RTCOR_GRID_W};
use crate::mask::{cell, lemma_cell_index};

verus! {

/// The rain rate of a stored accumulation: the missing (65534) and
/// out-of-image (65535) markers become [`NODATA`]; other values are
/// multiplied by 12 and capped at 65534.
pub open spec fn rtcor_rate(pv: u16) -> u16 {
    if pv == 65534 || pv == 65535 {
        NODATA
    } else if pv * 12 > 65534 {
        65534
    } else {
        (pv * 12) as u16
    }
}

/// The rain rate of one stored accumulation (see [`rtcor_rate`]).
pub fn accumulation_to_rate(pv: u16) -> (r: u16)
    ensures
        r == rtcor_rate(pv),
        pv < 65534 ==> r as int == if 12 * pv <= 65534 { 12 * pv } else { 65534 },
        pv >= 65534 ==> r == NODATA,
{
    if pv == 65534 || pv == 65535 {
        NODATA
    } else {
        let v = (pv as u32) * 12;
        if v > 65534 {
            65534
        } else {
            v as u16
        }
    }
}

/// A stored five-minute accumulation becomes an hourly rate twelve times as
/// large, capped at 65534; the two marker values become [`NODATA`].
pub proof fn lemma_rate_is_twelve_accumulations(pv: u16)
    ensures
        pv == 65534 || pv == 65535 ==> rtcor_rate(pv) == NODATA,
        pv < 65534 && 12 * pv <= 65534 ==> rtcor_rate(pv) as int == 12 * pv,
        pv < 65534 && 12 * pv > 65534 ==> rtcor_rate(pv) == 65534,
        pv < 65534 ==> rtcor_rate(pv) <= 65534 && (rtcor_rate(pv) as int == 12 * pv
            || rtcor_rate(pv) == 65534),
{
}

/// Converts a stored RTCOR grid (north row first) into rain rates with the
/// rows flipped, so that row 0 is the southernmost.
pub fn convert_rtcor_grid(raw: &[u16]) -> (out: Vec<u16>)
    requires
        raw@.len() == RTCOR_GRID_W * RTCOR_GRID_H,
    ensures
        out@.len() == RTCOR_GRID_W * RTCOR_GRID_H,
        forall|x: int, y: int|
            0 <= x < RTCOR_GRID_W && 0 <= y < RTCOR_GRID_H ==> #[trigger] cell(
                out@,
                RTCOR_GRID_W as int,
                x,
                y,
            ) == rtcor_rate(cell(raw@, RTCOR_GRID_W as int, x, RTCOR_GRID_H - 1 - y)),
{
    let w = RTCOR_GRID_W;
    let h = RTCOR_GRID_H;
    let mut out: Vec<u16> = Vec::new();
    let mut y: usize = 0;
    while y < h
        invariant
            w == RTCOR_GRID_W,
            h == RTCOR_GRID_H,
            raw@.len() == w * h,
            y <= h,
            out@.len() == y * w,
            forall|cx: int, cy: int|
                0 <= cx < w && 0 <= cy < y ==> #[trigger] cell(out@, w as int, cx, cy) == rtcor_rate(
                    cell(raw@, w as int, cx, h - 1 - cy),
                ),
        decreases h - y,
    {
        let row = h - 1 - y;
        let mut x: usize = 0;
        while x < w
            invariant
                w == RTCOR_GRID_W,
                h == RTCOR_GRID_H,
                raw@.len() == w * h,
                y < h,
                row == h - 1 - y,
                x <= w,
                out@.len() == y * w + x,
                forall|cx: int, cy: int|
                    0 <= cx < w && 0 <= cy < y ==> #[trigger] cell(out@, w as int, cx, cy)
                        == rtcor_rate(cell(raw@, w as int, cx, h - 1 - cy)),
                forall|cx: int| 0 <= cx < x ==> #[trigger] cell(out@, w as int, cx, y as int) == rtcor_rate(
                    cell(raw@, w as int, cx, row as int),
                ),
            decreases w - x,
        {
            proof {
                lemma_cell_index(w as int, h as int, x as int, row as int);
                lemma_cell_index(w as int, h as int, x as int, y as int);
            }
            let ghost before = out@;
            out.push(accumulation_to_rate(raw[row * w + x]));
            proof {
                assert forall|cx: int, cy: int|
                    0 <= cx < w && 0 <= cy < y implies #[trigger] cell(out@, w as int, cx, cy)
                        == rtcor_rate(cell(raw@, w as int, cx, h - 1 - cy)) by {
                    lemma_cell_index(w as int, h as int, cx, cy);
                    assert(cy * w + cx < y * w) by (nonlinear_arith)
                        requires
                            cy + 1 <= y,
                            cx < w,
                    ;
                    assert(cell(out@, w as int, cx, cy) == cell(before, w as int, cx, cy));
                }
                assert forall|cx: int| 0 <= cx < x + 1 implies #[trigger] cell(out@, w as int, cx, y as int)
                    == rtcor_rate(cell(raw@, w as int, cx, row as int)) by {
                    if cx < x {
                        assert(cell(out@, w as int, cx, y as int) == cell(before, w as int, cx, y as int));
                    }
                }
            }
            x += 1;
        }
        proof {
            assert((y + 1) * w == y * w + w) by (nonlinear_arith);
        }
        y += 1;
    }
    out
}

} // verus!
