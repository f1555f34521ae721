//! Grid dimensions and sentinel values shared by the whole service.

use vstd::prelude::*;

verus! {

/// Sentinel value used in the u16 grid to indicate missing / no-data pixels.
pub const NODATA: u16 = 65535;

/// Raw value threshold: members with `val >= RAIN_THRESHOLD` count as "raining".
pub const RAIN_THRESHOLD: u16 = 10;

/// Radius (in grid cells) of the neighbourhood used for ensemble probability.
pub const NEP_RADIUS: usize = 10;

/// Maximum number of historical 5-minute actuals frames kept in memory.
pub const RTCOR_MAX_HISTORY_FRAMES: usize = 24;

/// Target Web Mercator image width in pixels.
pub const GRID_W: u32 = 700;

/// Target Web Mercator image height in pixels.
pub const GRID_H: u32 = 765;

/// Width of the seamless precipitation forecast grid.
pub const FORECAST_GRID_W: usize = 780;

/// Height of the seamless precipitation forecast grid.
pub const FORECAST_GRID_H: usize = 780;

/// Width of the RTCOR observation grid.
pub const RTCOR_GRID_W: usize = 700;

/// Height of the RTCOR observation grid.
pub const RTCOR_GRID_H: usize = 765;

/// Width of the Harmonie GRIB grid.
pub const GRIB_WIDTH: usize = 390;

/// Height of the Harmonie GRIB grid.
pub const GRIB_HEIGHT: usize = 390;

/// Number of cells of the Harmonie GRIB grid.
pub const GRIB_CELL_COUNT: usize = 152100;

/// Largest number of steps accepted in a binary forecast cache file.
pub const MAX_BINARY_CACHE_STEPS: u32 = 1000;

} // verus!
