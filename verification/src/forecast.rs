//! Harmonie forecast runs held in memory: one grid per forecast step for
//! temperature, solar radiation and rain, and a pair of wind component grids
//! per step and height level.

use vstd::prelude::*;
use std::sync::Arc;

verus! {

/// What a single-grid forecast step holds, as plain values.
#[verifier::ext_equal]
pub struct GridStepView {
    pub forecast_hour: i32,
    pub width: usize,
    pub height: usize,
    pub values: Seq<u16>,
}

/// What a wind forecast step holds, as plain values.
#[verifier::ext_equal]
pub struct WindStepView {
    pub forecast_hour: i32,
    pub height_level: u32,
    pub width: usize,
    pub height: usize,
    pub u_values: Seq<u16>,
    pub v_values: Seq<u16>,
}

/// A step of a forecast run: something valid at a whole number of hours
/// after the run's reference time.
pub trait ForecastStep {
    /// The hour offset of the step, in the model's terms.
    spec fn hour_of(&self) -> i32;

    /// The hour offset of the step.
    fn forecast_hour(&self) -> (h: i32)
        ensures
            h == self.hour_of(),
    ;
}

/// A forecast step made of one grid of raw `u16` values.
pub trait GridStep: Sized + ForecastStep {
    /// The step's contents.
    spec fn grid(&self) -> GridStepView;

    /// Builds a step from its hour, dimensions and values.
    fn from_grid(forecast_hour: i32, width: usize, height: usize, values: Vec<u16>) -> (s: Self)
        ensures
            s.grid() == (GridStepView { forecast_hour, width, height, values: values@ }),
    ;

    /// Forecast hour, width and height of the grid.
    fn header(&self) -> (r: (i32, usize, usize))
        ensures
            r == (self.grid().forecast_hour, self.grid().width, self.grid().height),
    ;

    /// The grid values, row by row.
    fn grid_values(&self) -> (r: &Vec<u16>)
        ensures
            r@ == self.grid().values,
    ;
}

/// Temperature at 2 m, in tenths of a kelvin.
pub struct TempStep {
    pub forecast_hour: i32,
    pub width: usize,
    pub height: usize,
    pub values: Arc<Vec<u16>>,
}

/// A temperature forecast run.
pub struct TempForecast {
    pub reference_time: i64,
    pub steps: Vec<TempStep>,
}

/// Global radiation, in W/m², averaged since the previous step.
pub struct SolarStep {
    pub forecast_hour: i32,
    pub width: usize,
    pub height: usize,
    pub values: Arc<Vec<u16>>,
}

/// A solar radiation forecast run.
pub struct SolarForecast {
    pub reference_time: i64,
    pub steps: Vec<SolarStep>,
}

/// Rain intensity, in hundredths of a millimetre per hour.
pub struct RainStep {
    pub forecast_hour: i32,
    pub width: usize,
    pub height: usize,
    pub values: Arc<Vec<u16>>,
}

/// A rain forecast run.
pub struct RainForecast {
    pub reference_time: i64,
    pub steps: Vec<RainStep>,
}

/// Wind components at one height level, each stored as
/// `(m/s + 100) * 100`.
pub struct WindStep {
    pub forecast_hour: i32,
    pub height_level: u32,
    pub width: usize,
    pub height: usize,
    pub u_values: Arc<Vec<u16>>,
    pub v_values: Arc<Vec<u16>>,
}

/// A wind forecast run.
pub struct WindForecast {
    pub reference_time: i64,
    pub steps: Vec<WindStep>,
}

impl ForecastStep for TempStep {
    open spec fn hour_of(&self) -> i32 {
        self.forecast_hour
    }

    fn forecast_hour(&self) -> (h: i32) {
        self.forecast_hour
    }
}

impl GridStep for TempStep {
    open spec fn grid(&self) -> GridStepView {
        GridStepView {
            forecast_hour: self.forecast_hour,
            width: self.width,
            height: self.height,
            values: self.values@,
        }
    }

    fn from_grid(forecast_hour: i32, width: usize, height: usize, values: Vec<u16>) -> (s: Self) {
        TempStep { forecast_hour, width, height, values: Arc::new(values) }
    }

    fn header(&self) -> (r: (i32, usize, usize)) {
        (self.forecast_hour, self.width, self.height)
    }

    fn grid_values(&self) -> (r: &Vec<u16>) {
        &*self.values
    }
}

impl ForecastStep for SolarStep {
    open spec fn hour_of(&self) -> i32 {
        self.forecast_hour
    }

    fn forecast_hour(&self) -> (h: i32) {
        self.forecast_hour
    }
}

impl GridStep for SolarStep {
    open spec fn grid(&self) -> GridStepView {
        GridStepView {
            forecast_hour: self.forecast_hour,
            width: self.width,
            height: self.height,
            values: self.values@,
        }
    }

    fn from_grid(forecast_hour: i32, width: usize, height: usize, values: Vec<u16>) -> (s: Self) {
        SolarStep { forecast_hour, width, height, values: Arc::new(values) }
    }

    fn header(&self) -> (r: (i32, usize, usize)) {
        (self.forecast_hour, self.width, self.height)
    }

    fn grid_values(&self) -> (r: &Vec<u16>) {
        &*self.values
    }
}

impl ForecastStep for RainStep {
    open spec fn hour_of(&self) -> i32 {
        self.forecast_hour
    }

    fn forecast_hour(&self) -> (h: i32) {
        self.forecast_hour
    }
}

impl GridStep for RainStep {
    open spec fn grid(&self) -> GridStepView {
        GridStepView {
            forecast_hour: self.forecast_hour,
            width: self.width,
            height: self.height,
            values: self.values@,
        }
    }

    fn from_grid(forecast_hour: i32, width: usize, height: usize, values: Vec<u16>) -> (s: Self) {
        RainStep { forecast_hour, width, height, values: Arc::new(values) }
    }

    fn header(&self) -> (r: (i32, usize, usize)) {
        (self.forecast_hour, self.width, self.height)
    }

    fn grid_values(&self) -> (r: &Vec<u16>) {
        &*self.values
    }
}

impl ForecastStep for WindStep {
    open spec fn hour_of(&self) -> i32 {
        self.forecast_hour
    }

    fn forecast_hour(&self) -> (h: i32) {
        self.forecast_hour
    }
}

impl WindStep {
    /// The step's contents.
    pub open spec fn wind(&self) -> WindStepView {
        WindStepView {
            forecast_hour: self.forecast_hour,
            height_level: self.height_level,
            width: self.width,
            height: self.height,
            u_values: self.u_values@,
            v_values: self.v_values@,
        }
    }
}

/// The contents of a sequence of grid steps.
pub open spec fn grid_views<S: GridStep>(steps: Seq<S>) -> Seq<GridStepView> {
    steps.map_values(|s: S| s.grid())
}

/// The contents of a sequence of wind steps.
pub open spec fn wind_views(steps: Seq<WindStep>) -> Seq<WindStepView> {
    steps.map_values(|s: WindStep| s.wind())
}

} // verus!
