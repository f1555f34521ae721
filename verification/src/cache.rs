//! The binary cache files of the Harmonie forecast runs.
//!
//! A file starts with four magic bytes, the run's reference time (`i64`) and
//! the number of steps (`u32`). Each step of a single-grid run then holds its
//! forecast hour (`i32`), width and height (`u32`) and the grid values
//! (`u16` each); a wind step holds its forecast hour, height level, width and
//! height, then the `u` grid and the `v` grid. All integers are little-endian.
//! Reading accepts at most [`MAX_BINARY_CACHE_STEPS`] steps, each of the
//! Harmonie grid size, and ignores bytes after the last step.

use vstd::prelude::*;
use crate::bytes::{
    i32_at, i32_bits, i64_at, i64_bits, le16, le32, le64, lemma_i32_bits, lemma_i64_bits,
    lemma_u16_at, lemma_u32_at, lemma_u64_at, push_i32, push_i64, push_u16, push_u32, read_i32,
    read_i64, read_u16, read_u32, u16_at, u32_at,
};
use crate::constants::{GRIB_CELL_COUNT, GRIB_HEIGHT, GRIB_WIDTH, MAX_BINARY_CACHE_STEPS};
use crate::forecast::{
    grid_views, wind_views, GridStep, GridStepView, RainForecast, RainStep, SolarForecast,
    SolarStep, TempForecast, TempStep, WindForecast, WindStep, WindStepView,
};
use std::sync::Arc;

verus! {

/// `"HRMT"` read as a little-endian `u32`: the magic of temperature files.
pub const TEMP_MAGIC: u32 = 0x544D_5248;

/// `"HRW2"` read as a little-endian `u32`: the magic of wind files.
pub const WIND_MAGIC: u32 = 0x3257_5248;

/// `"HRMS"` read as a little-endian `u32`: the magic of solar files.
pub const SOLAR_MAGIC: u32 = 0x534D_5248;

/// `"HRMR"` read as a little-endian `u32`: the magic of rain files.
pub const RAIN_MAGIC: u32 = 0x524D_5248;

/// Why a cache file could not be read.
#[derive(Debug, Clone, Copy, PartialEq, Eq, Structural)]
pub enum CacheError {
    /// The file ends before the data it announces.
    UnexpectedEof,
    /// The file does not start with the expected magic bytes.
    InvalidMagic,
    /// The file announces more steps than [`MAX_BINARY_CACHE_STEPS`].
    TooManySteps(u32),
    /// A step's grid is not of the Harmonie grid size.
    InvalidDimensions(u32, u32),
}

/// The human-readable description of each cache error.
pub open spec fn cache_error_message(e: CacheError) -> Seq<char> {
    match e {
        CacheError::UnexpectedEof => "failed to fill whole buffer: unexpected end of file"@,
        CacheError::InvalidMagic => "Invalid magic bytes in forecast cache file"@,
        CacheError::TooManySteps(_) => "Number of forecast steps exceeds maximum limit"@,
        CacheError::InvalidDimensions(_, _) => "Invalid grid dimensions in forecast cache file"@,
    }
}

impl CacheError {
    /// A human-readable description of the error.
    pub fn message(&self) -> (r: &'static str)
        ensures
            r@ == cache_error_message(*self),
    {
        match self {
            CacheError::UnexpectedEof => "failed to fill whole buffer: unexpected end of file",
            CacheError::InvalidMagic => "Invalid magic bytes in forecast cache file",
            CacheError::TooManySteps(_) => "Number of forecast steps exceeds maximum limit",
            CacheError::InvalidDimensions(_, _) => "Invalid grid dimensions in forecast cache file",
        }
    }
}

// ---------------------------------------------------------------------------
// The byte layout.
// ---------------------------------------------------------------------------

/// The little-endian bytes of a sequence of `u16` values.
pub open spec fn u16s_bytes(s: Seq<u16>) -> Seq<u8>
    decreases s.len(),
{
    if s.len() == 0 {
        Seq::empty()
    } else {
        u16s_bytes(s.drop_last()) + le16(s.last())
    }
}

/// The bytes of one single-grid step.
pub open spec fn grid_step_bytes(s: GridStepView) -> Seq<u8> {
    le32(i32_bits(s.forecast_hour)) + le32(s.width as u32) + le32(s.height as u32) + u16s_bytes(
        s.values,
    )
}

/// The bytes of a sequence of single-grid steps.
pub open spec fn grid_steps_bytes(s: Seq<GridStepView>) -> Seq<u8>
    decreases s.len(),
{
    if s.len() == 0 {
        Seq::empty()
    } else {
        grid_steps_bytes(s.drop_last()) + grid_step_bytes(s.last())
    }
}

/// The bytes of a single-grid cache file.
pub open spec fn grid_file_bytes(magic: u32, reference_time: i64, steps: Seq<GridStepView>) -> Seq<
    u8,
> {
    le32(magic) + le64(i64_bits(reference_time)) + le32(steps.len() as u32) + grid_steps_bytes(steps)
}

/// The bytes of one wind step.
pub open spec fn wind_step_bytes(s: WindStepView) -> Seq<u8> {
    le32(i32_bits(s.forecast_hour)) + le32(s.height_level) + le32(s.width as u32) + le32(
        s.height as u32,
    ) + u16s_bytes(s.u_values) + u16s_bytes(s.v_values)
}

/// The bytes of a sequence of wind steps.
pub open spec fn wind_steps_bytes(s: Seq<WindStepView>) -> Seq<u8>
    decreases s.len(),
{
    if s.len() == 0 {
        Seq::empty()
    } else {
        wind_steps_bytes(s.drop_last()) + wind_step_bytes(s.last())
    }
}

/// The bytes of a wind cache file.
pub open spec fn wind_file_bytes(reference_time: i64, steps: Seq<WindStepView>) -> Seq<u8> {
    le32(WIND_MAGIC) + le64(i64_bits(reference_time)) + le32(steps.len() as u32) + wind_steps_bytes(
        steps,
    )
}

// ---------------------------------------------------------------------------
// Reading.
// ---------------------------------------------------------------------------

/// Bytes of one stored grid of the Harmonie size.
pub open spec fn grid_payload() -> int {
    2 * GRIB_CELL_COUNT
}

/// Bytes of a single-grid step of the Harmonie size.
pub open spec fn grid_step_size() -> int {
    12 + grid_payload()
}

/// Bytes of a wind step of the Harmonie size.
pub open spec fn wind_step_size() -> int {
    16 + 2 * grid_payload()
}

/// The grid of `u16` values stored at `b[pos..]`.
pub open spec fn values_at(b: Seq<u8>, pos: int) -> Seq<u16> {
    Seq::new(GRIB_CELL_COUNT as nat, |j: int| u16_at(b, pos + 2 * j))
}

/// What is wrong with the file header, if anything: the magic, and the
/// announced number of steps.
pub open spec fn header_fault(b: Seq<u8>, magic: u32) -> Option<CacheError> {
    if b.len() < 4 {
        Some(CacheError::UnexpectedEof)
    } else if u32_at(b, 0) != magic {
        Some(CacheError::InvalidMagic)
    } else if b.len() < 16 {
        Some(CacheError::UnexpectedEof)
    } else if u32_at(b, 12) > MAX_BINARY_CACHE_STEPS {
        Some(CacheError::TooManySteps(u32_at(b, 12)))
    } else {
        None
    }
}

/// What is wrong with the single-grid step stored at `b[pos..]`, if anything.
pub open spec fn grid_step_fault(b: Seq<u8>, pos: int) -> Option<CacheError> {
    if b.len() < pos + 12 {
        Some(CacheError::UnexpectedEof)
    } else if u32_at(b, pos + 4) != GRIB_WIDTH || u32_at(b, pos + 8) != GRIB_HEIGHT {
        Some(CacheError::InvalidDimensions(u32_at(b, pos + 4), u32_at(b, pos + 8)))
    } else if b.len() < pos + grid_step_size() {
        Some(CacheError::UnexpectedEof)
    } else {
        None
    }
}

/// The first fault among the single-grid steps `k..n`.
pub open spec fn first_grid_fault(b: Seq<u8>, k: int, n: int) -> Option<CacheError>
    decreases n - k,
{
    if k >= n {
        None
    } else {
        match grid_step_fault(b, 16 + k * grid_step_size()) {
            Some(e) => Some(e),
            None => first_grid_fault(b, k + 1, n),
        }
    }
}

/// The single-grid step stored at `b[pos..]`.
pub open spec fn grid_step_at(b: Seq<u8>, pos: int) -> GridStepView {
    GridStepView {
        forecast_hour: i32_at(b, pos),
        width: GRIB_WIDTH,
        height: GRIB_HEIGHT,
        values: values_at(b, pos + 12),
    }
}

/// What reading a single-grid cache file with the given magic gives: the
/// reference time and the steps, or the first fault met.
pub open spec fn read_grid_file(b: Seq<u8>, magic: u32) -> Result<(i64, Seq<GridStepView>), CacheError> {
    match header_fault(b, magic) {
        Some(e) => Err(e),
        None => {
            let n = u32_at(b, 12) as int;
            match first_grid_fault(b, 0, n) {
                Some(e) => Err(e),
                None => Ok(
                    (
                        i64_at(b, 4),
                        Seq::new(n as nat, |k: int| grid_step_at(b, 16 + k * grid_step_size())),
                    ),
                ),
            }
        },
    }
}

/// What is wrong with the wind step stored at `b[pos..]`, if anything.
pub open spec fn wind_step_fault(b: Seq<u8>, pos: int) -> Option<CacheError> {
    if b.len() < pos + 16 {
        Some(CacheError::UnexpectedEof)
    } else if u32_at(b, pos + 8) != GRIB_WIDTH || u32_at(b, pos + 12) != GRIB_HEIGHT {
        Some(CacheError::InvalidDimensions(u32_at(b, pos + 8), u32_at(b, pos + 12)))
    } else if b.len() < pos + wind_step_size() {
        Some(CacheError::UnexpectedEof)
    } else {
        None
    }
}

/// The first fault among the wind steps `k..n`.
pub open spec fn first_wind_fault(b: Seq<u8>, k: int, n: int) -> Option<CacheError>
    decreases n - k,
{
    if k >= n {
        None
    } else {
        match wind_step_fault(b, 16 + k * wind_step_size()) {
            Some(e) => Some(e),
            None => first_wind_fault(b, k + 1, n),
        }
    }
}

/// The wind step stored at `b[pos..]`.
pub open spec fn wind_step_at(b: Seq<u8>, pos: int) -> WindStepView {
    WindStepView {
        forecast_hour: i32_at(b, pos),
        height_level: u32_at(b, pos + 4),
        width: GRIB_WIDTH,
        height: GRIB_HEIGHT,
        u_values: values_at(b, pos + 16),
        v_values: values_at(b, pos + 16 + grid_payload()),
    }
}

/// What reading a wind cache file gives: the reference time and the steps,
/// or the first fault met.
pub open spec fn read_wind_file(b: Seq<u8>) -> Result<(i64, Seq<WindStepView>), CacheError> {
    match header_fault(b, WIND_MAGIC) {
        Some(e) => Err(e),
        None => {
            let n = u32_at(b, 12) as int;
            match first_wind_fault(b, 0, n) {
                Some(e) => Err(e),
                None => Ok(
                    (
                        i64_at(b, 4),
                        Seq::new(n as nat, |k: int| wind_step_at(b, 16 + k * wind_step_size())),
                    ),
                ),
            }
        },
    }
}

// ---------------------------------------------------------------------------
// Writing and reading, executable.
// ---------------------------------------------------------------------------

/// Appends the little-endian bytes of `values`.
fn push_u16s(out: &mut Vec<u8>, values: &Vec<u16>)
    ensures
        final(out)@ == old(out)@ + u16s_bytes(values@),
{
    let ghost start = out@;
    let mut j: usize = 0;
    while j < values.len()
        invariant
            j <= values@.len(),
            out@ == start + u16s_bytes(values@.take(j as int)),
        decreases values@.len() - j,
    {
        proof {
            assert(values@.take(j + 1).drop_last() =~= values@.take(j as int));
        }
        let ghost before = out@;
        push_u16(out, values[j]);
        proof {
            assert(out@ =~= start + u16s_bytes(values@.take(j + 1)));
        }
        j += 1;
    }
    assert(values@.take(j as int) =~= values@);
}

/// The file header: magic, reference time and step count.
fn encode_header(magic: u32, reference_time: i64, n: usize) -> (out: Vec<u8>)
    ensures
        out@ == le32(magic) + le64(i64_bits(reference_time)) + le32(n as u32),
{
    let mut out: Vec<u8> = Vec::new();
    push_u32(&mut out, magic);
    push_i64(&mut out, reference_time);
    push_u32(&mut out, n as u32);
    assert(out@ =~= le32(magic) + le64(i64_bits(reference_time)) + le32(n as u32));
    out
}

/// The bytes of a single-grid cache file.
#[verifier::rlimit(30)]
#[verifier::spinoff_prover]
fn encode_grid_file<S: GridStep>(magic: u32, reference_time: i64, steps: &Vec<S>) -> (out: Vec<u8>)
    ensures
        out@ == grid_file_bytes(magic, reference_time, grid_views(steps@)),
{
    let mut out = encode_header(magic, reference_time, steps.len());
    let ghost head = out@;
    let ghost views = grid_views(steps@);
    let mut k: usize = 0;
    while k < steps.len()
        invariant
            k <= steps@.len(),
            views == grid_views(steps@),
            out@ == head + grid_steps_bytes(views.take(k as int)),
        decreases steps@.len() - k,
    {
        let step = &steps[k];
        let (hour, w, h) = step.header();
        let ghost before = out@;
        push_i32(&mut out, hour);
        push_u32(&mut out, w as u32);
        push_u32(&mut out, h as u32);
        push_u16s(&mut out, step.grid_values());
        proof {
            assert(views.take(k + 1).drop_last() =~= views.take(k as int));
            assert(views.take(k + 1).last() == steps@[k as int].grid());
            assert(out@ =~= before + grid_step_bytes(steps@[k as int].grid()));
            assert(out@ =~= head + grid_steps_bytes(views.take(k + 1)));
        }
        k += 1;
    }
    assert(views.take(k as int) =~= views);
    out
}

/// The bytes of a wind cache file.
#[verifier::rlimit(30)]
#[verifier::spinoff_prover]
fn encode_wind_file(reference_time: i64, steps: &Vec<WindStep>) -> (out: Vec<u8>)
    ensures
        out@ == wind_file_bytes(reference_time, wind_views(steps@)),
{
    let mut out = encode_header(WIND_MAGIC, reference_time, steps.len());
    let ghost head = out@;
    let ghost views = wind_views(steps@);
    let mut k: usize = 0;
    while k < steps.len()
        invariant
            k <= steps@.len(),
            views == wind_views(steps@),
            out@ == head + wind_steps_bytes(views.take(k as int)),
        decreases steps@.len() - k,
    {
        let step = &steps[k];
        let ghost before = out@;
        push_i32(&mut out, step.forecast_hour);
        push_u32(&mut out, step.height_level);
        push_u32(&mut out, step.width as u32);
        push_u32(&mut out, step.height as u32);
        push_u16s(&mut out, &*step.u_values);
        push_u16s(&mut out, &*step.v_values);
        proof {
            assert(views.take(k + 1).drop_last() =~= views.take(k as int));
            assert(views.take(k + 1).last() == steps@[k as int].wind());
            assert(out@ =~= before + wind_step_bytes(steps@[k as int].wind()));
            assert(out@ =~= head + wind_steps_bytes(views.take(k + 1)));
        }
        k += 1;
    }
    assert(views.take(k as int) =~= views);
    out
}

/// Reads a grid of the Harmonie size stored at `b[pos..]`.
fn read_values(b: &[u8], pos: usize) -> (v: Vec<u16>)
    requires
        pos + grid_payload() <= b.len(),
    ensures
        v@ == values_at(b@, pos as int),
{
    let mut v: Vec<u16> = Vec::new();
    let mut j: usize = 0;
    while j < GRIB_CELL_COUNT
        invariant
            j <= GRIB_CELL_COUNT,
            pos + grid_payload() <= b.len(),
            v@.len() == j,
            forall|i: int| 0 <= i < j ==> v@[i] == u16_at(b@, pos + 2 * i),
        decreases GRIB_CELL_COUNT - j,
    {
        v.push(read_u16(b, pos + 2 * j));
        j += 1;
    }
    assert(v@ =~= values_at(b@, pos as int));
    v
}

/// Checks the header; gives the reference time and the number of steps.
fn decode_header(b: &[u8], magic: u32) -> (r: Result<(i64, u32), CacheError>)
    ensures
        match r {
            Ok((t, n)) => header_fault(b@, magic).is_none() && t == i64_at(b@, 4) && n == u32_at(
                b@,
                12,
            ),
            Err(e) => header_fault(b@, magic) == Some(e),
        },
{
    if b.len() < 4 {
        return Err(CacheError::UnexpectedEof);
    }
    if read_u32(b, 0) != magic {
        return Err(CacheError::InvalidMagic);
    }
    if b.len() < 16 {
        return Err(CacheError::UnexpectedEof);
    }
    let t = read_i64(b, 4);
    let n = read_u32(b, 12);
    if n > MAX_BINARY_CACHE_STEPS {
        return Err(CacheError::TooManySteps(n));
    }
    Ok((t, n))
}

/// Reads a single-grid cache file with the given magic.
fn decode_grid_file<S: GridStep>(b: &[u8], magic: u32) -> (r: Result<(i64, Vec<S>), CacheError>)
    ensures
        match (r, read_grid_file(b@, magic)) {
            (Ok((t, steps)), Ok((t2, views))) => t == t2 && grid_views(steps@) == views,
            (Err(e), Err(e2)) => e == e2,
            _ => false,
        },
{
    let (t, n) = match decode_header(b, magic) {
        Ok(tn) => tn,
        Err(e) => return Err(e),
    };
    let ghost nn = n as int;
    let mut steps: Vec<S> = Vec::new();
    let mut k: u32 = 0;
    let mut pos: usize = 16;
    while k < n
        invariant
            header_fault(b@, magic).is_none(),
            n == u32_at(b@, 12),
            n <= MAX_BINARY_CACHE_STEPS,
            k <= n,
            pos == 16 + k * grid_step_size(),
            pos <= 16 + k * grid_step_size() <= 16 + 1000 * grid_step_size(),
            steps@.len() == k,
            forall|i: int| 0 <= i < k ==> #[trigger] steps@[i].grid() == grid_step_at(b@, 16 + i * grid_step_size()),
            first_grid_fault(b@, 0, nn) == first_grid_fault(b@, k as int, nn),
            nn == n,
        decreases n - k,
    {
        if b.len() < pos + 12 {
            return Err(CacheError::UnexpectedEof);
        }
        let hour = read_i32(b, pos);
        let w = read_u32(b, pos + 4);
        let h = read_u32(b, pos + 8);
        if w != GRIB_WIDTH as u32 || h != GRIB_HEIGHT as u32 {
            return Err(CacheError::InvalidDimensions(w, h));
        }
        if b.len() - pos < 12 + 2 * GRIB_CELL_COUNT {
            return Err(CacheError::UnexpectedEof);
        }
        let values = read_values(b, pos + 12);
        let step = S::from_grid(hour, GRIB_WIDTH, GRIB_HEIGHT, values);
        proof {
            assert(step.grid() =~= grid_step_at(b@, 16 + k * grid_step_size()));
        }
        steps.push(step);
        proof {
            assert((k + 1) * grid_step_size() == k * grid_step_size() + grid_step_size())
                by (nonlinear_arith);
            assert((k + 1) * grid_step_size() <= 1000 * grid_step_size()) by (nonlinear_arith)
                requires
                    k + 1 <= 1000,
            ;
        }
        k += 1;
        pos += 12 + 2 * GRIB_CELL_COUNT;
    }
    proof {
        let views = Seq::new(nn as nat, |i: int| grid_step_at(b@, 16 + i * grid_step_size()));
        assert(grid_views(steps@) =~= views);
    }
    Ok((t, steps))
}

/// Reads a wind cache file.
fn decode_wind_file(b: &[u8]) -> (r: Result<(i64, Vec<WindStep>), CacheError>)
    ensures
        match (r, read_wind_file(b@)) {
            (Ok((t, steps)), Ok((t2, views))) => t == t2 && wind_views(steps@) == views,
            (Err(e), Err(e2)) => e == e2,
            _ => false,
        },
{
    let (t, n) = match decode_header(b, WIND_MAGIC) {
        Ok(tn) => tn,
        Err(e) => return Err(e),
    };
    let ghost nn = n as int;
    let mut steps: Vec<WindStep> = Vec::new();
    let mut k: u32 = 0;
    let mut pos: usize = 16;
    while k < n
        invariant
            header_fault(b@, WIND_MAGIC).is_none(),
            n == u32_at(b@, 12),
            n <= MAX_BINARY_CACHE_STEPS,
            k <= n,
            pos == 16 + k * wind_step_size(),
            pos <= 16 + k * wind_step_size() <= 16 + 1000 * wind_step_size(),
            steps@.len() == k,
            forall|i: int| 0 <= i < k ==> #[trigger] steps@[i].wind() == wind_step_at(b@, 16 + i * wind_step_size()),
            first_wind_fault(b@, 0, nn) == first_wind_fault(b@, k as int, nn),
            nn == n,
        decreases n - k,
    {
        if b.len() < pos + 16 {
            return Err(CacheError::UnexpectedEof);
        }
        let hour = read_i32(b, pos);
        let level = read_u32(b, pos + 4);
        let w = read_u32(b, pos + 8);
        let h = read_u32(b, pos + 12);
        if w != GRIB_WIDTH as u32 || h != GRIB_HEIGHT as u32 {
            return Err(CacheError::InvalidDimensions(w, h));
        }
        if b.len() - pos < 16 + 4 * GRIB_CELL_COUNT {
            return Err(CacheError::UnexpectedEof);
        }
        let u = read_values(b, pos + 16);
        let v = read_values(b, pos + 16 + 2 * GRIB_CELL_COUNT);
        let step = WindStep {
            forecast_hour: hour,
            height_level: level,
            width: GRIB_WIDTH,
            height: GRIB_HEIGHT,
            u_values: Arc::new(u),
            v_values: Arc::new(v),
        };
        proof {
            assert(step.wind() =~= wind_step_at(b@, 16 + k * wind_step_size()));
        }
        steps.push(step);
        proof {
            assert((k + 1) * wind_step_size() == k * wind_step_size() + wind_step_size())
                by (nonlinear_arith);
            assert((k + 1) * wind_step_size() <= 1000 * wind_step_size()) by (nonlinear_arith)
                requires
                    k + 1 <= 1000,
            ;
        }
        k += 1;
        pos += 16 + 4 * GRIB_CELL_COUNT;
    }
    proof {
        let views = Seq::new(nn as nat, |i: int| wind_step_at(b@, 16 + i * wind_step_size()));
        assert(wind_views(steps@) =~= views);
    }
    Ok((t, steps))
}

impl TempForecast {
    /// The cache file bytes of this run.
    pub fn to_bytes(&self) -> (out: Vec<u8>)
        ensures
            out@ == grid_file_bytes(TEMP_MAGIC, self.reference_time, grid_views(self.steps@)),
    {
        encode_grid_file(TEMP_MAGIC, self.reference_time, &self.steps)
    }

    /// Reads a run from the bytes of a cache file.
    pub fn from_bytes(bytes: &[u8]) -> (r: Result<TempForecast, CacheError>)
        ensures
            match (r, read_grid_file(bytes@, TEMP_MAGIC)) {
                (Ok(f), Ok((t, views))) => f.reference_time == t && grid_views(f.steps@) == views,
                (Err(e), Err(e2)) => e == e2,
                _ => false,
            },
    {
        match decode_grid_file(bytes, TEMP_MAGIC) {
            Ok((reference_time, steps)) => Ok(TempForecast { reference_time, steps }),
            Err(e) => Err(e),
        }
    }
}

impl SolarForecast {
    /// The cache file bytes of this run.
    pub fn to_bytes(&self) -> (out: Vec<u8>)
        ensures
            out@ == grid_file_bytes(SOLAR_MAGIC, self.reference_time, grid_views(self.steps@)),
    {
        encode_grid_file(SOLAR_MAGIC, self.reference_time, &self.steps)
    }

    /// Reads a run from the bytes of a cache file.
    pub fn from_bytes(bytes: &[u8]) -> (r: Result<SolarForecast, CacheError>)
        ensures
            match (r, read_grid_file(bytes@, SOLAR_MAGIC)) {
                (Ok(f), Ok((t, views))) => f.reference_time == t && grid_views(f.steps@) == views,
                (Err(e), Err(e2)) => e == e2,
                _ => false,
            },
    {
        match decode_grid_file(bytes, SOLAR_MAGIC) {
            Ok((reference_time, steps)) => Ok(SolarForecast { reference_time, steps }),
            Err(e) => Err(e),
        }
    }
}

impl RainForecast {
    /// The cache file bytes of this run.
    pub fn to_bytes(&self) -> (out: Vec<u8>)
        ensures
            out@ == grid_file_bytes(RAIN_MAGIC, self.reference_time, grid_views(self.steps@)),
    {
        encode_grid_file(RAIN_MAGIC, self.reference_time, &self.steps)
    }

    /// Reads a run from the bytes of a cache file.
    pub fn from_bytes(bytes: &[u8]) -> (r: Result<RainForecast, CacheError>)
        ensures
            match (r, read_grid_file(bytes@, RAIN_MAGIC)) {
                (Ok(f), Ok((t, views))) => f.reference_time == t && grid_views(f.steps@) == views,
                (Err(e), Err(e2)) => e == e2,
                _ => false,
            },
    {
        match decode_grid_file(bytes, RAIN_MAGIC) {
            Ok((reference_time, steps)) => Ok(RainForecast { reference_time, steps }),
            Err(e) => Err(e),
        }
    }
}

impl WindForecast {
    /// The cache file bytes of this run.
    pub fn to_bytes(&self) -> (out: Vec<u8>)
        ensures
            out@ == wind_file_bytes(self.reference_time, wind_views(self.steps@)),
    {
        encode_wind_file(self.reference_time, &self.steps)
    }

    /// Reads a run from the bytes of a cache file.
    pub fn from_bytes(bytes: &[u8]) -> (r: Result<WindForecast, CacheError>)
        ensures
            match (r, read_wind_file(bytes@)) {
                (Ok(f), Ok((t, views))) => f.reference_time == t && wind_views(f.steps@) == views,
                (Err(e), Err(e2)) => e == e2,
                _ => false,
            },
    {
        match decode_wind_file(bytes) {
            Ok((reference_time, steps)) => Ok(WindForecast { reference_time, steps }),
            Err(e) => Err(e),
        }
    }
}

// ---------------------------------------------------------------------------
// Reading back what was written.
// ---------------------------------------------------------------------------

/// A single-grid step of the Harmonie grid size.
pub open spec fn valid_grid_step(s: GridStepView) -> bool {
    s.width == GRIB_WIDTH && s.height == GRIB_HEIGHT && s.values.len() == GRIB_CELL_COUNT
}

/// A wind step of the Harmonie grid size.
pub open spec fn valid_wind_step(s: WindStepView) -> bool {
    &&& s.width == GRIB_WIDTH
    &&& s.height == GRIB_HEIGHT
    &&& s.u_values.len() == GRIB_CELL_COUNT
    &&& s.v_values.len() == GRIB_CELL_COUNT
}

proof fn lemma_u16s_bytes(v: Seq<u16>)
    ensures
        u16s_bytes(v).len() == 2 * v.len(),
        forall|j: int|
            0 <= j < v.len() ==> u16s_bytes(v)[2 * j] == (#[trigger] v[j] % 256) as u8 && u16s_bytes(
                v,
            )[2 * j + 1] == (v[j] / 256) as u8,
    decreases v.len(),
{
    if v.len() > 0 {
        let p = v.drop_last();
        lemma_u16s_bytes(p);
        assert forall|j: int| 0 <= j < v.len() implies u16s_bytes(v)[2 * j] == (#[trigger] v[j]
            % 256) as u8 && u16s_bytes(v)[2 * j + 1] == (v[j] / 256) as u8 by {
            if j < p.len() {
                assert(p[j] == v[j]);
            }
        }
    }
}

/// The `u16` grid stored at `b[pos..]` is `v` when `b` holds the bytes of `v` there.
proof fn lemma_values_at(b: Seq<u8>, pos: int, v: Seq<u16>)
    requires
        0 <= pos,
        v.len() == GRIB_CELL_COUNT,
        pos + 2 * v.len() <= b.len(),
        b.subrange(pos, pos + 2 * v.len()) == u16s_bytes(v),
    ensures
        values_at(b, pos) == v,
{
    lemma_u16s_bytes(v);
    assert forall|j: int| 0 <= j < v.len() implies #[trigger] values_at(b, pos)[j] == v[j] by {
        assert(b[pos + 2 * j] == b.subrange(pos, pos + 2 * v.len())[2 * j]);
        assert(b[pos + 2 * j + 1] == b.subrange(pos, pos + 2 * v.len())[2 * j + 1]);
        assert(u16s_bytes(v)[2 * j] == (v[j] % 256) as u8);
    }
    assert(values_at(b, pos) =~= v);
}

proof fn lemma_grid_step_read(b: Seq<u8>, pos: int, st: GridStepView)
    requires
        0 <= pos,
        pos + grid_step_size() <= b.len(),
        valid_grid_step(st),
        b.subrange(pos, pos + grid_step_size()) == grid_step_bytes(st),
    ensures
        grid_step_fault(b, pos).is_none(),
        grid_step_at(b, pos) == st,
{
    let c = b.subrange(pos, pos + grid_step_size());
    lemma_u16s_bytes(st.values);
    let h1 = le32(i32_bits(st.forecast_hour));
    let h2 = le32(st.width as u32);
    let h3 = le32(st.height as u32);
    assert(c.subrange(0, 12) =~= h1 + h2 + h3);
    assert((h1 + h2 + h3).subrange(0, 4) =~= h1);
    assert((h1 + h2 + h3).subrange(4, 8) =~= h2);
    assert((h1 + h2 + h3).subrange(8, 12) =~= h3);
    assert(b.subrange(pos, pos + 4) =~= c.subrange(0, 12).subrange(0, 4));
    assert(b.subrange(pos + 4, pos + 8) =~= c.subrange(0, 12).subrange(4, 8));
    assert(b.subrange(pos + 8, pos + 12) =~= c.subrange(0, 12).subrange(8, 12));
    lemma_u32_at(b, pos, i32_bits(st.forecast_hour));
    lemma_u32_at(b, pos + 4, st.width as u32);
    lemma_u32_at(b, pos + 8, st.height as u32);
    lemma_i32_bits(st.forecast_hour);
    assert(c.subrange(12, grid_step_size()) =~= u16s_bytes(st.values));
    assert(b.subrange(pos + 12, pos + 12 + 2 * st.values.len()) =~= c.subrange(12, grid_step_size()));
    lemma_values_at(b, pos + 12, st.values);
    assert(grid_step_at(b, pos) =~= st);
}

proof fn lemma_grid_steps_layout(s: Seq<GridStepView>)
    requires
        forall|i: int| 0 <= i < s.len() ==> valid_grid_step(#[trigger] s[i]),
    ensures
        grid_steps_bytes(s).len() == s.len() * grid_step_size(),
        forall|i: int|
            0 <= i < s.len() ==> grid_steps_bytes(s).subrange(
                i * grid_step_size(),
                i * grid_step_size() + grid_step_size(),
            ) == grid_step_bytes(#[trigger] s[i]),
    decreases s.len(),
{
    if s.len() > 0 {
        let p = s.drop_last();
        assert forall|i: int| 0 <= i < p.len() implies valid_grid_step(#[trigger] p[i]) by {
            assert(p[i] == s[i]);
        }
        lemma_grid_steps_layout(p);
        lemma_u16s_bytes(s.last().values);
        let a = grid_steps_bytes(p);
        let z = grid_step_bytes(s.last());
        assert(valid_grid_step(s[s.len() - 1]));
        assert(z.len() == grid_step_size());
        assert(p.len() * grid_step_size() + grid_step_size() == s.len() * grid_step_size())
            by (nonlinear_arith)
            requires
                s.len() == p.len() + 1,
        ;
        assert forall|i: int| 0 <= i < s.len() implies grid_steps_bytes(s).subrange(
            i * grid_step_size(),
            i * grid_step_size() + grid_step_size(),
        ) == grid_step_bytes(#[trigger] s[i]) by {
            if i < p.len() {
                assert(p[i] == s[i]);
                assert(i * grid_step_size() + grid_step_size() <= p.len() * grid_step_size())
                    by (nonlinear_arith)
                    requires
                        i + 1 <= p.len(),
                ;
                assert(grid_steps_bytes(s).subrange(
                    i * grid_step_size(),
                    i * grid_step_size() + grid_step_size(),
                ) =~= a.subrange(i * grid_step_size(), i * grid_step_size() + grid_step_size()));
            } else {
                assert(grid_steps_bytes(s).subrange(
                    i * grid_step_size(),
                    i * grid_step_size() + grid_step_size(),
                ) =~= z);
            }
        }
    }
}

proof fn lemma_no_grid_fault(b: Seq<u8>, k: int, n: int)
    requires
        forall|i: int| k <= i < n ==> (#[trigger] grid_step_fault(b, 16 + i * grid_step_size())).is_none(),
    ensures
        first_grid_fault(b, k, n).is_none(),
    decreases n - k,
{
    if k < n {
        assert(grid_step_fault(b, 16 + k * grid_step_size()).is_none());
        lemma_no_grid_fault(b, k + 1, n);
    }
}

/// Step `i` of `n` steps of `size` bytes each, stored from `b[16..]`.
proof fn lemma_step_in_file(b: Seq<u8>, g: Seq<u8>, i: int, n: int, size: int)
    requires
        0 <= i < n,
        0 < size,
        g.len() == n * size,
        16 + g.len() <= b.len(),
        b.subrange(16, 16 + g.len() as int) == g,
    ensures
        16 + i * size + size <= b.len(),
        b.subrange(16 + i * size, 16 + i * size + size) == g.subrange(i * size, i * size + size),
{
    assert(i * size + size <= n * size) by (nonlinear_arith)
        requires
            i + 1 <= n,
            0 < size,
    ;
    assert(0 <= i * size) by (nonlinear_arith)
        requires
            0 <= i,
            0 < size,
    ;
    assert forall|k: int| 0 <= k < size implies #[trigger] b.subrange(
        16 + i * size,
        16 + i * size + size,
    )[k] == g.subrange(i * size, i * size + size)[k] by {
        assert(b[16 + i * size + k] == b.subrange(16, 16 + g.len() as int)[i * size + k]);
    }
    assert(b.subrange(16 + i * size, 16 + i * size + size) =~= g.subrange(
        i * size,
        i * size + size,
    ));
}

/// The header written for `n` steps reads back as the magic, the reference
/// time and `n`.
proof fn lemma_header_read(b: Seq<u8>, magic: u32, reference_time: i64, n: int)
    requires
        0 <= n <= MAX_BINARY_CACHE_STEPS,
        16 <= b.len(),
        b.subrange(0, 16) == le32(magic) + le64(i64_bits(reference_time)) + le32(n as u32),
    ensures
        header_fault(b, magic).is_none(),
        i64_at(b, 4) == reference_time,
        u32_at(b, 12) == n,
{
    let h1 = le32(magic);
    let h2 = le64(i64_bits(reference_time));
    let h3 = le32(n as u32);
    assert(h2.len() == 8);
    assert((h1 + h2 + h3).subrange(0, 4) =~= h1);
    assert((h1 + h2 + h3).subrange(4, 12) =~= h2);
    assert((h1 + h2 + h3).subrange(12, 16) =~= h3);
    assert(b.subrange(0, 4) =~= b.subrange(0, 16).subrange(0, 4));
    assert(b.subrange(4, 12) =~= b.subrange(0, 16).subrange(4, 12));
    assert(b.subrange(12, 16) =~= b.subrange(0, 16).subrange(12, 16));
    lemma_u32_at(b, 0, magic);
    lemma_u64_at(b, 4, i64_bits(reference_time));
    lemma_i64_bits(reference_time);
    lemma_u32_at(b, 12, n as u32);
}

/// Reading the bytes written for a single-grid run gives back its reference
/// time and steps, whatever bytes follow them, when the run has at most
/// [`MAX_BINARY_CACHE_STEPS`] steps, each of the Harmonie grid size.
#[verifier::rlimit(30)]
pub proof fn lemma_grid_file_roundtrip(
    magic: u32,
    reference_time: i64,
    steps: Seq<GridStepView>,
    rest: Seq<u8>,
)
    requires
        steps.len() <= MAX_BINARY_CACHE_STEPS,
        forall|i: int| 0 <= i < steps.len() ==> valid_grid_step(#[trigger] steps[i]),
    ensures
        read_grid_file(grid_file_bytes(magic, reference_time, steps) + rest, magic) matches Ok(
            (t, v),
        ) && t == reference_time && v == steps,
{
    let n = steps.len() as int;
    let head = le32(magic) + le64(i64_bits(reference_time)) + le32(n as u32);
    let g = grid_steps_bytes(steps);
    let b = grid_file_bytes(magic, reference_time, steps) + rest;
    lemma_grid_steps_layout(steps);
    assert(b.subrange(0, 16) =~= head);
    lemma_header_read(b, magic, reference_time, n);
    assert(b.subrange(16, 16 + g.len() as int) =~= g);
    assert forall|i: int| 0 <= i < n implies (#[trigger] grid_step_fault(
        b,
        16 + i * grid_step_size(),
    )).is_none() && grid_step_at(b, 16 + i * grid_step_size()) == steps[i] by {
        lemma_step_in_file(b, g, i, n, grid_step_size());
        lemma_grid_step_read(b, 16 + i * grid_step_size(), steps[i]);
    }
    lemma_no_grid_fault(b, 0, n);
    let views = Seq::new(n as nat, |k: int| grid_step_at(b, 16 + k * grid_step_size()));
    assert forall|k: int| 0 <= k < n implies #[trigger] views[k] == steps[k] by {
        assert(grid_step_fault(b, 16 + k * grid_step_size()).is_none());
    }
    assert(views =~= steps);
}

proof fn lemma_wind_step_read(b: Seq<u8>, pos: int, st: WindStepView)
    requires
        0 <= pos,
        pos + wind_step_size() <= b.len(),
        valid_wind_step(st),
        b.subrange(pos, pos + wind_step_size()) == wind_step_bytes(st),
    ensures
        wind_step_fault(b, pos).is_none(),
        wind_step_at(b, pos) == st,
{
    let c = b.subrange(pos, pos + wind_step_size());
    lemma_u16s_bytes(st.u_values);
    lemma_u16s_bytes(st.v_values);
    let h1 = le32(i32_bits(st.forecast_hour));
    let h2 = le32(st.height_level);
    let h3 = le32(st.width as u32);
    let h4 = le32(st.height as u32);
    let hdr = h1 + h2 + h3 + h4;
    let uu = u16s_bytes(st.u_values);
    let vv = u16s_bytes(st.v_values);
    assert(c =~= hdr + uu + vv);
    assert(c.subrange(0, 16) =~= hdr);
    assert(hdr.subrange(0, 4) =~= h1);
    assert(hdr.subrange(4, 8) =~= h2);
    assert(hdr.subrange(8, 12) =~= h3);
    assert(hdr.subrange(12, 16) =~= h4);
    assert(b.subrange(pos, pos + 4) =~= c.subrange(0, 16).subrange(0, 4));
    assert(b.subrange(pos + 4, pos + 8) =~= c.subrange(0, 16).subrange(4, 8));
    assert(b.subrange(pos + 8, pos + 12) =~= c.subrange(0, 16).subrange(8, 12));
    assert(b.subrange(pos + 12, pos + 16) =~= c.subrange(0, 16).subrange(12, 16));
    lemma_u32_at(b, pos, i32_bits(st.forecast_hour));
    lemma_u32_at(b, pos + 4, st.height_level);
    lemma_u32_at(b, pos + 8, st.width as u32);
    lemma_u32_at(b, pos + 12, st.height as u32);
    lemma_i32_bits(st.forecast_hour);
    assert(c.subrange(16, 16 + grid_payload()) =~= uu);
    assert(c.subrange(16 + grid_payload(), wind_step_size()) =~= vv);
    assert(b.subrange(pos + 16, pos + 16 + grid_payload()) =~= c.subrange(16, 16 + grid_payload()));
    assert(b.subrange(pos + 16 + grid_payload(), pos + wind_step_size()) =~= c.subrange(
        16 + grid_payload(),
        wind_step_size(),
    ));
    lemma_values_at(b, pos + 16, st.u_values);
    lemma_values_at(b, pos + 16 + grid_payload(), st.v_values);
    assert(wind_step_at(b, pos) =~= st);
}

proof fn lemma_wind_steps_layout(s: Seq<WindStepView>)
    requires
        forall|i: int| 0 <= i < s.len() ==> valid_wind_step(#[trigger] s[i]),
    ensures
        wind_steps_bytes(s).len() == s.len() * wind_step_size(),
        forall|i: int|
            0 <= i < s.len() ==> wind_steps_bytes(s).subrange(
                i * wind_step_size(),
                i * wind_step_size() + wind_step_size(),
            ) == wind_step_bytes(#[trigger] s[i]),
    decreases s.len(),
{
    if s.len() > 0 {
        let p = s.drop_last();
        assert forall|i: int| 0 <= i < p.len() implies valid_wind_step(#[trigger] p[i]) by {
            assert(p[i] == s[i]);
        }
        lemma_wind_steps_layout(p);
        lemma_u16s_bytes(s.last().u_values);
        lemma_u16s_bytes(s.last().v_values);
        let a = wind_steps_bytes(p);
        let z = wind_step_bytes(s.last());
        assert(valid_wind_step(s[s.len() - 1]));
        assert(z.len() == wind_step_size());
        assert(p.len() * wind_step_size() + wind_step_size() == s.len() * wind_step_size())
            by (nonlinear_arith)
            requires
                s.len() == p.len() + 1,
        ;
        assert forall|i: int| 0 <= i < s.len() implies wind_steps_bytes(s).subrange(
            i * wind_step_size(),
            i * wind_step_size() + wind_step_size(),
        ) == wind_step_bytes(#[trigger] s[i]) by {
            if i < p.len() {
                assert(p[i] == s[i]);
                assert(i * wind_step_size() + wind_step_size() <= p.len() * wind_step_size())
                    by (nonlinear_arith)
                    requires
                        i + 1 <= p.len(),
                ;
                assert(wind_steps_bytes(s).subrange(
                    i * wind_step_size(),
                    i * wind_step_size() + wind_step_size(),
                ) =~= a.subrange(i * wind_step_size(), i * wind_step_size() + wind_step_size()));
            } else {
                assert(wind_steps_bytes(s).subrange(
                    i * wind_step_size(),
                    i * wind_step_size() + wind_step_size(),
                ) =~= z);
            }
        }
    }
}

proof fn lemma_no_wind_fault(b: Seq<u8>, k: int, n: int)
    requires
        forall|i: int| k <= i < n ==> (#[trigger] wind_step_fault(b, 16 + i * wind_step_size())).is_none(),
    ensures
        first_wind_fault(b, k, n).is_none(),
    decreases n - k,
{
    if k < n {
        assert(wind_step_fault(b, 16 + k * wind_step_size()).is_none());
        lemma_no_wind_fault(b, k + 1, n);
    }
}

/// Reading the bytes written for a wind run gives back its reference time
/// and steps, whatever bytes follow them, when the run has at most
/// [`MAX_BINARY_CACHE_STEPS`] steps, each of the Harmonie grid size.
#[verifier::rlimit(30)]
pub proof fn lemma_wind_file_roundtrip(reference_time: i64, steps: Seq<WindStepView>, rest: Seq<u8>)
    requires
        steps.len() <= MAX_BINARY_CACHE_STEPS,
        forall|i: int| 0 <= i < steps.len() ==> valid_wind_step(#[trigger] steps[i]),
    ensures
        read_wind_file(wind_file_bytes(reference_time, steps) + rest) matches Ok((t, v)) && t
            == reference_time && v == steps,
{
    let n = steps.len() as int;
    let head = le32(WIND_MAGIC) + le64(i64_bits(reference_time)) + le32(n as u32);
    let g = wind_steps_bytes(steps);
    let b = wind_file_bytes(reference_time, steps) + rest;
    lemma_wind_steps_layout(steps);
    assert(b.subrange(0, 16) =~= head);
    lemma_header_read(b, WIND_MAGIC, reference_time, n);
    assert(b.subrange(16, 16 + g.len() as int) =~= g);
    assert forall|i: int| 0 <= i < n implies (#[trigger] wind_step_fault(
        b,
        16 + i * wind_step_size(),
    )).is_none() && wind_step_at(b, 16 + i * wind_step_size()) == steps[i] by {
        lemma_step_in_file(b, g, i, n, wind_step_size());
        lemma_wind_step_read(b, 16 + i * wind_step_size(), steps[i]);
    }
    lemma_no_wind_fault(b, 0, n);
    let views = Seq::new(n as nat, |k: int| wind_step_at(b, 16 + k * wind_step_size()));
    assert forall|k: int| 0 <= k < n implies #[trigger] views[k] == steps[k] by {
        assert(wind_step_fault(b, 16 + k * wind_step_size()).is_none());
    }
    assert(views =~= steps);
}

} // verus!
