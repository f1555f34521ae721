//! Resolution of map requests: which radar grid a selector and time ask for,
//! and where the image for a time comes from.

use vstd::prelude::*;
use crate::models::{stat_from_name, EnsembleStat};
use crate::text::{chars_of, parse_i32_at, parse_i32_spec, same_int, str_eq};

verus! {

/// The first index at which `s` holds `x` (`None` when it does not).
pub open spec fn first_index_of<T>(s: Seq<T>, x: T) -> Option<int>
    decreases s.len(),
{
    if s.len() == 0 {
        None
    } else {
        match first_index_of(s.drop_last(), x) {
            Some(i) => Some(i),
            None => if s.last() == x {
                Some(s.len() - 1)
            } else {
                None
            },
        }
    }
}

/// The box of cells at most `radius` columns and rows away from `(ix, iy)`,
/// clipped to a `grid_w` by `grid_h` grid: its first column, first row,
/// width and height.
pub fn neighbourhood_box(ix: usize, iy: usize, radius: usize, grid_w: usize, grid_h: usize) -> (r: (
    usize,
    usize,
    usize,
    usize,
))
    requires
        ix < grid_w,
        iy < grid_h,
    ensures
        r.0 == if ix >= radius { ix - radius } else { 0 },
        r.1 == if iy >= radius { iy - radius } else { 0 },
        r.0 + r.2 - 1 == if ix + radius <= grid_w - 1 { ix + radius } else { grid_w - 1 },
        r.1 + r.3 - 1 == if iy + radius <= grid_h - 1 { iy + radius } else { grid_h - 1 },
        r.0 <= ix < r.0 + r.2 <= grid_w,
        r.1 <= iy < r.1 + r.3 <= grid_h,
{
    let x_min = if ix >= radius { ix - radius } else { 0 };
    let y_min = if iy >= radius { iy - radius } else { 0 };
    let x_max = if radius <= grid_w - 1 - ix { ix + radius } else { grid_w - 1 };
    let y_max = if radius <= grid_h - 1 - iy { iy + radius } else { grid_h - 1 };
    (x_min, y_min, x_max - x_min + 1, y_max - y_min + 1)
}

/// The first index at which `times` holds `t`.
pub fn time_index(times: &[i64], t: i64) -> (r: Option<usize>)
    ensures
        match r {
            Some(i) => first_index_of(times@, t) == Some(i as int),
            None => first_index_of(times@, t) is None,
        },
{
    let mut i: usize = 0;
    while i < times.len()
        invariant
            i <= times@.len(),
            first_index_of(times@.take(i as int), t) is None,
        decreases times@.len() - i,
    {
        proof {
            assert(times@.take(i + 1).drop_last() =~= times@.take(i as int));
        }
        if times[i] == t {
            proof {
                lemma_first_index_prefix(times@, i as int + 1, t);
            }
            return Some(i);
        }
        i += 1;
    }
    assert(times@.take(i as int) =~= times@);
    None
}

/// The first index at which `ensembles` holds `e`.
pub fn ensemble_index(ensembles: &[i32], e: i32) -> (r: Option<usize>)
    ensures
        match r {
            Some(i) => first_index_of(ensembles@, e) == Some(i as int),
            None => first_index_of(ensembles@, e) is None,
        },
{
    let mut i: usize = 0;
    while i < ensembles.len()
        invariant
            i <= ensembles@.len(),
            first_index_of(ensembles@.take(i as int), e) is None,
        decreases ensembles@.len() - i,
    {
        proof {
            assert(ensembles@.take(i + 1).drop_last() =~= ensembles@.take(i as int));
        }
        if ensembles[i] == e {
            proof {
                lemma_first_index_prefix(ensembles@, i as int + 1, e);
            }
            return Some(i);
        }
        i += 1;
    }
    assert(ensembles@.take(i as int) =~= ensembles@);
    None
}

/// A match found in a prefix is the first match of the whole sequence.
proof fn lemma_first_index_prefix<T>(s: Seq<T>, k: int, x: T)
    requires
        0 < k <= s.len(),
        first_index_of(s.take(k), x) is Some,
    ensures
        first_index_of(s, x) == first_index_of(s.take(k), x),
    decreases s.len() - k,
{
    if k < s.len() {
        assert(s.take(k + 1).drop_last() =~= s.take(k));
        lemma_first_index_prefix(s, k + 1, x);
    } else {
        assert(s.take(k) =~= s);
    }
}

/// The radar grid a request asks for.
#[derive(Debug, Clone, Copy, PartialEq, Eq, Structural)]
pub enum SliceRequest {
    /// An ensemble statistic at the time with this index.
    Statistic(EnsembleStat, usize),
    /// The ensemble member with this index at the time with this index.
    Member(usize, usize),
}

/// Why a request names no radar grid.
#[derive(Debug, Clone, Copy, PartialEq, Eq, Structural)]
pub enum SliceError {
    /// The time is not on the radar time axis.
    InvalidTime(i64),
    /// The selector is neither a statistic nor an integer.
    InvalidEnsembleParameter,
    /// No member has this number.
    InvalidEnsembleNumber(i32),
}

/// What a selector and a time resolve to: a statistic by name (`"med"`,
/// `"max"`, `"prob"`, `"spread"`, `"pmm"`) at the time's index, or else a
/// member by its number at the time's index; the first failing check gives
/// the error.
pub open spec fn slice_request_of(ensembles: Seq<i32>, times: Seq<i64>, selector: Seq<char>, time: i64) -> Result<
    SliceRequest,
    SliceError,
> {
    match stat_from_name(selector) {
        Some(stat) => match first_index_of(times, time) {
            Some(ti) => Ok(SliceRequest::Statistic(stat, ti as usize)),
            None => Err(SliceError::InvalidTime(time)),
        },
        None => match parse_i32_spec(selector) {
            None => Err(SliceError::InvalidEnsembleParameter),
            Some(num) => match first_index_of(ensembles, num as i32) {
                None => Err(SliceError::InvalidEnsembleNumber(num as i32)),
                Some(ei) => match first_index_of(times, time) {
                    Some(ti) => Ok(SliceRequest::Member(ei as usize, ti as usize)),
                    None => Err(SliceError::InvalidTime(time)),
                },
            },
        },
    }
}

/// Resolves a selector and a time against the ensemble numbers and the time
/// axis of the radar dataset (see [`slice_request_of`]).
pub fn resolve_slice_request(ensembles: &[i32], times: &[i64], selector: &str, time: i64) -> (r: Result<
    SliceRequest,
    SliceError,
>)
    ensures
        r == slice_request_of(ensembles@, times@, selector@, time),
{
    match EnsembleStat::from_str(selector) {
        Some(stat) => match time_index(times, time) {
            Some(ti) => Ok(SliceRequest::Statistic(stat, ti)),
            None => Err(SliceError::InvalidTime(time)),
        },
        None => {
            let v = chars_of(selector);
            let parsed = parse_i32_at(&v, 0, v.len());
            proof {
                assert(v@.subrange(0, v@.len() as int) =~= selector@);
            }
            match parsed {
                None => Err(SliceError::InvalidEnsembleParameter),
                Some(num) => match ensemble_index(ensembles, num) {
                    None => Err(SliceError::InvalidEnsembleNumber(num)),
                    Some(ei) => match time_index(times, time) {
                        Some(ti) => Ok(SliceRequest::Member(ei, ti)),
                        None => Err(SliceError::InvalidTime(time)),
                    },
                },
            }
        },
    }
}

/// The index of the member that a selector names by its number: the
/// member part of [`slice_request_of`], for requests that span all times.
pub open spec fn member_of(ensembles: Seq<i32>, selector: Seq<char>) -> Result<usize, SliceError> {
    match parse_i32_spec(selector) {
        None => Err(SliceError::InvalidEnsembleParameter),
        Some(num) => match first_index_of(ensembles, num as i32) {
            None => Err(SliceError::InvalidEnsembleNumber(num as i32)),
            Some(ei) => Ok(ei as usize),
        },
    }
}

/// Resolves a member selector against the ensemble numbers (see
/// [`member_of`]).
pub fn resolve_member(ensembles: &[i32], selector: &str) -> (r: Result<usize, SliceError>)
    ensures
        r == member_of(ensembles@, selector@),
{
    let v = chars_of(selector);
    let parsed = parse_i32_at(&v, 0, v.len());
    proof {
        assert(v@.subrange(0, v@.len() as int) =~= selector@);
    }
    match parsed {
        None => Err(SliceError::InvalidEnsembleParameter),
        Some(num) => match ensemble_index(ensembles, num) {
            None => Err(SliceError::InvalidEnsembleNumber(num)),
            Some(ei) => Ok(ei),
        },
    }
}

/// `i` is the first position of `x` in `s`.
pub open spec fn first_position(s: Seq<i64>, x: i64, i: int) -> bool {
    0 <= i < s.len() && s[i] == x && forall|j: int| 0 <= j < i ==> s[j] != x
}

/// `i` is the first position of member number `x` in `s`.
pub open spec fn first_member_position(s: Seq<i32>, x: int, i: int) -> bool {
    0 <= i < s.len() && s[i] == x && forall|j: int| 0 <= j < i ==> s[j] != x
}

/// [`first_index_of`] finds the first position of `x`, and none when `x`
/// does not occur.
pub proof fn lemma_first_index_of<T>(s: Seq<T>, x: T)
    ensures
        match first_index_of(s, x) {
            Some(i) => 0 <= i < s.len() && s[i] == x && forall|j: int| 0 <= j < i ==> s[j] != x,
            None => forall|j: int| 0 <= j < s.len() ==> s[j] != x,
        },
    decreases s.len(),
{
    if s.len() > 0 {
        lemma_first_index_of(s.drop_last(), x);
        match first_index_of(s.drop_last(), x) {
            Some(i) => {
                assert(s[i] == s.drop_last()[i]);
                assert forall|j: int| 0 <= j < i implies s[j] != x by {
                    assert(s[j] == s.drop_last()[j]);
                }
            },
            None => {
                assert forall|j: int| 0 <= j < s.len() - 1 implies s[j] != x by {
                    assert(s[j] == s.drop_last()[j]);
                }
            },
        }
    }
}

/// A resolved member index is the first position of the member whose number
/// the selector is; a selector that is not a number, or a number that no
/// member has, is refused with the matching error.
pub proof fn lemma_member_resolution(ensembles: Seq<i32>, selector: Seq<char>)
    requires
        ensembles.len() <= usize::MAX,
    ensures
        member_of(ensembles, selector) matches Ok(i) ==> (parse_i32_spec(selector) matches Some(
            num,
        ) && first_member_position(ensembles, num, i as int)),
        parse_i32_spec(selector) is None ==> member_of(ensembles, selector) == Err::<
            usize,
            SliceError,
        >(SliceError::InvalidEnsembleParameter),
        parse_i32_spec(selector) matches Some(num) ==> ((exists|j: int|
            0 <= j < ensembles.len() && ensembles[j] == num) <==> member_of(ensembles, selector) is Ok),
        parse_i32_spec(selector) matches Some(num) ==> ((forall|j: int|
            0 <= j < ensembles.len() ==> ensembles[j] != num) ==> member_of(ensembles, selector)
            == Err::<usize, SliceError>(SliceError::InvalidEnsembleNumber(num as i32))),
{
    match parse_i32_spec(selector) {
        None => {},
        Some(num) => {
            lemma_first_index_of(ensembles, num as i32);
            match first_index_of(ensembles, num as i32) {
                Some(i) => {},
                None => {
                    assert forall|j: int| 0 <= j < ensembles.len() implies ensembles[j] != num by {
                        assert(ensembles[j] != num as i32);
                    }
                },
            }
        },
    }
}

/// A request resolves as the original reads it: a statistic selector gives
/// that statistic at the first position of the time, a member number gives
/// the first position of that member and of the time, and a time that is
/// not on the axis, a selector that is neither, or a number that no member
/// has is refused with the matching error.
pub proof fn lemma_slice_resolution(ensembles: Seq<i32>, times: Seq<i64>, selector: Seq<char>, time: i64, i: int, e: int)
    requires
        ensembles.len() <= usize::MAX,
        times.len() <= usize::MAX,
    ensures
        stat_from_name(selector) matches Some(stat) ==> (first_position(times, time, i)
            ==> slice_request_of(ensembles, times, selector, time) == Ok::<SliceRequest, SliceError>(
            SliceRequest::Statistic(stat, i as usize))),
        slice_request_of(ensembles, times, selector, time) matches Ok(SliceRequest::Statistic(st, ti))
            ==> stat_from_name(selector) == Some(st) && first_position(times, time, ti as int),
        slice_request_of(ensembles, times, selector, time) matches Ok(SliceRequest::Member(e, ti))
            ==> (stat_from_name(selector) is None && first_position(times, time, ti as int) && (
            parse_i32_spec(selector) matches Some(num) && first_member_position(ensembles, num, e as int))),
        parse_i32_spec(selector) matches Some(num) ==> (stat_from_name(selector) is None
            && first_member_position(ensembles, num, e) && first_position(times, time, i) ==> slice_request_of(
            ensembles, times, selector, time) == Ok::<SliceRequest, SliceError>(
            SliceRequest::Member(e as usize, i as usize))),
        (forall|j: int| 0 <= j < times.len() ==> times[j] != time) ==> !(slice_request_of(ensembles, times,
            selector, time) is Ok),
        (forall|j: int| 0 <= j < times.len() ==> times[j] != time) && stat_from_name(selector) is Some
            ==> slice_request_of(ensembles, times, selector, time) == Err::<SliceRequest, SliceError>(
            SliceError::InvalidTime(time)),
        parse_i32_spec(selector) matches Some(num) ==> (stat_from_name(selector) is None && (exists|j: int|
            0 <= j < ensembles.len() && ensembles[j] == num) && (forall|j: int| 0 <= j < times.len()
            ==> times[j] != time) ==> slice_request_of(ensembles, times, selector, time) == Err::<
            SliceRequest,
            SliceError,
        >(SliceError::InvalidTime(time))),
        stat_from_name(selector) is None && parse_i32_spec(selector) is None ==> slice_request_of(
            ensembles, times, selector, time) == Err::<SliceRequest, SliceError>(
            SliceError::InvalidEnsembleParameter),
        parse_i32_spec(selector) matches Some(num) ==> (stat_from_name(selector) is None && (forall|j: int|
            0 <= j < ensembles.len() ==> ensembles[j] != num) ==> slice_request_of(ensembles, times, selector,
            time) == Err::<SliceRequest, SliceError>(SliceError::InvalidEnsembleNumber(num as i32))),
{
    lemma_first_index_of(times, time);
    if first_position(times, time, i) {
        match first_index_of(times, time) {
            Some(k) => {
                if k < i {
                    assert(times[k] == time);
                }
                if i < k {
                    assert(times[i] == time);
                }
            },
            None => {
                assert(times[i] == time);
            },
        }
    }
    if stat_from_name(selector) is None {
        lemma_member_resolution(ensembles, selector);
        match parse_i32_spec(selector) {
            Some(num) => {
                lemma_first_index_of(ensembles, num as i32);
                if first_member_position(ensembles, num, e) {
                    match first_index_of(ensembles, num as i32) {
                        Some(k) => {
                            if k < e {
                                assert(ensembles[k] == num);
                            }
                            if e < k {
                                assert(ensembles[e] == num);
                            }
                        },
                        None => {
                            assert(ensembles[e] == num);
                        },
                    }
                }
                if forall|j: int| 0 <= j < ensembles.len() ==> ensembles[j] != num {
                    match first_index_of(ensembles, num as i32) {
                        Some(k) => {
                            assert(ensembles[k] != num);
                        },
                        None => {},
                    }
                }
            },
            None => {},
        }
    }
}

/// Where the overlay image for a time comes from.
#[derive(Debug, Clone, Copy, PartialEq, Eq, Structural)]
pub enum ImageSource {
    /// The radar dataset covers the time.
    Radar,
    /// Beyond the radar forecast, for any selector but `"pmm"`: an empty image.
    Blank,
    /// Beyond the radar forecast, for `"pmm"`: the nearest Harmonie rain step.
    HarmonieRain,
}

/// Where the overlay image for `time` and `selector` comes from.
pub fn image_source(times: &[i64], selector: &str, time: i64) -> (r: ImageSource)
    ensures
        times@.contains(time) ==> r == ImageSource::Radar,
        !times@.contains(time) && selector@ != "pmm"@ ==> r == ImageSource::Blank,
        !times@.contains(time) && selector@ == "pmm"@ ==> r == ImageSource::HarmonieRain,
{
    let mut i: usize = 0;
    while i < times.len()
        invariant
            i <= times@.len(),
            forall|j: int| 0 <= j < i ==> times@[j] != time,
        decreases times@.len() - i,
    {
        if times[i] == time {
            return ImageSource::Radar;
        }
        i += 1;
    }
    if str_eq(selector, "pmm") {
        ImageSource::HarmonieRain
    } else {
        ImageSource::Blank
    }
}

} // verus!
