//! Time axes: the offsets (seconds after a reference time) at which forecast
//! steps and radar frames are valid, and the choice of the step that serves a
//! requested time.

use vstd::prelude::*;
use crate::forecast::{ForecastStep, RainForecast, RainStep, WindStep};
use crate::names::{parse_reference_time, reference_time_spec};
use crate::calendar::utc_text;
use chrono::TimeZone;
use vstd::string::StringExecFns;

verus! {

/// Offset in seconds of a step from its run's reference time.
pub open spec fn step_offset<S: ForecastStep>(s: S) -> int {
    s.hour_of() as int * 3600
}

/// The offsets of the steps for which the outcome is `Some`, in step order.
pub open spec fn series_times<S: ForecastStep, T>(steps: Seq<S>, outs: Seq<Option<T>>) -> Seq<i64>
    decreases steps.len(),
{
    if steps.len() == 0 || outs.len() == 0 {
        Seq::empty()
    } else {
        let rest = series_times(steps.drop_last(), outs.drop_last());
        if outs.last() is Some {
            rest.push(step_offset(steps.last()) as i64)
        } else {
            rest
        }
    }
}

/// The values of the outcomes that are `Some`, in order.
pub open spec fn series_values<T>(outs: Seq<Option<T>>) -> Seq<T>
    decreases outs.len(),
{
    if outs.len() == 0 {
        Seq::empty()
    } else {
        let rest = series_values(outs.drop_last());
        match outs.last() {
            Some(v) => rest.push(v),
            None => rest,
        }
    }
}

/// Applies `map_fn` to every step and keeps, in step order, the offset of
/// each step for which it gives a value, together with that value.
pub fn extract_timeseries<S: ForecastStep, T, F: Fn(&S) -> Option<T>>(steps: &[S], map_fn: F) -> (r: (
    Vec<i64>,
    Vec<T>,
))
    requires
        forall|j: int| 0 <= j < steps@.len() ==> call_requires(map_fn, (&#[trigger] steps@[j],)),
    ensures
        exists|outs: Seq<Option<T>>|
            {
                &&& outs.len() == steps@.len()
                &&& forall|j: int|
                    0 <= j < steps@.len() ==> call_ensures(map_fn, (&#[trigger] steps@[j],), outs[j])
                &&& r.0@ == series_times(steps@, outs)
                &&& r.1@ == #[trigger] series_values(outs)
            },
        r.0@.len() == r.1@.len(),
        r.1@.len() <= steps@.len(),
{
    let mut times: Vec<i64> = Vec::new();
    let mut values: Vec<T> = Vec::new();
    let ghost mut outs: Seq<Option<T>> = Seq::empty();
    let mut k: usize = 0;
    while k < steps.len()
        invariant
            k <= steps@.len(),
            outs.len() == k,
            forall|j: int| 0 <= j < steps@.len() ==> call_requires(map_fn, (&#[trigger] steps@[j],)),
            forall|j: int| 0 <= j < k ==> call_ensures(map_fn, (&#[trigger] steps@[j],), outs[j]),
            times@ == series_times(steps@.take(k as int), outs),
            values@ == series_values(outs),
            times@.len() == values@.len(),
            values@.len() <= k,
        decreases steps@.len() - k,
    {
        let step = &steps[k];
        let out = map_fn(step);
        let h = step.forecast_hour();
        proof {
            assert(steps@.take(k + 1).drop_last() =~= steps@.take(k as int));
            assert(outs.push(out).drop_last() =~= outs);
        }
        match out {
            Some(v) => {
                let ghost o = out;
                proof {
                    outs = outs.push(o);
                }
                times.push((h as i64) * 3600);
                values.push(v);
            },
            None => {
                proof {
                    outs = outs.push(None);
                }
            },
        }
        k += 1;
    }
    assert(steps@.take(k as int) =~= steps@);
    (times, values)
}

/// Strictly increasing order.
pub open spec fn strictly_increasing(s: Seq<i64>) -> bool {
    forall|i: int, j: int| 0 <= i < j < s.len() ==> s[i] < s[j]
}

/// Puts `x` in its place in a strictly increasing sequence, unless present.
fn insert_sorted_unique(v: &mut Vec<i64>, x: i64)
    requires
        strictly_increasing(old(v)@),
    ensures
        strictly_increasing(final(v)@),
        final(v)@.to_set() == old(v)@.to_set().insert(x),
{
    let ghost s = v@;
    let mut p: usize = 0;
    while p < v.len() && v[p] < x
        invariant
            v@ == s,
            strictly_increasing(s),
            p <= s.len(),
            forall|j: int| 0 <= j < p ==> s[j] < x,
        decreases s.len() - p,
    {
        p += 1;
    }
    if p < v.len() && v[p] == x {
        assert(s.to_set() =~= s.to_set().insert(x)) by {
            assert(s.to_set().contains(s[p as int]));
        }
        return;
    }
    v.insert(p, x);
    proof {
        let r = v@;
        assert(r == s.insert(p as int, x));
        assert forall|i: int, j: int| 0 <= i < j < r.len() implies r[i] < r[j] by {
            if i < p && j > p {
                assert(r[j] == s[j - 1]);
                if j - 1 > p {
                    assert(s[p as int] < s[j - 1]);
                }
            } else if i > p {
                assert(r[i] == s[i - 1]);
                assert(r[j] == s[j - 1]);
            } else if i == p {
                assert(r[j] == s[j - 1]);
                if j - 1 > p {
                    assert(s[p as int] < s[j - 1]);
                }
            }
        }
        assert forall|y: i64| r.to_set().contains(y) <==> s.to_set().insert(x).contains(y) by {
            if r.to_set().contains(y) {
                let i = choose|i: int| 0 <= i < r.len() && r[i] == y;
                if i < p {
                    assert(s[i] == y);
                } else if i > p {
                    assert(s[i - 1] == y);
                }
            }
            if s.to_set().contains(y) {
                let i = choose|i: int| 0 <= i < s.len() && s[i] == y;
                if i < p {
                    assert(r[i] == y);
                } else {
                    assert(r[i + 1] == y);
                }
            }
            if y == x {
                assert(r[p as int] == x);
            }
        }
        assert(r.to_set() =~= s.to_set().insert(x));
    }
}

/// The offsets of the steps of `steps` in increasing order, without repeats.
pub open spec fn step_offsets<S: ForecastStep>(steps: Seq<S>) -> Set<i64> {
    Set::new(|t: i64| exists|j: int| 0 <= j < steps.len() && t == step_offset(#[trigger] steps[j]))
}

/// The offsets of the forecast steps, sorted, each once.
pub fn forecast_times<S: ForecastStep>(steps: &[S]) -> (times: Vec<i64>)
    ensures
        strictly_increasing(times@),
        times@.to_set() == step_offsets(steps@),
{
    let mut times: Vec<i64> = Vec::new();
    let mut k: usize = 0;
    while k < steps.len()
        invariant
            k <= steps@.len(),
            strictly_increasing(times@),
            times@.to_set() == step_offsets(steps@.take(k as int)),
        decreases steps@.len() - k,
    {
        let h = steps[k].forecast_hour();
        let t = (h as i64) * 3600;
        insert_sorted_unique(&mut times, t);
        proof {
            let a = steps@.take(k as int);
            let b = steps@.take(k + 1);
            assert forall|y: i64| step_offsets(b).contains(y) <==> step_offsets(a).insert(t).contains(y) by {
                if step_offsets(b).contains(y) {
                    let j = choose|j: int| 0 <= j < b.len() && y == step_offset(#[trigger] b[j]);
                    if j < k {
                        assert(a[j] == b[j]);
                    }
                }
                if step_offsets(a).contains(y) {
                    let j = choose|j: int| 0 <= j < a.len() && y == step_offset(#[trigger] a[j]);
                    assert(b[j] == a[j]);
                }
                if y == t {
                    assert(b[k as int] == steps@[k as int]);
                    assert(y == step_offset(b[k as int]));
                }
            }
            assert(step_offsets(b) =~= step_offsets(a).insert(t));
        }
        k += 1;
    }
    assert(steps@.take(k as int) =~= steps@);
    times
}

/// The last radar time of a time axis (0 when it is empty).
pub open spec fn last_time(base: Seq<i64>) -> int {
    if base.len() == 0 {
        0
    } else {
        base.last() as int
    }
}

/// The offset of a rain step from the radar reference time `radar_ref`.
pub open spec fn rain_offset(reference_time: i64, s: RainStep, radar_ref: int) -> int {
    reference_time + step_offset(s) - radar_ref
}

/// The offsets from `radar_ref` of the rain steps that come after `last`.
pub open spec fn rain_offsets_after(rain: RainForecast, radar_ref: int, last: int) -> Set<i64> {
    Set::new(
        |t: i64|
            exists|j: int|
                0 <= j < rain.steps@.len() && t == rain_offset(rain.reference_time, #[trigger] rain.steps@[j], radar_ref)
                    && t > last,
    )
}

/// The rain step offsets from `radar_ref` stay within `i64`, as do the
/// absolute step times they are computed from.
pub open spec fn rain_offsets_fit(rain: RainForecast, radar_ref: int) -> bool {
    forall|j: int|
        0 <= j < rain.steps@.len() ==> {
            &&& i64::MIN <= rain.reference_time + step_offset(#[trigger] rain.steps@[j]) <= i64::MAX
            &&& i64::MIN <= rain_offset(rain.reference_time, rain.steps@[j], radar_ref) <= i64::MAX
        }
}

/// The radar time axis extended with the Harmonie rain steps that come after
/// the last radar time, as offsets from the radar reference time: sorted and
/// without repeats. When the reference time string does not parse, the axis
/// is returned as it is.
pub fn compute_extended_times(base_times: &[i64], rain_fc: &RainForecast, reference_time_str: &str) -> (r: Vec<i64>)
    requires
        reference_time_spec(reference_time_str@) matches Some(t) ==> rain_offsets_fit(*rain_fc, t),
    ensures
        match reference_time_spec(reference_time_str@) {
            None => r@ == base_times@,
            Some(t) => {
                &&& strictly_increasing(r@)
                &&& r@.to_set() == base_times@.to_set() + rain_offsets_after(
                    *rain_fc,
                    t,
                    last_time(base_times@),
                )
            },
        },
{
    let radar_ref = match parse_reference_time(reference_time_str) {
        Some(t) => t,
        None => {
            let mut copy: Vec<i64> = Vec::new();
            let mut i: usize = 0;
            while i < base_times.len()
                invariant
                    i <= base_times@.len(),
                    copy@ == base_times@.take(i as int),
                decreases base_times@.len() - i,
            {
                copy.push(base_times[i]);
                i += 1;
                assert(copy@ =~= base_times@.take(i as int));
            }
            assert(base_times@.take(i as int) =~= base_times@);
            return copy;
        },
    };
    let ghost t = radar_ref as int;
    let last: i64 = if base_times.len() > 0 {
        base_times[base_times.len() - 1]
    } else {
        0
    };
    let mut out: Vec<i64> = Vec::new();
    let mut i: usize = 0;
    while i < base_times.len()
        invariant
            i <= base_times@.len(),
            strictly_increasing(out@),
            out@.to_set() == base_times@.take(i as int).to_set(),
        decreases base_times@.len() - i,
    {
        insert_sorted_unique(&mut out, base_times[i]);
        proof {
            assert(base_times@.take(i + 1) =~= base_times@.take(i as int).push(base_times@[i as int]));
            base_times@.take(i as int).lemma_push_to_set_commute(base_times@[i as int]);
        }
        i += 1;
    }
    assert(base_times@.take(i as int) =~= base_times@);
    let ghost base_set = base_times@.to_set();
    let mut k: usize = 0;
    while k < rain_fc.steps.len()
        invariant
            t == radar_ref,
            rain_offsets_fit(*rain_fc, t),
            last == last_time(base_times@),
            k <= rain_fc.steps@.len(),
            strictly_increasing(out@),
            out@.to_set() == base_set + Set::new(
                |o: i64|
                    exists|j: int|
                        0 <= j < k && o == rain_offset(rain_fc.reference_time, #[trigger] rain_fc.steps@[j], t)
                            && o > last,
            ),
        decreases rain_fc.steps@.len() - k,
    {
        let step = &rain_fc.steps[k];
        assert(i64::MIN <= rain_fc.reference_time + step_offset(rain_fc.steps@[k as int]) <= i64::MAX);
        let absolute_time = rain_fc.reference_time + (step.forecast_hour as i64) * 3600;
        let relative_offset = absolute_time - radar_ref;
        let ghost before = out@.to_set();
        if relative_offset > last {
            insert_sorted_unique(&mut out, relative_offset);
        }
        proof {
            let prev = Set::new(
                |o: i64|
                    exists|j: int|
                        0 <= j < k && o == rain_offset(rain_fc.reference_time, #[trigger] rain_fc.steps@[j], t)
                            && o > last,
            );
            let next = Set::new(
                |o: i64|
                    exists|j: int|
                        0 <= j < k + 1 && o == rain_offset(rain_fc.reference_time, #[trigger] rain_fc.steps@[j], t)
                            && o > last,
            );
            assert(relative_offset == rain_offset(rain_fc.reference_time, rain_fc.steps@[k as int], t));
            if relative_offset > last {
                assert(next =~= prev.insert(relative_offset));
                assert(out@.to_set() =~= base_set + next);
            } else {
                assert(next =~= prev);
            }
        }
        k += 1;
    }
    proof {
        assert(Set::new(
            |o: i64|
                exists|j: int|
                    0 <= j < k && o == rain_offset(rain_fc.reference_time, #[trigger] rain_fc.steps@[j], t)
                        && o > last,
        ) =~= rain_offsets_after(*rain_fc, t, last_time(base_times@)));
    }
    out
}

/// The offsets from `radar_ref` of the rain steps that come after `last`,
/// each with the index of its step, in step order.
pub open spec fn rain_steps_after(steps: Seq<RainStep>, reference_time: i64, radar_ref: int, last: int) -> Seq<(i64, usize)>
    decreases steps.len(),
{
    if steps.len() == 0 {
        Seq::empty()
    } else {
        let rest = rain_steps_after(steps.drop_last(), reference_time, radar_ref, last);
        let o = rain_offset(reference_time, steps.last(), radar_ref);
        if o > last {
            rest.push((o as i64, (steps.len() - 1) as usize))
        } else {
            rest
        }
    }
}

/// The rain steps to render beyond the radar forecast: each step whose
/// offset from the radar reference time comes after the last radar time,
/// with that offset, in step order.
pub fn rain_step_offsets(rain_fc: &RainForecast, radar_ref_time: i64, last_radar_time: i64) -> (r: Vec<(i64, usize)>)
    requires
        rain_offsets_fit(*rain_fc, radar_ref_time as int),
    ensures
        r@ == rain_steps_after(rain_fc.steps@, rain_fc.reference_time, radar_ref_time as int, last_radar_time as int),
{
    let mut out: Vec<(i64, usize)> = Vec::new();
    let mut k: usize = 0;
    while k < rain_fc.steps.len()
        invariant
            rain_offsets_fit(*rain_fc, radar_ref_time as int),
            k <= rain_fc.steps@.len(),
            out@ == rain_steps_after(rain_fc.steps@.take(k as int), rain_fc.reference_time, radar_ref_time as int, last_radar_time as int),
        decreases rain_fc.steps@.len() - k,
    {
        let step = &rain_fc.steps[k];
        assert(i64::MIN <= rain_fc.reference_time + step_offset(rain_fc.steps@[k as int]) <= i64::MAX);
        let absolute_time = rain_fc.reference_time + (step.forecast_hour as i64) * 3600;
        let relative_offset = absolute_time - radar_ref_time;
        proof {
            assert(rain_fc.steps@.take(k + 1).drop_last() =~= rain_fc.steps@.take(k as int));
        }
        if relative_offset > last_radar_time {
            out.push((relative_offset, k));
        }
        k += 1;
    }
    assert(rain_fc.steps@.take(k as int) =~= rain_fc.steps@);
    out
}

/// Distance in seconds from the valid time of a step to `target`, with the
/// step times counted from `base`.
pub open spec fn step_distance<S: ForecastStep>(s: S, base: int, target: int) -> int {
    let d = base + step_offset(s) - target;
    if d < 0 {
        -d
    } else {
        d
    }
}

/// The distances of all steps to `target` fit in `i64`, as do the valid
/// times they are computed from.
pub open spec fn distances_fit<S: ForecastStep>(steps: Seq<S>, base: int, target: int) -> bool {
    forall|j: int|
        0 <= j < steps.len() ==> {
            &&& i64::MIN <= base + step_offset(#[trigger] steps[j]) <= i64::MAX
            &&& i64::MIN < base + step_offset(steps[j]) - target <= i64::MAX
        }
}

/// The step whose valid time (`base` plus its offset) is closest to `target`;
/// the first one when several are equally close; `None` when there are no
/// steps.
pub fn closest_step<S: ForecastStep>(steps: &[S], base: i64, target: i64) -> (r: Option<usize>)
    requires
        distances_fit(steps@, base as int, target as int),
    ensures
        steps@.len() == 0 <==> r is None,
        r matches Some(k) ==> {
            &&& k < steps@.len()
            &&& forall|j: int|
                0 <= j < steps@.len() ==> step_distance(steps@[k as int], base as int, target as int)
                    <= step_distance(#[trigger] steps@[j], base as int, target as int)
            &&& forall|j: int|
                0 <= j < k ==> step_distance(steps@[k as int], base as int, target as int)
                    < step_distance(#[trigger] steps@[j], base as int, target as int)
        },
{
    if steps.len() == 0 {
        return None;
    }
    let mut best: usize = 0;
    let mut best_d: i64 = 0;
    let mut k: usize = 0;
    while k < steps.len()
        invariant
            distances_fit(steps@, base as int, target as int),
            steps@.len() > 0,
            k <= steps@.len(),
            k == 0 ==> best == 0,
            k > 0 ==> best < k && best_d == step_distance(steps@[best as int], base as int, target as int),
            forall|j: int|
                0 <= j < k ==> best_d <= step_distance(#[trigger] steps@[j], base as int, target as int),
            forall|j: int|
                0 <= j < best ==> best_d < step_distance(#[trigger] steps@[j], base as int, target as int),
        decreases steps@.len() - k,
    {
        assert(i64::MIN <= base + step_offset(steps@[k as int]) <= i64::MAX);
        let h = steps[k].forecast_hour();
        let valid_time = base + (h as i64) * 3600;
        let diff = valid_time - target;
        let d = if diff < 0 {
            -diff
        } else {
            diff
        };
        if k == 0 || d < best_d {
            best = k;
            best_d = d;
        }
        k += 1;
    }
    Some(best)
}

/// The distances to `target` of the steps at height `level` fit in `i64`,
/// as do the valid times they are computed from.
pub open spec fn level_distances_fit(steps: Seq<WindStep>, level: u32, base: int, target: int) -> bool {
    forall|j: int|
        0 <= j < steps.len() && (#[trigger] steps[j]).height_level == level ==> {
            &&& i64::MIN <= base + step_offset(steps[j]) <= i64::MAX
            &&& i64::MIN < base + step_offset(steps[j]) - target <= i64::MAX
        }
}

/// Among the wind steps at height `level`, the one whose valid time is
/// closest to `target`; the first one when several are equally close;
/// `None` when no step is at that height.
pub fn closest_step_at_height(steps: &[WindStep], level: u32, base: i64, target: i64) -> (r: Option<usize>)
    requires
        level_distances_fit(steps@, level, base as int, target as int),
    ensures
        r is None <==> forall|j: int| 0 <= j < steps@.len() ==> (#[trigger] steps@[j]).height_level != level,
        r matches Some(k) ==> {
            &&& k < steps@.len()
            &&& steps@[k as int].height_level == level
            &&& forall|j: int|
                0 <= j < steps@.len() && (#[trigger] steps@[j]).height_level == level
                    ==> step_distance(steps@[k as int], base as int, target as int)
                    <= step_distance(steps@[j], base as int, target as int)
            &&& forall|j: int|
                0 <= j < k && (#[trigger] steps@[j]).height_level == level
                    ==> step_distance(steps@[k as int], base as int, target as int)
                    < step_distance(steps@[j], base as int, target as int)
        },
{
    let mut best: Option<usize> = None;
    let mut best_d: i64 = 0;
    let mut k: usize = 0;
    while k < steps.len()
        invariant
            level_distances_fit(steps@, level, base as int, target as int),
            k <= steps@.len(),
            best is None <==> forall|j: int| 0 <= j < k ==> (#[trigger] steps@[j]).height_level != level,
            best matches Some(b) ==> {
                &&& b < k
                &&& steps@[b as int].height_level == level
                &&& best_d == step_distance(steps@[b as int], base as int, target as int)
                &&& forall|j: int|
                    0 <= j < k && (#[trigger] steps@[j]).height_level == level
                        ==> best_d <= step_distance(steps@[j], base as int, target as int)
                &&& forall|j: int|
                    0 <= j < b && (#[trigger] steps@[j]).height_level == level
                        ==> best_d < step_distance(steps@[j], base as int, target as int)
            },
        decreases steps@.len() - k,
    {
        if steps[k].height_level == level {
            assert(i64::MIN <= base + step_offset(steps@[k as int]) <= i64::MAX);
            let valid_time = base + (steps[k].forecast_hour as i64) * 3600;
            let diff = valid_time - target;
            let d = if diff < 0 {
                -diff
            } else {
                diff
            };
            match best {
                None => {
                    best = Some(k);
                    best_d = d;
                },
                Some(_) => {
                    if d < best_d {
                        best = Some(k);
                        best_d = d;
                    }
                },
            }
        }
        k += 1;
    }
    best
}

/// The indices, in increasing order, of the wind steps at height `level`.
pub fn steps_at_height(steps: &[WindStep], level: u32) -> (idx: Vec<usize>)
    ensures
        forall|i: int| 0 <= i < idx@.len() ==> idx@[i] < steps@.len() && steps@[#[trigger] idx@[i] as int].height_level == level,
        forall|i: int, j: int| 0 <= i < j < idx@.len() ==> idx@[i] < idx@[j],
        forall|j: int|
            0 <= j < steps@.len() && (#[trigger] steps@[j]).height_level == level ==> exists|i: int|
                0 <= i < idx@.len() && idx@[i] == j,
{
    let mut idx: Vec<usize> = Vec::new();
    let mut k: usize = 0;
    while k < steps.len()
        invariant
            k <= steps@.len(),
            forall|i: int| 0 <= i < idx@.len() ==> idx@[i] < k && steps@[#[trigger] idx@[i] as int].height_level == level,
            forall|i: int, j: int| 0 <= i < j < idx@.len() ==> idx@[i] < idx@[j],
            forall|j: int|
                0 <= j < k && (#[trigger] steps@[j]).height_level == level ==> exists|i: int|
                    0 <= i < idx@.len() && idx@[i] == j,
        decreases steps@.len() - k,
    {
        if steps[k].height_level == level {
            let ghost before = idx@;
            idx.push(k);
            assert forall|j: int|
                0 <= j < k + 1 && (#[trigger] steps@[j]).height_level == level implies exists|i: int|
                    0 <= i < idx@.len() && idx@[i] == j by {
                if j < k {
                    let i = choose|i: int| 0 <= i < before.len() && before[i] == j;
                    assert(idx@[i] == j);
                } else {
                    assert(idx@[before.len() as int] == j);
                }
            }
        }
        k += 1;
    }
    idx
}

/// Whether [`distances_fit`] holds: the valid time of every step, counted
/// from `base`, and its distance to `target` are representable.
pub fn check_distances_fit<S: ForecastStep>(steps: &[S], base: i64, target: i64) -> (r: bool)
    ensures
        r == distances_fit(steps@, base as int, target as int),
{
    let mut k: usize = 0;
    while k < steps.len()
        invariant
            k <= steps@.len(),
            forall|j: int| 0 <= j < k ==> {
                &&& i64::MIN <= base + step_offset(#[trigger] steps@[j]) <= i64::MAX
                &&& i64::MIN < base + step_offset(steps@[j]) - target <= i64::MAX
            },
        decreases steps@.len() - k,
    {
        let valid = base as i128 + steps[k].forecast_hour() as i128 * 3600;
        let d = valid - target as i128;
        let lo = i64::MIN as i128;
        let hi = i64::MAX as i128;
        if !(lo <= valid && valid <= hi && lo < d && d <= hi) {
            return false;
        }
        k += 1;
    }
    true
}

/// Whether [`level_distances_fit`] holds for the wind steps at `level`.
pub fn check_level_distances_fit(steps: &[WindStep], level: u32, base: i64, target: i64) -> (r: bool)
    ensures
        r == level_distances_fit(steps@, level, base as int, target as int),
{
    let mut k: usize = 0;
    while k < steps.len()
        invariant
            k <= steps@.len(),
            forall|j: int| 0 <= j < k && (#[trigger] steps@[j]).height_level == level ==> {
                &&& i64::MIN <= base + step_offset(steps@[j]) <= i64::MAX
                &&& i64::MIN < base + step_offset(steps@[j]) - target <= i64::MAX
            },
        decreases steps@.len() - k,
    {
        if steps[k].height_level == level {
            let valid = base as i128 + steps[k].forecast_hour as i128 * 3600;
            let d = valid - target as i128;
            let lo = i64::MIN as i128;
            let hi = i64::MAX as i128;
            if !(lo <= valid && valid <= hi && lo < d && d <= hi) {
                return false;
            }
        }
        k += 1;
    }
    true
}

/// Whether [`rain_offsets_fit`] holds: the valid time of every rain step and
/// its offset from `radar_ref` are representable.
pub fn check_rain_offsets_fit(rain: &RainForecast, radar_ref: i64) -> (r: bool)
    ensures
        r == rain_offsets_fit(*rain, radar_ref as int),
{
    let mut k: usize = 0;
    while k < rain.steps.len()
        invariant
            k <= rain.steps@.len(),
            forall|j: int| 0 <= j < k ==> {
                &&& i64::MIN <= rain.reference_time + step_offset(#[trigger] rain.steps@[j]) <= i64::MAX
                &&& i64::MIN <= rain_offset(rain.reference_time, rain.steps@[j], radar_ref as int) <= i64::MAX
            },
        decreases rain.steps@.len() - k,
    {
        let valid = rain.reference_time as i128 + rain.steps[k].forecast_hour as i128 * 3600;
        let d = valid - radar_ref as i128;
        let lo = i64::MIN as i128;
        let hi = i64::MAX as i128;
        if !(lo <= valid && valid <= hi && lo <= d && d <= hi) {
            return false;
        }
        k += 1;
    }
    true
}

/// Calls chrono's `Utc.timestamp_opt(t, 0).single()` and formats the result
/// with `"%Y-%m-%d %H:%M:%S"`. The contract claims that chrono represents
/// exactly the times whose date lies in its year range (-262143..=262142),
/// and writes the calendar fields of `t` as [`civil_text`] does: `%Y` with
/// four zero-padded digits from 0 to 9999 and a sign otherwise, the other
/// fields with two digits (the fields of a timestamp are unique, so
/// [`utc_text`]'s choice of them is chrono's).
#[verifier::external_body]
fn format_utc_seconds(t: i64) -> (r: Option<String>)
    ensures
        match r {
            Some(s) => utc_text(t as int) == Some(s@),
            None => utc_text(t as int) is None,
        },
{
    match chrono::Utc.timestamp_opt(t, 0).single() {
        Some(dt) => Some(dt.format("%Y-%m-%d %H:%M:%S").to_string()),
        None => None,
    }
}

/// The time-unit label of a forecast run, from the formatted reference time:
/// `"seconds since "` followed by it, or the epoch when there is none.
pub fn reference_time_label(formatted: Option<String>) -> (s: String)
    ensures
        s@ == match formatted {
            Some(f) => "seconds since "@ + f@,
            None => "seconds since 1970-01-01 00:00:00"@,
        },
{
    match formatted {
        Some(f) => {
            let mut s = String::from_str("seconds since ");
            s.append(f.as_str());
            s
        },
        None => String::from_str("seconds since 1970-01-01 00:00:00"),
    }
}

/// The time axis (sorted step offsets, each once) and the time-unit label of
/// a forecast run.
pub fn format_forecast_metadata<S: ForecastStep>(steps: &[S], reference_time: i64) -> (r: (
    Vec<i64>,
    String,
))
    ensures
        strictly_increasing(r.0@),
        r.0@.to_set() == step_offsets(steps@),
        r.1@ == match utc_text(reference_time as int) {
            Some(f) => "seconds since "@ + f,
            None => "seconds since 1970-01-01 00:00:00"@,
        },
{
    let times = forecast_times(steps);
    let label = reference_time_label(format_utc_seconds(reference_time));
    (times, label)
}

} // verus!
