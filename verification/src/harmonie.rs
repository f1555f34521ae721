//! The rules for reading a Harmonie run archive: which entries are GRIB
//! files, which GRIB messages hold which field, the forecast hour of an entry
//! and the order of the resulting steps.

use vstd::prelude::*;
use crate::names::{occurs_at, parse_run_time_from_name, run_time_spec};
use crate::calendar::same_timestamp;
use crate::text::chars_of;

verus! {

/// A field of a Harmonie GRIB message that the service uses.
#[derive(Debug, Clone, Copy, PartialEq, Eq, Structural)]
pub enum GribField {
    /// Temperature at 2 m.
    Temperature,
    /// Accumulated global radiation at the surface.
    Solar,
    /// Accumulated precipitation at the surface.
    Rain,
    /// Wind component towards the east at the given height (m).
    WindU(u32),
    /// Wind component towards the north at the given height (m).
    WindV(u32),
    /// Anything else.
    Other,
}

/// The heights (m) of the wind levels the service keeps.
pub open spec fn is_wind_level(level_value: u16) -> bool {
    level_value == 10 || level_value == 50 || level_value == 100 || level_value == 200
        || level_value == 300
}

/// The field of a GRIB1 message, from its parameter number, level type and
/// level value: on height levels (type 105), parameter 11 at 2 m is
/// temperature, 117 at 0 m radiation, 61 at 0 m precipitation, and 33 / 34
/// at a wind level the wind components.
pub open spec fn grib_field_of(parameter_number: u8, level_type: u8, level_value: u16) -> GribField {
    if level_type != 105 {
        GribField::Other
    } else if parameter_number == 11 && level_value == 2 {
        GribField::Temperature
    } else if parameter_number == 117 && level_value == 0 {
        GribField::Solar
    } else if parameter_number == 61 && level_value == 0 {
        GribField::Rain
    } else if is_wind_level(level_value) && parameter_number == 33 {
        GribField::WindU(level_value as u32)
    } else if is_wind_level(level_value) && parameter_number == 34 {
        GribField::WindV(level_value as u32)
    } else {
        GribField::Other
    }
}

/// The field of a GRIB1 message (see [`grib_field_of`]).
pub fn classify_grib_field(parameter_number: u8, level_type: u8, level_value: u16) -> (r: GribField)
    ensures
        r == grib_field_of(parameter_number, level_type, level_value),
{
    if level_type != 105 {
        return GribField::Other;
    }
    if parameter_number == 11 && level_value == 2 {
        GribField::Temperature
    } else if parameter_number == 117 && level_value == 0 {
        GribField::Solar
    } else if parameter_number == 61 && level_value == 0 {
        GribField::Rain
    } else {
        let wind_level = level_value == 10 || level_value == 50 || level_value == 100
            || level_value == 200 || level_value == 300;
        if wind_level && parameter_number == 33 {
            GribField::WindU(level_value as u32)
        } else if wind_level && parameter_number == 34 {
            GribField::WindV(level_value as u32)
        } else {
            GribField::Other
        }
    }
}

/// The fields a GRIB1 message is read as, for every parameter, level type
/// and level: temperature is parameter 11 at 2 m, global radiation 117 and
/// rain 61 at level 0, and the u and v wind components are parameters 33 and
/// 34 at 10, 50, 100, 200 or 300 m, each at its own height; all of them on
/// level type 105. Anything else is `Other`.
pub proof fn lemma_grib_fields(parameter_number: u8, level_type: u8, level_value: u16, h: u32)
    ensures
        (grib_field_of(parameter_number, level_type, level_value) == GribField::Temperature) <==> (
        level_type == 105 && parameter_number == 11 && level_value == 2),
        (grib_field_of(parameter_number, level_type, level_value) == GribField::Solar) <==> (
        level_type == 105 && parameter_number == 117 && level_value == 0),
        (grib_field_of(parameter_number, level_type, level_value) == GribField::Rain) <==> (
        level_type == 105 && parameter_number == 61 && level_value == 0),
        (grib_field_of(parameter_number, level_type, level_value) == GribField::WindU(h)) <==> (
        level_type == 105 && parameter_number == 33 && level_value as u32 == h && (h == 10 || h
            == 50 || h == 100 || h == 200 || h == 300)),
        (grib_field_of(parameter_number, level_type, level_value) == GribField::WindV(h)) <==> (
        level_type == 105 && parameter_number == 34 && level_value as u32 == h && (h == 10 || h
            == 50 || h == 100 || h == 200 || h == 300)),
{
}

/// The wind components at each of the five heights, one by one.
pub proof fn lemma_wind_heights()
    ensures
        grib_field_of(33, 105, 10) == GribField::WindU(10),
        grib_field_of(34, 105, 10) == GribField::WindV(10),
        grib_field_of(33, 105, 50) == GribField::WindU(50),
        grib_field_of(34, 105, 50) == GribField::WindV(50),
        grib_field_of(33, 105, 100) == GribField::WindU(100),
        grib_field_of(34, 105, 100) == GribField::WindV(100),
        grib_field_of(33, 105, 200) == GribField::WindU(200),
        grib_field_of(34, 105, 200) == GribField::WindV(200),
        grib_field_of(33, 105, 300) == GribField::WindU(300),
        grib_field_of(34, 105, 300) == GribField::WindV(300),
{
}

/// Whether an archive entry is a GRIB file: its name holds `_GB`.
pub fn is_grib_entry(file_name: &str) -> (r: bool)
    ensures
        r == exists|i: int| occurs_at(file_name@, i, "_GB"@),
{
    let v = chars_of(file_name);
    let p = chars_of("_GB");
    proof {
        reveal_strlit("_GB");
    }
    let n = v.len();
    if n < 3 {
        proof {
            assert forall|i: int| !occurs_at(file_name@, i, "_GB"@) by {}
        }
        return false;
    }
    let mut i: usize = 0;
    while i <= n - 3
        invariant
            v@ == file_name@,
            p@ == "_GB"@,
            p@ == seq!['_', 'G', 'B'],
            n == v@.len(),
            n >= 3,
            i <= n - 2,
            forall|j: int| 0 <= j < i ==> !occurs_at(file_name@, j, "_GB"@),
        decreases n - i,
    {
        if v[i] == p[0] && v[i + 1] == p[1] && v[i + 2] == p[2] {
            proof {
                assert(v@.subrange(i as int, i + 3) =~= p@);
                assert(occurs_at(file_name@, i as int, "_GB"@));
            }
            return true;
        }
        proof {
            if occurs_at(file_name@, i as int, "_GB"@) {
                assert(v@.subrange(i as int, i + 3)[0] == v@[i as int]);
                assert(v@.subrange(i as int, i + 3)[1] == v@[i + 1]);
                assert(v@.subrange(i as int, i + 3)[2] == v@[i + 2]);
            }
        }
        i += 1;
    }
    proof {
        assert forall|j: int| !occurs_at(file_name@, j, "_GB"@) by {
            if j > n - 3 && occurs_at(file_name@, j, "_GB"@) {
                assert(j + 3 <= n);
            }
        }
    }
    false
}

/// The forecast hour of an archive entry: the hour in its name (0 when there
/// is none), replaced by the forecast time of each message in turn while it
/// is 0 (a message without a forecast time counts as 0).
pub open spec fn entry_hour(from_name: Option<i32>, message_hours: Seq<Option<u32>>) -> i32
    decreases message_hours.len(),
{
    if message_hours.len() == 0 {
        match from_name {
            Some(h) => h,
            None => 0,
        }
    } else {
        let h = entry_hour(from_name, message_hours.drop_last());
        if h == 0 {
            match message_hours.last() {
                Some(m) => m as i32,
                None => 0,
            }
        } else {
            h
        }
    }
}

/// The forecast hour of an archive entry (see [`entry_hour`]).
pub fn resolve_forecast_hour(from_name: Option<i32>, message_hours: &[Option<u32>]) -> (r: i32)
    ensures
        r == entry_hour(from_name, message_hours@),
{
    let mut h: i32 = match from_name {
        Some(x) => x,
        None => 0,
    };
    let mut k: usize = 0;
    while k < message_hours.len()
        invariant
            k <= message_hours@.len(),
            h == entry_hour(from_name, message_hours@.take(k as int)),
        decreases message_hours@.len() - k,
    {
        proof {
            assert(message_hours@.take(k + 1).drop_last() =~= message_hours@.take(k as int));
        }
        if h == 0 {
            h = match message_hours[k] {
                Some(m) => m as i32,
                None => 0,
            };
        }
        k += 1;
    }
    assert(message_hours@.take(k as int) =~= message_hours@);
    h
}

/// The run time of an archive: the current one, or, while that is 0, the
/// run time in the next entry's name when it has one.
pub fn next_reference_time(current: i64, entry_name: &str) -> (r: i64)
    ensures
        current != 0 ==> r == current,
        current == 0 ==> match run_time_spec(entry_name@) {
            Some(t) => r == t,
            None => r == 0,
        },
{
    if current != 0 {
        return current;
    }
    match parse_run_time_from_name(entry_name) {
        Some(t) => t,
        None => 0,
    }
}

/// Index `a` comes before index `b` when ordered by key, ties by index.
pub open spec fn key_before(keys: Seq<i64>, a: int, b: int) -> bool {
    keys[a] < keys[b] || (keys[a] == keys[b] && a < b)
}

/// The order in which a stable sort by `keys` puts the indices `0..n`.
pub open spec fn is_stable_order(keys: Seq<i64>, order: Seq<usize>) -> bool {
    &&& order.len() == keys.len()
    &&& forall|i: int| 0 <= i < order.len() ==> #[trigger] order[i] < keys.len()
    &&& forall|i: int, j: int|
        0 <= i < j < order.len() ==> key_before(keys, #[trigger] order[i] as int, #[trigger] order[j] as int)
}

/// The indices of `keys` in the order of a stable sort by key: by key, and by
/// position among equal keys.
pub fn stable_order(keys: &[i64]) -> (order: Vec<usize>)
    ensures
        is_stable_order(keys@, order@),
        forall|k: usize| k < keys@.len() ==> #[trigger] order@.contains(k),
{
    let n = keys.len();
    let mut order: Vec<usize> = Vec::new();
    let mut i: usize = 0;
    while i < n
        invariant
            n == keys@.len(),
            i <= n,
            order@.len() == i,
            forall|x: int| 0 <= x < order@.len() ==> #[trigger] order@[x] < i,
            forall|x: int, y: int|
                0 <= x < y < order@.len() ==> key_before(keys@, #[trigger] order@[x] as int, #[trigger] order@[y] as int),
            forall|k: usize| k < i ==> #[trigger] order@.contains(k),
        decreases n - i,
    {
        let ki = keys[i];
        let mut p: usize = 0;
        while p < order.len() && keys[order[p]] <= ki
            invariant
                n == keys@.len(),
                i < n,
                p <= order@.len(),
                forall|x: int| 0 <= x < order@.len() ==> #[trigger] order@[x] < i,
                forall|x: int| 0 <= x < p ==> keys@[#[trigger] order@[x] as int] <= ki,
            decreases order@.len() - p,
        {
            p += 1;
        }
        let ghost before = order@;
        order.insert(p, i);
        proof {
            let o = order@;
            assert(o == before.insert(p as int, i));
            assert forall|x: int, y: int| 0 <= x < y < o.len() implies key_before(
                keys@,
                #[trigger] o[x] as int,
                #[trigger] o[y] as int,
            ) by {
                if y == p {
                    assert(o[x] == before[x]);
                    assert(keys@[before[x] as int] <= ki);
                } else if x == p {
                    assert(o[y] == before[y - 1]);
                    if y - 1 >= p && p < before.len() {
                        assert(keys@[before[p as int] as int] > ki);
                        if y - 1 > p {
                            assert(key_before(keys@, before[p as int] as int, before[y - 1] as int));
                        }
                    }
                } else if x < p && y > p {
                    assert(o[x] == before[x]);
                    assert(o[y] == before[y - 1]);
                } else if x > p {
                    assert(o[x] == before[x - 1]);
                    assert(o[y] == before[y - 1]);
                }
            }
            assert forall|k: usize| k < i + 1 implies #[trigger] o.contains(k) by {
                if k == i {
                    assert(o[p as int] == i);
                } else {
                    assert(before.contains(k));
                    let x = choose|x: int| 0 <= x < before.len() && before[x] == k;
                    if x < p {
                        assert(o[x] == k);
                    } else {
                        assert(o[x + 1] == k);
                    }
                }
            }
        }
        i += 1;
    }
    order
}

/// The sort key of a wind step: by forecast hour, then by height level.
pub open spec fn wind_key(forecast_hour: i32, height_level: u32) -> int {
    forecast_hour as int * 0x1_0000_0000 + height_level as int
}

/// The sort key of a wind step (see [`wind_key`]).
pub fn wind_sort_key(forecast_hour: i32, height_level: u32) -> (k: i64)
    ensures
        k == wind_key(forecast_hour, height_level),
{
    (forecast_hour as i64) * 0x1_0000_0000i64 + (height_level as i64)
}

} // verus!
