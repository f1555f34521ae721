use std::sync::Arc;
use weer::forecast::{RainForecast, RainStep, TempStep, WindStep};
use weer::names::parse_reference_time;
use weer::timeline::{
    check_distances_fit, check_level_distances_fit, check_rain_offsets_fit, closest_step,
    closest_step_at_height, compute_extended_times, extract_timeseries, format_forecast_metadata,
    forecast_times, rain_step_offsets, reference_time_label, steps_at_height,
};

fn rain_step(hour: i32) -> RainStep {
    RainStep { forecast_hour: hour, width: 1, height: 1, values: Arc::new(vec![hour as u16]) }
}

fn temp_step(hour: i32, v: u16) -> TempStep {
    TempStep { forecast_hour: hour, width: 1, height: 1, values: Arc::new(vec![v]) }
}

#[test]
fn extended_times_add_rain_steps_after_the_radar() {
    // Radar reference 2023-11-14 22:00:00, Harmonie run 21:00.
    let rain = RainForecast {
        reference_time: 1700000000 - 800 - 3600,
        steps: vec![rain_step(3), rain_step(1), rain_step(2), rain_step(0), rain_step(2)],
    };
    let base = [0i64, 300, 3600, 600];
    let times = compute_extended_times(&base, &rain, "seconds since 2023-11-14 22:00:00");
    // Offsets: hour h -> (h - 1) * 3600; only those beyond the last radar time 600 are added.
    assert_eq!(times, vec![0, 300, 600, 3600, 7200]);
}

#[test]
fn extended_times_without_reference_keep_the_axis() {
    let rain = RainForecast { reference_time: 0, steps: vec![rain_step(5)] };
    let base = [600i64, 0, 600];
    assert_eq!(compute_extended_times(&base, &rain, "not a time"), vec![600, 0, 600]);
    let empty: [i64; 0] = [];
    // Last radar time of an empty axis counts as 0.
    let times = compute_extended_times(&empty, &rain, "seconds since 1970-01-01 00:00:00");
    assert_eq!(times, vec![18000]);
}

#[test]
fn rain_offsets_keep_step_order_and_indices() {
    let rain = RainForecast {
        reference_time: 1000,
        steps: vec![rain_step(2), rain_step(0), rain_step(1)],
    };
    assert_eq!(rain_step_offsets(&rain, 1000, 0), vec![(7200, 0), (3600, 2)]);
    assert_eq!(rain_step_offsets(&rain, 4600, -3600), vec![(3600, 0), (0, 2)]);
}

#[test]
fn timeseries_keeps_steps_with_values() {
    let steps = vec![temp_step(0, 2900), temp_step(1, 65535), temp_step(3, 2950)];
    let (times, values) = extract_timeseries(&steps, |s: &TempStep| {
        let v = s.values[0];
        if v == 65535 { None } else { Some(v as i64) }
    });
    assert_eq!(times, vec![0, 10800]);
    assert_eq!(values, vec![2900, 2950]);
}

#[test]
fn forecast_times_are_sorted_and_unique() {
    let steps = vec![temp_step(6, 0), temp_step(0, 0), temp_step(6, 0), temp_step(-1, 0)];
    assert_eq!(forecast_times(&steps), vec![-3600, 0, 21600]);
}

#[test]
fn forecast_metadata_label() {
    let steps = vec![temp_step(1, 0)];
    let (times, label) = format_forecast_metadata(&steps, 1700000000);
    assert_eq!(times, vec![3600]);
    assert_eq!(label, "seconds since 2023-11-14 22:13:20");
    assert_eq!(reference_time_label(None), "seconds since 1970-01-01 00:00:00");
    assert_eq!(
        reference_time_label(Some("2000-01-01 00:00:00".to_string())),
        "seconds since 2000-01-01 00:00:00"
    );
    let (_, out_of_range) = format_forecast_metadata(&steps, i64::MAX);
    assert_eq!(out_of_range, "seconds since 1970-01-01 00:00:00");
}

#[test]
fn closest_step_prefers_the_first_of_equals() {
    let steps = vec![temp_step(0, 0), temp_step(2, 0), temp_step(4, 0), temp_step(2, 0)];
    assert_eq!(closest_step(&steps, 0, 3600), Some(0));
    assert_eq!(closest_step(&steps, 0, 5400), Some(1));
    assert_eq!(closest_step(&steps, 0, 10800), Some(1));
    assert_eq!(closest_step(&steps, 0, 100000), Some(2));
    assert_eq!(closest_step(&steps, 3600, 3600), Some(0));
    let none: Vec<TempStep> = Vec::new();
    assert_eq!(closest_step(&none, 0, 0), None);
}

fn wind_step(hour: i32, level: u32) -> WindStep {
    WindStep {
        forecast_hour: hour,
        height_level: level,
        width: 1,
        height: 1,
        u_values: Arc::new(vec![1]),
        v_values: Arc::new(vec![2]),
    }
}

#[test]
fn closest_wind_step_keeps_to_its_height() {
    let steps = vec![wind_step(0, 10), wind_step(1, 50), wind_step(2, 10), wind_step(1, 10), wind_step(3, 50)];
    // At 10 m: hours 0, 2, 1 at indices 0, 2, 3; 4000 s is closest to hour 1.
    assert_eq!(closest_step_at_height(&steps, 10, 0, 4000), Some(3));
    // At 50 m, hours 1 and 3 are equally close to 7200: the first wins.
    assert_eq!(closest_step_at_height(&steps, 50, 0, 7200), Some(1));
    assert_eq!(closest_step_at_height(&steps, 10, 0, 3600), Some(3));
    assert_eq!(closest_step_at_height(&steps, 100, 0, 0), None);
    assert_eq!(closest_step_at_height(&[], 10, 0, 0), None);
}

#[test]
fn wind_steps_filtered_by_height() {
    let steps = vec![wind_step(0, 10), wind_step(1, 50), wind_step(2, 10), wind_step(3, 50)];
    assert_eq!(steps_at_height(&steps, 10), vec![0, 2]);
    assert_eq!(steps_at_height(&steps, 50), vec![1, 3]);
    assert_eq!(steps_at_height(&steps, 300), Vec::<usize>::new());
}

fn wind_step_at(hour: i32, level: u32) -> WindStep {
    WindStep {
        forecast_hour: hour,
        height_level: level,
        width: 1,
        height: 1,
        u_values: Arc::new(vec![10000]),
        v_values: Arc::new(vec![10000]),
    }
}

#[test]
fn distance_checks_find_overflowing_steps() {
    let steps = vec![temp_step(0, 1), temp_step(1, 2)];
    assert!(check_distances_fit(&steps, 0, 0));
    assert!(check_distances_fit(&steps, 1700000000, 1700003600));
    // base + 3600 does not fit in i64.
    assert!(!check_distances_fit(&steps, i64::MAX, 0));
    // 0 - i64::MIN does not fit in i64.
    assert!(!check_distances_fit(&steps, 0, i64::MIN));
    let none: [TempStep; 0] = [];
    assert!(check_distances_fit(&none, i64::MAX, i64::MIN));
}

#[test]
fn level_distance_checks_look_at_one_level() {
    let steps = vec![wind_step_at(1, 10), wind_step_at(0, 20)];
    assert!(!check_level_distances_fit(&steps, 10, i64::MAX, 0));
    assert!(check_level_distances_fit(&steps, 20, i64::MAX, 0));
    assert!(check_level_distances_fit(&steps, 30, i64::MAX, 0));
    assert!(check_level_distances_fit(&steps, 10, 0, 0));
}

#[test]
fn rain_offset_checks_find_overflowing_steps() {
    let fits = RainForecast { reference_time: 1000, steps: vec![rain_step(2), rain_step(0)] };
    assert!(check_rain_offsets_fit(&fits, 0));
    let late = RainForecast { reference_time: i64::MAX, steps: vec![rain_step(1)] };
    assert!(!check_rain_offsets_fit(&late, 0));
    // The step itself fits, its offset from a radar time far in the past does not.
    let early = RainForecast { reference_time: 0, steps: vec![rain_step(1)] };
    assert!(!check_rain_offsets_fit(&early, i64::MIN));
    let empty = RainForecast { reference_time: i64::MAX, steps: vec![] };
    assert!(check_rain_offsets_fit(&empty, i64::MIN));
}

#[test]
fn reference_label_reads_back() {
    let none: [TempStep; 0] = [];
    let (_, label) = format_forecast_metadata(&none, 1700000000);
    assert_eq!(label, "seconds since 2023-11-14 22:13:20");
    assert_eq!(parse_reference_time(&label), Some(1700000000));
    // 0001-01-01 00:00:00
    let (_, first) = format_forecast_metadata(&none, -62135596800);
    assert_eq!(first, "seconds since 0001-01-01 00:00:00");
    assert_eq!(parse_reference_time(&first), Some(-62135596800));
    let (_, epoch) = format_forecast_metadata(&none, 0);
    assert_eq!(parse_reference_time(&epoch), Some(0));
}

#[test]
fn timeseries_has_one_time_per_value() {
    let steps = vec![temp_step(0, 1), temp_step(1, 65535), temp_step(2, 65535), temp_step(5, 4)];
    let (times, values) = extract_timeseries(&steps, |s: &TempStep| {
        let v = s.values[0];
        if v == 65535 { None } else { Some(v) }
    });
    assert_eq!(times.len(), values.len());
    assert!(times.len() <= steps.len());
    assert_eq!(times, vec![0, 18000]);
    let (no_times, no_values) = extract_timeseries(&steps, |_s: &TempStep| None::<u16>);
    assert!(no_times.is_empty() && no_values.is_empty());
}
