use chrono::TimeZone;
use weer::names::{
    parse_forecast_hour_from_name, parse_reference_time, parse_rtcor_filename_timestamp,
    parse_rtcor_timestamp, parse_run_time_from_name, parse_tar_run_time,
};

#[test]
fn test_f02_02_parse_forecast_hour_from_name() {
    assert_eq!(parse_forecast_hour_from_name("HA40_NWP_202311142200_00300_GB"), Some(3));
    assert_eq!(parse_forecast_hour_from_name("HA40_NWP_202311142200_04800_GB"), Some(48));
    assert_eq!(parse_forecast_hour_from_name("HA40_NWP_202311142200_00000_GB"), Some(0));
    assert_eq!(parse_forecast_hour_from_name("unrecognized_filename_pattern"), None);
}

#[test]
fn test_f02_01_parse_reference_time() {
    let ref_str = "seconds since 2023-11-14 22:13:20";
    let ts = parse_reference_time(ref_str);
    assert!(ts.is_some());
    assert_eq!(ts.unwrap(), 1700000000);

    let invalid_str = "invalid timestamp string format";
    assert!(parse_reference_time(invalid_str).is_none());
}

#[test]
fn test_f02_03_parse_run_time_from_name() {
    let ts = parse_run_time_from_name("HA40_NWP_202311142200_00300_GB");
    assert!(ts.is_some());
    let ts_val = ts.unwrap();
    assert!(ts_val > 1699900000);

    assert_eq!(parse_run_time_from_name("malformed_run_time"), None);
}

#[test]
fn test_f03_01_parse_rtcor_filename_timestamp() {
    let ts = parse_rtcor_filename_timestamp("RAD_NL25_RAC_RT_202608261300.h5");
    assert!(ts.is_some());
    let ts_val = ts.unwrap();
    assert!(ts_val > 1699900000);

    let ts2 = parse_rtcor_filename_timestamp("RAD_NL25_RAC_RT_202401010000.h5");
    assert!(ts2.is_some());

    assert_eq!(parse_rtcor_filename_timestamp("corrupted_rtcor_file.h5"), None);
    assert_eq!(parse_rtcor_filename_timestamp(""), None);
}

#[test]
fn test_parse_rtcor_timestamp() {
    let filename = "RAD_NL25_RAC_RT_202608261300.h5";
    let ts = parse_rtcor_filename_timestamp(filename).expect("Should parse timestamp");
    let dt = chrono::Utc.timestamp_opt(ts, 0).unwrap();
    assert_eq!(
        dt.format("%Y-%m-%d %H:%M:%S").to_string(),
        "2026-08-26 13:00:00"
    );
}

#[test]
fn test_parse_rtcor_invalid_filename() {
    assert!(parse_rtcor_filename_timestamp("invalid_name.h5").is_none());
    assert!(parse_rtcor_filename_timestamp("RAD_NL25_RAC_RT_2026.h5").is_none());
    assert!(parse_rtcor_filename_timestamp("RAD_NL25_RAC_RT_202608261300.nc").is_none());
}

#[test]
fn forecast_hour_takes_first_three_digits() {
    assert_eq!(parse_forecast_hour_from_name("HA40_NWP_202311142200_12345_GB"), Some(123));
    assert_eq!(parse_forecast_hour_from_name("HA40_NWP_202311142200_0a_GB"), None);
    assert_eq!(parse_forecast_hour_from_name("HA40_NWP_202311142200_-12_GB"), Some(-12));
    assert_eq!(parse_forecast_hour_from_name("HA40_NWP_202311142200_+1x_GB"), None);
}

#[test]
fn run_time_is_exact() {
    assert_eq!(parse_run_time_from_name("HA40_NWP_202311142200_00300_GB"), Some(1700000000 - 800));
    assert_eq!(parse_run_time_from_name("HA40_NWP_197001010000_00300_GB"), Some(0));
    // 31 February does not exist.
    assert_eq!(parse_run_time_from_name("HA40_NWP_202302310000_00300_GB"), None);
    // Hour 24 is not a time of day.
    assert_eq!(parse_run_time_from_name("HA40_NWP_202311142400_00300_GB"), None);
}

#[test]
fn tar_run_time_is_exact() {
    assert_eq!(parse_tar_run_time("HARM43_V1_P1_2023111422.tar"), Some(1700000000 - 800));
    assert_eq!(parse_tar_run_time("HARM43_V1_P1_2024022900.tar"), Some(1709164800));
    assert_eq!(parse_tar_run_time("HARM43_V1_P1_2023022900.tar"), None);
    assert_eq!(parse_tar_run_time("HARM43_V1_P1_2023111422.zip"), None);
    assert_eq!(parse_tar_run_time("HARM43_V1_P2_2023111422.tar"), None);
    assert_eq!(parse_tar_run_time("HARM43_V1_P1_202311142.tar"), None);
}

#[test]
fn reference_time_needs_one_since_and_two_words() {
    assert_eq!(parse_reference_time("minutes since 1970-01-01 00:00:00"), Some(0));
    assert_eq!(parse_reference_time("seconds since 2023-11-14 22:13:20.5"), Some(1700000000));
    assert_eq!(parse_reference_time("seconds since 2023-11-14"), None);
    assert_eq!(parse_reference_time("since since 2023-11-14 22:13:20"), None);
    assert_eq!(parse_reference_time("seconds since 2023-11-14 22:13:2"), None);
    assert_eq!(parse_reference_time("seconds since 2023-13-14 22:13:20"), None);
}

#[test]
fn rtcor_timestamp_ignores_directories() {
    assert_eq!(
        parse_rtcor_filename_timestamp("/data/cache/RAD_NL25_RAC_MFBS_EM_202311142210.h5"),
        Some(1700000000 - 200)
    );
    assert_eq!(parse_rtcor_timestamp("202311142210.h5"), Some(1700000000 - 200));
    assert_eq!(parse_rtcor_filename_timestamp("RAD_NL25_RAC_RT_20231114221a.h5"), None);
    assert_eq!(parse_rtcor_filename_timestamp("RAD_NL25_RAC_RT_202311142210.h5/.."), None);
}

#[test]
fn forecast_hour_stays_in_three_characters() {
    assert_eq!(parse_forecast_hour_from_name("a_b_c_-99x"), Some(-99));
    assert_eq!(parse_forecast_hour_from_name("a_b_c_999"), Some(999));
    assert_eq!(parse_forecast_hour_from_name("a_b_c_99"), None);
    assert_eq!(parse_forecast_hour_from_name("a_b_c_\u{e9}\u{e9}"), None);
    assert_eq!(parse_forecast_hour_from_name("a_b_c"), None);
}
