use std::sync::Arc;
use weer::cache::CacheError;
use weer::constants::{GRIB_HEIGHT, GRIB_WIDTH};
use weer::forecast::{
    ForecastStep, RainForecast, RainStep, SolarForecast, SolarStep, TempForecast, TempStep,
    WindForecast, WindStep,
};

#[test]
fn test_f02_04_temperature_conversion_and_step() {
    let step = TempStep {
        forecast_hour: 6,
        width: 10,
        height: 10,
        values: Arc::new(vec![2931u16; 100]),
    };
    assert_eq!(step.forecast_hour(), 6);
    let temp_c = step.values[0] as f64 / 10.0 - 273.15;
    assert!((temp_c - 19.95).abs() < 0.1);
}

#[test]
fn test_f02_05_wind_multi_height_levels() {
    let heights = [10u32, 50, 100, 200, 300];
    for &h in &heights {
        let step = WindStep {
            forecast_hour: 3,
            height_level: h,
            width: 10,
            height: 10,
            u_values: Arc::new(vec![10500u16; 100]),
            v_values: Arc::new(vec![10000u16; 100]),
        };
        assert_eq!(step.forecast_hour(), 3);
        assert_eq!(step.height_level, h);
    }
}

#[test]
fn test_f02_06_solar_and_rain_forecast_steps() {
    let solar_step = SolarStep {
        forecast_hour: 12,
        width: 10,
        height: 10,
        values: Arc::new(vec![750u16; 100]),
    };
    assert_eq!(solar_step.forecast_hour(), 12);
    assert_eq!(solar_step.values[0], 750);

    let rain_step = RainStep {
        forecast_hour: 24,
        width: 10,
        height: 10,
        values: Arc::new(vec![200u16; 100]),
    };
    assert_eq!(rain_step.forecast_hour(), 24);
    assert_eq!(rain_step.values[0], 200);
}

#[test]
fn test_t2_f02_subzero_freezing_temperature() {
    let raw_val = 2400u16;
    let temp_c = raw_val as f64 / 10.0 - 273.15;
    assert!((temp_c - (-33.15)).abs() < 1e-4);
}

#[test]
fn test_t2_f02_extreme_heatwave_temperature() {
    let raw_val = 3200u16;
    let temp_c = raw_val as f64 / 10.0 - 273.15;
    assert!((temp_c - 46.85).abs() < 1e-4);
}

#[test]
fn test_t2_f02_extreme_gale_wind_speed() {
    let u_raw = 16000u16;
    let v_raw = 14500u16;
    let u = u_raw as f64 / 100.0 - 100.0;
    let v = v_raw as f64 / 100.0 - 100.0;
    let speed = (u * u + v * v).sqrt();
    assert!((speed - 75.0).abs() < 1e-4);
}

#[test]
fn test_t2_f02_calm_zero_wind() {
    let u_raw = 10000u16;
    let v_raw = 10000u16;
    let u = u_raw as f64 / 100.0 - 100.0;
    let v = v_raw as f64 / 100.0 - 100.0;
    let speed = (u * u + v * v).sqrt();
    assert_eq!(speed, 0.0);
}

#[test]
fn test_t2_f02_solar_radiation_bounds() {
    let midnight_raw = 0u16;
    assert_eq!(midnight_raw as f64, 0.0);

    let solar_noon_raw = 1200u16;
    assert_eq!(solar_noon_raw as f64, 1200.0);
}

#[test]
fn test_f05_05_metadata_version_generation() {
    let ts_now = 1700000000u64;
    let version_str = format!("v={}", ts_now);
    assert_eq!(version_str, "v=1700000000");
}

fn header(magic: &[u8; 4], reference_time: i64, steps: u32) -> Vec<u8> {
    let mut b = magic.to_vec();
    b.extend_from_slice(&reference_time.to_le_bytes());
    b.extend_from_slice(&steps.to_le_bytes());
    b
}

fn grid_step_header(hour: i32, w: u32, h: u32) -> Vec<u8> {
    let mut b = hour.to_le_bytes().to_vec();
    b.extend_from_slice(&w.to_le_bytes());
    b.extend_from_slice(&h.to_le_bytes());
    b
}

fn cells() -> usize {
    GRIB_WIDTH * GRIB_HEIGHT
}

#[test]
fn temp_forecast_bytes_round_trip() {
    let mut values = vec![2850u16; cells()];
    values[1] = 65535;
    values[cells() - 1] = 1;
    let fc = TempForecast {
        reference_time: 1700000000,
        steps: vec![
            TempStep { forecast_hour: 5, width: GRIB_WIDTH, height: GRIB_HEIGHT, values: Arc::new(values.clone()) },
            TempStep { forecast_hour: -2, width: GRIB_WIDTH, height: GRIB_HEIGHT, values: Arc::new(vec![7; cells()]) },
        ],
    };
    let bytes = fc.to_bytes();
    assert_eq!(&bytes[0..4], b"HRMT");
    assert_eq!(bytes.len(), 16 + 2 * (12 + 2 * cells()));
    assert_eq!(&bytes[16..20], &5i32.to_le_bytes());
    assert_eq!(&bytes[28..30], &2850u16.to_le_bytes());
    let loaded = TempForecast::from_bytes(&bytes).ok().expect("round trip");
    assert_eq!(loaded.reference_time, 1700000000);
    assert_eq!(loaded.steps.len(), 2);
    assert_eq!(loaded.steps[0].forecast_hour, 5);
    assert_eq!(*loaded.steps[0].values, values);
    assert_eq!(loaded.steps[1].forecast_hour, -2);
    assert_eq!(loaded.steps[1].values[0], 7);
}

#[test]
fn wind_forecast_bytes_round_trip() {
    let fc = WindForecast {
        reference_time: -5,
        steps: vec![WindStep {
            forecast_hour: 2,
            height_level: 100,
            width: GRIB_WIDTH,
            height: GRIB_HEIGHT,
            u_values: Arc::new(vec![11000u16; cells()]),
            v_values: Arc::new(vec![9500u16; cells()]),
        }],
    };
    let bytes = fc.to_bytes();
    assert_eq!(&bytes[0..4], b"HRW2");
    let loaded = WindForecast::from_bytes(&bytes).ok().expect("round trip");
    assert_eq!(loaded.reference_time, -5);
    assert_eq!(loaded.steps.len(), 1);
    assert_eq!(loaded.steps[0].height_level, 100);
    assert_eq!(loaded.steps[0].u_values[0], 11000);
    assert_eq!(loaded.steps[0].v_values[0], 9500);
}

#[test]
fn solar_and_rain_bytes_round_trip() {
    let solar = SolarForecast {
        reference_time: 1700000000,
        steps: vec![SolarStep { forecast_hour: 14, width: GRIB_WIDTH, height: GRIB_HEIGHT, values: Arc::new(vec![850; cells()]) }],
    };
    let bytes = solar.to_bytes();
    assert_eq!(&bytes[0..4], b"HRMS");
    let loaded = SolarForecast::from_bytes(&bytes).ok().expect("round trip");
    assert_eq!(loaded.steps[0].forecast_hour, 14);
    assert_eq!(loaded.steps[0].values[0], 850);

    let rain = RainForecast {
        reference_time: 1700000000,
        steps: vec![RainStep { forecast_hour: 18, width: GRIB_WIDTH, height: GRIB_HEIGHT, values: Arc::new(vec![150; cells()]) }],
    };
    let mut bytes = rain.to_bytes();
    assert_eq!(&bytes[0..4], b"HRMR");
    bytes.extend_from_slice(b"trailing bytes are ignored");
    let loaded = RainForecast::from_bytes(&bytes).ok().expect("round trip");
    assert_eq!(loaded.steps[0].forecast_hour, 18);
    assert_eq!(loaded.steps[0].values[0], 150);
}

#[test]
fn test_stress_binary_cache_steps_len_boundaries_temp() {
    let empty = TempForecast::from_bytes(&header(b"HRMT", 1700000000, 0)).ok().expect("empty run");
    assert_eq!(empty.steps.len(), 0);
    assert_eq!(empty.reference_time, 1700000000);
    assert!(matches!(TempForecast::from_bytes(&header(b"HRMT", 1700000000, 1000)), Err(CacheError::UnexpectedEof)));
    for n in [1001u32, 0x7FFF_FFFF, 0xFFFF_FFFF] {
        let err = TempForecast::from_bytes(&header(b"HRMT", 1700000000, n)).err().unwrap();
        assert_eq!(err, CacheError::TooManySteps(n));
        assert!(err.message().contains("exceeds maximum limit"));
    }
}

#[test]
fn test_stress_binary_cache_steps_len_boundaries_wind() {
    let empty = WindForecast::from_bytes(&header(b"HRW2", 1700000000, 0)).ok().expect("empty run");
    assert_eq!(empty.steps.len(), 0);
    assert!(WindForecast::from_bytes(&header(b"HRW2", 1700000000, 1000)).is_err());
    for n in [1001u32, 0x7FFF_FFFF, 0xFFFF_FFFF] {
        let err = WindForecast::from_bytes(&header(b"HRW2", 1700000000, n)).err().unwrap();
        assert!(err.message().contains("exceeds maximum limit"));
    }
}

#[test]
fn test_stress_binary_cache_steps_len_boundaries_solar_and_rain() {
    assert!(SolarForecast::from_bytes(&header(b"HRMS", 1700000000, 0)).is_ok());
    let solar_err = SolarForecast::from_bytes(&header(b"HRMS", 1700000000, 1001)).err().unwrap();
    assert!(solar_err.message().contains("exceeds maximum limit"));
    assert!(RainForecast::from_bytes(&header(b"HRMR", 1700000000, 0)).is_ok());
    let rain_err = RainForecast::from_bytes(&header(b"HRMR", 1700000000, 0xFFFF_FFFF)).err().unwrap();
    assert!(rain_err.message().contains("exceeds maximum limit"));
}

#[test]
fn test_stress_binary_cache_corrupted_magic_and_truncated_files() {
    assert!(matches!(TempForecast::from_bytes(&[]), Err(CacheError::UnexpectedEof)));
    assert!(WindForecast::from_bytes(&[]).is_err());
    assert!(SolarForecast::from_bytes(&[]).is_err());
    assert!(RainForecast::from_bytes(&[]).is_err());
    for len in 1..=3 {
        assert!(matches!(TempForecast::from_bytes(&vec![b'H'; len]), Err(CacheError::UnexpectedEof)));
    }
    let err = TempForecast::from_bytes(&header(b"BADD", 1700000000, 1)).err().unwrap();
    assert_eq!(err, CacheError::InvalidMagic);
    assert!(err.message().contains("Invalid magic bytes"));
    // A temperature file is not a wind file.
    assert_eq!(WindForecast::from_bytes(&header(b"HRMT", 0, 0)).err(), Some(CacheError::InvalidMagic));
    assert!(matches!(TempForecast::from_bytes(b"HRMT12345"), Err(CacheError::UnexpectedEof)));
    assert!(matches!(TempForecast::from_bytes(&header(b"HRMT", 0, 1)), Err(CacheError::UnexpectedEof)));

    let mut bad_dim = header(b"HRMT", 1700000000, 1);
    bad_dim.extend(grid_step_header(0, 999, 999));
    let dim_err = TempForecast::from_bytes(&bad_dim).err().unwrap();
    assert_eq!(dim_err, CacheError::InvalidDimensions(999, 999));
    assert!(dim_err.message().contains("Invalid grid dimensions"));

    let mut trunc = header(b"HRMT", 1700000000, 1);
    trunc.extend(grid_step_header(0, GRIB_WIDTH as u32, GRIB_HEIGHT as u32));
    trunc.extend_from_slice(&[0u8; 100]);
    assert!(matches!(TempForecast::from_bytes(&trunc), Err(CacheError::UnexpectedEof)));
}

#[test]
fn wind_step_dimensions_come_after_the_level() {
    let mut b = header(b"HRW2", 0, 1);
    b.extend_from_slice(&3i32.to_le_bytes());
    b.extend_from_slice(&10u32.to_le_bytes());
    b.extend_from_slice(&390u32.to_le_bytes());
    b.extend_from_slice(&391u32.to_le_bytes());
    assert_eq!(WindForecast::from_bytes(&b).err(), Some(CacheError::InvalidDimensions(390, 391)));
}

// The cache files hold exactly the bytes of `to_bytes`, and are read back
// with `from_bytes`.

#[test]
fn test_f04_01_temp_forecast_binary_roundtrip() {
    let step = TempStep {
        forecast_hour: 5,
        width: GRIB_WIDTH,
        height: GRIB_HEIGHT,
        values: Arc::new(vec![2850u16; GRIB_WIDTH * GRIB_HEIGHT]),
    };
    let fc = TempForecast { reference_time: 1700000000, steps: vec![step] };
    let loaded = TempForecast::from_bytes(&fc.to_bytes()).expect("Failed to read temp binary");
    assert_eq!(loaded.reference_time, 1700000000);
    assert_eq!(loaded.steps.len(), 1);
    assert_eq!(loaded.steps[0].forecast_hour, 5);
    assert_eq!(loaded.steps[0].values[0], 2850);
}

#[test]
fn test_f04_02_wind_forecast_binary_roundtrip() {
    let step = WindStep {
        forecast_hour: 2,
        height_level: 100,
        width: GRIB_WIDTH,
        height: GRIB_HEIGHT,
        u_values: Arc::new(vec![11000u16; GRIB_WIDTH * GRIB_HEIGHT]),
        v_values: Arc::new(vec![9500u16; GRIB_WIDTH * GRIB_HEIGHT]),
    };
    let fc = WindForecast { reference_time: 1700000000, steps: vec![step] };
    let loaded = WindForecast::from_bytes(&fc.to_bytes()).expect("Failed to read wind binary");
    assert_eq!(loaded.reference_time, 1700000000);
    assert_eq!(loaded.steps.len(), 1);
    assert_eq!(loaded.steps[0].height_level, 100);
    assert_eq!(loaded.steps[0].u_values[0], 11000);
    assert_eq!(loaded.steps[0].v_values[0], 9500);
}

#[test]
fn test_f04_03_solar_forecast_binary_roundtrip() {
    let step = SolarStep {
        forecast_hour: 14,
        width: GRIB_WIDTH,
        height: GRIB_HEIGHT,
        values: Arc::new(vec![850u16; GRIB_WIDTH * GRIB_HEIGHT]),
    };
    let fc = SolarForecast { reference_time: 1700000000, steps: vec![step] };
    let loaded = SolarForecast::from_bytes(&fc.to_bytes()).expect("Failed to read solar binary");
    assert_eq!(loaded.reference_time, 1700000000);
    assert_eq!(loaded.steps.len(), 1);
    assert_eq!(loaded.steps[0].forecast_hour, 14);
    assert_eq!(loaded.steps[0].values[0], 850);
}

#[test]
fn test_f04_04_rain_forecast_binary_roundtrip() {
    let step = RainStep {
        forecast_hour: 18,
        width: GRIB_WIDTH,
        height: GRIB_HEIGHT,
        values: Arc::new(vec![150u16; GRIB_WIDTH * GRIB_HEIGHT]),
    };
    let fc = RainForecast { reference_time: 1700000000, steps: vec![step] };
    let loaded = RainForecast::from_bytes(&fc.to_bytes()).expect("Failed to read rain binary");
    assert_eq!(loaded.reference_time, 1700000000);
    assert_eq!(loaded.steps.len(), 1);
    assert_eq!(loaded.steps[0].forecast_hour, 18);
    assert_eq!(loaded.steps[0].values[0], 150);
}

#[test]
fn test_f04_05_binary_cache_magic_byte_validation() {
    let bytes = b"XXXX_bogus_payload_data";
    assert!(TempForecast::from_bytes(bytes).is_err());
    assert!(WindForecast::from_bytes(bytes).is_err());
    assert!(SolarForecast::from_bytes(bytes).is_err());
    assert!(RainForecast::from_bytes(bytes).is_err());
}

#[test]
fn test_t2_f04_oversized_steps_len_rejection() {
    let mut buf = Vec::new();
    buf.extend_from_slice(b"HRMT");
    buf.extend_from_slice(&1700000000i64.to_le_bytes());
    buf.extend_from_slice(&100_000_000u32.to_le_bytes());
    assert!(TempForecast::from_bytes(&buf).is_err());
}

#[test]
fn test_t2_f04_truncated_payload_unexpected_eof() {
    let mut buf = Vec::new();
    buf.extend_from_slice(b"HRW2");
    buf.extend_from_slice(&1700000000i64.to_le_bytes());
    buf.extend_from_slice(&2u32.to_le_bytes());
    buf.extend_from_slice(&1i32.to_le_bytes());
    assert!(WindForecast::from_bytes(&buf).is_err());
}

#[test]
fn test_t2_f04_invalid_grid_dimensions_header() {
    let mut buf = Vec::new();
    buf.extend_from_slice(b"HRMS");
    buf.extend_from_slice(&1700000000i64.to_le_bytes());
    buf.extend_from_slice(&1u32.to_le_bytes());
    buf.extend_from_slice(&0i32.to_le_bytes());
    buf.extend_from_slice(&9999u32.to_le_bytes());
    buf.extend_from_slice(&9999u32.to_le_bytes());
    assert!(SolarForecast::from_bytes(&buf).is_err());
}

#[test]
fn test_t2_f04_zero_steps_len_forecast() {
    let fc = RainForecast { reference_time: 1700000000, steps: Vec::new() };
    let loaded = RainForecast::from_bytes(&fc.to_bytes()).expect("Read failed");
    assert_eq!(loaded.steps.len(), 0);
}

#[test]
fn test_t3_13_corrupted_binary_cache_fallback_resilience() {
    let bytes = b"CORRUPTED_GARBAGE_PAYLOAD";
    assert!(TempForecast::from_bytes(bytes).is_err());
    assert!(WindForecast::from_bytes(bytes).is_err());
}
