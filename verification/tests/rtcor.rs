use weer::constants::{NODATA, RTCOR_GRID_H, RTCOR_GRID_W};
use weer::rtcor::{accumulation_to_rate, convert_rtcor_grid};

#[test]
fn accumulations_become_hourly_rates() {
    assert_eq!(accumulation_to_rate(0), 0);
    assert_eq!(accumulation_to_rate(25), 300);
    assert_eq!(accumulation_to_rate(5461), 65532);
    assert_eq!(accumulation_to_rate(5462), 65534);
    assert_eq!(accumulation_to_rate(65533), 65534);
    assert_eq!(accumulation_to_rate(65534), NODATA);
    assert_eq!(accumulation_to_rate(65535), NODATA);
}

#[test]
fn rows_are_flipped() {
    let mut raw = vec![0u16; RTCOR_GRID_W * RTCOR_GRID_H];
    raw[3] = 10; // top row, column 3
    raw[(RTCOR_GRID_H - 1) * RTCOR_GRID_W + 5] = 65534; // bottom row, column 5
    let out = convert_rtcor_grid(&raw);
    assert_eq!(out.len(), raw.len());
    assert_eq!(out[(RTCOR_GRID_H - 1) * RTCOR_GRID_W + 3], 120);
    assert_eq!(out[5], NODATA);
    assert_eq!(out[3], 0);
}
