use weer::harmonie::{
    classify_grib_field, is_grib_entry, next_reference_time, resolve_forecast_hour, stable_order,
    wind_sort_key, GribField,
};

#[test]
fn grib_fields() {
    assert_eq!(classify_grib_field(11, 105, 2), GribField::Temperature);
    assert_eq!(classify_grib_field(11, 105, 0), GribField::Other);
    assert_eq!(classify_grib_field(117, 105, 0), GribField::Solar);
    assert_eq!(classify_grib_field(61, 105, 0), GribField::Rain);
    assert_eq!(classify_grib_field(33, 105, 100), GribField::WindU(100));
    assert_eq!(classify_grib_field(34, 105, 300), GribField::WindV(300));
    assert_eq!(classify_grib_field(33, 105, 20), GribField::Other);
    assert_eq!(classify_grib_field(33, 1, 100), GribField::Other);
}

#[test]
fn grib_entries() {
    assert!(is_grib_entry("HA43_N20_202311142200_00300_GB"));
    assert!(!is_grib_entry("HA43_N20_202311142200_00300.txt"));
    assert!(!is_grib_entry("_G"));
}

#[test]
fn forecast_hours() {
    assert_eq!(resolve_forecast_hour(Some(3), &[Some(7)]), 3);
    assert_eq!(resolve_forecast_hour(None, &[None, Some(0), Some(6), Some(9)]), 6);
    assert_eq!(resolve_forecast_hour(Some(0), &[]), 0);
}

#[test]
fn reference_times() {
    assert_eq!(next_reference_time(5, "HA40_NWP_202311142200_00300_GB"), 5);
    assert_eq!(next_reference_time(0, "HA40_NWP_202311142200_00300_GB"), 1699999200);
    assert_eq!(next_reference_time(0, "readme"), 0);
}

#[test]
fn stable_orders() {
    assert_eq!(stable_order(&[3, 1, 2, 1, 3]), vec![1, 3, 2, 0, 4]);
    assert_eq!(stable_order(&[]), Vec::<usize>::new());
    let keys = [wind_sort_key(3, 100), wind_sort_key(0, 300), wind_sort_key(3, 10)];
    assert_eq!(stable_order(&keys), vec![1, 2, 0]);
}
