use std::sync::Arc;
use weer::actuals::{ActualsData, ActualsFrame};
use weer::names::parse_reference_time;

#[test]
fn test_f03_02_rtcor_actuals_store_bounding() {
    let mut store = ActualsData::new();
    let max_frames = 5;

    for i in 0..10 {
        let frame = ActualsFrame {
            timestamp: 1000 + (i * 300),
            raw_values: Arc::new(vec![0u16; 10]),
            webp_bytes: vec![0u8; 10],
        };
        store.insert_or_update(frame, max_frames);
    }

    assert_eq!(store.frames.len(), max_frames);
    assert_eq!(store.frames[0].timestamp, 2500);
    assert_eq!(store.frames[4].timestamp, 3700);
}

#[test]
fn test_f03_03_rtcor_actuals_sorting_order() {
    let mut store = ActualsData::new();
    let timestamps = [3000, 1000, 5000, 2000, 4000];

    for &ts in &timestamps {
        let frame = ActualsFrame {
            timestamp: ts,
            raw_values: Arc::new(vec![0u16; 10]),
            webp_bytes: vec![0u8; 10],
        };
        store.insert_or_update(frame, 10);
    }

    assert_eq!(store.frames.len(), 5);
    for i in 0..4 {
        assert!(store.frames[i].timestamp < store.frames[i + 1].timestamp);
    }
}

#[test]
fn test_f03_04_rtcor_actuals_insert_or_update_in_place() {
    let mut store = ActualsData::new();
    let frame1 = ActualsFrame {
        timestamp: 1500,
        raw_values: Arc::new(vec![10u16; 10]),
        webp_bytes: vec![1u8; 10],
    };
    store.insert_or_update(frame1, 10);

    assert_eq!(store.frames[0].raw_values[0], 10);

    let frame1_updated = ActualsFrame {
        timestamp: 1500,
        raw_values: Arc::new(vec![99u16; 10]),
        webp_bytes: vec![2u8; 10],
    };
    store.insert_or_update(frame1_updated, 10);

    assert_eq!(store.frames.len(), 1);
    assert_eq!(store.frames[0].raw_values[0], 99);
}

#[test]
fn test_f05_04_forecast_and_actuals_time_merging() {
    let ref_str = "seconds since 2023-11-14 22:00:00";
    let ref_ts = parse_reference_time(ref_str).unwrap();

    let mut actuals = ActualsData::new();
    actuals.insert_or_update(
        ActualsFrame {
            timestamp: ref_ts - 600,
            raw_values: Arc::new(vec![0u16; 10]),
            webp_bytes: vec![0u8; 10],
        },
        10,
    );
    actuals.insert_or_update(
        ActualsFrame {
            timestamp: ref_ts - 300,
            raw_values: Arc::new(vec![0u16; 10]),
            webp_bytes: vec![0u8; 10],
        },
        10,
    );

    assert_eq!(actuals.frames.len(), 2);
    assert_eq!(actuals.frames[0].timestamp - ref_ts, -600);
    assert_eq!(actuals.frames[1].timestamp - ref_ts, -300);
}

#[test]
fn test_t2_f03_rtcor_max_history_overflow_100_frames() {
    let mut store = ActualsData::new();
    for i in 0..100 {
        let frame = ActualsFrame {
            timestamp: 10000 + i * 300,
            raw_values: Arc::new(vec![i as u16; 5]),
            webp_bytes: vec![0u8; 10],
        };
        store.insert_or_update(frame, 24);
    }
    assert_eq!(store.frames.len(), 24);
    assert_eq!(store.frames[0].timestamp, 10000 + 76 * 300);
    assert_eq!(store.frames[23].timestamp, 10000 + 99 * 300);
}

#[test]
fn test_t2_f03_rtcor_single_frame_capacity() {
    let mut store = ActualsData::new();
    for i in 0..5 {
        let frame = ActualsFrame {
            timestamp: 1000 + i * 300,
            raw_values: Arc::new(vec![i as u16]),
            webp_bytes: vec![0u8],
        };
        store.insert_or_update(frame, 1);
    }
    assert_eq!(store.frames.len(), 1);
    assert_eq!(store.frames[0].timestamp, 2200);
}

#[test]
fn test_t2_f03_rtcor_reverse_chronological_insert() {
    let mut store = ActualsData::new();
    for i in (0..10).rev() {
        let frame = ActualsFrame {
            timestamp: 1000 + i * 300,
            raw_values: Arc::new(vec![i as u16]),
            webp_bytes: vec![0u8],
        };
        store.insert_or_update(frame, 10);
    }
    assert_eq!(store.frames.len(), 10);
    for i in 0..9 {
        assert!(store.frames[i].timestamp < store.frames[i + 1].timestamp);
    }
}

#[test]
fn test_t2_f03_rtcor_idempotent_overwrite() {
    let mut store = ActualsData::new();
    for _ in 0..5 {
        let frame = ActualsFrame {
            timestamp: 5000,
            raw_values: Arc::new(vec![42u16]),
            webp_bytes: vec![0u8],
        };
        store.insert_or_update(frame, 10);
    }
    assert_eq!(store.frames.len(), 1);
    assert_eq!(store.frames[0].timestamp, 5000);
    assert_eq!(store.frames[0].raw_values[0], 42);
}

#[test]
fn test_actuals_store_retention_and_sorting() {
    let mut store = ActualsData::new();
    for i in (0..10).rev() {
        store.insert_or_update(
            ActualsFrame {
                timestamp: 1000 + (i * 300),
                raw_values: Arc::new(vec![i as u16]),
                webp_bytes: vec![1, 2, 3],
            },
            5,
        );
    }

    assert_eq!(store.frames.len(), 5);
    assert_eq!(store.frames[0].timestamp, 1000 + (5 * 300));
    assert_eq!(store.frames[4].timestamp, 1000 + (9 * 300));
    assert_eq!(*store.frames[4].raw_values, vec![9]);
}

#[test]
fn zero_capacity_keeps_nothing() {
    let mut store = ActualsData::new();
    store.insert_or_update(
        ActualsFrame { timestamp: 1, raw_values: Arc::new(vec![]), webp_bytes: vec![] },
        0,
    );
    assert!(store.frames.is_empty());
}

#[test]
fn older_frame_than_a_full_history_is_dropped() {
    let mut store = ActualsData::new();
    for ts in [200i64, 300, 400] {
        store.insert_or_update(
            ActualsFrame { timestamp: ts, raw_values: Arc::new(vec![]), webp_bytes: vec![] },
            3,
        );
    }
    store.insert_or_update(
        ActualsFrame { timestamp: 100, raw_values: Arc::new(vec![7]), webp_bytes: vec![] },
        3,
    );
    let ts: Vec<i64> = store.frames.iter().map(|f| f.timestamp).collect();
    assert_eq!(ts, vec![200, 300, 400]);
}

#[test]
fn backfill_batch_keeps_order_bound_and_origin() {
    let mut store = ActualsData::new();
    for ts in [600i64, 0, 1200] {
        store.insert_or_update(
            ActualsFrame { timestamp: ts, raw_values: Arc::new(vec![1u16]), webp_bytes: vec![1] },
            4,
        );
    }
    // A batch that re-fetches 600 and brings newer and older frames.
    for ts in [1800i64, 600, 2400, 300] {
        store.insert_or_update(
            ActualsFrame { timestamp: ts, raw_values: Arc::new(vec![2u16]), webp_bytes: vec![2] },
            4,
        );
    }
    let got: Vec<i64> = store.frames.iter().map(|f| f.timestamp).collect();
    assert_eq!(got, vec![600, 1200, 1800, 2400]);
    assert!(store.frames.len() <= 4);
    // The re-fetched frame replaced the old one; 1200 stays from before.
    assert_eq!(store.frames[0].raw_values[0], 2);
    assert_eq!(store.frames[1].raw_values[0], 1);
}
