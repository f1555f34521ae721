use weer::constants::{NODATA, RAIN_THRESHOLD};
use weer::mask::{compute_dilated_mask, compute_dilated_mask_with_dims};

#[test]
fn test_f01_06_nep_mask_dilation_circular() {
    let w = 10;
    let h = 10;
    let mut data = vec![0u16; w * h];
    data[5 * w + 5] = RAIN_THRESHOLD + 10;

    let mask_r1 = compute_dilated_mask_with_dims(&data, 1, w, h);
    assert!(mask_r1[5 * w + 5]);
    assert!(mask_r1[5 * w + 4]);
    assert!(mask_r1[5 * w + 6]);
    assert!(mask_r1[4 * w + 5]);
    assert!(mask_r1[6 * w + 5]);
    assert!(!mask_r1[4 * w + 4]);

    let mask_r2 = compute_dilated_mask_with_dims(&data, 2, w, h);
    assert!(mask_r2[4 * w + 4]);
    assert!(mask_r2[3 * w + 5]);
    assert!(!mask_r2[2 * w + 5]);
}

#[test]
fn test_t2_f01_dilated_mask_zero_radius() {
    let w = 5;
    let h = 5;
    let mut data = vec![0u16; w * h];
    data[2 * w + 2] = RAIN_THRESHOLD + 5;

    let mask = compute_dilated_mask_with_dims(&data, 0, w, h);
    assert!(mask[2 * w + 2]);
    assert!(!mask[2 * w + 1]);
    assert!(!mask[2 * w + 3]);
}

#[test]
fn test_t2_f01_dilated_mask_huge_radius() {
    let w = 4;
    let h = 4;
    let mut data = vec![0u16; w * h];
    data[0] = RAIN_THRESHOLD + 50;

    let mask = compute_dilated_mask_with_dims(&data, 100, w, h);
    for &m in &mask {
        assert!(m);
    }
}

#[test]
fn test_dilated_mask_empty() {
    let width = 5;
    let height = 5;
    let data = vec![0u16; width * height];
    let mask = compute_dilated_mask_with_dims(&data, 1, width, height);
    assert_eq!(mask, vec![false; width * height]);
}

#[test]
fn test_dilated_mask_below_threshold() {
    let width = 5;
    let height = 5;
    let mut data = vec![0u16; width * height];
    data[12] = RAIN_THRESHOLD - 1;
    let mask = compute_dilated_mask_with_dims(&data, 1, width, height);
    assert_eq!(mask, vec![false; width * height]);
}

#[test]
fn test_dilated_mask_nodata() {
    let width = 5;
    let height = 5;
    let mut data = vec![0u16; width * height];
    data[12] = NODATA;
    let mask = compute_dilated_mask_with_dims(&data, 1, width, height);
    assert_eq!(mask, vec![false; width * height]);
}

#[test]
fn test_dilated_mask_single_point() {
    let width = 5;
    let height = 5;
    let mut data = vec![0u16; width * height];
    data[12] = RAIN_THRESHOLD;
    let mask = compute_dilated_mask_with_dims(&data, 1, width, height);

    let mut expected = vec![false; width * height];
    expected[12] = true;
    expected[7] = true;
    expected[17] = true;
    expected[11] = true;
    expected[13] = true;

    assert_eq!(mask, expected);
}

#[test]
fn test_dilated_mask_single_point_radius_2() {
    let width = 5;
    let height = 5;
    let mut data = vec![0u16; width * height];
    data[12] = RAIN_THRESHOLD;
    let mask = compute_dilated_mask_with_dims(&data, 2, width, height);

    let mut expected = vec![false; width * height];
    for dy in -2..=2i32 {
        for dx in -2..=2i32 {
            if dx * dx + dy * dy <= 4 {
                let nx = 2 + dx;
                let ny = 2 + dy;
                if (0..5).contains(&nx) && (0..5).contains(&ny) {
                    expected[ny as usize * 5 + nx as usize] = true;
                }
            }
        }
    }

    assert_eq!(mask, expected);
}

#[test]
fn test_dilated_mask_boundaries() {
    let width = 5;
    let height = 5;
    let mut data = vec![0u16; width * height];
    data[0] = RAIN_THRESHOLD;
    let mask = compute_dilated_mask_with_dims(&data, 1, width, height);

    let mut expected = vec![false; width * height];
    expected[0] = true;
    expected[1] = true;
    expected[5] = true;

    assert_eq!(mask, expected);
}

#[test]
fn test_dilated_mask_overlap() {
    let width = 5;
    let height = 5;
    let mut data = vec![0u16; width * height];
    data[6] = RAIN_THRESHOLD;
    data[8] = RAIN_THRESHOLD;
    let mask = compute_dilated_mask_with_dims(&data, 1, width, height);

    let mut expected = vec![false; width * height];
    for &(dx, dy) in &[(0, 0), (1, 0), (-1, 0), (0, 1), (0, -1)] {
        let nx = 1 + dx;
        let ny = 1 + dy;
        expected[ny as usize * width + nx as usize] = true;
    }
    for &(dx, dy) in &[(0, 0), (1, 0), (-1, 0), (0, 1), (0, -1)] {
        let nx = 3 + dx;
        let ny = 1 + dy;
        expected[ny as usize * width + nx as usize] = true;
    }

    assert_eq!(mask, expected);
    assert!(expected[7]);
}

#[test]
fn forecast_grid_mask_marks_neighbourhood() {
    let mut data = vec![0u16; 780 * 780];
    data[100 * 780 + 200] = 500;
    let mask = compute_dilated_mask(&data, 10);
    assert_eq!(mask.len(), 780 * 780);
    assert!(mask[100 * 780 + 210]);
    assert!(mask[106 * 780 + 208]);
    assert!(!mask[107 * 780 + 208]);
    assert!(!mask[100 * 780 + 211]);
    assert_eq!(mask.iter().filter(|&&m| m).count(), 317);
}
