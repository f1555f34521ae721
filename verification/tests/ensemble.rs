use weer::pmm::pmm_grid;
use weer::constants::{NODATA, RAIN_THRESHOLD};
use weer::models::{reduce_ensemble, EnsembleStat};
use weer::stats::{
    cell_probability, cell_statistics, ensemble_statistics, member_masks, nep_probability_grid,
    reduce_grid, statistic_grid, window_at_time, window_probability, CellStats,
};

#[test]
fn test_f01_01_ensemble_stat_from_str() {
    assert!(matches!(EnsembleStat::from_str("med"), Some(EnsembleStat::Median)));
    assert!(matches!(EnsembleStat::from_str("max"), Some(EnsembleStat::Maximum)));
    assert!(matches!(EnsembleStat::from_str("prob"), Some(EnsembleStat::Probability)));
    assert!(matches!(EnsembleStat::from_str("spread"), Some(EnsembleStat::Spread)));
    assert!(matches!(EnsembleStat::from_str("pmm"), Some(EnsembleStat::Pmm)));
    assert!(EnsembleStat::from_str("invalid_stat").is_none());
    assert!(EnsembleStat::from_str("").is_none());
}

#[test]
fn test_f01_02_ensemble_median_reduction() {
    let mut vals_odd = [100, 300, 200];
    assert_eq!(reduce_ensemble(&EnsembleStat::Median, &mut vals_odd), 200);

    let mut vals_even = [500, 100, 400, 200];
    assert_eq!(reduce_ensemble(&EnsembleStat::Median, &mut vals_even), 400);

    let mut vals_same = [250, 250, 250, 250, 250];
    assert_eq!(reduce_ensemble(&EnsembleStat::Median, &mut vals_same), 250);
}

#[test]
fn test_f01_03_ensemble_maximum_reduction() {
    let mut vals1 = [10, 50, 20, 80, 30];
    assert_eq!(reduce_ensemble(&EnsembleStat::Maximum, &mut vals1), 80);

    let mut vals_with_nodata = [50, 120, NODATA, 30];
    assert_eq!(reduce_ensemble(&EnsembleStat::Maximum, &mut vals_with_nodata), 120);

    let mut vals_all_zeros = [0, 0, 0];
    assert_eq!(reduce_ensemble(&EnsembleStat::Maximum, &mut vals_all_zeros), 0);
}

#[test]
fn test_f01_04_ensemble_probability_reduction() {
    let mut vals = [
        RAIN_THRESHOLD - 2,
        RAIN_THRESHOLD,
        RAIN_THRESHOLD + 5,
        100,
        0,
    ];
    assert_eq!(reduce_ensemble(&EnsembleStat::Probability, &mut vals), 60);

    let mut vals_none = [0, 1, 2, 3, 4];
    assert_eq!(reduce_ensemble(&EnsembleStat::Probability, &mut vals_none), 0);

    let mut vals_all = [RAIN_THRESHOLD, RAIN_THRESHOLD + 10, RAIN_THRESHOLD + 20, 50];
    assert_eq!(reduce_ensemble(&EnsembleStat::Probability, &mut vals_all), 100);
}

#[test]
fn test_f01_05_ensemble_spread_reduction() {
    let mut vals = [100, 200, 300];
    assert_eq!(reduce_ensemble(&EnsembleStat::Spread, &mut vals), 82);

    let mut vals_identical = [400, 400, 400, 400];
    assert_eq!(reduce_ensemble(&EnsembleStat::Spread, &mut vals_identical), 0);
}

#[test]
fn test_f06_01_empty_ensemble_returns_nodata() {
    let mut empty_vals: [u16; 0] = [];
    assert_eq!(reduce_ensemble(&EnsembleStat::Median, &mut empty_vals), NODATA);
    assert_eq!(reduce_ensemble(&EnsembleStat::Maximum, &mut empty_vals), NODATA);
    assert_eq!(reduce_ensemble(&EnsembleStat::Probability, &mut empty_vals), NODATA);
    assert_eq!(reduce_ensemble(&EnsembleStat::Spread, &mut empty_vals), NODATA);
}

#[test]
fn test_f06_02_first_nodata_returns_nodata() {
    let mut vals = [NODATA, 50, 100, 200];
    assert_eq!(reduce_ensemble(&EnsembleStat::Median, &mut vals), NODATA);
    assert_eq!(reduce_ensemble(&EnsembleStat::Maximum, &mut vals), NODATA);
    assert_eq!(reduce_ensemble(&EnsembleStat::Probability, &mut vals), NODATA);
    assert_eq!(reduce_ensemble(&EnsembleStat::Spread, &mut vals), NODATA);
}

#[test]
fn test_t2_f01_single_member_reduction() {
    let mut vals = [350u16];
    assert_eq!(reduce_ensemble(&EnsembleStat::Median, &mut vals), 350);
    assert_eq!(reduce_ensemble(&EnsembleStat::Maximum, &mut vals), 350);
    assert_eq!(reduce_ensemble(&EnsembleStat::Spread, &mut vals), 0);
    assert_eq!(reduce_ensemble(&EnsembleStat::Probability, &mut vals), 100);
}

#[test]
fn test_t2_f01_all_nodata_interspersed() {
    let mut vals = [NODATA, NODATA, NODATA];
    assert_eq!(reduce_ensemble(&EnsembleStat::Median, &mut vals), NODATA);
    assert_eq!(reduce_ensemble(&EnsembleStat::Maximum, &mut vals), NODATA);
    assert_eq!(reduce_ensemble(&EnsembleStat::Spread, &mut vals), NODATA);
    assert_eq!(reduce_ensemble(&EnsembleStat::Probability, &mut vals), NODATA);
}

#[test]
fn test_t2_f01_max_u16_saturation() {
    let mut vals = [65534, 65534, 65534];
    assert_eq!(reduce_ensemble(&EnsembleStat::Maximum, &mut vals), 65534);
    assert_eq!(reduce_ensemble(&EnsembleStat::Median, &mut vals), 65534);
    assert_eq!(reduce_ensemble(&EnsembleStat::Spread, &mut vals), 0);
}

#[test]
fn test_t2_f01_probability_threshold_boundary() {
    let mut vals_below = [RAIN_THRESHOLD - 1; 10];
    assert_eq!(reduce_ensemble(&EnsembleStat::Probability, &mut vals_below), 0);

    let mut vals_exact = [RAIN_THRESHOLD; 10];
    assert_eq!(reduce_ensemble(&EnsembleStat::Probability, &mut vals_exact), 100);
}

#[test]
fn test_t2_f01_spread_with_single_valid_member() {
    let mut vals = [500, NODATA, NODATA];
    assert_eq!(reduce_ensemble(&EnsembleStat::Spread, &mut vals), 0);
}

#[test]
fn test_stress_pmm_reduction_member_counts_and_extremes() {
    let mut empty_vals: [u16; 0] = [];
    assert_eq!(reduce_ensemble(&EnsembleStat::Pmm, &mut empty_vals), NODATA);

    assert_eq!(reduce_ensemble(&EnsembleStat::Pmm, &mut [0]), 0);
    assert_eq!(reduce_ensemble(&EnsembleStat::Pmm, &mut [5000]), 5000);
    assert_eq!(reduce_ensemble(&EnsembleStat::Pmm, &mut [65534]), 65534);

    assert_eq!(reduce_ensemble(&EnsembleStat::Pmm, &mut [NODATA]), NODATA);

    let mut all_nodata = [NODATA; 20];
    assert_eq!(reduce_ensemble(&EnsembleStat::Pmm, &mut all_nodata), NODATA);

    let mut first_nodata = [NODATA; 20];
    first_nodata[1] = 500;
    first_nodata[2] = 1000;
    assert_eq!(
        reduce_ensemble(&EnsembleStat::Pmm, &mut first_nodata),
        NODATA
    );

    let mut mixed = [NODATA; 20];
    mixed[0] = 100;
    mixed[2] = 200;
    mixed[4] = 300;
    assert_eq!(reduce_ensemble(&EnsembleStat::Pmm, &mut mixed), 200);

    let mut extreme_vals = [65534u16; 20];
    assert_eq!(
        reduce_ensemble(&EnsembleStat::Pmm, &mut extreme_vals),
        65534
    );

    let mut alt_vals = [0u16; 20];
    for i in (0..20).step_by(2) {
        alt_vals[i] = 65534;
    }
    assert_eq!(reduce_ensemble(&EnsembleStat::Pmm, &mut alt_vals), 32767);
}

#[test]
fn test_stress_all_ensemble_stats_with_adversarial_slices() {
    let stats = [
        EnsembleStat::Median,
        EnsembleStat::Maximum,
        EnsembleStat::Probability,
        EnsembleStat::Spread,
        EnsembleStat::Pmm,
    ];

    for stat in &stats {
        let mut empty: [u16; 0] = [];
        assert_eq!(reduce_ensemble(stat, &mut empty), NODATA);

        let mut single_valid = [1500u16];
        let res_single = reduce_ensemble(stat, &mut single_valid);
        assert_ne!(res_single, NODATA);

        let mut single_nodata = [NODATA];
        assert_eq!(reduce_ensemble(stat, &mut single_nodata), NODATA);

        let mut all_nd = [NODATA; 20];
        assert_eq!(reduce_ensemble(stat, &mut all_nd), NODATA);

        let mut first_nd = [NODATA, 50, 100, 150];
        assert_eq!(reduce_ensemble(stat, &mut first_nd), NODATA);

        let mut max_vals = [65534u16; 20];
        let _ = reduce_ensemble(stat, &mut max_vals);
    }
}

#[test]
fn test_t3_06_pmm_reduction_under_extreme_spatial_gradients() {
    let member1 = [0u16, 5000, 0];
    let member2 = [0u16, 4000, 0];
    let member3 = [0u16, 6000, 0];

    let med_center = reduce_ensemble(
        &EnsembleStat::Median,
        &mut [member1[1], member2[1], member3[1]],
    );
    assert_eq!(med_center, 5000);

    let max_center = reduce_ensemble(
        &EnsembleStat::Maximum,
        &mut [member1[1], member2[1], member3[1]],
    );
    assert_eq!(max_center, 6000);
}

#[test]
fn test_reduce_ensemble_large_member_count() {
    let mut vals: Vec<u16> = (1..=50).collect();
    let med = reduce_ensemble(&EnsembleStat::Median, &mut vals);
    assert_eq!(med, 26);
    let max = reduce_ensemble(&EnsembleStat::Maximum, &mut vals);
    assert_eq!(max, 50);
}

#[test]
fn median_sorts_members_in_place() {
    let mut vals = [30u16, NODATA, 10, 20];
    assert_eq!(reduce_ensemble(&EnsembleStat::Median, &mut vals), 30);
    assert_eq!(vals, [10, 20, 30, NODATA]);
}

#[test]
fn other_statistics_leave_members_untouched() {
    let mut vals = [30u16, 10, 20];
    reduce_ensemble(&EnsembleStat::Maximum, &mut vals);
    reduce_ensemble(&EnsembleStat::Spread, &mut vals);
    reduce_ensemble(&EnsembleStat::Pmm, &mut vals);
    reduce_ensemble(&EnsembleStat::Probability, &mut vals);
    assert_eq!(vals, [30, 10, 20]);
}

#[test]
fn spread_rounds_to_nearest() {
    // Values 0 and 3: mean 1.5, variance 2.25, standard deviation 1.5 -> 2.
    let mut vals = [0u16, 3];
    assert_eq!(reduce_ensemble(&EnsembleStat::Spread, &mut vals), 2);
    // Values 0 and 65534: standard deviation 32767.
    let mut wide = [0u16, 65534];
    assert_eq!(reduce_ensemble(&EnsembleStat::Spread, &mut wide), 32767);
}

#[test]
fn pmm_mean_rounds_half_up() {
    let mut vals = [1u16, 2];
    assert_eq!(reduce_ensemble(&EnsembleStat::Pmm, &mut vals), 2);
    let mut vals3 = [1u16, 1, 2];
    assert_eq!(reduce_ensemble(&EnsembleStat::Pmm, &mut vals3), 1);
}

#[test]
fn probability_counts_nodata_members_in_the_total() {
    let mut vals = [RAIN_THRESHOLD, NODATA, NODATA, 0];
    assert_eq!(reduce_ensemble(&EnsembleStat::Probability, &mut vals), 25);
}

#[test]
fn cell_statistics_use_valid_members_only() {
    let vals = [40u16, NODATA, 10, 30, 20];
    let near = [true, true, false, true, false];
    let s = cell_statistics(&vals, &near);
    assert_eq!(
        s,
        CellStats { median: 30, maximum: 40, probability: 50, spread: 11 }
    );
}

#[test]
fn cell_statistics_missing_cell() {
    let vals = [NODATA, 10, 20];
    let near = [true, true, true];
    let s = cell_statistics(&vals, &near);
    assert_eq!(
        s,
        CellStats { median: NODATA, maximum: NODATA, probability: NODATA, spread: NODATA }
    );
    assert_eq!(cell_probability(&vals, &near), NODATA);
}

#[test]
fn cell_probability_rounds_down() {
    let vals = [5u16, 5, 5];
    let near = [true, false, false];
    assert_eq!(cell_probability(&vals, &near), 33);
}

#[test]
fn grids_follow_member_major_layout() {
    // Two members, three cells: member 0 = [10, NODATA, 0], member 1 = [30, 5, 0].
    let all = [10u16, NODATA, 0, 30, 5, 0];
    let masks = member_masks(&all, 2, 1, 3, 1);
    assert_eq!(masks, vec![vec![true, true, false], vec![true, true, false]]);
    let g = ensemble_statistics(&all, 2, 3, &masks);
    assert_eq!(g.median, vec![30, NODATA, 0]);
    assert_eq!(g.maximum, vec![30, NODATA, 0]);
    assert_eq!(g.probability, vec![100, NODATA, 0]);
    assert_eq!(g.spread, vec![10, NODATA, 0]);
    assert_eq!(nep_probability_grid(&all, 2, 3, &masks), vec![100, NODATA, 0]);
    assert_eq!(reduce_grid(&EnsembleStat::Maximum, &all, 2, 3), vec![30, NODATA, 0]);
    assert_eq!(reduce_grid(&EnsembleStat::Pmm, &all, 2, 3), vec![20, NODATA, 0]);
}

#[test]
fn pmm_grid_matches_ranked_blocks() {
    // Member 0 = [10, 30, NODATA], member 1 = [20, NODATA, 5].
    let all = [10u16, 30, NODATA, 20, NODATA, 5];
    // Cell means 15 and 30; pool [10, 20, 30] cut into blocks [10] and [20, 30].
    assert_eq!(pmm_grid(&all, 2, 3), vec![10, 25, NODATA]);
}

#[test]
fn pmm_grid_ties_rank_by_index() {
    // One member, cells with values 7, 3, 7, 1: ranks by value, then index.
    let all = [7u16, 3, 7, 1];
    assert_eq!(pmm_grid(&all, 1, 4), vec![7, 3, 7, 1]);
    // Two members with the same mean in both cells: the pool is split in order.
    let all2 = [0u16, 10, 10, 0];
    assert_eq!(pmm_grid(&all2, 2, 2), vec![0, 10]);
}

#[test]
fn pmm_grid_without_valid_cells() {
    assert_eq!(pmm_grid(&[NODATA, NODATA], 1, 2), vec![NODATA, NODATA]);
    assert_eq!(pmm_grid(&[], 0, 3), vec![NODATA, NODATA, NODATA]);
}

#[test]
fn window_at_time_takes_one_run_per_member() {
    // Two members, two times, three cells: member, time, cell.
    let block = [1u16, 2, 3, 4, 5, 6, 7, 8, 9, 10, 11, 12];
    assert_eq!(window_at_time(&block, 2, 2, 3, 0), vec![1, 2, 3, 7, 8, 9]);
    assert_eq!(window_at_time(&block, 2, 2, 3, 1), vec![4, 5, 6, 10, 11, 12]);
    assert_eq!(window_at_time(&block, 0, 2, 3, 1), Vec::<u16>::new());
}

#[test]
fn window_probability_counts_valid_centres_with_rain_near() {
    let m0 = [0u16, 0, 0, 20, 0, 0, 0, 0, 0];
    let m1 = [50u16, 0, 0, 0, 5, 0, 0, 0, 0];
    let m2 = [0u16, 0, 0, 0, NODATA, 30, 0, 0, 0];
    let mut window = Vec::new();
    window.extend_from_slice(&m0);
    window.extend_from_slice(&m1);
    window.extend_from_slice(&m2);
    // Radius 1: member 0 has rain beside the centre, member 1 only diagonally.
    assert_eq!(window_probability(&window, 3, 3, 3, 1, 1, 1), 50);
    // Radius 2 reaches the diagonal as well.
    assert_eq!(window_probability(&window, 3, 3, 3, 1, 1, 2), 100);
    // No valid centre at all.
    assert_eq!(window_probability(&m2, 1, 3, 3, 1, 1, 1), NODATA);
}

#[test]
fn pmm_grid_follows_the_order_of_the_means() {
    // Member 0 = [5, 40, 0, 20], member 1 = [15, 60, 2, 20]: means 10, 50, 1, 20.
    let all = [5u16, 40, 0, 20, 15, 60, 2, 20];
    let out = pmm_grid(&all, 2, 4);
    // Pool [0, 2, 5, 15, 20, 20, 40, 60] in blocks of two, by rank of the mean.
    assert_eq!(out, vec![10, 50, 1, 20]);
    assert!(out[2] <= out[0] && out[0] <= out[3] && out[3] <= out[1]);
}

#[test]
fn statistic_grid_dispatches_by_statistic() {
    // Two members of a 3 x 1 grid: member 0 = [10, NODATA, 0], member 1 = [30, 5, 0].
    let all = [10u16, NODATA, 0, 30, 5, 0];
    assert_eq!(statistic_grid(&EnsembleStat::Maximum, &all, 2, 3, 1), vec![30, NODATA, 0]);
    assert_eq!(statistic_grid(&EnsembleStat::Median, &all, 2, 3, 1), vec![30, NODATA, 0]);
    // Both members rain within the radius of every cell; the second cell is missing.
    assert_eq!(statistic_grid(&EnsembleStat::Probability, &all, 2, 3, 1), vec![100, NODATA, 100]);
    assert_eq!(statistic_grid(&EnsembleStat::Pmm, &all, 2, 3, 1), pmm_grid(&all, 2, 3));
}

#[test]
fn statistics_agree_with_reduction_on_full_cells() {
    // Three members, two cells, every value present.
    let all = [10u16, 0, 40, 7, 25, 7];
    let masks = member_masks(&all, 3, 0, 2, 1);
    let g = ensemble_statistics(&all, 3, 2, &masks);
    for i in 0..2 {
        let vals: Vec<u16> = (0..3).map(|e| all[e * 2 + i]).collect();
        assert_eq!(g.median[i], reduce_ensemble(&EnsembleStat::Median, &mut vals.clone()));
        assert_eq!(g.maximum[i], reduce_ensemble(&EnsembleStat::Maximum, &mut vals.clone()));
        assert_eq!(g.spread[i], reduce_ensemble(&EnsembleStat::Spread, &mut vals.clone()));
    }
    // A cell whose first member is missing is missing in every statistic.
    let gap = [NODATA, 3, 9, 4];
    let gm = member_masks(&gap, 2, 0, 2, 1);
    let gs = ensemble_statistics(&gap, 2, 2, &gm);
    assert_eq!((gs.median[0], gs.maximum[0], gs.probability[0], gs.spread[0]), (NODATA, NODATA, NODATA, NODATA));
}

#[test]
fn pmm_values_stay_within_the_pool() {
    let all = [3u16, 90, NODATA, 12, 50, 1, NODATA, 7, 8];
    let out = pmm_grid(&all, 3, 3);
    let pool: Vec<u16> = all.iter().copied().filter(|&v| v != NODATA).collect();
    let lo = *pool.iter().min().unwrap();
    let hi = *pool.iter().max().unwrap();
    for (i, &v) in out.iter().enumerate() {
        if all[i] == NODATA {
            assert_eq!(v, NODATA);
        } else {
            assert!(v != NODATA && lo <= v && v <= hi);
        }
    }
}
