use glam::Vec4;
use optimizers::lane_order;

/// Maps each coordinate into its bounds and packs them in lane order.
fn pack(values: &[f32], mins: &[f32], maxs: &[f32]) -> Vec<Vec4> {
    let order = lane_order(values.len());
    let lane = |i: usize| mins[i] + values[i] * (maxs[i] - mins[i]);
    order
        .chunks_exact(4)
        .map(|s| Vec4::new(lane(s[0]), lane(s[1]), lane(s[2]), lane(s[3])))
        .collect()
}

#[test]
fn one_group_layout() {
    assert_eq!(lane_order(8), vec![0, 2, 4, 6, 1, 3, 5, 7]);
}

#[test]
fn groups_follow_each_other() {
    assert_eq!(
        lane_order(16),
        vec![0, 2, 4, 6, 1, 3, 5, 7, 8, 10, 12, 14, 9, 11, 13, 15]
    );
}

#[test]
fn short_inputs_have_no_lanes() {
    assert!(lane_order(0).is_empty());
    assert!(lane_order(7).is_empty());
    assert_eq!(lane_order(10).len(), 8);
    assert_eq!(lane_order(23).len(), 16);
}

#[test]
fn test_zero_values_map_to_mins() {
    let values = vec![0.0_f32; 8];
    let mins = (0..8).map(|i| i as f32).collect::<Vec<f32>>();
    let maxs = (0..8).map(|i| (i as f32) + 10.0).collect::<Vec<f32>>();
    let out = pack(&values, &mins, &maxs);
    let expected_lo = Vec4::from_array([0.0, 1.0, 2.0, 3.0]);
    let expected_hi = Vec4::from_array([4.0, 5.0, 6.0, 7.0]);
    assert_eq!(out[0], Vec4::new(expected_lo.x, expected_lo.z, expected_hi.x, expected_hi.z));
    assert_eq!(out[1], Vec4::new(expected_lo.y, expected_lo.w, expected_hi.y, expected_hi.w));
}

#[test]
fn test_one_values_map_to_maxs() {
    let values = vec![1.0_f32; 8];
    let mins = (0..8).map(|i| i as f32).collect::<Vec<f32>>();
    let maxs = (0..8).map(|i| (i as f32) + 10.0).collect::<Vec<f32>>();
    let out = pack(&values, &mins, &maxs);
    let expected_lo = Vec4::from_array([10.0, 11.0, 12.0, 13.0]);
    let expected_hi = Vec4::from_array([14.0, 15.0, 16.0, 17.0]);
    assert_eq!(out[0], Vec4::new(expected_lo.x, expected_lo.z, expected_hi.x, expected_hi.z));
    assert_eq!(out[1], Vec4::new(expected_lo.y, expected_lo.w, expected_hi.y, expected_hi.w));
}

#[test]
fn test_half_values_map_to_midpoints() {
    let values = vec![0.5_f32; 8];
    let mins = (0..8).map(|i| i as f32).collect::<Vec<f32>>();
    let maxs = (0..8).map(|i| (i as f32) + 10.0).collect::<Vec<f32>>();
    let out = pack(&values, &mins, &maxs);
    let expected_lo = Vec4::from_array([5.0, 6.0, 7.0, 8.0]);
    let expected_hi = Vec4::from_array([9.0, 10.0, 11.0, 12.0]);
    assert_eq!(out[0], Vec4::new(expected_lo.x, expected_lo.z, expected_hi.x, expected_hi.z));
    assert_eq!(out[1], Vec4::new(expected_lo.y, expected_lo.w, expected_hi.y, expected_hi.w));
}

#[test]
fn test_even_odd_ordering() {
    let values = vec![0.0, 0.5, 0.0, 0.5, 0.0, 0.5, 0.0, 0.5];
    let mins = vec![0.0_f32; 8];
    let maxs = vec![10.0_f32; 8];
    let out = pack(&values, &mins, &maxs);
    let evens_expected = Vec4::new(0.0, 0.0, 0.0, 0.0);
    let odds_expected = Vec4::new(5.0, 5.0, 5.0, 5.0);
    assert_eq!(out[0], evens_expected);
    assert_eq!(out[1], odds_expected);
}

#[test]
fn test_ignores_remainder() {
    let values = vec![1.0_f32; 10];
    let mins = vec![0.0_f32; 10];
    let maxs = vec![2.0_f32; 10];
    let out = pack(&values, &mins, &maxs);
    assert_eq!(out.len(), 2);
    let expected_vec = Vec4::new(2.0, 2.0, 2.0, 2.0);
    assert_eq!(out[0], expected_vec);
    assert_eq!(out[1], expected_vec);
}

#[test]
fn test_fit_in_bounds_simd_empty() {
    let values: Vec<f32> = vec![];
    let mins: Vec<f32> = vec![];
    let maxs: Vec<f32> = vec![];
    let out = pack(&values, &mins, &maxs);
    assert!(out.is_empty());
}
