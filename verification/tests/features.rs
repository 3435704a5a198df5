use cell_kmeans::features::{assemble_features, normalize_features, FEATURES, MEAN_SCALE, UNIT};
use cell_kmeans::pixels::ChannelMean;

#[test]
fn a_constant_column_normalises_to_zero() {
    let raw = vec![vec![7, 1], vec![7, 2], vec![7, 3]];
    let out = normalize_features(&raw);
    assert_eq!(out[0][0], 0);
    assert_eq!(out[1][0], 0);
    assert_eq!(out[2][0], 0);
}

#[test]
fn the_smallest_value_maps_to_zero_and_the_largest_to_one() {
    let raw = vec![vec![0, 5], vec![10, 5], vec![5, 5], vec![10, 5], vec![0, 5]];
    let out = normalize_features(&raw);
    assert_eq!(
        out,
        vec![vec![0, 0], vec![UNIT, 0], vec![UNIT / 2, 0], vec![UNIT, 0], vec![0, 0]]
    );
    assert_eq!(out[1][0] as f64 / UNIT as f64, 1.0);
    assert_eq!(out[0][0] as f64 / UNIT as f64, 0.0);
}

#[test]
fn normalised_values_are_rounded_down() {
    let raw = vec![vec![0], vec![3], vec![1], vec![2]];
    assert_eq!(
        normalize_features(&raw),
        vec![vec![0], vec![1_000_000], vec![333_333], vec![666_666]]
    );
}

#[test]
fn columns_are_normalised_each_on_its_own() {
    let raw = vec![vec![-10, 1000, 3], vec![10, 2000, 3], vec![0, 1250, 3]];
    assert_eq!(
        normalize_features(&raw),
        vec![vec![0, 0, 0], vec![1_000_000, 1_000_000, 0], vec![500_000, 250_000, 0]]
    );
}

#[test]
fn normalisation_holds_at_the_ends_of_the_range() {
    let raw = vec![vec![i64::MIN], vec![i64::MAX], vec![0], vec![-1]];
    let out = normalize_features(&raw);
    assert_eq!(out[0], vec![0]);
    assert_eq!(out[1], vec![1_000_000]);
    // (2^63 * 10^6) / (2^64 - 1) = 500000 and (2^63 - 1) * 10^6 / (2^64 - 1) = 499999.
    assert_eq!(out[2], vec![500_000]);
    assert_eq!(out[3], vec![499_999]);
}

#[test]
fn normalisation_keeps_the_shape_of_the_matrix() {
    assert_eq!(normalize_features(&vec![]), Vec::<Vec<i32>>::new());
    assert_eq!(normalize_features(&vec![vec![], vec![]]), vec![Vec::<i32>::new(), vec![]]);
    assert_eq!(normalize_features(&vec![vec![5, -5]]), vec![vec![0, 0]]);
    assert_eq!(UNIT, 1_000_000);
}

#[test]
fn features_are_assembled_row_by_row() {
    let centres = vec![(2, 2), (-11, 11)];
    let areas = vec![32u128, 8];
    let means = vec![
        ChannelMean { red: 61, green: 1, blue: 765, denominator: 3 },
        ChannelMean { red: 0, green: 0, blue: 0, denominator: 1 },
    ];
    let shares = vec![100u64, 156];
    assert_eq!(
        assemble_features(&centres, &areas, &means, &shares),
        Some(vec![vec![2, 2, 32, 20_333, 333, 255_000, 100], vec![-11, 11, 8, 0, 0, 0, 156]])
    );
    assert_eq!(FEATURES, 7);
    assert_eq!(MEAN_SCALE, 1000);
    assert_eq!(assemble_features(&vec![], &vec![], &vec![], &vec![]), Some(vec![]));
}

#[test]
fn features_are_refused_when_they_do_not_fit() {
    let mean = ChannelMean { red: 10, green: 10, blue: 10, denominator: 1 };
    let ok = |areas: Vec<u128>, means: Vec<ChannelMean>, shares: Vec<u64>| {
        assemble_features(&vec![(0, 0)], &areas, &means, &shares).is_some()
    };
    assert!(ok(vec![1], vec![mean], vec![1]));
    assert!(ok(vec![i64::MAX as u128], vec![mean], vec![i64::MAX as u64]));
    assert!(!ok(vec![i64::MAX as u128 + 1], vec![mean], vec![1]));
    assert!(!ok(vec![1], vec![mean], vec![i64::MAX as u64 + 1]));
    assert!(!ok(vec![1], vec![ChannelMean { denominator: 0, ..mean }], vec![1]));
    assert!(!ok(vec![1], vec![ChannelMean { red: 256, ..mean }], vec![1]));
    assert!(!ok(vec![1], vec![ChannelMean { denominator: u64::MAX as u128 + 1, ..mean }], vec![1]));
    assert!(ok(
        vec![1],
        vec![ChannelMean {
            red: 255 * u64::MAX as u128,
            green: 0,
            blue: 0,
            denominator: u64::MAX as u128
        }],
        vec![1]
    ));
    assert!(!ok(vec![], vec![mean], vec![1]));
    assert!(!ok(vec![1], vec![], vec![1]));
    assert!(!ok(vec![1], vec![mean], vec![]));
}
