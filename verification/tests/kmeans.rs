use cell_kmeans::kmeans::{
    dimension_of, get_centroids, get_labels, initialize_centroids, kmeans, nearest_centroid,
    offset_from, pick_items, random_point, run_lloyd, same_centroids, should_stop, InitPolicy,
    KMeansError, MAX_ITERATIONS,
};
use cell_kmeans::vector::{copy_vector, distance_squared, equals, mean};
use rand::rngs::StdRng;
use rand::SeedableRng;

#[test]
fn distance_squared_of_a_three_four_five_triangle() {
    assert_eq!(distance_squared(&vec![0, 0], &vec![3, 4]), 25);
    assert_eq!(distance_squared(&vec![3, 4], &vec![0, 0]), 25);
    assert_eq!(distance_squared(&vec![1, -2, 3], &vec![1, -2, 3]), 0);
    assert_eq!(distance_squared(&vec![], &vec![]), 0);
}

#[test]
fn distance_squared_at_the_ends_of_the_range() {
    let span = (i32::MAX as i128 - i32::MIN as i128) as u128;
    assert_eq!(distance_squared(&vec![i32::MIN], &vec![i32::MAX]), span * span);
    assert_eq!(
        distance_squared(&vec![i32::MIN, i32::MAX, 0], &vec![i32::MAX, i32::MIN, 1]),
        2 * span * span + 1
    );
}

#[test]
fn equals_compares_every_coordinate() {
    assert!(equals(&vec![1, 2, 3], &vec![1, 2, 3]));
    assert!(!equals(&vec![1, 2, 3], &vec![1, 2, 4]));
    assert!(!equals(&vec![1, 2], &vec![1, 2, 3]));
    assert!(equals(&vec![], &vec![]));
}

#[test]
fn nearest_centroid_breaks_ties_by_the_lowest_position() {
    let centroids = vec![vec![4, 0], vec![0, 4], vec![0, 0], vec![-4, 0]];
    assert_eq!(nearest_centroid(&vec![0, 0], &centroids), 2);
    assert_eq!(nearest_centroid(&vec![2, 2], &centroids), 0);
    assert_eq!(nearest_centroid(&vec![-1, 3], &centroids), 1);
    assert_eq!(nearest_centroid(&vec![-2, 0], &centroids), 2);
    assert_eq!(nearest_centroid(&vec![-3, 0], &centroids), 3);
}

#[test]
fn get_labels_gives_labels_and_groups() {
    let items = vec![vec![0], vec![11], vec![1], vec![10], vec![5]];
    let centroids = vec![vec![0], vec![10]];
    let (labels, groups) = get_labels(&items, &centroids);
    assert_eq!(labels, vec![0, 1, 0, 1, 0]);
    assert_eq!(groups, vec![vec![0, 2, 4], vec![1, 3]]);
}

#[test]
fn get_labels_leaves_far_centroids_without_members() {
    let items = vec![vec![0, 0], vec![1, 1]];
    let centroids = vec![vec![100, 100], vec![0, 1], vec![50, 50]];
    let (labels, groups) = get_labels(&items, &centroids);
    assert_eq!(labels, vec![1, 1]);
    assert_eq!(groups, vec![vec![], vec![0, 1], vec![]]);
    let (labels, groups) = get_labels(&vec![], &centroids);
    assert_eq!(labels, Vec::<usize>::new());
    assert_eq!(groups, vec![Vec::<usize>::new(), vec![], vec![]]);
}

#[test]
fn get_centroids_takes_the_mean_rounded_down() {
    let items = vec![vec![1, 10], vec![2, 20], vec![4, 40], vec![-3, 0], vec![-4, -1]];
    let groups = vec![vec![0, 1, 2], vec![3, 4]];
    let previous = vec![vec![0, 0], vec![9, 9]];
    // 7 / 3 = 2, 70 / 3 = 23; -7 / 2 rounds down to -4, -1 / 2 rounds down to -1.
    assert_eq!(get_centroids(&items, &groups, &previous), vec![vec![2, 23], vec![-4, -1]]);
}

#[test]
fn get_centroids_keeps_a_centroid_without_members() {
    let items = vec![vec![2, 2], vec![4, 6]];
    let groups = vec![vec![], vec![0, 1], vec![]];
    let previous = vec![vec![7, -7], vec![0, 0], vec![i32::MIN, i32::MAX]];
    assert_eq!(
        get_centroids(&items, &groups, &previous),
        vec![vec![7, -7], vec![3, 4], vec![i32::MIN, i32::MAX]]
    );
}

#[test]
fn get_centroids_at_the_ends_of_the_range() {
    let items = vec![vec![i32::MAX], vec![i32::MAX], vec![i32::MIN], vec![i32::MIN]];
    let groups = vec![vec![0, 1], vec![2, 3], vec![0, 2]];
    let previous = vec![vec![0], vec![0], vec![0]];
    assert_eq!(
        get_centroids(&items, &groups, &previous),
        vec![vec![i32::MAX], vec![i32::MIN], vec![-1]]
    );
}

#[test]
fn should_stop_on_the_cap_or_on_unmoved_centroids() {
    let a = vec![vec![1, 2], vec![3, 4]];
    let b = vec![vec![1, 2], vec![3, 5]];
    assert!(!should_stop(&a, &b, 0, MAX_ITERATIONS));
    assert!(!should_stop(&a, &b, 1000, MAX_ITERATIONS));
    assert!(should_stop(&a, &b, 1001, MAX_ITERATIONS));
    assert!(should_stop(&a, &a.clone(), 0, MAX_ITERATIONS));
    assert!(!should_stop(&vec![], &a, 0, MAX_ITERATIONS));
    assert!(should_stop(&a, &b, 1, 0));
    assert_eq!(MAX_ITERATIONS, 1000);
}

#[test]
fn same_centroids_compares_in_order() {
    let a = vec![vec![1, 2], vec![3, 4]];
    assert!(same_centroids(&a, &vec![vec![1, 2], vec![3, 4]]));
    assert!(!same_centroids(&a, &vec![vec![3, 4], vec![1, 2]]));
    assert!(!same_centroids(&a, &vec![vec![1, 2]]));
    assert!(same_centroids(&vec![], &vec![]));
}

#[test]
fn run_lloyd_converges_on_two_groups() {
    let items = vec![vec![0], vec![2], vec![10], vec![12]];
    let run = run_lloyd(&items, vec![vec![0], vec![12]], MAX_ITERATIONS);
    assert_eq!(run.labels, vec![0, 0, 1, 1]);
    assert_eq!(run.groups, vec![vec![0, 1], vec![2, 3]]);
    assert_eq!(run.centroids, vec![vec![1], vec![11]]);
    assert_eq!(run.iterations, 2);
    assert!(run.converged);
}

#[test]
fn run_lloyd_moves_members_between_rounds() {
    // Round one splits {0} from {4, 5, 6}; the centroids move to 0 and 5 and stay.
    let items = vec![vec![0], vec![4], vec![5], vec![6]];
    let run = run_lloyd(&items, vec![vec![1], vec![3]], MAX_ITERATIONS);
    assert_eq!(run.labels, vec![0, 1, 1, 1]);
    assert_eq!(run.centroids, vec![vec![0], vec![5]]);
    assert_eq!(run.iterations, 2);
    assert!(run.converged);
}

#[test]
fn run_lloyd_stops_at_the_cap() {
    let items = vec![vec![0], vec![2], vec![10], vec![12]];
    let run = run_lloyd(&items, vec![vec![0], vec![12]], 1);
    assert_eq!(run.iterations, 1);
    assert!(!run.converged);
    assert_eq!(run.centroids, vec![vec![1], vec![11]]);
    assert_eq!(run.labels, vec![0, 0, 1, 1]);
}

#[test]
fn run_lloyd_with_a_cap_of_zero_only_assigns() {
    let items = vec![vec![0], vec![2], vec![10], vec![12]];
    let run = run_lloyd(&items, vec![vec![3], vec![4]], 0);
    assert_eq!(run.iterations, 0);
    assert!(!run.converged);
    assert_eq!(run.centroids, vec![vec![3], vec![4]]);
    assert_eq!(run.labels, vec![0, 0, 1, 1]);
    assert_eq!(run.groups, vec![vec![0, 1], vec![2, 3]]);
}

#[test]
fn run_lloyd_labels_belong_to_the_last_assignment() {
    // After one round the centroids are at 1 and 11, but the labels are
    // those of the assignment that the round made against 0 and 3.
    let items = vec![vec![0], vec![2], vec![10], vec![12]];
    let run = run_lloyd(&items, vec![vec![0], vec![3]], 1);
    assert_eq!(run.labels, vec![0, 1, 1, 1]);
    assert_eq!(run.centroids, vec![vec![0], vec![8]]);
    assert_eq!(run.iterations, 1);
}

#[test]
fn one_cluster_holds_every_item_at_their_mean() {
    let items = vec![vec![1, 2], vec![3, 4], vec![5, 9]];
    let run = run_lloyd(&items, vec![vec![1, 2]], MAX_ITERATIONS);
    assert_eq!(run.labels, vec![0, 0, 0]);
    assert_eq!(run.groups, vec![vec![0, 1, 2]]);
    assert_eq!(run.centroids, vec![vec![3, 5]]);
    assert_eq!(run.iterations, 2);
    assert!(run.converged);
}

#[test]
fn one_cluster_started_at_the_mean_takes_one_round() {
    let items = vec![vec![1, 2], vec![3, 4], vec![5, 9]];
    let run = run_lloyd(&items, vec![vec![3, 5]], MAX_ITERATIONS);
    assert_eq!(run.centroids, vec![vec![3, 5]]);
    assert_eq!(run.iterations, 1);
    assert!(run.converged);
}

#[test]
fn more_centroids_than_items_is_allowed() {
    let items = vec![vec![5, 5]];
    let run = run_lloyd(&items, vec![vec![0, 0], vec![9, 9], vec![5, 6]], 10);
    assert_eq!(run.labels, vec![2]);
    assert_eq!(run.groups, vec![vec![], vec![], vec![0]]);
    assert_eq!(run.centroids, vec![vec![0, 0], vec![9, 9], vec![5, 5]]);
    assert!(run.converged);
    assert_eq!(run.iterations, 2);
}

#[test]
fn kmeans_rejects_zero_clusters_first() {
    let mut rng = StdRng::seed_from_u64(1);
    let items = vec![vec![1], vec![2]];
    assert_eq!(
        kmeans(&items, 0, InitPolicy::SampleItems, 10, &mut rng).err(),
        Some(KMeansError::InvalidK)
    );
    assert_eq!(
        kmeans(&vec![], 0, InitPolicy::SampleItems, 10, &mut rng).err(),
        Some(KMeansError::InvalidK)
    );
}

#[test]
fn kmeans_rejects_no_items_and_mixed_dimensions() {
    let mut rng = StdRng::seed_from_u64(1);
    assert_eq!(
        kmeans(&vec![], 2, InitPolicy::WithinBounds, 10, &mut rng).err(),
        Some(KMeansError::NoItems)
    );
    let ragged = vec![vec![1, 2], vec![3]];
    assert_eq!(
        kmeans(&ragged, 2, InitPolicy::SampleItems, 10, &mut rng).err(),
        Some(KMeansError::MixedDimensions)
    );
}

#[test]
fn kmeans_partitions_the_items_under_either_policy() {
    let items = vec![
        vec![0, 0], vec![1, 0], vec![0, 1], vec![50, 50], vec![51, 50], vec![50, 51],
        vec![-40, 90], vec![-41, 91],
    ];
    for policy in [InitPolicy::SampleItems, InitPolicy::WithinBounds] {
        for seed in 0..20u64 {
            let mut rng = StdRng::seed_from_u64(seed);
            let run = kmeans(&items, 3, policy, MAX_ITERATIONS, &mut rng).unwrap();
            assert_eq!(run.labels.len(), items.len());
            assert_eq!(run.centroids.len(), 3);
            assert_eq!(run.groups.len(), 3);
            assert!(run.iterations <= MAX_ITERATIONS);
            assert!(run.iterations >= 1);
            let mut seen = vec![false; items.len()];
            for (c, group) in run.groups.iter().enumerate() {
                for &i in group {
                    assert_eq!(run.labels[i], c);
                    assert!(!seen[i]);
                    seen[i] = true;
                }
            }
            assert!(seen.iter().all(|&s| s));
            for (i, item) in items.iter().enumerate() {
                assert!(run.labels[i] < 3);
                assert_eq!(item.len(), run.centroids[run.labels[i]].len());
            }
        }
    }
}

#[test]
fn kmeans_is_reproducible_from_a_seed() {
    let items = vec![vec![0, 0], vec![9, 9], vec![1, 1], vec![8, 8], vec![20, 0]];
    let mut first = StdRng::seed_from_u64(42);
    let mut second = StdRng::seed_from_u64(42);
    let a = kmeans(&items, 2, InitPolicy::SampleItems, 50, &mut first).unwrap();
    let b = kmeans(&items, 2, InitPolicy::SampleItems, 50, &mut second).unwrap();
    assert_eq!(a.labels, b.labels);
    assert_eq!(a.centroids, b.centroids);
    assert_eq!(a.iterations, b.iterations);
}

#[test]
fn kmeans_ends_within_the_cap() {
    let items: Vec<Vec<i32>> = (0..200).map(|i| vec![(i * 37) % 101, (i * 53) % 89]).collect();
    for cap in [0usize, 1, 2, 3] {
        let mut rng = StdRng::seed_from_u64(7);
        let run = kmeans(&items, 9, InitPolicy::WithinBounds, cap, &mut rng).unwrap();
        assert!(run.iterations <= cap);
        assert!(run.converged || run.iterations == cap);
    }
}

#[test]
fn sampled_centroids_are_items() {
    let items = vec![vec![3, 1], vec![4, 1], vec![5, 9]];
    for seed in 0..50u64 {
        let mut rng = StdRng::seed_from_u64(seed);
        let centroids = initialize_centroids(&items, 7, InitPolicy::SampleItems, &mut rng);
        assert_eq!(centroids.len(), 7);
        for c in &centroids {
            assert!(items.contains(c));
        }
    }
}

#[test]
fn bounded_centroids_lie_within_the_items_bounds() {
    let items = vec![vec![-5, 100, 7], vec![5, 120, 7], vec![0, 90, 7]];
    let mut low = [i32::MAX; 3];
    let mut high = [i32::MIN; 3];
    for seed in 0..50u64 {
        let mut rng = StdRng::seed_from_u64(seed);
        let centroids = initialize_centroids(&items, 4, InitPolicy::WithinBounds, &mut rng);
        assert_eq!(centroids.len(), 4);
        for c in &centroids {
            assert_eq!(c.len(), 3);
            assert!(-5 <= c[0] && c[0] <= 5);
            assert!(90 <= c[1] && c[1] <= 120);
            assert_eq!(c[2], 7);
            for d in 0..3 {
                low[d] = low[d].min(c[d]);
                high[d] = high[d].max(c[d]);
            }
        }
    }
    // Over two hundred draws both ends of a range of eleven values come up.
    assert_eq!((low[0], high[0]), (-5, 5));
}

#[test]
fn random_point_covers_the_whole_range_of_a_coordinate() {
    let items = vec![vec![i32::MIN], vec![i32::MAX]];
    let mut rng = StdRng::seed_from_u64(3);
    let mut negative = false;
    let mut positive = false;
    for _ in 0..64 {
        let p = random_point(&items, &mut rng);
        assert_eq!(p.len(), 1);
        negative |= p[0] < 0;
        positive |= p[0] > 0;
    }
    assert!(negative && positive);
}

#[test]
fn zero_centroids_can_be_asked_of_the_seeding() {
    let items = vec![vec![1]];
    let mut rng = StdRng::seed_from_u64(0);
    assert_eq!(
        initialize_centroids(&items, 0, InitPolicy::SampleItems, &mut rng),
        Vec::<Vec<i32>>::new()
    );
}

#[test]
fn pick_items_copies_the_named_items() {
    let items = vec![vec![1, 1], vec![2, 2], vec![3, 3]];
    assert_eq!(pick_items(&items, &vec![2, 0, 2]), vec![vec![3, 3], vec![1, 1], vec![3, 3]]);
    assert_eq!(pick_items(&items, &vec![]), Vec::<Vec<i32>>::new());
}

#[test]
fn offset_from_adds_the_offset() {
    assert_eq!(offset_from(-5, 5, 0), -5);
    assert_eq!(offset_from(-5, 5, 10), 5);
    assert_eq!(offset_from(i32::MIN, i32::MAX, u32::MAX as u64), i32::MAX);
    assert_eq!(offset_from(7, 7, 0), 7);
}

#[test]
fn dimension_of_needs_items_of_one_length() {
    assert_eq!(dimension_of(&vec![vec![1, 2], vec![3, 4]]), Some(2));
    assert_eq!(dimension_of(&vec![vec![], vec![]]), Some(0));
    assert_eq!(dimension_of(&vec![vec![1, 2], vec![3]]), None);
    assert_eq!(dimension_of(&vec![]), None);
}

#[test]
fn mean_rounds_each_coordinate_down() {
    let items = vec![vec![1, -1], vec![2, -2], vec![4, -4], vec![100, 100]];
    assert_eq!(mean(&items, &vec![0, 1, 2], 2), vec![2, -3]);
    assert_eq!(mean(&items, &vec![3], 2), vec![100, 100]);
    assert_eq!(mean(&items, &vec![0, 0, 3], 2), vec![34, 32]);
    assert_eq!(mean(&vec![vec![], vec![]], &vec![0, 1], 0), Vec::<i32>::new());
}

#[test]
fn copy_vector_copies() {
    assert_eq!(copy_vector(&vec![3, -1, 4]), vec![3, -1, 4]);
    assert_eq!(copy_vector(&vec![]), Vec::<i32>::new());
}
