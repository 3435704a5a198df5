use cell_kmeans::features::normalize_features;
use cell_kmeans::hull::convex_hull;
use cell_kmeans::kmeans::{pick_items, run_lloyd, MAX_ITERATIONS};
use cell_kmeans::metrics::{calculate_centroids, doubled_area};
use cell_kmeans::outlines::parse_outlines;
use cell_kmeans::pixels::{channel_mean, load_segmentations_as_matrix, ChannelMean};
use cell_kmeans::raster::{image_as_matrix, Raster};
use cell_kmeans::voronoi::voronoi_areas;
use image::{Rgb, RgbImage};

#[test]
fn two_cells_on_a_uniform_image_fall_into_two_clusters() {
    let text = b"0,0,4,0,4,4,0,4\n10,10,12,10,12,12,10,12".to_vec();
    let outlines = parse_outlines(&text).unwrap();
    assert_eq!(outlines.len(), 2);

    let hulls = convex_hull(outlines.clone()).unwrap();
    let areas: Vec<u128> = hulls.iter().map(doubled_area).collect();
    assert_eq!(0.5 * areas[0] as f64, 16.0);
    assert_eq!(0.5 * areas[1] as f64, 4.0);

    let image = RgbImage::from_pixel(16, 16, Rgb([50, 100, 150]));
    let matrix = image_as_matrix(&Raster { image });
    let colours = load_segmentations_as_matrix(&matrix, &outlines).unwrap();
    let means = channel_mean(&colours);
    assert_eq!(means[0].red as f64 / means[0].denominator as f64, 50.0);
    assert_eq!(means[0].green as f64 / means[0].denominator as f64, 100.0);
    assert_eq!(means[0].blue as f64 / means[0].denominator as f64, 150.0);
    let as_floats = |m: &ChannelMean| {
        let n = m.denominator as f64;
        (m.red as f64 / n, m.green as f64 / n, m.blue as f64 / n)
    };
    assert_eq!(as_floats(&means[0]), as_floats(&means[1]));

    let centres: Vec<(i32, i32)> =
        calculate_centroids(&outlines).into_iter().map(|c| c.unwrap()).collect();
    assert_eq!(centres, vec![(2, 2), (11, 11)]);
    let shares = voronoi_areas(&centres, 16, 16);
    assert_eq!(shares.iter().sum::<u64>(), 256);

    let raw: Vec<Vec<i64>> = (0..2)
        .map(|i| {
            vec![
                centres[i].0 as i64,
                centres[i].1 as i64,
                areas[i] as i64,
                (means[i].red / means[i].denominator) as i64,
                (means[i].green / means[i].denominator) as i64,
                (means[i].blue / means[i].denominator) as i64,
                shares[i] as i64,
            ]
        })
        .collect();
    let features = normalize_features(&raw);
    assert_eq!(features[0][3..6], [0, 0, 0]);
    assert_eq!(features[1][3..6], [0, 0, 0]);

    let initial = pick_items(&features, &vec![0, 1]);
    let run = run_lloyd(&features, initial, MAX_ITERATIONS);
    assert_eq!(run.groups.len(), 2);
    assert!(!run.groups[0].is_empty());
    assert!(!run.groups[1].is_empty());
    assert_ne!(run.labels[0], run.labels[1]);
    assert_ne!(run.centroids[0], run.centroids[1]);
    assert!(run.converged);
}
