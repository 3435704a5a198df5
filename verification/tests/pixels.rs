use cell_kmeans::pixels::{
    channel_mean, load_segmentations_as_matrix, region_mean, region_mean_or_zero, ChannelMean,
    EmptyRegion, Image, OutsideImage, Point, DARK_BELOW,
};

#[test]
fn point_sum_adds_the_channels() {
    assert_eq!(Point(1, 2, 3).sum(), 6);
    assert_eq!(Point(255, 255, 255).sum(), 765);
    assert_eq!(Point(0, 0, 0).sum(), 0);
}

#[test]
fn point_from_an_array() {
    assert_eq!(Point::from([9, 8, 7]), Point(9, 8, 7));
}

#[test]
fn filter_image_blacks_out_dark_pixels() {
    let mut image = Image {
        x: 3,
        y: 2,
        img: vec![
            vec![Point(26, 26, 27), Point(26, 27, 27), Point(0, 0, 80)],
            vec![Point(79, 0, 0), Point(255, 255, 255), Point(0, 0, 0)],
        ],
    };
    image.filter_image();
    assert_eq!(
        image.img,
        vec![
            vec![Point(0, 0, 0), Point(26, 27, 27), Point(0, 0, 80)],
            vec![Point(0, 0, 0), Point(255, 255, 255), Point(0, 0, 0)],
        ]
    );
    assert_eq!((image.x, image.y), (3, 2));
    assert_eq!(DARK_BELOW, 80);
}

#[test]
fn filter_image_keeps_ragged_and_empty_rows() {
    let mut image = Image { x: 0, y: 0, img: vec![vec![], vec![Point(1, 1, 1)], vec![]] };
    image.filter_image();
    assert_eq!(image.img, vec![vec![], vec![Point(0, 0, 0)], vec![]]);
}

fn small_matrix() -> Vec<Vec<Point>> {
    vec![
        vec![Point(0, 0, 0), Point(1, 0, 0), Point(2, 0, 0)],
        vec![Point(0, 1, 0), Point(1, 1, 0), Point(2, 1, 0)],
    ]
}

#[test]
fn segmentations_read_row_y_column_x() {
    let outlines = vec![vec![(2, 0), (0, 1)], vec![], vec![(1, 1)]];
    assert_eq!(
        load_segmentations_as_matrix(&small_matrix(), &outlines),
        Ok(vec![vec![Point(2, 0, 0), Point(0, 1, 0)], vec![], vec![Point(1, 1, 0)]])
    );
}

#[test]
fn segmentations_name_the_first_point_outside_the_image() {
    let matrix = small_matrix();
    assert_eq!(
        load_segmentations_as_matrix(&matrix, &vec![vec![(0, 0)], vec![(1, 1), (3, 0), (-1, 0)]]),
        Err(OutsideImage { cell: 1, index: 1 })
    );
    assert_eq!(
        load_segmentations_as_matrix(&matrix, &vec![vec![(0, 2)]]),
        Err(OutsideImage { cell: 0, index: 0 })
    );
    assert_eq!(
        load_segmentations_as_matrix(&matrix, &vec![vec![(0, -1)]]),
        Err(OutsideImage { cell: 0, index: 0 })
    );
    assert_eq!(
        load_segmentations_as_matrix(&matrix, &vec![vec![(0, 0), (-1, 1)]]),
        Err(OutsideImage { cell: 0, index: 1 })
    );
    assert_eq!(
        load_segmentations_as_matrix(&vec![], &vec![vec![(0, 0)]]),
        Err(OutsideImage { cell: 0, index: 0 })
    );
}

#[test]
fn region_mean_is_sum_over_count() {
    let pixels = vec![Point(10, 0, 255), Point(20, 0, 255), Point(31, 1, 255)];
    let mean = region_mean(&pixels).unwrap();
    assert_eq!(mean, ChannelMean { red: 61, green: 1, blue: 765, denominator: 3 });
    assert_eq!(mean.blue as f64 / mean.denominator as f64, 255.0);
    assert_eq!(mean.red as f64 / mean.denominator as f64, 61.0 / 3.0);
}

#[test]
fn region_mean_fails_on_an_empty_region() {
    assert_eq!(region_mean(&vec![]), Err(EmptyRegion));
}

#[test]
fn an_empty_region_falls_back_to_zero_over_one() {
    let mean = region_mean_or_zero(&vec![]);
    assert_eq!(mean, ChannelMean { red: 0, green: 0, blue: 0, denominator: 1 });
    assert_eq!(mean.red as f64 / mean.denominator as f64, 0.0);
}

#[test]
fn channel_mean_maps_every_cell() {
    let cells = vec![vec![Point(2, 4, 6), Point(4, 8, 12)], vec![], vec![Point(255, 255, 255)]];
    assert_eq!(
        channel_mean(&cells),
        vec![
            ChannelMean { red: 6, green: 12, blue: 18, denominator: 2 },
            ChannelMean { red: 0, green: 0, blue: 0, denominator: 1 },
            ChannelMean { red: 255, green: 255, blue: 255, denominator: 1 },
        ]
    );
}
