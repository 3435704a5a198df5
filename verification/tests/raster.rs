use cell_kmeans::pixels::Point;
use cell_kmeans::raster::{
    fixed_color, image_as_matrix, label_colors, render_clustered_image, Raster, FIXED_COLORS,
};
use image::{Rgb, RgbImage};
use rand::rngs::StdRng;
use rand::SeedableRng;

#[test]
fn image_as_matrix_reads_row_by_row() {
    let mut image = RgbImage::new(3, 2);
    for y in 0..2u32 {
        for x in 0..3u32 {
            image.put_pixel(x, y, Rgb([x as u8, y as u8, (10 * y + x) as u8]));
        }
    }
    let matrix = image_as_matrix(&Raster { image });
    assert_eq!(
        matrix,
        vec![
            vec![Point(0, 0, 0), Point(1, 0, 1), Point(2, 0, 2)],
            vec![Point(0, 1, 10), Point(1, 1, 11), Point(2, 1, 12)],
        ]
    );
}

#[test]
fn image_as_matrix_of_an_empty_image() {
    assert_eq!(image_as_matrix(&Raster { image: RgbImage::new(0, 0) }), Vec::<Vec<Point>>::new());
    assert_eq!(
        image_as_matrix(&Raster { image: RgbImage::new(0, 2) }),
        vec![Vec::<Point>::new(), vec![]]
    );
    assert_eq!(image_as_matrix(&Raster { image: RgbImage::new(2, 0) }), Vec::<Vec<Point>>::new());
}

#[test]
fn rendering_paints_each_pixel_in_the_colour_of_its_label() {
    let labels = vec![vec![0, 1, 2], vec![1, 1, 0]];
    let colors = vec![Point(255, 0, 0), Point(0, 255, 0), Point(0, 0, 255)];
    let raster = render_clustered_image(&labels, &colors, 3, 2);
    assert_eq!(raster.image.dimensions(), (3, 2));
    assert_eq!(raster.image.get_pixel(0, 0), &Rgb([255, 0, 0]));
    assert_eq!(raster.image.get_pixel(1, 0), &Rgb([0, 255, 0]));
    assert_eq!(raster.image.get_pixel(2, 0), &Rgb([0, 0, 255]));
    assert_eq!(raster.image.get_pixel(0, 1), &Rgb([0, 255, 0]));
    assert_eq!(raster.image.get_pixel(1, 1), &Rgb([0, 255, 0]));
    assert_eq!(raster.image.get_pixel(2, 1), &Rgb([255, 0, 0]));
}

#[test]
fn rendering_falls_back_to_grey_and_black() {
    let labels = vec![vec![0, 5], vec![1]];
    let colors = vec![Point(9, 9, 9), Point(7, 7, 7)];
    let raster = render_clustered_image(&labels, &colors, 3, 3);
    assert_eq!(raster.image.get_pixel(0, 0), &Rgb([9, 9, 9]));
    assert_eq!(raster.image.get_pixel(1, 0), &Rgb([30, 30, 30]));
    assert_eq!(raster.image.get_pixel(2, 0), &Rgb([0, 0, 0]));
    assert_eq!(raster.image.get_pixel(0, 1), &Rgb([7, 7, 7]));
    assert_eq!(raster.image.get_pixel(1, 1), &Rgb([0, 0, 0]));
    assert_eq!(raster.image.get_pixel(0, 2), &Rgb([0, 0, 0]));
    assert_eq!(raster.image.get_pixel(2, 2), &Rgb([0, 0, 0]));
    let grey = render_clustered_image(&vec![vec![0]], &vec![], 1, 1);
    assert_eq!(grey.image.get_pixel(0, 0), &Rgb([30, 30, 30]));
}

#[test]
fn rendering_round_trips_through_the_matrix() {
    let labels = vec![vec![1, 0], vec![0, 1], vec![1, 1]];
    let colors = vec![Point(1, 2, 3), Point(4, 5, 6)];
    let raster = render_clustered_image(&labels, &colors, 2, 3);
    assert_eq!(
        image_as_matrix(&raster),
        vec![
            vec![Point(4, 5, 6), Point(1, 2, 3)],
            vec![Point(1, 2, 3), Point(4, 5, 6)],
            vec![Point(4, 5, 6), Point(4, 5, 6)],
        ]
    );
}

#[test]
fn rendering_an_empty_image() {
    let raster = render_clustered_image(&vec![vec![0]], &vec![Point(1, 1, 1)], 0, 0);
    assert_eq!(raster.image.dimensions(), (0, 0));
}

#[test]
fn the_palette_starts_with_fifteen_fixed_colours() {
    let mut rng = StdRng::seed_from_u64(5);
    let colors = label_colors(20, &mut rng);
    assert_eq!(colors.len(), 20);
    let fixed = [
        (255, 0, 0), (0, 255, 0), (0, 0, 255), (255, 255, 0), (0, 255, 255), (255, 0, 255),
        (192, 192, 192), (128, 0, 0), (128, 128, 0), (0, 128, 0), (128, 0, 128), (0, 128, 128),
        (255, 165, 0), (255, 192, 203), (75, 0, 130),
    ];
    assert_eq!(FIXED_COLORS, 15);
    for (i, &(r, g, b)) in fixed.iter().enumerate() {
        assert_eq!(colors[i], Point(r, g, b));
        assert_eq!(fixed_color(i), Point(r, g, b));
    }
}

#[test]
fn a_short_palette_is_a_prefix_of_the_fixed_colours() {
    let mut rng = StdRng::seed_from_u64(5);
    assert_eq!(label_colors(0, &mut rng), Vec::<Point>::new());
    assert_eq!(label_colors(2, &mut rng), vec![Point(255, 0, 0), Point(0, 255, 0)]);
}

#[test]
fn colours_past_the_fixed_ones_are_drawn_from_the_source() {
    let mut first = StdRng::seed_from_u64(11);
    let mut second = StdRng::seed_from_u64(11);
    let a = label_colors(40, &mut first);
    let b = label_colors(40, &mut second);
    assert_eq!(a, b);
    // Twenty-five colours of three random bytes each are not all the same.
    assert!(a[15..].iter().any(|c| *c != a[15]));
}
