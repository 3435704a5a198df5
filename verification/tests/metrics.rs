use cell_kmeans::metrics::{calculate_centroids, centroid, doubled_area, squared_edge_lengths};

fn area(points: &Vec<(i32, i32)>) -> f64 {
    0.5 * doubled_area(points) as f64
}

fn perimeter(points: &Vec<(i32, i32)>) -> f64 {
    squared_edge_lengths(points).iter().map(|&len2| (len2 as f64).sqrt()).sum()
}

#[test]
fn unit_square_has_area_one_and_perimeter_four() {
    let square = vec![(0, 0), (1, 0), (1, 1), (0, 1)];
    assert_eq!(doubled_area(&square), 2);
    assert_eq!(area(&square), 1.0);
    assert_eq!(squared_edge_lengths(&square), vec![1, 1, 1, 1]);
    assert_eq!(perimeter(&square), 4.0);
}

#[test]
fn area_of_a_triangle_with_a_half() {
    let triangle = vec![(0, 0), (3, 0), (0, 1)];
    assert_eq!(doubled_area(&triangle), 3);
    assert_eq!(area(&triangle), 1.5);
}

#[test]
fn area_does_not_depend_on_the_first_vertex_or_the_direction() {
    let polygon = vec![(0, 0), (5, 1), (9, 0), (10, 6), (6, 9), (2, 8), (-1, 4)];
    let expected = doubled_area(&polygon);
    assert_eq!(expected, 145);
    for k in 0..polygon.len() {
        let mut turned = polygon.clone();
        turned.rotate_left(k);
        assert_eq!(doubled_area(&turned), expected);
        turned.reverse();
        assert_eq!(doubled_area(&turned), expected);
    }
}

#[test]
fn area_of_fewer_than_three_vertices_is_zero() {
    assert_eq!(doubled_area(&vec![]), 0);
    assert_eq!(doubled_area(&vec![(3, 4)]), 0);
    assert_eq!(doubled_area(&vec![(3, 4), (-7, 9)]), 0);
}

#[test]
fn area_at_the_corners_of_the_plane() {
    let lo = i32::MIN;
    let hi = i32::MAX;
    let side = (hi as i128 - lo as i128) as u128;
    let square = vec![(lo, lo), (hi, lo), (hi, hi), (lo, hi)];
    assert_eq!(doubled_area(&square), 2 * side * side);
    assert_eq!(squared_edge_lengths(&square), vec![side * side; 4]);
}

#[test]
fn edges_close_the_polygon() {
    let triangle = vec![(0, 0), (3, 0), (3, 4)];
    assert_eq!(squared_edge_lengths(&triangle), vec![9, 16, 25]);
    assert_eq!(perimeter(&triangle), 12.0);
    assert_eq!(squared_edge_lengths(&vec![]), Vec::<u128>::new());
    assert_eq!(squared_edge_lengths(&vec![(2, 2)]), vec![0]);
    assert_eq!(squared_edge_lengths(&vec![(0, 0), (1, 1)]), vec![2, 2]);
}

#[test]
fn centroid_is_the_mean_of_the_vertices_rounded_down() {
    assert_eq!(centroid(&vec![(0, 0), (4, 0), (4, 4), (0, 4)]), Some((2, 2)));
    assert_eq!(centroid(&vec![(0, 0), (1, 0), (0, 1)]), Some((0, 0)));
    assert_eq!(centroid(&vec![(-1, -1), (-2, 0)]), Some((-2, -1)));
    assert_eq!(centroid(&vec![(i32::MAX, i32::MIN), (i32::MAX, i32::MIN)]), Some((i32::MAX, i32::MIN)));
    assert_eq!(centroid(&vec![]), None);
}

#[test]
fn calculate_centroids_maps_every_cell() {
    let cells = vec![vec![(0, 0), (4, 0), (4, 4), (0, 4)], vec![], vec![(10, 10), (12, 13)]];
    assert_eq!(calculate_centroids(&cells), vec![Some((2, 2)), None, Some((11, 11))]);
}
