use cell_kmeans::voronoi::voronoi_areas;

#[test]
fn two_centres_share_a_row() {
    assert_eq!(voronoi_areas(&vec![(0, 0), (3, 0)], 4, 1), vec![2, 2]);
}

#[test]
fn a_pixel_between_two_centres_goes_to_the_first() {
    assert_eq!(voronoi_areas(&vec![(0, 0), (2, 0)], 3, 1), vec![2, 1]);
    assert_eq!(voronoi_areas(&vec![(2, 0), (0, 0)], 3, 1), vec![2, 1]);
    assert_eq!(voronoi_areas(&vec![(1, 1), (1, 1)], 3, 3), vec![9, 0]);
}

#[test]
fn areas_add_up_to_the_domain() {
    let centres = vec![(3, 4), (17, 2), (9, 9), (-5, 30), (40, 40), (9, 9)];
    for (w, h) in [(0u32, 0u32), (0, 5), (5, 0), (1, 1), (7, 3), (20, 20), (31, 17)] {
        let areas = voronoi_areas(&centres, w, h);
        assert_eq!(areas.len(), centres.len());
        assert_eq!(areas.iter().sum::<u64>(), (w as u64) * (h as u64));
    }
}

#[test]
fn areas_follow_the_nearest_centre() {
    // A 4 by 4 domain split by the diagonal: ties on it go to the first centre.
    let areas = voronoi_areas(&vec![(0, 3), (3, 0)], 4, 4);
    assert_eq!(areas, vec![10, 6]);
}

#[test]
fn no_centre_no_area() {
    assert_eq!(voronoi_areas(&vec![], 4, 4), Vec::<u64>::new());
}

#[test]
fn one_centre_owns_the_domain() {
    assert_eq!(voronoi_areas(&vec![(100, -100)], 6, 7), vec![42]);
}
