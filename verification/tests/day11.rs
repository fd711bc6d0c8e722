use rustvent::day11::Sky;

#[test]
fn day11_single_galaxy_has_no_distance() {
    let sky = Sky { galaxies: vec![(3, 4)] };
    assert_eq!(sky.get_distances(), 0);
}

#[test]
fn day11_two_galaxies() {
    let sky = Sky { galaxies: vec![(0, 0), (2, 3)] };
    assert_eq!(sky.get_distances(), 5);
}

#[test]
fn day11_three_galaxies_sum_all_pairs() {
    // distances: (0,0)-(1,1): 2, (0,0)-(2,0): 2, (1,1)-(2,0): 2
    let sky = Sky { galaxies: vec![(0, 0), (1, 1), (2, 0)] };
    assert_eq!(sky.get_distances(), 6);
}

#[test]
fn day11_order_of_coordinates_does_not_matter() {
    let a = Sky { galaxies: vec![(5, 1), (1, 5)] };
    let b = Sky { galaxies: vec![(1, 5), (5, 1)] };
    assert_eq!(a.get_distances(), b.get_distances());
    assert_eq!(a.get_distances(), 8);
}
