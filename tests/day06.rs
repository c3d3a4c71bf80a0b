use aoc18::day06::{largest_area, parse_coordinates, safe_area};

const EXAMPLE: &str = "1, 1
1, 6
8, 3
3, 4
5, 5
8, 9";

#[test]
fn largest_area_example() {
    assert_eq!(17, largest_area(EXAMPLE));
}

#[test]
fn safe_area_example() {
    assert_eq!(16, safe_area(EXAMPLE, 32));
}

#[test]
fn safe_area_nothing_below_zero() {
    assert_eq!(0, safe_area(EXAMPLE, 0));
}

#[test]
fn parse_coordinates_shapes() {
    assert_eq!(Some(vec![(1, 1), (-3, 40)]), parse_coordinates("1, 1\n\n-3, 40\n"));
    assert_eq!(None, parse_coordinates("1,1"));
}

#[test]
fn largest_area_ignores_ties() {
    // Every coordinate reaches the border; the tied cells between the first
    // two do not, and they are no area.
    assert_eq!(0, largest_area("250, 249\n250, 251\n0, 250\n498, 250"));
}
