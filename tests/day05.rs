use aoc18::day05::{num_remaining_units, should_burn, smallest_num_remaining_units};

#[test]
fn test_should_burn() {
    assert!(should_burn('a', 'A'));
    assert!(should_burn('M', 'm'));
    assert!(!should_burn('N', 'N'));
    assert!(!should_burn('z', 'z'));
    assert!(!should_burn('a', 'z'));
}

#[test]
fn remaining_units_example() {
    assert_eq!(10, num_remaining_units("dabAcCaCBAcCcaDA"));
    assert_eq!(10, num_remaining_units("  dabAcCaCBAcCcaDA\n"));
}

#[test]
fn remaining_units_edges() {
    assert_eq!(0, num_remaining_units(""));
    assert_eq!(0, num_remaining_units("aA"));
    assert_eq!(0, num_remaining_units("abBA"));
    assert_eq!(4, num_remaining_units("abAB"));
    assert_eq!(6, num_remaining_units("aabAAB"));
}

#[test]
fn smallest_remaining_units_example() {
    assert_eq!(4, smallest_num_remaining_units("dabAcCaCBAcCcaDA"));
}
