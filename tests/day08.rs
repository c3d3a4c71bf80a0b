use aoc18::day08::{meta_sum, parse_numbers, root_value};

#[test]
fn meta_sum_example() {
    assert_eq!(138, meta_sum("2 3 0 3 10 11 12 1 1 0 1 99 2 1 1 2 "));
}

#[test]
fn root_value_example() {
    assert_eq!(66, root_value("2 3 0 3 10 11 12 1 1 0 1 99 2 1 1 2 "));
}

#[test]
fn licence_without_tree() {
    assert_eq!(0, meta_sum("2 3 0"));
    assert_eq!(0, root_value("x"));
}

#[test]
fn leaf_value_is_metadata_sum() {
    assert_eq!(6, root_value("0 3 1 2 3\n"));
    assert_eq!(Some(vec![0, 3, 1, 2, 3]), parse_numbers("0 3 1 2 3\n"));
}
