use aoc18::day11::{largest_powered_cell, largest_powered_cell2, Point};

#[test]
fn largest_powered_cell_examples() {
    assert_eq!(Point { x: 33, y: 45 }, largest_powered_cell("18"));
    assert_eq!(Point { x: 21, y: 61 }, largest_powered_cell("42"));
}

#[test]
fn largest_powered_cell2_serial_18() {
    let r = largest_powered_cell2("18");
    assert_eq!(Point { x: 90, y: 269 }, r.0);
    assert_eq!(16, r.1);
}

#[test]
fn largest_powered_cell2_serial_42() {
    let r = largest_powered_cell2("42\n");
    assert_eq!(Point { x: 232, y: 251 }, r.0);
    assert_eq!(12, r.1);
}
