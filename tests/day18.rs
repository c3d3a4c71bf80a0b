use aoc18::day18::resource_value;

#[test]
fn resource_value_example() {
    assert_eq!(
        1147,
        resource_value(
            ".#.#...|#.
.....#|##|
.|..|...#.
..|#.....#
#.#|||#|#|
...#.||...
.|....|...
||...#|.#|
|.||||..|.
...#.|..|.
"
        )
    );
}

#[test]
fn resource_value_all_open() {
    assert_eq!(0, resource_value("...\n...\n...\n"));
}
