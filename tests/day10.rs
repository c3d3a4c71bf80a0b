use aoc18::day10::{message, parse_entries, Entry, ParseError, Point};
use std::str::FromStr;

#[test]
fn test_entry_from_str() {
    assert_eq!(
        Ok(Entry {
            location: Point { x: -3, y: 6 },
            velocity: Point { x: 2, y: -1 }
        }),
        Entry::from_str("position=<-3,  6> velocity=< 2, -1>")
    );
}

#[test]
fn entry_from_str_rejects_other_shapes() {
    assert_eq!(Err(ParseError), Entry::from_str("position=<-3, 6>"));
    assert_eq!(Err(ParseError), Entry::from_str("position=<-3,  6> velocity=< 2, -1>!"));
}

const EXAMPLE: &str = "position=< 9,  1> velocity=< 0,  2>
position=< 7,  0> velocity=<-1,  0>
position=< 3, -2> velocity=<-1,  1>
position=< 6, 10> velocity=<-2, -1>
position=< 2, -4> velocity=< 2,  2>
position=<-6, 10> velocity=< 2, -2>
position=< 1,  8> velocity=< 1, -1>
position=< 1,  7> velocity=< 1,  0>
position=<-3, 11> velocity=< 1, -2>
position=< 7,  6> velocity=<-1, -1>
position=<-2,  3> velocity=< 1,  0>
position=<-4,  3> velocity=< 2,  0>
position=<10, -3> velocity=<-1,  1>
position=< 5, 11> velocity=< 1, -2>
position=< 4,  7> velocity=< 0, -1>
position=< 8, -2> velocity=< 0,  1>
position=<15,  0> velocity=<-2,  0>
position=< 1,  6> velocity=< 1,  0>
position=< 8,  9> velocity=< 0, -1>
position=< 3,  3> velocity=<-1,  1>
position=< 0,  5> velocity=< 0, -1>
position=<-2,  2> velocity=< 2,  0>
position=< 5, -2> velocity=< 1,  2>
position=< 1,  4> velocity=< 2,  1>
position=<-2,  7> velocity=< 2, -2>
position=< 3,  6> velocity=<-1, -1>
position=< 5,  0> velocity=< 1,  0>
position=<-6,  0> velocity=< 2,  0>
position=< 5,  9> velocity=< 1, -2>
position=<14,  7> velocity=<-2,  0>
position=<-3,  6> velocity=< 2, -1>";

#[test]
fn message_example() {
    let (m, n) = message(EXAMPLE);
    assert_eq!(3, n);
    assert_eq!(
        "#...#..###\n#...#...#.\n#...#...#.\n#####...#.\n#...#...#.\n#...#...#.\n#...#...#.\n#...#..###\n",
        m
    );
}

#[test]
fn parse_entries_counts_lines() {
    assert_eq!(31, parse_entries(EXAMPLE).unwrap().len());
    assert!(parse_entries("position=<1, 2>\n").is_none());
}
