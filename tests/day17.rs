use aoc18::day17::{parse_scans, reservoir_capacity, reservoir_reach, Cell, Ground};

const EXAMPLE: &str = "x=495, y=2..7
y=7, x=495..501
x=501, y=3..7
x=498, y=2..4
x=506, y=1..2
x=498, y=10..13
x=504, y=10..13
y=13, x=498..504";

#[test]
fn reservoir_reach_example() {
    assert_eq!(57, reservoir_reach(EXAMPLE));
}

#[test]
fn reservoir_capacity_example() {
    assert_eq!(29, reservoir_capacity(EXAMPLE));
}

#[test]
fn reservoir_single_basin() {
    // A cup of clay two tiles wide under the spring.
    let input = "x=499, y=2..3\ny=3, x=499..502\nx=502, y=2..3";
    assert_eq!(2, reservoir_capacity(input));
}

#[test]
fn flow_keeps_clay() {
    let scans = parse_scans("y=2, x=500..502\nx=503, y=1").unwrap();
    let mut g = Ground::new(&scans);
    let before: Vec<Vec<Cell>> = g.cells.clone();
    for _ in 0..4 {
        g.next_cycle();
    }
    for (r0, r1) in before.iter().zip(g.cells.iter()) {
        for (a, b) in r0.iter().zip(r1.iter()) {
            if *a == Cell::Clay || *a == Cell::WaterSpring {
                assert_eq!(a, b);
            }
        }
    }
}
