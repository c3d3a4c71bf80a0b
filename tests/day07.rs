use aoc18::day07::{completion_time, parse_edges, steps};

const EXAMPLE: &str = "
Step C must be finished before step A can begin.
Step C must be finished before step F can begin.
Step A must be finished before step B can begin.
Step A must be finished before step D can begin.
Step B must be finished before step E can begin.
Step D must be finished before step E can begin.
Step F must be finished before step E can begin.
";

#[test]
fn steps_example() {
    assert_eq!("CABDFE", steps(EXAMPLE));
}

#[test]
fn completion_time_example() {
    assert_eq!(15, completion_time(EXAMPLE, 2, 0));
}

#[test]
fn completion_time_one_worker() {
    // One worker does every step in turn: C3 A1 B2 D4 F6 E5.
    assert_eq!(21, completion_time(EXAMPLE, 1, 0));
    assert_eq!(21 + 6 * 60, completion_time(EXAMPLE, 1, 60));
}

#[test]
fn steps_cycle_stops() {
    let input = "Step A must be finished before step B can begin.\nStep B must be finished before step A can begin.\nStep C must be finished before step D can begin.";
    assert_eq!("CD", steps(input));
}

#[test]
fn parse_edges_shapes() {
    assert_eq!(Some(vec![('C', 'A')]), parse_edges("Step C must be finished before step A can begin.\n"));
    assert_eq!(None, parse_edges("Step C must be finished before step A can begin"));
}
