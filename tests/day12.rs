use aoc18::day12::{parse_garden, sum_pots_after};

const EXAMPLE: &str = "initial state: #..#.#..##......###...###

...## => #
..#.. => #
.#... => #
.#.#. => #
.#.## => #
.##.. => #
.#### => #
#.#.# => #
#.### => #
##.#. => #
##.## => #
###.. => #
###.# => #
####. => #";

#[test]
fn test_sum_pots_after() {
    let input = "initial state: #..#.#..##......###...###

...## => #
..#.. => #
.#... => #
.#.#. => #
.#.## => #
.##.. => #
.#### => #
#.#.# => #
#.### => #
##.#. => #
##.## => #
###.. => #
###.# => #
####. => #";
    assert_eq!(325, sum_pots_after(input, 20));
}

#[test]
fn sum_pots_after_no_generation() {
    // Pots 0, 3, 5, 8, 9, 16, 17, 18, 22, 23, 24.
    assert_eq!(145, sum_pots_after(EXAMPLE, 0));
}

#[test]
fn parse_garden_reads_rules() {
    let (p, ms) = parse_garden(EXAMPLE).unwrap();
    assert_eq!(25, p.len());
    assert!(p[0] && !p[1] && p[3]);
    assert_eq!(14, ms.len());
    assert_eq!(vec![false, false, false, true, true], ms[0].state);
    assert!(ms[0].result);
}

#[test]
fn parse_garden_rejects_bad_rule() {
    assert!(parse_garden("initial state: #\n\n..# => #\n").is_none());
    assert!(parse_garden("state: #\n").is_none());
}
