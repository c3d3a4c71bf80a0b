use aoc18::day09::{parse_game, winning_score, winning_score2};

#[test]
fn winning_score_examples() {
    assert_eq!(32, winning_score("9 players; last marble is worth 25 points"));
    assert_eq!(8317, winning_score("10 players; last marble is worth 1618 points"));
    assert_eq!(146373, winning_score("13 players; last marble is worth 7999 points"));
    assert_eq!(2764, winning_score("17 players; last marble is worth 1104 points"));
    assert_eq!(54718, winning_score("21 players; last marble is worth 6111 points"));
    assert_eq!(37305, winning_score("30 players; last marble is worth 5807 points"));
}

#[test]
fn winning_score2_example() {
    assert_eq!(22563, winning_score2("9 players; last marble is worth 25 points"));
}

#[test]
fn winning_score_before_first_keep() {
    assert_eq!(0, winning_score("5 players; last marble is worth 22 points"));
}

#[test]
fn parse_game_shapes() {
    assert_eq!(Some((9, 25)), parse_game(" 9 players; last marble is worth 25 points\n"));
    assert_eq!(None, parse_game("9 players; last marble is worth 25 point"));
    assert_eq!(None, parse_game("9 players; last marble is worth 25 points!"));
}
