use aoc18::day14::{num_recipes_before, score_after};

#[test]
fn score_after_examples() {
    assert_eq!("5158916779", score_after("9"));
    assert_eq!("0124515891", score_after("5"));
    assert_eq!("9251071085", score_after("18"));
    assert_eq!("5941429882", score_after("2018"));
}

#[test]
fn score_after_from_start() {
    assert_eq!("3710101245", score_after("0\n"));
}

#[test]
fn num_recipes_before_examples() {
    assert_eq!(9, num_recipes_before("51589"));
    assert_eq!(5, num_recipes_before("01245"));
    assert_eq!(18, num_recipes_before("92510"));
    assert_eq!(2018, num_recipes_before("59414"));
}

#[test]
fn num_recipes_before_initial_board() {
    assert_eq!(0, num_recipes_before("37"));
    assert_eq!(1, num_recipes_before("7"));
}
