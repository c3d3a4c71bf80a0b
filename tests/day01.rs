use aoc18::day01::{parse_deltas, resulting_frequency, resulting_frequency_twice};

#[test]
fn resulting_frequency_examples() {
    assert_eq!(8, resulting_frequency("+8"));
    assert_eq!(-3, resulting_frequency("-3"));
    assert_eq!(3, resulting_frequency("+1\n+1\n+1"));
    assert_eq!(0, resulting_frequency("+1\n+1\n-2"));
    assert_eq!(-6, resulting_frequency("-1\n-2\n-3"));
}

#[test]
fn resulting_frequency_blank_lines() {
    assert_eq!(0, resulting_frequency(""));
    assert_eq!(5, resulting_frequency("\n +2 \n\n3\n"));
}

#[test]
fn resulting_frequency_twice_examples() {
    assert_eq!(0, resulting_frequency_twice("+1\n-1"));
    assert_eq!(10, resulting_frequency_twice("+3\n+3\n+4\n-2\n-4"));
    assert_eq!(5, resulting_frequency_twice("-6\n+3\n+8\n+5\n-6"));
    assert_eq!(14, resulting_frequency_twice("+7\n+7\n-2\n-7\n-4"));
}

#[test]
fn resulting_frequency_twice_without_changes() {
    assert_eq!(0, resulting_frequency_twice(""));
}

#[test]
fn parse_deltas_reads_signs() {
    assert_eq!(Some(vec![1, -2, 3]), parse_deltas("+1\n-2\n3\n"));
    assert_eq!(None, parse_deltas("+1\nx\n"));
    assert_eq!(None, parse_deltas("99999999999999999999"));
    assert_eq!(Some(vec![-9223372036854775808]), parse_deltas("-9223372036854775808"));
}
