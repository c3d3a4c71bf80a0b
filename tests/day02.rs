use aoc18::day02::{checksum, common_letters};

#[test]
fn checksum_example() {
    assert_eq!(12, checksum("abcdef\nbababc\nabbcde\nabcccd\naabcdd\nabcdee\nababab"));
}

#[test]
fn checksum_without_threes() {
    assert_eq!(0, checksum("aa\nbb"));
    assert_eq!(0, checksum(""));
}

#[test]
fn common_letters_example() {
    assert_eq!("fgij", common_letters("abcde\nfghij\nklmno\npqrst\nfguij\naxcye\nwvxyz"));
}

#[test]
fn common_letters_none_close() {
    assert_eq!("", common_letters("abc\nxyz"));
    assert_eq!("", common_letters("abc"));
}
