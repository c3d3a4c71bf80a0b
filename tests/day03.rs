use aoc18::day03::{claim, intact_claim, number, overlapping_area, Claim, ParseError};

#[test]
fn parse_claim() {
    assert_eq!(number("123 @ "), Ok((String::from(" @ "), 123)));
    assert_eq!(
        claim("#123 @ 3,2: 5x4 "),
        Ok((
            String::from(" "),
            Claim {
                id: 123,
                left_offset: 3,
                top_offset: 2,
                width: 5,
                height: 4
            }
        ))
    );
}

#[test]
fn number_needs_a_digit() {
    assert_eq!(number(" 12"), Err(ParseError));
    assert_eq!(number("7"), Ok((String::new(), 7)));
}

#[test]
fn claim_rejects_other_shapes() {
    assert_eq!(claim("#1 @ 3,2 5x4"), Err(ParseError));
    assert_eq!(claim("1 @ 3,2: 5x4"), Err(ParseError));
}

#[test]
fn overlapping_area_example() {
    assert_eq!(
        4,
        overlapping_area("#1 @ 1,3: 4x4\n#2 @ 3,1: 4x4\n#3 @ 5,5: 2x2")
    );
}

#[test]
fn intact_claim_example() {
    assert_eq!(
        3,
        intact_claim("#1 @ 1,3: 4x4\n#2 @ 3,1: 4x4\n#3 @ 5,5: 2x2")
    );
}

#[test]
fn intact_claim_none() {
    assert_eq!(0, intact_claim("#1 @ 0,0: 2x2\n#2 @ 1,1: 2x2\n"));
    assert_eq!(0, overlapping_area(""));
}
