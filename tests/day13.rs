use aoc18::day13::{first_crash, last_cart_location};

#[test]
fn test_first_crash() {
    let p = first_crash(
        "/->-\\        
|   |  /----\\
| /-+--+-\\  |
| | |  | v  |
\\-+-/  \\-+--/
  \\------/   
",
    );
    assert_eq!(p.x, 7);
    assert_eq!(p.y, 3);
}

#[test]
fn test_last_cart_location() {
    let p = last_cart_location(
        "/>-<\\  
|   |  
| /<+-\\
| | | v
\\>+</ |
  |   ^
  \\<->/
",
    );
    assert_eq!(p.x, 6);
    assert_eq!(p.y, 4);
}

#[test]
fn test_last_cart_location_corner() {
    let p = last_cart_location("/>>->\\");
    assert_eq!(p.x, 5);
    assert_eq!(p.y, 0);
    let p = last_cart_location("/><->\\");
    assert_eq!(p.x, 5);
    assert_eq!(p.y, 0);
    let p = last_cart_location("/->>>\\");
    assert_eq!(p.x, 5);
    assert_eq!(p.y, 0);
    let p = last_cart_location("/->><\\");
    assert_eq!(p.x, 3);
    assert_eq!(p.y, 0);
}

#[test]
fn first_crash_head_on() {
    let p = first_crash("->---<-");
    assert_eq!((p.x, p.y), (3, 0));
}

#[test]
fn first_crash_when_carts_swap() {
    // The first cart moves onto the second before the second moves.
    let p = first_crash("-><-");
    assert_eq!((p.x, p.y), (2, 0));
}
