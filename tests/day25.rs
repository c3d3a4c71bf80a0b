use aoc18::day25::{num_constellations, parse_points, Point4D};

#[test]
fn test_num_constellations1() {
    assert_eq!(
        2,
        num_constellations(
            " 0,0,0,0
 3,0,0,0
 0,3,0,0
 0,0,3,0
 0,0,0,3
 0,0,0,6
 9,0,0,0
12,0,0,0
"
        )
    );
}

#[test]
fn test_num_constellations2() {
    assert_eq!(
        4,
        num_constellations(
            "-1,2,2,0
0,0,2,-2
0,0,0,-2
-1,2,0,0
-2,-2,-2,2
3,0,2,-1
-1,3,2,2
-1,0,-1,0
0,2,1,-2
3,0,0,0
"
        )
    );
}

#[test]
fn test_num_constellations3() {
    assert_eq!(
        3,
        num_constellations(
            "1,-1,0,1
2,0,-1,0
3,2,-1,0
0,0,3,1
0,0,-1,-1
2,3,-2,0
-2,2,0,0
2,-2,0,-1
1,-1,0,-1
3,2,0,2
"
        )
    );
}

#[test]
fn test_num_constellations4() {
    assert_eq!(
        8,
        num_constellations(
            "1,-1,-1,-2
-2,-2,0,1
0,2,1,3
-2,3,-2,1
0,2,3,-2
-1,-1,1,-2
0,-2,-1,0
-2,2,3,-1
1,2,2,0
-1,-2,0,-2
"
        )
    );
}

#[test]
fn parse_points_shapes() {
    assert_eq!(
        Some(vec![Point4D { a: 0, b: -1, c: 2, d: 3 }]),
        parse_points(" 0,-1,2,3\n")
    );
    assert_eq!(None, parse_points("0,1,2"));
}

#[test]
fn single_points_are_constellations() {
    assert_eq!(1, num_constellations("5,5,5,5"));
    assert_eq!(2, num_constellations("0,0,0,0\n4,0,0,0"));
}
