use vstd::prelude::*;
use crate::text::{after_tag, chars_of, int_at, leading_int, split, split_chars, tag_at};

verus! {

/// Side of the square of locations looked at, from `(0, 0)`.
pub const BOUND: usize = 500;

/// A coordinate written `x, y`, the whole line.
pub open spec fn coord_spec(l: Seq<char>) -> Option<(int, int)> {
    match leading_int(l) {
        None => None,
        Some((x, t1)) => match after_tag(t1, ", "@) {
            None => None,
            Some(t2) => match leading_int(t2) {
                None => None,
                Some((y, t3)) => if t3.len() == 0 {
                    Some((x, y))
                } else {
                    None
                },
            },
        },
    }
}

/// The coordinates on the non-empty lines of `ls`.
pub open spec fn coords_of_lines(ls: Seq<Seq<char>>) -> Option<Seq<(int, int)>>
    decreases ls.len(),
{
    if ls.len() == 0 {
        Some(Seq::empty())
    } else {
        match coords_of_lines(ls.drop_last()) {
            None => None,
            Some(cs) => if ls.last().len() == 0 {
                Some(cs)
            } else {
                match coord_spec(ls.last()) {
                    None => None,
                    Some(c) => Some(cs.push(c)),
                }
            },
        }
    }
}

pub open spec fn coords_spec(s: Seq<char>) -> Option<Seq<(int, int)>> {
    coords_of_lines(split(s, '\n'))
}

pub open spec fn abs(v: int) -> int {
    if v < 0 {
        -v
    } else {
        v
    }
}

pub open spec fn dist(c: (int, int), i: int, j: int) -> int {
    abs(c.0 - i) + abs(c.1 - j)
}

/// Whether coordinate `n` is strictly closer to `(i, j)` than every other.
pub open spec fn sole_closest(cs: Seq<(int, int)>, i: int, j: int, n: int) -> bool {
    0 <= n < cs.len() && forall|m: int|
        0 <= m < cs.len() && m != n ==> dist(cs[n], i, j) < #[trigger] dist(cs[m], i, j)
}

/// The coordinate closest to `(i, j)`, or -1 where two or more are closest.
pub open spec fn owner(cs: Seq<(int, int)>, i: int, j: int) -> int {
    if exists|n: int| sole_closest(cs, i, j, n) {
        choose|n: int| sole_closest(cs, i, j, n)
    } else {
        -1
    }
}

pub open spec fn on_border(i: int, j: int) -> bool {
    0 <= i < BOUND && 0 <= j < BOUND && (i == 0 || j == 0 || i == BOUND - 1 || j == BOUND - 1)
}

/// Whether area `o` reaches the border of the square, and so is taken to be
/// infinite.
pub open spec fn is_outlier(cs: Seq<(int, int)>, o: int) -> bool {
    exists|i: int, j: int| on_border(i, j) && #[trigger] owner(cs, i, j) == o
}

/// How many locations of the first `w` cells of row `i` belong to `o`.
pub open spec fn row_area(cs: Seq<(int, int)>, o: int, i: int, w: nat) -> nat
    decreases w,
{
    if w == 0 {
        0
    } else {
        row_area(cs, o, i, (w - 1) as nat) + if owner(cs, i, w - 1) == o {
            1nat
        } else {
            0nat
        }
    }
}

/// How many locations of the first `h` rows of the square belong to `o`.
pub open spec fn area(cs: Seq<(int, int)>, o: int, h: nat) -> nat
    decreases h,
{
    if h == 0 {
        0
    } else {
        area(cs, o, (h - 1) as nat) + row_area(cs, o, h - 1, BOUND as nat)
    }
}

/// The largest area among coordinates `0 .. k - 1` that do not reach the
/// border; 0 where there is none. Locations with two or more closest
/// coordinates belong to no area.
pub open spec fn largest_finite(cs: Seq<(int, int)>, k: nat) -> nat
    decreases k,
{
    if k == 0 {
        0
    } else {
        let o = k - 1;
        let prev = largest_finite(cs, (k - 1) as nat);
        if !is_outlier(cs, o) && area(cs, o, BOUND as nat) > prev {
            area(cs, o, BOUND as nat)
        } else {
            prev
        }
    }
}

/// The size of the largest finite area of a coordinate.
pub open spec fn largest_area_spec(s: Seq<char>) -> nat {
    let cs = coords_spec(s)->0;
    largest_finite(cs, cs.len())
}

/// Reads the coordinates, one `x, y` per non-empty line.
pub fn parse_coordinates(input: &str) -> (r: Option<Vec<(i64, i64)>>)
    ensures
        match r {
            Some(v) => coords_spec(input@) == Some(
                v@.map_values(|c: (i64, i64)| (c.0 as int, c.1 as int)),
            ),
            None => coords_spec(input@) is None,
        },
{
    let s = chars_of(input);
    let lines = split_chars(&s, '\n');
    let ghost ls = lines@.map_values(|l: Vec<char>| l@);
    let mut v: Vec<(i64, i64)> = Vec::new();
    let mut i: usize = 0;
    while i < lines.len()
        invariant
            i <= lines.len(),
            ls == lines@.map_values(|l: Vec<char>| l@),
            ls == split(input@, '\n'),
            coords_of_lines(ls.take(i as int)) == Some(
                v@.map_values(|c: (i64, i64)| (c.0 as int, c.1 as int)),
            ),
        decreases lines.len() - i,
    {
        let line = &lines[i];
        assert(ls.take(i + 1).drop_last() =~= ls.take(i as int));
        assert(line@ == ls[i as int]);
        if line.len() > 0 {
            assert(line@.skip(0) =~= line@);
            let parsed = match int_at(line, 0) {
                Some((x, p1)) => match tag_at(line, p1, ", ") {
                    Some(p2) => match int_at(line, p2) {
                        Some((y, p3)) => if p3 == line.len() {
                            Some((x, y))
                        } else {
                            assert(line@.skip(p3 as int).len() > 0);
                            None
                        },
                        None => None,
                    },
                    None => None,
                },
                None => None,
            };
            match parsed {
                Some(c) => {
                    assert(line@.skip(line.len() as int).len() == 0);
                    let ghost old_v = v@;
                    v.push(c);
                    assert(v@.map_values(|c: (i64, i64)| (c.0 as int, c.1 as int)) =~= old_v.map_values(
                        |c: (i64, i64)| (c.0 as int, c.1 as int),
                    ).push((c.0 as int, c.1 as int)));
                },
                None => {
                    proof {
                        lemma_coords_prefix_none(ls, i + 1);
                    }
                    return None;
                },
            }
        }
        i = i + 1;
    }
    assert(ls.take(lines.len() as int) =~= ls);
    Some(v)
}

proof fn lemma_coords_prefix_none(ls: Seq<Seq<char>>, k: int)
    requires
        0 <= k <= ls.len(),
        coords_of_lines(ls.take(k)) is None,
    ensures
        coords_of_lines(ls) is None,
    decreases ls.len(),
{
    if k < ls.len() {
        assert(ls.drop_last().take(k) =~= ls.take(k));
        lemma_coords_prefix_none(ls.drop_last(), k);
    } else {
        assert(ls.take(k) =~= ls);
    }
}

pub open spec fn coords_view(v: Seq<(i64, i64)>) -> Seq<(int, int)> {
    v.map_values(|c: (i64, i64)| (c.0 as int, c.1 as int))
}

fn distance(c: (i64, i64), i: i64, j: i64) -> (r: i128)
    ensures
        r == dist((c.0 as int, c.1 as int), i as int, j as int),
{
    let dx = c.0 as i128 - i as i128;
    let dy = c.1 as i128 - j as i128;
    let ax = if dx < 0 { -dx } else { dx };
    let ay = if dy < 0 { -dy } else { dy };
    ax + ay
}

/// The owner of location `(i, j)`.
fn owner_of(cs: &Vec<(i64, i64)>, i: i64, j: i64) -> (r: i64)
    requires
        cs.len() < i64::MAX,
    ensures
        r == owner(coords_view(cs@), i as int, j as int),
{
    let ghost v = coords_view(cs@);
    if cs.len() == 0 {
        return -1;
    }
    let mut best: i64 = 0;
    let mut best_d: i128 = distance(cs[0], i, j);
    let mut tie = false;
    let mut n: usize = 1;
    while n < cs.len()
        invariant
            1 <= n <= cs.len() < i64::MAX,
            v == coords_view(cs@),
            0 <= best < n,
            best_d == dist(v[best as int], i as int, j as int),
            forall|m: int| 0 <= m < n ==> best_d <= #[trigger] dist(v[m], i as int, j as int),
            tie ==> exists|m: int|
                0 <= m < n && m != best && #[trigger] dist(v[m], i as int, j as int) == best_d,
            !tie ==> forall|m: int|
                0 <= m < n && m != best ==> best_d < #[trigger] dist(v[m], i as int, j as int),
        decreases cs.len() - n,
    {
        let d = distance(cs[n], i, j);
        assert(d == dist(v[n as int], i as int, j as int));
        if d < best_d {
            best = n as i64;
            best_d = d;
            tie = false;
        } else if d == best_d {
            tie = true;
        }
        n = n + 1;
    }
    if tie {
        proof {
            if exists|k: int| sole_closest(v, i as int, j as int, k) {
                let k = choose|k: int| sole_closest(v, i as int, j as int, k);
                let m = choose|m: int|
                    0 <= m < n && m != best && #[trigger] dist(v[m], i as int, j as int) == best_d;
                if k != best {
                    assert(dist(v[k], i as int, j as int) < dist(v[best as int], i as int, j as int));
                } else {
                    assert(dist(v[k], i as int, j as int) < dist(v[m], i as int, j as int));
                }
            }
        }
        -1
    } else {
        proof {
            assert(sole_closest(v, i as int, j as int, best as int));
            let k = choose|k: int| sole_closest(v, i as int, j as int, k);
            if k != best {
                assert(dist(v[k], i as int, j as int) < dist(v[best as int], i as int, j as int));
            }
        }
        best
    }
}

/// The owner of every location of the square, row by row.
fn owner_grid(cs: &Vec<(i64, i64)>) -> (g: Vec<Vec<i64>>)
    requires
        cs.len() < i64::MAX,
    ensures
        g.len() == BOUND,
        forall|i: int| 0 <= i < BOUND ==> (#[trigger] g@[i]).len() == BOUND,
        forall|i: int, j: int|
            0 <= i < BOUND && 0 <= j < BOUND ==> (#[trigger] g@[i]@[j]) == owner(
                coords_view(cs@),
                i,
                j,
            ),
{
    let mut g: Vec<Vec<i64>> = Vec::new();
    let mut i: usize = 0;
    while i < BOUND
        invariant
            i <= BOUND,
            cs.len() < i64::MAX,
            g.len() == i,
            forall|k: int| 0 <= k < i ==> (#[trigger] g@[k]).len() == BOUND,
            forall|k: int, j: int|
                0 <= k < i && 0 <= j < BOUND ==> (#[trigger] g@[k]@[j]) == owner(
                    coords_view(cs@),
                    k,
                    j,
                ),
        decreases BOUND - i,
    {
        let mut row: Vec<i64> = Vec::new();
        let mut j: usize = 0;
        while j < BOUND
            invariant
                i < BOUND,
                j <= BOUND,
                cs.len() < i64::MAX,
                row.len() == j,
                forall|m: int| 0 <= m < j ==> (#[trigger] row@[m]) == owner(coords_view(cs@), i as int, m),
            decreases BOUND - j,
        {
            row.push(owner_of(cs, i as i64, j as i64));
            j = j + 1;
        }
        g.push(row);
        i = i + 1;
    }
    g
}

pub open spec fn visited_border(i: int, j: int, t: int) -> bool {
    (i == 0 && 0 <= j < t) || (j == 0 && 0 <= i < t) || (i == BOUND - 1 && 0 <= j < t) || (j
        == BOUND - 1 && 0 <= i < t)
}

/// Whether area `o` reaches the border of the square.
fn reaches_border(g: &Vec<Vec<i64>>, v: Ghost<Seq<(int, int)>>, o: i64) -> (r: bool)
    requires
        g.len() == BOUND,
        forall|i: int| 0 <= i < BOUND ==> (#[trigger] g@[i]).len() == BOUND,
        forall|i: int, j: int|
            0 <= i < BOUND && 0 <= j < BOUND ==> (#[trigger] g@[i]@[j]) == owner(v@, i, j),
    ensures
        r == is_outlier(v@, o as int),
{
    let mut t: usize = 0;
    while t < BOUND
        invariant
            t <= BOUND,
            g.len() == BOUND,
            forall|i: int| 0 <= i < BOUND ==> (#[trigger] g@[i]).len() == BOUND,
            forall|i: int, j: int|
                0 <= i < BOUND && 0 <= j < BOUND ==> (#[trigger] g@[i]@[j]) == owner(v@, i, j),
            forall|i: int, j: int|
                visited_border(i, j, t as int) ==> #[trigger] owner(v@, i, j) != o,
        decreases BOUND - t,
    {
        if g[0][t] == o {
            assert(on_border(0, t as int) && owner(v@, 0, t as int) == o);
            return true;
        }
        if g[t][0] == o {
            assert(on_border(t as int, 0) && owner(v@, t as int, 0) == o);
            return true;
        }
        if g[BOUND - 1][t] == o {
            assert(on_border(BOUND - 1, t as int) && owner(v@, BOUND - 1, t as int) == o);
            return true;
        }
        if g[t][BOUND - 1] == o {
            assert(on_border(t as int, BOUND - 1) && owner(v@, t as int, BOUND - 1) == o);
            return true;
        }
        t = t + 1;
    }
    assert forall|i: int, j: int| on_border(i, j) implies #[trigger] owner(v@, i, j) != o by {
        assert(visited_border(i, j, BOUND as int));
    }
    false
}

proof fn lemma_area_bound(cs: Seq<(int, int)>, o: int, h: nat)
    ensures
        area(cs, o, h) <= h * BOUND,
    decreases h,
{
    if h > 0 {
        lemma_area_bound(cs, o, (h - 1) as nat);
        lemma_row_area_bound(cs, o, h - 1, BOUND as nat);
        assert((h - 1) * BOUND + BOUND == h * BOUND) by (nonlinear_arith);
    }
}

proof fn lemma_row_area_bound(cs: Seq<(int, int)>, o: int, i: int, w: nat)
    ensures
        row_area(cs, o, i, w) <= w,
    decreases w,
{
    if w > 0 {
        lemma_row_area_bound(cs, o, i, (w - 1) as nat);
    }
}

/// How many locations of the square belong to `o`.
fn count_area(g: &Vec<Vec<i64>>, v: Ghost<Seq<(int, int)>>, o: i64) -> (r: usize)
    requires
        g.len() == BOUND,
        forall|i: int| 0 <= i < BOUND ==> (#[trigger] g@[i]).len() == BOUND,
        forall|i: int, j: int|
            0 <= i < BOUND && 0 <= j < BOUND ==> (#[trigger] g@[i]@[j]) == owner(v@, i, j),
    ensures
        r == area(v@, o as int, BOUND as nat),
{
    let mut n: usize = 0;
    let mut i: usize = 0;
    while i < BOUND
        invariant
            i <= BOUND,
            g.len() == BOUND,
            forall|i: int| 0 <= i < BOUND ==> (#[trigger] g@[i]).len() == BOUND,
            forall|i: int, j: int|
                0 <= i < BOUND && 0 <= j < BOUND ==> (#[trigger] g@[i]@[j]) == owner(v@, i, j),
            n == area(v@, o as int, i as nat),
            n <= i * BOUND,
        decreases BOUND - i,
    {
        let mut m: usize = 0;
        let mut j: usize = 0;
        while j < BOUND
            invariant
                i < BOUND,
                j <= BOUND,
                g.len() == BOUND,
                forall|i: int| 0 <= i < BOUND ==> (#[trigger] g@[i]).len() == BOUND,
                forall|i: int, j: int|
                    0 <= i < BOUND && 0 <= j < BOUND ==> (#[trigger] g@[i]@[j]) == owner(v@, i, j),
                m == row_area(v@, o as int, i as int, j as nat),
                m <= j,
            decreases BOUND - j,
        {
            if g[i][j] == o {
                m = m + 1;
            }
            j = j + 1;
        }
        n = n + m;
        i = i + 1;
    }
    n
}

/// Size of the largest area that does not reach the border of the square.
pub fn largest_area(input: &str) -> (r: usize)
    requires
        coords_spec(input@) is Some,
        (coords_spec(input@)->0).len() < i64::MAX,
    ensures
        r == largest_area_spec(input@),
{
    let cs = match parse_coordinates(input) {
        Some(v) => v,
        None => {
            return 0;
        },
    };
    let ghost v = coords_view(cs@);
    let g = owner_grid(&cs);
    let mut best: usize = 0;
    let n = cs.len() as u64;
    let mut k: u64 = 1;
    while k <= n
        invariant
            n == cs.len(),
            1 <= k <= cs.len() + 1,
            cs.len() < i64::MAX,
            v == coords_view(cs@),
            v == coords_spec(input@)->0,
            g.len() == BOUND,
            forall|i: int| 0 <= i < BOUND ==> (#[trigger] g@[i]).len() == BOUND,
            forall|i: int, j: int|
                0 <= i < BOUND && 0 <= j < BOUND ==> (#[trigger] g@[i]@[j]) == owner(v, i, j),
            best == largest_finite(v, (k - 1) as nat),
        decreases n + 1 - k,
    {
        let o = k as i64 - 1;
        if !reaches_border(&g, Ghost(v), o) {
            let a = count_area(&g, Ghost(v), o);
            if a > best {
                best = a;
            }
        }
        k = k + 1;
    }
    best
}

/// Sum of the distances from `(i, j)` to the coordinates.
pub open spec fn total_dist(cs: Seq<(int, int)>, i: int, j: int) -> int
    decreases cs.len(),
{
    if cs.len() == 0 {
        0
    } else {
        total_dist(cs.drop_last(), i, j) + dist(cs.last(), i, j)
    }
}

/// How many of the first `w` locations of row `i` have a total distance
/// below `limit`.
pub open spec fn safe_in_row(cs: Seq<(int, int)>, limit: int, i: int, w: nat) -> nat
    decreases w,
{
    if w == 0 {
        0
    } else {
        safe_in_row(cs, limit, i, (w - 1) as nat) + if total_dist(cs, i, w - 1) < limit {
            1nat
        } else {
            0nat
        }
    }
}

/// How many locations of the first `h` rows have a total distance below
/// `limit`.
pub open spec fn safe_count(cs: Seq<(int, int)>, limit: int, h: nat) -> nat
    decreases h,
{
    if h == 0 {
        0
    } else {
        safe_count(cs, limit, (h - 1) as nat) + safe_in_row(cs, limit, h - 1, BOUND as nat)
    }
}

proof fn lemma_total_dist_prefix(cs: Seq<(int, int)>, i: int, j: int, k: int)
    requires
        0 <= k <= cs.len(),
    ensures
        total_dist(cs.take(k), i, j) <= total_dist(cs, i, j),
    decreases cs.len(),
{
    if k < cs.len() {
        assert(cs.drop_last().take(k) =~= cs.take(k));
        lemma_total_dist_prefix(cs.drop_last(), i, j, k);
    } else {
        assert(cs.take(k) =~= cs);
    }
}

/// Whether the total distance from `(i, j)` is below `limit`.
fn within_limit(cs: &Vec<(i64, i64)>, i: i64, j: i64, limit: i64) -> (r: bool)
    ensures
        r == (total_dist(coords_view(cs@), i as int, j as int) < limit),
{
    let ghost v = coords_view(cs@);
    if limit <= 0 {
        proof {
            lemma_total_dist_prefix(v, i as int, j as int, 0);
            assert(v.take(0) =~= Seq::<(int, int)>::empty());
        }
        return false;
    }
    let mut sum: i128 = 0;
    let mut n: usize = 0;
    while n < cs.len()
        invariant
            n <= cs.len(),
            v == coords_view(cs@),
            sum == total_dist(v.take(n as int), i as int, j as int),
            0 <= sum < limit,
        decreases cs.len() - n,
    {
        assert(v.take(n + 1).drop_last() =~= v.take(n as int));
        sum = sum + distance(cs[n], i, j);
        n = n + 1;
        if sum >= limit as i128 {
            proof {
                lemma_total_dist_prefix(v, i as int, j as int, n as int);
            }
            return false;
        }
    }
    assert(v.take(cs.len() as int) =~= v);
    true
}

/// The number of locations of the square whose total distance to all
/// coordinates is below `limit`.
pub fn safe_area(input: &str, limit: i64) -> (r: usize)
    requires
        coords_spec(input@) is Some,
    ensures
        r == safe_count(coords_spec(input@)->0, limit as int, BOUND as nat),
{
    let cs = match parse_coordinates(input) {
        Some(v) => v,
        None => {
            return 0;
        },
    };
    let ghost v = coords_view(cs@);
    let mut result: usize = 0;
    let mut i: usize = 0;
    while i < BOUND
        invariant
            i <= BOUND,
            v == coords_view(cs@),
            v == coords_spec(input@)->0,
            result == safe_count(v, limit as int, i as nat),
            result <= i * BOUND,
        decreases BOUND - i,
    {
        let mut m: usize = 0;
        let mut j: usize = 0;
        while j < BOUND
            invariant
                i < BOUND,
                j <= BOUND,
                v == coords_view(cs@),
                m == safe_in_row(v, limit as int, i as int, j as nat),
                m <= j,
            decreases BOUND - j,
        {
            if within_limit(&cs, i as i64, j as i64, limit) {
                m = m + 1;
            }
            j = j + 1;
        }
        result = result + m;
        i = i + 1;
    }
    result
}

} // verus!
