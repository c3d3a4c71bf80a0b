use vstd::prelude::*;
use crate::text::{after_tag, chars_of, int_at, leading_int, split, split_range, copy_range, trim, trim_range};

verus! {

/// A point in four dimensions.
#[derive(Debug, Clone, Copy, PartialEq, Eq, Structural)]
pub struct Point4D {
    pub a: i64,
    pub b: i64,
    pub c: i64,
    pub d: i64,
}

/// The number of connected components of the undirected graph whose edges
/// are `edges`; its nodes are the ends of its edges.
pub uninterp spec fn component_count(edges: Seq<(usize, usize)>) -> nat;

/// Relies on petgraph's `GraphMap::from_edges` and `algo::connected_components`:
/// builds the undirected graph of the edges and counts its connected
/// components.
#[verifier::external_body]
fn count_components(edges: &Vec<(usize, usize)>) -> (r: usize)
    ensures
        r == component_count(edges@),
{
    petgraph::algo::connected_components(
        &petgraph::graphmap::UnGraphMap::<usize, ()>::from_edges(edges.iter().copied()),
    )
}

/// A point written `a,b,c,d`, the whole of `t`.
pub open spec fn point_spec(t: Seq<char>) -> Option<Point4D> {
    match leading_int(t) {
        None => None,
        Some((a, t1)) => match after_tag(t1, ","@) {
            None => None,
            Some(t2) => match leading_int(t2) {
                None => None,
                Some((b, t3)) => match after_tag(t3, ","@) {
                    None => None,
                    Some(t4) => match leading_int(t4) {
                        None => None,
                        Some((c, t5)) => match after_tag(t5, ","@) {
                            None => None,
                            Some(t6) => match leading_int(t6) {
                                None => None,
                                Some((d, t7)) => if t7.len() == 0 {
                                    Some(Point4D { a: a as i64, b: b as i64, c: c as i64, d: d as i64 })
                                } else {
                                    None
                                },
                            },
                        },
                    },
                },
            },
        },
    }
}

/// The points on the lines of the trimmed text, each line trimmed.
pub open spec fn points_of_lines(ls: Seq<Seq<char>>) -> Option<Seq<Point4D>>
    decreases ls.len(),
{
    if ls.len() == 0 {
        Some(Seq::empty())
    } else {
        match points_of_lines(ls.drop_last()) {
            None => None,
            Some(ps) => match point_spec(trim(ls.last())) {
                None => None,
                Some(p) => Some(ps.push(p)),
            },
        }
    }
}

pub open spec fn points_of(s: Seq<char>) -> Option<Seq<Point4D>> {
    points_of_lines(split(trim(s), '\n'))
}

pub open spec fn iabs(v: int) -> int {
    if v < 0 {
        -v
    } else {
        v
    }
}

/// Manhattan distance in four dimensions.
pub open spec fn dist4(p: Point4D, q: Point4D) -> int {
    iabs(p.a - q.a) + iabs(p.b - q.b) + iabs(p.c - q.c) + iabs(p.d - q.d)
}

/// The edges from point `i` to points `i + 1 .. j` within distance 3.
pub open spec fn row_edges(ps: Seq<Point4D>, i: int, j: int) -> Seq<(usize, usize)>
    decreases j - i,
{
    if j <= i + 1 {
        Seq::empty()
    } else {
        let prev = row_edges(ps, i, j - 1);
        if dist4(ps[i], ps[j - 1]) <= 3 {
            prev.push((i as usize, (j - 1) as usize))
        } else {
            prev
        }
    }
}

/// The edges from the first `i` points to later points within distance 3.
pub open spec fn close_edges(ps: Seq<Point4D>, i: int) -> Seq<(usize, usize)>
    decreases i,
{
    if i <= 0 {
        Seq::empty()
    } else {
        close_edges(ps, i - 1) + row_edges(ps, i - 1, ps.len() as int)
    }
}

/// The graph of the points: a loop on each point, so that every point is a
/// node, and an edge between any two points within distance 3.
pub open spec fn constellation_edges(ps: Seq<Point4D>) -> Seq<(usize, usize)> {
    Seq::new(ps.len(), |i: int| (i as usize, i as usize)) + close_edges(ps, ps.len() as int)
}

impl Point4D {
    pub fn dist(&self, other: &Self) -> (r: i128)
        ensures
            r == dist4(*self, *other),
    {
        let x = self.a as i128 - other.a as i128;
        let y = self.b as i128 - other.b as i128;
        let z = self.c as i128 - other.c as i128;
        let w = self.d as i128 - other.d as i128;
        (if x < 0 { -x } else { x }) + (if y < 0 { -y } else { y }) + (if z < 0 { -z } else { z }) + (
        if w < 0 { -w } else { w })
    }
}

fn parse_point(t: &Vec<char>) -> (r: Option<Point4D>)
    ensures
        r == point_spec(t@),
{
    assert(t@.skip(0) =~= t@);
    let (a, p1) = match int_at(t, 0) { Some(x) => x, None => { return None; } };
    let p2 = match crate::text::tag_at(t, p1, ",") { Some(p) => p, None => { return None; } };
    let (b, p3) = match int_at(t, p2) { Some(x) => x, None => { return None; } };
    let p4 = match crate::text::tag_at(t, p3, ",") { Some(p) => p, None => { return None; } };
    let (c, p5) = match int_at(t, p4) { Some(x) => x, None => { return None; } };
    let p6 = match crate::text::tag_at(t, p5, ",") { Some(p) => p, None => { return None; } };
    let (d, p7) = match int_at(t, p6) { Some(x) => x, None => { return None; } };
    if p7 != t.len() {
        assert(t@.skip(p7 as int).len() > 0);
        return None;
    }
    Some(Point4D { a, b, c, d })
}

proof fn lemma_points_prefix_none(ls: Seq<Seq<char>>, k: int)
    requires
        0 <= k <= ls.len(),
        points_of_lines(ls.take(k)) is None,
    ensures
        points_of_lines(ls) is None,
    decreases ls.len(),
{
    if k < ls.len() {
        assert(ls.drop_last().take(k) =~= ls.take(k));
        lemma_points_prefix_none(ls.drop_last(), k);
    } else {
        assert(ls.take(k) =~= ls);
    }
}

/// Reads the points, one `a,b,c,d` per line of the trimmed text.
pub fn parse_points(input: &str) -> (r: Option<Vec<Point4D>>)
    ensures
        match r {
            Some(v) => points_of(input@) == Some(v@),
            None => points_of(input@) is None,
        },
{
    let s = chars_of(input);
    let (lo, hi) = trim_range(&s, 0, s.len());
    assert(s@.subrange(0, s.len() as int) =~= s@);
    let lines = split_range(&s, lo, hi, '\n');
    let ghost ls = lines@.map_values(|l: Vec<char>| l@);
    let mut v: Vec<Point4D> = Vec::new();
    let mut i: usize = 0;
    while i < lines.len()
        invariant
            i <= lines.len(),
            ls == lines@.map_values(|l: Vec<char>| l@),
            ls == split(trim(input@), '\n'),
            points_of_lines(ls.take(i as int)) == Some(v@),
        decreases lines.len() - i,
    {
        assert(ls.take(i + 1).drop_last() =~= ls.take(i as int));
        let line = &lines[i];
        assert(line@ == ls[i as int]);
        let (a, b) = trim_range(line, 0, line.len());
        assert(line@.subrange(0, line.len() as int) =~= line@);
        let t = copy_range(line, a, b);
        match parse_point(&t) {
            Some(p) => {
                v.push(p);
            },
            None => {
                proof {
                    lemma_points_prefix_none(ls, i + 1);
                }
                return None;
            },
        }
        i = i + 1;
    }
    assert(ls.take(lines.len() as int) =~= ls);
    Some(v)
}

/// The edges of the graph of the points.
fn build_edges(ps: &Vec<Point4D>) -> (r: Vec<(usize, usize)>)
    ensures
        r@ == constellation_edges(ps@),
{
    let n = ps.len();
    let mut v: Vec<(usize, usize)> = Vec::new();
    let mut i: usize = 0;
    while i < n
        invariant
            i <= n == ps.len(),
            v@ == Seq::new(i as nat, |k: int| (k as usize, k as usize)),
        decreases n - i,
    {
        v.push((i, i));
        assert(v@ =~= Seq::new((i + 1) as nat, |k: int| (k as usize, k as usize)));
        i = i + 1;
    }
    let ghost loops = v@;
    let mut i: usize = 0;
    while i < n
        invariant
            i <= n == ps.len(),
            loops == Seq::new(n as nat, |k: int| (k as usize, k as usize)),
            v@ == loops + close_edges(ps@, i as int),
        decreases n - i,
    {
        let ghost before = v@;
        let mut j: usize = i + 1;
        while j < n
            invariant
                i < n == ps.len(),
                i + 1 <= j <= n,
                v@ == before + row_edges(ps@, i as int, j as int),
            decreases n - j,
        {
            if ps[i].dist(&ps[j]) <= 3 {
                v.push((i, j));
            }
            assert(v@ =~= before + row_edges(ps@, i as int, j + 1));
            j = j + 1;
        }
        assert(v@ =~= loops + close_edges(ps@, i + 1));
        i = i + 1;
    }
    v
}

/// The number of constellations: groups of points joined by chains of
/// points within distance 3 of each other.
pub fn num_constellations(input: &str) -> (r: usize)
    requires
        points_of(input@) is Some,
    ensures
        r == component_count(constellation_edges(points_of(input@)->0)),
{
    let ps = match parse_points(input) {
        Some(v) => v,
        None => {
            return 0;
        },
    };
    let edges = build_edges(&ps);
    count_components(&edges)
}

} // verus!
