use vstd::prelude::*;
use crate::text::{chars_of, split, split_range, trim, trim_range};

verus! {

/// What an acre of the lumber collection area holds.
#[derive(Debug, Clone, Copy, PartialEq, Eq, Structural)]
pub enum Acre {
    OpenGround,
    Trees,
    Lumberyard,
}

pub open spec fn is_acre_char(c: char) -> bool {
    c == '.' || c == '|' || c == '#'
}

pub open spec fn acre_of(c: char) -> Acre {
    if c == '|' {
        Acre::Trees
    } else if c == '#' {
        Acre::Lumberyard
    } else {
        Acre::OpenGround
    }
}

/// The rows of the area: the lines of the trimmed text.
pub open spec fn area_rows(s: Seq<char>) -> Seq<Seq<char>> {
    split(trim(s), '\n')
}

/// Whether the text is a square of acre characters.
pub open spec fn area_ok(s: Seq<char>) -> bool {
    let rows = area_rows(s);
    forall|i: int|
        0 <= i < rows.len() ==> (#[trigger] rows[i]).len() == rows.len() && forall|j: int|
            0 <= j < rows.len() ==> is_acre_char(#[trigger] rows[i][j])
}

pub open spec fn area_of(s: Seq<char>) -> Seq<Seq<Acre>> {
    area_rows(s).map_values(|r: Seq<char>| r.map_values(|c: char| acre_of(c)))
}

/// The acre at `(i, j)`; outside the area, open ground.
pub open spec fn acre_at(a: Seq<Seq<Acre>>, i: int, j: int) -> Acre {
    if 0 <= i < a.len() && 0 <= j < a[i].len() {
        a[i][j]
    } else {
        Acre::OpenGround
    }
}

pub open spec fn one_if(a: Seq<Seq<Acre>>, i: int, j: int, kind: Acre) -> int {
    if acre_at(a, i, j) == kind {
        1
    } else {
        0
    }
}

/// How many of the eight acres around `(i, j)` hold `kind`.
pub open spec fn adjacent(a: Seq<Seq<Acre>>, i: int, j: int, kind: Acre) -> int {
    one_if(a, i - 1, j - 1, kind) + one_if(a, i - 1, j, kind) + one_if(a, i - 1, j + 1, kind)
        + one_if(a, i, j - 1, kind) + one_if(a, i, j + 1, kind) + one_if(a, i + 1, j - 1, kind)
        + one_if(a, i + 1, j, kind) + one_if(a, i + 1, j + 1, kind)
}

/// What acre `(i, j)` holds a minute later: open ground grows trees next to
/// three or more acres of trees; trees become a lumberyard next to three or
/// more lumberyards; a lumberyard stays one only next to a lumberyard and to
/// trees, and becomes open ground otherwise.
pub open spec fn next_acre(a: Seq<Seq<Acre>>, i: int, j: int) -> Acre {
    match a[i][j] {
        Acre::OpenGround => if adjacent(a, i, j, Acre::Trees) >= 3 {
            Acre::Trees
        } else {
            Acre::OpenGround
        },
        Acre::Trees => if adjacent(a, i, j, Acre::Lumberyard) >= 3 {
            Acre::Lumberyard
        } else {
            Acre::Trees
        },
        Acre::Lumberyard => if adjacent(a, i, j, Acre::Lumberyard) >= 1 && adjacent(
            a,
            i,
            j,
            Acre::Trees,
        ) >= 1 {
            Acre::Lumberyard
        } else {
            Acre::OpenGround
        },
    }
}

/// The area a minute later.
pub open spec fn evolve(a: Seq<Seq<Acre>>) -> Seq<Seq<Acre>> {
    Seq::new(a.len(), |i: int| Seq::new(a[i].len(), |j: int| next_acre(a, i, j)))
}

pub open spec fn evolve_times(a: Seq<Seq<Acre>>, k: nat) -> Seq<Seq<Acre>>
    decreases k,
{
    if k == 0 {
        a
    } else {
        evolve(evolve_times(a, (k - 1) as nat))
    }
}

pub open spec fn count_in_row(r: Seq<Acre>, kind: Acre) -> nat
    decreases r.len(),
{
    if r.len() == 0 {
        0
    } else {
        count_in_row(r.drop_last(), kind) + if r.last() == kind {
            1nat
        } else {
            0nat
        }
    }
}

/// How many acres of the area hold `kind`.
pub open spec fn count_kind(a: Seq<Seq<Acre>>, kind: Acre) -> nat
    decreases a.len(),
{
    if a.len() == 0 {
        0
    } else {
        count_kind(a.drop_last(), kind) + count_in_row(a.last(), kind)
    }
}

/// Minutes the area evolves for.
pub const MINUTES: usize = 10;

/// The resource value after `MINUTES` minutes: wooded acres times
/// lumberyards.
pub open spec fn resource_spec(s: Seq<char>) -> nat {
    let a = evolve_times(area_of(s), MINUTES as nat);
    count_kind(a, Acre::Trees) * count_kind(a, Acre::Lumberyard)
}

impl Acre {
    pub fn new(ch: char) -> (r: Acre)
        requires
            is_acre_char(ch),
        ensures
            r == acre_of(ch),
    {
        if ch == '|' {
            Acre::Trees
        } else if ch == '#' {
            Acre::Lumberyard
        } else {
            Acre::OpenGround
        }
    }
}

pub open spec fn area_view(a: Seq<Vec<Acre>>) -> Seq<Seq<Acre>> {
    a.map_values(|r: Vec<Acre>| r@)
}

fn acre_get(a: &Vec<Vec<Acre>>, i: usize, j: usize, di: usize, dj: usize) -> (r: Acre)
    requires
        di <= 2,
        dj <= 2,
        i < a.len(),
        j < a@[i as int].len(),
    ensures
        r == acre_at(area_view(a@), i + di - 1, j + dj - 1),
{
    if (di == 0 && i == 0) || (di == 2 && i + 1 >= a.len()) {
        return Acre::OpenGround;
    }
    let ii = if di == 0 { i - 1 } else if di == 1 { i } else { i + 1 };
    let row = &a[ii];
    if (dj == 0 && j == 0) || (dj == 2 && j + 1 >= row.len()) {
        return Acre::OpenGround;
    }
    let jj = if dj == 0 { j - 1 } else if dj == 1 { j } else { j + 1 };
    if jj < row.len() {
        row[jj]
    } else {
        Acre::OpenGround
    }
}

fn adjacent_count(a: &Vec<Vec<Acre>>, i: usize, j: usize, kind: Acre) -> (r: usize)
    requires
        i < a.len(),
        j < a@[i as int].len(),
    ensures
        r == adjacent(area_view(a@), i as int, j as int, kind),
{
    let mut n: usize = 0;
    if acre_get(a, i, j, 0, 0) == kind {
        n = n + 1;
    }
    if acre_get(a, i, j, 0, 1) == kind {
        n = n + 1;
    }
    if acre_get(a, i, j, 0, 2) == kind {
        n = n + 1;
    }
    if acre_get(a, i, j, 1, 0) == kind {
        n = n + 1;
    }
    if acre_get(a, i, j, 1, 2) == kind {
        n = n + 1;
    }
    if acre_get(a, i, j, 2, 0) == kind {
        n = n + 1;
    }
    if acre_get(a, i, j, 2, 1) == kind {
        n = n + 1;
    }
    if acre_get(a, i, j, 2, 2) == kind {
        n = n + 1;
    }
    n
}

/// The area a minute later.
fn evolve_area(a: &Vec<Vec<Acre>>) -> (r: Vec<Vec<Acre>>)
    ensures
        area_view(r@) == evolve(area_view(a@)),
{
    let ghost av = area_view(a@);
    let mut r: Vec<Vec<Acre>> = Vec::new();
    let mut i: usize = 0;
    while i < a.len()
        invariant
            i <= a.len(),
            av == area_view(a@),
            r.len() == i,
            forall|k: int| 0 <= k < i ==> (#[trigger] r@[k])@ == evolve(av)[k],
        decreases a.len() - i,
    {
        let row = &a[i];
        assert(row@ == av[i as int]);
        let mut nr: Vec<Acre> = Vec::new();
        let mut j: usize = 0;
        while j < row.len()
            invariant
                i < a.len(),
                row@ == av[i as int],
                row@ == a@[i as int]@,
                av == area_view(a@),
                j <= row.len(),
                nr.len() == j,
                forall|k: int| 0 <= k < j ==> nr@[k] == next_acre(av, i as int, k),
            decreases row.len() - j,
        {
            let cur = row[j];
            let next = match cur {
                Acre::OpenGround => if adjacent_count(a, i, j, Acre::Trees) >= 3 {
                    Acre::Trees
                } else {
                    Acre::OpenGround
                },
                Acre::Trees => if adjacent_count(a, i, j, Acre::Lumberyard) >= 3 {
                    Acre::Lumberyard
                } else {
                    Acre::Trees
                },
                Acre::Lumberyard => if adjacent_count(a, i, j, Acre::Lumberyard) >= 1
                    && adjacent_count(a, i, j, Acre::Trees) >= 1 {
                    Acre::Lumberyard
                } else {
                    Acre::OpenGround
                },
            };
            nr.push(next);
            j = j + 1;
        }
        assert(nr@ =~= evolve(av)[i as int]);
        r.push(nr);
        i = i + 1;
    }
    assert(area_view(r@) =~= evolve(av));
    r
}

fn count_acres(a: &Vec<Vec<Acre>>, kind: Acre) -> (r: u128)
    ensures
        r == count_kind(area_view(a@), kind),
{
    let ghost av = area_view(a@);
    let mut n: u128 = 0;
    let mut i: usize = 0;
    while i < a.len()
        invariant
            i <= a.len(),
            av == area_view(a@),
            n == count_kind(av.take(i as int), kind),
            n <= i * 0x1_0000_0000_0000_0000,
        decreases a.len() - i,
    {
        let row = &a[i];
        assert(av.take(i + 1).drop_last() =~= av.take(i as int));
        assert(row@ == av[i as int]);
        let mut m: u128 = 0;
        let mut j: usize = 0;
        while j < row.len()
            invariant
                j <= row.len(),
                m == count_in_row(row@.take(j as int), kind),
                m <= j,
            decreases row.len() - j,
        {
            assert(row@.take(j + 1).drop_last() =~= row@.take(j as int));
            if row[j] == kind {
                m = m + 1;
            }
            j = j + 1;
        }
        assert(row@.take(row.len() as int) =~= row@);
        n = n + m;
        i = i + 1;
    }
    assert(av.take(a.len() as int) =~= av);
    n
}

/// The resource value of the lumber collection area after ten minutes: the
/// number of wooded acres times the number of lumberyards.
pub fn resource_value(input: &str) -> (r: usize)
    requires
        area_ok(input@),
        resource_spec(input@) <= usize::MAX,
    ensures
        r == resource_spec(input@),
{
    let s = chars_of(input);
    let (lo, hi) = trim_range(&s, 0, s.len());
    assert(s@.subrange(0, s.len() as int) =~= s@);
    let lines = split_range(&s, lo, hi, '\n');
    let ghost rows = lines@.map_values(|l: Vec<char>| l@);
    assert(rows == area_rows(input@));
    let mut area: Vec<Vec<Acre>> = Vec::new();
    let mut i: usize = 0;
    while i < lines.len()
        invariant
            i <= lines.len(),
            rows == lines@.map_values(|l: Vec<char>| l@),
            rows.len() == lines.len(),
            rows == area_rows(input@),
            area_ok(input@),
            area.len() == i,
            forall|k: int| 0 <= k < i ==> (#[trigger] area@[k])@ == area_of(input@)[k],
        decreases lines.len() - i,
    {
        let line = &lines[i];
        assert(line@ == rows[i as int]);
        let mut r: Vec<Acre> = Vec::new();
        let mut j: usize = 0;
        while j < line.len()
            invariant
                i < lines.len(),
                rows.len() == lines.len(),
                line@ == rows[i as int],
                rows == area_rows(input@),
                area_ok(input@),
                j <= line.len(),
                r@ == line@.take(j as int).map_values(|c: char| acre_of(c)),
            decreases line.len() - j,
        {
            assert(rows[i as int].len() == rows.len());
            assert(is_acre_char(rows[i as int][j as int]));
            r.push(Acre::new(line[j]));
            assert(r@ =~= line@.take(j + 1).map_values(|c: char| acre_of(c)));
            j = j + 1;
        }
        assert(line@.take(line.len() as int) =~= line@);
        area.push(r);
        i = i + 1;
    }
    assert(area_view(area@) =~= area_of(input@));
    let mut k: usize = 0;
    while k < MINUTES
        invariant
            k <= MINUTES,
            area_view(area@) == evolve_times(area_of(input@), k as nat),
        decreases MINUTES - k,
    {
        area = evolve_area(&area);
        k = k + 1;
    }
    let wooded = count_acres(&area, Acre::Trees);
    let yards = count_acres(&area, Acre::Lumberyard);
    (wooded * yards) as usize
}

} // verus!
