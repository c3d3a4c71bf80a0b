use vstd::prelude::*;
use crate::text::{after_tag, chars_of, copy_range, leading_number, number_at, split, split_range, tag_at, trim, trim_range};

verus! {

#[derive(Debug, Clone, Copy, PartialEq, Eq, Structural)]
pub enum Cell {
    Sand,
    Clay,
    WaterSpring,
    WaterFlowing,
    WaterAtRest,
}

/// A square of clay: column, then row.
#[derive(Debug, Clone, Copy, PartialEq, Eq, Structural)]
pub struct Point(pub usize, pub usize);

/// A range of a scan line: `a` or `a..b`; its values and the text after it.
pub open spec fn range_spec(s: Seq<char>) -> Option<(Seq<usize>, Seq<char>)> {
    match leading_number(s) {
        None => None,
        Some((a, s1)) => match after_tag(s1, ".."@) {
            None => Some((seq![a as usize], s1)),
            Some(s2) => match leading_number(s2) {
                None => None,
                Some((b, s3)) => Some(
                    (Seq::new(if b >= a { (b - a + 1) as nat } else { 0 }, |k: int| (a + k) as usize), s3),
                ),
            },
        },
    }
}

/// A field `x=<range>` or `y=<range>`: whether it is the x axis, its values,
/// and the text after it.
pub open spec fn field_spec(s: Seq<char>) -> Option<(bool, Seq<usize>, Seq<char>)> {
    let is_x = after_tag(s, "x="@) is Some;
    let rest = if is_x {
        after_tag(s, "x="@)
    } else {
        after_tag(s, "y="@)
    };
    match rest {
        None => None,
        Some(r) => match range_spec(r) {
            None => None,
            Some((vs, t)) => Some((is_x, vs, t)),
        },
    }
}

/// The squares of clay a scan line gives: two fields; each coordinate runs
/// over its field's values, the shorter list starting over until the longer
/// one ends; a line without an x or without a y field gives none.
pub open spec fn pair_up(xs: Seq<usize>, ys: Seq<usize>) -> Seq<Point> {
    if xs.len() == 0 || ys.len() == 0 {
        Seq::empty()
    } else {
        let l = if xs.len() >= ys.len() {
            xs.len()
        } else {
            ys.len()
        };
        Seq::new(l, |k: int| Point(xs[k % xs.len() as int], ys[k % ys.len() as int]))
    }
}

pub open spec fn scan_spec(t: Seq<char>) -> Option<Seq<Point>> {
    match field_spec(t) {
        None => None,
        Some((ax1, v1, t1)) => match after_tag(t1, ", "@) {
            None => None,
            Some(t2) => match field_spec(t2) {
                None => None,
                Some((ax2, v2, t3)) => if t3.len() == 0 {
                    let xs = if ax2 {
                        v2
                    } else if ax1 {
                        v1
                    } else {
                        Seq::empty()
                    };
                    let ys = if !ax2 {
                        v2
                    } else if !ax1 {
                        v1
                    } else {
                        Seq::empty()
                    };
                    Some(pair_up(xs, ys))
                } else {
                    None
                },
            },
        },
    }
}

/// Reads a range at `s[pos..]`; returns its values and the position after it.
fn range_at(s: &Vec<char>, pos: usize) -> (r: Option<(Vec<usize>, usize)>)
    requires
        pos <= s.len(),
    ensures
        match r {
            Some((vs, e)) => pos <= e <= s.len() && range_spec(s@.skip(pos as int)) == Some(
                (vs@, s@.skip(e as int)),
            ),
            None => range_spec(s@.skip(pos as int)) is None,
        },
{
    let (a, p1) = match number_at(s, pos) {
        Some(x) => x,
        None => {
            return None;
        },
    };
    match tag_at(s, p1, "..") {
        None => {
            let mut v: Vec<usize> = Vec::new();
            v.push(a);
            assert(v@ =~= seq![a]);
            Some((v, p1))
        },
        Some(p2) => {
            let (b, p3) = match number_at(s, p2) {
                Some(x) => x,
                None => {
                    return None;
                },
            };
            let mut v: Vec<usize> = Vec::new();
            let mut c: u128 = a as u128;
            while c <= b as u128
                invariant
                    a <= c <= b + 1 || (b < a && c == a),
                    v@ =~= Seq::new((c - a) as nat, |k: int| (a + k) as usize),
                decreases b + 1 - c,
            {
                v.push(c as usize);
                assert(v@ =~= Seq::new((c + 1 - a) as nat, |k: int| (a + k) as usize));
                c = c + 1;
            }
            assert(v@ =~= Seq::new(if b >= a { (b - a + 1) as nat } else { 0 }, |k: int| (a + k) as usize));
            Some((v, p3))
        },
    }
}

/// Reads a field at `s[pos..]`.
fn field_at(s: &Vec<char>, pos: usize) -> (r: Option<(bool, Vec<usize>, usize)>)
    requires
        pos <= s.len(),
    ensures
        match r {
            Some((ax, vs, e)) => pos <= e <= s.len() && field_spec(s@.skip(pos as int)) == Some(
                (ax, vs@, s@.skip(e as int)),
            ),
            None => field_spec(s@.skip(pos as int)) is None,
        },
{
    let (is_x, p1) = match tag_at(s, pos, "x=") {
        Some(p) => (true, p),
        None => match tag_at(s, pos, "y=") {
            Some(p) => (false, p),
            None => {
                return None;
            },
        },
    };
    match range_at(s, p1) {
        Some((vs, e)) => Some((is_x, vs, e)),
        None => None,
    }
}

/// The squares of clay paired up from the two coordinate lists.
fn pair_points(xs: &Vec<usize>, ys: &Vec<usize>) -> (r: Vec<Point>)
    ensures
        r@ == pair_up(xs@, ys@),
{
    let mut r: Vec<Point> = Vec::new();
    if xs.len() == 0 || ys.len() == 0 {
        assert(r@ =~= pair_up(xs@, ys@));
        return r;
    }
    let l = if xs.len() >= ys.len() { xs.len() } else { ys.len() };
    let mut k: usize = 0;
    while k < l
        invariant
            xs.len() > 0,
            ys.len() > 0,
            l == (if xs.len() >= ys.len() { xs.len() } else { ys.len() }),
            k <= l,
            r@ =~= pair_up(xs@, ys@).take(k as int),
        decreases l - k,
    {
        r.push(Point(xs[k % xs.len()], ys[k % ys.len()]));
        assert(r@ =~= pair_up(xs@, ys@).take(k + 1));
        k = k + 1;
    }
    assert(pair_up(xs@, ys@).take(l as int) =~= pair_up(xs@, ys@));
    r
}

/// Reads the squares of clay of a scan line such as `x=495, y=2..7`.
pub fn parse_scan(t: &Vec<char>) -> (r: Option<Vec<Point>>)
    ensures
        match r {
            Some(ps) => scan_spec(t@) == Some(ps@),
            None => scan_spec(t@) is None,
        },
{
    assert(t@.skip(0) =~= t@);
    let (ax1, v1, p1) = match field_at(t, 0) {
        Some(x) => x,
        None => {
            return None;
        },
    };
    let p2 = match tag_at(t, p1, ", ") {
        Some(p) => p,
        None => {
            return None;
        },
    };
    let (ax2, v2, p3) = match field_at(t, p2) {
        Some(x) => x,
        None => {
            return None;
        },
    };
    if p3 != t.len() {
        assert(t@.skip(p3 as int).len() > 0);
        return None;
    }
    let empty: Vec<usize> = Vec::new();
    let xs = if ax2 { &v2 } else if ax1 { &v1 } else { &empty };
    let ys = if !ax2 { &v2 } else if !ax1 { &v1 } else { &empty };
    Some(pair_points(xs, ys))
}

/// The squares of clay of the scan lines `ls`, in order.
pub open spec fn scans_of_lines(ls: Seq<Seq<char>>) -> Option<Seq<Point>>
    decreases ls.len(),
{
    if ls.len() == 0 {
        Some(Seq::empty())
    } else {
        match scans_of_lines(ls.drop_last()) {
            None => None,
            Some(ps) => match scan_spec(trim(ls.last())) {
                None => None,
                Some(q) => Some(ps + q),
            },
        }
    }
}

/// The squares of clay of a puzzle text, one scan per line of the trimmed
/// text.
pub open spec fn scans_spec(s: Seq<char>) -> Option<Seq<Point>> {
    scans_of_lines(split(trim(s), '\n'))
}

proof fn lemma_scans_prefix_none(ls: Seq<Seq<char>>, k: int)
    requires
        0 <= k <= ls.len(),
        scans_of_lines(ls.take(k)) is None,
    ensures
        scans_of_lines(ls) is None,
    decreases ls.len(),
{
    if k < ls.len() {
        assert(ls.drop_last().take(k) =~= ls.take(k));
        lemma_scans_prefix_none(ls.drop_last(), k);
    } else {
        assert(ls.take(k) =~= ls);
    }
}

/// Reads the squares of clay of a puzzle text.
pub fn parse_scans(input: &str) -> (r: Option<Vec<Point>>)
    ensures
        match r {
            Some(ps) => scans_spec(input@) == Some(ps@),
            None => scans_spec(input@) is None,
        },
{
    let s = chars_of(input);
    let (lo, hi) = trim_range(&s, 0, s.len());
    assert(s@.subrange(0, s.len() as int) =~= s@);
    let lines = split_range(&s, lo, hi, '\n');
    let ghost ls = lines@.map_values(|l: Vec<char>| l@);
    let mut all: Vec<Point> = Vec::new();
    let mut i: usize = 0;
    while i < lines.len()
        invariant
            i <= lines.len(),
            ls == lines@.map_values(|l: Vec<char>| l@),
            ls == split(trim(input@), '\n'),
            scans_of_lines(ls.take(i as int)) == Some(all@),
        decreases lines.len() - i,
    {
        assert(ls.take(i + 1).drop_last() =~= ls.take(i as int));
        assert(lines@[i as int]@ == ls[i as int]);
        let line = &lines[i];
        let (a, b) = trim_range(line, 0, line.len());
        assert(line@.subrange(0, line.len() as int) =~= line@);
        let t = copy_range(line, a, b);
        match parse_scan(&t) {
            Some(ps) => {
                let ghost before = all@;
                let mut k: usize = 0;
                while k < ps.len()
                    invariant
                        k <= ps.len(),
                        all@ == before + ps@.take(k as int),
                    decreases ps.len() - k,
                {
                    all.push(ps[k]);
                    assert(all@ =~= before + ps@.take(k + 1));
                    k = k + 1;
                }
                assert(ps@.take(ps.len() as int) =~= ps@);
            },
            None => {
                proof {
                    lemma_scans_prefix_none(ls, i + 1);
                }
                return None;
            },
        }
        i = i + 1;
    }
    assert(ls.take(lines.len() as int) =~= ls);
    Some(all)
}

/// Water can pour down from this cell.
pub open spec fn pours(c: Cell) -> bool {
    c == Cell::WaterSpring || c == Cell::WaterFlowing
}

/// Water can rest on this cell.
pub open spec fn holds(c: Cell) -> bool {
    c == Cell::Clay || c == Cell::WaterAtRest
}

pub open spec fn wet(c: Cell) -> bool {
    c == Cell::WaterFlowing || c == Cell::WaterAtRest
}

/// Looking left from column `c` along a row over `below`: the column of a
/// wall of clay, if water spreads to one, and the column where the look
/// stopped.
pub open spec fn scan_left(row: Seq<Cell>, below: Seq<Cell>, c: int) -> (Option<int>, int)
    decreases c + 1,
{
    if c < 0 || c >= row.len() || c >= below.len() {
        (None, c)
    } else if (row[c] == Cell::Sand || row[c] == Cell::WaterFlowing) && holds(below[c]) {
        scan_left(row, below, c - 1)
    } else if row[c] == Cell::Clay && holds(below[c]) {
        (Some(c), c)
    } else {
        (None, c)
    }
}

/// Looking right from column `c`, as `scan_left` does.
pub open spec fn scan_right(row: Seq<Cell>, below: Seq<Cell>, c: int) -> (Option<int>, int)
    decreases row.len() - c,
{
    if c < 0 || c >= row.len() || c >= below.len() {
        (None, c)
    } else if (row[c] == Cell::Sand || row[c] == Cell::WaterFlowing) && holds(below[c]) {
        scan_right(row, below, c + 1)
    } else if row[c] == Cell::Clay && holds(below[c]) {
        (Some(c), c)
    } else {
        (None, c)
    }
}

/// Whether water can take this cell.
pub open spec fn open(c: Cell) -> bool {
    c == Cell::Sand || c == Cell::WaterFlowing
}

/// `row` with the sand and flowing water of columns `from .. to` set to
/// `cell`; clay, the spring and water at rest stay as they are.
pub open spec fn fill(row: Seq<Cell>, from: int, to: int, cell: Cell) -> Seq<Cell> {
    Seq::new(row.len(), |k: int| if from <= k < to && open(row[k]) { cell } else { row[k] })
}

/// Water on column `j` over clay or still water spreads sideways: between
/// two walls it comes to rest, else it flows to where the look stopped.
pub open spec fn spread(row: Seq<Cell>, below: Seq<Cell>, j: int) -> Seq<Cell> {
    let l = scan_left(row, below, j - 1);
    let r = scan_right(row, below, j + 1);
    match (l.0, r.0) {
        (Some(a), Some(b)) => fill(row, a + 1, b, Cell::WaterAtRest),
        (Some(a), None) => fill(row, a + 1, r.1 + 1, Cell::WaterFlowing),
        (None, Some(b)) => fill(row, l.1, b, Cell::WaterFlowing),
        (None, None) => fill(row, l.1, r.1 + 1, Cell::WaterFlowing),
    }
}

/// Column `j` of `row` takes its turn: sand under pouring water starts to
/// flow, and flowing water over clay or still water spreads.
pub open spec fn cell_step(above: Seq<Cell>, row: Seq<Cell>, below: Seq<Cell>, j: int) -> Seq<
    Cell,
> {
    let r1 = if pours(above[j]) && row[j] == Cell::Sand {
        row.update(j, Cell::WaterFlowing)
    } else {
        row
    };
    if r1[j] == Cell::WaterFlowing && holds(below[j]) && j >= 1 {
        spread(r1, below, j)
    } else {
        r1
    }
}

/// `row` after its first `n` columns took their turn.
pub open spec fn row_pass(above: Seq<Cell>, row: Seq<Cell>, below: Seq<Cell>, n: nat) -> Seq<Cell>
    decreases n,
{
    if n == 0 {
        row
    } else {
        cell_step(above, row_pass(above, row, below, (n - 1) as nat), below, n - 1)
    }
}

/// The ground after rows `1 ..= m` took their turn, top to bottom.
pub open spec fn cycle_rows(g: Seq<Seq<Cell>>, m: nat) -> Seq<Seq<Cell>>
    decreases m,
{
    if m == 0 {
        g
    } else {
        let h = cycle_rows(g, (m - 1) as nat);
        h.update(m as int, row_pass(h[m - 1], h[m as int], h[m + 1int], h[m as int].len()))
    }
}

/// One cycle: every row but the first and the last takes its turn.
pub open spec fn cycle(g: Seq<Seq<Cell>>) -> Seq<Seq<Cell>> {
    if g.len() >= 2 {
        cycle_rows(g, (g.len() - 2) as nat)
    } else {
        g
    }
}

pub open spec fn cycles(g: Seq<Seq<Cell>>, k: nat) -> Seq<Seq<Cell>>
    decreases k,
{
    if k == 0 {
        g
    } else {
        cycle(cycles(g, (k - 1) as nat))
    }
}

/// Whether water has reached the lowest row of clay.
pub open spec fn reached_bottom(g: Seq<Seq<Cell>>) -> bool {
    g.len() >= 2 && exists|c: int| 0 <= c < g[g.len() - 2].len() && wet(#[trigger] g[g.len() - 2][c])
}

/// Whether all rows have the width of the first, and there are two or more.
pub open spec fn ground_wf(g: Seq<Seq<Cell>>) -> bool {
    g.len() >= 2 && forall|y: int| 0 <= y < g.len() ==> (#[trigger] g[y]).len() == g[0].len()
}

proof fn lemma_row_pass_len(above: Seq<Cell>, row: Seq<Cell>, below: Seq<Cell>, n: nat)
    requires
        n <= row.len(),
        above.len() == row.len(),
    ensures
        row_pass(above, row, below, n).len() == row.len(),
    decreases n,
{
    if n > 0 {
        lemma_row_pass_len(above, row, below, (n - 1) as nat);
    }
}

proof fn lemma_cycle_rows_wf(g: Seq<Seq<Cell>>, m: nat)
    requires
        ground_wf(g),
        m <= g.len() - 2,
    ensures
        ground_wf(cycle_rows(g, m)),
        cycle_rows(g, m).len() == g.len(),
        cycle_rows(g, m)[0].len() == g[0].len(),
    decreases m,
{
    if m > 0 {
        lemma_cycle_rows_wf(g, (m - 1) as nat);
        let h = cycle_rows(g, (m - 1) as nat);
        lemma_row_pass_len(h[m - 1], h[m as int], h[m + 1int], h[m as int].len());
    }
}

proof fn lemma_cycles_wf(g: Seq<Seq<Cell>>, k: nat)
    requires
        ground_wf(g),
    ensures
        ground_wf(cycles(g, k)),
        cycles(g, k).len() == g.len(),
        cycles(g, k)[0].len() == g[0].len(),
    decreases k,
{
    if k > 0 {
        lemma_cycles_wf(g, (k - 1) as nat);
        lemma_cycle_rows_wf(cycles(g, (k - 1) as nat), (g.len() - 2) as nat);
    }
}

pub open spec fn cells_view(v: Seq<Vec<Cell>>) -> Seq<Seq<Cell>> {
    v.map_values(|r: Vec<Cell>| r@)
}

fn is_holding(c: Cell) -> (r: bool)
    ensures
        r == holds(c),
{
    c == Cell::Clay || c == Cell::WaterAtRest
}

fn look_left(row: &Vec<Cell>, below: &Vec<Cell>, c: i128) -> (r: (Option<i128>, i128))
    requires
        row.len() == below.len(),
        -1 <= c < row.len(),
    ensures
        (match r.0 {
            Some(a) => Some(a as int),
            None => None,
        }, r.1 as int) == scan_left(row@, below@, c as int),
        -1 <= r.1 < row.len(),
        match r.0 {
            Some(a) => a == r.1,
            None => true,
        },
{
    let mut cur = c;
    while cur >= 0 && ((row[cur as usize] == Cell::Sand || row[cur as usize] == Cell::WaterFlowing)
        && is_holding(below[cur as usize]))
        invariant
            row.len() == below.len(),
            -1 <= cur < row.len(),
            scan_left(row@, below@, c as int) == scan_left(row@, below@, cur as int),
        decreases cur + 1,
    {
        cur = cur - 1;
    }
    if cur >= 0 && row[cur as usize] == Cell::Clay && is_holding(below[cur as usize]) {
        (Some(cur), cur)
    } else {
        (None, cur)
    }
}

fn look_right(row: &Vec<Cell>, below: &Vec<Cell>, c: i128) -> (r: (Option<i128>, i128))
    requires
        row.len() == below.len(),
        0 <= c <= row.len(),
    ensures
        (match r.0 {
            Some(a) => Some(a as int),
            None => None,
        }, r.1 as int) == scan_right(row@, below@, c as int),
        0 <= r.1 <= row.len(),
        match r.0 {
            Some(a) => a == r.1,
            None => true,
        },
{
    let mut cur = c;
    while cur < row.len() as i128 && ((row[cur as usize] == Cell::Sand || row[cur as usize]
        == Cell::WaterFlowing) && is_holding(below[cur as usize]))
        invariant
            row.len() == below.len(),
            0 <= cur <= row.len(),
            scan_right(row@, below@, c as int) == scan_right(row@, below@, cur as int),
        decreases row.len() - cur,
    {
        cur = cur + 1;
    }
    if cur < row.len() as i128 && row[cur as usize] == Cell::Clay && is_holding(below[cur as usize]) {
        (Some(cur), cur)
    } else {
        (None, cur)
    }
}

fn fill_row(row: &mut Vec<Cell>, from: i128, to: i128, cell: Cell)
    ensures
        final(row)@ == fill(old(row)@, from as int, to as int, cell),
{
    let ghost orig = row@;
    let n = row.len();
    let mut k: usize = 0;
    while k < n
        invariant
            n == row.len() == orig.len(),
            k <= n,
            forall|m: int| 0 <= m < k ==> row@[m] == fill(orig, from as int, to as int, cell)[m],
            forall|m: int| k <= m < n ==> row@[m] == orig[m],
        decreases n - k,
    {
        if from <= k as i128 && (k as i128) < to && (row[k] == Cell::Sand || row[k]
            == Cell::WaterFlowing) {
            row.set(k, cell);
        }
        k = k + 1;
    }
    assert(row@ =~= fill(orig, from as int, to as int, cell));
}

/// Column `j` of `row` takes its turn.
fn step_cell(above: &Vec<Cell>, row: &mut Vec<Cell>, below: &Vec<Cell>, j: usize)
    requires
        above.len() == old(row).len() == below.len(),
        j < old(row).len(),
    ensures
        final(row)@ == cell_step(above@, old(row)@, below@, j as int),
{
    if (above[j] == Cell::WaterSpring || above[j] == Cell::WaterFlowing) && row[j] == Cell::Sand {
        row.set(j, Cell::WaterFlowing);
    }
    if row[j] == Cell::WaterFlowing && is_holding(below[j]) && j >= 1 {
        let (l, ll) = look_left(row, below, j as i128 - 1);
        let (r, rl) = look_right(row, below, j as i128 + 1);
        match (l, r) {
            (Some(a), Some(b)) => fill_row(row, a + 1, b, Cell::WaterAtRest),
            (Some(a), None) => fill_row(row, a + 1, rl + 1, Cell::WaterFlowing),
            (None, Some(b)) => fill_row(row, ll, b, Cell::WaterFlowing),
            (None, None) => fill_row(row, ll, rl + 1, Cell::WaterFlowing),
        }
    }
}

/// The ground: the cells from row 0 (the spring's) to one below the lowest
/// clay, and from one column left of the leftmost clay to one right of the
/// rightmost; `top` is the row of the highest clay.
pub struct Ground {
    pub top: usize,
    pub cells: Vec<Vec<Cell>>,
}

impl Ground {
    pub open spec fn view(&self) -> Seq<Seq<Cell>> {
        cells_view(self.cells@)
    }

    /// One cycle of the flow.
    pub fn next_cycle(&mut self)
        requires
            ground_wf(old(self).view()),
        ensures
            final(self).view() == cycle(old(self).view()),
            final(self).top == old(self).top,
    {
        let ghost g0 = self.view();
        let n = self.cells.len();
        let mut i: usize = 1;
        proof {
            lemma_cycle_rows_wf(g0, 0);
        }
        while i < n - 1
            invariant
                1 <= i <= n - 1,
                n == self.cells.len() == g0.len(),
                ground_wf(g0),
                self.view() == cycle_rows(g0, (i - 1) as nat),
                self.top == old(self).top,
            decreases n - 1 - i,
        {
            proof {
                lemma_cycle_rows_wf(g0, (i - 1) as nat);
            }
            let ghost h = self.view();
            let mut row = self.cells[i].clone();
            assert(row@ == h[i as int]);
            let w = row.len();
            let mut j: usize = 0;
            while j < w
                invariant
                    1 <= i < n - 1,
                    n == self.cells.len(),
                    h == self.view(),
                    ground_wf(h),
                    w == h[i as int].len(),
                    j <= w,
                    row@ == row_pass(h[i - 1], h[i as int], h[i + 1int], j as nat),
                    row.len() == w,
                decreases w - j,
            {
                assert(self.cells@[i - 1]@ == h[i - 1]);
                assert(self.cells@[i + 1]@ == h[i + 1int]);
                step_cell(&self.cells[i - 1], &mut row, &self.cells[i + 1], j);
                proof {
                    lemma_row_pass_len(h[i - 1], h[i as int], h[i + 1int], (j + 1) as nat);
                }
                j = j + 1;
            }
            let ghost newrow = row@;
            self.cells.set(i, row);
            proof {
                assert(self.view() =~= h.update(i as int, newrow));
                lemma_cycle_rows_wf(g0, i as nat);
            }
            i = i + 1;
        }
    }
}

pub open spec fn min_x(ps: Seq<Point>) -> int
    decreases ps.len(),
{
    if ps.len() == 0 {
        usize::MAX as int
    } else {
        let m = min_x(ps.drop_last());
        if (ps.last().0 as int) < m { ps.last().0 as int } else { m }
    }
}

pub open spec fn max_x(ps: Seq<Point>) -> int
    decreases ps.len(),
{
    if ps.len() == 0 {
        0
    } else {
        let m = max_x(ps.drop_last());
        if (ps.last().0 as int) > m { ps.last().0 as int } else { m }
    }
}

pub open spec fn min_y(ps: Seq<Point>) -> int
    decreases ps.len(),
{
    if ps.len() == 0 {
        usize::MAX as int
    } else {
        let m = min_y(ps.drop_last());
        if (ps.last().1 as int) < m { ps.last().1 as int } else { m }
    }
}

pub open spec fn max_y(ps: Seq<Point>) -> int
    decreases ps.len(),
{
    if ps.len() == 0 {
        0
    } else {
        let m = max_y(ps.drop_last());
        if (ps.last().1 as int) > m { ps.last().1 as int } else { m }
    }
}

/// Whether the clay leaves a column free on each side, and the spring at
/// column 500 lies within the ground.
pub open spec fn ground_ok(ps: Seq<Point>) -> bool {
    &&& ps.len() > 0
    &&& min_x(ps) >= 1
    &&& min_x(ps) - 1 <= 500 <= max_x(ps) + 1
    &&& max_x(ps) + 2 < usize::MAX
    &&& max_y(ps) + 2 < usize::MAX
}

pub open spec fn has_clay(ps: Seq<Point>, x: int, y: int) -> bool {
    exists|k: int| 0 <= k < ps.len() && ps[k].0 == x && ps[k].1 == y
}

/// The ground before the water flows: clay where the scans say, the spring
/// at column 500 of row 0, sand elsewhere.
pub open spec fn initial_ground(ps: Seq<Point>) -> Seq<Seq<Cell>> {
    let left = min_x(ps) - 1;
    Seq::new(
        (max_y(ps) + 2) as nat,
        |y: int|
            Seq::new(
                (max_x(ps) - min_x(ps) + 3) as nat,
                |c: int|
                    if y == 0 && c == 500 - left {
                        Cell::WaterSpring
                    } else if has_clay(ps, c + left, y) {
                        Cell::Clay
                    } else {
                        Cell::Sand
                    },
            ),
    )
}

pub open spec fn row_count(r: Seq<Cell>, rest_only: bool) -> nat
    decreases r.len(),
{
    if r.len() == 0 {
        0
    } else {
        row_count(r.drop_last(), rest_only) + if (rest_only && r.last() == Cell::WaterAtRest) || (
        !rest_only && wet(r.last())) {
            1nat
        } else {
            0nat
        }
    }
}

/// Water tiles from row `top` down: all of them, or those at rest.
pub open spec fn water_count(g: Seq<Seq<Cell>>, top: int, rest_only: bool) -> nat
    decreases g.len(),
{
    if g.len() == 0 {
        0
    } else {
        water_count(g.drop_last(), top, rest_only) + if g.len() - 1 >= top {
            row_count(g.last(), rest_only)
        } else {
            0nat
        }
    }
}

/// Whether the flow reaches the lowest row of clay for the first time after
/// `k` cycles.
pub open spec fn first_bottom(ps: Seq<Point>, k: nat) -> bool {
    &&& reached_bottom(cycles(initial_ground(ps), k))
    &&& forall|k2: nat| k2 < k ==> !reached_bottom(#[trigger] cycles(initial_ground(ps), k2))
}

pub open spec fn reservoir_ok(s: Seq<char>) -> bool {
    &&& scans_spec(s) is Some
    &&& ground_ok(scans_spec(s)->0)
    &&& exists|k: nat| reached_bottom(#[trigger] cycles(initial_ground(scans_spec(s)->0), k))
}

impl Ground {
    pub fn new(scans: &Vec<Point>) -> (r: Ground)
        requires
            ground_ok(scans@),
        ensures
            r.view() == initial_ground(scans@),
            r.top == min_y(scans@),
    {
        let ghost ps = scans@;
        let mut lo_x: usize = usize::MAX;
        let mut hi_x: usize = 0;
        let mut lo_y: usize = usize::MAX;
        let mut hi_y: usize = 0;
        let mut i: usize = 0;
        while i < scans.len()
            invariant
                i <= scans.len(),
                ps == scans@,
                lo_x == min_x(ps.take(i as int)),
                hi_x == max_x(ps.take(i as int)),
                lo_y == min_y(ps.take(i as int)),
                hi_y == max_y(ps.take(i as int)),
            decreases scans.len() - i,
        {
            assert(ps.take(i + 1).drop_last() =~= ps.take(i as int));
            let p = scans[i];
            if p.0 < lo_x {
                lo_x = p.0;
            }
            if p.0 > hi_x {
                hi_x = p.0;
            }
            if p.1 < lo_y {
                lo_y = p.1;
            }
            if p.1 > hi_y {
                hi_y = p.1;
            }
            i = i + 1;
        }
        assert(ps.take(scans.len() as int) =~= ps);
        let left = lo_x - 1;
        let width = hi_x - lo_x + 3;
        let height = hi_y + 2;
        let mut cells: Vec<Vec<Cell>> = Vec::new();
        let mut y: usize = 0;
        while y < height
            invariant
                y <= height,
                cells.len() == y,
                forall|k: int| 0 <= k < y ==> (#[trigger] cells@[k])@ == Seq::new(width as nat, |c: int| Cell::Sand),
            decreases height - y,
        {
            let mut row: Vec<Cell> = Vec::new();
            let mut c: usize = 0;
            while c < width
                invariant
                    c <= width,
                    row@ == Seq::new(c as nat, |c: int| Cell::Sand),
                decreases width - c,
            {
                row.push(Cell::Sand);
                assert(row@ =~= Seq::new((c + 1) as nat, |c: int| Cell::Sand));
                c = c + 1;
            }
            cells.push(row);
            y = y + 1;
        }
        let mut k: usize = 0;
        while k < scans.len()
            invariant
                k <= scans.len(),
                ps == scans@,
                ground_ok(ps),
                left == min_x(ps) - 1,
                width == max_x(ps) - min_x(ps) + 3,
                height == max_y(ps) + 2,
                cells.len() == height,
                forall|yy: int| 0 <= yy < height ==> (#[trigger] cells@[yy])@.len() == width,
                forall|yy: int, c: int|
                    0 <= yy < height && 0 <= c < width ==> (#[trigger] cells@[yy]@[c]) == (if has_clay(
                        ps.take(k as int),
                        c + left,
                        yy,
                    ) {
                        Cell::Clay
                    } else {
                        Cell::Sand
                    }),
            decreases scans.len() - k,
        {
            let p = scans[k];
            proof {
                lemma_bounds(ps, k as int);
            }
            let mut row = cells[p.1].clone();
            row.set(p.0 - left, Cell::Clay);
            cells.set(p.1, row);
            proof {
                let pk = ps.take(k as int);
                let pk1 = ps.take(k + 1);
                assert forall|yy: int, c: int|
                    0 <= yy < height && 0 <= c < width implies (#[trigger] cells@[yy]@[c]) == (if has_clay(
                        ps.take(k + 1),
                        c + left,
                        yy,
                    ) {
                        Cell::Clay
                    } else {
                        Cell::Sand
                    }) by {
                    if has_clay(pk, c + left, yy) {
                        let m = choose|m: int| 0 <= m < pk.len() && (#[trigger] pk[m]).0 == c + left && pk[m].1 == yy;
                        assert(pk1[m] == ps[m]);
                    }
                    if has_clay(pk1, c + left, yy) {
                        let m = choose|m: int| 0 <= m < pk1.len() && (#[trigger] pk1[m]).0 == c + left && pk1[m].1 == yy;
                        if m < k {
                            assert(pk[m] == ps[m]);
                        }
                    }
                    if yy == p.1 && c == p.0 - left {
                        assert(pk1[k as int] == p);
                    }
                }
            }
            k = k + 1;
        }
        assert(ps.take(scans.len() as int) =~= ps);
        let mut row0 = cells[0].clone();
        row0.set(500 - left, Cell::WaterSpring);
        cells.set(0, row0);
        let g = Ground { top: lo_y, cells };
        assert(g.view() =~= initial_ground(ps)) by {
            assert forall|yy: int| 0 <= yy < height implies #[trigger] g.view()[yy] =~= initial_ground(ps)[yy] by {
                assert(g.view()[yy] == g.cells@[yy]@);
            }
        }
        g
    }
}

proof fn lemma_bounds(ps: Seq<Point>, k: int)
    requires
        0 <= k < ps.len(),
    ensures
        min_x(ps) <= ps[k].0 <= max_x(ps),
        min_y(ps) <= ps[k].1 <= max_y(ps),
    decreases ps.len(),
{
    if k < ps.len() - 1 {
        lemma_bounds(ps.drop_last(), k);
    }
}

impl Ground {
    /// Whether water has reached the lowest row of clay.
    pub fn can_end(&self) -> (r: bool)
        requires
            ground_wf(self.view()),
        ensures
            r == reached_bottom(self.view()),
    {
        let ghost g = self.view();
        let l = self.cells.len();
        let row = &self.cells[l - 2];
        assert(row@ == g[l - 2]);
        let mut c: usize = 0;
        while c < row.len()
            invariant
                c <= row.len(),
                l >= 2,
                g == self.view(),
                row@ == g[l - 2],
                g.len() == l,
                forall|m: int| 0 <= m < c ==> !wet(#[trigger] g[l - 2][m]),
            decreases row.len() - c,
        {
            if row[c] == Cell::WaterFlowing || row[c] == Cell::WaterAtRest {
                assert(wet(g[l - 2][c as int]));
                return true;
            }
            c = c + 1;
        }
        false
    }

    fn count_water(&self, rest_only: bool) -> (r: u128)
        ensures
            r == water_count(self.view(), self.top as int, rest_only),
    {
        let ghost g = self.view();
        let mut n: u128 = 0;
        let mut y: usize = 0;
        while y < self.cells.len()
            invariant
                y <= self.cells.len(),
                g == self.view(),
                n == water_count(g.take(y as int), self.top as int, rest_only),
                n <= y * 0x1_0000_0000_0000_0000,
            decreases self.cells.len() - y,
        {
            assert(g.take(y + 1).drop_last() =~= g.take(y as int));
            let row = &self.cells[y];
            assert(row@ == g[y as int]);
            if y >= self.top {
                let mut m: u128 = 0;
                let mut c: usize = 0;
                while c < row.len()
                    invariant
                        c <= row.len(),
                        m == row_count(row@.take(c as int), rest_only),
                        m <= c,
                    decreases row.len() - c,
                {
                    assert(row@.take(c + 1).drop_last() =~= row@.take(c as int));
                    let x = row[c];
                    if (rest_only && x == Cell::WaterAtRest) || (!rest_only && (x == Cell::WaterFlowing
                        || x == Cell::WaterAtRest)) {
                        m = m + 1;
                    }
                    c = c + 1;
                }
                assert(row@.take(row.len() as int) =~= row@);
                n = n + m;
            }
            y = y + 1;
        }
        assert(g.take(self.cells.len() as int) =~= g);
        n
    }
}

proof fn lemma_initial_wf(ps: Seq<Point>)
    requires
        ground_ok(ps),
    ensures
        ground_wf(initial_ground(ps)),
{
    lemma_bounds(ps, 0);
}

/// Runs the flow until it reaches the lowest row of clay.
fn flow(input: &str) -> (r: Ground)
    requires
        reservoir_ok(input@),
    ensures
        exists|k: nat|
            first_bottom(scans_spec(input@)->0, k) && r.view() == cycles(
                initial_ground(scans_spec(input@)->0),
                k,
            ),
        r.top == min_y(scans_spec(input@)->0),
{
    let scans = match parse_scans(input) {
        Some(v) => v,
        None => {
            return Ground { top: 0, cells: Vec::new() };
        },
    };
    let ghost ps = scans@;
    let ghost g0 = initial_ground(ps);
    let ghost bound = choose|k: nat| reached_bottom(#[trigger] cycles(g0, k));
    proof {
        lemma_initial_wf(ps);
    }
    let mut ground = Ground::new(&scans);
    let ghost mut k: nat = 0;
    loop
        invariant
            ps == scans_spec(input@)->0,
            g0 == initial_ground(ps),
            ground_wf(g0),
            reached_bottom(cycles(g0, bound)),
            ground.view() == cycles(g0, k),
            ground.top == min_y(ps),
            k <= bound,
            forall|k2: nat| k2 < k ==> !reached_bottom(#[trigger] cycles(g0, k2)),
        decreases bound - k,
    {
        proof {
            lemma_cycles_wf(g0, k);
        }
        if ground.can_end() {
            assert(first_bottom(ps, k));
            return ground;
        }
        ground.next_cycle();
        proof {
            k = k + 1;
        }
    }
}

/// The number of tiles the water reaches, from the row of the highest clay
/// down, once it first reaches the lowest row of clay.
pub fn reservoir_reach(input: &str) -> (r: usize)
    requires
        reservoir_ok(input@),
        forall|k: nat|
            first_bottom(scans_spec(input@)->0, k) ==> water_count(
                #[trigger] cycles(initial_ground(scans_spec(input@)->0), k),
                min_y(scans_spec(input@)->0),
                false,
            ) <= usize::MAX,
    ensures
        exists|k: nat|
            first_bottom(scans_spec(input@)->0, k) && r == water_count(
                cycles(initial_ground(scans_spec(input@)->0), k),
                min_y(scans_spec(input@)->0),
                false,
            ),
{
    let ground = flow(input);
    let n = ground.count_water(false);
    n as usize
}

/// The number of tiles of water at rest, from the row of the highest clay
/// down, once the water first reaches the lowest row of clay.
pub fn reservoir_capacity(input: &str) -> (r: usize)
    requires
        reservoir_ok(input@),
        forall|k: nat|
            first_bottom(scans_spec(input@)->0, k) ==> water_count(
                #[trigger] cycles(initial_ground(scans_spec(input@)->0), k),
                min_y(scans_spec(input@)->0),
                true,
            ) <= usize::MAX,
    ensures
        exists|k: nat|
            first_bottom(scans_spec(input@)->0, k) && r == water_count(
                cycles(initial_ground(scans_spec(input@)->0), k),
                min_y(scans_spec(input@)->0),
                true,
            ),
{
    let ground = flow(input);
    let n = ground.count_water(true);
    n as usize
}

} // verus!
