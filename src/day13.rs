use vstd::prelude::*;
use crate::text::{chars_of, split, split_chars};

verus! {

/// A location on the track map; in results, 0-based column and row.
#[derive(Debug, Clone, Copy, PartialEq, Eq, Structural)]
pub struct Point {
    pub x: usize,
    pub y: usize,
}

/// What a cell of the map holds.
#[derive(Debug, Clone, Copy, PartialEq, Eq, Structural)]
pub enum Grid {
    NA,
    Horizontal,
    Vertical,
    Intersection,
    Turn,
}

#[derive(Debug, Clone, Copy, PartialEq, Eq, Structural)]
pub enum Orientation {
    Left,
    Right,
    Up,
    Down,
}

/// What a cart does at an intersection.
#[derive(Debug, Clone, Copy, PartialEq, Eq, Structural)]
pub enum Decision {
    Left,
    Straight,
    Right,
}

/// A cart: where it stands, with a border of one cell added on the top and
/// left of the map; where it heads; and what it does at the next
/// intersection.
#[derive(Debug, Clone, Copy, PartialEq, Eq, Structural)]
pub struct Cart {
    pub point: Point,
    pub orientation: Orientation,
    pub next_decision: Decision,
}

/// The map cell a character of the input stands for.
pub open spec fn grid_of_char(c: char) -> Grid {
    if c == '-' || c == '>' || c == '<' {
        Grid::Horizontal
    } else if c == '|' || c == '^' || c == 'v' {
        Grid::Vertical
    } else if c == '+' {
        Grid::Intersection
    } else if c == '\\' || c == '/' {
        Grid::Turn
    } else {
        Grid::NA
    }
}

/// The non-empty lines of `ls`.
pub open spec fn nonempty(ls: Seq<Seq<char>>) -> Seq<Seq<char>>
    decreases ls.len(),
{
    if ls.len() == 0 {
        ls
    } else if ls.last().len() == 0 {
        nonempty(ls.drop_last())
    } else {
        nonempty(ls.drop_last()).push(ls.last())
    }
}

/// The rows of the map: the non-empty lines of the input.
pub open spec fn map_rows(s: Seq<char>) -> Seq<Seq<char>> {
    nonempty(split(s, '\n'))
}

pub open spec fn grid_row(r: Seq<char>) -> Seq<Grid> {
    r.map_values(|c: char| grid_of_char(c))
}

/// The map cell at bordered position `(x, y)`: the border and everything
/// outside the map is `NA`.
pub open spec fn cell(g: Seq<Seq<Grid>>, x: int, y: int) -> Grid {
    if 1 <= y <= g.len() && 1 <= x <= g[y - 1].len() {
        g[y - 1][x - 1]
    } else {
        Grid::NA
    }
}

pub open spec fn is_vertical_way(t: Grid) -> bool {
    t == Grid::Vertical || t == Grid::Intersection
}

pub open spec fn is_horizontal_way(t: Grid) -> bool {
    t == Grid::Horizontal || t == Grid::Intersection
}

pub open spec fn turn_left(o: Orientation) -> Orientation {
    match o {
        Orientation::Left => Orientation::Down,
        Orientation::Right => Orientation::Up,
        Orientation::Up => Orientation::Left,
        Orientation::Down => Orientation::Right,
    }
}

pub open spec fn turn_right(o: Orientation) -> Orientation {
    match o {
        Orientation::Left => Orientation::Up,
        Orientation::Right => Orientation::Down,
        Orientation::Up => Orientation::Right,
        Orientation::Down => Orientation::Left,
    }
}

pub open spec fn following(d: Decision) -> Decision {
    match d {
        Decision::Left => Decision::Straight,
        Decision::Straight => Decision::Right,
        Decision::Right => Decision::Left,
    }
}

/// The position one cell ahead; coordinates stop at 0 and at `usize::MAX`.
pub open spec fn ahead(p: Point, o: Orientation) -> Point {
    match o {
        Orientation::Left => Point { x: if p.x > 0 { (p.x - 1) as usize } else { 0 }, y: p.y },
        Orientation::Right => Point {
            x: if p.x < usize::MAX { (p.x + 1) as usize } else { p.x },
            y: p.y,
        },
        Orientation::Up => Point { x: p.x, y: if p.y > 0 { (p.y - 1) as usize } else { 0 } },
        Orientation::Down => Point {
            x: p.x,
            y: if p.y < usize::MAX { (p.y + 1) as usize } else { p.y },
        },
    }
}

/// A cart moves one cell ahead. On a curve it takes the way that the
/// neighbouring cells continue (up or down when it came sideways, left or
/// right when it came vertically). On an intersection it turns left, goes
/// straight or turns right, in turn.
pub open spec fn move_cart(g: Seq<Seq<Grid>>, c: Cart) -> Cart {
    let p = ahead(c.point, c.orientation);
    let x = p.x as int;
    let y = p.y as int;
    match cell(g, x, y) {
        Grid::Turn => {
            let o = match c.orientation {
                Orientation::Left | Orientation::Right => if is_vertical_way(cell(g, x, y - 1)) {
                    Orientation::Up
                } else if is_vertical_way(cell(g, x, y + 1)) {
                    Orientation::Down
                } else {
                    c.orientation
                },
                Orientation::Up | Orientation::Down => if is_horizontal_way(cell(g, x - 1, y)) {
                    Orientation::Left
                } else if is_horizontal_way(cell(g, x + 1, y)) {
                    Orientation::Right
                } else {
                    c.orientation
                },
            };
            Cart { point: p, orientation: o, next_decision: c.next_decision }
        },
        Grid::Intersection => {
            let o = match c.next_decision {
                Decision::Left => turn_left(c.orientation),
                Decision::Straight => c.orientation,
                Decision::Right => turn_right(c.orientation),
            };
            Cart { point: p, orientation: o, next_decision: following(c.next_decision) }
        },
        _ => Cart { point: p, orientation: c.orientation, next_decision: c.next_decision },
    }
}

/// The cart that character `ch` at 0-based `(x, y)` of the map stands for.
pub open spec fn cart_of_char(ch: char, x: int, y: int) -> Option<Cart> {
    let point = Point { x: (x + 1) as usize, y: (y + 1) as usize };
    if ch == '>' {
        Some(Cart { point, orientation: Orientation::Right, next_decision: Decision::Left })
    } else if ch == '<' {
        Some(Cart { point, orientation: Orientation::Left, next_decision: Decision::Left })
    } else if ch == '^' {
        Some(Cart { point, orientation: Orientation::Up, next_decision: Decision::Left })
    } else if ch == 'v' {
        Some(Cart { point, orientation: Orientation::Down, next_decision: Decision::Left })
    } else {
        None
    }
}

/// The carts on row `y` of the map, left to right.
pub open spec fn carts_of_row(r: Seq<char>, y: int) -> Seq<Cart>
    decreases r.len(),
{
    if r.len() == 0 {
        Seq::empty()
    } else {
        let before = carts_of_row(r.drop_last(), y);
        match cart_of_char(r.last(), r.len() - 1, y) {
            Some(c) => before.push(c),
            None => before,
        }
    }
}

/// The carts on the map, row by row.
pub open spec fn carts_of_rows(rows: Seq<Seq<char>>) -> Seq<Cart>
    decreases rows.len(),
{
    if rows.len() == 0 {
        Seq::empty()
    } else {
        carts_of_rows(rows.drop_last()) + carts_of_row(rows.last(), rows.len() - 1)
    }
}

/// The order in which carts move: by row, then by column; whether `a` moves
/// no later than `b`.
pub open spec fn moves_before(a: Cart, b: Cart) -> bool {
    a.point.y < b.point.y || (a.point.y == b.point.y && a.point.x <= b.point.x)
}

/// `cs`, in moving order, with `c` placed after every cart that moves no
/// later.
pub open spec fn insert_sorted(cs: Seq<Cart>, c: Cart) -> Seq<Cart>
    decreases cs.len(),
{
    if cs.len() == 0 {
        seq![c]
    } else if moves_before(cs.last(), c) {
        cs.push(c)
    } else {
        insert_sorted(cs.drop_last(), c).push(cs.last())
    }
}

/// The carts in moving order, those at the same place kept in their order.
pub open spec fn sort_carts(cs: Seq<Cart>) -> Seq<Cart>
    decreases cs.len(),
{
    if cs.len() == 0 {
        cs
    } else {
        insert_sorted(sort_carts(cs.drop_last()), cs.last())
    }
}


/// One tick in which no cart is taken away: every cart moves, in order.
pub open spec fn tick(g: Seq<Seq<Grid>>, cs: Seq<Cart>) -> Seq<Cart> {
    sort_carts(cs).map_values(|c: Cart| move_cart(g, c))
}

pub open spec fn ticks(g: Seq<Seq<Grid>>, cs: Seq<Cart>, k: nat) -> Seq<Cart>
    decreases k,
{
    if k == 0 {
        cs
    } else {
        tick(g, ticks(g, cs, (k - 1) as nat))
    }
}

/// A bordered position back in 0-based map coordinates.
pub open spec fn unbordered(p: Point) -> Point {
    Point {
        x: if p.x > 0 { (p.x - 1) as usize } else { 0 },
        y: if p.y > 0 { (p.y - 1) as usize } else { 0 },
    }
}

/// The grid and the carts of a map text.
pub open spec fn map_grid(s: Seq<char>) -> Seq<Seq<Grid>> {
    map_rows(s).map_values(|r: Seq<char>| grid_row(r))
}

pub open spec fn map_carts(s: Seq<char>) -> Seq<Cart> {
    carts_of_rows(map_rows(s))
}

/// The carts of a tick from `s` (in moving order) once the first `i` of
/// them have moved.
pub open spec fn moved(g: Seq<Seq<Grid>>, s: Seq<Cart>, i: int) -> Seq<Cart> {
    Seq::new(s.len(), |k: int| if k < i { move_cart(g, s[k]) } else { s[k] })
}

/// Whether cart `i` stands where another cart stands.
pub open spec fn hits(cs: Seq<Cart>, i: int) -> bool {
    0 <= i < cs.len() && exists|j: int|
        0 <= j < cs.len() && j != i && (#[trigger] cs[j]).point == cs[i].point
}

/// Whether, in the tick from the carts `cs`, the `i`-th cart to move runs
/// into another cart.
pub open spec fn crash_at(g: Seq<Seq<Grid>>, cs: Seq<Cart>, i: int) -> bool {
    hits(moved(g, sort_carts(cs), i + 1), i)
}

/// Whether a cart runs into another during the tick after the first `k`.
#[verifier::opaque]
pub open spec fn crash_in_tick(s: Seq<char>, k: nat) -> bool {
    exists|i: int| crash_at(map_grid(s), ticks(map_grid(s), map_carts(s), k), i)
}

/// Whether two carts that are still on the track stand at `p`.
pub open spec fn shared_by_two(cs: Seq<Cart>, gone: Seq<bool>, p: Point) -> bool {
    exists|a: int, b: int|
        0 <= a < cs.len() && 0 <= b < cs.len() && a != b && !gone[a] && !gone[b] && (
        #[trigger] cs[a]).point == p && (#[trigger] cs[b]).point == p
}

/// Takes away every cart that stands where two carts still on the track
/// stand.
pub open spec fn after_collisions(cs: Seq<Cart>, gone: Seq<bool>) -> Seq<bool> {
    Seq::new(gone.len(), |j: int| gone[j] || shared_by_two(cs, gone, cs[j].point))
}

/// The carts, and which of them were taken away, once the first `i` carts in
/// moving order have had their turn in a tick where colliding carts are taken
/// away at once.
pub open spec fn turns(g: Seq<Seq<Grid>>, s: Seq<Cart>, i: nat) -> (Seq<Cart>, Seq<bool>)
    decreases i,
{
    if i == 0 {
        (s, Seq::new(s.len(), |j: int| false))
    } else {
        let prev = turns(g, s, (i - 1) as nat);
        if prev.1[i - 1] {
            prev
        } else {
            let cs = prev.0.update(i - 1, move_cart(g, prev.0[i - 1]));
            (cs, after_collisions(cs, prev.1))
        }
    }
}

/// The carts that were not taken away.
pub open spec fn survivors(cs: Seq<Cart>, gone: Seq<bool>) -> Seq<Cart>
    decreases cs.len(),
{
    if cs.len() == 0 {
        cs
    } else if gone[cs.len() - 1] {
        survivors(cs.drop_last(), gone)
    } else {
        survivors(cs.drop_last(), gone).push(cs.last())
    }
}

/// One tick in which colliding carts are taken away.
pub open spec fn tick_removing(g: Seq<Seq<Grid>>, cs: Seq<Cart>) -> Seq<Cart> {
    let s = sort_carts(cs);
    let t = turns(g, s, s.len());
    survivors(t.0, t.1)
}

pub open spec fn ticks_removing(g: Seq<Seq<Grid>>, cs: Seq<Cart>, k: nat) -> Seq<Cart>
    decreases k,
{
    if k == 0 {
        cs
    } else {
        tick_removing(g, ticks_removing(g, cs, (k - 1) as nat))
    }
}

/// Whether exactly one cart is left after `k` ticks.
#[verifier::opaque]
pub open spec fn alone_after(s: Seq<char>, k: nat) -> bool {
    k >= 1 && ticks_removing(map_grid(s), map_carts(s), k).len() == 1
}

pub open spec fn grid_view(g: Seq<Vec<Grid>>) -> Seq<Seq<Grid>> {
    g.map_values(|r: Vec<Grid>| r@)
}

pub fn grid_new(ch: char) -> (r: Grid)
    ensures
        r == grid_of_char(ch),
{
    if ch == '-' || ch == '>' || ch == '<' {
        Grid::Horizontal
    } else if ch == '|' || ch == '^' || ch == 'v' {
        Grid::Vertical
    } else if ch == '+' {
        Grid::Intersection
    } else if ch == '\\' || ch == '/' {
        Grid::Turn
    } else {
        Grid::NA
    }
}

/// The map cell at bordered position `(x, y)`.
fn cell_at(g: &Vec<Vec<Grid>>, x: usize, y: usize) -> (r: Grid)
    ensures
        r == cell(grid_view(g@), x as int, y as int),
{
    if 1 <= y && y <= g.len() && 1 <= x && x <= g[y - 1].len() {
        g[y - 1][x - 1]
    } else {
        Grid::NA
    }
}

impl Cart {
    /// The cart that character `ch` at 0-based `(x, y)` stands for, if any.
    pub fn try_new(ch: char, x: usize, y: usize) -> (r: Option<Cart>)
        requires
            x < usize::MAX,
            y < usize::MAX,
        ensures
            r == cart_of_char(ch, x as int, y as int),
    {
        let point = Point { x: x + 1, y: y + 1 };
        if ch == '>' {
            Some(Cart { point, orientation: Orientation::Right, next_decision: Decision::Left })
        } else if ch == '<' {
            Some(Cart { point, orientation: Orientation::Left, next_decision: Decision::Left })
        } else if ch == '^' {
            Some(Cart { point, orientation: Orientation::Up, next_decision: Decision::Left })
        } else if ch == 'v' {
            Some(Cart { point, orientation: Orientation::Down, next_decision: Decision::Left })
        } else {
            None
        }
    }

    /// Moves the cart one cell on the map.
    pub fn next(&mut self, grid: &Vec<Vec<Grid>>)
        ensures
            *final(self) == move_cart(grid_view(grid@), *old(self)),
    {
        let p = self.point;
        let np = match self.orientation {
            Orientation::Left => Point { x: if p.x > 0 { p.x - 1 } else { 0 }, y: p.y },
            Orientation::Right => Point {
                x: if p.x < usize::MAX { p.x + 1 } else { p.x },
                y: p.y,
            },
            Orientation::Up => Point { x: p.x, y: if p.y > 0 { p.y - 1 } else { 0 } },
            Orientation::Down => Point {
                x: p.x,
                y: if p.y < usize::MAX { p.y + 1 } else { p.y },
            },
        };
        self.point = np;
        let x = np.x;
        let y = np.y;
        match cell_at(grid, x, y) {
            Grid::Turn => {
                match self.orientation {
                    Orientation::Left | Orientation::Right => {
                        let up = if y > 0 { cell_at(grid, x, y - 1) } else { Grid::NA };
                        let down = if y < usize::MAX { cell_at(grid, x, y + 1) } else { Grid::NA };
                        let rows = grid.len();
                        proof {
                            assert(cell(grid_view(grid@), x as int, y - 1) == up);
                            assert(cell(grid_view(grid@), x as int, y + 1) == down) by {
                                if y == usize::MAX {
                                    assert(y + 1 > rows);
                                }
                            }
                        }
                        if up == Grid::Vertical || up == Grid::Intersection {
                            self.orientation = Orientation::Up;
                        } else if down == Grid::Vertical || down == Grid::Intersection {
                            self.orientation = Orientation::Down;
                        }
                    },
                    Orientation::Up | Orientation::Down => {
                        let left = if x > 0 { cell_at(grid, x - 1, y) } else { Grid::NA };
                        let right = if x < usize::MAX { cell_at(grid, x + 1, y) } else { Grid::NA };
                        let width = if 1 <= y && y <= grid.len() { grid[y - 1].len() } else { 0 };
                        proof {
                            assert(cell(grid_view(grid@), x - 1, y as int) == left);
                            assert(cell(grid_view(grid@), x + 1, y as int) == right) by {
                                if x == usize::MAX && 1 <= y <= grid@.len() {
                                    assert(grid_view(grid@)[y - 1].len() == width);
                                }
                            }
                        }
                        if left == Grid::Horizontal || left == Grid::Intersection {
                            self.orientation = Orientation::Left;
                        } else if right == Grid::Horizontal || right == Grid::Intersection {
                            self.orientation = Orientation::Right;
                        }
                    },
                }
            },
            Grid::Intersection => {
                let d = self.next_decision;
                self.next_decision = match d {
                    Decision::Left => Decision::Straight,
                    Decision::Straight => Decision::Right,
                    Decision::Right => Decision::Left,
                };
                match d {
                    Decision::Left => {
                        self.orientation = match self.orientation {
                            Orientation::Left => Orientation::Down,
                            Orientation::Right => Orientation::Up,
                            Orientation::Up => Orientation::Left,
                            Orientation::Down => Orientation::Right,
                        };
                    },
                    Decision::Right => {
                        self.orientation = match self.orientation {
                            Orientation::Left => Orientation::Up,
                            Orientation::Right => Orientation::Down,
                            Orientation::Up => Orientation::Right,
                            Orientation::Down => Orientation::Left,
                        };
                    },
                    Decision::Straight => {},
                }
            },
            _ => {},
        }
    }
}

/// The non-empty lines of the text `s`.
fn map_rows_of(s: &Vec<char>) -> (r: Vec<Vec<char>>)
    ensures
        r@.map_values(|l: Vec<char>| l@) == map_rows(s@),
{
    let lines = split_chars(s, '\n');
    let ghost ls = lines@.map_values(|l: Vec<char>| l@);
    let mut r: Vec<Vec<char>> = Vec::new();
    let mut i: usize = 0;
    while i < lines.len()
        invariant
            i <= lines.len(),
            ls == lines@.map_values(|l: Vec<char>| l@),
            ls == split(s@, '\n'),
            r@.map_values(|l: Vec<char>| l@) == nonempty(ls.take(i as int)),
        decreases lines.len() - i,
    {
        assert(ls.take(i + 1).drop_last() =~= ls.take(i as int));
        assert(lines@[i as int]@ == ls[i as int]);
        if lines[i].len() > 0 {
            let ghost old_r = r@;
            r.push(lines[i].clone());
            assert(r@.map_values(|l: Vec<char>| l@) =~= old_r.map_values(|l: Vec<char>| l@).push(
                ls[i as int],
            ));
        }
        i = i + 1;
    }
    assert(ls.take(lines.len() as int) =~= ls);
    r
}

/// The grid of the map rows.
fn build_grid(rows: &Vec<Vec<char>>) -> (g: Vec<Vec<Grid>>)
    ensures
        grid_view(g@) == rows@.map_values(|l: Vec<char>| l@).map_values(
            |r: Seq<char>| grid_row(r),
        ),
{
    let mut g: Vec<Vec<Grid>> = Vec::new();
    let mut i: usize = 0;
    while i < rows.len()
        invariant
            i <= rows.len(),
            g.len() == i,
            forall|k: int| 0 <= k < i ==> (#[trigger] g@[k])@ == grid_row(rows@[k]@),
        decreases rows.len() - i,
    {
        let row = &rows[i];
        let mut gr: Vec<Grid> = Vec::new();
        let mut j: usize = 0;
        while j < row.len()
            invariant
                j <= row.len(),
                gr@ == grid_row(row@.take(j as int)),
            decreases row.len() - j,
        {
            gr.push(grid_new(row[j]));
            assert(gr@ =~= grid_row(row@.take(j + 1)));
            j = j + 1;
        }
        assert(row@.take(row.len() as int) =~= row@);
        g.push(gr);
        i = i + 1;
    }
    assert(grid_view(g@) =~= rows@.map_values(|l: Vec<char>| l@).map_values(
        |r: Seq<char>| grid_row(r),
    ));
    g
}

/// The carts on the map rows, row by row.
fn initial_carts(rows: &Vec<Vec<char>>) -> (r: Vec<Cart>)
    ensures
        r@ == carts_of_rows(rows@.map_values(|l: Vec<char>| l@)),
{
    let ghost rs = rows@.map_values(|l: Vec<char>| l@);
    let mut carts: Vec<Cart> = Vec::new();
    let mut i: usize = 0;
    while i < rows.len()
        invariant
            i <= rows.len(),
            rs == rows@.map_values(|l: Vec<char>| l@),
            carts@ == carts_of_rows(rs.take(i as int)),
        decreases rows.len() - i,
    {
        let row = &rows[i];
        assert(rs.take(i + 1).drop_last() =~= rs.take(i as int));
        assert(rs[i as int] == row@);
        let ghost before = carts@;
        let mut j: usize = 0;
        while j < row.len()
            invariant
                i < rows.len(),
                j <= row.len(),
                carts@ == before + carts_of_row(row@.take(j as int), i as int),
            decreases row.len() - j,
        {
            assert(row@.take(j + 1).drop_last() =~= row@.take(j as int));
            match Cart::try_new(row[j], j, i) {
                Some(c) => {
                    carts.push(c);
                    assert(carts@ =~= before + carts_of_row(row@.take(j + 1), i as int));
                },
                None => {},
            }
            j = j + 1;
        }
        assert(row@.take(row.len() as int) =~= row@);
        i = i + 1;
    }
    assert(rs.take(rows.len() as int) =~= rs);
    carts
}

fn no_later(a: &Cart, b: &Cart) -> (r: bool)
    ensures
        r == moves_before(*a, *b),
{
    a.point.y < b.point.y || (a.point.y == b.point.y && a.point.x <= b.point.x)
}

proof fn lemma_insert_at(cs: Seq<Cart>, c: Cart, i: int)
    requires
        0 <= i <= cs.len(),
        forall|k: int| i <= k < cs.len() ==> !moves_before(#[trigger] cs[k], c),
        i == 0 || moves_before(cs[i - 1], c),
    ensures
        insert_sorted(cs, c) == cs.insert(i, c),
    decreases cs.len() - i,
{
    if cs.len() == 0 {
        assert(cs.insert(i, c) =~= seq![c]);
    } else if i == cs.len() {
        assert(cs.insert(i, c) =~= cs.push(c));
    } else {
        lemma_insert_at(cs.drop_last(), c, i);
        assert(cs.drop_last().insert(i, c).push(cs.last()) =~= cs.insert(i, c));
    }
}

/// The carts in moving order, those at the same place kept in their order.
fn sort_by_key(cs: &Vec<Cart>) -> (r: Vec<Cart>)
    ensures
        r@ == sort_carts(cs@),
{
    let mut r: Vec<Cart> = Vec::new();
    let mut n: usize = 0;
    while n < cs.len()
        invariant
            n <= cs.len(),
            r@ == sort_carts(cs@.take(n as int)),
            r.len() == n,
        decreases cs.len() - n,
    {
        let c = cs[n];
        let mut i = r.len();
        while i > 0 && !no_later(&r[i - 1], &c)
            invariant
                i <= r.len(),
                forall|k: int| i <= k < r.len() ==> !moves_before(#[trigger] r@[k], c),
            decreases i,
        {
            i = i - 1;
        }
        proof {
            lemma_insert_at(r@, c, i as int);
            assert(cs@.take(n + 1).drop_last() =~= cs@.take(n as int));
        }
        r.insert(i, c);
        n = n + 1;
    }
    assert(cs@.take(cs.len() as int) =~= cs@);
    r
}

/// Reads the grid and the carts of a map text.
fn read_map(input: &str) -> (r: (Vec<Vec<Grid>>, Vec<Cart>))
    ensures
        grid_view(r.0@) == map_grid(input@),
        r.1@ == map_carts(input@),
{
    let s = chars_of(input);
    let rows = map_rows_of(&s);
    let grid = build_grid(&rows);
    let carts = initial_carts(&rows);
    (grid, carts)
}

/// One tick in which no cart is taken away.
fn tick_all(grid: &Vec<Vec<Grid>>, carts: &Vec<Cart>) -> (r: Vec<Cart>)
    ensures
        r@ == tick(grid_view(grid@), carts@),
{
    let mut sorted = sort_by_key(carts);
    let ghost s0 = sorted@;
    let mut i: usize = 0;
    while i < sorted.len()
        invariant
            i <= sorted.len() == s0.len(),
            forall|k: int| 0 <= k < i ==> sorted@[k] == move_cart(grid_view(grid@), #[trigger] s0[k]),
            forall|k: int| i <= k < sorted.len() ==> sorted@[k] == s0[k],
        decreases sorted.len() - i,
    {
        let mut c = sorted[i];
        c.next(grid);
        sorted.set(i, c);
        i = i + 1;
    }
    assert(sorted@ =~= tick(grid_view(grid@), carts@));
    sorted
}

/// One tick that stops at the first cart that runs into another: either
/// the carts after the tick, or the index in moving order of the cart that
/// crashed and where.
fn tick_until_crash(grid: &Vec<Vec<Grid>>, carts: &Vec<Cart>) -> (r: Result<Vec<Cart>, (usize, Point)>)
    ensures
        match r {
            Ok(next) => next@ == tick(grid_view(grid@), carts@) && forall|i: int|
                !#[trigger] crash_at(grid_view(grid@), carts@, i),
            Err((i, p)) => crash_at(grid_view(grid@), carts@, i as int) && (forall|i2: int|
                0 <= i2 < i ==> !#[trigger] crash_at(grid_view(grid@), carts@, i2)) && p == moved(
                grid_view(grid@),
                sort_carts(carts@),
                i + 1,
            )[i as int].point,
        },
{
    let ghost g = grid_view(grid@);
    let mut sorted = sort_by_key(carts);
    let ghost s0 = sorted@;
    let n = sorted.len();
    let mut i: usize = 0;
    assert(sorted@ =~= moved(g, s0, 0));
    while i < n
        invariant
            i <= n == sorted.len() == s0.len(),
            g == grid_view(grid@),
            s0 == sort_carts(carts@),
            sorted@ == moved(g, s0, i as int),
            forall|i2: int| 0 <= i2 < i ==> !#[trigger] crash_at(g, carts@, i2),
        decreases n - i,
    {
        let mut c = sorted[i];
        c.next(grid);
        sorted.set(i, c);
        assert(sorted@ =~= moved(g, s0, i + 1));
        let mut j: usize = 0;
        while j < n
            invariant
                i < n == sorted.len() == s0.len(),
                j <= n,
                g == grid_view(grid@),
                s0 == sort_carts(carts@),
                sorted@ == moved(g, s0, i + 1),
                forall|i2: int| 0 <= i2 < i ==> !#[trigger] crash_at(g, carts@, i2),
                forall|j2: int| 0 <= j2 < j && j2 != i ==> sorted@[j2].point != sorted@[i as int].point,
            decreases n - j,
        {
            if j != i && sorted[j].point == sorted[i].point {
                assert(hits(sorted@, i as int));
                return Err((i, sorted[i].point));
            }
            j = j + 1;
        }
        assert(!hits(sorted@, i as int));
        i = i + 1;
    }
    assert(sorted@ =~= tick(g, carts@));
    assert forall|i: int| !#[trigger] crash_at(g, carts@, i) by {
        if 0 <= i < n {
        }
    }
    Ok(sorted)
}

/// Where the first crash happens: the cell where a cart first runs into
/// another as the carts move one by one; 0-based.
pub fn first_crash(input: &str) -> (r: Point)
    requires
        exists|k: nat| crash_in_tick(input@, k),
    ensures
        exists|k: nat, i: int|
            {
                &&& crash_in_tick(input@, k)
                &&& forall|k2: nat| k2 < k ==> !crash_in_tick(input@, k2)
                &&& #[trigger] crash_at(
                    map_grid(input@),
                    ticks(map_grid(input@), map_carts(input@), k),
                    i,
                )
                &&& forall|i2: int|
                    0 <= i2 < i ==> !#[trigger] crash_at(
                        map_grid(input@),
                        ticks(map_grid(input@), map_carts(input@), k),
                        i2,
                    )
                &&& r == unbordered(
                    moved(
                        map_grid(input@),
                        sort_carts(ticks(map_grid(input@), map_carts(input@), k)),
                        i + 1,
                    )[i].point,
                )
            },
{
    let (grid, mut carts) = read_map(input);
    let ghost g = map_grid(input@);
    let ghost c0 = map_carts(input@);
    let ghost bound = choose|k: nat| crash_in_tick(input@, k);
    let ghost mut k: nat = 0;
    loop
        invariant
            grid_view(grid@) == g,
            g == map_grid(input@),
            c0 == map_carts(input@),
            crash_in_tick(input@, bound),
            carts@ == ticks(g, c0, k),
            k <= bound,
            forall|k2: nat| k2 < k ==> !crash_in_tick(input@, k2),
        decreases bound - k,
    {
        match tick_until_crash(&grid, &carts) {
            Err((i, p)) => {
                let x = if p.x > 0 { p.x - 1 } else { 0 };
                let y = if p.y > 0 { p.y - 1 } else { 0 };
                assert(crash_in_tick(input@, k)) by {
                    reveal(crash_in_tick);
                }
                return Point { x, y };
            },
            Ok(next) => {
                assert(!crash_in_tick(input@, k)) by {
                    reveal(crash_in_tick);
                }
                carts = next;
                proof {
                    k = k + 1;
                }
            },
        }
    }
}

proof fn lemma_turns_len(g: Seq<Seq<Grid>>, s: Seq<Cart>, i: nat)
    requires
        i <= s.len(),
    ensures
        turns(g, s, i).0.len() == s.len(),
        turns(g, s, i).1.len() == s.len(),
    decreases i,
{
    if i > 0 {
        lemma_turns_len(g, s, (i - 1) as nat);
    }
}

/// Which carts are taken away once a cart has moved.
fn collisions(cs: &Vec<Cart>, gone: &Vec<bool>) -> (r: Vec<bool>)
    requires
        cs.len() == gone.len(),
    ensures
        r@ == after_collisions(cs@, gone@),
{
    let n = cs.len();
    let mut shared: Vec<bool> = Vec::new();
    let mut a: usize = 0;
    while a < n
        invariant
            n == cs.len() == gone.len(),
            a <= n,
            shared.len() == a,
            forall|k: int|
                0 <= k < a ==> #[trigger] shared@[k] == (!gone@[k] && exists|b: int|
                    0 <= b < n && b != k && !gone@[b] && cs@[b].point == cs@[k].point),
        decreases n - a,
    {
        let mut found = false;
        if !gone[a] {
            let mut b: usize = 0;
            while b < n
                invariant
                    n == cs.len() == gone.len(),
                    a < n,
                    b <= n,
                    found == exists|b2: int|
                        0 <= b2 < b && b2 != a && !gone@[b2] && cs@[b2].point == cs@[a as int].point,
                decreases n - b,
            {
                if b != a && !gone[b] && cs[b].point == cs[a].point {
                    found = true;
                }
                b = b + 1;
            }
        }
        shared.push(found);
        a = a + 1;
    }
    let mut r: Vec<bool> = Vec::new();
    let mut j: usize = 0;
    while j < n
        invariant
            n == cs.len() == gone.len() == shared.len(),
            j <= n,
            r.len() == j,
            forall|k: int|
                0 <= k < n ==> #[trigger] shared@[k] == (!gone@[k] && exists|b: int|
                    0 <= b < n && b != k && !gone@[b] && cs@[b].point == cs@[k].point),
            forall|k: int|
                0 <= k < j ==> #[trigger] r@[k] == after_collisions(cs@, gone@)[k],
        decreases n - j,
    {
        let mut hit = gone[j];
        let mut a: usize = 0;
        while a < n
            invariant
                n == cs.len() == gone.len() == shared.len(),
                j < n,
                a <= n,
                forall|k: int|
                    0 <= k < n ==> #[trigger] shared@[k] == (!gone@[k] && exists|b: int|
                        0 <= b < n && b != k && !gone@[b] && cs@[b].point == cs@[k].point),
                hit == (gone@[j as int] || exists|a2: int|
                    0 <= a2 < a && shared@[a2] && cs@[a2].point == cs@[j as int].point),
            decreases n - a,
        {
            if shared[a] && cs[a].point == cs[j].point {
                hit = true;
            }
            a = a + 1;
        }
        proof {
            let p = cs@[j as int].point;
            if shared_by_two(cs@, gone@, p) {
                let (a2, b2) = choose|a2: int, b2: int|
                    0 <= a2 < cs@.len() && 0 <= b2 < cs@.len() && a2 != b2 && !gone@[a2]
                        && !gone@[b2] && (#[trigger] cs@[a2]).point == p && (
                    #[trigger] cs@[b2]).point == p;
                assert(shared@[a2]);
            }
            if exists|a2: int| 0 <= a2 < n && shared@[a2] && cs@[a2].point == p {
                let a2 = choose|a2: int| 0 <= a2 < n && shared@[a2] && cs@[a2].point == p;
                assert(shared@[a2]);
                let b2 = choose|b: int|
                    0 <= b < n && b != a2 && !gone@[b] && cs@[b].point == cs@[a2].point;
                assert(shared_by_two(cs@, gone@, p));
            }
        }
        r.push(hit);
        j = j + 1;
    }
    assert(r@ =~= after_collisions(cs@, gone@));
    r
}

/// The carts that were not taken away.
fn keep_survivors(cs: &Vec<Cart>, gone: &Vec<bool>) -> (r: Vec<Cart>)
    requires
        cs.len() == gone.len(),
    ensures
        r@ == survivors(cs@, gone@),
{
    let mut r: Vec<Cart> = Vec::new();
    let mut i: usize = 0;
    while i < cs.len()
        invariant
            cs.len() == gone.len(),
            i <= cs.len(),
            r@ == survivors(cs@.take(i as int), gone@),
        decreases cs.len() - i,
    {
        assert(cs@.take(i + 1).drop_last() =~= cs@.take(i as int));
        if !gone[i] {
            r.push(cs[i]);
        }
        i = i + 1;
    }
    assert(cs@.take(cs.len() as int) =~= cs@);
    r
}

/// One tick in which colliding carts are taken away.
fn tick_with_removal(grid: &Vec<Vec<Grid>>, carts: &Vec<Cart>) -> (r: Vec<Cart>)
    ensures
        r@ == tick_removing(grid_view(grid@), carts@),
{
    let ghost g = grid_view(grid@);
    let mut cs = sort_by_key(carts);
    let ghost s = cs@;
    let n = cs.len();
    let mut gone: Vec<bool> = Vec::new();
    let mut i: usize = 0;
    while i < n
        invariant
            i <= n,
            gone.len() == i,
            forall|k: int| 0 <= k < i ==> !gone@[k],
        decreases n - i,
    {
        gone.push(false);
        i = i + 1;
    }
    assert(gone@ =~= Seq::new(s.len(), |j: int| false));
    let mut i: usize = 0;
    while i < n
        invariant
            n == s.len(),
            i <= n,
            g == grid_view(grid@),
            (cs@, gone@) == turns(g, s, i as nat),
            cs.len() == n,
            gone.len() == n,
        decreases n - i,
    {
        proof {
            lemma_turns_len(g, s, i as nat);
        }
        if !gone[i] {
            let mut c = cs[i];
            c.next(grid);
            cs.set(i, c);
            gone = collisions(&cs, &gone);
        }
        i = i + 1;
    }
    keep_survivors(&cs, &gone)
}

/// Where the last cart stands once all others have been taken away in
/// collisions; 0-based.
pub fn last_cart_location(input: &str) -> (r: Point)
    requires
        exists|k: nat| alone_after(input@, k),
    ensures
        exists|k: nat|
            {
                &&& alone_after(input@, k)
                &&& forall|k2: nat| k2 < k ==> !alone_after(input@, k2)
                &&& r == unbordered(
                    ticks_removing(map_grid(input@), map_carts(input@), k)[0].point,
                )
            },
{
    let (grid, mut carts) = read_map(input);
    let ghost g = map_grid(input@);
    let ghost c0 = map_carts(input@);
    let ghost bound = choose|k: nat| alone_after(input@, k);
    let ghost mut k: nat = 0;
    assert(!alone_after(input@, 0)) by {
        reveal(alone_after);
    }
    assert(bound > 0);
    loop
        invariant
            grid_view(grid@) == g,
            g == map_grid(input@),
            c0 == map_carts(input@),
            alone_after(input@, bound),
            carts@ == ticks_removing(g, c0, k),
            k < bound,
            forall|k2: nat| k2 <= k ==> !alone_after(input@, k2),
        decreases bound - k,
    {
        carts = tick_with_removal(&grid, &carts);
        proof {
            k = k + 1;
        }
        if carts.len() == 1 {
            let p = carts[0].point;
            let x = if p.x > 0 { p.x - 1 } else { 0 };
            let y = if p.y > 0 { p.y - 1 } else { 0 };
            assert(alone_after(input@, k)) by {
                reveal(alone_after);
            }
            return Point { x, y };
        }
        assert(!alone_after(input@, k)) by {
            reveal(alone_after);
        }
        assert forall|k2: nat| k2 <= k implies !alone_after(input@, k2) by {
            if k2 < k {
                assert(k2 <= (k - 1) as nat);
            }
        }
    }
}

} // verus!
