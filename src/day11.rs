use vstd::prelude::*;
use crate::text::{chars_of, digits_value, is_digits, parse_digits, trim, trim_range};

verus! {

/// A cell of the grid, by its 1-based coordinates.
#[derive(Debug, Clone, Copy, PartialEq, Eq, Structural)]
pub struct Point {
    pub x: usize,
    pub y: usize,
}

/// Side of the square grid of fuel cells.
pub const SIZE: usize = 300;

/// The power level of the fuel cell at 1-based `(x, y)` for a grid serial
/// number: with rack ID `x + 10`, the hundreds digit of
/// `(rack ID * y + serial) * rack ID`, minus 5.
pub open spec fn power_level(x: int, y: int, serial: int) -> int {
    let rack = x + 10;
    ((rack * y + serial) * rack % 1000) / 100 - 5
}

/// Total power of the 3x3 square whose top-left cell is the 1-based
/// `(x + 1, y + 1)`.
pub open spec fn square3(x: int, y: int, serial: int) -> int {
    power_level(x + 1, y + 1, serial) + power_level(x + 2, y + 1, serial) + power_level(
        x + 3,
        y + 1,
        serial,
    ) + power_level(x + 1, y + 2, serial) + power_level(x + 2, y + 2, serial) + power_level(
        x + 3,
        y + 2,
        serial,
    ) + power_level(x + 1, y + 3, serial) + power_level(x + 2, y + 3, serial) + power_level(
        x + 3,
        y + 3,
        serial,
    )
}

/// Whether `(x2, y2)` is scanned before `(x, y)`: by `x`, then by `y`.
pub open spec fn scanned_before(x2: int, y2: int, x: int, y: int) -> bool {
    x2 < x || (x2 == x && y2 < y)
}

/// Whether `(x, y)` is the top-left corner, less one on each axis, of a 3x3
/// square that the search looks at.
pub open spec fn in_search3(x: int, y: int) -> bool {
    0 <= x < SIZE - 2 && 0 <= y < SIZE - 2
}

/// The largest-powered 3x3 square: the first of those with the most power,
/// provided that is above 0; else `(0, 0)`.
pub open spec fn best_square3(r: Point, serial: int) -> bool {
    ||| (r == (Point { x: 0, y: 0 }) && forall|x: int, y: int|
        in_search3(x, y) ==> #[trigger] square3(x, y, serial) <= 0)
    ||| exists|x: int, y: int|
        {
            &&& in_search3(x, y)
            &&& r == (Point { x: (x + 1) as usize, y: (y + 1) as usize })
            &&& square3(x, y, serial) > 0
            &&& forall|x2: int, y2: int|
                in_search3(x2, y2) ==> #[trigger] square3(x2, y2, serial) <= square3(x, y, serial)
            &&& forall|x2: int, y2: int|
                in_search3(x2, y2) && scanned_before(x2, y2, x, y) ==> #[trigger] square3(
                    x2,
                    y2,
                    serial,
                ) < square3(x, y, serial)
        }
}

/// The serial numbers this grid takes: non-negative decimals small enough
/// that every power level is computed in `i64`.
pub open spec fn serial_ok(s: Seq<char>) -> bool {
    is_digits(trim(s)) && digits_value(trim(s)) <= 29_000_000_000_000_000
}

pub open spec fn serial_of(s: Seq<char>) -> int {
    digits_value(trim(s)) as int
}

/// The power level of the fuel cell at 1-based `(x, y)`.
fn cell_power(x: i64, y: i64, serial: i64) -> (r: i64)
    requires
        1 <= x <= SIZE,
        1 <= y <= SIZE,
        0 <= serial <= 29_000_000_000_000_000,
    ensures
        r == power_level(x as int, y as int, serial as int),
        -5 <= r <= 4,
{
    let rack = x + 10;
    assert(0 <= rack * y <= 310 * 300) by (nonlinear_arith)
        requires
            11 <= rack <= 310,
            1 <= y <= 300,
    ;
    assert(0 <= (rack * y + serial) * rack <= 310 * (310 * 300 + 29_000_000_000_000_000)) by (
    nonlinear_arith)
        requires
            11 <= rack <= 310,
            0 <= rack * y + serial <= 310 * 300 + 29_000_000_000_000_000,
    ;
    let p = (rack * y + serial) * rack;
    (p % 1000) / 100 - 5
}

fn read_serial(serial: &str) -> (r: i64)
    requires
        serial_ok(serial@),
    ensures
        r == serial_of(serial@),
{
    let s = chars_of(serial);
    let (a, b) = trim_range(&s, 0, s.len());
    assert(s@.subrange(0, s.len() as int) =~= s@);
    match parse_digits(&s, a, b) {
        Some(v) => v as i64,
        None => 0,
    }
}

/// The top-left cell of the 3x3 square with the largest total power.
pub fn largest_powered_cell(serial: &str) -> (r: Point)
    requires
        serial_ok(serial@),
    ensures
        best_square3(r, serial_of(serial@)),
{
    let s = read_serial(serial);
    let ghost sv = s as int;
    let mut max_power_level: i64 = 0;
    let mut max_point = Point { x: 0, y: 0 };
    let ghost mut bx: int = 0;
    let ghost mut by: int = 0;
    let mut x: usize = 0;
    while x < SIZE - 2
        invariant
            x <= SIZE - 2,
            sv == s,
            0 <= s <= 29_000_000_000_000_000,
            max_power_level >= 0,
            max_power_level == 0 ==> max_point == (Point { x: 0, y: 0 }),
            forall|x2: int, y2: int|
                in_search3(x2, y2) && x2 < x ==> #[trigger] square3(x2, y2, sv) <= max_power_level,
            max_power_level > 0 ==> {
                &&& in_search3(bx, by)
                &&& bx < x
                &&& max_point == (Point { x: (bx + 1) as usize, y: (by + 1) as usize })
                &&& square3(bx, by, sv) == max_power_level
                &&& forall|x2: int, y2: int|
                    in_search3(x2, y2) && scanned_before(x2, y2, bx, by) ==> #[trigger] square3(
                        x2,
                        y2,
                        sv,
                    ) < max_power_level
            },
        decreases SIZE - 2 - x,
    {
        let mut y: usize = 0;
        while y < SIZE - 2
            invariant
                x < SIZE - 2,
                y <= SIZE - 2,
                sv == s,
                0 <= s <= 29_000_000_000_000_000,
                max_power_level >= 0,
                max_power_level == 0 ==> max_point == (Point { x: 0, y: 0 }),
                forall|x2: int, y2: int|
                    in_search3(x2, y2) && scanned_before(x2, y2, x as int, y as int)
                        ==> #[trigger] square3(x2, y2, sv) <= max_power_level,
                max_power_level > 0 ==> {
                    &&& in_search3(bx, by)
                    &&& scanned_before(bx, by, x as int, y as int)
                    &&& max_point == (Point { x: (bx + 1) as usize, y: (by + 1) as usize })
                    &&& square3(bx, by, sv) == max_power_level
                    &&& forall|x2: int, y2: int|
                        in_search3(x2, y2) && scanned_before(x2, y2, bx, by)
                            ==> #[trigger] square3(x2, y2, sv) < max_power_level
                },
            decreases SIZE - 2 - y,
        {
            let xi = x as i64;
            let yi = y as i64;
            let grid_power = cell_power(xi + 1, yi + 1, s) + cell_power(xi + 2, yi + 1, s)
                + cell_power(xi + 3, yi + 1, s) + cell_power(xi + 1, yi + 2, s) + cell_power(
                xi + 2,
                yi + 2,
                s,
            ) + cell_power(xi + 3, yi + 2, s) + cell_power(xi + 1, yi + 3, s) + cell_power(
                xi + 2,
                yi + 3,
                s,
            ) + cell_power(xi + 3, yi + 3, s);
            assert(grid_power == square3(x as int, y as int, sv));
            if max_power_level < grid_power {
                max_power_level = grid_power;
                max_point = Point { x: x + 1, y: y + 1 };
                proof {
                    bx = x as int;
                    by = y as int;
                }
                assert forall|x2: int, y2: int|
                    in_search3(x2, y2) && scanned_before(x2, y2, x as int, y as int) implies #[trigger] square3(
                    x2,
                    y2,
                    sv,
                ) < max_power_level by {}
            }
            y = y + 1;
        }
        x = x + 1;
    }
    max_point
}

/// The power level of the cell at 0-based `(i, j)`.
pub open spec fn cell(i: int, j: int, serial: int) -> int {
    power_level(i + 1, j + 1, serial)
}

/// Total power of cells `(i, y0 .. y0 + h)`.
pub open spec fn column_power(i: int, y0: int, h: nat, serial: int) -> int
    decreases h,
{
    if h == 0 {
        0
    } else {
        column_power(i, y0, (h - 1) as nat, serial) + cell(i, y0 + h - 1, serial)
    }
}

/// Total power of the `w` by `h` cells from 0-based `(x0, y0)`.
pub open spec fn rect_power(x0: int, y0: int, w: nat, h: nat, serial: int) -> int
    decreases w,
{
    if w == 0 {
        0
    } else {
        rect_power(x0, y0, (w - 1) as nat, h, serial) + column_power(x0 + w - 1, y0, h, serial)
    }
}

/// Total power of the square of side `size` whose top-left cell is the
/// 1-based `(x + 1, y + 1)`.
pub open spec fn square(x: int, y: int, size: int, serial: int) -> int {
    rect_power(x, y, size as nat, size as nat, serial)
}

/// The squares on the grid: a 0-based corner and a side that keeps the
/// square on the grid.
pub open spec fn in_search(x: int, y: int, size: int) -> bool {
    0 <= x && 0 <= y && 1 <= size && x + size <= SIZE && y + size <= SIZE
}

pub open spec fn before3(x2: int, y2: int, s2: int, x: int, y: int, s: int) -> bool {
    x2 < x || (x2 == x && y2 < y) || (x2 == x && y2 == y && s2 < s)
}

/// The largest-powered square: the first of those with the most power,
/// provided that is above 0; else `(0, 0)` and size 0.
pub open spec fn best_square(r: (Point, usize), serial: int) -> bool {
    ||| (r == (Point { x: 0, y: 0 }, 0usize) && forall|x: int, y: int, z: int|
        in_search(x, y, z) ==> #[trigger] square(x, y, z, serial) <= 0)
    ||| exists|x: int, y: int, z: int|
        {
            &&& in_search(x, y, z)
            &&& r == (Point { x: (x + 1) as usize, y: (y + 1) as usize }, z as usize)
            &&& square(x, y, z, serial) > 0
            &&& forall|x2: int, y2: int, z2: int|
                in_search(x2, y2, z2) ==> #[trigger] square(x2, y2, z2, serial) <= square(x, y, z, serial)
            &&& forall|x2: int, y2: int, z2: int|
                in_search(x2, y2, z2) && before3(x2, y2, z2, x, y, z) ==> #[trigger] square(
                    x2,
                    y2,
                    z2,
                    serial,
                ) < square(x, y, z, serial)
        }
}

proof fn lemma_column_split(i: int, y0: int, a: nat, b: nat, serial: int)
    ensures
        column_power(i, y0, a + b, serial) == column_power(i, y0, a, serial) + column_power(
            i,
            y0 + a,
            b,
            serial,
        ),
    decreases b,
{
    if b > 0 {
        lemma_column_split(i, y0, a, (b - 1) as nat, serial);
        assert((a + b - 1) as nat == a + (b - 1) as nat);
    }
}

proof fn lemma_rect_split_w(x0: int, y0: int, a: nat, b: nat, h: nat, serial: int)
    ensures
        rect_power(x0, y0, a + b, h, serial) == rect_power(x0, y0, a, h, serial) + rect_power(
            x0 + a,
            y0,
            b,
            h,
            serial,
        ),
    decreases b,
{
    if b > 0 {
        lemma_rect_split_w(x0, y0, a, (b - 1) as nat, h, serial);
        assert((a + b - 1) as nat == a + (b - 1) as nat);
    }
}

proof fn lemma_rect_split_h(x0: int, y0: int, w: nat, a: nat, b: nat, serial: int)
    ensures
        rect_power(x0, y0, w, a + b, serial) == rect_power(x0, y0, w, a, serial) + rect_power(
            x0,
            y0 + a,
            w,
            b,
            serial,
        ),
    decreases w,
{
    if w > 0 {
        lemma_rect_split_h(x0, y0, (w - 1) as nat, a, b, serial);
        lemma_column_split(x0 + w - 1, y0, a, b, serial);
    }
}

/// The summed-area table: the power of the cells `(0 .. x, 0 .. y)`,
/// 0-based.
pub open spec fn table(x: int, y: int, serial: int) -> int {
    rect_power(0, 0, x as nat, y as nat, serial)
}

proof fn lemma_table_step(x: int, y: int, serial: int)
    requires
        1 <= x,
        1 <= y,
    ensures
        table(x, y, serial) == cell(x - 1, y - 1, serial) + table(x - 1, y, serial) + table(
            x,
            y - 1,
            serial,
        ) - table(x - 1, y - 1, serial),
{
    assert(rect_power(0, 0, x as nat, y as nat, serial) == rect_power(0, 0, (x - 1) as nat, y as nat, serial) + column_power(x - 1, 0, y as nat, serial));
    assert(rect_power(0, 0, x as nat, (y - 1) as nat, serial) == rect_power(0, 0, (x - 1) as nat, (y - 1) as nat, serial) + column_power(x - 1, 0, (y - 1) as nat, serial));
    assert(column_power(x - 1, 0, y as nat, serial) == column_power(x - 1, 0, (y - 1) as nat, serial) + cell(x - 1, y - 1, serial));
}

proof fn lemma_table_border(x: int, y: int, serial: int)
    requires
        0 <= x,
        0 <= y,
        x == 0 || y == 0,
    ensures
        table(x, y, serial) == 0,
{
    lemma_rect_zero_h(0, 0, x as nat, serial);
}

proof fn lemma_rect_zero_h(x0: int, y0: int, w: nat, serial: int)
    ensures
        rect_power(x0, y0, w, 0, serial) == 0,
    decreases w,
{
    if w > 0 {
        lemma_rect_zero_h(x0, y0, (w - 1) as nat, serial);
    }
}

proof fn lemma_square_from_table(x: int, y: int, z: int, serial: int)
    requires
        0 <= x,
        0 <= y,
        1 <= z,
    ensures
        square(x, y, z, serial) == table(x + z, y + z, serial) + table(x, y, serial) - table(
            x + z,
            y,
            serial,
        ) - table(x, y + z, serial),
{
    let zn = z as nat;
    lemma_rect_split_w(0, 0, x as nat, zn, (y + z) as nat, serial);
    lemma_rect_split_h(x, 0, zn, y as nat, zn, serial);
    lemma_rect_split_w(0, 0, x as nat, zn, y as nat, serial);
    assert((x as nat + zn) as int == x + z);
    assert((y as nat + zn) as int == y + z);
}

proof fn lemma_cell_bound(i: int, j: int, serial: int)
    requires
        0 <= i,
        0 <= j,
        0 <= serial,
    ensures
        -5 <= cell(i, j, serial) <= 4,
{
    let rack = i + 1 + 10;
    assert((rack * (j + 1) + serial) * rack >= 0) by (nonlinear_arith)
        requires
            rack >= 11,
            j + 1 >= 1,
            serial >= 0,
    ;
}

proof fn lemma_column_bound(i: int, y0: int, h: nat, serial: int)
    requires
        0 <= i,
        0 <= y0,
        0 <= serial,
    ensures
        -(5 * h) <= column_power(i, y0, h, serial) <= 5 * h,
    decreases h,
{
    if h > 0 {
        lemma_column_bound(i, y0, (h - 1) as nat, serial);
        lemma_cell_bound(i, y0 + h - 1, serial);
    }
}

proof fn lemma_rect_bound(x0: int, y0: int, w: nat, h: nat, serial: int)
    requires
        0 <= x0,
        0 <= y0,
        0 <= serial,
    ensures
        -(5 * w * h) <= rect_power(x0, y0, w, h, serial) <= 5 * w * h,
    decreases w,
{
    if w > 0 {
        let w1 = (w - 1) as nat;
        lemma_rect_bound(x0, y0, w1, h, serial);
        lemma_column_bound(x0 + w - 1, y0, h, serial);
        assert(5 * w1 * h + 5 * h == 5 * w * h) by (nonlinear_arith)
            requires
                w1 + 1 == w,
        ;
    } else {
        assert(5 * w * h == 0) by (nonlinear_arith)
            requires
                w == 0,
        ;
    }
}

proof fn lemma_table_bound(x: int, y: int, serial: int)
    requires
        0 <= x <= SIZE,
        0 <= y <= SIZE,
        0 <= serial,
    ensures
        -500_000 <= table(x, y, serial) <= 500_000,
{
    let xn = x as nat;
    let yn = y as nat;
    lemma_rect_bound(0, 0, xn, yn, serial);
    assert(5 * xn * yn <= 450_000) by (nonlinear_arith)
        requires
            xn <= 300,
            yn <= 300,
    ;
}

/// The side of the summed-area table.
pub const TABLE: usize = 301;

/// The summed-area table of the grid, row by row.
fn summed_table(s: i64) -> (t: Vec<Vec<i64>>)
    requires
        0 <= s <= 29_000_000_000_000_000,
    ensures
        t.len() == TABLE,
        forall|x: int| 0 <= x < TABLE ==> (#[trigger] t@[x]).len() == TABLE,
        forall|x: int, y: int|
            0 <= x < TABLE && 0 <= y < TABLE ==> #[trigger] t@[x]@[y] == table(x, y, s as int),
{
    let mut t: Vec<Vec<i64>> = Vec::new();
    let mut x: usize = 0;
    while x < TABLE
        invariant
            x <= TABLE,
            0 <= s <= 29_000_000_000_000_000,
            t.len() == x,
            forall|a: int| 0 <= a < x ==> (#[trigger] t@[a]).len() == TABLE,
            forall|a: int, b: int|
                0 <= a < x && 0 <= b < TABLE ==> #[trigger] t@[a]@[b] == table(a, b, s as int),
        decreases TABLE - x,
    {
        let mut row: Vec<i64> = Vec::new();
        let mut y: usize = 0;
        while y < TABLE
            invariant
                x < TABLE,
                y <= TABLE,
                0 <= s <= 29_000_000_000_000_000,
                t.len() == x,
                forall|a: int| 0 <= a < x ==> (#[trigger] t@[a]).len() == TABLE,
                forall|a: int, b: int|
                    0 <= a < x && 0 <= b < TABLE ==> #[trigger] t@[a]@[b] == table(a, b, s as int),
                row.len() == y,
                forall|b: int| 0 <= b < y ==> #[trigger] row@[b] == table(x as int, b, s as int),
            decreases TABLE - y,
        {
            let v = if x == 0 || y == 0 {
                proof {
                    lemma_table_border(x as int, y as int, s as int);
                }
                0
            } else {
                proof {
                    lemma_table_step(x as int, y as int, s as int);
                    lemma_table_bound(x - 1, y as int, s as int);
                    lemma_table_bound(x as int, y - 1, s as int);
                    lemma_table_bound(x - 1, y - 1, s as int);
                }
                let g = cell_power(x as i64, y as i64, s);
                g + t[x - 1][y] + row[y - 1] - t[x - 1][y - 1]
            };
            row.push(v);
            y = y + 1;
        }
        t.push(row);
        x = x + 1;
    }
    t
}

/// The top-left cell and the side of the square with the largest total
/// power.
pub fn largest_powered_cell2(serial: &str) -> (r: (Point, usize))
    requires
        serial_ok(serial@),
    ensures
        best_square(r, serial_of(serial@)),
{
    let s = read_serial(serial);
    let ghost sv = s as int;
    let t = summed_table(s);
    let mut best: i64 = 0;
    let mut best_point = Point { x: 0, y: 0 };
    let mut best_size: usize = 0;
    let ghost mut bx: int = 0;
    let ghost mut by: int = 0;
    let ghost mut bz: int = 0;
    let mut x: usize = 0;
    while x < SIZE
        invariant
            x <= SIZE,
            sv == s,
            0 <= s <= 29_000_000_000_000_000,
            t.len() == TABLE,
            forall|a: int| 0 <= a < TABLE ==> (#[trigger] t@[a]).len() == TABLE,
            forall|a: int, b: int|
                0 <= a < TABLE && 0 <= b < TABLE ==> #[trigger] t@[a]@[b] == table(a, b, sv),
            best >= 0,
            best == 0 ==> best_point == (Point { x: 0, y: 0 }) && best_size == 0,
            forall|x2: int, y2: int, z2: int|
                in_search(x2, y2, z2) && x2 < x ==> #[trigger] square(x2, y2, z2, sv) <= best,
            best > 0 ==> {
                &&& in_search(bx, by, bz)
                &&& bx < x
                &&& best_point == (Point { x: (bx + 1) as usize, y: (by + 1) as usize })
                &&& best_size == bz
                &&& square(bx, by, bz, sv) == best
                &&& forall|x2: int, y2: int, z2: int|
                    in_search(x2, y2, z2) && before3(x2, y2, z2, bx, by, bz) ==> #[trigger] square(
                        x2,
                        y2,
                        z2,
                        sv,
                    ) < best
            },
        decreases SIZE - x,
    {
        let mut y: usize = 0;
        while y < SIZE
            invariant
                x < SIZE,
                y <= SIZE,
                sv == s,
                0 <= s <= 29_000_000_000_000_000,
                t.len() == TABLE,
                forall|a: int| 0 <= a < TABLE ==> (#[trigger] t@[a]).len() == TABLE,
                forall|a: int, b: int|
                    0 <= a < TABLE && 0 <= b < TABLE ==> #[trigger] t@[a]@[b] == table(a, b, sv),
                best >= 0,
                best == 0 ==> best_point == (Point { x: 0, y: 0 }) && best_size == 0,
                forall|x2: int, y2: int, z2: int|
                    in_search(x2, y2, z2) && (x2 < x || (x2 == x && y2 < y)) ==> #[trigger] square(
                        x2,
                        y2,
                        z2,
                        sv,
                    ) <= best,
                best > 0 ==> {
                    &&& in_search(bx, by, bz)
                    &&& (bx < x || (bx == x && by < y))
                    &&& best_point == (Point { x: (bx + 1) as usize, y: (by + 1) as usize })
                    &&& best_size == bz
                    &&& square(bx, by, bz, sv) == best
                    &&& forall|x2: int, y2: int, z2: int|
                        in_search(x2, y2, z2) && before3(x2, y2, z2, bx, by, bz)
                            ==> #[trigger] square(x2, y2, z2, sv) < best
                },
            decreases SIZE - y,
        {
            let limit = if SIZE - x < SIZE - y { SIZE - x + 1 } else { SIZE - y + 1 };
            let mut z: usize = 1;
            while z < limit
                invariant
                    x < SIZE,
                    y < SIZE,
                    limit == (if SIZE - x < SIZE - y { SIZE - x + 1 } else { SIZE - y + 1 }),
                    1 <= z <= limit,
                    sv == s,
                    0 <= s <= 29_000_000_000_000_000,
                    t.len() == TABLE,
                    forall|a: int| 0 <= a < TABLE ==> (#[trigger] t@[a]).len() == TABLE,
                    forall|a: int, b: int|
                        0 <= a < TABLE && 0 <= b < TABLE ==> #[trigger] t@[a]@[b] == table(a, b, sv),
                    best >= 0,
                    best == 0 ==> best_point == (Point { x: 0, y: 0 }) && best_size == 0,
                    forall|x2: int, y2: int, z2: int|
                        in_search(x2, y2, z2) && before3(x2, y2, z2, x as int, y as int, z as int)
                            ==> #[trigger] square(x2, y2, z2, sv) <= best,
                    best > 0 ==> {
                        &&& in_search(bx, by, bz)
                        &&& before3(bx, by, bz, x as int, y as int, z as int)
                        &&& best_point == (Point { x: (bx + 1) as usize, y: (by + 1) as usize })
                        &&& best_size == bz
                        &&& square(bx, by, bz, sv) == best
                        &&& forall|x2: int, y2: int, z2: int|
                            in_search(x2, y2, z2) && before3(x2, y2, z2, bx, by, bz)
                                ==> #[trigger] square(x2, y2, z2, sv) < best
                    },
                decreases limit - z,
            {
                proof {
                    lemma_square_from_table(x as int, y as int, z as int, sv);
                    lemma_table_bound(x + z, y + z, sv);
                    lemma_table_bound(x as int, y as int, sv);
                    lemma_table_bound(x + z, y as int, sv);
                    lemma_table_bound(x as int, y + z, sv);
                }
                let power = t[x + z][y + z] + t[x][y] - t[x + z][y] - t[x][y + z];
                if best < power {
                    best = power;
                    best_point = Point { x: x + 1, y: y + 1 };
                    best_size = z;
                    proof {
                        bx = x as int;
                        by = y as int;
                        bz = z as int;
                    }
                }
                z = z + 1;
            }
            y = y + 1;
        }
        x = x + 1;
    }
    (best_point, best_size)
}

} // verus!
