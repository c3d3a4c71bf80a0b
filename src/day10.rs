use vstd::prelude::*;
use crate::text::{after_tag, chars_of, copy_range, leading_number, number_at, split, string_of, tag_at, trim, trim_range};

verus! {

#[derive(Debug, Clone, Copy, PartialEq, Eq, Structural)]
pub struct Point {
    pub x: i64,
    pub y: i64,
}

/// A point of light: where it is and how far it moves each second.
#[derive(Debug, Clone, Copy, PartialEq, Eq, Structural)]
pub struct Entry {
    pub location: Point,
    pub velocity: Point,
}

/// Input that does not have the expected shape.
#[derive(Debug, Clone, Copy, PartialEq, Eq, Structural)]
pub struct ParseError;

/// How many seconds are looked at.
pub const SECONDS: usize = 100_000;

/// A field of an entry: an optional space or minus sign, then decimal digits;
/// its value and the text after it.
pub open spec fn field_spec(s: Seq<char>) -> Option<(int, Seq<char>)> {
    if s.len() > 0 && s[0] == '-' {
        match leading_number(s.skip(1)) {
            Some((v, rest)) => if v <= i64::MAX {
                Some((-v, rest))
            } else {
                None
            },
            None => None,
        }
    } else {
        let t = if s.len() > 0 && s[0] == ' ' {
            s.skip(1)
        } else {
            s
        };
        match leading_number(t) {
            Some((v, rest)) => if v <= i64::MAX {
                Some((v as int, rest))
            } else {
                None
            },
            None => None,
        }
    }
}

/// An entry written `position=<x, y> velocity=<vx, vy>`, the whole of `s`.
pub open spec fn entry_spec(s: Seq<char>) -> Option<Entry> {
    match after_tag(s, "position=<"@) {
        None => None,
        Some(s1) => match field_spec(s1) {
            None => None,
            Some((x, s2)) => match after_tag(s2, ", "@) {
                None => None,
                Some(s3) => match field_spec(s3) {
                    None => None,
                    Some((y, s4)) => match after_tag(s4, "> velocity=<"@) {
                        None => None,
                        Some(s5) => match field_spec(s5) {
                            None => None,
                            Some((vx, s6)) => match after_tag(s6, ", "@) {
                                None => None,
                                Some(s7) => match field_spec(s7) {
                                    None => None,
                                    Some((vy, s8)) => if after_tag(s8, ">"@) == Some(
                                        Seq::<char>::empty(),
                                    ) {
                                        Some(
                                            Entry {
                                                location: Point { x: x as i64, y: y as i64 },
                                                velocity: Point { x: vx as i64, y: vy as i64 },
                                            },
                                        )
                                    } else {
                                        None
                                    },
                                },
                            },
                        },
                    },
                },
            },
        },
    }
}

/// Reads a field at `s[pos..]`; returns its value and the position after it.
fn field_at(s: &Vec<char>, pos: usize) -> (r: Option<(i64, usize)>)
    requires
        pos <= s.len(),
    ensures
        match r {
            Some((v, e)) => pos <= e <= s.len() && field_spec(s@.skip(pos as int)) == Some(
                (v as int, s@.skip(e as int)),
            ),
            None => field_spec(s@.skip(pos as int)) is None,
        },
{
    let neg = pos < s.len() && s[pos] == '-';
    let start = if pos < s.len() && (s[pos] == '-' || s[pos] == ' ') {
        pos + 1
    } else {
        pos
    };
    proof {
        if pos < s.len() {
            assert(s@.skip(pos as int).skip(1) =~= s@.skip(pos + 1));
        }
    }
    match number_at(s, start) {
        Some((v, e)) => {
            if v as u128 <= 0x7fff_ffff_ffff_ffff {
                if neg {
                    Some((-(v as i64), e))
                } else {
                    Some((v as i64, e))
                }
            } else {
                None
            }
        },
        None => None,
    }
}

impl Entry {
    /// Reads an entry written `position=<x, y> velocity=<vx, vy>`,
    /// surrounding whitespace aside.
    pub fn parse(s: &str) -> (r: Result<Entry, ParseError>)
        ensures
            match r {
                Ok(e) => entry_spec(trim(s@)) == Some(e),
                Err(_) => entry_spec(trim(s@)) is None,
            },
    {
        let all = chars_of(s);
        let (lo, hi) = trim_range(&all, 0, all.len());
        assert(all@.subrange(0, all.len() as int) =~= all@);
        let t = copy_range(&all, lo, hi);
        assert(t@.skip(0) =~= t@);
        let p1 = match tag_at(&t, 0, "position=<") { Some(p) => p, None => { return Err(ParseError); } };
        let (x, p2) = match field_at(&t, p1) { Some(v) => v, None => { return Err(ParseError); } };
        let p3 = match tag_at(&t, p2, ", ") { Some(p) => p, None => { return Err(ParseError); } };
        let (y, p4) = match field_at(&t, p3) { Some(v) => v, None => { return Err(ParseError); } };
        let p5 = match tag_at(&t, p4, "> velocity=<") { Some(p) => p, None => { return Err(ParseError); } };
        let (vx, p6) = match field_at(&t, p5) { Some(v) => v, None => { return Err(ParseError); } };
        let p7 = match tag_at(&t, p6, ", ") { Some(p) => p, None => { return Err(ParseError); } };
        let (vy, p8) = match field_at(&t, p7) { Some(v) => v, None => { return Err(ParseError); } };
        let p9 = match tag_at(&t, p8, ">") { Some(p) => p, None => { return Err(ParseError); } };
        if p9 != t.len() {
            assert(t@.skip(p9 as int).len() > 0);
            return Err(ParseError);
        }
        assert(t@.skip(p9 as int) =~= Seq::<char>::empty());
        Ok(Entry { location: Point { x, y }, velocity: Point { x: vx, y: vy } })
    }
}

impl std::str::FromStr for Entry {
    type Err = ParseError;

    fn from_str(s: &str) -> Result<Entry, ParseError> {
        Entry::parse(s)
    }
}

/// The entries on the lines of the trimmed text.
pub open spec fn entries_of_lines(ls: Seq<Seq<char>>) -> Option<Seq<Entry>>
    decreases ls.len(),
{
    if ls.len() == 0 {
        Some(Seq::empty())
    } else {
        match entries_of_lines(ls.drop_last()) {
            None => None,
            Some(es) => match entry_spec(trim(ls.last())) {
                None => None,
                Some(e) => Some(es.push(e)),
            },
        }
    }
}

pub open spec fn entries_spec(s: Seq<char>) -> Option<Seq<Entry>> {
    entries_of_lines(split(trim(s), '\n'))
}

pub open spec fn iabs(v: int) -> int {
    if v < 0 {
        -v
    } else {
        v
    }
}

/// Whether the point stays within `i64` over all the seconds looked at.
pub open spec fn motion_fits(e: Entry) -> bool {
    iabs(e.location.x as int) + (SECONDS + 1) * iabs(e.velocity.x as int) <= i64::MAX
        && iabs(e.location.y as int) + (SECONDS + 1) * iabs(e.velocity.y as int) <= i64::MAX
}

/// The entries after `t` seconds.
pub open spec fn at_time(es: Seq<Entry>, t: int) -> Seq<Entry> {
    es.map_values(
        |e: Entry|
            Entry {
                location: Point {
                    x: (e.location.x + t * e.velocity.x) as i64,
                    y: (e.location.y + t * e.velocity.y) as i64,
                },
                velocity: e.velocity,
            },
    )
}

/// The smallest and largest coordinates of the entries: `(min x, min y,
/// max x, max y)`; `i64::MAX` and `i64::MIN` for no entry.
pub open spec fn bounds(es: Seq<Entry>) -> (int, int, int, int)
    decreases es.len(),
{
    if es.len() == 0 {
        (i64::MAX as int, i64::MAX as int, i64::MIN as int, i64::MIN as int)
    } else {
        let b = bounds(es.drop_last());
        let l = es.last().location;
        (
            if l.x < b.0 { l.x as int } else { b.0 },
            if l.y < b.1 { l.y as int } else { b.1 },
            if l.x > b.2 { l.x as int } else { b.2 },
            if l.y > b.3 { l.y as int } else { b.3 },
        )
    }
}

pub open spec fn width_at(es: Seq<Entry>, t: int) -> int {
    let b = bounds(at_time(es, t));
    b.2 - b.0
}

pub open spec fn height_at(es: Seq<Entry>, t: int) -> int {
    let b = bounds(at_time(es, t));
    b.3 - b.1
}

/// Whether the message shows after `i` seconds: the next second both the
/// width and the height of the points grow (against `i64::MAX` at 0 s).
pub open spec fn message_at(es: Seq<Entry>, i: int) -> bool {
    0 <= i < SECONDS && width_at(es, i + 1) > (if i == 0 {
        i64::MAX as int
    } else {
        width_at(es, i)
    }) && height_at(es, i + 1) > (if i == 0 {
        i64::MAX as int
    } else {
        height_at(es, i)
    })
}

/// Whether a point of `es` lies at `(x, y)`.
pub open spec fn lit(es: Seq<Entry>, x: int, y: int) -> bool {
    exists|k: int| 0 <= k < es.len() && es[k].location.x == x && es[k].location.y == y
}

/// Row `y` of the picture, from `min_x` to `max_x`, with its line break.
pub open spec fn plot_row(es: Seq<Entry>, min_x: int, max_x: int, y: int) -> Seq<char> {
    let w: nat = if max_x >= min_x {
        (max_x - min_x + 1) as nat
    } else {
        0
    };
    Seq::new(w, |c: int| if lit(es, min_x + c, y) { '#' } else { '.' }).push('\n')
}

/// The first `n` rows of the picture from row `min_y` on.
pub open spec fn plot_rows(es: Seq<Entry>, min_x: int, max_x: int, min_y: int, n: nat) -> Seq<char>
    decreases n,
{
    if n == 0 {
        Seq::empty()
    } else {
        plot_rows(es, min_x, max_x, min_y, (n - 1) as nat) + plot_row(es, min_x, max_x, min_y + n - 1)
    }
}

/// The picture of the entries within their bounds: `#` where a point is,
/// `.` elsewhere, each row ended by a line break.
pub open spec fn plot(es: Seq<Entry>, b: (int, int, int, int)) -> Seq<char> {
    if b.3 < b.1 {
        Seq::empty()
    } else {
        plot_rows(es, b.0, b.2, b.1, (b.3 - b.1 + 1) as nat)
    }
}

/// The message and the second it shows: at 0 s the picture is of a single
/// point at the origin.
pub open spec fn message_result(es: Seq<Entry>, r: (Seq<char>, int)) -> bool {
    ||| (forall|i: int| !#[trigger] message_at(es, i)) && r == (Seq::<char>::empty(), 0int)
    ||| exists|i: int|
        {
            &&& #[trigger] message_at(es, i)
            &&& forall|i2: int| 0 <= i2 < i ==> !#[trigger] message_at(es, i2)
            &&& r.1 == i
            &&& r.0 == if i == 0 {
                plot(seq![Entry { location: Point { x: 0, y: 0 }, velocity: Point { x: 0, y: 0 } }], (0, 0, 0, 0))
            } else {
                plot(at_time(es, i), bounds(at_time(es, i)))
            }
        }
}

impl Entry {
    /// The entry a second later.
    pub fn next(&self) -> (r: Entry)
        requires
            i64::MIN <= self.location.x + self.velocity.x <= i64::MAX,
            i64::MIN <= self.location.y + self.velocity.y <= i64::MAX,
        ensures
            r.location.x == self.location.x + self.velocity.x,
            r.location.y == self.location.y + self.velocity.y,
            r.velocity == self.velocity,
    {
        Entry {
            location: Point {
                x: self.location.x + self.velocity.x,
                y: self.location.y + self.velocity.y,
            },
            velocity: Point { x: self.velocity.x, y: self.velocity.y },
        }
    }
}

/// The bounds of the entries' locations.
fn entries_bounds(entries: &[Entry]) -> (r: (i64, i64, i64, i64))
    ensures
        (r.0 as int, r.1 as int, r.2 as int, r.3 as int) == bounds(entries@),
{
    let mut min_x = i64::MAX;
    let mut min_y = i64::MAX;
    let mut max_x = i64::MIN;
    let mut max_y = i64::MIN;
    let mut i: usize = 0;
    while i < entries.len()
        invariant
            i <= entries.len(),
            (min_x as int, min_y as int, max_x as int, max_y as int) == bounds(entries@.take(i as int)),
        decreases entries.len() - i,
    {
        assert(entries@.take(i + 1).drop_last() =~= entries@.take(i as int));
        let l = entries[i].location;
        if l.x < min_x {
            min_x = l.x;
        }
        if l.y < min_y {
            min_y = l.y;
        }
        if l.x > max_x {
            max_x = l.x;
        }
        if l.y > max_y {
            max_y = l.y;
        }
        i = i + 1;
    }
    assert(entries@.take(entries.len() as int) =~= entries@);
    (min_x, min_y, max_x, max_y)
}

/// Whether a point of `entries` lies at `(x, y)`.
fn is_lit(entries: &[Entry], x: i64, y: i64) -> (r: bool)
    ensures
        r == lit(entries@, x as int, y as int),
{
    let mut k: usize = 0;
    while k < entries.len()
        invariant
            k <= entries.len(),
            forall|k2: int|
                0 <= k2 < k ==> !(entries@[k2].location.x == x && entries@[k2].location.y == y),
        decreases entries.len() - k,
    {
        if entries[k].location.x == x && entries[k].location.y == y {
            return true;
        }
        k = k + 1;
    }
    false
}

/// The picture of the entries within the given bounds.
fn plot_entries(entries: &[Entry], min_x: i64, min_y: i64, max_x: i64, max_y: i64) -> (r: String)
    ensures
        r@ == plot(entries@, (min_x as int, min_y as int, max_x as int, max_y as int)),
{
    let mut out: Vec<char> = Vec::new();
    if max_y < min_y {
        let r = string_of(&out);
        assert(r@ =~= Seq::<char>::empty());
        return r;
    }
    let mut y: i128 = min_y as i128;
    while y <= max_y as i128
        invariant
            min_y <= y <= max_y + 1,
            out@ == plot_rows(entries@, min_x as int, max_x as int, min_y as int, (y - min_y) as nat),
        decreases max_y + 1 - y,
    {
        let ghost before = out@;
        let mut x: i128 = min_x as i128;
        while x <= max_x as i128
            invariant
                min_y <= y <= max_y,
                min_x <= x,
                x <= max_x + 1 || x == min_x,
                out@ == before + Seq::new(
                    (x - min_x) as nat,
                    |c: int| if lit(entries@, min_x + c, y as int) { '#' } else { '.' },
                ),
            decreases max_x + 1 - x,
        {
            let c = if is_lit(entries, x as i64, y as i64) { '#' } else { '.' };
            out.push(c);
            assert(out@ =~= before + Seq::new(
                (x + 1 - min_x) as nat,
                |c: int| if lit(entries@, min_x + c, y as int) { '#' } else { '.' },
            ));
            x = x + 1;
        }
        out.push('\n');
        proof {
            let n = (y - min_y + 1) as nat;
            assert(plot_rows(entries@, min_x as int, max_x as int, min_y as int, n) == plot_rows(
                entries@,
                min_x as int,
                max_x as int,
                min_y as int,
                (n - 1) as nat,
            ) + plot_row(entries@, min_x as int, max_x as int, min_y + n - 1));
            assert(out@ =~= plot_rows(entries@, min_x as int, max_x as int, min_y as int, n));
        }
        y = y + 1;
    }
    string_of(&out)
}

/// Reads the entries, one per line of the trimmed text.
pub fn parse_entries(input: &str) -> (r: Option<Vec<Entry>>)
    ensures
        match r {
            Some(v) => entries_spec(input@) == Some(v@),
            None => entries_spec(input@) is None,
        },
{
    let s = chars_of(input);
    let (lo, hi) = trim_range(&s, 0, s.len());
    assert(s@.subrange(0, s.len() as int) =~= s@);
    let lines = crate::text::split_range(&s, lo, hi, '\n');
    let ghost ls = lines@.map_values(|l: Vec<char>| l@);
    let mut v: Vec<Entry> = Vec::new();
    let mut i: usize = 0;
    while i < lines.len()
        invariant
            i <= lines.len(),
            ls == lines@.map_values(|l: Vec<char>| l@),
            ls == split(trim(input@), '\n'),
            entries_of_lines(ls.take(i as int)) == Some(v@),
        decreases lines.len() - i,
    {
        assert(ls.take(i + 1).drop_last() =~= ls.take(i as int));
        assert(lines@[i as int]@ == ls[i as int]);
        let text = string_of(&lines[i]);
        match Entry::parse(text.as_str()) {
            Ok(e) => {
                v.push(e);
            },
            Err(_) => {
                proof {
                    lemma_entries_prefix_none(ls, i + 1);
                }
                return None;
            },
        }
        i = i + 1;
    }
    assert(ls.take(lines.len() as int) =~= ls);
    Some(v)
}

proof fn lemma_entries_prefix_none(ls: Seq<Seq<char>>, k: int)
    requires
        0 <= k <= ls.len(),
        entries_of_lines(ls.take(k)) is None,
    ensures
        entries_of_lines(ls) is None,
    decreases ls.len(),
{
    if k < ls.len() {
        assert(ls.drop_last().take(k) =~= ls.take(k));
        lemma_entries_prefix_none(ls.drop_last(), k);
    } else {
        assert(ls.take(k) =~= ls);
    }
}

proof fn lemma_motion(p: int, v: int, t: int)
    requires
        0 <= t <= SECONDS + 1,
        iabs(p) + (SECONDS + 1) * iabs(v) <= i64::MAX,
    ensures
        i64::MIN < p + t * v <= i64::MAX,
        p + (t + 1) * v == (p + t * v) + v,
{
    assert(iabs(t * v) <= (SECONDS + 1) * iabs(v)) by (nonlinear_arith)
        requires
            0 <= t <= SECONDS + 1,
            iabs(v) == if v < 0 {
                -v
            } else {
                v
            },
            iabs(t * v) == if t * v < 0 {
                -(t * v)
            } else {
                t * v
            },
    ;
    assert(p + (t + 1) * v == (p + t * v) + v) by (nonlinear_arith);
}

/// The entries a second later.
fn advance(entries: &Vec<Entry>, es: Ghost<Seq<Entry>>, t: Ghost<int>) -> (r: Vec<Entry>)
    requires
        0 <= t@ <= SECONDS,
        entries@ == at_time(es@, t@),
        forall|k: int| 0 <= k < es@.len() ==> motion_fits(#[trigger] es@[k]),
    ensures
        r@ == at_time(es@, t@ + 1),
{
    let mut r: Vec<Entry> = Vec::new();
    let mut k: usize = 0;
    while k < entries.len()
        invariant
            k <= entries.len(),
            entries@ == at_time(es@, t@),
            0 <= t@ <= SECONDS,
            forall|k: int| 0 <= k < es@.len() ==> motion_fits(#[trigger] es@[k]),
            r@ == at_time(es@, t@ + 1).take(k as int),
        decreases entries.len() - k,
    {
        let ghost e = es@[k as int];
        proof {
            assert(motion_fits(e));
            lemma_motion(e.location.x as int, e.velocity.x as int, t@);
            lemma_motion(e.location.y as int, e.velocity.y as int, t@);
            lemma_motion(e.location.x as int, e.velocity.x as int, t@ + 1);
            lemma_motion(e.location.y as int, e.velocity.y as int, t@ + 1);
        }
        let n = entries[k].next();
        r.push(n);
        assert(r@ =~= at_time(es@, t@ + 1).take(k + 1));
        k = k + 1;
    }
    assert(at_time(es@, t@ + 1).take(entries.len() as int) =~= at_time(es@, t@ + 1));
    r
}

/// The message the points of light spell, and the number of seconds until
/// it shows: the last second before their bounding box grows in both width
/// and height.
pub fn message(input: &str) -> (r: (String, usize))
    requires
        entries_spec(input@) is Some,
        forall|k: int|
            0 <= k < (entries_spec(input@)->0).len() ==> motion_fits(
                #[trigger] (entries_spec(input@)->0)[k],
            ),
    ensures
        message_result(entries_spec(input@)->0, (r.0@, r.1 as int)),
{
    let mut entries = match parse_entries(input) {
        Some(v) => v,
        None => {
            return (String::new(), 0);
        },
    };
    let ghost es = entries@;
    assert(entries@ =~= at_time(es, 0)) by {
        assert forall|k: int| 0 <= k < es.len() implies at_time(es, 0)[k] == es[k] by {
            assert(0 * es[k].velocity.x == 0);
            assert(0 * es[k].velocity.y == 0);
        }
    }
    let mut last_entries: Vec<Entry> = Vec::new();
    last_entries.push(Entry { location: Point { x: 0, y: 0 }, velocity: Point { x: 0, y: 0 } });
    let mut last_width: i128 = i64::MAX as i128;
    let mut last_height: i128 = i64::MAX as i128;
    let mut last_min_x: i64 = 0;
    let mut last_min_y: i64 = 0;
    let mut last_max_x: i64 = 0;
    let mut last_max_y: i64 = 0;
    let mut i: usize = 0;
    while i < SECONDS
        invariant
            i <= SECONDS,
            es == entries_spec(input@)->0,
            forall|k: int| 0 <= k < es.len() ==> motion_fits(#[trigger] es[k]),
            entries@ == at_time(es, i as int),
            i == 0 ==> last_entries@ == seq![
                Entry { location: Point { x: 0, y: 0 }, velocity: Point { x: 0, y: 0 } },
            ] && last_min_x == 0 && last_min_y == 0 && last_max_x == 0 && last_max_y == 0
                && last_width == i64::MAX && last_height == i64::MAX,
            i > 0 ==> last_entries@ == at_time(es, i as int) && (
            last_min_x as int,
            last_min_y as int,
            last_max_x as int,
            last_max_y as int,
            ) == bounds(at_time(es, i as int)) && last_width == width_at(es, i as int)
                && last_height == height_at(es, i as int),
            forall|i2: int| 0 <= i2 < i ==> !#[trigger] message_at(es, i2),
        decreases SECONDS - i,
    {
        entries = advance(&entries, Ghost(es), Ghost(i as int));
        let (min_x, min_y, max_x, max_y) = entries_bounds(entries.as_slice());
        let width = max_x as i128 - min_x as i128;
        let height = max_y as i128 - min_y as i128;
        assert(width == width_at(es, i + 1));
        assert(height == height_at(es, i + 1));
        if last_width - width < 0 && last_height - height < 0 {
            assert(message_at(es, i as int));
            let picture = plot_entries(last_entries.as_slice(), last_min_x, last_min_y, last_max_x, last_max_y);
            return (picture, i);
        }
        assert(!message_at(es, i as int));
        last_width = width;
        last_height = height;
        last_min_x = min_x;
        last_min_y = min_y;
        last_max_x = max_x;
        last_max_y = max_y;
        last_entries = entries.clone();
        assert(last_entries@ =~= entries@);
        i = i + 1;
    }
    assert forall|i2: int| !#[trigger] message_at(es, i2) by {
        if 0 <= i2 < SECONDS {
        }
    }
    (String::new(), 0)
}

} // verus!
