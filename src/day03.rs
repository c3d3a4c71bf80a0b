use vstd::prelude::*;
use crate::text::{after_tag, chars_of, copy_range, leading_number, number_at, split, split_chars, string_of_range, tag_at, trim, trim_range};

verus! {

/// A claim on the fabric: a rectangle given by its offsets from the left and
/// top edges and its size.
#[derive(Debug, Clone, Copy, PartialEq, Eq, Structural)]
pub struct Claim {
    pub id: usize,
    pub left_offset: usize,
    pub top_offset: usize,
    pub width: usize,
    pub height: usize,
}

/// Input that does not have the expected shape.
#[derive(Debug, Clone, Copy, PartialEq, Eq, Structural)]
pub struct ParseError;

/// A claim written `#id @ left,top: widthxheight`, and the text after it.
pub open spec fn claim_spec(s: Seq<char>) -> Option<(Claim, Seq<char>)> {
    match after_tag(s, "#"@) {
        None => None,
        Some(s1) => match leading_number(s1) {
            None => None,
            Some((id, s2)) => match after_tag(s2, " @ "@) {
                None => None,
                Some(s3) => match leading_number(s3) {
                    None => None,
                    Some((left, s4)) => match after_tag(s4, ","@) {
                        None => None,
                        Some(s5) => match leading_number(s5) {
                            None => None,
                            Some((top, s6)) => match after_tag(s6, ": "@) {
                                None => None,
                                Some(s7) => match leading_number(s7) {
                                    None => None,
                                    Some((width, s8)) => match after_tag(s8, "x"@) {
                                        None => None,
                                        Some(s9) => match leading_number(s9) {
                                            None => None,
                                            Some((height, s10)) => Some(
                                                (
                                                    Claim {
                                                        id: id as usize,
                                                        left_offset: left as usize,
                                                        top_offset: top as usize,
                                                        width: width as usize,
                                                        height: height as usize,
                                                    },
                                                    s10,
                                                ),
                                            ),
                                        },
                                    },
                                },
                            },
                        },
                    },
                },
            },
        },
    }
}

/// Reads a decimal number at the start of `input`; returns the rest of the
/// text and the number.
pub fn number(input: &str) -> (r: Result<(String, usize), ParseError>)
    ensures
        match r {
            Ok((rest, v)) => leading_number(input@) == Some((v as nat, rest@)),
            Err(_) => leading_number(input@) is None,
        },
{
    let s = chars_of(input);
    assert(s@.skip(0) =~= s@);
    match number_at(&s, 0) {
        Some((v, e)) => {
            let rest = string_of_range(&s, e, s.len());
            assert(s@.subrange(e as int, s.len() as int) =~= s@.skip(e as int));
            Ok((rest, v))
        },
        None => Err(ParseError),
    }
}

/// Reads a claim at `s[pos..]`; returns it with the position after it.
fn claim_at(s: &Vec<char>, pos: usize) -> (r: Option<(Claim, usize)>)
    requires
        pos <= s.len(),
    ensures
        match r {
            Some((c, e)) => pos <= e <= s.len() && claim_spec(s@.skip(pos as int)) == Some(
                (c, s@.skip(e as int)),
            ),
            None => claim_spec(s@.skip(pos as int)) is None,
        },
{
    let p1 = match tag_at(s, pos, "#") { Some(p) => p, None => { return None; } };
    let (id, p2) = match number_at(s, p1) { Some(x) => x, None => { return None; } };
    let p3 = match tag_at(s, p2, " @ ") { Some(p) => p, None => { return None; } };
    let (left, p4) = match number_at(s, p3) { Some(x) => x, None => { return None; } };
    let p5 = match tag_at(s, p4, ",") { Some(p) => p, None => { return None; } };
    let (top, p6) = match number_at(s, p5) { Some(x) => x, None => { return None; } };
    let p7 = match tag_at(s, p6, ": ") { Some(p) => p, None => { return None; } };
    let (width, p8) = match number_at(s, p7) { Some(x) => x, None => { return None; } };
    let p9 = match tag_at(s, p8, "x") { Some(p) => p, None => { return None; } };
    let (height, p10) = match number_at(s, p9) { Some(x) => x, None => { return None; } };
    Some((Claim { id, left_offset: left, top_offset: top, width, height }, p10))
}

/// Reads a claim written `#id @ left,top: widthxheight` at the start of
/// `input`; returns the rest of the text and the claim.
pub fn claim(input: &str) -> (r: Result<(String, Claim), ParseError>)
    ensures
        match r {
            Ok((rest, c)) => claim_spec(input@) == Some((c, rest@)),
            Err(_) => claim_spec(input@) is None,
        },
{
    let s = chars_of(input);
    assert(s@.skip(0) =~= s@);
    match claim_at(&s, 0) {
        Some((c, e)) => {
            let rest = string_of_range(&s, e, s.len());
            assert(s@.subrange(e as int, s.len() as int) =~= s@.skip(e as int));
            Ok((rest, c))
        },
        None => Err(ParseError),
    }
}

/// Side of the square of fabric.
pub const BOUND: usize = 1000;

/// The claims on the lines `ls`: each line trimmed, blank lines and lines
/// that are no claim skipped.
pub open spec fn claims_of_lines(ls: Seq<Seq<char>>) -> Seq<Claim>
    decreases ls.len(),
{
    if ls.len() == 0 {
        Seq::empty()
    } else {
        let prev = claims_of_lines(ls.drop_last());
        match claim_spec(trim(ls.last())) {
            Some((c, _)) => prev.push(c),
            None => prev,
        }
    }
}

pub open spec fn claims_of(s: Seq<char>) -> Seq<Claim> {
    claims_of_lines(split(s, '\n'))
}

/// Whether every claim lies on the fabric.
pub open spec fn claims_fit(cs: Seq<Claim>) -> bool {
    forall|k: int|
        0 <= k < cs.len() ==> (#[trigger] cs[k]).left_offset + cs[k].width <= BOUND
            && cs[k].top_offset + cs[k].height <= BOUND
}

pub open spec fn covers(c: Claim, x: int, y: int) -> bool {
    c.left_offset <= x < c.left_offset + c.width && c.top_offset <= y < c.top_offset + c.height
}

/// How many claims cover square inch `(x, y)`.
pub open spec fn coverage(cs: Seq<Claim>, x: int, y: int) -> nat
    decreases cs.len(),
{
    if cs.len() == 0 {
        0
    } else {
        coverage(cs.drop_last(), x, y) + if covers(cs.last(), x, y) {
            1nat
        } else {
            0nat
        }
    }
}

/// How many of the first `w` square inches of row `y` two or more claims
/// cover.
pub open spec fn overlap_in_row(cs: Seq<Claim>, y: int, w: nat) -> nat
    decreases w,
{
    if w == 0 {
        0
    } else {
        overlap_in_row(cs, y, (w - 1) as nat) + if coverage(cs, w - 1, y) > 1 {
            1nat
        } else {
            0nat
        }
    }
}

/// How many square inches of the first `h` rows two or more claims cover.
pub open spec fn overlap(cs: Seq<Claim>, h: nat) -> nat
    decreases h,
{
    if h == 0 {
        0
    } else {
        overlap(cs, (h - 1) as nat) + overlap_in_row(cs, h - 1, BOUND as nat)
    }
}

/// Whether no square inch of claim `k` is covered by another claim.
pub open spec fn intact(cs: Seq<Claim>, k: int) -> bool {
    forall|x: int, y: int| covers(cs[k], x, y) ==> #[trigger] coverage(cs, x, y) <= 1
}

/// Reads the claims of a text, one per line.
pub fn parse_claims(input: &str) -> (r: Vec<Claim>)
    ensures
        r@ == claims_of(input@),
{
    let s = chars_of(input);
    let lines = split_chars(&s, '\n');
    let ghost ls = lines@.map_values(|l: Vec<char>| l@);
    let mut cs: Vec<Claim> = Vec::new();
    let mut i: usize = 0;
    while i < lines.len()
        invariant
            i <= lines.len(),
            ls == lines@.map_values(|l: Vec<char>| l@),
            ls == split(input@, '\n'),
            cs@ == claims_of_lines(ls.take(i as int)),
        decreases lines.len() - i,
    {
        assert(ls.take(i + 1).drop_last() =~= ls.take(i as int));
        let line = &lines[i];
        assert(line@ == ls[i as int]);
        let (a, b) = trim_range(line, 0, line.len());
        assert(line@.subrange(0, line.len() as int) =~= line@);
        let t = copy_range(line, a, b);
        assert(t@.skip(0) =~= t@);
        match claim_at(&t, 0) {
            Some((c, _)) => {
                cs.push(c);
            },
            None => {},
        }
        i = i + 1;
    }
    assert(ls.take(lines.len() as int) =~= ls);
    cs
}

/// How many claims cover each square inch, row by row.
fn fabric(cs: &Vec<Claim>) -> (f: Vec<Vec<usize>>)
    requires
        claims_fit(cs@),
    ensures
        f.len() == BOUND,
        forall|y: int| 0 <= y < BOUND ==> (#[trigger] f@[y]).len() == BOUND,
        forall|x: int, y: int|
            0 <= x < BOUND && 0 <= y < BOUND ==> #[trigger] f@[y]@[x] == coverage(cs@, x, y),
{
    let mut f: Vec<Vec<usize>> = Vec::new();
    let mut y: usize = 0;
    while y < BOUND
        invariant
            y <= BOUND,
            f.len() == y,
            forall|r: int| 0 <= r < y ==> (#[trigger] f@[r])@ == Seq::new(BOUND as nat, |x: int| 0usize),
        decreases BOUND - y,
    {
        let mut row: Vec<usize> = Vec::new();
        let mut x: usize = 0;
        while x < BOUND
            invariant
                x <= BOUND,
                row@ == Seq::new(x as nat, |x: int| 0usize),
            decreases BOUND - x,
        {
            row.push(0);
            assert(row@ =~= Seq::new((x + 1) as nat, |x: int| 0usize));
            x = x + 1;
        }
        f.push(row);
        y = y + 1;
    }
    let mut k: usize = 0;
    assert(cs@.take(0) =~= Seq::<Claim>::empty());
    while k < cs.len()
        invariant
            k <= cs.len(),
            claims_fit(cs@),
            f.len() == BOUND,
            forall|r: int| 0 <= r < BOUND ==> (#[trigger] f@[r]).len() == BOUND,
            forall|x: int, y: int|
                0 <= x < BOUND && 0 <= y < BOUND ==> #[trigger] f@[y]@[x] == coverage(
                    cs@.take(k as int),
                    x,
                    y,
                ),
            forall|x: int, y: int|
                0 <= x < BOUND && 0 <= y < BOUND ==> #[trigger] coverage(cs@.take(k as int), x, y) <= k,
        decreases cs.len() - k,
    {
        let c = cs[k];
        assert(cs@[k as int] == c);
        let ghost pre = cs@.take(k as int);
        let ghost post = cs@.take(k + 1);
        assert(post.drop_last() =~= pre);
        let mut y = c.top_offset;
        while y < c.top_offset + c.height
            invariant
                c.top_offset <= y <= c.top_offset + c.height <= BOUND,
                c.left_offset + c.width <= BOUND,
                post.drop_last() == pre,
                post.last() == c,
                post.len() == k + 1,
                k < cs.len(),
                f.len() == BOUND,
                forall|r: int| 0 <= r < BOUND ==> (#[trigger] f@[r]).len() == BOUND,
                forall|x: int, yy: int|
                    0 <= x < BOUND && 0 <= yy < BOUND ==> #[trigger] f@[yy]@[x] == coverage(pre, x, yy)
                        + if covers(c, x, yy) && yy < y {
                        1int
                    } else {
                        0int
                    },
                forall|x: int, yy: int|
                    0 <= x < BOUND && 0 <= yy < BOUND ==> #[trigger] coverage(pre, x, yy) <= k,
            decreases c.top_offset + c.height - y,
        {
            let mut row = f[y].clone();
            let ghost old_row = row@;
            assert forall|xx: int| 0 <= xx < BOUND implies #[trigger] old_row[xx] <= k by {
                assert(f@[y as int]@[xx] == coverage(pre, xx, y as int));
            }
            let mut x = c.left_offset;
            while x < c.left_offset + c.width
                invariant
                    c.left_offset <= x <= c.left_offset + c.width <= BOUND,
                    k < cs.len(),
                    row.len() == BOUND,
                    old_row.len() == BOUND,
                    forall|xx: int| 0 <= xx < BOUND ==> #[trigger] old_row[xx] <= k,
                    forall|xx: int|
                        0 <= xx < BOUND ==> #[trigger] row@[xx] == old_row[xx] + if c.left_offset <= xx
                            < x {
                            1int
                        } else {
                            0int
                        },
                decreases c.left_offset + c.width - x,
            {
                assert(old_row[x as int] <= k);
                row.set(x, row[x] + 1);
                x = x + 1;
            }
            f.set(y, row);
            y = y + 1;
        }
        proof {
            assert forall|x: int, yy: int|
                0 <= x < BOUND && 0 <= yy < BOUND implies #[trigger] coverage(post, x, yy) <= k + 1 by {
                assert(coverage(pre, x, yy) <= k);
            }
        }
        k = k + 1;
    }
    assert(cs@.take(cs.len() as int) =~= cs@);
    f
}

/// The number of square inches of fabric within two or more claims.
pub fn overlapping_area(input: &str) -> (r: u64)
    requires
        claims_fit(claims_of(input@)),
    ensures
        r == overlap(claims_of(input@), BOUND as nat),
{
    let cs = parse_claims(input);
    let f = fabric(&cs);
    let mut result: u64 = 0;
    let mut y: usize = 0;
    while y < BOUND
        invariant
            y <= BOUND,
            cs@ == claims_of(input@),
            f.len() == BOUND,
            forall|r: int| 0 <= r < BOUND ==> (#[trigger] f@[r]).len() == BOUND,
            forall|x: int, yy: int|
                0 <= x < BOUND && 0 <= yy < BOUND ==> #[trigger] f@[yy]@[x] == coverage(cs@, x, yy),
            result == overlap(cs@, y as nat),
            result <= y * BOUND,
        decreases BOUND - y,
    {
        let mut m: u64 = 0;
        let mut x: usize = 0;
        while x < BOUND
            invariant
                y < BOUND,
                x <= BOUND,
                f.len() == BOUND,
                forall|r: int| 0 <= r < BOUND ==> (#[trigger] f@[r]).len() == BOUND,
                forall|xx: int, yy: int|
                    0 <= xx < BOUND && 0 <= yy < BOUND ==> #[trigger] f@[yy]@[xx] == coverage(cs@, xx, yy),
                m == overlap_in_row(cs@, y as int, x as nat),
                m <= x,
            decreases BOUND - x,
        {
            if f[y][x] > 1 {
                m = m + 1;
            }
            x = x + 1;
        }
        result = result + m;
        y = y + 1;
    }
    result
}

/// The ID of the first claim that no other claim overlaps; 0 where every
/// claim is overlapped.
pub fn intact_claim(input: &str) -> (r: usize)
    requires
        claims_fit(claims_of(input@)),
    ensures
        (exists|k: int|
            0 <= k < claims_of(input@).len() && intact(claims_of(input@), k) && (forall|k2: int|
                0 <= k2 < k ==> !#[trigger] intact(claims_of(input@), k2)) && r
                == claims_of(input@)[k].id) || ((forall|k: int|
            0 <= k < claims_of(input@).len() ==> !#[trigger] intact(claims_of(input@), k)) && r == 0),
{
    let cs = parse_claims(input);
    let f = fabric(&cs);
    let mut k: usize = 0;
    while k < cs.len()
        invariant
            k <= cs.len(),
            cs@ == claims_of(input@),
            claims_fit(cs@),
            f.len() == BOUND,
            forall|r: int| 0 <= r < BOUND ==> (#[trigger] f@[r]).len() == BOUND,
            forall|x: int, yy: int|
                0 <= x < BOUND && 0 <= yy < BOUND ==> #[trigger] f@[yy]@[x] == coverage(cs@, x, yy),
            forall|k2: int| 0 <= k2 < k ==> !#[trigger] intact(cs@, k2),
        decreases cs.len() - k,
    {
        let c = cs[k];
        assert(cs@[k as int] == c);
        let mut ok = true;
        let mut y = c.top_offset;
        while ok && y < c.top_offset + c.height
            invariant
                k < cs.len(),
                c == cs@[k as int],
                c.top_offset <= y <= c.top_offset + c.height <= BOUND,
                c.left_offset + c.width <= BOUND,
                f.len() == BOUND,
                forall|r: int| 0 <= r < BOUND ==> (#[trigger] f@[r]).len() == BOUND,
                forall|x: int, yy: int|
                    0 <= x < BOUND && 0 <= yy < BOUND ==> #[trigger] f@[yy]@[x] == coverage(cs@, x, yy),
                ok ==> forall|x: int, yy: int|
                    covers(c, x, yy) && yy < y ==> #[trigger] coverage(cs@, x, yy) <= 1,
                !ok ==> !intact(cs@, k as int),
            decreases c.top_offset + c.height - y + if ok {
                1int
            } else {
                0int
            },
        {
            let mut x = c.left_offset;
            while ok && x < c.left_offset + c.width
                invariant
                    k < cs.len(),
                    c == cs@[k as int],
                    c.top_offset <= y < c.top_offset + c.height <= BOUND,
                    c.left_offset <= x <= c.left_offset + c.width <= BOUND,
                    f.len() == BOUND,
                    forall|r: int| 0 <= r < BOUND ==> (#[trigger] f@[r]).len() == BOUND,
                    forall|xx: int, yy: int|
                        0 <= xx < BOUND && 0 <= yy < BOUND ==> #[trigger] f@[yy]@[xx] == coverage(cs@, xx, yy),
                    ok ==> forall|xx: int, yy: int|
                        covers(c, xx, yy) && (yy < y || (yy == y && xx < x)) ==> #[trigger] coverage(
                            cs@,
                            xx,
                            yy,
                        ) <= 1,
                    !ok ==> !intact(cs@, k as int),
                decreases c.left_offset + c.width - x + if ok {
                    1int
                } else {
                    0int
                },
            {
                if f[y][x] > 1 {
                    assert(covers(c, x as int, y as int));
                    ok = false;
                } else {
                    x = x + 1;
                }
            }
            if ok {
                y = y + 1;
            }
        }
        if ok {
            assert(intact(cs@, k as int));
            return c.id;
        }
        k = k + 1;
    }
    0
}

} // verus!
