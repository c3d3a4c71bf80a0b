use vstd::prelude::*;
use crate::text::{chars_of, digits_value, is_digit, is_digits, parse_digits, string_of, trim, trim_range};

verus! {

/// The scoreboard and the two Elves' current recipes.
pub struct Board {
    pub recipes: Seq<u8>,
    pub e1: int,
    pub e2: int,
}

pub open spec fn board_ok(b: Board) -> bool {
    &&& b.recipes.len() >= 2
    &&& 0 <= b.e1 < b.recipes.len()
    &&& 0 <= b.e2 < b.recipes.len()
    &&& forall|i: int| 0 <= i < b.recipes.len() ==> #[trigger] b.recipes[i] <= 9
}

/// One round: the digits of the sum of the current recipes are added to the
/// scoreboard, then each Elf steps forward one more than its recipe's score.
pub open spec fn round(b: Board) -> Board {
    let v1 = b.recipes[b.e1];
    let v2 = b.recipes[b.e2];
    let s = v1 + v2;
    let r = if s >= 10 {
        b.recipes.push(1).push((s - 10) as u8)
    } else {
        b.recipes.push(s as u8)
    };
    Board { recipes: r, e1: (b.e1 + v1 + 1) % r.len() as int, e2: (b.e2 + v2 + 1) % r.len() as int }
}

/// The board after `k` rounds, from recipes 3 and 7.
pub open spec fn board(k: nat) -> Board
    decreases k,
{
    if k == 0 {
        Board { recipes: seq![3u8, 7u8], e1: 0, e2: 1 }
    } else {
        round(board((k - 1) as nat))
    }
}

pub proof fn lemma_board(k: nat)
    ensures
        board_ok(board(k)),
        board(k).recipes.len() >= k + 2,
    decreases k,
{
    if k > 0 {
        lemma_board((k - 1) as nat);
        let b = board((k - 1) as nat);
        let v1 = b.recipes[b.e1];
        let v2 = b.recipes[b.e2];
        let s = v1 + v2;
        let n = board(k).recipes.len();
        assert(forall|i: int| 0 <= i < n ==> #[trigger] board(k).recipes[i] <= 9) by {
            assert forall|i: int| 0 <= i < n implies #[trigger] board(k).recipes[i] <= 9 by {
                if i < b.recipes.len() {
                    assert(board(k).recipes[i] == b.recipes[i]);
                }
            }
        }
    }
}

/// A board is a prefix of every later one.
pub proof fn lemma_board_prefix(k1: nat, k2: nat)
    requires
        k1 <= k2,
    ensures
        board(k1).recipes.len() <= board(k2).recipes.len(),
        board(k2).recipes.take(board(k1).recipes.len() as int) == board(k1).recipes,
    decreases k2,
{
    if k1 < k2 {
        lemma_board_prefix(k1, (k2 - 1) as nat);
        lemma_board((k2 - 1) as nat);
        let b = board((k2 - 1) as nat).recipes;
        let c = board(k2).recipes;
        let l = board(k1).recipes.len() as int;
        assert(c.take(b.len() as int) =~= b);
        assert(c.take(l) =~= b.take(l));
    } else {
        assert(board(k2).recipes.take(board(k1).recipes.len() as int) =~= board(k1).recipes);
    }
}

/// The number of recipes to skip, written in decimal.
pub open spec fn count_ok(s: Seq<char>) -> bool {
    is_digits(trim(s)) && digits_value(trim(s)) + 26 <= usize::MAX
}

pub open spec fn digit_char(d: u8) -> char {
    ((d + 48) as u8) as char
}

/// The scores of the ten recipes after the first `n`, as digits, read from
/// the first board long enough to hold them.
pub open spec fn ten_after(n: nat, k: nat) -> bool {
    &&& board(k).recipes.len() >= n + 10
    &&& forall|k2: nat| k2 < k ==> board(k2).recipes.len() < n + 10
}

pub open spec fn scores_text(r: Seq<u8>, n: int) -> Seq<char> {
    r.subrange(n, n + 10).map_values(|d: u8| digit_char(d))
}

/// Runs rounds until the board is at least `len` long.
fn grow_to(len: usize) -> (r: (Vec<u8>, Ghost<nat>))
    requires
        len <= usize::MAX - 16,
    ensures
        r.0@ == board(r.1@).recipes,
        r.0.len() >= len,
        forall|k2: nat| k2 < r.1@ ==> board(k2).recipes.len() < len,
{
    let mut recipes: Vec<u8> = Vec::new();
    recipes.push(3);
    recipes.push(7);
    let mut e1: usize = 0;
    let mut e2: usize = 1;
    let ghost mut k: nat = 0;
    assert(recipes@ =~= board(0).recipes);
    while recipes.len() < len
        invariant
            len <= usize::MAX - 16,
            recipes@ == board(k).recipes,
            e1 == board(k).e1,
            e2 == board(k).e2,
            board_ok(board(k)),
            forall|k2: nat| k2 < k ==> board(k2).recipes.len() < len,
        decreases len + 2 - recipes.len(),
    {
        proof {
            lemma_board(k);
            lemma_board(k + 1);
        }
        let v1 = recipes[e1];
        let v2 = recipes[e2];
        let s = v1 + v2;
        if s >= 10 {
            recipes.push(1);
            recipes.push(s - 10);
        } else {
            recipes.push(s);
        }
        e1 = (e1 + v1 as usize + 1) % recipes.len();
        e2 = (e2 + v2 as usize + 1) % recipes.len();
        proof {
            assert forall|k2: nat| k2 < k + 1 implies board(k2).recipes.len() < len by {
                if k2 == k {
                } else {
                    assert(k2 < k);
                }
            }
            k = k + 1;
        }
        assert(recipes@ =~= board(k).recipes);
    }
    (recipes, Ghost(k))
}

/// The scores of the ten recipes after the number of recipes that `input`
/// gives, as a string of digits.
pub fn score_after(input: &str) -> (r: String)
    requires
        count_ok(input@),
    ensures
        exists|k: nat|
            ten_after(digits_value(trim(input@)), k) && r@ == scores_text(
                board(k).recipes,
                digits_value(trim(input@)) as int,
            ),
{
    let s = chars_of(input);
    let (lo, hi) = trim_range(&s, 0, s.len());
    assert(s@.subrange(0, s.len() as int) =~= s@);
    let n = match parse_digits(&s, lo, hi) {
        Some(v) => v as usize,
        None => {
            return String::new();
        },
    };
    let (recipes, k) = grow_to(n + 10);
    proof {
        lemma_board(k@);
    }
    let mut out: Vec<char> = Vec::new();
    let mut i = n;
    while i < n + 10
        invariant
            n <= i <= n + 10 <= recipes.len(),
            recipes@ == board(k@).recipes,
            board_ok(board(k@)),
            out@ == recipes@.subrange(n as int, i as int).map_values(|d: u8| digit_char(d)),
        decreases n + 10 - i,
    {
        let d = recipes[i];
        assert(d <= 9);
        let c = (d + 48) as char;
        out.push(c);
        assert(out@ =~= recipes@.subrange(n as int, i + 1).map_values(|d: u8| digit_char(d)));
        i = i + 1;
    }
    let r = string_of(&out);
    assert(ten_after(n as nat, k@));
    assert(r@ == scores_text(board(k@).recipes, n as int));
    r
}

/// The digits a text of decimal digits writes.
pub open spec fn digits_of(s: Seq<char>) -> Seq<u8> {
    s.map_values(|c: char| (c as int - '0' as int) as u8)
}

/// Whether the scores `d` stand on the board `r` from recipe `p` on.
pub open spec fn occurs_in(r: Seq<u8>, p: int, d: Seq<u8>) -> bool {
    0 <= p && p + d.len() <= r.len() && r.subrange(p, p + d.len()) == d
}

/// Whether the scores `d` appear on the scoreboard early enough for every
/// position up to there to fit in a `usize`.
pub open spec fn appears(d: Seq<u8>) -> bool {
    exists|k: nat, p: int| occurs_in(board(k).recipes, p, d) && p + d.len() + 16 <= usize::MAX
}

/// Whether `p` is the number of recipes to the left of the first place the
/// scores `d` appear on the scoreboard.
pub open spec fn first_place(d: Seq<u8>, p: int) -> bool {
    &&& exists|k: nat| occurs_in(board(k).recipes, p, d)
    &&& forall|k: nat, p2: int| p2 < p ==> !#[trigger] occurs_in(board(k).recipes, p2, d)
}

proof fn lemma_occurs_prefix(r1: Seq<u8>, r2: Seq<u8>, p: int, d: Seq<u8>)
    requires
        r1.len() <= r2.len(),
        r2.take(r1.len() as int) == r1,
        0 <= p,
        p + d.len() <= r1.len(),
    ensures
        occurs_in(r1, p, d) == occurs_in(r2, p, d),
{
    assert(r1.subrange(p, p + d.len()) =~= r2.subrange(p, p + d.len())) by {
        assert forall|i: int| 0 <= i < d.len() implies #[trigger] r1.subrange(p, p + d.len())[i] == r2.subrange(
            p,
            p + d.len(),
        )[i] by {
            assert(r1[p + i] == r2.take(r1.len() as int)[p + i]);
        }
    }
}

/// Whether the scores `d` stand on the board ending at recipe `end`.
fn ends_with(recipes: &Vec<u8>, end: usize, d: &Vec<u8>) -> (r: bool)
    requires
        d.len() <= end <= recipes.len(),
    ensures
        r == occurs_in(recipes@, end - d.len(), d@),
{
    let start = end - d.len();
    let mut t: usize = 0;
    while t < d.len()
        invariant
            t <= d.len(),
            start + d.len() == end <= recipes.len(),
            forall|i: int| 0 <= i < t ==> recipes@[start + i] == d@[i],
        decreases d.len() - t,
    {
        if recipes[start + t] != d[t] {
            assert(recipes@.subrange(start as int, end as int)[t as int] != d@[t as int]);
            return false;
        }
        t = t + 1;
    }
    assert(recipes@.subrange(start as int, end as int) =~= d@);
    true
}

/// How many recipes stand to the left of the first place that the scores
/// written in `input` appear on the scoreboard.
pub fn num_recipes_before(input: &str) -> (r: usize)
    requires
        is_digits(trim(input@)),
        appears(digits_of(trim(input@))),
    ensures
        first_place(digits_of(trim(input@)), r as int),
{
    let s = chars_of(input);
    let (lo, hi) = trim_range(&s, 0, s.len());
    assert(s@.subrange(0, s.len() as int) =~= s@);
    let ghost t = trim(input@);
    let mut d: Vec<u8> = Vec::new();
    let mut i = lo;
    while i < hi
        invariant
            lo <= i <= hi <= s.len(),
            s@.subrange(lo as int, hi as int) == t,
            is_digits(t),
            d@ == digits_of(s@.subrange(lo as int, i as int)),
        decreases hi - i,
    {
        assert(is_digit(t[i - lo]));
        let c = s[i];
        d.push((c as u32 - '0' as u32) as u8);
        assert(d@ =~= digits_of(s@.subrange(lo as int, i + 1)));
        i = i + 1;
    }
    let ghost dv = d@;
    assert(dv == digits_of(t));
    let m = d.len();
    let ghost (k0, p0) = choose|k: nat, p: int|
        occurs_in(board(k).recipes, p, dv) && p + dv.len() + 16 <= usize::MAX;
    let mut recipes: Vec<u8> = Vec::new();
    recipes.push(3);
    recipes.push(7);
    let mut e1: usize = 0;
    let mut e2: usize = 1;
    let ghost mut k: nat = 0;
    assert(recipes@ =~= board(0).recipes);
    let mut checked: usize = 0;
    loop
        invariant
            recipes@ == board(k).recipes,
            e1 == board(k).e1,
            e2 == board(k).e2,
            board_ok(board(k)),
            m == dv.len(),
            d@ == dv,
            dv == digits_of(trim(input@)),
            occurs_in(board(k0).recipes, p0, dv),
            p0 + m + 16 <= usize::MAX,
            checked <= recipes.len(),
            forall|p: int| 0 <= p && p + m <= checked ==> !occurs_in(recipes@, p, dv),
        decreases k0 - k, recipes.len() - checked,
    {
        if checked < recipes.len() {
            checked = checked + 1;
            if checked >= m && ends_with(&recipes, checked, &d) {
                let p = checked - m;
                proof {
                    assert(occurs_in(board(k).recipes, p as int, dv));
                    assert(dv == digits_of(trim(input@)));
                    assert forall|k2: nat, p2: int| p2 < p implies !#[trigger] occurs_in(
                        board(k2).recipes,
                        p2,
                        dv,
                    ) by {
                        if occurs_in(board(k2).recipes, p2, dv) {
                            if k2 <= k {
                                lemma_board_prefix(k2, k);
                                lemma_occurs_prefix(board(k2).recipes, board(k).recipes, p2, dv);
                            } else {
                                lemma_board_prefix(k, k2);
                                lemma_occurs_prefix(board(k).recipes, board(k2).recipes, p2, dv);
                            }
                        }
                    }
                }
                return p;
            }
            assert forall|p: int| 0 <= p && p + m <= checked implies !occurs_in(
                recipes@,
                p,
                dv,
            ) by {
                if p + m == checked {
                    assert(checked >= m);
                }
            }
        } else {
            proof {
                if k >= k0 {
                    lemma_board_prefix(k0, k);
                    lemma_occurs_prefix(board(k0).recipes, board(k).recipes, p0, dv);
                }
                lemma_board(k);
                lemma_board(k + 1);
                lemma_board_prefix(k, k + 1);
            }
            let v1 = recipes[e1];
            let v2 = recipes[e2];
            let sum = v1 + v2;
            let ghost before = recipes@;
            proof {
                if recipes.len() >= p0 + m {
                    assert(!occurs_in(recipes@, p0, dv));
                    if k >= k0 {
                        assert(false);
                    } else {
                        lemma_board_prefix(k, k0);
                        lemma_occurs_prefix(board(k).recipes, board(k0).recipes, p0, dv);
                    }
                }
            }
            if sum >= 10 {
                recipes.push(1);
                recipes.push(sum - 10);
            } else {
                recipes.push(sum);
            }
            e1 = (e1 + v1 as usize + 1) % recipes.len();
            e2 = (e2 + v2 as usize + 1) % recipes.len();
            proof {
                k = k + 1;
                assert(recipes@ =~= board(k).recipes);
                assert forall|p: int| 0 <= p && p + m <= checked implies !occurs_in(
                    recipes@,
                    p,
                    dv,
                ) by {
                    lemma_occurs_prefix(before, recipes@, p, dv);
                }
            }
        }
    }
}

} // verus!
