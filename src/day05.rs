use vstd::prelude::*;
use crate::text::{chars_of, trim, trim_range};

verus! {

/// Two units react when they are the same type of opposite polarity: their
/// codes lie exactly 32 apart, as an ASCII letter and its other case do.
pub open spec fn reacts(x: char, y: char) -> bool {
    x as int - y as int == 32 || y as int - x as int == 32
}

/// The polymer left when the units of `s` are added one by one, each new unit
/// destroying the last survivor instead when the two react.
pub open spec fn reduce(s: Seq<char>) -> Seq<char>
    decreases s.len(),
{
    if s.len() == 0 {
        s
    } else {
        let r = reduce(s.drop_last());
        if r.len() > 0 && reacts(r.last(), s.last()) {
            r.drop_last()
        } else {
            r.push(s.last())
        }
    }
}

/// Whether `x` is the letter `c` in either case (`c` a lowercase letter).
pub open spec fn same_type(x: char, c: char) -> bool {
    x == c || x as int == c as int - 32
}

/// `s` without the units of type `c`.
pub open spec fn without_type(s: Seq<char>, c: char) -> Seq<char> {
    s.filter(|x: char| !same_type(x, c))
}

/// The `i`-th lowercase letter.
pub open spec fn letter(i: int) -> char {
    ((97 + i) as u8) as char
}

/// The fewest units left after taking out one of the first `k` unit types and
/// reducing, or `usize::MAX` when `k` is zero.
pub open spec fn fewest_remaining(s: Seq<char>, k: nat) -> int
    decreases k,
{
    if k == 0 {
        usize::MAX as int
    } else {
        let prev = fewest_remaining(s, (k - 1) as nat);
        let n = reduce(trim(without_type(s, letter(k - 1)))).len() as int;
        if n < prev {
            n
        } else {
            prev
        }
    }
}

/// Whether units `x` and `y` react.
pub fn should_burn(x: char, y: char) -> (r: bool)
    ensures
        r == reacts(x, y),
{
    let d = x as i64 - y as i64;
    d == 32 || d == -32
}

/// Length of the fully reacted polymer `s[lo..hi]`.
fn reduced_len(s: &Vec<char>, lo: usize, hi: usize) -> (r: usize)
    requires
        lo <= hi <= s.len(),
    ensures
        r == reduce(s@.subrange(lo as int, hi as int)).len(),
{
    let mut stack: Vec<char> = Vec::new();
    let mut i = lo;
    assert(s@.subrange(lo as int, lo as int) =~= Seq::<char>::empty());
    while i < hi
        invariant
            lo <= i <= hi <= s.len(),
            stack@ == reduce(s@.subrange(lo as int, i as int)),
            stack.len() <= i - lo,
        decreases hi - i,
    {
        let c = s[i];
        assert(s@.subrange(lo as int, i + 1).drop_last() =~= s@.subrange(lo as int, i as int));
        if stack.len() > 0 && should_burn(stack[stack.len() - 1], c) {
            stack.pop();
        } else {
            stack.push(c);
        }
        i = i + 1;
    }
    stack.len()
}

/// Number of units that remain after the polymer `input` (trimmed of
/// surrounding whitespace) fully reacts.
pub fn num_remaining_units(input: &str) -> (r: usize)
    ensures
        r == reduce(trim(input@)).len(),
{
    let s = chars_of(input);
    let (lo, hi) = trim_range(&s, 0, s.len());
    assert(s@.subrange(0, s.len() as int) =~= s@);
    reduced_len(&s, lo, hi)
}

/// `s` without the units of type `c`.
fn remove_type(s: &Vec<char>, c: char) -> (r: Vec<char>)
    requires
        'a' <= c <= 'z',
    ensures
        r@ == without_type(s@, c),
{
    let upper = ((c as u8) - 32) as char;
    let mut r: Vec<char> = Vec::new();
    let mut i: usize = 0;
    while i < s.len()
        invariant
            i <= s.len(),
            upper as int == c as int - 32,
            r@ == s@.take(i as int).filter(|x: char| !same_type(x, c)),
        decreases s.len() - i,
    {
        let x = s[i];
        proof {
            assert(s@.take(i + 1).drop_last() =~= s@.take(i as int));
            reveal(Seq::filter);
        }
        if x != c && x != upper {
            r.push(x);
        }
        i = i + 1;
    }
    assert(s@.take(s.len() as int) =~= s@);
    r
}

/// The smallest number of units that can remain after all units of one type
/// are taken out of `input` and the rest fully reacts.
pub fn smallest_num_remaining_units(input: &str) -> (r: usize)
    ensures
        r == fewest_remaining(input@, 26),
{
    let s = chars_of(input);
    let mut min = usize::MAX;
    let mut i: u8 = 0;
    while i < 26
        invariant
            i <= 26,
            s@ == input@,
            min == fewest_remaining(input@, i as nat),
        decreases 26 - i,
    {
        let c = (97 + i) as char;
        assert(c == letter(i as int));
        let t = remove_type(&s, c);
        let (lo, hi) = trim_range(&t, 0, t.len());
        assert(t@.subrange(0, t.len() as int) =~= t@);
        let n = reduced_len(&t, lo, hi);
        if min > n {
            min = n;
        }
        i = i + 1;
    }
    min
}

} // verus!
