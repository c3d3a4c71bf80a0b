use vstd::prelude::*;
use crate::text::{chars_of, split, string_of, trim, trimmed_lines};

verus! {

/// How many times `c` occurs in `s`.
pub open spec fn count_of(s: Seq<char>, c: char) -> nat
    decreases s.len(),
{
    if s.len() == 0 {
        0
    } else {
        count_of(s.drop_last(), c) + if s.last() == c {
            1nat
        } else {
            0nat
        }
    }
}

/// Whether some letter occurs exactly `n` times in `s`.
pub open spec fn has_letter_count(s: Seq<char>, n: nat) -> bool {
    exists|i: int| 0 <= i < s.len() && count_of(s, #[trigger] s[i]) == n
}

/// How many of the lines have some letter exactly `n` times.
pub open spec fn lines_with_count(ls: Seq<Seq<char>>, n: nat) -> nat
    decreases ls.len(),
{
    if ls.len() == 0 {
        0
    } else {
        lines_with_count(ls.drop_last(), n) + if has_letter_count(ls.last(), n) {
            1nat
        } else {
            0nat
        }
    }
}

/// The box IDs of a text: its lines, trimmed.
pub open spec fn box_ids(s: Seq<char>) -> Seq<Seq<char>> {
    split(s, '\n').map_values(|l: Seq<char>| trim(l))
}

/// The checksum of a list of box IDs: the number of IDs with a letter that
/// occurs exactly twice times the number with one that occurs exactly three
/// times.
pub open spec fn checksum_spec(s: Seq<char>) -> nat {
    lines_with_count(box_ids(s), 2) * lines_with_count(box_ids(s), 3)
}

/// Whether `a` and `b` differ at position `k`, of those they both have.
pub open spec fn differs_at(a: Seq<char>, b: Seq<char>, k: int) -> bool {
    0 <= k < a.len() && k < b.len() && a[k] != b[k]
}

/// Whether position `x` is the only one, of those `a` and `b` both have, at
/// which they differ.
pub open spec fn single_diff_at(a: Seq<char>, b: Seq<char>, x: int) -> bool {
    differs_at(a, b, x) && forall|k: int| #[trigger] differs_at(a, b, k) ==> k == x
}

pub open spec fn single_diff(a: Seq<char>, b: Seq<char>) -> bool {
    exists|x: int| single_diff_at(a, b, x)
}

/// Whether IDs `i < j` of `ls` differ at exactly one position.
pub open spec fn close_pair(ls: Seq<Seq<char>>, i: int, j: int) -> bool {
    0 <= i < j < ls.len() && single_diff(ls[i], ls[j])
}

/// Whether pair `(i2, j2)` comes before `(i, j)`: by the first ID, then by the
/// second.
pub open spec fn pair_before(i2: int, j2: int, i: int, j: int) -> bool {
    i2 < i || (i2 == i && j2 < j)
}

/// `a` without its character at position `x`.
pub open spec fn without_at(a: Seq<char>, x: int) -> Seq<char> {
    a.take(x) + a.skip(x + 1)
}

/// How many times `s[i]` occurs in `s`.
fn occurrences(s: &Vec<char>, c: char) -> (r: usize)
    ensures
        r == count_of(s@, c),
        r <= s.len(),
{
    let mut n: usize = 0;
    let mut k: usize = 0;
    while k < s.len()
        invariant
            k <= s.len(),
            n == count_of(s@.take(k as int), c),
            n <= k,
        decreases s.len() - k,
    {
        assert(s@.take(k + 1).drop_last() =~= s@.take(k as int));
        if s[k] == c {
            n = n + 1;
        }
        k = k + 1;
    }
    assert(s@.take(s.len() as int) =~= s@);
    n
}

/// Whether some letter occurs exactly `n` times in `s`.
fn letter_count_exists(s: &Vec<char>, n: usize) -> (r: bool)
    ensures
        r == has_letter_count(s@, n as nat),
{
    let mut i: usize = 0;
    while i < s.len()
        invariant
            i <= s.len(),
            forall|k: int| 0 <= k < i ==> count_of(s@, #[trigger] s@[k]) != n,
        decreases s.len() - i,
    {
        if occurrences(s, s[i]) == n {
            return true;
        }
        i = i + 1;
    }
    false
}

/// The checksum of the box IDs, one per line.
pub fn checksum(input: &str) -> (r: u64)
    requires
        checksum_spec(input@) <= u64::MAX,
    ensures
        r == checksum_spec(input@),
{
    let s = chars_of(input);
    let lines = trimmed_lines(&s);
    let ghost ls = lines@.map_values(|l: Vec<char>| l@);
    let mut twos: u64 = 0;
    let mut threes: u64 = 0;
    let mut i: usize = 0;
    while i < lines.len()
        invariant
            i <= lines.len(),
            ls == lines@.map_values(|l: Vec<char>| l@),
            ls == box_ids(input@),
            twos == lines_with_count(ls.take(i as int), 2),
            threes == lines_with_count(ls.take(i as int), 3),
            twos <= i,
            threes <= i,
        decreases lines.len() - i,
    {
        assert(ls.take(i + 1).drop_last() =~= ls.take(i as int));
        assert(lines@[i as int]@ == ls[i as int]);
        if letter_count_exists(&lines[i], 2) {
            twos = twos + 1;
        }
        if letter_count_exists(&lines[i], 3) {
            threes = threes + 1;
        }
        i = i + 1;
    }
    assert(ls.take(lines.len() as int) =~= ls);
    twos * threes
}

/// The one position at which `one` and `other` differ, of those they both
/// have, if there is exactly one.
fn singleton_diff_index(one: &Vec<char>, other: &Vec<char>) -> (r: Option<usize>)
    ensures
        match r {
            Some(x) => single_diff_at(one@, other@, x as int),
            None => !single_diff(one@, other@),
        },
{
    let mut found: Option<usize> = None;
    let mut k: usize = 0;
    while k < one.len() && k < other.len()
        invariant
            k <= one.len(),
            match found {
                Some(x) => x < k && differs_at(one@, other@, x as int) && forall|m: int|
                    0 <= m < k && #[trigger] differs_at(one@, other@, m) ==> m == x,
                None => forall|m: int| 0 <= m < k ==> !#[trigger] differs_at(one@, other@, m),
            },
        decreases one.len() - k,
    {
        if one[k] != other[k] {
            match found {
                Some(x) => {
                    proof {
                        assert(differs_at(one@, other@, k as int));
                        if single_diff(one@, other@) {
                            let y = choose|y: int| single_diff_at(one@, other@, y);
                            assert(differs_at(one@, other@, x as int));
                        }
                    }
                    return None;
                },
                None => {
                    found = Some(k);
                },
            }
        }
        k = k + 1;
    }
    match found {
        Some(x) => {
            assert forall|m: int| #[trigger] differs_at(one@, other@, m) implies m == x by {
                assert(m < k);
            }
            Some(x)
        },
        None => {
            proof {
                if single_diff(one@, other@) {
                    let y = choose|y: int| single_diff_at(one@, other@, y);
                    assert(y < k);
                }
            }
            None
        },
    }
}

/// The letters common to the two box IDs that differ at exactly one
/// position: the first such pair, by the first ID and then by the second;
/// empty where no pair is that close.
pub fn common_letters(input: &str) -> (r: String)
    ensures
        (exists|i: int, j: int|
            {
                &&& close_pair(box_ids(input@), i, j)
                &&& forall|i2: int, j2: int|
                    pair_before(i2, j2, i, j) ==> !#[trigger] close_pair(box_ids(input@), i2, j2)
                &&& exists|x: int|
                    single_diff_at(box_ids(input@)[i], box_ids(input@)[j], x) && r@ == without_at(
                        box_ids(input@)[i],
                        x,
                    )
            }) || ((forall|i: int, j: int| !#[trigger] close_pair(box_ids(input@), i, j)) && r@
            == Seq::<char>::empty()),
{
    let s = chars_of(input);
    let lines = trimmed_lines(&s);
    let ghost ls = lines@.map_values(|l: Vec<char>| l@);
    assert(ls == box_ids(input@));
    let mut i: usize = 0;
    while i < lines.len()
        invariant
            i <= lines.len(),
            ls == lines@.map_values(|l: Vec<char>| l@),
            ls == box_ids(input@),
            forall|i2: int, j2: int| i2 < i ==> !#[trigger] close_pair(ls, i2, j2),
        decreases lines.len() - i,
    {
        let mut j: usize = i + 1;
        while j < lines.len()
            invariant
                i < lines.len(),
                i + 1 <= j <= lines.len(),
                ls == lines@.map_values(|l: Vec<char>| l@),
                ls == box_ids(input@),
                forall|i2: int, j2: int| i2 < i ==> !#[trigger] close_pair(ls, i2, j2),
                forall|j2: int| j2 < j ==> !#[trigger] close_pair(ls, i as int, j2),
            decreases lines.len() - j,
        {
            assert(lines@[i as int]@ == ls[i as int]);
            assert(lines@[j as int]@ == ls[j as int]);
            match singleton_diff_index(&lines[i], &lines[j]) {
                Some(x) => {
                    let a = &lines[i];
                    let mut kept: Vec<char> = Vec::new();
                    let mut k: usize = 0;
                    while k < a.len()
                        invariant
                            k <= a.len(),
                            x < a.len(),
                            kept@ == (if k <= x {
                                a@.take(k as int)
                            } else {
                                a@.take(x as int) + a@.subrange(x + 1, k as int)
                            }),
                        decreases a.len() - k,
                    {
                        if k != x {
                            kept.push(a[k]);
                        }
                        proof {
                            if k < x {
                                assert(kept@ =~= a@.take(k + 1));
                            } else if k == x {
                                assert(kept@ =~= a@.take(x as int) + a@.subrange(x + 1, k + 1));
                            } else {
                                assert(kept@ =~= a@.take(x as int) + a@.subrange(x + 1, k + 1));
                            }
                        }
                        k = k + 1;
                    }
                    assert(kept@ =~= without_at(ls[i as int], x as int));
                    assert(close_pair(ls, i as int, j as int));
                    assert forall|i2: int, j2: int|
                        pair_before(i2, j2, i as int, j as int) implies !#[trigger] close_pair(
                        ls,
                        i2,
                        j2,
                    ) by {
                        if i2 == i {
                            assert(!close_pair(ls, i as int, j2));
                        }
                    }
                    return string_of(&kept);
                },
                None => {},
            }
            j = j + 1;
        }
        assert forall|i2: int, j2: int| i2 < i + 1 implies !#[trigger] close_pair(ls, i2, j2) by {
            if i2 == i {
                if close_pair(ls, i2, j2) {
                    assert(j2 < j);
                }
            }
        }
        i = i + 1;
    }
    assert forall|i2: int, j2: int| !#[trigger] close_pair(ls, i2, j2) by {
        if close_pair(ls, i2, j2) {
            assert(i2 < i);
        }
    }
    let empty: Vec<char> = Vec::new();
    let r = string_of(&empty);
    assert(r@ =~= Seq::<char>::empty());
    r
}

} // verus!
