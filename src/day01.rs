use vstd::prelude::*;
use std::collections::HashSet;
use crate::text::{chars_of, is_int, int_value, parse_int, split, split_chars, trim, trim_range};

verus! {

/// Whether line `l` is blank or, trimmed, a signed decimal that fits in `i64`.
pub open spec fn delta_line_ok(l: Seq<char>) -> bool {
    let t = trim(l);
    t.len() == 0 || (is_int(t) && i64::MIN <= int_value(t) <= i64::MAX)
}

/// The deltas written on the non-blank lines of `ls`, in order.
pub open spec fn line_deltas(ls: Seq<Seq<char>>) -> Seq<int>
    decreases ls.len(),
{
    if ls.len() == 0 {
        Seq::empty()
    } else {
        let t = trim(ls.last());
        if t.len() == 0 {
            line_deltas(ls.drop_last())
        } else {
            line_deltas(ls.drop_last()).push(int_value(t))
        }
    }
}

/// Whether every line of the text is blank or holds a delta.
pub open spec fn deltas_ok(s: Seq<char>) -> bool {
    forall|i: int| 0 <= i < split(s, '\n').len() ==> delta_line_ok(#[trigger] split(s, '\n')[i])
}

/// The deltas of the text, one per non-blank line.
pub open spec fn deltas(s: Seq<char>) -> Seq<int> {
    line_deltas(split(s, '\n'))
}

pub open spec fn sum(xs: Seq<int>) -> int
    decreases xs.len(),
{
    if xs.len() == 0 {
        0
    } else {
        sum(xs.drop_last()) + xs.last()
    }
}

/// The frequency after the first `k` changes, the deltas being applied in
/// order and over again from the first after the last.
pub open spec fn frequency(ds: Seq<int>, k: nat) -> int
    decreases k,
{
    if k == 0 || ds.len() == 0 {
        0
    } else {
        frequency(ds, (k - 1) as nat) + ds[(k - 1) % ds.len() as int]
    }
}

/// Whether the frequency after `m` changes is one reached before.
pub open spec fn repeats_at(ds: Seq<int>, m: nat) -> bool {
    m >= 1 && exists|j: nat| j < m && frequency(ds, j) == frequency(ds, m)
}

/// Whether the first repeated frequency is reached after `m` changes and all
/// frequencies until then fit in `i64`.
pub open spec fn first_repeat_fits(ds: Seq<int>, m: nat) -> bool {
    &&& repeats_at(ds, m)
    &&& forall|j: nat| j < m ==> !repeats_at(ds, j)
    &&& forall|j: nat| j <= m ==> i64::MIN <= #[trigger] frequency(ds, j) <= i64::MAX
}

proof fn lemma_next_index(s: int, n: int)
    requires
        s >= 0,
        n > 0,
    ensures
        (if s % n + 1 == n {
            0
        } else {
            s % n + 1
        }) == (s + 1) % n,
{
    let q = s / n;
    let i = s % n;
    vstd::arithmetic::div_mod::lemma_fundamental_div_mod(s, n);
    if i + 1 == n {
        assert(s + 1 == (q + 1) * n + 0) by (nonlinear_arith)
            requires
                s == n * q + i,
                i + 1 == n,
        ;
        vstd::arithmetic::div_mod::lemma_fundamental_div_mod_converse(s + 1, n, q + 1, 0);
    } else {
        assert(s + 1 == q * n + (i + 1)) by (nonlinear_arith)
            requires
                s == n * q + i,
        ;
        vstd::arithmetic::div_mod::lemma_fundamental_div_mod_converse(s + 1, n, q, i + 1);
    }
}

/// Reads the deltas of a text, one signed decimal per non-blank line.
pub fn parse_deltas(input: &str) -> (r: Option<Vec<i64>>)
    ensures
        r is Some <==> deltas_ok(input@),
        r is Some ==> r->0@.map_values(|d: i64| d as int) == deltas(input@),
{
    let s = chars_of(input);
    let lines = split_chars(&s, '\n');
    let ghost ls = lines@.map_values(|l: Vec<char>| l@);
    let mut v: Vec<i64> = Vec::new();
    let mut i: usize = 0;
    while i < lines.len()
        invariant
            i <= lines.len(),
            ls == lines@.map_values(|l: Vec<char>| l@),
            ls == split(input@, '\n'),
            forall|k: int| 0 <= k < i ==> delta_line_ok(#[trigger] ls[k]),
            v@.map_values(|d: i64| d as int) == line_deltas(ls.take(i as int)),
        decreases lines.len() - i,
    {
        let line = &lines[i];
        assert(line@ == ls[i as int]);
        assert(ls.take(i + 1).drop_last() =~= ls.take(i as int));
        let (a, b) = trim_range(line, 0, line.len());
        assert(line@.subrange(0, line.len() as int) =~= line@);
        if a < b {
            match parse_int(line, a, b) {
                Some(d) => {
                    let ghost old_v = v@;
                    v.push(d);
                    assert(v@.map_values(|d: i64| d as int) =~= old_v.map_values(|d: i64| d as int).push(d as int));
                },
                None => {
                    assert(!delta_line_ok(ls[i as int]));
                    return None;
                },
            }
        }
        i = i + 1;
    }
    assert(ls.take(lines.len() as int) =~= ls);
    Some(v)
}

/// The frequency reached after all the changes of the text, starting from 0.
pub fn resulting_frequency(input: &str) -> (r: i64)
    requires
        deltas_ok(input@),
        forall|k: int|
            0 <= k <= deltas(input@).len() ==> i64::MIN <= #[trigger] sum(deltas(input@).take(k))
                <= i64::MAX,
    ensures
        r == sum(deltas(input@)),
{
    let v = match parse_deltas(input) {
        Some(v) => v,
        None => {
            return 0;
        },
    };
    let ghost ds = deltas(input@);
    assert(v@.len() == ds.len());
    let mut acc: i64 = 0;
    let mut i: usize = 0;
    assert(ds.take(0) =~= Seq::<int>::empty());
    while i < v.len()
        invariant
            i <= v.len() == ds.len(),
            v@.map_values(|d: i64| d as int) == ds,
            ds == deltas(input@),
            acc == sum(ds.take(i as int)),
            forall|k: int| 0 <= k <= ds.len() ==> i64::MIN <= #[trigger] sum(ds.take(k)) <= i64::MAX,
        decreases v.len() - i,
    {
        assert(ds.take(i + 1).drop_last() =~= ds.take(i as int));
        assert(ds[i as int] == v@[i as int]);
        assert(i64::MIN <= sum(ds.take(i + 1)) <= i64::MAX);
        acc = acc + v[i];
        i = i + 1;
    }
    assert(ds.take(ds.len() as int) =~= ds);
    acc
}

/// The first frequency that is reached twice, the changes of the text being
/// applied over and over; 0 where the text has no change.
pub fn resulting_frequency_twice(input: &str) -> (r: i64)
    requires
        deltas_ok(input@),
        deltas(input@).len() > 0 ==> exists|m: nat| first_repeat_fits(deltas(input@), m),
    ensures
        deltas(input@).len() == 0 ==> r == 0,
        deltas(input@).len() > 0 ==> exists|m: nat|
            first_repeat_fits(deltas(input@), m) && r == frequency(deltas(input@), m),
{
    broadcast use vstd::std_specs::hash::group_hash_axioms;

    let v = match parse_deltas(input) {
        Some(v) => v,
        None => {
            return 0;
        },
    };
    let ghost ds = deltas(input@);
    assert(v@.len() == ds.len());
    if v.len() == 0 {
        return 0;
    }
    let ghost m = choose|m: nat| first_repeat_fits(ds, m);
    let mut seen: HashSet<i64> = HashSet::new();
    let mut result: i64 = 0;
    seen.insert(result);
    let mut k: usize = 0;
    let mut i: usize = 0;
    let ghost mut steps: nat = 0;
    assert(seen@ =~= Set::new(|f: i64| exists|j: nat| j <= steps && frequency(ds, j) == f)) by {
        assert(frequency(ds, 0) == 0);
        assert forall|f: i64| #[trigger] seen@.contains(f) <==> (exists|j: nat|
            j <= steps && frequency(ds, j) == f) by {
            if exists|j: nat| j <= steps && frequency(ds, j) == f {
                let j = choose|j: nat| j <= steps && frequency(ds, j) == f;
                assert(j == 0);
            }
            if f == 0 {
                assert(frequency(ds, 0) == f);
            }
        }
    }
    loop
        invariant
            v@.map_values(|d: i64| d as int) == ds,
            ds == deltas(input@),
            ds.len() == v.len() > 0,
            first_repeat_fits(ds, m),
            steps < m,
            i == (steps as int) % (ds.len() as int),
            result == frequency(ds, steps),
            seen@ == Set::new(|f: i64| exists|j: nat| j <= steps && frequency(ds, j) == f),
            forall|j: nat| j <= steps ==> !repeats_at(ds, j),
        decreases m - steps,
    {
        proof {
            assert(i64::MIN <= frequency(ds, steps + 1) <= i64::MAX);
            assert(ds[i as int] == v@[i as int]);
        }
        result = result + v[i];
        i = if i + 1 == v.len() {
            0
        } else {
            i + 1
        };
        proof {
            lemma_next_index(steps as int, ds.len() as int);
            steps = steps + 1;
        }
        if seen.contains(&result) {
            proof {
                let f = result;
                assert(seen@.contains(f));
                let j = choose|j: nat| j <= (steps - 1) && frequency(ds, j) == f;
                assert(repeats_at(ds, steps));
                if steps < m {
                    assert(!repeats_at(ds, steps));
                }
                assert(steps == m);
            }
            return result;
        }
        proof {
            assert(!repeats_at(ds, steps)) by {
                if repeats_at(ds, steps) {
                    let j = choose|j: nat| j < steps && frequency(ds, j) == frequency(ds, steps);
                    assert(seen@.contains(frequency(ds, j) as i64));
                }
            }
            assert(steps != m);
        }
        seen.insert(result);
        proof {
            assert(seen@ =~= Set::new(|f: i64| exists|j: nat| j <= steps && frequency(ds, j) == f)) by {
                assert forall|f: i64| seen@.contains(f) implies exists|j: nat|
                    j <= steps && frequency(ds, j) == f by {
                    if f == result {
                        assert(frequency(ds, steps) == f);
                    } else {
                        let j = choose|j: nat| j <= (steps - 1) && frequency(ds, j) == f;
                        assert(j <= steps);
                    }
                }
                assert forall|f: i64| (exists|j: nat| j <= steps && frequency(ds, j) == f) implies seen@.contains(f) by {
                    let j = choose|j: nat| j <= steps && frequency(ds, j) == f;
                    if j < steps {
                        assert(j <= (steps - 1) as nat);
                    }
                }
            }
        }
    }
}

} // verus!
