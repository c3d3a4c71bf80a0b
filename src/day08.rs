use vstd::prelude::*;
use crate::text::{chars_of, digits_value, is_digits, parse_digits, split, split_range, trim, trim_range};

verus! {

/// The numbers of a licence text: the trimmed text split at single spaces,
/// each piece a decimal that fits in a `usize`.
pub open spec fn numbers_of(ts: Seq<Seq<char>>) -> Option<Seq<int>>
    decreases ts.len(),
{
    if ts.len() == 0 {
        Some(Seq::empty())
    } else {
        match numbers_of(ts.drop_last()) {
            None => None,
            Some(ns) => if is_digits(ts.last()) && digits_value(ts.last()) <= usize::MAX {
                Some(ns.push(digits_value(ts.last()) as int))
            } else {
                None
            },
        }
    }
}

pub open spec fn licence_numbers(s: Seq<char>) -> Option<Seq<int>> {
    numbers_of(split(trim(s), ' '))
}

/// A node starting at `pos`: a header of the number of children and the
/// number of metadata entries, the children, then the metadata. Gives where
/// the node ends, the sum of all metadata in it, and its value.
pub open spec fn node(ns: Seq<int>, pos: int) -> Option<(int, int, int)>
    decreases ns.len() - pos, 0int,
{
    if pos < 0 || pos + 2 > ns.len() {
        None
    } else {
        match children(ns, pos + 2, ns[pos], Seq::empty()) {
            None => None,
            Some((end, sum, values)) => {
                let nm = ns[pos + 1];
                if end + nm > ns.len() {
                    None
                } else {
                    let md = ns.subrange(end, end + nm);
                    Some((end + nm, sum + total(md), if values.len() == 0 {
                        total(md)
                    } else {
                        referenced(md, values)
                    }))
                }
            },
        }
    }
}

/// `k` more children starting at `pos`, after those whose values are `vs`:
/// where they end, the sum of their metadata, and the values of all.
pub open spec fn children(ns: Seq<int>, pos: int, k: int, vs: Seq<int>) -> Option<(int, int, Seq<int>)>
    decreases ns.len() - pos, 1int, k,
{
    if k <= 0 {
        Some((pos, 0, vs))
    } else if pos < 0 || pos >= ns.len() {
        None
    } else {
        match node(ns, pos) {
            None => None,
            Some((end, sum, v)) => if pos < end <= ns.len() {
                match children(ns, end, k - 1, vs.push(v)) {
                    None => None,
                    Some((e2, s2, vs2)) => Some((e2, sum + s2, vs2)),
                }
            } else {
                None
            },
        }
    }
}

pub open spec fn total(xs: Seq<int>) -> int
    decreases xs.len(),
{
    if xs.len() == 0 {
        0
    } else {
        total(xs.drop_last()) + xs.last()
    }
}

/// The sum of the values of the children that the metadata entries refer to
/// (1 is the first child; entries that refer to no child count nothing).
pub open spec fn referenced(md: Seq<int>, vs: Seq<int>) -> int
    decreases md.len(),
{
    if md.len() == 0 {
        0
    } else {
        let i = md.last();
        referenced(md.drop_last(), vs) + if 1 <= i <= vs.len() {
            vs[i - 1]
        } else {
            0
        }
    }
}

/// `v`, or `usize::MAX` where it is larger.
pub open spec fn sat(v: int) -> int {
    if v > usize::MAX {
        usize::MAX as int
    } else {
        v
    }
}

pub open spec fn all_nonneg(xs: Seq<int>) -> bool {
    forall|i: int| 0 <= i < xs.len() ==> xs[i] >= 0
}

proof fn lemma_total_nonneg(xs: Seq<int>)
    requires
        all_nonneg(xs),
    ensures
        total(xs) >= 0,
    decreases xs.len(),
{
    if xs.len() > 0 {
        lemma_total_nonneg(xs.drop_last());
    }
}

proof fn lemma_referenced_nonneg(md: Seq<int>, vs: Seq<int>)
    requires
        all_nonneg(vs),
    ensures
        referenced(md, vs) >= 0,
    decreases md.len(),
{
    if md.len() > 0 {
        lemma_referenced_nonneg(md.drop_last(), vs);
    }
}

proof fn lemma_node_nonneg(ns: Seq<int>, pos: int)
    requires
        all_nonneg(ns),
    ensures
        node(ns, pos) matches Some((e, s, v)) ==> pos + 2 <= e <= ns.len() && s >= 0 && v >= 0,
    decreases ns.len() - pos, 0int,
{
    if 0 <= pos && pos + 2 <= ns.len() {
        lemma_children_nonneg(ns, pos + 2, ns[pos], Seq::empty());
        if let Some((end, sum, values)) = children(ns, pos + 2, ns[pos], Seq::empty()) {
            let nm = ns[pos + 1];
            if end + nm <= ns.len() {
                let md = ns.subrange(end, end + nm);
                lemma_total_nonneg(md);
                lemma_referenced_nonneg(md, values);
            }
        }
    }
}

proof fn lemma_children_nonneg(ns: Seq<int>, pos: int, k: int, vs: Seq<int>)
    requires
        all_nonneg(ns),
        all_nonneg(vs),
    ensures
        children(ns, pos, k, vs) matches Some((e, s, vs2)) ==> pos <= e <= ns.len() + (if pos > ns.len() { pos } else { 0 }) && s >= 0 && all_nonneg(vs2),
    decreases ns.len() - pos, 1int, k,
{
    if k > 0 && 0 <= pos < ns.len() {
        lemma_node_nonneg(ns, pos);
        if let Some((end, sum, v)) = node(ns, pos) {
            if pos < end <= ns.len() {
                lemma_children_nonneg(ns, end, k - 1, vs.push(v));
            }
        }
    }
}

pub open spec fn nview(v: Seq<usize>) -> Seq<int> {
    v.map_values(|x: usize| x as int)
}

pub open spec fn sats(v: Seq<int>) -> Seq<int> {
    v.map_values(|x: int| sat(x))
}

fn sat_add(a: usize, b: usize) -> (r: usize)
    ensures
        r == sat(a + b),
{
    if a > usize::MAX - b {
        usize::MAX
    } else {
        a + b
    }
}

proof fn lemma_sat_add(x: int, y: int)
    requires
        x >= 0,
        y >= 0,
    ensures
        sat(x + y) == sat(sat(x) + sat(y)),
{
}

/// The saturated sum of the metadata `ns[from..to]`.
fn sum_range(ns: &Vec<usize>, from: usize, to: usize) -> (r: usize)
    requires
        from <= to <= ns.len(),
    ensures
        r == sat(total(nview(ns@).subrange(from as int, to as int))),
{
    let ghost nv = nview(ns@);
    let mut acc: usize = 0;
    let mut i = from;
    while i < to
        invariant
            from <= i <= to <= ns.len(),
            nv == nview(ns@),
            acc == sat(total(nv.subrange(from as int, i as int))),
        decreases to - i,
    {
        assert(nv.subrange(from as int, i + 1).drop_last() =~= nv.subrange(from as int, i as int));
        proof {
            lemma_total_nonneg(nv.subrange(from as int, i as int));
            lemma_sat_add(total(nv.subrange(from as int, i as int)), ns@[i as int] as int);
        }
        acc = sat_add(acc, ns[i]);
        i = i + 1;
    }
    acc
}

/// The saturated sum of the values of the children the metadata
/// `ns[from..to]` refers to.
fn referenced_range(ns: &Vec<usize>, from: usize, to: usize, vs: &Vec<usize>, vspec: Ghost<Seq<int>>) -> (r: usize)
    requires
        from <= to <= ns.len(),
        vs@.len() == vspec@.len(),
        all_nonneg(vspec@),
        forall|i: int| 0 <= i < vs@.len() ==> vs@[i] == sat(#[trigger] vspec@[i]),
    ensures
        r == sat(referenced(nview(ns@).subrange(from as int, to as int), vspec@)),
{
    let ghost nv = nview(ns@);
    let mut acc: usize = 0;
    let mut i = from;
    while i < to
        invariant
            from <= i <= to <= ns.len(),
            nv == nview(ns@),
            vs@.len() == vspec@.len(),
            all_nonneg(vspec@),
            forall|i: int| 0 <= i < vs@.len() ==> vs@[i] == sat(#[trigger] vspec@[i]),
            acc == sat(referenced(nv.subrange(from as int, i as int), vspec@)),
        decreases to - i,
    {
        let ghost pre = nv.subrange(from as int, i as int);
        assert(nv.subrange(from as int, i + 1).drop_last() =~= pre);
        proof {
            lemma_referenced_nonneg(pre, vspec@);
        }
        let x = ns[i];
        if 1 <= x && x <= vs.len() {
            proof {
                lemma_sat_add(referenced(pre, vspec@), vspec@[x - 1]);
            }
            acc = sat_add(acc, vs[x - 1]);
        }
        i = i + 1;
    }
    acc
}

/// Reads the node at `pos`: where it ends, and its saturated metadata sum
/// and value.
fn read_node(ns: &Vec<usize>, pos: usize) -> (r: Option<(usize, usize, usize)>)
    ensures
        match node(nview(ns@), pos as int) {
            Some((e, s, v)) => r == Some((e as usize, sat(s) as usize, sat(v) as usize)),
            None => r is None,
        },
    decreases ns.len() - pos, 0int,
{
    let ghost nv = nview(ns@);
    proof {
        lemma_node_nonneg(nv, pos as int);
    }
    if ns.len() < 2 || pos > ns.len() - 2 {
        return None;
    }
    let nc = ns[pos];
    let mut vs: Vec<usize> = Vec::new();
    let ch = read_children(ns, pos + 2, nc, &mut vs, Ghost(Seq::empty()));
    let (end, sum) = match ch {
        Some(x) => x,
        None => {
            return None;
        },
    };
    let ghost vs2 = (children(nv, pos + 2, nc as int, Seq::empty())->0).2;
    proof {
        lemma_children_nonneg(nv, pos + 2, nc as int, Seq::empty());
    }
    let nm = ns[pos + 1];
    if nm > ns.len() - end {
        return None;
    }
    let mdsum = sum_range(ns, end, end + nm);
    proof {
        lemma_total_nonneg(nv.subrange(end as int, end + nm));
        lemma_sat_add((children(nv, pos + 2, nc as int, Seq::empty())->0).1, total(nv.subrange(end as int, end + nm)));
    }
    let total_sum = sat_add(sum, mdsum);
    let value = if vs.len() == 0 {
        mdsum
    } else {
        referenced_range(ns, end, end + nm, &vs, Ghost(vs2))
    };
    Some((end + nm, total_sum, value))
}

/// Reads `k` more children at `pos`, pushing their saturated values.
fn read_children(ns: &Vec<usize>, pos: usize, k: usize, vs: &mut Vec<usize>, vspec: Ghost<Seq<int>>) -> (r: Option<(usize, usize)>)
    requires
        old(vs)@.len() == vspec@.len(),
        all_nonneg(vspec@),
        forall|i: int| 0 <= i < old(vs)@.len() ==> old(vs)@[i] == sat(#[trigger] vspec@[i]),
    ensures
        match children(nview(ns@), pos as int, k as int, vspec@) {
            Some((e, s, vs2)) => r == Some((e as usize, sat(s) as usize)) && final(vs)@.len()
                == vs2.len() && forall|i: int| 0 <= i < vs2.len() ==> final(vs)@[i] == sat(#[trigger] vs2[i]),
            None => r is None,
        },
    decreases ns.len() - pos, 1int, k,
{
    let ghost nv = nview(ns@);
    if k == 0 {
        return Some((pos, 0));
    }
    if pos >= ns.len() {
        return None;
    }
    proof {
        lemma_node_nonneg(nv, pos as int);
    }
    let (end, sum, v) = match read_node(ns, pos) {
        Some(x) => x,
        None => {
            return None;
        },
    };
    if !(pos < end && end <= ns.len()) {
        return None;
    }
    let ghost vnode = (node(nv, pos as int)->0).2;
    let ghost snode = (node(nv, pos as int)->0).1;
    vs.push(v);
    proof {
        lemma_children_nonneg(nv, end as int, k - 1, vspec@.push(vnode));
    }
    let rest = read_children(ns, end, k - 1, vs, Ghost(vspec@.push(vnode)));
    match rest {
        Some((e2, s2)) => {
            proof {
                lemma_sat_add(snode, (children(nv, end as int, k - 1, vspec@.push(vnode))->0).1);
            }
            Some((e2, sat_add(sum, s2)))
        },
        None => None,
    }
}

proof fn lemma_numbers_prefix_none(ts: Seq<Seq<char>>, k: int)
    requires
        0 <= k <= ts.len(),
        numbers_of(ts.take(k)) is None,
    ensures
        numbers_of(ts) is None,
    decreases ts.len(),
{
    if k < ts.len() {
        assert(ts.drop_last().take(k) =~= ts.take(k));
        lemma_numbers_prefix_none(ts.drop_last(), k);
    } else {
        assert(ts.take(k) =~= ts);
    }
}

/// Reads the numbers of a licence text.
pub fn parse_numbers(input: &str) -> (r: Option<Vec<usize>>)
    ensures
        match r {
            Some(v) => licence_numbers(input@) == Some(nview(v@)),
            None => licence_numbers(input@) is None,
        },
{
    let s = chars_of(input);
    let (lo, hi) = trim_range(&s, 0, s.len());
    assert(s@.subrange(0, s.len() as int) =~= s@);
    let tokens = split_range(&s, lo, hi, ' ');
    let ghost ts = tokens@.map_values(|l: Vec<char>| l@);
    let mut v: Vec<usize> = Vec::new();
    let mut i: usize = 0;
    while i < tokens.len()
        invariant
            i <= tokens.len(),
            ts == tokens@.map_values(|l: Vec<char>| l@),
            ts == split(trim(input@), ' '),
            numbers_of(ts.take(i as int)) == Some(nview(v@)),
        decreases tokens.len() - i,
    {
        assert(ts.take(i + 1).drop_last() =~= ts.take(i as int));
        let t = &tokens[i];
        assert(t@ == ts[i as int]);
        assert(t@.subrange(0, t.len() as int) =~= t@);
        match parse_digits(t, 0, t.len()) {
            Some(x) => {
                if x > usize::MAX as u64 {
                    proof {
                        lemma_numbers_prefix_none(ts, i + 1);
                    }
                    return None;
                }
                let ghost old_v = v@;
                v.push(x as usize);
                assert(nview(v@) =~= nview(old_v).push(x as int));
            },
            None => {
                proof {
                    lemma_numbers_prefix_none(ts, i + 1);
                }
                return None;
            },
        }
        i = i + 1;
    }
    assert(ts.take(tokens.len() as int) =~= ts);
    Some(v)
}

/// The tree of a licence text: the node at its first number.
pub open spec fn licence_tree(s: Seq<char>) -> Option<(int, int, int)> {
    match licence_numbers(s) {
        Some(ns) => node(ns, 0),
        None => None,
    }
}

/// The sum of all metadata entries of the licence tree; 0 where the text
/// holds no tree.
pub fn meta_sum(input: &str) -> (r: usize)
    requires
        licence_tree(input@) matches Some((_, s, _)) ==> s <= usize::MAX,
    ensures
        r == match licence_tree(input@) {
            Some((_, s, _)) => s,
            None => 0,
        },
{
    match parse_numbers(input) {
        Some(ns) => {
            proof {
                assert(all_nonneg(nview(ns@)));
                lemma_node_nonneg(nview(ns@), 0);
            }
            match read_node(&ns, 0) {
                Some((_, s, _)) => s,
                None => 0,
            }
        },
        None => 0,
    }
}

/// The value of the root node of the licence tree; 0 where the text holds no
/// tree.
pub fn root_value(input: &str) -> (r: usize)
    requires
        licence_tree(input@) matches Some((_, _, v)) ==> v <= usize::MAX,
    ensures
        r == match licence_tree(input@) {
            Some((_, _, v)) => v,
            None => 0,
        },
{
    match parse_numbers(input) {
        Some(ns) => {
            proof {
                assert(all_nonneg(nview(ns@)));
                lemma_node_nonneg(nview(ns@), 0);
            }
            match read_node(&ns, 0) {
                Some((_, _, v)) => v,
                None => 0,
            }
        },
        None => 0,
    }
}

} // verus!
