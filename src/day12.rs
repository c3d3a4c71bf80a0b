use vstd::prelude::*;
use crate::text::{after_tag, chars_of, split, split_chars, tag_at, trim, trim_range};

verus! {

/// A rule of the pot automaton: the pattern of five pots centred on a pot, and
/// whether that pot holds a plant in the next generation.
pub struct Mutation {
    pub state: Vec<bool>,
    pub result: bool,
}

/// A row of pots: `state[i]` tells whether pot number `start + i` has a plant.
pub struct Row {
    pub start: i64,
    pub state: Vec<bool>,
}

pub open spec fn rules_view(ms: Seq<Mutation>) -> Seq<(Seq<bool>, bool)> {
    ms.map_values(|m: Mutation| (m.state@, m.result))
}

/// The pots that a line of `#` (plant) and other characters describes.
pub open spec fn pots_of(s: Seq<char>) -> Seq<bool> {
    s.map_values(|c: char| c == '#')
}

/// A rule written as five pots, ` => `, and one pot.
pub open spec fn rule_spec(t: Seq<char>) -> Option<(Seq<bool>, bool)> {
    if t.len() == 10 && t.subrange(5, 9) == " => "@ {
        Some((pots_of(t.take(5)), t[9] == '#'))
    } else {
        None
    }
}

/// The rules on the lines `ls`: blank lines are skipped, others must be rules.
pub open spec fn rules_spec(ls: Seq<Seq<char>>) -> Option<Seq<(Seq<bool>, bool)>>
    decreases ls.len(),
{
    if ls.len() == 0 {
        Some(Seq::empty())
    } else {
        match rules_spec(ls.drop_last()) {
            None => None,
            Some(rs) => {
                let t = trim(ls.last());
                if t.len() == 0 {
                    Some(rs)
                } else {
                    match rule_spec(t) {
                        None => None,
                        Some(r) => Some(rs.push(r)),
                    }
                }
            },
        }
    }
}

/// The initial pots and the rules of a puzzle text: a first line
/// `initial state: <pots>`, then rule lines, with blank lines anywhere after
/// the first.
pub open spec fn garden_spec(s: Seq<char>) -> Option<(Seq<bool>, Seq<(Seq<bool>, bool)>)> {
    let ls = split(s, '\n');
    match after_tag(ls[0], "initial state: "@) {
        None => None,
        Some(rest) => match rules_spec(ls.drop_first()) {
            None => None,
            Some(rs) => Some((pots_of(trim(rest)), rs)),
        },
    }
}

/// What the first rule with pattern `w` says, or no plant where no rule has it.
pub open spec fn lookup(rules: Seq<(Seq<bool>, bool)>, w: Seq<bool>) -> bool
    decreases rules.len(),
{
    if rules.len() == 0 {
        false
    } else if rules[0].0 == w {
        rules[0].1
    } else {
        lookup(rules.drop_first(), w)
    }
}

pub open spec fn has_plant(p: Seq<bool>) -> bool {
    exists|i: int| 0 <= i < p.len() && p[i]
}

/// Index of the first plant.
pub open spec fn first_plant(p: Seq<bool>) -> int
    decreases p.len(),
{
    if p.len() == 0 || p[0] {
        0
    } else {
        1 + first_plant(p.drop_first())
    }
}

/// Index of the last plant.
pub open spec fn last_plant(p: Seq<bool>) -> int
    decreases p.len(),
{
    if p.len() == 0 || p.last() {
        p.len() - 1
    } else {
        last_plant(p.drop_last())
    }
}

/// The plants from the first to the last, with four empty pots on each side.
pub open spec fn padded(p: Seq<bool>) -> Seq<bool> {
    seq![false, false, false, false] + p.subrange(first_plant(p), last_plant(p) + 1) + seq![
        false,
        false,
        false,
        false,
    ]
}

/// One generation: the row is cut to its plants and four empty pots on each
/// side; every pot but the two outermost on each side then follows the rule
/// for the five pots centred on it.
pub open spec fn step(row: (int, Seq<bool>), rules: Seq<(Seq<bool>, bool)>) -> (int, Seq<bool>) {
    let q = padded(row.1);
    (
        row.0 + first_plant(row.1) - 4,
        Seq::new(
            q.len(),
            |i: int|
                if 2 <= i < q.len() - 2 {
                    lookup(rules, q.subrange(i - 2, i + 3))
                } else {
                    q[i]
                },
        ),
    )
}

/// The row after `k` generations.
pub open spec fn generations(row: (int, Seq<bool>), rules: Seq<(Seq<bool>, bool)>, k: nat) -> (
    int,
    Seq<bool>,
)
    decreases k,
{
    if k == 0 {
        row
    } else {
        step(generations(row, rules, (k - 1) as nat), rules)
    }
}

/// Sum of the numbers of the pots with a plant.
pub open spec fn pot_sum(start: int, p: Seq<bool>) -> int
    decreases p.len(),
{
    if p.len() == 0 {
        0
    } else {
        pot_sum(start, p.drop_last()) + if p.last() {
            start + p.len() - 1
        } else {
            0
        }
    }
}

/// How many generations are simulated; beyond them, the pattern is taken to
/// move one pot to the right per generation.
pub const SIMULATED: usize = 1000;

pub open spec fn simulated(gen: nat) -> nat {
    if gen > SIMULATED {
        SIMULATED as nat
    } else {
        gen
    }
}

/// The answer for a puzzle text: the plants after the simulated generations,
/// moved right by the generations that were not simulated, and summed.
pub open spec fn pots_after(s: Seq<char>, gen: nat) -> int {
    let g = garden_spec(s)->0;
    let row = generations((0, g.0), g.1, simulated(gen));
    pot_sum(row.0 + gen - simulated(gen), row.1)
}

/// Whether the text has the right shape and a plant stands in every simulated
/// generation.
pub open spec fn sum_pots_ok(s: Seq<char>, gen: nat) -> bool {
    &&& garden_spec(s) is Some
    &&& forall|k: nat|
        k <= simulated(gen) ==> has_plant(
            #[trigger] generations((0, (garden_spec(s)->0).0), (garden_spec(s)->0).1, k).1,
        )
}

proof fn lemma_first_plant(p: Seq<bool>, f: int)
    requires
        0 <= f < p.len(),
        p[f],
        forall|k: int| 0 <= k < f ==> !p[k],
    ensures
        first_plant(p) == f,
    decreases f,
{
    if f > 0 {
        lemma_first_plant(p.drop_first(), f - 1);
    }
}

proof fn lemma_last_plant(p: Seq<bool>, l: int)
    requires
        0 <= l < p.len(),
        p[l],
        forall|k: int| l < k < p.len() ==> !p[k],
    ensures
        last_plant(p) == l,
    decreases p.len(),
{
    if l < p.len() - 1 {
        lemma_last_plant(p.drop_last(), l);
    }
}

proof fn lemma_split_piece_len(s: Seq<char>, sep: char, i: int)
    requires
        0 <= i < split(s, sep).len(),
    ensures
        split(s, sep)[i].len() <= s.len(),
    decreases s.len(),
{
    if s.len() > 0 {
        let p = split(s.drop_last(), sep);
        crate::text::lemma_split_len(s.drop_last(), sep);
        if i < p.len() {
            lemma_split_piece_len(s.drop_last(), sep, i);
        }
    }
}

proof fn lemma_trim_len(s: Seq<char>)
    ensures
        trim(s).len() <= s.len(),
{
    lemma_trim_start_len(s);
    lemma_trim_end_len(crate::text::trim_start(s));
}

proof fn lemma_trim_start_len(s: Seq<char>)
    ensures
        crate::text::trim_start(s).len() <= s.len(),
    decreases s.len(),
{
    if s.len() > 0 {
        lemma_trim_start_len(s.drop_first());
    }
}

proof fn lemma_trim_end_len(s: Seq<char>)
    ensures
        crate::text::trim_end(s).len() <= s.len(),
    decreases s.len(),
{
    if s.len() > 0 {
        lemma_trim_end_len(s.drop_last());
    }
}

proof fn lemma_rules_prefix_none(ls: Seq<Seq<char>>, k: int)
    requires
        0 <= k <= ls.len(),
        rules_spec(ls.take(k)) is None,
    ensures
        rules_spec(ls) is None,
    decreases ls.len(),
{
    if k < ls.len() {
        assert(ls.drop_last().take(k) =~= ls.take(k));
        lemma_rules_prefix_none(ls.drop_last(), k);
    } else {
        assert(ls.take(k) =~= ls);
    }
}

proof fn lemma_first_plant_le(p: Seq<bool>, i: int)
    requires
        0 <= i < p.len(),
        p[i],
    ensures
        0 <= first_plant(p) <= i,
        p[first_plant(p)],
    decreases i,
{
    if !p[0] {
        lemma_first_plant_le(p.drop_first(), i - 1);
    }
}

proof fn lemma_last_plant_ge(p: Seq<bool>, i: int)
    requires
        0 <= i < p.len(),
        p[i],
    ensures
        i <= last_plant(p) < p.len(),
        p[last_plant(p)],
    decreases p.len(),
{
    if !p.last() {
        lemma_last_plant_ge(p.drop_last(), i);
    }
}

proof fn lemma_plant_bounds(p: Seq<bool>)
    requires
        has_plant(p),
    ensures
        0 <= first_plant(p) <= last_plant(p) < p.len(),
        p[first_plant(p)],
        p[last_plant(p)],
{
    let i = choose|i: int| 0 <= i < p.len() && p[i];
    lemma_first_plant_le(p, i);
    lemma_last_plant_ge(p, i);
}

/// Whether rule pattern `pat` equals the five pots `p[at..at + 5]`.
fn window_matches(pat: &Vec<bool>, p: &Vec<bool>, at: usize) -> (r: bool)
    requires
        at + 5 <= p.len(),
    ensures
        r == (pat@ == p@.subrange(at as int, at + 5)),
{
    if pat.len() != 5 {
        return false;
    }
    let mut j: usize = 0;
    while j < 5
        invariant
            j <= 5,
            pat.len() == 5,
            at + 5 <= p.len(),
            forall|k: int| 0 <= k < j ==> pat@[k] == p@[at + k],
        decreases 5 - j,
    {
        if pat[j] != p[at + j] {
            assert(pat@[j as int] != p@.subrange(at as int, at + 5)[j as int]);
            return false;
        }
        j = j + 1;
    }
    assert(pat@ =~= p@.subrange(at as int, at + 5));
    true
}

/// What the rules say of the pot centred in `p[at..at + 5]`.
fn apply_rules(mutations: &Vec<Mutation>, p: &Vec<bool>, at: usize) -> (r: bool)
    requires
        at + 5 <= p.len(),
    ensures
        r == lookup(rules_view(mutations@), p@.subrange(at as int, at + 5)),
{
    let ghost w = p@.subrange(at as int, at + 5);
    let mut j: usize = 0;
    assert(rules_view(mutations@).skip(0) =~= rules_view(mutations@));
    while j < mutations.len()
        invariant
            j <= mutations.len(),
            at + 5 <= p.len(),
            w == p@.subrange(at as int, at + 5),
            lookup(rules_view(mutations@), w) == lookup(rules_view(mutations@).skip(j as int), w),
        decreases mutations.len() - j,
    {
        let m = &mutations[j];
        proof {
            let rs = rules_view(mutations@).skip(j as int);
            assert(rs[0] == (m.state@, m.result));
            assert(rs.drop_first() =~= rules_view(mutations@).skip(j + 1));
        }
        if window_matches(&m.state, p, at) {
            return m.result;
        }
        j = j + 1;
    }
    false
}

impl Row {
    pub open spec fn view(&self) -> (int, Seq<bool>) {
        (self.start as int, self.state@)
    }

    /// Moves the row on by one generation.
    pub fn mutate(&mut self, mutations: &Vec<Mutation>)
        requires
            has_plant(old(self).state@),
            i64::MIN + 4 <= old(self).start,
            old(self).start + old(self).state.len() <= i64::MAX,
            old(self).state.len() + 8 <= usize::MAX,
            old(self).state.len() <= i64::MAX,
        ensures
            final(self).view() == step(old(self).view(), rules_view(mutations@)),
            final(self).state.len() <= old(self).state.len() + 8,
            old(self).start - 4 <= final(self).start < old(self).start + old(self).state.len(),
    {
        let ghost p = self.state@;
        proof {
            lemma_plant_bounds(p);
        }
        let mut fs: usize = 0;
        while !self.state[fs]
            invariant
                self.state@ == p,
                p.len() == self.state.len(),
                0 <= fs <= first_plant(p),
                p[first_plant(p)],
                first_plant(p) < p.len(),
                forall|k: int| 0 <= k < fs ==> !p[k],
            decreases first_plant(p) - fs,
        {
            assert(fs as int != first_plant(p));
            fs = fs + 1;
        }
        proof {
            lemma_first_plant(p, fs as int);
        }
        let mut ls: usize = self.state.len() - 1;
        while !self.state[ls]
            invariant
                self.state@ == p,
                last_plant(p) <= ls < p.len(),
                p[last_plant(p)],
                0 <= last_plant(p),
                forall|k: int| ls < k < p.len() ==> !p[k],
            decreases ls - last_plant(p),
        {
            ls = ls - 1;
        }
        proof {
            lemma_last_plant(p, ls as int);
        }
        let mut q: Vec<bool> = vec![false, false, false, false];
        let mut i = fs;
        while i <= ls
            invariant
                fs <= i <= ls + 1,
                ls < p.len(),
                self.state@ == p,
                p.len() == self.state.len(),
                q@ == seq![false, false, false, false] + p.subrange(fs as int, i as int),
            decreases ls + 1 - i,
        {
            q.push(self.state[i]);
            assert(q@ =~= seq![false, false, false, false] + p.subrange(fs as int, i + 1));
            i = i + 1;
        }
        q.push(false);
        q.push(false);
        q.push(false);
        q.push(false);
        assert(q@ =~= padded(p));
        let n = q.len();
        let mut next: Vec<bool> = Vec::new();
        let mut i: usize = 0;
        while i < n
            invariant
                n == q.len(),
                q@ == padded(p),
                i <= n,
                next.len() == i,
                forall|k: int|
                    0 <= k < i ==> next@[k] == (if 2 <= k < n - 2 {
                        lookup(rules_view(mutations@), q@.subrange(k - 2, k + 3))
                    } else {
                        q@[k]
                    }),
            decreases n - i,
        {
            if 2 <= i && i < n - 2 {
                let b = apply_rules(mutations, &q, i - 2);
                next.push(b);
            } else {
                next.push(q[i]);
            }
            i = i + 1;
        }
        self.start = (self.start - 4) + fs as i64;
        self.state = next;
        assert(self.state@ =~= step((old(self).start as int, p), rules_view(mutations@)).1);
    }
}

/// The pots of `s[lo..hi]`.
fn pots_range(s: &Vec<char>, lo: usize, hi: usize) -> (r: Vec<bool>)
    requires
        lo <= hi <= s.len(),
    ensures
        r@ == pots_of(s@.subrange(lo as int, hi as int)),
{
    let mut r: Vec<bool> = Vec::new();
    let mut i = lo;
    while i < hi
        invariant
            lo <= i <= hi <= s.len(),
            r@ == pots_of(s@.subrange(lo as int, i as int)),
        decreases hi - i,
    {
        r.push(s[i] == '#');
        assert(r@ =~= pots_of(s@.subrange(lo as int, i + 1)));
        i = i + 1;
    }
    r
}

/// Reads the initial row and the rules of a puzzle text.
pub fn parse_garden(input: &str) -> (r: Option<(Vec<bool>, Vec<Mutation>)>)
    ensures
        match r {
            Some((p, ms)) => garden_spec(input@) == Some((p@, rules_view(ms@))),
            None => garden_spec(input@) is None,
        },
{
    let s = chars_of(input);
    let lines = split_chars(&s, '\n');
    let ghost ls = lines@.map_values(|l: Vec<char>| l@);
    proof {
        crate::text::lemma_split_len(s@, '\n');
    }
    let first = &lines[0];
    assert(first@ == ls[0]);
    assert(first@.skip(0) =~= first@);
    let p = match tag_at(first, 0, "initial state: ") {
        Some(e) => {
            let (a, b) = trim_range(first, e, first.len());
            assert(first@.subrange(e as int, first.len() as int) =~= first@.skip(e as int));
            pots_range(first, a, b)
        },
        None => {
            return None;
        },
    };
    let mut ms: Vec<Mutation> = Vec::new();
    let mut i: usize = 1;
    while i < lines.len()
        invariant
            1 <= i <= lines.len(),
            ls == lines@.map_values(|l: Vec<char>| l@),
            ls == split(input@, '\n'),
            after_tag(ls[0], "initial state: "@) is Some,
            rules_spec(ls.subrange(1, i as int)) == Some(rules_view(ms@)),
        decreases lines.len() - i,
    {
        let line = &lines[i];
        assert(line@ == ls[i as int]);
        assert(ls.subrange(1, i + 1).drop_last() =~= ls.subrange(1, i as int));
        let (a, b) = trim_range(line, 0, line.len());
        assert(line@.subrange(0, line.len() as int) =~= line@);
        if a < b {
            let ghost t = line@.subrange(a as int, b as int);
            if b - a != 10 {
                proof {
                    let pre = ls.subrange(1, i + 1);
                    assert(pre.drop_last() =~= ls.subrange(1, i as int));
                    assert(pre.last() == line@);
                    assert(trim(pre.last()) == t);
                    assert(rule_spec(t) is None);
                    assert(rules_spec(pre) is None);
                    assert(ls.drop_first().take(i as int) =~= ls.subrange(1, i + 1));
                    lemma_rules_prefix_none(ls.drop_first(), i as int);
                }
                return None;
            }
            if !(line[a + 5] == ' ' && line[a + 6] == '=' && line[a + 7] == '>' && line[a + 8]
                == ' ') {
                assert(t.subrange(5, 9) != " => "@) by {
                    reveal_strlit(" => ");
                    assert(t.subrange(5, 9)[0] == line@[a + 5]);
                    assert(t.subrange(5, 9)[1] == line@[a + 6]);
                    assert(t.subrange(5, 9)[2] == line@[a + 7]);
                    assert(t.subrange(5, 9)[3] == line@[a + 8]);
                }
                proof {
                    let pre = ls.subrange(1, i + 1);
                    assert(pre.drop_last() =~= ls.subrange(1, i as int));
                    assert(pre.last() == line@);
                    assert(trim(pre.last()) == t);
                    assert(rule_spec(t) is None);
                    assert(rules_spec(pre) is None);
                    assert(ls.drop_first().take(i as int) =~= ls.subrange(1, i + 1));
                    lemma_rules_prefix_none(ls.drop_first(), i as int);
                }
                return None;
            }
            proof {
                reveal_strlit(" => ");
                assert(t.subrange(5, 9) =~= " => "@);
                assert(t.take(5) =~= line@.subrange(a as int, a + 5));
            }
            let state = pots_range(line, a, a + 5);
            let result = line[a + 9] == '#';
            let ghost old_ms = ms@;
            ms.push(Mutation { state, result });
            assert(rules_view(ms@) =~= rules_view(old_ms).push((state@, result)));
        }
        i = i + 1;
    }
    assert(ls.subrange(1, lines.len() as int) =~= ls.drop_first());
    Some((p, ms))
}

/// Sum of the numbers of the pots with a plant in `p`, the first pot being
/// number `base`.
fn sum_plants(base: i128, p: &Vec<bool>) -> (r: i128)
    requires
        -0x2_0000_0000_0000_0000 <= base <= 0x2_0000_0000_0000_0000,
        p.len() <= 0x2000_0000,
    ensures
        r == pot_sum(base as int, p@),
{
    let mut acc: i128 = 0;
    let mut i: usize = 0;
    while i < p.len()
        invariant
            i <= p.len() <= 0x2000_0000,
            -0x2_0000_0000_0000_0000 <= base <= 0x2_0000_0000_0000_0000,
            acc == pot_sum(base as int, p@.take(i as int)),
            -(i as int) * 0x4_0000_0000_0000_0000 <= acc <= (i as int) * 0x4_0000_0000_0000_0000,
        decreases p.len() - i,
    {
        assert(p@.take(i + 1).drop_last() =~= p@.take(i as int));
        if p[i] {
            acc = acc + (base + i as i128);
        }
        i = i + 1;
    }
    assert(p@.take(p.len() as int) =~= p@);
    acc
}

/// Sum of the numbers of the pots that have a plant after `gen` generations.
/// The first `SIMULATED` generations are simulated; after those the pattern
/// is taken to have settled into moving one pot to the right per generation.
pub fn sum_pots_after(input: &str, gen: usize) -> (r: i64)
    requires
        sum_pots_ok(input@, gen as nat),
        input@.len() < 0x1000_0000,
        i64::MIN <= pots_after(input@, gen as nat) <= i64::MAX,
    ensures
        r == pots_after(input@, gen as nat),
{
    let (init, mutations) = match parse_garden(input) {
        Some(g) => g,
        None => {
            return 0;
        },
    };
    proof {
        crate::text::lemma_split_len(input@, '\n');
        assert(init@.len() <= input@.len()) by {
            let ls = split(input@, '\n');
            lemma_split_piece_len(input@, '\n', 0);
            let rest = after_tag(ls[0], "initial state: "@)->0;
            lemma_trim_len(rest);
        }
    }
    let ghost rules = rules_view(mutations@);
    let ghost p0 = init@;
    let mut row = Row { start: 0, state: init };
    let upto = if gen > SIMULATED { SIMULATED } else { gen };
    let offset = gen - upto;
    let mut k: usize = 0;
    while k < upto
        invariant
            k <= upto == simulated(gen as nat) <= SIMULATED,
            sum_pots_ok(input@, gen as nat),
            garden_spec(input@) == Some((p0, rules)),
            rules == rules_view(mutations@),
            p0.len() < 0x1000_0000,
            row.view() == generations((0, p0), rules, k as nat),
            row.state.len() <= p0.len() + 8 * k,
            -4 * (k as int) <= row.start <= (k as int) * 0x2000_0000,
        decreases upto - k,
    {
        proof {
            let gs = garden_spec(input@)->0;
            assert(gs.0 == p0 && gs.1 == rules);
            assert(has_plant(generations((0, gs.0), gs.1, k as nat).1));
        }
        row.mutate(&mutations);
        k = k + 1;
    }
    let base = row.start as i128 + offset as i128;
    let total = sum_plants(base, &row.state);
    total as i64
}

} // verus!
