use vstd::prelude::*;
use std::collections::VecDeque;
use crate::text::{chars_of, leading_number, number_at, tag_at, trim, trim_range};

verus! {

/// The marbles in the circle, clockwise, starting from the current marble.
pub struct Ring {
    pub buffer: VecDeque<usize>,
}

/// A marble game in progress.
pub struct Game {
    pub num_players: usize,
    pub last_marble: usize,
    pub ring: Ring,
    pub scores: Vec<u64>,
    pub current_count: usize,
}

/// The largest last-marble value this game is played to, so that every
/// score fits in a `usize`.
pub const MAX_MARBLE: usize = 0x4000_0000;

/// The circle with the current marble moved one place clockwise.
pub open spec fn rotate_left(s: Seq<usize>) -> Seq<usize> {
    s.drop_first().push(s[0])
}

/// The circle with the current marble moved one place counter-clockwise.
pub open spec fn rotate_right(s: Seq<usize>) -> Seq<usize> {
    seq![s.last()] + s.drop_last()
}

pub open spec fn rotate_right_times(s: Seq<usize>, n: nat) -> Seq<usize>
    decreases n,
{
    if n == 0 {
        s
    } else {
        rotate_right(rotate_right_times(s, (n - 1) as nat))
    }
}

/// One turn, placing marble `count`: a multiple of 23 is kept by the player,
/// who also takes the marble 7 places counter-clockwise, the one after it
/// becoming current; any other marble goes between the marbles 1 and 2
/// places clockwise and becomes current.
pub open spec fn turn(ring: Seq<usize>, scores: Seq<int>, count: int) -> (Seq<usize>, Seq<int>) {
    if count % 23 == 0 {
        let r = rotate_right_times(ring, 7);
        let p = count % scores.len() as int;
        (r.drop_first(), scores.update(p, scores[p] + count + r[0]))
    } else {
        (seq![count as usize] + rotate_left(rotate_left(ring)), scores)
    }
}

/// The circle and the scores after the first `k` turns of a game of `n`
/// players.
pub open spec fn play_turns(n: nat, k: nat) -> (Seq<usize>, Seq<int>)
    decreases k,
{
    if k == 0 {
        (seq![0usize], Seq::new(n, |i: int| 0))
    } else {
        let prev = play_turns(n, (k - 1) as nat);
        turn(prev.0, prev.1, k as int)
    }
}

/// The highest score, or 0.
pub open spec fn high_score(scores: Seq<int>) -> int
    decreases scores.len(),
{
    if scores.len() == 0 {
        0
    } else {
        let m = high_score(scores.drop_last());
        if m < scores.last() {
            scores.last()
        } else {
            m
        }
    }
}

/// The players and the last marble of a text
/// `<n> players; last marble is worth <m> points`, trimmed.
pub open spec fn game_spec(s: Seq<char>) -> Option<(nat, nat)> {
    match leading_number(trim(s)) {
        None => None,
        Some((n, s1)) => match crate::text::after_tag(s1, " players; last marble is worth "@) {
            None => None,
            Some(s2) => match leading_number(s2) {
                None => None,
                Some((m, s3)) => if s3 == " points"@ {
                    Some((n, m))
                } else {
                    None
                },
            },
        },
    }
}

/// Whether the text describes a game with a player that this library plays
/// to its end, with the last marble worth `factor` times what it says.
pub open spec fn game_ok(s: Seq<char>, factor: nat) -> bool {
    &&& game_spec(s) is Some
    &&& (game_spec(s)->0).0 >= 1
    &&& (game_spec(s)->0).1 * factor <= MAX_MARBLE
}

/// The winning score of the game the text describes, with the last marble
/// worth `factor` times what it says.
pub open spec fn winning_spec(s: Seq<char>, factor: nat) -> int {
    let g = game_spec(s)->0;
    high_score(play_turns(g.0, g.1 * factor).1)
}

impl Ring {
    pub open spec fn view(&self) -> Seq<usize> {
        self.buffer@
    }

    pub fn new() -> (r: Ring)
        ensures
            r.view() == seq![0usize],
    {
        let mut r = Ring { buffer: VecDeque::new() };
        r.buffer.push_back(0);
        assert(r.buffer@ =~= seq![0usize]);
        r
    }

    pub fn rotate_right(&mut self)
        requires
            old(self).view().len() > 0,
        ensures
            final(self).view() == rotate_right(old(self).view()),
    {
        let v = self.buffer.pop_back().unwrap();
        self.buffer.push_front(v);
        assert(self.buffer@ =~= rotate_right(old(self).view()));
    }

    pub fn rotate_left(&mut self)
        requires
            old(self).view().len() > 0,
        ensures
            final(self).view() == rotate_left(old(self).view()),
    {
        let v = self.buffer.pop_front().unwrap();
        self.buffer.push_back(v);
        assert(self.buffer@ =~= rotate_left(old(self).view()));
    }
}

pub open spec fn scores_view(s: Seq<u64>) -> Seq<int> {
    s.map_values(|x: u64| x as int)
}

impl Game {
    /// Whether the game is `k` turns into a game of `num_players` players.
    pub open spec fn at_turn(&self, k: nat) -> bool {
        &&& self.num_players >= 1
        &&& self.last_marble <= MAX_MARBLE
        &&& self.current_count == k + 1
        &&& k <= self.last_marble
        &&& self.scores.len() == self.num_players
        &&& self.ring.view() == play_turns(self.num_players as nat, k).0
        &&& scores_view(self.scores@) == play_turns(self.num_players as nat, k).1
        &&& self.ring.view().len() == self.current_count - 2 * ((self.current_count - 1) / 23)
        &&& forall|i: int|
            0 <= i < self.ring.view().len() ==> #[trigger] self.ring.view()[i] < self.current_count
        &&& forall|i: int|
            0 <= i < self.scores.len() ==> #[trigger] self.scores@[i] <= self.current_count
                * 0x1_0000_0000
    }

    pub fn new(num_players: usize, last_marble: usize) -> (r: Game)
        requires
            num_players >= 1,
            last_marble <= MAX_MARBLE,
        ensures
            r.at_turn(0),
            r.num_players == num_players,
            r.last_marble == last_marble,
    {
        let mut scores: Vec<u64> = Vec::new();
        let mut i: usize = 0;
        while i < num_players
            invariant
                i <= num_players,
                scores.len() == i,
                forall|k: int| 0 <= k < i ==> scores@[k] == 0,
            decreases num_players - i,
        {
            scores.push(0);
            i = i + 1;
        }
        let g = Game { num_players, last_marble, ring: Ring::new(), scores, current_count: 1 };
        assert(scores_view(g.scores@) =~= play_turns(num_players as nat, 0).1);
        g
    }

    /// Plays the turn of marble `current_count`.
    pub fn next_step(&mut self)
        requires
            old(self).scores.len() >= 1,
            old(self).ring.view().len() >= 1,
            old(self).current_count < usize::MAX,
            forall|i: int|
                0 <= i < old(self).ring.view().len() ==> #[trigger] old(self).ring.view()[i]
                    < old(self).current_count,
            forall|i: int|
                0 <= i < old(self).scores.len() ==> #[trigger] old(self).scores@[i] + 2
                    * old(self).current_count <= u64::MAX,
        ensures
            (final(self).ring.view(), scores_view(final(self).scores@)) == turn(
                old(self).ring.view(),
                scores_view(old(self).scores@),
                old(self).current_count as int,
            ),
            final(self).current_count == old(self).current_count + 1,
            final(self).scores.len() == old(self).scores.len(),
            final(self).num_players == old(self).num_players,
            final(self).last_marble == old(self).last_marble,
            forall|i: int|
                0 <= i < final(self).ring.view().len() ==> #[trigger] final(self).ring.view()[i]
                    < final(self).current_count,
            forall|k: nat|
                old(self).at_turn(k) && k < old(self).last_marble ==> final(self).at_turn(k + 1),
    {
        let count = self.current_count;
        let ghost ring0 = self.ring.view();
        let ghost scores0 = self.scores@;
        if count % 23 == 0 {
            let mut j: usize = 0;
            while j < 7
                invariant
                    j <= 7,
                    ring0.len() > 0,
                    count == old(self).current_count,
                    count % 23 == 0,
                    self.scores@ == old(self).scores@,
                    self.num_players == old(self).num_players,
                    self.last_marble == old(self).last_marble,
                    self.current_count == count,
                    self.ring.view() == rotate_right_times(ring0, j as nat),
                    self.ring.view().len() == ring0.len(),
                    forall|i: int|
                        0 <= i < self.ring.view().len() ==> #[trigger] self.ring.view()[i] < count,
                decreases 7 - j,
            {
                self.ring.rotate_right();
                j = j + 1;
            }
            let ghost r7 = self.ring.view();
            let v = self.ring.buffer.pop_front().unwrap();
            assert(v == r7[0]);
            assert(v < count);
            let p = count % self.scores.len();
            assert(scores0[p as int] + 2 * count <= u64::MAX);
            let total = self.scores[p] + count as u64 + v as u64;
            self.scores.set(p, total);
            proof {
                assert(scores_view(self.scores@) =~= scores_view(scores0).update(
                    p as int,
                    scores_view(scores0)[p as int] + count + r7[0],
                ));
                assert((count + 1 - 1) / 23 == (count - 1) / 23 + 1);
            }
        } else {
            self.ring.rotate_left();
            self.ring.rotate_left();
            let ghost r2 = self.ring.view();
            self.ring.buffer.push_front(count);
            proof {
                assert(self.ring.view() =~= seq![count] + r2);
                assert(count / 23 == (count - 1) / 23);
            }
        }
        self.current_count = count + 1;
        proof {
            assert forall|k2: nat| old(self).at_turn(k2) && k2 < old(self).last_marble implies self.at_turn(
                k2 + 1,
            ) by {
                if count % 23 == 0 {
                    assert forall|i: int| 0 <= i < self.scores.len() implies #[trigger] self.scores@[i]
                        <= self.current_count * 0x1_0000_0000 by {
                        assert(scores0[i] <= count * 0x1_0000_0000);
                    }
                } else {
                    assert(self.scores@ == scores0);
                }
            }
        }
    }
}

impl Game {
    /// Plays every turn up to the last marble.
    pub fn play(&mut self)
        requires
            old(self).at_turn(0),
        ensures
            final(self).at_turn(old(self).last_marble as nat),
            final(self).num_players == old(self).num_players,
            final(self).last_marble == old(self).last_marble,
    {
        let n = self.last_marble;
        let mut i: usize = 0;
        while i < n
            invariant
                i <= n,
                n == self.last_marble,
                self.at_turn(i as nat),
                self.num_players == old(self).num_players,
                self.last_marble == old(self).last_marble,
            decreases n - i,
        {
            self.next_step();
            i = i + 1;
        }
    }
}

/// Reads the players and the last marble of a game description.
pub fn parse_game(input: &str) -> (r: Option<(usize, usize)>)
    ensures
        match r {
            Some((n, m)) => game_spec(input@) == Some((n as nat, m as nat)),
            None => game_spec(input@) is None,
        },
{
    let s = chars_of(input);
    let (lo, hi) = trim_range(&s, 0, s.len());
    assert(s@.subrange(0, s.len() as int) =~= s@);
    let t = crate::text::copy_range(&s, lo, hi);
    assert(t@.skip(0) =~= t@);
    let (n, p1) = match number_at(&t, 0) {
        Some(x) => x,
        None => {
            return None;
        },
    };
    let p2 = match tag_at(&t, p1, " players; last marble is worth ") {
        Some(p) => p,
        None => {
            return None;
        },
    };
    let (m, p3) = match number_at(&t, p2) {
        Some(x) => x,
        None => {
            return None;
        },
    };
    let p4 = match tag_at(&t, p3, " points") {
        Some(p) => p,
        None => {
            proof {
                reveal_strlit(" points");
                if t@.skip(p3 as int) == " points"@ {
                    assert(crate::text::after_tag(t@.skip(p3 as int), " points"@) is Some) by {
                        assert(t@.skip(p3 as int).take(7) =~= t@.skip(p3 as int));
                    }
                }
            }
            return None;
        },
    };
    if p4 != t.len() {
        proof {
            reveal_strlit(" points");
            assert(t@.skip(p3 as int).skip(7) =~= t@.skip(p4 as int));
            assert(t@.skip(p4 as int).len() > 0);
            assert(t@.skip(p3 as int) != " points"@);
        }
        return None;
    }
    proof {
        reveal_strlit(" points");
        assert(" points"@.len() == 7);
        assert(t@.skip(p4 as int).len() == 0);
        assert(t@.skip(p3 as int).skip(7).len() == 0);
        assert(t@.skip(p3 as int) =~= t@.skip(p3 as int).take(7));
    }
    Some((n, m))
}

fn highest(scores: &Vec<u64>) -> (r: u64)
    ensures
        r == high_score(scores_view(scores@)),
{
    let mut m: u64 = 0;
    let mut i: usize = 0;
    while i < scores.len()
        invariant
            i <= scores.len(),
            m == high_score(scores_view(scores@.take(i as int))),
        decreases scores.len() - i,
    {
        assert(scores_view(scores@.take(i + 1)).drop_last() =~= scores_view(scores@.take(i as int)));
        if m < scores[i] {
            m = scores[i];
        }
        i = i + 1;
    }
    assert(scores@.take(scores.len() as int) =~= scores@);
    m
}

/// The winning Elf's score.
pub fn winning_score(input: &str) -> (r: usize)
    requires
        game_ok(input@, 1),
        winning_spec(input@, 1) <= usize::MAX,
    ensures
        r == winning_spec(input@, 1),
{
    let (n, m) = match parse_game(input) {
        Some(g) => g,
        None => {
            return 0;
        },
    };
    let mut g = Game::new(n, m);
    g.play();
    assert(m as nat * 1 == m);
    highest(&g.scores) as usize
}

/// The winning Elf's score when the last marble is worth a hundred times
/// more.
pub fn winning_score2(input: &str) -> (r: usize)
    requires
        game_ok(input@, 100),
        winning_spec(input@, 100) <= usize::MAX,
    ensures
        r == winning_spec(input@, 100),
{
    let (n, m) = match parse_game(input) {
        Some(g) => g,
        None => {
            return 0;
        },
    };
    let mut g = Game::new(n, m * 100);
    g.play();
    highest(&g.scores) as usize
}

} // verus!
