use vstd::prelude::*;
use petgraph::graphmap::DiGraphMap;
use crate::text::{after_tag, chars_of, split, split_chars, string_of, tag_at};

verus! {

#[verifier::external_type_specification]
#[verifier::external_body]
#[verifier::reject_recursive_types(N)]
#[verifier::reject_recursive_types(E)]
#[verifier::reject_recursive_types(Ty)]
#[verifier::reject_recursive_types(S)]
pub struct ExGraphMap<N, E, Ty, S: std::hash::BuildHasher>(petgraph::graphmap::GraphMap<N, E, Ty, S>);

#[verifier::external_type_specification]
#[verifier::external_body]
pub struct ExDirected(petgraph::Directed);

/// The edges of a dependency graph.
pub uninterp spec fn graph_edges(g: DiGraphMap<char, ()>) -> Set<(char, char)>;

/// The nodes of a dependency graph.
pub uninterp spec fn graph_nodes(g: DiGraphMap<char, ()>) -> Set<char>;

/// Relies on `GraphMap::new`: a graph without nodes or edges.
#[verifier::external_body]
fn new_graph() -> (g: DiGraphMap<char, ()>)
    ensures
        graph_edges(g) == Set::<(char, char)>::empty(),
        graph_nodes(g) == Set::<char>::empty(),
{
    petgraph::graphmap::DiGraphMap::new()
}

/// Relies on `GraphMap::add_edge`: adds the edge from `a` to `b`, and both
/// nodes.
#[verifier::external_body]
fn add_edge(g: &mut DiGraphMap<char, ()>, a: char, b: char)
    ensures
        graph_edges(*final(g)) == graph_edges(*old(g)).insert((a, b)),
        graph_nodes(*final(g)) == graph_nodes(*old(g)).insert(a).insert(b),
{
    g.add_edge(a, b, ());
}

/// Relies on `GraphMap::contains_node`.
#[verifier::external_body]
fn contains_node(g: &DiGraphMap<char, ()>, c: char) -> (r: bool)
    ensures
        r == graph_nodes(*g).contains(c),
{
    g.contains_node(c)
}

/// Relies on `GraphMap::nodes`: every node, once each, in an order the
/// graph keeps.
#[verifier::external_body]
fn node_list(g: &DiGraphMap<char, ()>) -> (r: Vec<char>)
    ensures
        r@.to_set() == graph_nodes(*g),
{
    g.nodes().collect()
}

/// Relies on `GraphMap::neighbors_directed` with `Incoming`: the nodes with
/// an edge to `c`.
#[verifier::external_body]
fn incoming(g: &DiGraphMap<char, ()>, c: char) -> (r: Vec<char>)
    ensures
        r@.to_set() == Set::new(|a: char| graph_edges(*g).contains((a, c))),
{
    g.neighbors_directed(c, petgraph::Direction::Incoming).collect()
}

pub open spec fn is_letter(c: char) -> bool {
    ('A' <= c && c <= 'Z') || ('a' <= c && c <= 'z')
}

/// An instruction `Step <a> must be finished before step <b> can begin.`,
/// the whole line: the edge from `a` to `b`.
pub open spec fn edge_spec(l: Seq<char>) -> Option<(char, char)> {
    match after_tag(l, "Step "@) {
        None => None,
        Some(s1) => if s1.len() > 0 && is_letter(s1[0]) {
            match after_tag(s1.skip(1), " must be finished before step "@) {
                None => None,
                Some(s2) => if s2.len() > 0 && is_letter(s2[0]) && s2.skip(1) == " can begin."@ {
                    Some((s1[0], s2[0]))
                } else {
                    None
                },
            }
        } else {
            None
        },
    }
}

/// The edges on the non-empty lines of `ls`.
pub open spec fn edges_of_lines(ls: Seq<Seq<char>>) -> Option<Seq<(char, char)>>
    decreases ls.len(),
{
    if ls.len() == 0 {
        Some(Seq::empty())
    } else {
        match edges_of_lines(ls.drop_last()) {
            None => None,
            Some(es) => if ls.last().len() == 0 {
                Some(es)
            } else {
                match edge_spec(ls.last()) {
                    None => None,
                    Some(e) => Some(es.push(e)),
                }
            },
        }
    }
}

pub open spec fn edges_of(s: Seq<char>) -> Option<Seq<(char, char)>> {
    edges_of_lines(split(s, '\n'))
}

pub open spec fn in_graph(es: Seq<(char, char)>, c: char) -> bool {
    exists|k: int| 0 <= k < es.len() && ((#[trigger] es[k]).0 == c || es[k].1 == c)
}

/// Whether step `c` can begin once the steps `done` are finished: it is in
/// the graph, not done, and every step before it is done.
pub open spec fn ready(es: Seq<(char, char)>, done: Seq<char>, c: char) -> bool {
    &&& in_graph(es, c)
    &&& !done.contains(c)
    &&& forall|k: int| 0 <= k < es.len() && (#[trigger] es[k]).1 == c ==> done.contains(es[k].0)
}

/// The first ready step in alphabetical order.
pub open spec fn first_ready(es: Seq<(char, char)>, done: Seq<char>) -> Option<char> {
    if exists|c: char| ready(es, done, c) {
        Some(choose|c: char| ready(es, done, c) && forall|c2: char| #[trigger] ready(es, done, c2) ==> c <= c2)
    } else {
        None
    }
}

/// The order of the steps: repeatedly the first ready step in alphabetical
/// order, for at most `fuel` more steps.
pub open spec fn kahn(es: Seq<(char, char)>, done: Seq<char>, fuel: nat) -> Seq<char>
    decreases fuel,
{
    if fuel == 0 {
        done
    } else {
        match first_ready(es, done) {
            None => done,
            Some(c) => kahn(es, done.push(c), (fuel - 1) as nat),
        }
    }
}

/// The order in which the steps are done; a graph of `n` edges has at most
/// `2 n` steps.
pub open spec fn kahn_order(es: Seq<(char, char)>) -> Seq<char> {
    kahn(es, Seq::empty(), 2 * es.len())
}

proof fn lemma_edges_prefix_none(ls: Seq<Seq<char>>, k: int)
    requires
        0 <= k <= ls.len(),
        edges_of_lines(ls.take(k)) is None,
    ensures
        edges_of_lines(ls) is None,
    decreases ls.len(),
{
    if k < ls.len() {
        assert(ls.drop_last().take(k) =~= ls.take(k));
        lemma_edges_prefix_none(ls.drop_last(), k);
    } else {
        assert(ls.take(k) =~= ls);
    }
}

fn is_letter_char(c: char) -> (r: bool)
    ensures
        r == is_letter(c),
{
    ('A' <= c && c <= 'Z') || ('a' <= c && c <= 'z')
}

/// Reads an instruction line.
fn edge_at(l: &Vec<char>) -> (r: Option<(char, char)>)
    ensures
        r == edge_spec(l@),
{
    assert(l@.skip(0) =~= l@);
    let p1 = match tag_at(l, 0, "Step ") {
        Some(p) => p,
        None => {
            return None;
        },
    };
    if p1 >= l.len() || !is_letter_char(l[p1]) {
        return None;
    }
    let a = l[p1];
    assert(l@.skip(p1 as int).skip(1) =~= l@.skip(p1 + 1));
    let p2 = match tag_at(l, p1 + 1, " must be finished before step ") {
        Some(p) => p,
        None => {
            return None;
        },
    };
    if p2 >= l.len() || !is_letter_char(l[p2]) {
        return None;
    }
    let b = l[p2];
    assert(l@.skip(p2 as int).skip(1) =~= l@.skip(p2 + 1));
    match tag_at(l, p2 + 1, " can begin.") {
        Some(p3) => {
            if p3 != l.len() {
                proof {
                    reveal_strlit(" can begin.");
                    assert(" can begin."@.len() == 11);
                    assert(l@.skip(p3 as int).len() == l@.skip(p2 + 1).skip(11).len());
                    assert(l@.skip(p2 + 1).len() > 11);
                }
                return None;
            }
            proof {
                reveal_strlit(" can begin.");
                assert(" can begin."@.len() == 11);
                assert(l@.skip(p3 as int).len() == l@.skip(p2 + 1).skip(11).len());
                assert(l@.skip(p2 + 1) =~= l@.skip(p2 + 1).take(11));
            }
            Some((a, b))
        },
        None => {
            proof {
                reveal_strlit(" can begin.");
                if l@.skip(p2 + 1) == " can begin."@ {
                    assert(l@.skip(p2 + 1).take(11) =~= l@.skip(p2 + 1));
                }
            }
            None
        },
    }
}

/// Reads the edges of the instructions, one per non-empty line.
pub fn parse_edges(input: &str) -> (r: Option<Vec<(char, char)>>)
    ensures
        match r {
            Some(v) => edges_of(input@) == Some(v@),
            None => edges_of(input@) is None,
        },
{
    let s = chars_of(input);
    let lines = split_chars(&s, '\n');
    let ghost ls = lines@.map_values(|l: Vec<char>| l@);
    let mut v: Vec<(char, char)> = Vec::new();
    let mut i: usize = 0;
    while i < lines.len()
        invariant
            i <= lines.len(),
            ls == lines@.map_values(|l: Vec<char>| l@),
            ls == split(input@, '\n'),
            edges_of_lines(ls.take(i as int)) == Some(v@),
        decreases lines.len() - i,
    {
        assert(ls.take(i + 1).drop_last() =~= ls.take(i as int));
        assert(lines@[i as int]@ == ls[i as int]);
        if lines[i].len() > 0 {
            match edge_at(&lines[i]) {
                Some(e) => {
                    v.push(e);
                },
                None => {
                    proof {
                        lemma_edges_prefix_none(ls, i + 1);
                    }
                    return None;
                },
            }
        }
        i = i + 1;
    }
    assert(ls.take(lines.len() as int) =~= ls);
    Some(v)
}

fn contains_char(v: &Vec<char>, c: char) -> (r: bool)
    ensures
        r == v@.contains(c),
{
    let mut i: usize = 0;
    while i < v.len()
        invariant
            i <= v.len(),
            forall|k: int| 0 <= k < i ==> v@[k] != c,
        decreases v.len() - i,
    {
        if v[i] == c {
            return true;
        }
        i = i + 1;
    }
    false
}

/// Whether the graph holds exactly the edges `es` and their ends.
pub open spec fn graph_of(g: DiGraphMap<char, ()>, es: Seq<(char, char)>) -> bool {
    &&& graph_edges(g) == es.to_set()
    &&& graph_nodes(g) == Set::new(|c: char| in_graph(es, c))
}

/// The dependency graph of the edges.
fn build_graph(es: &Vec<(char, char)>) -> (g: DiGraphMap<char, ()>)
    ensures
        graph_of(g, es@),
{
    let mut g = new_graph();
    let mut i: usize = 0;
    proof {
        assert(es@.take(0).to_set() =~= Set::<(char, char)>::empty());
        assert(Set::new(|c: char| in_graph(es@.take(0), c)) =~= Set::<char>::empty());
    }
    while i < es.len()
        invariant
            i <= es.len(),
            graph_of(g, es@.take(i as int)),
        decreases es.len() - i,
    {
        let (a, b) = es[i];
        let ghost pre = es@.take(i as int);
        let ghost post = es@.take(i + 1);
        add_edge(&mut g, a, b);
        proof {
            assert(post =~= pre.push((a, b)));
            assert(post.to_set() =~= pre.to_set().insert((a, b))) by {
                assert forall|x: (char, char)| post.to_set().contains(x) <==> pre.to_set().insert((a, b)).contains(x) by {
                    if post.contains(x) {
                        let k = choose|k: int| 0 <= k < post.len() && post[k] == x;
                        if k < pre.len() {
                            assert(pre[k] == x);
                        }
                    }
                    if pre.contains(x) {
                        let k = choose|k: int| 0 <= k < pre.len() && pre[k] == x;
                        assert(post[k] == x);
                    }
                    if x == (a, b) {
                        assert(post[i as int] == x);
                    }
                }
            }
            assert(Set::new(|c: char| in_graph(post, c)) =~= Set::new(|c: char| in_graph(pre, c)).insert(a).insert(b)) by {
                assert forall|c: char| in_graph(post, c) <==> (in_graph(pre, c) || c == a || c == b) by {
                    if in_graph(post, c) {
                        let k = choose|k: int| 0 <= k < post.len() && ((#[trigger] post[k]).0 == c || post[k].1 == c);
                        if k < pre.len() {
                            assert(pre[k] == post[k]);
                        }
                    }
                    if in_graph(pre, c) {
                        let k = choose|k: int| 0 <= k < pre.len() && ((#[trigger] pre[k]).0 == c || pre[k].1 == c);
                        assert(post[k] == pre[k]);
                    }
                    if c == a || c == b {
                        assert(post[i as int] == (a, b));
                    }
                }
            }
        }
        i = i + 1;
    }
    assert(es@.take(es.len() as int) =~= es@);
    g
}

/// Whether step `c` is ready once the steps `done` are finished.
fn is_ready(g: &DiGraphMap<char, ()>, es: Ghost<Seq<(char, char)>>, done: &Vec<char>, c: char) -> (r: bool)
    requires
        graph_of(*g, es@),
    ensures
        r == ready(es@, done@, c),
{
    if !contains_node(g, c) {
        assert(!Set::new(|x: char| in_graph(es@, x)).contains(c));
        return false;
    }
    assert(in_graph(es@, c));
    if contains_char(done, c) {
        return false;
    }
    let preds = incoming(g, c);
    let mut k: usize = 0;
    while k < preds.len()
        invariant
            k <= preds.len(),
            graph_of(*g, es@),
            preds@.to_set() == Set::new(|a: char| graph_edges(*g).contains((a, c))),
            forall|j: int| 0 <= j < k ==> done@.contains(#[trigger] preds@[j]),
        decreases preds.len() - k,
    {
        if !contains_char(done, preds[k]) {
            proof {
                let p = preds@[k as int];
                assert(preds@.to_set().contains(p));
                assert(graph_edges(*g).contains((p, c)));
                assert(es@.to_set().contains((p, c)));
                let m = choose|m: int| 0 <= m < es@.len() && es@[m] == (p, c);
                assert((es@[m]).1 == c);
            }
            return false;
        }
        k = k + 1;
    }
    proof {
        assert forall|m: int| 0 <= m < es@.len() && (#[trigger] es@[m]).1 == c implies done@.contains(es@[m].0) by {
            let p = es@[m].0;
            assert(es@.contains((p, c)));
            assert(es@.to_set().contains((p, c)));
            assert(preds@.to_set().contains(p));
            let j = choose|j: int| 0 <= j < preds@.len() && preds@[j] == p;
        }
    }
    true
}

/// The first ready step in alphabetical order.
fn find_first_ready(g: &DiGraphMap<char, ()>, es: Ghost<Seq<(char, char)>>, nodes: &Vec<char>, done: &Vec<char>) -> (r: Option<char>)
    requires
        graph_of(*g, es@),
        nodes@.to_set() == graph_nodes(*g),
    ensures
        r == first_ready(es@, done@),
{
    let mut best: Option<char> = None;
    let mut k: usize = 0;
    while k < nodes.len()
        invariant
            k <= nodes.len(),
            graph_of(*g, es@),
            match best {
                Some(b) => ready(es@, done@, b) && forall|k2: int|
                    0 <= k2 < k ==> (ready(es@, done@, #[trigger] nodes@[k2]) ==> b <= nodes@[k2]),
                None => forall|k2: int| 0 <= k2 < k ==> !ready(es@, done@, #[trigger] nodes@[k2]),
            },
        decreases nodes.len() - k,
    {
        let c = nodes[k];
        if is_ready(g, es, done, c) {
            match best {
                Some(x) => if c < x {
                    best = Some(c);
                },
                None => {
                    best = Some(c);
                },
            }
        }
        k = k + 1;
    }
    proof {
        assert forall|c2: char| #[trigger] ready(es@, done@, c2) implies exists|j: int| 0 <= j < nodes@.len() && nodes@[j] == c2 by {
            assert(Set::new(|x: char| in_graph(es@, x)).contains(c2));
            assert(nodes@.to_set().contains(c2));
        }
        match best {
            Some(b) => {
                assert forall|c2: char| #[trigger] ready(es@, done@, c2) implies b <= c2 by {
                    let j = choose|j: int| 0 <= j < nodes@.len() && nodes@[j] == c2;
                }
                let c = choose|c: char|
                    ready(es@, done@, c) && forall|c2: char| #[trigger] ready(es@, done@, c2) ==> c <= c2;
                assert(c <= b && b <= c);
            },
            None => {
                assert forall|c2: char| !ready(es@, done@, c2) by {
                    if ready(es@, done@, c2) {
                        let j = choose|j: int| 0 <= j < nodes@.len() && nodes@[j] == c2;
                    }
                }
            },
        }
    }
    best
}

/// The order of the steps.
fn order(es: &Vec<(char, char)>) -> (r: Vec<char>)
    ensures
        r@ == kahn_order(es@),
{
    let g = build_graph(es);
    let nodes = node_list(&g);
    let mut done: Vec<char> = Vec::new();
    let fuel: u128 = 2 * es.len() as u128;
    let mut f: u128 = fuel;
    while f > 0
        invariant
            f <= fuel,
            fuel == 2 * es@.len(),
            kahn_order(es@) == kahn(es@, done@, f as nat),
            graph_of(g, es@),
            nodes@.to_set() == graph_nodes(g),
        decreases f,
    {
        match find_first_ready(&g, Ghost(es@), &nodes, &done) {
            Some(c) => {
                done.push(c);
                f = f - 1;
            },
            None => {
                return done;
            },
        }
    }
    done
}

/// The order in which the steps are done: each time the first step, in
/// alphabetical order, whose steps before it are all done.
pub fn steps(input: &str) -> (r: String)
    requires
        edges_of(input@) is Some,
    ensures
        r@ == kahn_order(edges_of(input@)->0),
{
    let es = match parse_edges(input) {
        Some(v) => v,
        None => {
            return String::new();
        },
    };
    let o = order(&es);
    string_of(&o)
}

/// How long step `c` takes: `factor` seconds plus its place in the
/// alphabet (`A` is 1).
pub open spec fn duration(c: char, factor: int) -> int {
    factor + (c as u32) as int - 64
}

/// Whether step `c` can be taken up: ready, and no worker is on it.
pub open spec fn free_step(es: Seq<(char, char)>, done: Seq<char>, busy: Seq<(char, int)>, c: char) -> bool {
    ready(es, done, c) && forall|k: int| 0 <= k < busy.len() ==> (#[trigger] busy[k]).0 != c
}

pub open spec fn first_free(es: Seq<(char, char)>, done: Seq<char>, busy: Seq<(char, int)>) -> Option<char> {
    if exists|c: char| free_step(es, done, busy, c) {
        Some(choose|c: char| free_step(es, done, busy, c) && forall|c2: char| #[trigger] free_step(es, done, busy, c2) ==> c <= c2)
    } else {
        None
    }
}

/// Idle workers take up free steps, first in alphabetical order first;
/// `busy` lists the steps under way with the seconds they still need.
#[verifier::opaque]
pub open spec fn assign(
    es: Seq<(char, char)>,
    done: Seq<char>,
    busy: Seq<(char, int)>,
    workers: int,
    factor: int,
    fuel: nat,
) -> Seq<(char, int)>
    decreases fuel,
{
    if fuel == 0 || busy.len() >= workers {
        busy
    } else {
        match first_free(es, done, busy) {
            None => busy,
            Some(c) => assign(es, done, busy.push((c, duration(c, factor))), workers, factor, (fuel - 1) as nat),
        }
    }
}

/// The steps that finish in the coming second, in the workers' order.
pub open spec fn finishing(busy: Seq<(char, int)>) -> Seq<char>
    decreases busy.len(),
{
    if busy.len() == 0 {
        Seq::empty()
    } else if busy.last().1 <= 1 {
        finishing(busy.drop_last()).push(busy.last().0)
    } else {
        finishing(busy.drop_last())
    }
}

/// The steps still under way after the coming second.
pub open spec fn progress(busy: Seq<(char, int)>) -> Seq<(char, int)>
    decreases busy.len(),
{
    if busy.len() == 0 {
        Seq::empty()
    } else if busy.last().1 <= 1 {
        progress(busy.drop_last())
    } else {
        progress(busy.drop_last()).push((busy.last().0, busy.last().1 - 1))
    }
}

/// The seconds until no worker has anything to do, from second `t`, for at
/// most `fuel` more seconds.
#[verifier::opaque]
pub open spec fn work(
    es: Seq<(char, char)>,
    workers: int,
    factor: int,
    done: Seq<char>,
    busy: Seq<(char, int)>,
    t: int,
    fuel: nat,
) -> int
    decreases fuel,
{
    if fuel == 0 {
        t
    } else {
        let b = assign(es, done, busy, workers, factor, workers as nat);
        if b.len() == 0 {
            t
        } else {
            work(es, workers, factor, done + finishing(b), progress(b), t + 1, (fuel - 1) as nat)
        }
    }
}

/// The seconds a graph of `n` edges can take: each of its at most `2 n`
/// steps takes at most `factor + 58` seconds.
pub open spec fn time_bound(es: Seq<(char, char)>, factor: int) -> nat {
    (2 * es.len() * (factor + 58) + 1) as nat
}

/// The time the workers take to finish the steps.
pub open spec fn makespan(es: Seq<(char, char)>, workers: int, factor: int) -> int {
    work(es, workers, factor, Seq::empty(), Seq::empty(), 0, time_bound(es, factor))
}

pub open spec fn busy_view(b: Seq<(char, i128)>) -> Seq<(char, int)> {
    b.map_values(|x: (char, i128)| (x.0, x.1 as int))
}

/// Whether step `c` can be taken up.
fn is_free(
    g: &DiGraphMap<char, ()>,
    es: Ghost<Seq<(char, char)>>,
    done: &Vec<char>,
    busy: &Vec<(char, i128)>,
    c: char,
) -> (r: bool)
    requires
        graph_of(*g, es@),
    ensures
        r == free_step(es@, done@, busy_view(busy@), c),
{
    let ghost bv = busy_view(busy@);
    let mut j: usize = 0;
    while j < busy.len()
        invariant
            j <= busy.len(),
            bv == busy_view(busy@),
            forall|j2: int| 0 <= j2 < j ==> (#[trigger] bv[j2]).0 != c,
        decreases busy.len() - j,
    {
        assert(bv[j as int].0 == busy@[j as int].0);
        if busy[j].0 == c {
            return false;
        }
        j = j + 1;
    }
    is_ready(g, es, done, c)
}

/// The first free step in alphabetical order.
fn find_first_free(
    g: &DiGraphMap<char, ()>,
    es: Ghost<Seq<(char, char)>>,
    nodes: &Vec<char>,
    done: &Vec<char>,
    busy: &Vec<(char, i128)>,
) -> (r: Option<char>)
    requires
        graph_of(*g, es@),
        nodes@.to_set() == graph_nodes(*g),
    ensures
        r == first_free(es@, done@, busy_view(busy@)),
{
    let ghost bv = busy_view(busy@);
    let mut best: Option<char> = None;
    let mut k: usize = 0;
    while k < nodes.len()
        invariant
            k <= nodes.len(),
            graph_of(*g, es@),
            bv == busy_view(busy@),
            match best {
                Some(b) => free_step(es@, done@, bv, b) && forall|k2: int|
                    0 <= k2 < k ==> (free_step(es@, done@, bv, #[trigger] nodes@[k2]) ==> b <= nodes@[k2]),
                None => forall|k2: int| 0 <= k2 < k ==> !free_step(es@, done@, bv, #[trigger] nodes@[k2]),
            },
        decreases nodes.len() - k,
    {
        let c = nodes[k];
        if is_free(g, es, done, busy, c) {
            match best {
                Some(x) => if c < x {
                    best = Some(c);
                },
                None => {
                    best = Some(c);
                },
            }
        }
        k = k + 1;
    }
    proof {
        assert forall|c2: char| #[trigger] free_step(es@, done@, bv, c2) implies exists|j: int| 0 <= j < nodes@.len() && nodes@[j] == c2 by {
            assert(Set::new(|x: char| in_graph(es@, x)).contains(c2));
            assert(nodes@.to_set().contains(c2));
        }
        match best {
            Some(b) => {
                assert forall|c2: char| #[trigger] free_step(es@, done@, bv, c2) implies b <= c2 by {
                    let j = choose|j: int| 0 <= j < nodes@.len() && nodes@[j] == c2;
                }
                let c = choose|c: char|
                    free_step(es@, done@, bv, c) && forall|c2: char| #[trigger] free_step(es@, done@, bv, c2) ==> c <= c2;
                assert(c <= b && b <= c);
            },
            None => {
                assert forall|c2: char| !free_step(es@, done@, bv, c2) by {
                    if free_step(es@, done@, bv, c2) {
                        let j = choose|j: int| 0 <= j < nodes@.len() && nodes@[j] == c2;
                    }
                }
            },
        }
    }
    best
}

/// Idle workers take up free steps.
fn assign_workers(
    g: &DiGraphMap<char, ()>,
    es: &Vec<(char, char)>,
    nodes: &Vec<char>,
    done: &Vec<char>,
    busy: &mut Vec<(char, i128)>,
    workers: usize,
    factor: usize,
)
    requires
        graph_of(*g, es@),
        nodes@.to_set() == graph_nodes(*g),
    ensures
        busy_view(final(busy)@) == assign(
            es@,
            done@,
            busy_view(old(busy)@),
            workers as int,
            factor as int,
            workers as nat,
        ),
{
    reveal(assign);
    let ghost target = assign(es@, done@, busy_view(busy@), workers as int, factor as int, workers as nat);
    let mut f: usize = workers;
    while f > 0 && busy.len() < workers
        invariant
            f <= workers,
            graph_of(*g, es@),
            nodes@.to_set() == graph_nodes(*g),
            target == assign(es@, done@, busy_view(busy@), workers as int, factor as int, f as nat),
            target == assign(
                es@,
                done@,
                busy_view(old(busy)@),
                workers as int,
                factor as int,
                workers as nat,
            ),
        decreases f,
    {
        match find_first_free(g, Ghost(es@), nodes, done, busy) {
            Some(c) => {
                proof {
                    reveal(assign);
                }
                let d = factor as i128 + (c as u32) as i128 - 64;
                let ghost before = busy_view(busy@);
                busy.push((c, d));
                assert(busy_view(busy@) =~= before.push((c, duration(c, factor as int))));
                f = f - 1;
            },
            None => {
                proof {
                    reveal(assign);
                }
                assert(busy_view(busy@).len() == busy.len());
                assert(busy_view(busy@) == target);
                return;
            },
        }
    }
    proof {
        reveal(assign);
    }
    assert(busy_view(busy@).len() == busy.len());
    assert(busy_view(busy@) == target);
}

/// The steps that finish in the coming second, and those still under way
/// after it.
fn advance(busy: &Vec<(char, i128)>) -> (r: (Vec<char>, Vec<(char, i128)>))
    ensures
        r.0@ == finishing(busy_view(busy@)),
        busy_view(r.1@) == progress(busy_view(busy@)),
{
    let ghost bv = busy_view(busy@);
    let mut fin: Vec<char> = Vec::new();
    let mut rest: Vec<(char, i128)> = Vec::new();
    let mut k: usize = 0;
    while k < busy.len()
        invariant
            k <= busy.len(),
            bv == busy_view(busy@),
            fin@ == finishing(bv.take(k as int)),
            busy_view(rest@) == progress(bv.take(k as int)),
        decreases busy.len() - k,
    {
        assert(bv.take(k + 1).drop_last() =~= bv.take(k as int));
        let (c, n) = busy[k];
        if n <= 1 {
            fin.push(c);
        } else {
            let ghost before = busy_view(rest@);
            rest.push((c, n - 1));
            assert(busy_view(rest@) =~= before.push((c, n - 1)));
        }
        k = k + 1;
    }
    assert(bv.take(busy.len() as int) =~= bv);
    (fin, rest)
}

/// One second of work: idle workers take up free steps, then every step
/// under way moves on; `true` where no worker has anything to do.
fn one_second(
    g: &DiGraphMap<char, ()>,
    es: &Vec<(char, char)>,
    nodes: &Vec<char>,
    done: &mut Vec<char>,
    busy: &mut Vec<(char, i128)>,
    workers: usize,
    factor: usize,
) -> (idle: bool)
    requires
        graph_of(*g, es@),
        nodes@.to_set() == graph_nodes(*g),
    ensures
        ({
            let b = assign(
                es@,
                old(done)@,
                busy_view(old(busy)@),
                workers as int,
                factor as int,
                workers as nat,
            );
            &&& idle == (b.len() == 0)
            &&& !idle ==> final(done)@ == old(done)@ + finishing(b) && busy_view(final(busy)@)
                == progress(b)
        }),
{
    assign_workers(g, es, nodes, done, busy, workers, factor);
    if busy.len() == 0 {
        return true;
    }
    let (fin, rest) = advance(busy);
    let ghost before = done@;
    let mut k: usize = 0;
    while k < fin.len()
        invariant
            k <= fin.len(),
            done@ == before + fin@.take(k as int),
        decreases fin.len() - k,
    {
        done.push(fin[k]);
        assert(done@ =~= before + fin@.take(k + 1));
        k = k + 1;
    }
    assert(fin@.take(fin.len() as int) =~= fin@);
    *busy = rest;
    false
}

/// The seconds that `workers` workers take to finish all the steps, each
/// step taking `factor` seconds plus its place in the alphabet.
pub fn completion_time(input: &str, workers: usize, factor: usize) -> (r: usize)
    requires
        edges_of(input@) is Some,
        (edges_of(input@)->0).len() < 0x1_0000_0000,
        makespan(edges_of(input@)->0, workers as int, factor as int) <= usize::MAX,
    ensures
        r == makespan(edges_of(input@)->0, workers as int, factor as int),
{
    let es = match parse_edges(input) {
        Some(v) => v,
        None => {
            return 0;
        },
    };
    let ghost n = es.len() as int;
    let ghost fv = factor as int;
    assert(n * (fv + 58) <= 0x1_0000_0000 * 0x2_0000_0000_0000_0000) by (nonlinear_arith)
        requires
            0 <= n < 0x1_0000_0000,
            0 <= fv <= 0xffff_ffff_ffff_ffff,
    ;
    let prod: u128 = (es.len() as u128) * (factor as u128 + 58);
    let fuel: u128 = 2 * prod + 1;
    assert(fuel == time_bound(es@, factor as int)) by (nonlinear_arith)
        requires
            prod == n * (fv + 58),
            fuel == 2 * prod + 1,
            n == es@.len(),
            fv == factor,
    ;
    let g = build_graph(&es);
    let nodes = node_list(&g);
    let mut done: Vec<char> = Vec::new();
    let mut busy: Vec<(char, i128)> = Vec::new();
    let mut t: u128 = 0;
    let mut f: u128 = fuel;
    assert(busy_view(busy@) =~= Seq::<(char, int)>::empty());
    while f > 0
        invariant
            f <= fuel,
            t + f == fuel,
            es@ == edges_of(input@)->0,
            makespan(es@, workers as int, factor as int) <= usize::MAX,
            graph_of(g, es@),
            nodes@.to_set() == graph_nodes(g),
            makespan(es@, workers as int, factor as int) == work(
                es@,
                workers as int,
                factor as int,
                done@,
                busy_view(busy@),
                t as int,
                f as nat,
            ),
        decreases f,
    {
        let ghost b = assign(es@, done@, busy_view(busy@), workers as int, factor as int, workers as nat);
        proof {
            reveal(work);
            assert(work(es@, workers as int, factor as int, done@, busy_view(busy@), t as int, f as nat)
                == if b.len() == 0 {
                t as int
            } else {
                work(
                    es@,
                    workers as int,
                    factor as int,
                    done@ + finishing(b),
                    progress(b),
                    t + 1,
                    (f - 1) as nat,
                )
            });
        }
        if one_second(&g, &es, &nodes, &mut done, &mut busy, workers, factor) {
            return t as usize;
        }
        t = t + 1;
        f = f - 1;
    }
    proof {
        reveal(work);
    }
    t as usize
}

} // verus!
