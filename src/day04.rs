use vstd::prelude::*;
use crate::text::{after_tag, chars_of, copy_range, leading_number, number_at, split, split_chars, tag_at, trim, trim_range};

verus! {

/// A moment of the record: year, month, day, hour and minute.
#[derive(Debug, Clone, Copy, PartialEq, Eq, Structural)]
pub struct Stamp {
    pub year: u64,
    pub month: u64,
    pub day: u64,
    pub hour: u64,
    pub minute: u64,
}

/// What happened: a guard began a shift, fell asleep, or woke up.
#[derive(Debug, Clone, Copy, PartialEq, Eq, Structural)]
pub enum Event {
    Begin(u64, Stamp),
    Sleep(Stamp),
    Wake(Stamp),
}

pub open spec fn stamp_of(e: Event) -> Stamp {
    match e {
        Event::Begin(_, t) => t,
        Event::Sleep(t) => t,
        Event::Wake(t) => t,
    }
}

/// Whether `a` comes no later than `b`.
pub open spec fn no_later(a: Stamp, b: Stamp) -> bool {
    a.year < b.year || (a.year == b.year && (a.month < b.month || (a.month == b.month && (a.day
        < b.day || (a.day == b.day && (a.hour < b.hour || (a.hour == b.hour && a.minute
        <= b.minute)))))))
}

/// A number of exactly `n` digits at the start of `s`, and the rest.
pub open spec fn fixed_number(s: Seq<char>, n: int) -> Option<(u64, Seq<char>)> {
    match leading_number(s) {
        Some((v, rest)) => if rest.len() == s.len() - n && v <= u64::MAX {
            Some((v as u64, rest))
        } else {
            None
        },
        None => None,
    }
}

/// A stamp `[YYYY-MM-DD hh:mm] `, and the text after it.
pub open spec fn stamp_spec(s: Seq<char>) -> Option<(Stamp, Seq<char>)> {
    match after_tag(s, "["@) {
        None => None,
        Some(s1) => match fixed_number(s1, 4) {
            None => None,
            Some((y, s2)) => match after_tag(s2, "-"@) {
                None => None,
                Some(s3) => match fixed_number(s3, 2) {
                    None => None,
                    Some((mo, s4)) => match after_tag(s4, "-"@) {
                        None => None,
                        Some(s5) => match fixed_number(s5, 2) {
                            None => None,
                            Some((d, s6)) => match after_tag(s6, " "@) {
                                None => None,
                                Some(s7) => match fixed_number(s7, 2) {
                                    None => None,
                                    Some((h, s8)) => match after_tag(s8, ":"@) {
                                        None => None,
                                        Some(s9) => match fixed_number(s9, 2) {
                                            None => None,
                                            Some((mi, s10)) => match after_tag(s10, "] "@) {
                                                None => None,
                                                Some(s11) => Some(
                                                    (
                                                        Stamp {
                                                            year: y,
                                                            month: mo,
                                                            day: d,
                                                            hour: h,
                                                            minute: mi,
                                                        },
                                                        s11,
                                                    ),
                                                ),
                                            },
                                        },
                                    },
                                },
                            },
                        },
                    },
                },
            },
        },
    }
}

/// A record line: a stamp, then `Guard #<id> begins shift`,
/// `falls asleep` or `wakes up`.
pub open spec fn event_spec(l: Seq<char>) -> Option<Event> {
    match stamp_spec(l) {
        None => None,
        Some((t, rest)) => if rest == "falls asleep"@ {
            Some(Event::Sleep(t))
        } else if rest == "wakes up"@ {
            Some(Event::Wake(t))
        } else {
            match after_tag(rest, "Guard #"@) {
                None => None,
                Some(r1) => match leading_number(r1) {
                    Some((id, r2)) => if r2 == " begins shift"@ && id <= u64::MAX {
                        Some(Event::Begin(id as u64, t))
                    } else {
                        None
                    },
                    None => None,
                },
            }
        },
    }
}

fn fixed_at(s: &Vec<char>, pos: usize, n: usize) -> (r: Option<(u64, usize)>)
    requires
        pos <= s.len(),
    ensures
        match r {
            Some((v, e)) => pos <= e <= s.len() && fixed_number(s@.skip(pos as int), n as int) == Some(
                (v, s@.skip(e as int)),
            ),
            None => fixed_number(s@.skip(pos as int), n as int) is None,
        },
{
    match number_at(s, pos) {
        Some((v, e)) => {
            if e - pos == n {
                Some((v as u64, e))
            } else {
                None
            }
        },
        None => None,
    }
}

/// Whether `s[pos..]` is exactly `t`.
fn rest_is(s: &Vec<char>, pos: usize, t: &str) -> (r: bool)
    requires
        pos <= s.len(),
    ensures
        r == (s@.skip(pos as int) == t@),
{
    match tag_at(s, pos, t) {
        Some(e) => {
            if e == s.len() {
                assert(s@.skip(e as int).len() == 0);
                assert(s@.skip(pos as int).skip(t@.len() as int).len() == 0);
                assert(s@.skip(pos as int) =~= s@.skip(pos as int).take(t@.len() as int));
                true
            } else {
                assert(s@.skip(e as int).len() > 0);
                false
            }
        },
        None => {
            proof {
                if s@.skip(pos as int) == t@ {
                    assert(s@.skip(pos as int).take(t@.len() as int) =~= t@);
                }
            }
            false
        },
    }
}

/// Reads a record line.
pub fn parse_event(l: &Vec<char>) -> (r: Option<Event>)
    ensures
        r == event_spec(l@),
{
    assert(l@.skip(0) =~= l@);
    let p1 = match tag_at(l, 0, "[") { Some(p) => p, None => { return None; } };
    let (y, p2) = match fixed_at(l, p1, 4) { Some(x) => x, None => { return None; } };
    let p3 = match tag_at(l, p2, "-") { Some(p) => p, None => { return None; } };
    let (mo, p4) = match fixed_at(l, p3, 2) { Some(x) => x, None => { return None; } };
    let p5 = match tag_at(l, p4, "-") { Some(p) => p, None => { return None; } };
    let (d, p6) = match fixed_at(l, p5, 2) { Some(x) => x, None => { return None; } };
    let p7 = match tag_at(l, p6, " ") { Some(p) => p, None => { return None; } };
    let (h, p8) = match fixed_at(l, p7, 2) { Some(x) => x, None => { return None; } };
    let p9 = match tag_at(l, p8, ":") { Some(p) => p, None => { return None; } };
    let (mi, p10) = match fixed_at(l, p9, 2) { Some(x) => x, None => { return None; } };
    let p11 = match tag_at(l, p10, "] ") { Some(p) => p, None => { return None; } };
    let t = Stamp { year: y, month: mo, day: d, hour: h, minute: mi };
    if rest_is(l, p11, "falls asleep") {
        return Some(Event::Sleep(t));
    }
    if rest_is(l, p11, "wakes up") {
        return Some(Event::Wake(t));
    }
    let q1 = match tag_at(l, p11, "Guard #") { Some(p) => p, None => { return None; } };
    let (id, q2) = match number_at(l, q1) { Some(x) => x, None => { return None; } };
    if rest_is(l, q2, " begins shift") {
        Some(Event::Begin(id as u64, t))
    } else {
        None
    }
}

/// The events on the non-empty lines of `ls`, each line trimmed.
pub open spec fn events_of_lines(ls: Seq<Seq<char>>) -> Option<Seq<Event>>
    decreases ls.len(),
{
    if ls.len() == 0 {
        Some(Seq::empty())
    } else {
        match events_of_lines(ls.drop_last()) {
            None => None,
            Some(es) => if ls.last().len() == 0 {
                Some(es)
            } else {
                match event_spec(trim(ls.last())) {
                    None => None,
                    Some(e) => Some(es.push(e)),
                }
            },
        }
    }
}

pub open spec fn events_of(s: Seq<char>) -> Option<Seq<Event>> {
    events_of_lines(split(s, '\n'))
}

/// `es`, in time order, with `e` placed after every event no later.
pub open spec fn insert_event(es: Seq<Event>, e: Event) -> Seq<Event>
    decreases es.len(),
{
    if es.len() == 0 {
        seq![e]
    } else if no_later(stamp_of(es.last()), stamp_of(e)) {
        es.push(e)
    } else {
        insert_event(es.drop_last(), e).push(es.last())
    }
}

/// The events in time order, those at the same moment kept in their order.
pub open spec fn sort_events(es: Seq<Event>) -> Seq<Event>
    decreases es.len(),
{
    if es.len() == 0 {
        es
    } else {
        insert_event(sort_events(es.drop_last()), es.last())
    }
}

/// Index of the first row of guard `id`, or -1.
pub open spec fn find(table: Seq<(u64, Seq<int>)>, id: u64) -> int
    decreases table.len(),
{
    if table.len() == 0 {
        -1
    } else {
        let i = find(table.drop_last(), id);
        if i >= 0 {
            i
        } else if table.last().0 == id {
            table.len() - 1
        } else {
            -1
        }
    }
}

/// `row` with `d` added to minute `m` and every later minute of the hour.
pub open spec fn add_from(row: Seq<int>, m: int, d: int) -> Seq<int> {
    Seq::new(60, |k: int| if k >= m { row[k] + d } else { row[k] })
}

/// The sleep table and the guard on duty after an event: per guard, how
/// many times each minute of the midnight hour was begun asleep less the
/// times it was begun awake.
pub open spec fn record(table: Seq<(u64, Seq<int>)>, cur: u64, e: Event) -> (Seq<(u64, Seq<int>)>, u64) {
    match e {
        Event::Begin(id, _) => (
            if find(table, id) < 0 {
                table.push((id, Seq::new(60, |k: int| 0)))
            } else {
                table
            },
            id,
        ),
        Event::Sleep(t) => {
            let i = find(table, cur);
            (if i >= 0 {
                table.update(i, (cur, add_from(table[i].1, t.minute as int, 1)))
            } else {
                table
            }, cur)
        },
        Event::Wake(t) => {
            let i = find(table, cur);
            (if i >= 0 {
                table.update(i, (cur, add_from(table[i].1, t.minute as int, -1)))
            } else {
                table
            }, cur)
        },
    }
}

pub open spec fn records(es: Seq<Event>) -> (Seq<(u64, Seq<int>)>, u64)
    decreases es.len(),
{
    if es.len() == 0 {
        (Seq::empty(), 0)
    } else {
        let p = records(es.drop_last());
        record(p.0, p.1, es.last())
    }
}

pub open spec fn row_total(row: Seq<int>) -> int
    decreases row.len(),
{
    if row.len() == 0 {
        0
    } else {
        row_total(row.drop_last()) + row.last()
    }
}

/// The last minute of the row among those with the largest count.
pub open spec fn sleepiest(row: Seq<int>) -> int
    decreases row.len(),
{
    if row.len() <= 1 {
        0
    } else {
        let m = sleepiest(row.drop_last());
        if row.last() >= row[m] {
            row.len() - 1
        } else {
            m
        }
    }
}

/// Over the first guards of the table: the largest total above 0, and the
/// guard and sleepiest minute of the first guard with it (0 where none).
pub open spec fn choose_guard(table: Seq<(u64, Seq<int>)>) -> (int, u64, int)
    decreases table.len(),
{
    if table.len() == 0 {
        (0, 0, 0)
    } else {
        let p = choose_guard(table.drop_last());
        let g = table.last();
        if p.0 < row_total(g.1) {
            (row_total(g.1), g.0, sleepiest(g.1))
        } else {
            p
        }
    }
}

/// The guard that sleeps the most times the minute it sleeps the most.
pub open spec fn slacker_spec(es: Seq<Event>) -> int {
    let c = choose_guard(records(sort_events(es)).0);
    c.2 * c.1
}

proof fn lemma_events_prefix_none(ls: Seq<Seq<char>>, k: int)
    requires
        0 <= k <= ls.len(),
        events_of_lines(ls.take(k)) is None,
    ensures
        events_of_lines(ls) is None,
    decreases ls.len(),
{
    if k < ls.len() {
        assert(ls.drop_last().take(k) =~= ls.take(k));
        lemma_events_prefix_none(ls.drop_last(), k);
    } else {
        assert(ls.take(k) =~= ls);
    }
}

/// Reads the record, one event per non-empty line.
pub fn parse_events(input: &str) -> (r: Option<Vec<Event>>)
    ensures
        match r {
            Some(v) => events_of(input@) == Some(v@),
            None => events_of(input@) is None,
        },
{
    let s = chars_of(input);
    let lines = split_chars(&s, '\n');
    let ghost ls = lines@.map_values(|l: Vec<char>| l@);
    let mut v: Vec<Event> = Vec::new();
    let mut i: usize = 0;
    while i < lines.len()
        invariant
            i <= lines.len(),
            ls == lines@.map_values(|l: Vec<char>| l@),
            ls == split(input@, '\n'),
            events_of_lines(ls.take(i as int)) == Some(v@),
        decreases lines.len() - i,
    {
        assert(ls.take(i + 1).drop_last() =~= ls.take(i as int));
        let line = &lines[i];
        assert(line@ == ls[i as int]);
        if line.len() > 0 {
            let (a, b) = trim_range(line, 0, line.len());
            assert(line@.subrange(0, line.len() as int) =~= line@);
            let t = copy_range(line, a, b);
            match parse_event(&t) {
                Some(e) => {
                    v.push(e);
                },
                None => {
                    proof {
                        lemma_events_prefix_none(ls, i + 1);
                    }
                    return None;
                },
            }
        }
        i = i + 1;
    }
    assert(ls.take(lines.len() as int) =~= ls);
    Some(v)
}

fn stamp_no_later(a: Stamp, b: Stamp) -> (r: bool)
    ensures
        r == no_later(a, b),
{
    a.year < b.year || (a.year == b.year && (a.month < b.month || (a.month == b.month && (a.day
        < b.day || (a.day == b.day && (a.hour < b.hour || (a.hour == b.hour && a.minute
        <= b.minute)))))))
}

fn event_stamp(e: &Event) -> (r: Stamp)
    ensures
        r == stamp_of(*e),
{
    match e {
        Event::Begin(_, t) => *t,
        Event::Sleep(t) => *t,
        Event::Wake(t) => *t,
    }
}

proof fn lemma_insert_event_at(es: Seq<Event>, e: Event, i: int)
    requires
        0 <= i <= es.len(),
        forall|k: int| i <= k < es.len() ==> !no_later(stamp_of(#[trigger] es[k]), stamp_of(e)),
        i == 0 || no_later(stamp_of(es[i - 1]), stamp_of(e)),
    ensures
        insert_event(es, e) == es.insert(i, e),
    decreases es.len() - i,
{
    if es.len() == 0 {
        assert(es.insert(i, e) =~= seq![e]);
    } else if i == es.len() {
        assert(es.insert(i, e) =~= es.push(e));
    } else {
        lemma_insert_event_at(es.drop_last(), e, i);
        assert(es.drop_last().insert(i, e).push(es.last()) =~= es.insert(i, e));
    }
}

/// The events in time order.
fn sort_by_time(es: &Vec<Event>) -> (r: Vec<Event>)
    ensures
        r@ == sort_events(es@),
{
    let mut r: Vec<Event> = Vec::new();
    let mut n: usize = 0;
    while n < es.len()
        invariant
            n <= es.len(),
            r@ == sort_events(es@.take(n as int)),
        decreases es.len() - n,
    {
        let e = es[n];
        let te = event_stamp(&e);
        let mut i = r.len();
        while i > 0 && !stamp_no_later(event_stamp(&r[i - 1]), te)
            invariant
                i <= r.len(),
                te == stamp_of(e),
                forall|k: int| i <= k < r.len() ==> !no_later(stamp_of(#[trigger] r@[k]), stamp_of(e)),
            decreases i,
        {
            i = i - 1;
        }
        proof {
            lemma_insert_event_at(r@, e, i as int);
            assert(es@.take(n + 1).drop_last() =~= es@.take(n as int));
        }
        r.insert(i, e);
        n = n + 1;
    }
    assert(es@.take(es.len() as int) =~= es@);
    r
}

pub open spec fn table_view(t: Seq<(u64, Vec<i128>)>) -> Seq<(u64, Seq<int>)> {
    t.map_values(|x: (u64, Vec<i128>)| (x.0, x.1@.map_values(|v: i128| v as int)))
}

/// Whether every row has 60 minutes, each count within `n` of 0.
pub open spec fn table_ok(t: Seq<(u64, Seq<int>)>, n: int) -> bool {
    forall|i: int|
        0 <= i < t.len() ==> (#[trigger] t[i]).1.len() == 60 && forall|k: int|
            0 <= k < 60 ==> -n <= #[trigger] t[i].1[k] <= n
}

fn find_guard(table: &Vec<(u64, Vec<i128>)>, id: u64) -> (r: i128)
    ensures
        r == find(table_view(table@), id),
{
    let ghost tv = table_view(table@);
    let mut i: usize = 0;
    while i < table.len()
        invariant
            i <= table.len(),
            tv == table_view(table@),
            find(tv.take(i as int), id) == -1,
        decreases table.len() - i,
    {
        assert(tv.take(i + 1).drop_last() =~= tv.take(i as int));
        if table[i].0 == id {
            proof {
                lemma_find_prefix(tv, i + 1, id);
            }
            return i as i128;
        }
        i = i + 1;
    }
    assert(tv.take(table.len() as int) =~= tv);
    -1
}

proof fn lemma_find_prefix(t: Seq<(u64, Seq<int>)>, k: int, id: u64)
    requires
        0 <= k <= t.len(),
        find(t.take(k), id) >= 0,
    ensures
        find(t, id) == find(t.take(k), id),
    decreases t.len(),
{
    if k < t.len() {
        assert(t.drop_last().take(k) =~= t.take(k));
        lemma_find_prefix(t.drop_last(), k, id);
    } else {
        assert(t.take(k) =~= t);
    }
}

proof fn lemma_find_range(t: Seq<(u64, Seq<int>)>, id: u64)
    ensures
        -1 <= find(t, id) < t.len(),
        find(t, id) >= 0 ==> t[find(t, id)].0 == id,
    decreases t.len(),
{
    if t.len() > 0 {
        lemma_find_range(t.drop_last(), id);
    }
}

/// The sleep table after the events, and the guard on duty.
fn sleep_table(es: &Vec<Event>) -> (r: (Vec<(u64, Vec<i128>)>, u64))
    ensures
        (table_view(r.0@), r.1) == records(es@),
        table_ok(table_view(r.0@), es.len() as int),
{
    let mut table: Vec<(u64, Vec<i128>)> = Vec::new();
    let mut cur: u64 = 0;
    let mut n: usize = 0;
    assert(table_view(table@) =~= Seq::<(u64, Seq<int>)>::empty());
    while n < es.len()
        invariant
            n <= es.len(),
            (table_view(table@), cur) == records(es@.take(n as int)),
            table_ok(table_view(table@), n as int),
        decreases es.len() - n,
    {
        let ghost tv = table_view(table@);
        assert(es@.take(n + 1).drop_last() =~= es@.take(n as int));
        assert(es@.take(n + 1).last() == es@[n as int]);
        proof {
            lemma_find_range(tv, cur);
        }
        let e = es[n];
        match e {
            Event::Begin(id, _) => {
                proof {
                    lemma_find_range(tv, id);
                }
                if find_guard(&table, id) < 0 {
                    let mut row: Vec<i128> = Vec::new();
                    let mut k: usize = 0;
                    while k < 60
                        invariant
                            k <= 60,
                            row@.len() == k,
                            forall|j: int| 0 <= j < k ==> row@[j] == 0,
                        decreases 60 - k,
                    {
                        row.push(0);
                        k = k + 1;
                    }
                    let ghost rv = row@.map_values(|v: i128| v as int);
                    assert(rv =~= Seq::new(60, |j: int| 0int));
                    table.push((id, row));
                    assert(table_view(table@) =~= tv.push((id, rv)));
                }
                cur = id;
            },
            Event::Sleep(t) | Event::Wake(t) => {
                let d: i128 = match e {
                    Event::Sleep(_) => 1,
                    _ => -1,
                };
                let i = find_guard(&table, cur);
                if i >= 0 {
                    assert(tv.len() == table.len());
                    assert(i < table.len());
                    let iu = i as usize;
                    assert(iu as int == i);
                    let mut row = table[iu].1.clone();
                    let ghost old_row = tv[iu as int].1;
                    assert(row@.map_values(|v: i128| v as int) == old_row);
                    assert(old_row.len() == 60);
                    let mut k: usize = 0;
                    while k < 60
                        invariant
                            k <= 60,
                            row@.len() == 60,
                            old_row.len() == 60,
                            n < es.len(),
                            d == 1 || d == -1,
                            forall|j: int| 0 <= j < 60 ==> -(n as int) <= #[trigger] old_row[j] <= n,
                            forall|j: int|
                                0 <= j < 60 ==> #[trigger] row@[j] as int == if j < k && j >= t.minute {
                                    old_row[j] + d
                                } else {
                                    old_row[j]
                                },
                        decreases 60 - k,
                    {
                        if k as u64 >= t.minute {
                            row.set(k, row[k] + d);
                        }
                        k = k + 1;
                    }
                    let ghost rv = row@.map_values(|v: i128| v as int);
                    assert(rv =~= add_from(old_row, t.minute as int, d as int));
                    table.set(iu, (cur, row));
                    assert(table_view(table@) =~= tv.update(iu as int, (cur, rv)));
                }
                proof {
                    let j = find(tv, cur);
                    assert(i == j);
                    if j >= 0 {
                        assert(record(tv, cur, e).0 == tv.update(j, (cur, add_from(tv[j].1, t.minute as int, d as int))));
                    } else {
                        assert(record(tv, cur, e).0 == tv);
                    }
                }
                assert((table_view(table@), cur) == record(tv, cur, e));
            },
        }
        assert(records(es@.take(n + 1)) == record(records(es@.take(n as int)).0, records(es@.take(n as int)).1, e));
        assert((table_view(table@), cur) == record(tv, records(es@.take(n as int)).1, e));
        n = n + 1;
        proof {
            let tv2 = table_view(table@);
            assert forall|i: int| 0 <= i < tv2.len() implies (#[trigger] tv2[i]).1.len() == 60 && forall|k: int|
                0 <= k < 60 ==> -(n as int) <= #[trigger] tv2[i].1[k] <= n by {
                if i < tv.len() {
                    assert(tv[i].1.len() == 60);
                }
            }
        }
    }
    assert(es@.take(es.len() as int) =~= es@);
    (table, cur)
}

fn total_of(row: &Vec<i128>, n: Ghost<int>) -> (r: i128)
    requires
        row@.len() == 60,
        0 <= n@ <= usize::MAX,
        forall|k: int| 0 <= k < 60 ==> -n@ <= #[trigger] row@[k] <= n@,
    ensures
        r == row_total(row@.map_values(|v: i128| v as int)),
{
    let ghost rv = row@.map_values(|v: i128| v as int);
    let mut acc: i128 = 0;
    let mut k: usize = 0;
    while k < 60
        invariant
            k <= 60,
            row@.len() == 60,
            0 <= n@ <= usize::MAX,
            forall|j: int| 0 <= j < 60 ==> -n@ <= #[trigger] row@[j] <= n@,
            rv == row@.map_values(|v: i128| v as int),
            acc == row_total(rv.take(k as int)),
            -(k as int) * 0x1_0000_0000_0000_0000 <= acc <= (k as int) * 0x1_0000_0000_0000_0000,
        decreases 60 - k,
    {
        assert(rv.take(k + 1).drop_last() =~= rv.take(k as int));
        acc = acc + row[k];
        k = k + 1;
    }
    assert(rv.take(60) =~= rv);
    acc
}

fn sleepiest_of(row: &Vec<i128>) -> (r: usize)
    requires
        row@.len() == 60,
    ensures
        r == sleepiest(row@.map_values(|v: i128| v as int)),
        r < 60,
{
    let ghost rv = row@.map_values(|v: i128| v as int);
    let mut m: usize = 0;
    let mut k: usize = 1;
    assert(sleepiest(rv.take(1)) == 0);
    while k < 60
        invariant
            1 <= k <= 60,
            row@.len() == 60,
            rv == row@.map_values(|v: i128| v as int),
            m < k,
            m == sleepiest(rv.take(k as int)),
        decreases 60 - k,
    {
        assert(rv.take(k + 1).drop_last() =~= rv.take(k as int));
        assert(rv.take(k + 1)[m as int] == rv[m as int]);
        if row[k] >= row[m] {
            m = k;
        }
        k = k + 1;
    }
    assert(rv.take(60) =~= rv);
    m
}

/// The id of the guard who sleeps the most, times the minute that guard is
/// most often asleep.
pub fn slacker_id_min(input: &str) -> (r: u64)
    requires
        events_of(input@) is Some,
        slacker_spec(events_of(input@)->0) <= u64::MAX,
    ensures
        r == slacker_spec(events_of(input@)->0),
{
    let es = match parse_events(input) {
        Some(v) => v,
        None => {
            return 0;
        },
    };
    let sorted = sort_by_time(&es);
    let (table, _) = sleep_table(&sorted);
    let ghost tv = table_view(table@);
    let ghost n = sorted.len() as int;
    let mut max_sleep: i128 = 0;
    let mut slacker: u64 = 0;
    let mut minute: usize = 0;
    let mut i: usize = 0;
    while i < table.len()
        invariant
            i <= table.len(),
            tv == table_view(table@),
            n == sorted.len(),
            table_ok(tv, n),
            (max_sleep as int, slacker, minute as int) == choose_guard(tv.take(i as int)),
            minute < 60,
        decreases table.len() - i,
    {
        assert(tv.take(i + 1).drop_last() =~= tv.take(i as int));
        let row = &table[i].1;
        assert(tv[i as int].1 == row@.map_values(|v: i128| v as int));
        assert(tv[i as int].1.len() == 60);
        assert forall|k: int| 0 <= k < 60 implies -n <= #[trigger] row@[k] <= n by {
            assert(tv[i as int].1[k] == row@[k] as int);
        }
        let total = total_of(row, Ghost(n));
        if max_sleep < total {
            max_sleep = total;
            slacker = table[i].0;
            minute = sleepiest_of(row);
        }
        i = i + 1;
    }
    assert(tv.take(table.len() as int) =~= tv);
    (minute as u128 * slacker as u128) as u64
}

} // verus!
