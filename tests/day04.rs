use aoc18::day04::{parse_event, parse_events, slacker_id_min, Event, Stamp};

fn chars(s: &str) -> Vec<char> {
    s.chars().collect()
}

fn stamp(year: u64, month: u64, day: u64, hour: u64, minute: u64) -> Stamp {
    Stamp { year, month, day, hour, minute }
}

#[test]
fn slacker_id_min_example() {
    assert_eq!(
        240,
        slacker_id_min(
            "[1518-11-01 00:00] Guard #10 begins shift
[1518-11-01 00:05] falls asleep
[1518-11-01 00:25] wakes up
[1518-11-01 00:30] falls asleep
[1518-11-01 00:55] wakes up
[1518-11-01 23:58] Guard #99 begins shift
[1518-11-02 00:40] falls asleep
[1518-11-02 00:50] wakes up
[1518-11-03 00:05] Guard #10 begins shift
[1518-11-03 00:24] falls asleep
[1518-11-03 00:29] wakes up
[1518-11-04 00:02] Guard #99 begins shift
[1518-11-04 00:36] falls asleep
[1518-11-04 00:46] wakes up
[1518-11-05 00:03] Guard #99 begins shift
[1518-11-05 00:45] falls asleep
[1518-11-05 00:55] wakes up"
        )
    );
}

#[test]
fn slacker_id_min_unsorted() {
    let input = "[1518-11-01 00:25] wakes up
[1518-11-01 00:05] falls asleep
[1518-11-01 00:00] Guard #7 begins shift";
    assert_eq!(7 * 24, slacker_id_min(input));
    assert_eq!(0, slacker_id_min(""));
}

#[test]
fn parse_begin() {
    let b = parse_event(&chars("[1518-11-01 23:58] Guard #99 begins shift"));
    assert_eq!(Some(Event::Begin(99, stamp(1518, 11, 1, 23, 58))), b);
}

#[test]
fn parse_sleep() {
    let b = parse_event(&chars("[1518-10-17 00:51] falls asleep"));
    assert_eq!(Some(Event::Sleep(stamp(1518, 10, 17, 0, 51))), b);
}

#[test]
fn parse_wake() {
    let b = parse_event(&chars("[1518-11-18 00:41] wakes up"));
    assert_eq!(Some(Event::Wake(stamp(1518, 11, 18, 0, 41))), b);
}

#[test]
fn parse_time() {
    match parse_event(&chars("[1518-10-31 00:58] falls asleep")) {
        Some(Event::Sleep(t)) => assert_eq!(stamp(1518, 10, 31, 0, 58), t),
        _ => panic!("error while parsing"),
    }
}

#[test]
fn parse_entry() {
    assert_eq!(
        Some(Event::Begin(99, stamp(1518, 11, 1, 23, 58))),
        parse_event(&chars("[1518-11-01 23:58] Guard #99 begins shift"))
    );
    assert_eq!(
        Some(Event::Sleep(stamp(1518, 10, 17, 0, 51))),
        parse_event(&chars("[1518-10-17 00:51] falls asleep"))
    );
    assert_eq!(
        Some(Event::Wake(stamp(1518, 11, 18, 0, 41))),
        parse_event(&chars("[1518-11-18 00:41] wakes up"))
    );
}

#[test]
fn parse_event_rejects_other_shapes() {
    assert_eq!(None, parse_event(&chars("[1518-11-18 00:41] wakes")));
    assert_eq!(None, parse_event(&chars("[1518-1-18 00:41] wakes up")));
    assert_eq!(3, parse_events("[1518-11-18 00:41] wakes up\n\n[1518-11-18 00:40] falls asleep\n[1518-11-18 00:00] Guard #1 begins shift\n").unwrap().len());
}
