use kyuko_bot::dates::{Date, DateTime};
use kyuko_bot::schedule::{Poll, Schedule, UnitSchedule};

fn ymdhm(y: u32, mon: u32, d: u32, h: u32, min: u32) -> DateTime {
    DateTime::new(Date::from_ymd(y, mon, d), h, min)
}

#[test]
fn iter() {
    let us = UnitSchedule::new(vec![1, 0], vec![8, 12], vec![20, 40]).unwrap();

    let mut iter = us.iter_since(ymdhm(2017, 2, 13, 8, 20)); // wday == 1
    assert_eq!(ymdhm(2017, 2, 13, 8, 40), iter.next());
    assert_eq!(ymdhm(2017, 2, 13, 12, 20), iter.next());
    assert_eq!(ymdhm(2017, 2, 13, 12, 40), iter.next());
    assert_eq!(ymdhm(2017, 2, 19, 8, 20), iter.next());
    assert_eq!(ymdhm(2017, 2, 19, 8, 40), iter.next());
    assert_eq!(ymdhm(2017, 2, 19, 12, 20), iter.next());
    assert_eq!(ymdhm(2017, 2, 19, 12, 40), iter.next());
    assert_eq!(ymdhm(2017, 2, 20, 8, 20), iter.next());

    let mut iter = us.iter_since(ymdhm(2017, 2, 16, 13, 50)); // wday == 4
    assert_eq!(ymdhm(2017, 2, 19, 8, 20), iter.next());
    assert_eq!(ymdhm(2017, 2, 19, 8, 40), iter.next());

    let mut iter = us.iter_since(ymdhm(2017, 2, 28, 12, 0)); // wday == 2
    assert_eq!(ymdhm(2017, 3, 5, 8, 20), iter.next());
    assert_eq!(ymdhm(2017, 3, 5, 8, 40), iter.next());
}

#[test]
fn new() {
    assert_eq!(
        UnitSchedule::new(vec![1, 4, 0, 6], vec![8, 11, 23, 0], vec![0, 59]).unwrap(),
        UnitSchedule::new(vec![0, 1, 4, 6], vec![0, 8, 11, 23], vec![0, 59]).unwrap()
    );

    assert_eq!(
        UnitSchedule::new(vec![], vec![0], vec![0]).unwrap(),
        UnitSchedule::new(vec![0, 1, 2, 3, 4, 5, 6], vec![0], vec![0]).unwrap()
    );

    assert!(UnitSchedule::new(vec![7], vec![0], vec![0]).is_none());
    assert!(UnitSchedule::new(vec![0], vec![24], vec![0]).is_none());
    assert!(UnitSchedule::new(vec![0], vec![0], vec![60]).is_none());
}

#[test]
fn iter_strictly_increasing() {
    // many steps across week boundaries and wraparounds stay increasing
    let us = UnitSchedule::new(vec![2, 5], vec![9], vec![0, 30]).unwrap();
    let mut iter = us.iter_since(ymdhm(2017, 2, 13, 8, 20));
    let mut prev = iter.next();
    for _ in 0..1000 {
        let cur = iter.next();
        assert!(
            prev.date.day < cur.date.day
                || (prev.date.day == cur.date.day
                    && (prev.hour, prev.min) < (cur.hour, cur.min))
        );
        prev = cur;
    }
}

#[test]
fn single_combination_advances_a_week() {
    // one weekday, one hour, one minute: consecutive yields are a week apart
    let us = UnitSchedule::new(vec![1], vec![8], vec![20]).unwrap();
    let mut iter = us.iter_since(ymdhm(2017, 2, 13, 8, 20)); // Monday, exactly at the instant
    assert_eq!(ymdhm(2017, 2, 20, 8, 20), iter.next());
    assert_eq!(ymdhm(2017, 2, 27, 8, 20), iter.next());
    assert_eq!(ymdhm(2017, 3, 6, 8, 20), iter.next());
}

#[test]
fn poll_state_machine() {
    let us = UnitSchedule::new(vec![1], vec![8], vec![20, 40]).unwrap();
    let now = ymdhm(2017, 2, 13, 8, 20); // Monday 08:20
    let mut sched = Schedule::new(&vec![us], now);

    // idle poll: computes the next fire (08:40) and asks for a 20 minute timer
    match sched.poll(now, false) {
        Poll::NotReady { arm } => assert_eq!(Some(20), arm),
        Poll::Fire { .. } => panic!("fired early"),
    }
    // polling again with the timer outstanding arms nothing
    match sched.poll(now, true) {
        Poll::NotReady { arm } => assert_eq!(None, arm),
        Poll::Fire { .. } => panic!("fired early"),
    }
    // the instant has passed: exactly one fire, rearmed for next Monday 08:20
    let later = ymdhm(2017, 2, 13, 8, 41);
    match sched.poll(later, false) {
        Poll::Fire { rearm } => assert_eq!((7 * 24 * 60 - 21) as u64, rearm),
        Poll::NotReady { .. } => panic!("missed the due fire"),
    }
}
