use chrono::Datelike;
use kyuko_bot::dates::{Date, DateTime};

#[test]
fn weekday_numbering() {
    // 2017-02-13 was a Monday; weekdays are numbered from Sunday = 0
    assert_eq!(Date::from_ymd(2017, 2, 13).weekday(), 1);
    assert_eq!(Date::from_ymd(2017, 2, 19).weekday(), 0);
    assert_eq!(Date::from_ymd(2016, 12, 19).weekday(), 1);
}

#[test]
fn day_numbers_match_chrono() {
    // the day number is days since 0001-01-01, which chrono counts from 1
    let samples = [(2016u32, 2u32, 29u32), (2017, 2, 13), (2000, 1, 1), (1999, 12, 31)];
    for &(y, m, d) in samples.iter() {
        let ours = Date::from_ymd(y, m, d);
        let theirs = chrono::NaiveDate::from_ymd_opt(y as i32, m, d).unwrap();
        assert_eq!(ours.day + 1, theirs.num_days_from_ce() as u64);
        assert_eq!(
            ours.weekday(),
            theirs.weekday().num_days_from_sunday()
        );
    }
}

#[test]
fn successor_day() {
    let d = Date::from_ymd(2016, 12, 31);
    assert_eq!(d.succ(), Date::from_ymd(2017, 1, 1));
}

#[test]
fn datetime_order() {
    let a = DateTime::new(Date::from_ymd(2017, 2, 13), 8, 20);
    let b = DateTime::new(Date::from_ymd(2017, 2, 13), 8, 40);
    let c = DateTime::new(Date::from_ymd(2017, 2, 14), 0, 0);
    assert!(a.lt(&b));
    assert!(b.lt(&c));
    assert!(a.le(&a));
    assert!(!b.lt(&a));
}
