use chrono::Datelike;
use referral_list::scheduled_times::time_format::{deserialize, serialize};
use referral_list::scheduled_times::{Frequency, ScheduleEntry};
use referral_list::time::{weekday_of, DateTime, TimeOfDay, Weekday, MAX_DAY};

fn hm(h: u32, m: u32) -> TimeOfDay {
    TimeOfDay::from_hm(h, m)
}

fn at(date: i32, h: u32, m: u32) -> DateTime {
    DateTime { date, time: hm(h, m) }
}

// Day 1 (1 January of year 1) was a Monday, so day 7 * k + 1 is a Monday.
const MONDAY: i32 = 7 * 105_555 + 1;

fn entry(frequency: Frequency, day: Option<Weekday>, last: DateTime, next: DateTime) -> ScheduleEntry {
    ScheduleEntry { last, next, frequency, send_time: hm(9, 30), day }
}

fn chrono_weekday(date: i32) -> Weekday {
    match chrono::NaiveDate::from_num_days_from_ce_opt(date).unwrap().weekday() {
        chrono::Weekday::Mon => Weekday::Mon,
        chrono::Weekday::Tue => Weekday::Tue,
        chrono::Weekday::Wed => Weekday::Wed,
        chrono::Weekday::Thu => Weekday::Thu,
        chrono::Weekday::Fri => Weekday::Fri,
        chrono::Weekday::Sat => Weekday::Sat,
        chrono::Weekday::Sun => Weekday::Sun,
    }
}

#[test]
fn day_numbers_used_here_are_mondays() {
    assert_eq!(weekday_of(1), Weekday::Mon);
    assert_eq!(weekday_of(MONDAY), Weekday::Mon);
}

#[test]
fn weekly_next_for_every_weekday() {
    for (target, offset) in [(Weekday::Tue, 1), (Weekday::Thu, 3), (Weekday::Sat, 5), (Weekday::Sun, 6)] {
        let mut e = entry(Frequency::Weekly, Some(target), at(MONDAY - 7, 9, 30), at(MONDAY - 7, 9, 30));
        e.set_next(at(MONDAY, 12, 0));
        assert_eq!(e.next, at(MONDAY + offset, 9, 30));
    }
    let mut e = entry(Frequency::Weekly, Some(Weekday::Mon), at(MONDAY - 7, 9, 30), at(MONDAY - 7, 9, 30));
    e.set_next(at(MONDAY + 3, 12, 0));
    assert_eq!(e.next, at(MONDAY + 7, 9, 30));
}

#[test]
fn daily_next_is_tomorrow_after_sending_today() {
    let mut e = entry(Frequency::Daily, None, at(MONDAY, 9, 30), at(MONDAY, 9, 30));
    e.set_next(at(MONDAY, 12, 0));
    assert_eq!(e.next, at(MONDAY + 1, 9, 30));
}

#[test]
fn daily_next_is_today_otherwise() {
    let mut e = entry(Frequency::Daily, None, at(MONDAY - 3, 9, 30), at(MONDAY - 3, 9, 30));
    e.set_next(at(MONDAY, 8, 0));
    assert_eq!(e.next, at(MONDAY, 9, 30));
}

#[test]
fn weekly_next_is_the_target_weekday() {
    let mut e = entry(Frequency::Weekly, Some(Weekday::Wed), at(MONDAY - 5, 9, 30), at(MONDAY - 5, 9, 30));
    e.set_next(at(MONDAY, 12, 0));
    assert_eq!(e.next, at(MONDAY + 2, 9, 30));
}

#[test]
fn weekly_same_day_before_time_is_today() {
    let mut e = entry(Frequency::Weekly, Some(Weekday::Mon), at(MONDAY - 7, 9, 30), at(MONDAY - 7, 9, 30));
    e.set_next(at(MONDAY, 8, 0));
    assert_eq!(e.next, at(MONDAY, 9, 30));
}

#[test]
fn weekly_same_day_after_time_is_next_week() {
    let mut e = entry(Frequency::Weekly, Some(Weekday::Mon), at(MONDAY - 7, 9, 30), at(MONDAY - 7, 9, 30));
    e.set_next(at(MONDAY, 9, 30));
    assert_eq!(e.next, at(MONDAY + 7, 9, 30));
}

#[test]
fn weekly_without_day_is_today() {
    let mut e = entry(Frequency::Weekly, None, at(MONDAY - 7, 9, 30), at(MONDAY - 7, 9, 30));
    e.set_next(at(MONDAY, 11, 0));
    assert_eq!(e.next, at(MONDAY, 9, 30));
}

#[test]
fn go_time_first_check_only_schedules() {
    let mut e = entry(Frequency::Daily, None, at(MONDAY - 1, 9, 30), at(MONDAY - 1, 9, 30));
    assert!(!e.is_go_time(at(MONDAY, 12, 0)));
    assert_eq!(e.next, at(MONDAY, 9, 30));
    assert_eq!(e.last, at(MONDAY - 1, 9, 30));
}

#[test]
fn go_time_when_next_has_passed() {
    let mut e = entry(Frequency::Daily, None, at(MONDAY - 1, 9, 30), at(MONDAY, 9, 30));
    assert!(e.is_go_time(at(MONDAY, 12, 0)));
    assert_eq!(e.last, at(MONDAY, 9, 30));
    assert_eq!(e.next, at(MONDAY + 1, 9, 30));
    assert!(!e.is_go_time(at(MONDAY, 12, 0)));
}

#[test]
fn not_go_time_before_next() {
    let mut e = entry(Frequency::Daily, None, at(MONDAY - 1, 9, 30), at(MONDAY, 9, 30));
    assert!(!e.is_go_time(at(MONDAY, 9, 0)));
    assert_eq!(e.next, at(MONDAY, 9, 30));
}

#[test]
fn weekday_of_agrees_with_the_calendar() {
    for d in [1, 2, 6, 7, 8, 0, -1, -6, -7, 738_886, 738_890, MONDAY + 4] {
        assert_eq!(weekday_of(d), chrono_weekday(d), "day {}", d);
    }
    assert_eq!(weekday_of(0), Weekday::Sun);
    assert_eq!(weekday_of(738_890), Weekday::Fri);
    assert_eq!(weekday_of(i32::MIN), Weekday::Fri);
    assert_eq!(weekday_of(i32::MAX), Weekday::Mon);
}

#[test]
fn go_time_is_defined_on_ordinary_entries() {
    let now = at(MONDAY, 12, 0);
    let e = entry(Frequency::Daily, None, at(MONDAY, 9, 30), at(MONDAY, 9, 30));
    assert!(e.go_time_is_defined(&now));
    let due = entry(Frequency::Daily, None, at(MONDAY - 1, 9, 30), at(MONDAY, 9, 30));
    assert!(due.go_time_is_defined(&now));
    let weekly = entry(Frequency::Weekly, Some(Weekday::Fri), at(1, 0, 0), at(1, 0, 0));
    assert!(weekly.go_time_is_defined(&now));
    let last_day = at(MAX_DAY, 12, 0);
    let stuck = entry(Frequency::Daily, None, last_day, last_day);
    assert!(!stuck.go_time_is_defined(&last_day));
}

#[test]
fn weekly_entry_waits_for_its_day() {
    let mut e = entry(Frequency::Weekly, Some(Weekday::Fri), at(1, 0, 0), at(1, 0, 0));
    e.set_next(at(MONDAY, 12, 0));
    assert_eq!(weekday_of(e.next.date), Weekday::Fri);
    assert_eq!(e.next, at(MONDAY + 4, 9, 30));
}

#[test]
fn send_times_are_written_as_hh_mm() {
    assert_eq!(serialize(&hm(9, 5)), "09:05");
    assert_eq!(serialize(&hm(23, 59)), "23:59");
    assert_eq!(serialize(&TimeOfDay { secs: 45, nanos: 7 }), "00:00");
}

#[test]
fn send_times_are_read_from_hh_mm() {
    assert_eq!(deserialize("09:05"), Some(hm(9, 5)));
    assert_eq!(deserialize("23:59"), Some(hm(23, 59)));
    assert_eq!(deserialize("24:00"), None);
    assert_eq!(deserialize("noon"), None);
    assert_eq!(deserialize(&serialize(&hm(7, 45))), Some(hm(7, 45)));
}
