//! When cached data may be reused, and when scheduled messages go out.

use vstd::prelude::*;
use crate::time::{DateTime, TimeOfDay, Weekday, MAX_DAY, weekday_of, weekday_index_of_day};

pub mod time_format;

verus! {

/// Whether data fetched earlier may be reused instead of asking the server.
#[derive(Clone, Copy, Debug, PartialEq, Eq, Structural)]
pub enum RefetchPolicy {
    /// Always ask the server.
    ForceRefetch,
    /// Never ask the server when something is cached.
    NoRefetch,
    /// Ask the server when the cached data is older than this many seconds.
    RefetchAfter(i64),
}

/// How often a scheduled message goes out.
#[derive(Clone, Copy, Debug, PartialEq, Eq, Structural)]
pub enum Frequency {
    Daily,
    Weekly,
}

/// A scheduled message: when it last went out, when it goes out next, how
/// often, at what time of day, and on which weekday when weekly.
#[derive(Clone, Copy, Debug, PartialEq, Eq, Structural)]
pub struct ScheduleEntry {
    pub last: DateTime,
    pub next: DateTime,
    pub frequency: Frequency,
    pub send_time: TimeOfDay,
    pub day: Option<Weekday>,
}

/// The place where the schedules are stored.
pub struct SendTimeStore;

/// Days from `now` until the next `target` weekday at `send_time`: 0 when it
/// is today and the time has not come yet, 7 when it is today and it has.
pub open spec fn days_ahead(target: Weekday, now: DateTime, send_time: TimeOfDay) -> int {
    let d = (target.spec_days_from_monday() + 7 - weekday_index_of_day(now.date as int)) % 7;
    if d == 0 && !now.time.spec_before(send_time) {
        7
    } else {
        d
    }
}

/// The date of the next sending: daily, the day after the last sending when
/// that was today and today otherwise; weekly, the next target weekday (today
/// when no weekday is set).
pub open spec fn next_send_date(e: ScheduleEntry, now: DateTime) -> int {
    match e.frequency {
        Frequency::Daily => if e.last.date == now.date {
            e.last.date + 1
        } else {
            now.date as int
        },
        Frequency::Weekly => match e.day {
            Some(target) => now.date + days_ahead(target, now, e.send_time),
            None => now.date as int,
        },
    }
}

/// The next sending date is within the calendar.
pub open spec fn next_defined(e: ScheduleEntry, now: DateTime) -> bool {
    now.wf() && next_send_date(e, now) <= MAX_DAY
}

/// The entry with its next sending computed from `now`.
pub open spec fn with_next(e: ScheduleEntry, now: DateTime) -> ScheduleEntry {
    ScheduleEntry {
        next: DateTime { date: next_send_date(e, now) as i32, time: e.send_time },
        ..e
    }
}

/// What checking the schedule at `now` does: when last and next coincide it
/// only schedules the next sending; when `now` is past the next sending, that
/// sending becomes the last one and the next is scheduled.
pub open spec fn go_time_outcome(e: ScheduleEntry, now: DateTime) -> (ScheduleEntry, bool) {
    if e.last == e.next {
        (with_next(e, now), false)
    } else if e.next.spec_before(now) {
        (with_next(ScheduleEntry { last: e.next, ..e }, now), true)
    } else {
        (e, false)
    }
}

/// Checking the schedule at `now` stays within the calendar.
pub open spec fn go_time_defined(e: ScheduleEntry, now: DateTime) -> bool {
    now.wf() && if e.last == e.next {
        next_defined(e, now)
    } else if e.next.spec_before(now) {
        next_defined(ScheduleEntry { last: e.next, ..e }, now)
    } else {
        true
    }
}

impl ScheduleEntry {
    /// Schedules the next sending as seen at `now`.
    pub fn set_next(&mut self, now: DateTime)
        requires
            next_defined(*old(self), now),
        ensures
            *final(self) == with_next(*old(self), now),
    {
        match self.frequency {
            Frequency::Daily => {
                let base_date = if self.last.date == now.date {
                    self.last.date + 1
                } else {
                    now.date
                };
                self.next = DateTime { date: base_date, time: self.send_time };
            },
            Frequency::Weekly => {
                match self.day {
                    Some(target_weekday) => {
                        let current_weekday = weekday_of(now.date);
                        let mut days_ahead: u32 = (target_weekday.days_from_monday() + 7
                            - current_weekday.days_from_monday()) % 7;
                        if days_ahead == 0 && !now.time.before(&self.send_time) {
                            days_ahead = 7;
                        }
                        let next_date = now.date + days_ahead as i32;
                        self.next = DateTime { date: next_date, time: self.send_time };
                    },
                    None => {
                        self.next = DateTime { date: now.date, time: self.send_time };
                    },
                }
            },
        }
    }

    /// Whether the next sending seen at `now` stays within the calendar.
    pub fn next_is_defined(&self, now: &DateTime) -> (b: bool)
        requires
            now.wf(),
        ensures
            b == next_defined(*self, *now),
    {
        match self.frequency {
            Frequency::Daily => self.last.date != now.date || self.last.date < MAX_DAY,
            Frequency::Weekly => match self.day {
                Some(_) => now.date <= MAX_DAY - 7 || {
                    let current_weekday = weekday_of(now.date);
                    let target = self.day.unwrap();
                    let mut days_ahead: u32 = (target.days_from_monday() + 7
                        - current_weekday.days_from_monday()) % 7;
                    if days_ahead == 0 && !now.time.before(&self.send_time) {
                        days_ahead = 7;
                    }
                    now.date as i64 + days_ahead as i64 <= MAX_DAY as i64
                },
                None => true,
            },
        }
    }

    /// Whether the message is due at `now`; updates the last and next
    /// sendings as `go_time_outcome` says.
    pub fn is_go_time(&mut self, now: DateTime) -> (due: bool)
        requires
            go_time_defined(*old(self), now),
        ensures
            (*final(self), due) == go_time_outcome(*old(self), now),
    {
        if self.last == self.next {
            self.set_next(now);
            return false;
        }
        if self.next.before(&now) {
            self.last = self.next;
            self.set_next(now);
            return true;
        }
        false
    }

    /// Whether checking the schedule at `now` stays within the calendar.
    pub fn go_time_is_defined(&self, now: &DateTime) -> (b: bool)
        requires
            now.wf(),
        ensures
            b == go_time_defined(*self, *now),
    {
        if self.last == self.next {
            self.next_is_defined(now)
        } else if self.next.before(now) {
            let advanced = ScheduleEntry { last: self.next, ..*self };
            advanced.next_is_defined(now)
        } else {
            true
        }
    }
}

/// A weekly sending is scheduled after `now`, at most a week ahead, on its
/// weekday: when today is that weekday and the time has passed, a week ahead.
pub proof fn law_weekly_next_is_upcoming(e: ScheduleEntry, now: DateTime, target: Weekday)
    requires
        e.frequency == Frequency::Weekly,
        e.day == Some(target),
        e.send_time.wf(),
        next_defined(e, now),
    ensures
        now.spec_before(with_next(e, now).next),
        with_next(e, now).next.date <= now.date + 7,
        weekday_index_of_day(with_next(e, now).next.date as int) == target.spec_days_from_monday(),
{
    let t = target.spec_days_from_monday();
    let w = weekday_index_of_day(now.date as int);
    let d = days_ahead(target, now, e.send_time);
    let next_date = now.date + d;
    assert(0 <= w < 7);
    assert(0 <= t < 7);
    assert((now.date - 1) == 7 * ((now.date - 1) / 7) + w);
    let q = (now.date - 1) / 7;
    let r = (t + 7 - w) % 7;
    assert(t + 7 - w == 7 * ((t + 7 - w) / 7) + r);
    let q2 = (t + 7 - w) / 7;
    let m = if d == 7 {
        q + 2 - q2
    } else {
        q + 1 - q2
    };
    if d == 7 {
        assert(r == 0);
        assert(q2 == 1);
    }
    assert(next_date - 1 == 7 * m + t);
    assert((next_date - 1) % 7 == t) by {
        vstd::arithmetic::div_mod::lemma_mod_multiples_vanish(m, t, 7);
        vstd::arithmetic::div_mod::lemma_small_mod(t as nat, 7);
    }
}

/// A sending reported as due at `now` is not reported again at `now`: the
/// next sending is then scheduled later. This holds for weekly sendings on a
/// set weekday and for daily sendings due on the day of `now`; a daily sending
/// missed on an earlier day is caught up today, and may then fall due again.
pub proof fn law_sending_not_repeated(e: ScheduleEntry, now: DateTime)
    requires
        e.send_time.wf(),
        go_time_defined(e, now),
        go_time_outcome(e, now).1,
        go_time_defined(go_time_outcome(e, now).0, now),
        (e.frequency == Frequency::Weekly && e.day is Some) || (e.frequency == Frequency::Daily
            && e.next.date == now.date),
    ensures
        !go_time_outcome(go_time_outcome(e, now).0, now).1,
{
    let e1 = ScheduleEntry { last: e.next, ..e };
    let e2 = with_next(e1, now);
    assert(go_time_outcome(e, now).0 == e2);
    assert(now.spec_before(e2.next)) by {
        match e.frequency {
            Frequency::Daily => {},
            Frequency::Weekly => {
                if let Some(target) = e.day {
                    let r = (target.spec_days_from_monday() + 7 - weekday_index_of_day(now.date as int)) % 7;
                    assert(0 <= r);
                    assert(e2.next.date == now.date + days_ahead(target, now, e.send_time));
                    assert(e2.next.time == e.send_time);
                }
            },
        }
    }
    assert(e2.last != e2.next);
}

} // verus!
