//! Calendar values as plain integers: a date is its day number counted from
//! 1 January of year 1 (that day is 1), a time of day is seconds since midnight
//! plus nanoseconds.

use vstd::prelude::*;

verus! {

/// Nanoseconds in one second.
pub const NANOS_PER_SECOND: u64 = 1_000_000_000;

/// Seconds in one day.
pub const SECONDS_PER_DAY: u32 = 86_400;

/// Nanoseconds in one minute.
pub const NANOS_PER_MINUTE: u64 = 60_000_000_000;

/// The day number of the earliest date the calendar library represents.
pub const MIN_DAY: i32 = -95_746_129;

/// The day number of the latest date the calendar library represents.
pub const MAX_DAY: i32 = 95_745_399;

/// A time of day.
#[derive(Clone, Copy, Debug, PartialEq, Eq, Structural)]
pub struct TimeOfDay {
    pub secs: u32,
    pub nanos: u32,
}

/// A date and time of day, without a time zone.
#[derive(Clone, Copy, Debug, PartialEq, Eq, Structural)]
pub struct DateTime {
    pub date: i32,
    pub time: TimeOfDay,
}

/// A day of the week.
#[derive(Clone, Copy, Debug, PartialEq, Eq, Structural)]
pub enum Weekday {
    Mon,
    Tue,
    Wed,
    Thu,
    Fri,
    Sat,
    Sun,
}

impl TimeOfDay {
    /// Seconds below one day, nanoseconds below one second.
    pub open spec fn wf(self) -> bool {
        self.secs < 86_400 && self.nanos < 1_000_000_000
    }

    /// Nanoseconds since midnight.
    pub open spec fn total(self) -> int {
        self.secs * 1_000_000_000 + self.nanos
    }

    /// Strictly earlier in the day.
    pub open spec fn spec_before(self, other: TimeOfDay) -> bool {
        self.secs < other.secs || (self.secs == other.secs && self.nanos < other.nanos)
    }

    /// The time `hours:minutes:00`.
    pub fn from_hm(hours: u32, minutes: u32) -> (t: TimeOfDay)
        requires
            hours < 24,
            minutes < 60,
        ensures
            t.wf(),
            t.secs == hours * 3600 + minutes * 60,
            t.nanos == 0,
    {
        TimeOfDay { secs: hours * 3600 + minutes * 60, nanos: 0 }
    }

    /// Whether `self` comes strictly before `other`.
    pub fn before(&self, other: &TimeOfDay) -> (b: bool)
        ensures
            b == self.spec_before(*other),
    {
        self.secs < other.secs || (self.secs == other.secs && self.nanos < other.nanos)
    }
}

/// On well-formed times, the order of the fields is the order of the totals.
pub proof fn lemma_time_order(a: TimeOfDay, b: TimeOfDay)
    requires
        a.wf(),
        b.wf(),
    ensures
        a.spec_before(b) <==> a.total() < b.total(),
        a == b <==> a.total() == b.total(),
{
    if a.secs < b.secs {
        assert(a.secs * 1_000_000_000 + 1_000_000_000 <= b.secs * 1_000_000_000) by (nonlinear_arith)
            requires a.secs < b.secs;
    } else if a.secs > b.secs {
        assert(b.secs * 1_000_000_000 + 1_000_000_000 <= a.secs * 1_000_000_000) by (nonlinear_arith)
            requires a.secs > b.secs;
    }
}

impl DateTime {
    /// Within the calendar's range, with a well-formed time of day.
    pub open spec fn wf(self) -> bool {
        &&& self.time.wf()
        &&& MIN_DAY <= self.date <= MAX_DAY
    }

    /// Nanoseconds since midnight at the start of day 0.
    pub open spec fn total(self) -> int {
        self.date * 86_400_000_000_000 + self.time.total()
    }

    /// Strictly earlier, comparing the date first and then the time of day.
    pub open spec fn spec_before(self, other: DateTime) -> bool {
        self.date < other.date || (self.date == other.date && self.time.spec_before(other.time))
    }

    /// Earlier or equal.
    pub open spec fn spec_at_or_before(self, other: DateTime) -> bool {
        self.spec_before(other) || self == other
    }

    /// Whether the date and time lie within the calendar's range, with a
    /// well-formed time of day.
    pub fn is_valid(&self) -> (b: bool)
        ensures
            b == self.wf(),
    {
        self.time.secs < 86_400 && self.time.nanos < 1_000_000_000 && MIN_DAY <= self.date
            && self.date <= MAX_DAY
    }

    /// Whether `self` comes strictly before `other`.
    pub fn before(&self, other: &DateTime) -> (b: bool)
        ensures
            b == self.spec_before(*other),
    {
        self.date < other.date || (self.date == other.date && self.time.before(&other.time))
    }

    /// Whether `self` comes before `other` or equals it.
    pub fn at_or_before(&self, other: &DateTime) -> (b: bool)
        ensures
            b == self.spec_at_or_before(*other),
    {
        self.before(other) || (self.date == other.date && self.time.secs == other.time.secs
            && self.time.nanos == other.time.nanos)
    }
}

impl Weekday {
    /// Days since the Monday of the same week.
    pub open spec fn spec_days_from_monday(self) -> int {
        match self {
            Weekday::Mon => 0,
            Weekday::Tue => 1,
            Weekday::Wed => 2,
            Weekday::Thu => 3,
            Weekday::Fri => 4,
            Weekday::Sat => 5,
            Weekday::Sun => 6,
        }
    }

    /// Days since the Monday of the same week.
    pub fn days_from_monday(&self) -> (n: u32)
        ensures
            n == self.spec_days_from_monday(),
    {
        match self {
            Weekday::Mon => 0,
            Weekday::Tue => 1,
            Weekday::Wed => 2,
            Weekday::Thu => 3,
            Weekday::Fri => 4,
            Weekday::Sat => 5,
            Weekday::Sun => 6,
        }
    }
}

/// The weekday of a day number: day 1 (1 January of year 1) was a Monday.
pub open spec fn weekday_index_of_day(date: int) -> int {
    (date - 1) % 7
}

/// The weekday of a date: day 1 (1 January of year 1) was a Monday, and the
/// days of the week follow each other every seven days.
pub fn weekday_of(date: i32) -> (w: Weekday)
    ensures
        w.spec_days_from_monday() == weekday_index_of_day(date as int),
{
    // Counted from i32::MIN, whose day before lies 4 days after a Monday.
    let n: u64 = (date as i64 - i32::MIN as i64) as u64;
    let r: u64 = (n + 4) % 7;
    proof {
        assert(date - 1 == 7 * (-306_783_379int) + (n + 4));
        vstd::arithmetic::div_mod::lemma_mod_multiples_vanish(-306_783_379int, (n + 4) as int, 7);
    }
    if r == 0 {
        Weekday::Mon
    } else if r == 1 {
        Weekday::Tue
    } else if r == 2 {
        Weekday::Wed
    } else if r == 3 {
        Weekday::Thu
    } else if r == 4 {
        Weekday::Fri
    } else if r == 5 {
        Weekday::Sat
    } else {
        Weekday::Sun
    }
}

} // verus!
