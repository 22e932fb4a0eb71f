//! What the referral manager's answers are turned into: response times and
//! timeline statistics.

use vstd::prelude::*;
use crate::time::{DateTime, TimeOfDay, lemma_time_order};
use crate::persons::{Person, TimelineEvent, TimelineItemType, TimelineContactType};
use crate::text::{chars_of, first_occurrence, first_index_from, replace, replace_all, parse_u64, parsed_u64, occurs_at, lemma_first_occurrence, decimal, decimal_string, lemma_decimal_digits, is_decimal_digit};
use crate::scheduled_times::RefetchPolicy;
use vstd::string::*;

verus! {

/// Seconds since midnight at which the missionaries' working day starts (10:00).
pub const START_OF_DAY_SECS: u32 = 36_000;

/// Seconds since midnight at which the missionaries' working day ends (22:15).
pub const END_OF_DAY_SECS: u32 = 80_100;

/// Minutes in one working day, from 10:00 to 22:15.
pub const MINUTES_PER_WORKING_DAY: usize = 735;

/// Whole minutes from `from` to `to` (nanoseconds since midnight), or 0 when
/// `to` is not later.
pub open spec fn minutes_between(from: int, to: int) -> int {
    if to > from {
        (to - from) / 60_000_000_000
    } else {
        0
    }
}

pub open spec fn spec_max(a: int, b: int) -> int {
    if a >= b { a } else { b }
}

pub open spec fn spec_min(a: int, b: int) -> int {
    if a <= b { a } else { b }
}

/// Working minutes between a referral being sent and the first contact, both
/// in local time: only time between 10:00 and 22:15 counts, each full day in
/// between counts as a whole working day.
pub open spec fn working_minutes(referral: DateTime, contact: DateTime) -> int {
    let start = START_OF_DAY_SECS * 1_000_000_000;
    let end = END_OF_DAY_SECS * 1_000_000_000;
    let from = spec_max(referral.time.total(), start);
    if referral.date == contact.date {
        minutes_between(from, spec_min(contact.time.total(), end))
    } else {
        minutes_between(from, end) + minutes_between(start, spec_min(contact.time.total(), end))
            + (if contact.date - referral.date - 1 > 0 {
            (contact.date - referral.date - 1) * 735
        } else {
            0
        })
    }
}

/// The referral time and the first contact after it, as a timeline read in
/// order yields them: each new referral restarts the search for a contact, and
/// the first contact or teaching event with a recorded status after it is the
/// contact.
pub open spec fn contact_scan(events: Seq<TimelineEvent>) -> (Option<DateTime>, Option<DateTime>)
    decreases events.len(),
{
    if events.len() == 0 {
        (None, None)
    } else {
        let (referral, contact) = contact_scan(events.drop_last());
        let e = events.last();
        match e.item_type {
            TimelineItemType::NewReferral => (Some(e.item_date), None),
            TimelineItemType::Contact | TimelineItemType::Teaching => {
                if e.status is Some && contact is None {
                    (referral, Some(e.item_date))
                } else {
                    (referral, contact)
                }
            },
            _ => (referral, contact),
        }
    }
}

/// Each partial-day part of the working minutes is at most one working day.
proof fn lemma_partial_day_minutes(from: int, to: int)
    requires
        36_000_000_000_000 <= from,
        to <= 80_100_000_000_000,
    ensures
        0 <= minutes_between(from, to) <= 735,
{
    if to > from {
        assert((to - from) / 60_000_000_000 <= 735) by (nonlinear_arith)
            requires 0 < to - from <= 44_100_000_000_000;
    }
}

/// Working minutes from a time of day to another, both given as times of day.
fn minutes_from_to(from: &TimeOfDay, to: &TimeOfDay) -> (m: usize)
    requires
        from.wf(),
        to.wf(),
    ensures
        m == minutes_between(from.total(), to.total()),
        m <= 1440,
{
    proof {
        lemma_time_order(*from, *to);
    }
    if from.before(to) {
        let to_nanos: u64 = to.secs as u64 * 1_000_000_000 + to.nanos as u64;
        let from_nanos: u64 = from.secs as u64 * 1_000_000_000 + from.nanos as u64;
        let diff: u64 = to_nanos - from_nanos;
        assert(diff / 60_000_000_000 <= 1440) by (nonlinear_arith)
            requires diff < 86_400_000_000_000;
        (diff / 60_000_000_000) as usize
    } else {
        0
    }
}

/// The later of two times of day.
fn time_max(a: TimeOfDay, b: TimeOfDay) -> (t: TimeOfDay)
    requires
        a.wf(),
        b.wf(),
    ensures
        t.wf(),
        t.total() == spec_max(a.total(), b.total()),
{
    proof {
        lemma_time_order(a, b);
    }
    if b.before(&a) { a } else if a.before(&b) { b } else { a }
}

/// The earlier of two times of day.
fn time_min(a: TimeOfDay, b: TimeOfDay) -> (t: TimeOfDay)
    requires
        a.wf(),
        b.wf(),
    ensures
        t.wf(),
        t.total() == spec_min(a.total(), b.total()),
{
    proof {
        lemma_time_order(a, b);
    }
    if a.before(&b) { a } else if b.before(&a) { b } else { a }
}

/// Working minutes between a referral and its first contact, both in local
/// time.
pub fn working_minutes_between(referral_sent: DateTime, last_contact: DateTime) -> (total: usize)
    requires
        referral_sent.wf(),
        last_contact.wf(),
        working_minutes(referral_sent, last_contact) <= usize::MAX,
    ensures
        total == working_minutes(referral_sent, last_contact),
{
    let start_of_day = TimeOfDay::from_hm(10, 0);
    let end_of_day = TimeOfDay::from_hm(22, 15);
    let ghost start = START_OF_DAY_SECS * 1_000_000_000;
    let ghost end = END_OF_DAY_SECS * 1_000_000_000;
    assert(start_of_day.total() == start && end_of_day.total() == end);
    let mut total_minutes: usize = 0;
    if referral_sent.date == last_contact.date {
        let from = time_max(referral_sent.time, start_of_day);
        let to = time_min(last_contact.time, end_of_day);
        total_minutes = minutes_from_to(&from, &to);
    } else {
        let from = time_max(referral_sent.time, start_of_day);
        let first = minutes_from_to(&from, &end_of_day);
        let to = time_min(last_contact.time, end_of_day);
        let last = minutes_from_to(&start_of_day, &to);
        proof {
            lemma_partial_day_minutes(from.total(), end);
            lemma_partial_day_minutes(start, to.total());
        }
        total_minutes = first + last;
        let days_between: i64 = last_contact.date as i64 - referral_sent.date as i64 - 1;
        if days_between > 0 {
            assert(days_between as usize * 735 <= usize::MAX - total_minutes);
            total_minutes = total_minutes + days_between as usize * MINUTES_PER_WORKING_DAY;
        }
    }
    total_minutes
}

/// The two local readings are well formed, and close enough that the
/// working minutes between them fit a `usize`.
pub open spec fn readings_in_range(referral: Option<DateTime>, contact: Option<DateTime>) -> bool {
    &&& referral matches Some(r) ==> r.wf()
    &&& contact matches Some(c) ==> c.wf()
    &&& referral matches Some(r) ==> (contact matches Some(c) ==> (c.date - r.date + 3) * 735
        <= usize::MAX)
}

/// Whether the two local readings are in range for the working minutes.
pub fn readings_fit(referral: Option<DateTime>, contact: Option<DateTime>) -> (ok: bool)
    ensures
        ok == readings_in_range(referral, contact),
{
    let r_ok = match referral {
        Some(r) => r.is_valid(),
        None => true,
    };
    let c_ok = match contact {
        Some(c) => c.is_valid(),
        None => true,
    };
    let span_ok = match (referral, contact) {
        (Some(r), Some(c)) => {
            let span: i64 = c.date as i64 - r.date as i64 + 3;
            span <= 0 || (span as u64) * 735 <= usize::MAX as u64
        },
        _ => true,
    };
    r_ok && c_ok && span_ok
}

/// The working minutes between a referral being sent and the first contact,
/// given as the local clock read them; `None` unless both are known.
pub open spec fn adjusted_contact_time(referral: Option<DateTime>, contact: Option<DateTime>) -> Option<int> {
    match (referral, contact) {
        (Some(r), Some(c)) => Some(working_minutes(r, c)),
        _ => None,
    }
}

/// The working minutes between a referral sent and its first contact, both
/// as read on the machine's local clock; `None` unless both are known.
pub fn get_adjusted_contact_time(referral_sent: Option<DateTime>, last_contact: Option<DateTime>) -> (res: Option<usize>)
    requires
        readings_in_range(referral_sent, last_contact),
    ensures
        res is Some <==> adjusted_contact_time(referral_sent, last_contact) is Some,
        res matches Some(m) ==> adjusted_contact_time(referral_sent, last_contact) == Some(m as int),
{
    match (referral_sent, last_contact) {
        (Some(referral_local), Some(contact_local)) => {
            proof {
                lemma_working_minutes_bound(referral_local, contact_local);
            }
            let m = working_minutes_between(referral_local, contact_local);
            Some(m)
        },
        _ => None,
    }
}

/// The working minutes never exceed one working day per calendar day spanned,
/// plus two.
proof fn lemma_working_minutes_bound(referral: DateTime, contact: DateTime)
    requires
        referral.wf(),
        contact.wf(),
    ensures
        0 <= working_minutes(referral, contact),
        working_minutes(referral, contact) <= (if contact.date - referral.date + 1 > 0 {
            (contact.date - referral.date + 1) * 735
        } else {
            0
        }) + 1470,
{
    let start = START_OF_DAY_SECS * 1_000_000_000;
    let end = END_OF_DAY_SECS * 1_000_000_000;
    let from = spec_max(referral.time.total(), start);
    let to = spec_min(contact.time.total(), end);
    if referral.date == contact.date {
        if to > from {
            assert((to - from) / 60_000_000_000 <= 1440) by (nonlinear_arith)
                requires 0 < to - from <= 86_400_000_000_000;
        }
    } else {
        lemma_partial_day_minutes(from, end);
        lemma_partial_day_minutes(start, to);
    }
}

/// The time of the last referral and of the first contact after it, read in
/// the order of the timeline.
pub fn scan_contact(timeline: &Vec<TimelineEvent>) -> (res: (Option<DateTime>, Option<DateTime>))
    ensures
        res == contact_scan(timeline@),
{
    let mut referral_sent: Option<DateTime> = None;
    let mut last_contact: Option<DateTime> = None;
    let mut i: usize = 0;
    while i < timeline.len()
        invariant
            i <= timeline.len(),
            (referral_sent, last_contact) == contact_scan(timeline@.take(i as int)),
        decreases timeline.len() - i,
    {
        let item = timeline[i];
        assert(timeline@.take(i + 1).drop_last() =~= timeline@.take(i as int));
        match item.item_type {
            TimelineItemType::NewReferral => {
                referral_sent = Some(item.item_date);
                last_contact = None;
            },
            TimelineItemType::Contact | TimelineItemType::Teaching => {
                if item.status.is_some() && last_contact.is_none() {
                    last_contact = Some(item.item_date);
                }
            },
            _ => {},
        }
        i = i + 1;
    }
    assert(timeline@.take(timeline.len() as int) =~= timeline@);
    (referral_sent, last_contact)
}

/// How many events of a kind the timeline holds.
pub open spec fn count_kind(events: Seq<TimelineEvent>, kind: TimelineItemType) -> nat
    decreases events.len(),
{
    if events.len() == 0 {
        0
    } else {
        count_kind(events.drop_last(), kind) + (if events.last().item_type == kind {
            1nat
        } else {
            0nat
        })
    }
}

/// A teaching event that took place.
pub open spec fn is_taught_event(e: TimelineEvent) -> bool {
    e.item_type == TimelineItemType::Teaching && e.status == Some(true)
}

/// A teaching event that took place in person.
pub open spec fn is_taught_in_person_event(e: TimelineEvent) -> bool {
    is_taught_event(e) && e.contact_type == Some(TimelineContactType::InPerson)
}

/// Some teaching event among the first `n` took place.
pub open spec fn taught_within(events: Seq<TimelineEvent>, n: int) -> bool {
    exists|i: int| 0 <= i < n && #[trigger] is_taught_event(events[i])
}

/// Some teaching event among the first `n` took place in person.
pub open spec fn taught_in_person_within(events: Seq<TimelineEvent>, n: int) -> bool {
    exists|i: int| 0 <= i < n && #[trigger] is_taught_in_person_event(events[i])
}

proof fn lemma_taught_step(events: Seq<TimelineEvent>, n: int)
    requires
        0 <= n < events.len(),
    ensures
        taught_within(events, n + 1) == (taught_within(events, n) || is_taught_event(events[n])),
        taught_in_person_within(events, n + 1) == (taught_in_person_within(events, n)
            || is_taught_in_person_event(events[n])),
{
    if taught_within(events, n + 1) && !is_taught_event(events[n]) {
        let i = choose|i: int| 0 <= i < n + 1 && #[trigger] is_taught_event(events[i]);
        assert(i < n);
    }
    if taught_in_person_within(events, n + 1) && !is_taught_in_person_event(events[n]) {
        let i = choose|i: int| 0 <= i < n + 1 && #[trigger] is_taught_in_person_event(events[i]);
        assert(i < n);
    }
}

/// Some sacrament attendance has no new referral after it.
pub open spec fn attended_since_last_referral(events: Seq<TimelineEvent>) -> bool {
    exists|i: int|
        0 <= i < events.len() && #[trigger] events[i].item_type == TimelineItemType::Sacrament
            && forall|k: int|
            i < k < events.len() ==> events[k].item_type != TimelineItemType::NewReferral
}

/// The statistics a timeline yields: the response time, whether the person
/// has attended sacrament meeting, whether since the last referral, how often,
/// whether they have been taught, taught in person, taught since the last
/// referral, and how many referrals there were.
pub type TimelineStats = (Option<usize>, bool, bool, usize, bool, bool, bool, Option<usize>);

/// Everything in the statistics except the response time, which depends on the
/// machine's time zone.
pub open spec fn timeline_stats_hold(events: Seq<TimelineEvent>, stats: TimelineStats) -> bool {
    let sacraments = count_kind(events, TimelineItemType::Sacrament);
    let referrals = count_kind(events, TimelineItemType::NewReferral);
    &&& stats.1 == (sacraments > 0)
    &&& stats.2 == attended_since_last_referral(events)
    &&& stats.3 == sacraments
    &&& stats.4 == taught_within(events, events.len() as int)
    &&& stats.5 == taught_in_person_within(events, events.len() as int)
    &&& stats.6 == false
    &&& stats.7 == (if referrals == 0 {
        None
    } else {
        Some(referrals as usize)
    })
}

proof fn lemma_count_kind_bounded(events: Seq<TimelineEvent>, kind: TimelineItemType)
    ensures
        count_kind(events, kind) <= events.len(),
    decreases events.len(),
{
    if events.len() > 0 {
        lemma_count_kind_bounded(events.drop_last(), kind);
    }
}

/// The statistics of a timeline read in order (oldest event first). The
/// response time is counted between `referral_local` and `contact_local`: the
/// referral and contact dates that `scan_contact` finds in the timeline, as
/// the machine's local clock reads them.
pub fn get_timeline_stats(
    timeline: &Vec<TimelineEvent>,
    referral_local: Option<DateTime>,
    contact_local: Option<DateTime>,
) -> (stats: TimelineStats)
    requires
        readings_in_range(referral_local, contact_local),
    ensures
        timeline_stats_hold(timeline@, stats),
        stats.0 is Some <==> adjusted_contact_time(referral_local, contact_local) is Some,
        stats.0 matches Some(m) ==> adjusted_contact_time(referral_local, contact_local) == Some(m as int),
{
    let response_time = get_adjusted_contact_time(referral_local, contact_local);
    let mut has_attended_sacrament: bool = false;
    let mut has_attended_since_last_referral: bool = false;
    let mut sacrament_attendance_count: usize = 0;
    let mut has_been_taught: bool = false;
    let mut has_been_taught_in_person: bool = false;
    let has_been_taught_since_last_referral: bool = false;
    let mut referral_count: Option<usize> = None;
    let ghost events = timeline@;
    let mut i: usize = 0;
    while i < timeline.len()
        invariant
            i <= timeline.len(),
            events == timeline@,
            sacrament_attendance_count == count_kind(events.take(i as int), TimelineItemType::Sacrament),
            has_attended_sacrament == (sacrament_attendance_count > 0),
            has_attended_since_last_referral == attended_since_last_referral(events.take(i as int)),
            has_been_taught == taught_within(events, i as int),
            has_been_taught_in_person == taught_in_person_within(events, i as int),
            referral_count == (if count_kind(events.take(i as int), TimelineItemType::NewReferral) == 0 {
                None
            } else {
                Some(count_kind(events.take(i as int), TimelineItemType::NewReferral) as usize)
            }),
            count_kind(events.take(i as int), TimelineItemType::NewReferral) <= i,
        decreases timeline.len() - i,
    {
        let event = timeline[i];
        let ghost prefix = events.take(i as int);
        proof {
            lemma_count_kind_bounded(prefix, TimelineItemType::Sacrament);
            lemma_prefix_step(events, i as int);
            lemma_taught_step(events, i as int);
            lemma_attended_since_step(prefix, event);
        }
        if event.item_type == TimelineItemType::Sacrament {
            sacrament_attendance_count = sacrament_attendance_count + 1;
            has_attended_sacrament = true;
            has_attended_since_last_referral = true;
        }
        if let Some(status) = event.status {
            if event.item_type == TimelineItemType::Teaching && status {
                has_been_taught = true;
                if let Some(contact_type) = event.contact_type {
                    if contact_type == TimelineContactType::InPerson {
                        has_been_taught_in_person = true;
                    }
                }
            }
        }
        if event.item_type == TimelineItemType::NewReferral {
            referral_count = match referral_count {
                Some(count) => Some(count + 1),
                None => Some(1),
            };
            has_attended_since_last_referral = false;
        }
        i = i + 1;
    }
    assert(events.take(timeline.len() as int) =~= events);
    (
        response_time,
        has_attended_sacrament,
        has_attended_since_last_referral,
        sacrament_attendance_count,
        has_been_taught,
        has_been_taught_in_person,
        has_been_taught_since_last_referral,
        referral_count,
    )
}

/// The prefix one longer is the prefix with the next event pushed.
proof fn lemma_prefix_step(events: Seq<TimelineEvent>, n: int)
    requires
        0 <= n < events.len(),
    ensures
        events.take(n + 1) == events.take(n).push(events[n]),
        forall|kind: TimelineItemType|
            #[trigger] count_kind(events.take(n + 1), kind) == count_kind(events.take(n), kind) + (
            if events[n].item_type == kind {
                1nat
            } else {
                0nat
            }),
{
    assert(events.take(n + 1) =~= events.take(n).push(events[n]));
    assert forall|kind: TimelineItemType|
        #[trigger] count_kind(events.take(n + 1), kind) == count_kind(events.take(n), kind) + (
        if events[n].item_type == kind {
            1nat
        } else {
            0nat
        }) by {
        assert(events.take(n + 1).drop_last() =~= events.take(n));
    }
}

/// How one more event changes whether a sacrament attendance follows the last
/// referral.
proof fn lemma_attended_since_step(prefix: Seq<TimelineEvent>, e: TimelineEvent)
    ensures
        attended_since_last_referral(prefix.push(e)) == (if e.item_type
            == TimelineItemType::Sacrament {
            true
        } else if e.item_type == TimelineItemType::NewReferral {
            false
        } else {
            attended_since_last_referral(prefix)
        }),
{
    let s = prefix.push(e);
    let n = prefix.len() as int;
    if e.item_type == TimelineItemType::Sacrament {
        assert(s[n].item_type == TimelineItemType::Sacrament);
    } else if e.item_type == TimelineItemType::NewReferral {
        if attended_since_last_referral(s) {
            let i = choose|i: int|
                0 <= i < s.len() && #[trigger] s[i].item_type == TimelineItemType::Sacrament
                    && forall|k: int| i < k < s.len() ==> s[k].item_type != TimelineItemType::NewReferral;
            assert(i < n);
            assert(s[n].item_type == TimelineItemType::NewReferral);
        }
    } else {
        if attended_since_last_referral(prefix) {
            let i = choose|i: int|
                0 <= i < prefix.len() && #[trigger] prefix[i].item_type == TimelineItemType::Sacrament
                    && forall|k: int|
                    i < k < prefix.len() ==> prefix[k].item_type != TimelineItemType::NewReferral;
            assert(s[i].item_type == TimelineItemType::Sacrament);
            assert forall|k: int| i < k < s.len() implies s[k].item_type != TimelineItemType::NewReferral by {
                if k < n {
                    assert(s[k] == prefix[k]);
                }
            }
        }
        if attended_since_last_referral(s) {
            let i = choose|i: int|
                0 <= i < s.len() && #[trigger] s[i].item_type == TimelineItemType::Sacrament
                    && forall|k: int| i < k < s.len() ==> s[k].item_type != TimelineItemType::NewReferral;
            assert(i < n);
            assert(prefix[i].item_type == TimelineItemType::Sacrament);
            assert forall|k: int| i < k < prefix.len() implies prefix[k].item_type != TimelineItemType::NewReferral by {
                assert(s[k] == prefix[k]);
            }
        }
    }
}


/// Why the state token could not be read from the login page.
#[derive(Clone, Copy, Debug, PartialEq, Eq, Structural)]
pub enum LoginError {
    /// The page holds no `"stateToken":"`.
    StateTokenNotFound,
    /// Nothing closes the state token.
    EndTokenNotFound,
    /// The state token is empty.
    InvalidIndices,
}

/// What opens the state token in the login page.
pub open spec fn state_token_start() -> Seq<char> {
    "\"stateToken\":\""@
}

/// What closes the state token in the login page.
pub open spec fn state_token_end() -> Seq<char> {
    "\","@
}

/// The state token embedded in the login page: the text after the first
/// `"stateToken":"` up to the next `",`.
pub open spec fn state_token_outcome(html: Seq<char>) -> Result<Seq<char>, LoginError> {
    match first_occurrence(html, state_token_start(), 0) {
        None => Err(LoginError::StateTokenNotFound),
        Some(i) => {
            let start = i + state_token_start().len();
            match first_occurrence(html, state_token_end(), start) {
                None => Err(LoginError::EndTokenNotFound),
                Some(end) => if start >= end {
                    Err(LoginError::InvalidIndices)
                } else {
                    Ok(html.subrange(start, end))
                },
            }
        },
    }
}

/// Reads the state token out of the login page.
pub fn extract_state_token(html: &str) -> (res: Result<String, LoginError>)
    ensures
        match res {
            Ok(token) => state_token_outcome(html@) == Ok::<Seq<char>, LoginError>(token@),
            Err(e) => state_token_outcome(html@) == Err::<Seq<char>, LoginError>(e),
        },
{
    let page = chars_of(html);
    let start_token = chars_of("\"stateToken\":\"");
    let end_token = chars_of("\",");
    let found = first_index_from(&page, &start_token, 0);
    let i = match found {
        Some(i) => i,
        None => return Err(LoginError::StateTokenNotFound),
    };
    let n = page.len();
    assert(i + start_token@.len() <= n);
    let start = i + start_token.len();
    let end = match first_index_from(&page, &end_token, start) {
        Some(e) => e,
        None => return Err(LoginError::EndTokenNotFound),
    };
    if start >= end {
        return Err(LoginError::InvalidIndices);
    }
    assert(end + end_token@.len() <= page@.len());
    let mut token = String::new();
    token.append(html.substring_char(start, end));
    Ok(token)
}

/// A hexadecimal digit, in either case.
pub open spec fn is_hex_digit(c: char) -> bool {
    (48 <= (c as u32) <= 57) || (65 <= (c as u32) <= 70) || (97 <= (c as u32) <= 102)
}

/// The value of a hexadecimal digit.
pub open spec fn hex_value(c: char) -> int {
    if (c as u32) <= 57 {
        (c as u32) - 48
    } else if (c as u32) <= 70 {
        (c as u32) - 55
    } else {
        (c as u32) - 87
    }
}

/// An escape `\xNN`, with two hexadecimal digits, starts at index `i`.
pub open spec fn escape_at(s: Seq<char>, i: int) -> bool {
    0 <= i && i + 4 <= s.len() && s[i] == '\\' && s[i + 1] == 'x' && is_hex_digit(s[i + 2])
        && is_hex_digit(s[i + 3])
}

/// The character that the escape starting at index `i` stands for: the one
/// whose code is the two digits read in hexadecimal.
pub open spec fn escaped_char(s: Seq<char>, i: int) -> char {
    (hex_value(s[i + 2]) * 16 + hex_value(s[i + 3])) as char
}

/// The text with every escape `\xNN` replaced, from the left, by the
/// character with code `NN` in hexadecimal; everything else is kept.
pub open spec fn decoded_escapes(s: Seq<char>) -> Seq<char>
    decreases s.len(),
{
    if s.len() == 0 {
        Seq::empty()
    } else if escape_at(s, 0) {
        seq![escaped_char(s, 0)] + decoded_escapes(s.subrange(4, s.len() as int))
    } else {
        seq![s[0]] + decoded_escapes(s.subrange(1, s.len() as int))
    }
}

/// Appends a character, with `String::push`.
/// Trusted: std documents that it appends the character at the end. std also
/// documents a panic when the new capacity would pass `isize::MAX` bytes; the
/// strings decoded here are far shorter than that, and a `String`'s capacity
/// is not modelled, so no `requires` states it.
#[verifier::external_body]
fn push_char(text: &mut String, c: char)
    ensures
        final(text)@ == old(text)@.push(c),
{
    text.push(c);
}

/// Whether a character is a hexadecimal digit.
fn hex_digit(c: char) -> (b: bool)
    ensures
        b == is_hex_digit(c),
{
    let code = c as u32;
    (48 <= code && code <= 57) || (65 <= code && code <= 70) || (97 <= code && code <= 102)
}

/// The value of a hexadecimal digit.
fn hex_digit_value(c: char) -> (v: u32)
    requires
        is_hex_digit(c),
    ensures
        v == hex_value(c),
        v < 16,
{
    let code = c as u32;
    if code <= 57 {
        code - 48
    } else if code <= 70 {
        code - 55
    } else {
        code - 87
    }
}

/// Decodes the escape sequences `\xNN` that the login page uses in the state
/// token: each becomes the character with that code.
pub fn decode_escape_sequences(s: &str) -> (res: String)
    ensures
        res@ == decoded_escapes(s@),
{
    let cs = chars_of(s);
    let n = cs.len();
    let mut res = String::new();
    let mut i: usize = 0;
    assert(s@.subrange(0, n as int) =~= s@);
    while i < n
        invariant
            cs@ == s@,
            n == s@.len(),
            i <= n,
            decoded_escapes(s@) == res@ + decoded_escapes(s@.subrange(i as int, n as int)),
        decreases n - i,
    {
        let ghost rest = s@.subrange(i as int, n as int);
        if n - i >= 4 && cs[i] == '\\' && cs[i + 1] == 'x' && hex_digit(cs[i + 2]) && hex_digit(cs[i + 3]) {
            assert(rest[0] == cs@[i as int] && rest[1] == cs@[i + 1] && rest[2] == cs@[i + 2] && rest[3]
                == cs@[i + 3]);
            assert(escape_at(rest, 0));
            let high = hex_digit_value(cs[i + 2]);
            let low = hex_digit_value(cs[i + 3]);
            let code: u8 = (high * 16 + low) as u8;
            let c = code as char;
            assert(c == escaped_char(rest, 0));
            push_char(&mut res, c);
            assert(rest.subrange(4, rest.len() as int) =~= s@.subrange(i + 4, n as int));
            i = i + 4;
        } else {
            assert(rest[0] == cs@[i as int]);
            assert(!escape_at(rest, 0)) by {
                if escape_at(rest, 0) {
                    assert(rest[1] == cs@[i + 1] && rest[2] == cs@[i + 2] && rest[3] == cs@[i + 3]);
                }
            }
            push_char(&mut res, cs[i]);
            assert(rest.subrange(1, rest.len() as int) =~= s@.subrange(i + 1, n as int));
            i = i + 1;
        }
    }
    assert(s@.subrange(n as int, n as int) =~= Seq::<char>::empty());
    assert(res@ + Seq::<char>::empty() =~= res@);
    res
}

/// What `serde_json::from_str::<String>` makes of a JSON text: the string it
/// denotes, or `None` where the text is not a JSON string.
pub uninterp spec fn json_string_value(text: Seq<char>) -> Option<Seq<char>>;

/// Decodes a JSON text holding one string, with `serde_json::from_str`.
/// Trusted: the result is `json_string_value` of the text; serde_json's own
/// rules for JSON strings are not restated here.
#[verifier::external_body]
fn decode_json_string(text: &str) -> (res: Option<String>)
    ensures
        match res {
            Some(value) => json_string_value(text@) == Some(value@),
            None => json_string_value(text@) is None,
        },
{
    serde_json::from_str::<String>(text).ok()
}

/// A text between double quotes.
pub open spec fn json_quoted(s: Seq<char>) -> Seq<char> {
    seq!['"'] + s + seq!['"']
}

/// The JSON text that the state token is decoded from: the token with its
/// escapes decoded, between double quotes.
pub open spec fn state_token_json(html: Seq<char>) -> Result<Seq<char>, LoginError> {
    match state_token_outcome(html) {
        Ok(token) => Ok(json_quoted(decoded_escapes(token))),
        Err(e) => Err(e),
    }
}

/// The state token, where there is one, decodes as a JSON string.
pub open spec fn state_token_decodes(html: Seq<char>) -> bool {
    match state_token_json(html) {
        Ok(text) => json_string_value(text) is Some,
        Err(_) => true,
    }
}

fn quote_json(s: &str) -> (res: String)
    ensures
        res@ == json_quoted(s@),
{
    proof {
        reveal_strlit("\"");
    }
    let mut res = String::new();
    res.append("\"");
    res.append(s);
    res.append("\"");
    res
}

/// The state token of the login page, decoded: its `\xNN` escapes, then its
/// JSON escapes.
pub fn parse_state_token(html: &str) -> (res: Result<String, LoginError>)
    requires
        state_token_decodes(html@),
    ensures
        match res {
            Ok(token) => state_token_json(html@) matches Ok(text) && json_string_value(text) == Some(
                token@,
            ),
            Err(e) => state_token_json(html@) == Err::<Seq<char>, LoginError>(e),
        },
{
    let raw = extract_state_token(html)?;
    let decoded = decode_escape_sequences(raw.as_str());
    let text = quote_json(decoded.as_str());
    Ok(decode_json_string(text.as_str()).unwrap())
}

/// The state token of the login page, decoded as `parse_state_token` does;
/// `None` where the token does not decode as a JSON string.
pub fn try_parse_state_token(html: &str) -> (res: Option<Result<String, LoginError>>)
    ensures
        res is None <==> !state_token_decodes(html@),
        res matches Some(r) ==> match r {
            Ok(token) => state_token_json(html@) matches Ok(text) && json_string_value(text) == Some(
                token@,
            ),
            Err(e) => state_token_json(html@) == Err::<Seq<char>, LoginError>(e),
        },
{
    match extract_state_token(html) {
        Err(e) => Some(Err(e)),
        Ok(raw) => {
            let decoded = decode_escape_sequences(raw.as_str());
            let text = quote_json(decoded.as_str());
            match decode_json_string(text.as_str()) {
                None => None,
                Some(_) => Some(parse_state_token(html)),
            }
        },
    }
}

/// The body that trades the state token for a state handle.
pub fn introspect_request_body(state_token: &str) -> (body: String)
    ensures
        body@ == "{\"stateToken\": \""@ + state_token@ + "\"}"@,
{
    let mut body = String::new();
    body.append("{\"stateToken\": \"");
    body.append(state_token);
    body.append("\"}");
    body
}

/// How many times a request to the referral manager is made before giving up.
pub const MAX_RETRIES: u8 = 3;

/// What follows a failed request to the referral manager.
#[derive(Clone, Copy, Debug, PartialEq, Eq, Structural)]
pub enum FetchStep {
    /// Log in again and repeat the request.
    TryAgain,
    /// Report that the tries are used up.
    GiveUp,
}

/// What follows a failed request, when `tries` requests have been made.
pub fn after_failed_try(tries: u8) -> (step: FetchStep)
    ensures
        step == (if tries < MAX_RETRIES {
            FetchStep::TryAgain
        } else {
            FetchStep::GiveUp
        }),
{
    if tries < MAX_RETRIES {
        FetchStep::TryAgain
    } else {
        FetchStep::GiveUp
    }
}

/// The timestamp that names a stored people list: the file name up to its
/// first `.`, read as a `u64`.
pub open spec fn file_name_timestamp(name: Seq<char>) -> Option<u64> {
    match first_occurrence(name, seq!['.'], 0) {
        None => None,
        Some(i) => parsed_u64(name.take(i)),
    }
}

/// The timestamp in the name of a stored people list, such as
/// `1700000000.json`.
pub fn extract_valid_file_timestamp(file_name: &str) -> (res: Option<u64>)
    ensures
        res == file_name_timestamp(file_name@),
{
    proof {
        reveal_strlit(".");
    }
    let name = chars_of(file_name);
    let dot = chars_of(".");
    assert(dot@ =~= seq!['.']);
    match first_index_from(&name, &dot, 0) {
        None => None,
        Some(i) => {
            let stem = file_name.substring_char(0, i);
            assert(stem@ =~= file_name@.take(i as int));
            parse_u64(stem)
        },
    }
}

/// Where the people list is taken from.
#[derive(Clone, Copy, Debug, PartialEq, Eq, Structural)]
pub enum ListSource {
    /// The stored list at this position among the entries: it is fresh enough.
    Stored(usize),
    /// The newest stored list, made at this time.
    Latest(u64),
    /// Nothing stored will do: fetch the list from the referral manager.
    Fetch,
}

/// Seconds within which a stored people list is always a cache hit: one hour.
pub const CACHE_HIT_SECS: u64 = 3600;

/// A list stored at `timestamp` may be reused at `now` under a policy that
/// refetches after a limit: it is a hit when it is less than an hour old, and
/// one stamped after `now` counts as less than an hour old.
pub open spec fn list_is_fresh(timestamp: u64, now: u64, policy: RefetchPolicy) -> bool {
    match policy {
        RefetchPolicy::RefetchAfter(_) => timestamp > now || now - timestamp < CACHE_HIT_SECS,
        _ => false,
    }
}

/// The first entry whose stored list may be reused.
pub open spec fn first_fresh(entries: Seq<Option<u64>>, now: u64, policy: RefetchPolicy) -> Option<int>
    decreases entries.len(),
{
    if entries.len() == 0 {
        None
    } else {
        match first_fresh(entries.drop_last(), now, policy) {
            Some(i) => Some(i),
            None => match entries.last() {
                Some(t) => if list_is_fresh(t, now, policy) {
                    Some(entries.len() - 1)
                } else {
                    None
                },
                None => None,
            },
        }
    }
}

/// The newest timestamp among the entries, 0 when there is none.
pub open spec fn latest_timestamp(entries: Seq<Option<u64>>) -> u64
    decreases entries.len(),
{
    if entries.len() == 0 {
        0
    } else {
        let m = latest_timestamp(entries.drop_last());
        match entries.last() {
            Some(t) => if m < t {
                t
            } else {
                m
            },
            None => m,
        }
    }
}

/// Where the people list comes from: the first stored list that is fresh
/// enough; else, when the policy never refetches, the newest stored list;
/// else the referral manager.
pub open spec fn people_list_source(entries: Seq<Option<u64>>, now: u64, policy: RefetchPolicy) -> ListSource {
    match first_fresh(entries, now, policy) {
        Some(i) => ListSource::Stored(i as usize),
        None => if policy == RefetchPolicy::NoRefetch && latest_timestamp(entries) > 0 {
            ListSource::Latest(latest_timestamp(entries))
        } else {
            ListSource::Fetch
        },
    }
}

/// Chooses where the people list comes from, given the timestamps of the
/// stored lists in the order they were found (`None` for an entry that is
/// not a stored list), the time `now` in seconds, and the refetch policy.
pub fn cached_people_list_source(entries: &Vec<Option<u64>>, now: u64, policy: RefetchPolicy) -> (source: ListSource)
    ensures
        source == people_list_source(entries@, now, policy),
{
    let mut latest: u64 = 0;
    let mut i: usize = 0;
    while i < entries.len()
        invariant
            i <= entries@.len(),
            first_fresh(entries@.take(i as int), now, policy) is None,
            latest == latest_timestamp(entries@.take(i as int)),
        decreases entries@.len() - i,
    {
        assert(entries@.take(i + 1).drop_last() =~= entries@.take(i as int));
        if let Some(timestamp) = entries[i] {
            if latest < timestamp {
                latest = timestamp;
            }
            if let RefetchPolicy::RefetchAfter(_) = policy {
                let fresh = match now.checked_sub(timestamp) {
                    None => true,
                    Some(diff) => diff < CACHE_HIT_SECS,
                };
                if fresh {
                    proof {
                        lemma_first_fresh_prefix(entries@, now, policy, i as int);
                    }
                    return ListSource::Stored(i);
                }
            }
        }
        i = i + 1;
    }
    assert(entries@.take(entries@.len() as int) =~= entries@);
    if policy == RefetchPolicy::NoRefetch && latest > 0 {
        ListSource::Latest(latest)
    } else {
        ListSource::Fetch
    }
}

/// An entry found fresh stays the first fresh one in the whole list.
proof fn lemma_first_fresh_prefix(entries: Seq<Option<u64>>, now: u64, policy: RefetchPolicy, i: int)
    requires
        0 <= i < entries.len(),
        first_fresh(entries.take(i + 1), now, policy) == Some(i),
    ensures
        first_fresh(entries, now, policy) == Some(i),
    decreases entries.len(),
{
    if entries.len() > i + 1 {
        assert(entries.drop_last().take(i + 1) =~= entries.take(i + 1));
        lemma_first_fresh_prefix(entries.drop_last(), now, policy, i);
    } else {
        assert(entries.take(i + 1) =~= entries);
    }
}

/// The identifiers of the entries, in order.
pub open spec fn entry_ids(entries: Seq<(usize, Seq<char>)>) -> Seq<usize> {
    entries.map_values(|e: (usize, Seq<char>)| e.0)
}

/// Each zone of the people, with its name, once, in order of first
/// appearance; people without both a zone and its name are passed over.
pub open spec fn zone_entries(people: Seq<Person>) -> Seq<(usize, Seq<char>)>
    decreases people.len(),
{
    if people.len() == 0 {
        Seq::empty()
    } else {
        let seen = zone_entries(people.drop_last());
        let p = people.last();
        match (p.zone_name, p.zone_id) {
            (Some(name), Some(id)) => if entry_ids(seen).contains(id) {
                seen
            } else {
                seen.push((id, name@))
            },
            _ => seen,
        }
    }
}

/// Each teaching area of the people, with its name, once, in order of first
/// appearance; people without both an area and its name are passed over.
pub open spec fn area_entries(people: Seq<Person>) -> Seq<(usize, Seq<char>)>
    decreases people.len(),
{
    if people.len() == 0 {
        Seq::empty()
    } else {
        let seen = area_entries(people.drop_last());
        let p = people.last();
        match (p.area_name, p.area_id) {
            (Some(name), Some(id)) => if entry_ids(seen).contains(id) {
                seen
            } else {
                seen.push((id, name@))
            },
            _ => seen,
        }
    }
}

/// The zones and the teaching areas that the people belong to, each with its
/// name, once, in order of first appearance.
pub fn zone_and_area_ids(people: &Vec<Person>) -> (res: (Vec<(usize, String)>, Vec<(usize, String)>))
    ensures
        res.0.deep_view() == zone_entries(people@),
        res.1.deep_view() == area_entries(people@),
{
    broadcast use vstd::std_specs::hash::group_hash_axioms;

    let mut zone_ids: std::collections::HashSet<usize> = std::collections::HashSet::new();
    let mut zones: Vec<(usize, String)> = Vec::new();
    let mut area_ids: std::collections::HashSet<usize> = std::collections::HashSet::new();
    let mut areas: Vec<(usize, String)> = Vec::new();
    let mut i: usize = 0;
    while i < people.len()
        invariant
            i <= people@.len(),
            zones.deep_view() == zone_entries(people@.take(i as int)),
            areas.deep_view() == area_entries(people@.take(i as int)),
            zone_ids@ == entry_ids(zones.deep_view()).to_set(),
            area_ids@ == entry_ids(areas.deep_view()).to_set(),
        decreases people@.len() - i,
    {
        let person = &people[i];
        assert(people@.take(i + 1).drop_last() =~= people@.take(i as int));
        assert(people@.take(i + 1).last() == people@[i as int]);
        if let (Some(name), Some(id)) = (&person.zone_name, person.zone_id) {
            let ghost before = zones.deep_view();
            if zone_ids.insert(id) {
                zones.push((id, name.clone()));
                assert(zones.deep_view() =~= before.push((id, name@)));
                assert(entry_ids(zones.deep_view()) =~= entry_ids(before) + seq![id]);
                proof {
                    Seq::lemma_to_set_insert_commutes(entry_ids(before), id);
                }
                assert(entry_ids(zones.deep_view()).to_set() =~= entry_ids(before).to_set().insert(id));
            }
        }
        if let (Some(name), Some(id)) = (&person.area_name, person.area_id) {
            let ghost before = areas.deep_view();
            if area_ids.insert(id) {
                areas.push((id, name.clone()));
                assert(areas.deep_view() =~= before.push((id, name@)));
                assert(entry_ids(areas.deep_view()) =~= entry_ids(before) + seq![id]);
                proof {
                    Seq::lemma_to_set_insert_commutes(entry_ids(before), id);
                }
                assert(entry_ids(areas.deep_view()).to_set() =~= entry_ids(before).to_set().insert(id));
            }
        }
        i = i + 1;
    }
    assert(people@.take(people@.len() as int) =~= people@);
    (zones, areas)
}

/// The name under which a people list fetched at `timestamp` is stored.
pub fn list_file_name(timestamp: u64) -> (name: String)
    ensures
        name@ == decimal(timestamp as nat) + ".json"@,
{
    let mut name = decimal_string(timestamp);
    name.append(".json");
    name
}

/// A people list stored under the name made for `timestamp` is found again
/// under that timestamp.
pub proof fn law_list_file_name_round_trip(timestamp: u64)
    ensures
        file_name_timestamp(decimal(timestamp as nat) + ".json"@) == Some(timestamp),
{
    reveal_strlit(".json");
    let d = decimal(timestamp as nat);
    lemma_decimal_digits(timestamp as nat);
    let name = d + ".json"@;
    let k = d.len() as int;
    assert(occurs_at(name, seq!['.'], k)) by {
        assert(name.subrange(k, k + 1) =~= seq!['.']);
    }
    assert forall|j: int| 0 <= j < k implies !occurs_at(name, seq!['.'], j) by {
        if occurs_at(name, seq!['.'], j) {
            assert(name.subrange(j, j + 1)[0] == name[j]);
            assert(name[j] == d[j]);
            assert(is_decimal_digit(d[j]));
        }
    }
    lemma_first_occurrence(name, seq!['.'], 0, Some(k));
    assert(name.take(k) =~= d);
    assert(is_decimal_digit(d[0]));
}

/// Entry `j` holds a stored list young enough for the policy.
pub open spec fn fresh_entry(entries: Seq<Option<u64>>, j: int, now: u64, policy: RefetchPolicy) -> bool {
    0 <= j < entries.len() && match entries[j] {
        Some(t) => list_is_fresh(t, now, policy),
        None => false,
    }
}

proof fn lemma_first_fresh_found(entries: Seq<Option<u64>>, now: u64, policy: RefetchPolicy, i: int)
    requires
        0 <= i < entries.len(),
        entries[i] matches Some(t) && list_is_fresh(t, now, policy),
    ensures
        first_fresh(entries, now, policy) matches Some(j) && 0 <= j <= i && fresh_entry(entries, j, now, policy),
    decreases entries.len(),
{
    if i < entries.len() - 1 {
        lemma_first_fresh_found(entries.drop_last(), now, policy, i);
    } else {
        lemma_first_fresh_is_fresh(entries.drop_last(), now, policy);
    }
}

proof fn lemma_first_fresh_is_fresh(entries: Seq<Option<u64>>, now: u64, policy: RefetchPolicy)
    ensures
        first_fresh(entries, now, policy) matches Some(j) ==> fresh_entry(entries, j, now, policy),
    decreases entries.len(),
{
    if entries.len() > 0 {
        lemma_first_fresh_is_fresh(entries.drop_last(), now, policy);
    }
}

/// A stored list young enough for the policy is never passed over: the list
/// taken is a stored one, found no later, and young enough itself.
pub proof fn law_fresh_list_reused(entries: Seq<Option<u64>>, now: u64, policy: RefetchPolicy, i: int)
    requires
        0 <= i < entries.len(),
        entries[i] matches Some(t) && list_is_fresh(t, now, policy),
    ensures
        first_fresh(entries, now, policy) matches Some(j) && 0 <= j <= i && fresh_entry(entries, j, now, policy)
            && people_list_source(entries, now, policy) == ListSource::Stored(j as usize),
{
    lemma_first_fresh_found(entries, now, policy, i);
}

/// A stored list less than an hour old is a cache hit under any policy that
/// refetches after a limit: a stored list is taken, found no later, and
/// itself fresh.
pub proof fn law_list_under_an_hour_is_reused(entries: Seq<Option<u64>>, now: u64, secs: i64, i: int)
    requires
        0 <= i < entries.len(),
        entries[i] matches Some(t) && t <= now && now - t < 3600,
    ensures
        first_fresh(entries, now, RefetchPolicy::RefetchAfter(secs)) matches Some(j) && 0 <= j <= i
            && fresh_entry(entries, j, now, RefetchPolicy::RefetchAfter(secs))
            && people_list_source(entries, now, RefetchPolicy::RefetchAfter(secs)) == ListSource::Stored(
            j as usize,
        ),
{
    law_fresh_list_reused(entries, now, RefetchPolicy::RefetchAfter(secs), i);
}

/// The stored list was stamped less than an hour before `now`, or after it.
pub open spec fn under_an_hour(entry: Option<u64>, now: u64) -> bool {
    match entry {
        Some(t) => t > now || now - t < 3600,
        None => false,
    }
}

/// A stored list that is taken is less than an hour old (or stamped after
/// `now`): no list an hour old or older is ever reused.
pub proof fn law_reused_list_is_under_an_hour(entries: Seq<Option<u64>>, now: u64, policy: RefetchPolicy)
    ensures
        first_fresh(entries, now, policy) matches Some(j) ==> policy is RefetchAfter && fresh_entry(
            entries,
            j,
            now,
            policy,
        ) && under_an_hour(entries[j], now),
{
    lemma_first_fresh_is_fresh(entries, now, policy);
}

proof fn lemma_no_fresh_without_limit(entries: Seq<Option<u64>>, now: u64)
    ensures
        first_fresh(entries, now, RefetchPolicy::NoRefetch) is None,
    decreases entries.len(),
{
    if entries.len() > 0 {
        lemma_no_fresh_without_limit(entries.drop_last(), now);
    }
}

proof fn lemma_latest_at_least(entries: Seq<Option<u64>>, i: int)
    requires
        0 <= i < entries.len(),
        entries[i] is Some,
    ensures
        entries[i] matches Some(t) && t <= latest_timestamp(entries),
    decreases entries.len(),
{
    if i < entries.len() - 1 {
        lemma_latest_at_least(entries.drop_last(), i);
    }
}

/// Under the policy that never refetches, a stored list is always used once
/// one exists with a timestamp above 0: the newest one.
pub proof fn law_no_refetch_uses_newest(entries: Seq<Option<u64>>, now: u64, i: int)
    requires
        0 <= i < entries.len(),
        entries[i] matches Some(t) && t > 0,
    ensures
        people_list_source(entries, now, RefetchPolicy::NoRefetch) == ListSource::Latest(
            latest_timestamp(entries),
        ),
        entries[i] matches Some(t) && t <= latest_timestamp(entries),
{
    lemma_no_fresh_without_limit(entries, now);
    lemma_latest_at_least(entries, i);
}

/// A state token without backslashes is left as it is by the decoding of
/// escapes.
pub proof fn law_plain_token_unchanged(s: Seq<char>)
    requires
        forall|i: int| 0 <= i < s.len() ==> s[i] != '\\',
    ensures
        decoded_escapes(s) == s,
    decreases s.len(),
{
    if s.len() > 0 {
        let rest = s.subrange(1, s.len() as int);
        assert forall|i: int| 0 <= i < rest.len() implies rest[i] != '\\' by {
            assert(rest[i] == s[i + 1]);
        }
        law_plain_token_unchanged(rest);
        assert(seq![s[0]] + rest =~= s);
    }
}

/// Every zone and every teaching area is listed once.
pub proof fn law_zone_and_area_ids_distinct(people: Seq<Person>)
    ensures
        entry_ids(zone_entries(people)).no_duplicates(),
        entry_ids(area_entries(people)).no_duplicates(),
    decreases people.len(),
{
    if people.len() > 0 {
        law_zone_and_area_ids_distinct(people.drop_last());
        let zones = zone_entries(people.drop_last());
        let areas = area_entries(people.drop_last());
        let p = people.last();
        if let (Some(name), Some(id)) = (p.zone_name, p.zone_id) {
            if !entry_ids(zones).contains(id) {
                assert(entry_ids(zones.push((id, name@))) =~= entry_ids(zones).push(id));
            }
        }
        if let (Some(name), Some(id)) = (p.area_name, p.area_id) {
            if !entry_ids(areas).contains(id) {
                assert(entry_ids(areas.push((id, name@))) =~= entry_ids(areas).push(id));
            }
        }
    }
}

proof fn lemma_count_kind_positive(events: Seq<TimelineEvent>, kind: TimelineItemType, i: int)
    requires
        0 <= i < events.len(),
        events[i].item_type == kind,
    ensures
        count_kind(events, kind) > 0,
    decreases events.len(),
{
    if i < events.len() - 1 {
        lemma_count_kind_positive(events.drop_last(), kind, i);
    }
}

/// The statistics of a timeline agree with each other: attending since the
/// last referral is attending; being taught in person is being taught; the
/// person has attended exactly when the attendance count is above 0; and
/// has been taught since the last referral is never reported.
pub proof fn law_timeline_stats_consistent(events: Seq<TimelineEvent>, stats: TimelineStats)
    requires
        timeline_stats_hold(events, stats),
    ensures
        stats.2 ==> stats.1,
        stats.5 ==> stats.4,
        stats.1 <==> stats.3 > 0,
        !stats.6,
{
    if stats.2 {
        let i = choose|i: int|
            0 <= i < events.len() && #[trigger] events[i].item_type == TimelineItemType::Sacrament
                && forall|k: int|
                i < k < events.len() ==> events[k].item_type != TimelineItemType::NewReferral;
        lemma_count_kind_positive(events, TimelineItemType::Sacrament, i);
    }
    if stats.5 {
        let i = choose|i: int| 0 <= i < events.len() && #[trigger] is_taught_in_person_event(events[i]);
        assert(is_taught_event(events[i]));
    }
}

/// Whatever comes before the state token, even other fields closed by `",`,
/// the token read is the text between its opening `"stateToken":"` and the
/// first `",` after it: a page `a` + `"stateToken":"` + `t` + `",` + `b`,
/// whose first `"stateToken":"` is the one after `a`, with `t` nonempty and
/// holding no `",`, gives `t`.
pub proof fn law_state_token_is_read_after_its_marker(a: Seq<char>, t: Seq<char>, b: Seq<char>)
    requires
        forall|i: int| 0 <= i < a.len() ==> !occurs_at(a + state_token_start(), state_token_start(), i),
        t.len() > 0,
        forall|j: int| !occurs_at(t, state_token_end(), j),
    ensures
        state_token_outcome(a + state_token_start() + t + state_token_end() + b) == Ok::<Seq<char>, LoginError>(t),
{
    reveal_strlit("\"stateToken\":\"");
    reveal_strlit("\",");
    let m = state_token_start();
    let e = state_token_end();
    let page = a + m + t + e + b;
    let start: int = (a.len() + m.len()) as int;
    let end: int = start + t.len();
    assert forall|i: int| 0 <= i < a.len() implies !occurs_at(page, m, i) by {
        assert(!occurs_at(a + m, m, i));
        if i + m.len() <= page.len() {
            assert(page.subrange(i, i + m.len()) =~= (a + m).subrange(i, i + m.len()));
        }
    }
    assert(page.subrange(a.len() as int, start) =~= m);
    lemma_first_occurrence(page, m, 0, Some(a.len() as int));
    assert forall|j: int| start <= j < end implies !occurs_at(page, e, j) by {
        if j + 2 <= end {
            assert(!occurs_at(t, e, j - start));
            assert(page.subrange(j, j + 2) =~= t.subrange(j - start, j - start + 2));
        } else {
            assert(page[j + 1] == e[0]);
            if occurs_at(page, e, j) {
                assert(page.subrange(j, j + 2)[1] == e[1]);
            }
        }
    }
    assert(page.subrange(end, end + 2) =~= e);
    lemma_first_occurrence(page, e, start, Some(end));
    assert(page.subrange(start, end) =~= t);
}

/// Each whole day between the referral and the contact counts as one full
/// working day: with the referral on an earlier day, moving the contact one
/// day later at the same time of day adds exactly 735 working minutes.
pub proof fn law_each_day_between_adds_a_working_day(referral: DateTime, contact: DateTime)
    requires
        referral.date < contact.date < i32::MAX,
    ensures
        working_minutes(referral, DateTime { date: (contact.date + 1) as i32, ..contact })
            == working_minutes(referral, contact) + 735,
{
}

/// The working minutes when the contact comes `n` days after the referral's
/// day: what is left of the referral's working day, the working part of the
/// contact's day up to the contact, and 735 for each of the `n - 1` days
/// between.
pub proof fn law_working_minutes_over_days(referral: DateTime, contact: DateTime, n: int)
    requires
        n >= 1,
        contact.date == referral.date + n,
    ensures
        working_minutes(referral, contact) == working_minutes(
            referral,
            DateTime { date: referral.date, time: TimeOfDay { secs: END_OF_DAY_SECS, nanos: 0 } },
        ) + working_minutes(
            DateTime { date: contact.date, time: TimeOfDay { secs: START_OF_DAY_SECS, nanos: 0 } },
            contact,
        ) + 735 * (n - 1),
{
}

} // verus!
