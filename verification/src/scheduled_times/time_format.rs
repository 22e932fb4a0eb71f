//! The `HH:MM` text in which a send time is stored.

use vstd::prelude::*;
use vstd::string::*;
use chrono::Timelike;
use crate::text::digit_char;
use crate::time::TimeOfDay;

verus! {

broadcast use vstd::string::group_string_axioms;

/// A number below 100 as two decimal digits.
pub open spec fn two_digits(n: nat) -> Seq<char> {
    seq![digit_char(n / 10), digit_char(n % 10)]
}

/// A time of day as `HH:MM`, hours and minutes zero-padded to two digits.
pub open spec fn hh_mm(t: TimeOfDay) -> Seq<char> {
    two_digits((t.secs / 3600) as nat) + seq![':'] + two_digits(((t.secs % 3600) / 60) as nat)
}

fn push_two_digits(out: &mut String, n: u32)
    requires
        n < 100,
    ensures
        final(out)@ == old(out)@ + two_digits(n as nat),
{
    let digits = "0123456789";
    proof {
        reveal_strlit("0123456789");
    }
    let tens = (n / 10) as usize;
    let ones = (n % 10) as usize;
    out.append(digits.substring_char(tens, tens + 1));
    out.append(digits.substring_char(ones, ones + 1));
    assert(digits@.subrange(tens as int, tens + 1) =~= seq![digit_char((n / 10) as nat)]);
    assert(digits@.subrange(ones as int, ones + 1) =~= seq![digit_char((n % 10) as nat)]);
}

/// Writes a send time as `HH:MM`.
pub fn serialize(time: &TimeOfDay) -> (text: String)
    requires
        time.wf(),
    ensures
        text@ == hh_mm(*time),
{
    proof {
        reveal_strlit(":");
    }
    let mut text = String::new();
    push_two_digits(&mut text, time.secs / 3600);
    text.append(":");
    push_two_digits(&mut text, (time.secs % 3600) / 60);
    text
}

/// What `chrono::NaiveTime::parse_from_str` makes of a text with the format
/// `%H:%M`: the hour and the minute, or `None` where it reports an error.
pub uninterp spec fn parsed_hh_mm(text: Seq<char>) -> Option<(u32, u32)>;

/// Reads a time of day in the format `%H:%M` with chrono.
/// Trusted: the result is `parsed_hh_mm` of the text, with an hour below 24
/// and a minute below 60 (a `NaiveTime` holds no other); chrono's parsing
/// rules themselves are not restated.
#[verifier::external_body]
fn parse_hh_mm(text: &str) -> (res: Option<(u32, u32)>)
    ensures
        res == parsed_hh_mm(text@),
        res matches Some((h, m)) ==> h < 24 && m < 60,
{
    match chrono::NaiveTime::parse_from_str(text, "%H:%M") {
        Ok(t) => Some((t.hour(), t.minute())),
        Err(_) => None,
    }
}

/// Reads a send time stored as `HH:MM`: the time at that hour and minute,
/// or `None` where the text is not such a time.
pub fn deserialize(text: &str) -> (res: Option<TimeOfDay>)
    ensures
        match parsed_hh_mm(text@) {
            Some((h, m)) => res == Some(TimeOfDay { secs: (h * 3600 + m * 60) as u32, nanos: 0 }),
            None => res is None,
        },
        res matches Some(t) ==> t.wf(),
{
    match parse_hh_mm(text) {
        Some((h, m)) => Some(TimeOfDay::from_hm(h, m)),
        None => None,
    }
}

} // verus!
