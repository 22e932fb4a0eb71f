//! The weekly report over the whole mission.

use vstd::prelude::*;
use vstd::string::*;
use crate::persons::{Person, PersonStatus, ReferralStatus};
use crate::time::DateTime;
use crate::text::decimal_string;
use crate::text::decimal;
use super::zone_report_daily::AreaAverageResponseTime;
use super::{NamesView, get_average, average_defined, mission_averages, pretty_print_avg_response_time, clone_averages, avg_report_text, sorted_for_report, opt_view};

verus! {

broadcast use vstd::string::group_string_axioms;

/// Nanoseconds in seven days.
pub const WEEK_NANOS: u64 = 604_800_000_000_000;

/// The weekly report: average response times per zone and for the mission,
/// the referrals found, how many were received, and those seen at church.
pub struct AllMissionReportWeekly {
    pub zone_avg_response_time: AreaAverageResponseTime,
    pub referrals_found: Vec<(String, String)>,
    pub referrals_received_count: usize,
    pub referrals_at_church: Vec<(String, String)>,
}

impl Default for AllMissionReportWeekly {
    fn default() -> (r: AllMissionReportWeekly)
        ensures
            r.zone_avg_response_time@.len() == 0,
            r.referrals_found@.len() == 0,
            r.referrals_received_count == 0,
            r.referrals_at_church@.len() == 0,
    {
        AllMissionReportWeekly {
            zone_avg_response_time: Vec::new(),
            referrals_found: Vec::new(),
            referrals_received_count: 0,
            referrals_at_church: Vec::new(),
        }
    }
}

/// A referral counts in the week's list: someone tried to contact them, they
/// are not yet a member or dropped, and they were assigned less than seven days
/// before `now`.
pub open spec fn in_weekly_list(p: Person, now: DateTime) -> bool {
    &&& p.referral_status != ReferralStatus::NotAttempted
    &&& p.person_status.spec_code() < PersonStatus::NewMember.spec_code()
    &&& now.total() - p.assigned_date.total() < 604_800_000_000_000
}

/// A referral in the week's list who has progressed beyond yellow.
pub open spec fn in_weekly_green_list(p: Person, now: DateTime) -> bool {
    in_weekly_list(p, now) && p.person_status != PersonStatus::Yellow
}

/// Whether a referral counts in the week's list.
pub fn full_list_filter(person: &Person, now: &DateTime) -> (b: bool)
    requires
        person.assigned_date.wf(),
        now.wf(),
    ensures
        b == in_weekly_list(*person, *now),
{
    let assigned = &person.assigned_date;
    let day_nanos: i128 = 86_400_000_000_000;
    let now_total: i128 = now.date as i128 * day_nanos + now.time.secs as i128 * 1_000_000_000
        + now.time.nanos as i128;
    let assigned_total: i128 = assigned.date as i128 * day_nanos + assigned.time.secs as i128
        * 1_000_000_000 + assigned.time.nanos as i128;
    assert(-100_000_000 * 86_400_000_000_000 <= now.date * 86_400_000_000_000 <= 100_000_000
        * 86_400_000_000_000) by (nonlinear_arith)
        requires -100_000_000 <= now.date <= 100_000_000;
    assert(-100_000_000 * 86_400_000_000_000 <= assigned.date * 86_400_000_000_000 <= 100_000_000
        * 86_400_000_000_000) by (nonlinear_arith)
        requires -100_000_000 <= assigned.date <= 100_000_000;
    person.referral_status != ReferralStatus::NotAttempted && person.person_status.precedes(
        &PersonStatus::NewMember,
    ) && now_total - assigned_total < WEEK_NANOS as i128
}

/// Whether a referral in the week's list has progressed beyond yellow.
pub fn green_list_filter(person: &Person, now: &DateTime) -> (b: bool)
    requires
        person.assigned_date.wf(),
        now.wf(),
    ensures
        b == in_weekly_green_list(*person, *now),
{
    full_list_filter(person, now) && person.person_status != PersonStatus::Yellow
}

/// Identifier and first name of each person in order whose status is before
/// new member and beyond yellow.
pub open spec fn referrals_found(ps: Seq<Person>) -> NamesView
    decreases ps.len(),
{
    if ps.len() == 0 {
        Seq::empty()
    } else {
        let p = ps.last();
        referrals_found(ps.drop_last()) + if p.person_status.spec_code()
            < PersonStatus::NewMember.spec_code() && p.person_status != PersonStatus::Yellow {
            seq![(p.guid@, p.first_name@)]
        } else {
            Seq::empty()
        }
    }
}

/// Identifier and first name of each person in order who has attended
/// sacrament meeting since their last referral.
pub open spec fn referrals_at_church(ps: Seq<Person>) -> NamesView
    decreases ps.len(),
{
    if ps.len() == 0 {
        Seq::empty()
    } else {
        let p = ps.last();
        referrals_at_church(ps.drop_last()) + if p.has_attended_since_last_referral == Some(true) {
            seq![(p.guid@, p.first_name@)]
        } else {
            Seq::empty()
        }
    }
}

/// The referrals that were found: status before new member and beyond yellow.
pub fn get_referrals_found(people_list: &Vec<Person>) -> (res: Vec<(String, String)>)
    ensures
        res.deep_view() == referrals_found(people_list@),
{
    let mut res: Vec<(String, String)> = Vec::new();
    let mut i: usize = 0;
    while i < people_list.len()
        invariant
            i <= people_list@.len(),
            res.deep_view() == referrals_found(people_list@.take(i as int)),
        decreases people_list@.len() - i,
    {
        let person = &people_list[i];
        let ghost before = res.deep_view();
        assert(people_list@.take(i + 1).drop_last() =~= people_list@.take(i as int));
        assert(people_list@.take(i + 1).last() == people_list@[i as int]);
        if person.person_status.precedes(&PersonStatus::NewMember) && person.person_status
            != PersonStatus::Yellow {
            res.push((person.guid.clone(), person.first_name.clone()));
            assert(res.deep_view() =~= before + seq![(person.guid@, person.first_name@)]);
        } else {
            assert(before =~= before + Seq::<(Seq<char>, Seq<char>)>::empty());
        }
        i = i + 1;
    }
    assert(people_list@.take(people_list@.len() as int) =~= people_list@);
    res
}

/// The referrals who have attended sacrament meeting since their last
/// referral.
pub fn get_referrals_at_church_count(people_list: &Vec<Person>) -> (res: Vec<(String, String)>)
    ensures
        res.deep_view() == referrals_at_church(people_list@),
{
    let mut res: Vec<(String, String)> = Vec::new();
    let mut i: usize = 0;
    while i < people_list.len()
        invariant
            i <= people_list@.len(),
            res.deep_view() == referrals_at_church(people_list@.take(i as int)),
        decreases people_list@.len() - i,
    {
        let person = &people_list[i];
        let ghost before = res.deep_view();
        assert(people_list@.take(i + 1).drop_last() =~= people_list@.take(i as int));
        assert(people_list@.take(i + 1).last() == people_list@[i as int]);
        if person.has_attended_since_last_referral == Some(true) {
            res.push((person.guid.clone(), person.first_name.clone()));
            assert(res.deep_view() =~= before + seq![(person.guid@, person.first_name@)]);
        } else {
            assert(before =~= before + Seq::<(Seq<char>, Seq<char>)>::empty());
        }
        i = i + 1;
    }
    assert(people_list@.take(people_list@.len() as int) =~= people_list@);
    res
}

/// The text of the weekly report, given the averages in the order they are
/// printed and the percentage of referrals taught as already formatted.
pub open spec fn weekly_report_text(
    report: AllMissionReportWeekly,
    order: Seq<(Seq<char>, (NamesView, usize))>,
    percentage: Seq<char>,
) -> Seq<char> {
    "Average Response Time:\n"@ + avg_report_text(order) + "\n\nPercent Referrals Taught: "@
        + decimal(report.referrals_found@.len()) + "/"@ + decimal(
        report.referrals_received_count as nat,
    ) + " ("@ + percentage + ")\nReferrals at Sacrament Meeting: "@ + decimal(
        report.referrals_at_church@.len(),
    )
}

impl AllMissionReportWeekly {
    /// The report for the week: averages over the whole week's list, the
    /// referrals found and seen at church among those beyond yellow.
    pub fn from_people_lists(green_people_list: Vec<Person>, full_people_list: Vec<Person>) -> (report: AllMissionReportWeekly)
        requires
            average_defined(None, full_people_list@),
        ensures
            report.zone_avg_response_time.deep_view() == mission_averages(full_people_list@),
            report.referrals_found.deep_view() == referrals_found(green_people_list@),
            report.referrals_received_count == full_people_list@.len(),
            report.referrals_at_church.deep_view() == referrals_at_church(green_people_list@),
    {
        assert(opt_view(None) == None::<Seq<char>>);
        let zone_avg_response_time = get_average(None, &full_people_list);
        let referrals_received_count = full_people_list.len();
        let referrals_at_church = get_referrals_at_church_count(&green_people_list);
        let referrals_found = get_referrals_found(&green_people_list);
        AllMissionReportWeekly {
            zone_avg_response_time,
            referrals_found,
            referrals_received_count,
            referrals_at_church,
        }
    }

    /// The report as text. `percentage` is the share of received referrals
    /// that were found, already formatted.
    pub fn pretty_print_report(&self, percentage: &str) -> (output: String)
        ensures
            exists|order: Seq<(Seq<char>, (NamesView, usize))>|
                order.to_multiset() == self.zone_avg_response_time.deep_view().to_multiset()
                    && sorted_for_report(order, true) && output@ == weekly_report_text(
                    *self,
                    order,
                    percentage@,
                ),
    {
        let zone_average = pretty_print_avg_response_time(clone_averages(&self.zone_avg_response_time));
        let mut output = String::new();
        output.append("Average Response Time:\n");
        output.append(zone_average.as_str());
        output.append("\n\nPercent Referrals Taught: ");
        output.append(decimal_string(self.referrals_found.len() as u64).as_str());
        output.append("/");
        output.append(decimal_string(self.referrals_received_count as u64).as_str());
        output.append(" (");
        output.append(percentage);
        output.append(")\nReferrals at Sacrament Meeting: ");
        output.append(decimal_string(self.referrals_at_church.len() as u64).as_str());
        output
    }
}

/// Only a referral nobody tried to contact is left out of the week's list
/// for its referral status: a successful and an unsuccessful attempt count
/// alike, and a referral not attempted never counts.
pub proof fn law_only_unattempted_referrals_are_left_out(p: Person, now: DateTime, status: ReferralStatus)
    requires
        p.referral_status != ReferralStatus::NotAttempted,
        status != ReferralStatus::NotAttempted,
    ensures
        in_weekly_list(Person { referral_status: status, ..p }, now) == in_weekly_list(p, now),
        !in_weekly_list(Person { referral_status: ReferralStatus::NotAttempted, ..p }, now),
{
}

/// An attempted referral not yet a member (yellow or one of the greens),
/// assigned less than seven days ago, is in the week's list; one that is a
/// new member or further on, or was assigned seven days ago or more, is not.
pub proof fn law_recent_attempted_referrals_are_counted(p: Person, now: DateTime)
    ensures
        (p.referral_status != ReferralStatus::NotAttempted && (p.person_status == PersonStatus::Yellow
            || p.person_status == PersonStatus::Green || p.person_status == PersonStatus::BetterGreen
            || p.person_status == PersonStatus::ProgressingGreen) && now.total() - p.assigned_date.total()
            < 7 * 86_400 * 1_000_000_000) ==> in_weekly_list(p, now),
        (p.person_status == PersonStatus::NewMember || p.person_status == PersonStatus::Member
            || now.total() - p.assigned_date.total() >= 7 * 86_400 * 1_000_000_000) ==> !in_weekly_list(p, now),
{
}

} // verus!
