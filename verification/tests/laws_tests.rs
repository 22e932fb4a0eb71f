use referral_list::reports::{get_average, get_uncontacted};
use referral_list::church::{decode_escape_sequences, get_timeline_stats};
use referral_list::persons::{TimelineContactType, TimelineEvent, TimelineItemType};
use referral_list::scheduled_times::{Frequency, ScheduleEntry};
use referral_list::time::{weekday_of, DateTime, TimeOfDay, Weekday};

fn at(date: i32, hours: u32) -> DateTime {
    DateTime { date, time: TimeOfDay { secs: hours * 3600, nanos: 0 } }
}

#[test]
fn law_plain_token_is_unchanged() {
    for token in ["abc-DEF_123", "x2D", "", "a.b/c=d"] {
        assert_eq!(decode_escape_sequences(token), token);
    }
}

#[test]
fn law_timeline_stats_agree() {
    let kinds = [
        TimelineItemType::NewReferral,
        TimelineItemType::Sacrament,
        TimelineItemType::Teaching,
        TimelineItemType::Contact,
    ];
    for mask in 0u32..256 {
        let mut timeline = Vec::new();
        for k in 0..4 {
            let kind = kinds[((mask >> (2 * k)) & 3) as usize];
            let mut e = TimelineEvent { item_type: kind, item_date: at(738_880 + k as i32, 12), contact_type: None, status: Some(true) };
            if k % 2 == 0 {
                e.contact_type = Some(TimelineContactType::InPerson);
            }
            timeline.push(e);
        }
        let s = get_timeline_stats(&timeline, None, None);
        assert!(!s.2 || s.1);
        assert!(!s.5 || s.4);
        assert_eq!(s.1, s.3 > 0);
        assert!(!s.6);
    }
}

#[test]
fn law_weekly_sending_is_upcoming_on_its_weekday() {
    let monday = 7 * 105_555 + 1;
    for target in [Weekday::Mon, Weekday::Wed, Weekday::Sun] {
        for offset in 0..7 {
            for hour in [8, 10] {
                let now = at(monday + offset, hour);
                let mut e = ScheduleEntry { last: at(1, 0), next: at(1, 0), frequency: Frequency::Weekly, send_time: TimeOfDay::from_hm(9, 0), day: Some(target) };
                e.set_next(now);
                assert!(e.next.date > now.date || (e.next.date == now.date && e.next.time.secs > now.time.secs));
                assert!(e.next.date <= now.date + 7);
                assert_eq!(weekday_of(e.next.date), target);
            }
        }
    }
}

#[test]
fn law_due_sending_not_repeated() {
    let monday = 7 * 105_555 + 1;
    let mut e = ScheduleEntry { last: at(monday - 7, 9), next: at(monday, 9), frequency: Frequency::Weekly, send_time: TimeOfDay::from_hm(9, 0), day: Some(Weekday::Mon) };
    let now = at(monday, 11);
    assert!(e.is_go_time(now));
    assert!(!e.is_go_time(now));
    assert_eq!(e.next, at(monday + 7, 9));
}

fn placed(guid: &str, zone: &str, area: &str, response_time: Option<usize>) -> referral_list::persons::Person {
    referral_list::persons::Person {
        guid: guid.to_string(),
        first_name: guid.to_uppercase(),
        referral_status: referral_list::persons::ReferralStatus::Successful,
        person_status: referral_list::persons::PersonStatus::Green,
        mission_id: 1,
        zone_id: None,
        zone_name: Some(zone.to_string()),
        district_id: None,
        area_name: Some(area.to_string()),
        area_id: None,
        assigned_date: at(738_886, 12),
        baptism_goal_date: None,
        baptism_date: None,
        last_sacrament_attendance: None,
        response_time,
        has_attended_sacrament: None,
        has_attended_since_last_referral: None,
        sacrament_attendence_count: None,
        has_been_taught: None,
        has_been_taught_in_person: None,
        has_been_taught_since_last_referral: None,
        referral_count: None,
        last_timeline_assessment: None,
    }
}

#[test]
fn law_report_names_are_distinct() {
    let people = vec![
        placed("a", "Z", "A1", Some(10)),
        placed("b", "Z", "A1", Some(20)),
        placed("c", "Z", "A2", Some(30)),
        placed("d", "Y", "B1", Some(40)),
        placed("e", "Z", "A2", None),
        placed("f", "Mission Total", "T", Some(5)),
    ];
    for zone in [None, Some("Z".to_string()), Some("Y".to_string())] {
        let averages = get_average(zone.clone(), &people);
        let mut names: Vec<&String> = averages.iter().map(|e| &e.0).collect();
        let n = names.len();
        names.sort();
        names.dedup();
        assert_eq!(names.len(), n);
        let lists = get_uncontacted(zone, &people);
        let mut names: Vec<&String> = lists.iter().map(|e| &e.0).collect();
        let n = names.len();
        names.sort();
        names.dedup();
        assert_eq!(names.len(), n);
    }
    // A zone named like the total is merged into the total's entry.
    let averages = get_average(None, &people);
    assert_eq!(averages.len(), 3);
    assert_eq!(averages[2].0, "Mission Total");
    assert_eq!(averages[2].1 .1, 21);
}

#[test]
fn law_untimed_person_changes_no_average() {
    let people = vec![
        placed("a", "Z", "A1", Some(10)),
        placed("b", "Z", "A2", Some(20)),
        placed("c", "Y", "B1", Some(40)),
    ];
    let mut unplaced = placed("u", "Z", "A1", None);
    unplaced.zone_name = None;
    for (q, at) in [(placed("q", "Z", "A1", None), 1), (placed("q", "Y", "B1", None), 3), (unplaced, 0)] {
        let mut more = people.clone();
        more.insert(at, q);
        for zone in [None, Some("Z".to_string()), Some("Y".to_string())] {
            assert_eq!(get_average(zone.clone(), &more), get_average(zone, &people));
        }
    }
}

fn sorted_report(
    mut report: Vec<(String, (Vec<(String, String)>, usize))>,
) -> Vec<(String, (Vec<(String, String)>, usize))> {
    for entry in report.iter_mut() {
        entry.1 .0.sort();
    }
    report.sort();
    report
}

#[test]
fn law_untimed_person_keeps_mission_report() {
    let people = vec![
        placed("a", "Z", "A2", Some(10)),
        placed("b", "Y", "B1", Some(40)),
        placed("c", "Z", "A1", Some(20)),
    ];
    let before = get_average(None, &people);
    for k in 0..=people.len() {
        for q in [placed("q", "Z", "A1", None), placed("q", "Y", "B1", None)] {
            let mut more = people.clone();
            more.insert(k, q);
            let after = get_average(None, &more);
            assert_eq!(sorted_report(after), sorted_report(before.clone()));
        }
    }
    // Added in front, the person puts zone Y's entry first: same entries, another order.
    let mut more = people.clone();
    more.insert(0, placed("q", "Y", "B1", None));
    let after = get_average(None, &more);
    assert_eq!(after[0].0, "Y");
    assert_eq!(before[0].0, "Z");
    assert_eq!(after[1], before[0]);
    assert_eq!(after[0], before[1]);
}
