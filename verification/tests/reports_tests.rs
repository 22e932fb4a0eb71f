use referral_list::persons::{Person, PersonStatus, ReferralStatus};
use referral_list::reports::all_mission_report_weekly::{
    full_list_filter, get_referrals_at_church_count, get_referrals_found, green_list_filter,
    AllMissionReportWeekly,
};
use referral_list::reports::zone_report_daily::{unattempted_filter, ZoneReportDaily, ZoneReportDailyMap};
use referral_list::reports::{
    aggregate_zones_areas, average_is_defined, get_average, get_uncontacted,
    pretty_print_avg_response_time, sort_for_report,
};
use referral_list::time::{DateTime, TimeOfDay};

fn at(date: i32, hours: u32) -> DateTime {
    DateTime { date, time: TimeOfDay { secs: hours * 3600, nanos: 0 } }
}

fn person(guid: &str, name: &str, zone: Option<&str>, area: Option<&str>, response_time: Option<usize>) -> Person {
    Person {
        guid: guid.to_string(),
        first_name: name.to_string(),
        referral_status: ReferralStatus::Successful,
        person_status: PersonStatus::Green,
        mission_id: 1,
        zone_id: None,
        zone_name: zone.map(|z| z.to_string()),
        district_id: None,
        area_name: area.map(|a| a.to_string()),
        area_id: None,
        assigned_date: at(738_886, 12),
        baptism_goal_date: None,
        baptism_date: None,
        last_sacrament_attendance: None,
        response_time,
        has_attended_sacrament: None,
        has_attended_since_last_referral: None,
        sacrament_attendence_count: None,
        has_been_taught: None,
        has_been_taught_in_person: None,
        has_been_taught_since_last_referral: None,
        referral_count: None,
        last_timeline_assessment: None,
    }
}

fn people() -> Vec<Person> {
    vec![
        person("g1", "Ann", Some("Z1"), Some("A1"), Some(30)),
        person("g2", "Bob", Some("Z1"), Some("A2"), Some(150)),
        person("g3", "Cat", Some("Z2"), Some("A3"), Some(60)),
        person("g4", "Dan", Some("Z1"), Some("A1"), None),
        person("g5", "Eve", None, Some("A1"), Some(1000)),
    ]
}

fn names(pairs: &[(&str, &str)]) -> Vec<(String, String)> {
    pairs.iter().map(|(g, n)| (g.to_string(), n.to_string())).collect()
}

#[test]
fn zones_and_areas_in_first_order() {
    let aggregated = aggregate_zones_areas(&people(), |p: &Person| p.guid.clone());
    assert_eq!(
        aggregated,
        vec![
            ("Z1".to_string(), vec![("A1".to_string(), "g1".to_string()), ("A2".to_string(), "g2".to_string())]),
            ("Z2".to_string(), vec![("A3".to_string(), "g3".to_string())]),
        ]
    );
}

#[test]
fn aggregation_calls_value_once_per_pair() {
    let list = vec![
        person("g1", "Ann", Some("Z1"), Some("A1"), None),
        person("g2", "Bob", Some("Z1"), Some("A1"), None),
        person("g3", "Cat", Some("Z1"), Some("A2"), None),
        person("g4", "Dan", None, Some("A1"), None),
    ];
    let calls = std::cell::RefCell::new(Vec::new());
    let aggregated = aggregate_zones_areas(&list, |p: &Person| {
        calls.borrow_mut().push(p.guid.clone());
        p.guid.clone()
    });
    assert_eq!(
        aggregated,
        vec![("Z1".to_string(), vec![("A1".to_string(), "g1".to_string()), ("A2".to_string(), "g3".to_string())])]
    );
    assert_eq!(calls.into_inner(), vec!["g1".to_string(), "g3".to_string()]);
}

#[test]
fn mission_averages_per_zone() {
    let list = people();
    assert!(average_is_defined(&None, &list));
    assert_eq!(
        get_average(None, &list),
        vec![
            ("Z1".to_string(), (names(&[("g1", "Ann"), ("g2", "Bob")]), 90)),
            ("Z2".to_string(), (names(&[("g3", "Cat")]), 60)),
            ("Mission Total".to_string(), (names(&[("g1", "Ann"), ("g2", "Bob"), ("g3", "Cat")]), 80)),
        ]
    );
}

#[test]
fn zone_averages_per_area() {
    let list = people();
    let zone = Some("Z1".to_string());
    assert!(average_is_defined(&zone, &list));
    assert_eq!(
        get_average(zone, &list),
        vec![
            ("A1".to_string(), (names(&[("g1", "Ann")]), 30)),
            ("A2".to_string(), (names(&[("g2", "Bob")]), 180)),
            ("Zone Total".to_string(), (names(&[("g1", "Ann"), ("g2", "Bob")]), 90)),
        ]
    );
    assert_eq!(get_average(Some("Nowhere".to_string()), &list), vec![]);
}

#[test]
fn averages_undefined_without_timed_people() {
    let list = vec![person("g1", "Ann", Some("Z1"), Some("A1"), None)];
    assert!(!average_is_defined(&None, &list));
    assert!(!average_is_defined(&Some("Z1".to_string()), &list));
    assert!(average_is_defined(&Some("Z9".to_string()), &list));
    assert!(!average_is_defined(&None, &Vec::new()));
}

#[test]
fn uncontacted_per_zone_and_area() {
    let list = people();
    assert_eq!(
        get_uncontacted(None, &list),
        vec![
            ("Z1".to_string(), names(&[("g1", "Ann"), ("g4", "Dan"), ("g2", "Bob")])),
            ("Z2".to_string(), names(&[("g3", "Cat")])),
        ]
    );
    assert_eq!(
        get_uncontacted(Some("Z1".to_string()), &list),
        vec![
            ("A1".to_string(), names(&[("g1", "Ann"), ("g4", "Dan")])),
            ("A2".to_string(), names(&[("g2", "Bob")])),
        ]
    );
    assert_eq!(get_uncontacted(Some("Z7".to_string()), &list), vec![]);
}

#[test]
fn averages_printed_totals_first() {
    let averages = get_average(None, &people());
    assert_eq!(
        pretty_print_avg_response_time(averages),
        "Mission Total:\nReceived: 3, Avg: 1h 20m\n\nZ1:\nReceived: 2, Avg: 1h 30m\n\nZ2:\nReceived: 1, Avg: 1h 0m\n\n"
    );
}

#[test]
fn report_order_alphabetical() {
    let entries = vec![("b".to_string(), 1usize), ("Total b".to_string(), 2usize), ("a".to_string(), 3usize)];
    let plain = sort_for_report(entries.clone(), false);
    assert_eq!(plain.iter().map(|e| e.0.as_str()).collect::<Vec<_>>(), vec!["Total b", "a", "b"]);
    let totals = sort_for_report(entries, true);
    assert_eq!(totals.iter().map(|e| e.0.as_str()).collect::<Vec<_>>(), vec!["Total b", "a", "b"]);
    let more = vec![("Zone Total".to_string(), 0usize), ("A".to_string(), 0usize)];
    assert_eq!(sort_for_report(more.clone(), false)[0].0, "A");
    assert_eq!(sort_for_report(more, true)[0].0, "Zone Total");
}

#[test]
fn referrals_found_are_beyond_yellow() {
    let mut list = people();
    list[1].person_status = PersonStatus::Yellow;
    list[2].person_status = PersonStatus::NewMember;
    list[3].person_status = PersonStatus::ProgressingGreen;
    assert_eq!(get_referrals_found(&list), names(&[("g1", "Ann"), ("g4", "Dan"), ("g5", "Eve")]));
}

#[test]
fn referrals_at_church_attended_since_referral() {
    let mut list = people();
    list[0].has_attended_since_last_referral = Some(true);
    list[1].has_attended_since_last_referral = Some(false);
    list[4].has_attended_since_last_referral = Some(true);
    assert_eq!(get_referrals_at_church_count(&list), names(&[("g1", "Ann"), ("g5", "Eve")]));
}

#[test]
fn weekly_filters() {
    let now = at(738_890, 12);
    let mut p = person("g1", "Ann", Some("Z1"), Some("A1"), None);
    assert!(full_list_filter(&p, &now));
    assert!(green_list_filter(&p, &now));
    p.person_status = PersonStatus::Yellow;
    assert!(full_list_filter(&p, &now));
    assert!(!green_list_filter(&p, &now));
    p.referral_status = ReferralStatus::NotAttempted;
    assert!(!full_list_filter(&p, &now));
    let mut old = person("g2", "Bob", Some("Z1"), Some("A1"), None);
    old.assigned_date = at(738_883, 12);
    assert!(!full_list_filter(&old, &now));
    old.assigned_date = DateTime { date: 738_883, time: TimeOfDay { secs: 12 * 3600, nanos: 1 } };
    assert!(full_list_filter(&old, &now));
    let mut member = person("g3", "Cat", Some("Z1"), Some("A1"), None);
    member.person_status = PersonStatus::Member;
    assert!(!full_list_filter(&member, &now));
}

#[test]
fn weekly_report_text() {
    let full = people();
    let mut green = people();
    green.truncate(2);
    green[0].has_attended_since_last_referral = Some(true);
    let report = AllMissionReportWeekly::from_people_lists(green, full);
    assert_eq!(report.referrals_received_count, 5);
    assert_eq!(report.referrals_found.len(), 2);
    assert_eq!(report.referrals_at_church, names(&[("g1", "Ann")]));
    assert_eq!(
        report.pretty_print_report("40.00%"),
        "Average Response Time:\nMission Total:\nReceived: 3, Avg: 1h 20m\n\nZ1:\nReceived: 2, Avg: 1h 30m\n\nZ2:\nReceived: 1, Avg: 1h 0m\n\n\n\nPercent Referrals Taught: 2/5 (40.00%)\nReferrals at Sacrament Meeting: 1"
    );
    let empty = AllMissionReportWeekly::default();
    assert_eq!(empty.referrals_received_count, 0);
    assert!(empty.zone_avg_response_time.is_empty());
}

fn zone_report() -> ZoneReportDaily {
    let list = people();
    ZoneReportDaily {
        area_avg_response_time: get_average(Some("Z1".to_string()), &list),
        area_unattempted_count: vec![
            ("A2".to_string(), names(&[("g2", "Bob")])),
            ("A1".to_string(), names(&[("g1", "Ann"), ("g4", "Dan")])),
        ],
    }
}

const ZONE_AVERAGES: &str = "Zone Total:\nReceived: 2, Avg: 1h 30m\n\nA1:\nReceived: 1, Avg: 0h 30m\n\nA2:\nReceived: 1, Avg: 3h 0m\n\n";

#[test]
fn zone_template_vars() {
    assert_eq!(
        zone_report().get_vars_for_template(),
        vec![
            ("area_avg_response_time".to_string(), ZONE_AVERAGES.to_string()),
            ("area_unattempted_count".to_string(), "A1: 2\nA2: 1\n".to_string()),
        ]
    );
}

#[test]
fn zone_message_fills_template() {
    let message = zone_report().render_message("Daily\n{area_avg_response_time}--\n{area_unattempted_count}end {unknown}");
    assert_eq!(message, format!("Daily\n{ZONE_AVERAGES}--\nA1: 2\nA2: 1\nend {{unknown}}"));
}

#[test]
fn zone_printed_under_name() {
    assert_eq!(
        zone_report().pretty_print_zone("Z1"),
        format!("Z1:\nAverage Response time:\n{ZONE_AVERAGES}\nUnattempted Contacted Referrals:\nA1: 2\nA2: 1\n\n")
    );
}

#[test]
fn daily_reports_by_zone() {
    let timed = people();
    let unattempted = vec![person("u1", "Uma", Some("Z1"), Some("A2"), None)];
    let zones = vec![(1usize, Some("Z1".to_string())), (2usize, None)];
    let map = ZoneReportDailyMap::generate_report(&zones, &timed, &unattempted);
    assert_eq!(map.0.len(), 2);
    let z1 = &map.0[&1];
    assert_eq!(z1.area_avg_response_time, get_average(Some("Z1".to_string()), &timed));
    assert_eq!(z1.area_unattempted_count, vec![("A2".to_string(), names(&[("u1", "Uma")]))]);
    let whole = &map.0[&2];
    assert_eq!(whole.area_avg_response_time, get_average(None, &timed));
    assert_eq!(whole.area_unattempted_count, vec![("Z1".to_string(), names(&[("u1", "Uma")]))]);
    assert!(ZoneReportDailyMap::default().0.is_empty());
}

#[test]
fn daily_reports_printed_by_zone_name() {
    let timed = people();
    let unattempted = vec![person("u1", "Uma", Some("Z1"), Some("A2"), None)];
    let zones = vec![(1usize, Some("Z1".to_string()))];
    let map = ZoneReportDailyMap::generate_report(&zones, &timed, &unattempted);
    let names = vec![(9usize, "Unknown".to_string()), (1usize, "Z1".to_string())];
    let expected = map.0[&1].pretty_print_zone("Z1");
    assert!(expected.starts_with("Z1:\nAverage Response time:\nZone Total:"));
    assert_eq!(map.pretty_print_report(&names), expected);
    assert_eq!(map.pretty_print_report(&Vec::new()), "");
}

#[test]
fn unattempted_referrals() {
    let mut p = person("g1", "Ann", Some("Z1"), Some("A1"), None);
    assert!(!unattempted_filter(&p));
    p.referral_status = ReferralStatus::NotAttempted;
    assert!(unattempted_filter(&p));
}
