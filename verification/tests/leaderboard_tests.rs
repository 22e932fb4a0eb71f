use referral_list::leaderboard::{leaderboard_samples, needs_contact_time, rank_areas, LeaderBoard};
use referral_list::persons::{Person, PersonStatus, ReferralStatus};
use referral_list::time::{DateTime, TimeOfDay};
use referral_list::missionary::{Missionary, MissionaryType, ProsArea};

#[test]
fn areas_ranked_by_average() {
    let samples = vec![(1, 10), (2, 30), (1, 20), (3, 5)];
    assert_eq!(rank_areas(&samples, 10, true), vec![(3, 5), (1, 15), (2, 30)]);
    assert_eq!(rank_areas(&samples, 10, false), vec![(2, 30), (1, 15), (3, 5)]);
    assert_eq!(rank_areas(&samples, 2, true), vec![(3, 5), (1, 15)]);
    assert_eq!(rank_areas(&samples, 0, true), vec![]);
    assert_eq!(rank_areas(&Vec::new(), 3, true), vec![]);
}

#[test]
fn averages_round_down() {
    let samples = vec![(9, 1), (9, 2)];
    assert_eq!(rank_areas(&samples, 1, false), vec![(9, 1)]);
}

#[test]
fn missionaries_are_addressed_by_title() {
    let elder = Missionary::new("John".to_string(), "Smith".to_string(), MissionaryType::Elder, 4);
    let sister = Missionary::new("Jane".to_string(), "Jones".to_string(), MissionaryType::Sister, 4);
    assert_eq!(elder.pretty_print(), "Elder Smith");
    assert_eq!(sister.pretty_print(), "Sister Jones");
    assert_eq!(elder.pros_area_id(), 4);
    assert_eq!(sister.missionary_type(), MissionaryType::Sister);
}

#[test]
fn leaderboard_is_printed_in_order() {
    let mut board = LeaderBoard::new(2);
    let first = ProsArea {
        id: 3,
        area_name: "Riverside".to_string(),
        missionaries: vec![
            Missionary::new("John".to_string(), "Smith".to_string(), MissionaryType::Elder, 3),
            Missionary::new("Tom".to_string(), "Brown".to_string(), MissionaryType::Elder, 3),
        ],
    };
    let second = ProsArea {
        id: 1,
        area_name: "Hilltop".to_string(),
        missionaries: vec![Missionary::new("Jane".to_string(), "Jones".to_string(), MissionaryType::Sister, 1)],
    };
    board.add_area(first, 5);
    board.add_area(second, 15);
    assert_eq!(
        board.pretty_print(),
        "1: Riverside (Elder Smith & Elder Brown): 5 sec\n2: Hilltop (Sister Jones): 15 sec\n"
    );
}

fn in_area(guid: &str, area: Option<usize>) -> Person {
    Person {
        guid: guid.to_string(),
        first_name: guid.to_string(),
        referral_status: ReferralStatus::Successful,
        person_status: PersonStatus::Green,
        mission_id: 1,
        zone_id: None,
        zone_name: None,
        district_id: None,
        area_name: None,
        area_id: area,
        assigned_date: DateTime { date: 738_886, time: TimeOfDay { secs: 0, nanos: 0 } },
        baptism_goal_date: None,
        baptism_date: None,
        last_sacrament_attendance: None,
        response_time: None,
        has_attended_sacrament: None,
        has_attended_since_last_referral: None,
        sacrament_attendence_count: None,
        has_been_taught: None,
        has_been_taught_in_person: None,
        has_been_taught_since_last_referral: None,
        referral_count: None,
        last_timeline_assessment: None,
    }
}

#[test]
fn samples_prefer_stored_times() {
    let people = vec![in_area("a", Some(1)), in_area("b", Some(2)), in_area("c", None), in_area("d", Some(1))];
    let stored = vec![Some(10), None, Some(5), None];
    assert!(!needs_contact_time(&people[0], stored[0]));
    assert!(needs_contact_time(&people[1], stored[1]));
    assert!(!needs_contact_time(&people[2], stored[2]));
    let fetched = vec![None, Some(30), None, None];
    let (samples, to_store) = leaderboard_samples(&people, &stored, &fetched);
    assert_eq!(samples, vec![(1, 10), (2, 30)]);
    assert_eq!(to_store, vec![("b".to_string(), 30)]);
}
