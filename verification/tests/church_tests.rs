use referral_list::church::{
    after_failed_try, cached_people_list_source, decode_escape_sequences, extract_state_token,
    extract_valid_file_timestamp, get_adjusted_contact_time, get_timeline_stats,
    introspect_request_body, list_file_name, parse_state_token, readings_fit, scan_contact,
    try_parse_state_token, working_minutes_between, zone_and_area_ids, FetchStep, ListSource,
    LoginError, MAX_RETRIES,
};
use referral_list::persons::{
    filter_people, Person, PersonStatus, ReferralStatus, TimelineContactType, TimelineEvent, TimelineItemType,
};
use referral_list::scheduled_times::RefetchPolicy;
use referral_list::time::{DateTime, TimeOfDay};

fn at(date: i32, hours: u32, minutes: u32) -> DateTime {
    DateTime { date, time: TimeOfDay { secs: hours * 3600 + minutes * 60, nanos: 0 } }
}

fn event(item_type: TimelineItemType, date: DateTime, status: Option<bool>) -> TimelineEvent {
    TimelineEvent { item_type, item_date: date, contact_type: None, status }
}

fn placed_person(guid: &str, zone: Option<(usize, &str)>, area: Option<(usize, &str)>) -> Person {
    Person {
        guid: guid.to_string(),
        first_name: format!("name-{guid}"),
        referral_status: ReferralStatus::Successful,
        person_status: PersonStatus::Green,
        mission_id: 1,
        zone_id: zone.map(|z| z.0),
        zone_name: zone.map(|z| z.1.to_string()),
        district_id: None,
        area_name: area.map(|a| a.1.to_string()),
        area_id: area.map(|a| a.0),
        assigned_date: at(738_886, 12, 0),
        baptism_goal_date: None,
        baptism_date: None,
        last_sacrament_attendance: None,
        response_time: None,
        has_attended_sacrament: None,
        has_attended_since_last_referral: None,
        sacrament_attendence_count: None,
        has_been_taught: None,
        has_been_taught_in_person: None,
        has_been_taught_since_last_referral: None,
        referral_count: None,
        last_timeline_assessment: None,
    }
}

#[test]
fn working_minutes_same_day_start_at_ten() {
    assert_eq!(working_minutes_between(at(738_886, 9, 0), at(738_886, 11, 0)), 60);
}

#[test]
fn working_minutes_same_day_before_start() {
    assert_eq!(working_minutes_between(at(738_886, 8, 0), at(738_886, 9, 0)), 0);
}

#[test]
fn working_minutes_same_day_after_end() {
    assert_eq!(working_minutes_between(at(738_886, 21, 0), at(738_886, 23, 30)), 75);
}

#[test]
fn working_minutes_partial_minutes_round_down() {
    let from = at(738_886, 10, 0);
    let to = DateTime { date: 738_886, time: TimeOfDay { secs: 10 * 3600 + 30 * 60 + 59, nanos: 999 } };
    assert_eq!(working_minutes_between(from, to), 30);
}

#[test]
fn working_minutes_across_days() {
    // 21:00 to 22:15 on the first day, a full day between, 10:00 to 11:00 on the last.
    assert_eq!(working_minutes_between(at(738_886, 21, 0), at(738_888, 11, 0)), 75 + 735 + 60);
}

#[test]
fn working_minutes_overnight_outside_hours() {
    assert_eq!(working_minutes_between(at(738_886, 23, 0), at(738_887, 9, 0)), 0);
}

#[test]
fn adjusted_contact_time_needs_both_dates() {
    assert_eq!(get_adjusted_contact_time(None, None), None);
    assert_eq!(get_adjusted_contact_time(Some(at(738_886, 12, 0)), None), None);
    assert_eq!(get_adjusted_contact_time(None, Some(at(738_886, 12, 0))), None);
}

#[test]
fn adjusted_contact_time_same_instant_is_zero() {
    let t = at(738_886, 12, 0);
    assert_eq!(get_adjusted_contact_time(Some(t), Some(t)), Some(0));
}

#[test]
fn adjusted_contact_time_counts_working_hours_of_the_local_readings() {
    // Both readings before ten in the morning: nothing counts.
    assert_eq!(get_adjusted_contact_time(Some(at(738_886, 3, 0)), Some(at(738_886, 5, 0))), Some(0));
    // Nine to eleven: only the hour after ten counts.
    assert_eq!(get_adjusted_contact_time(Some(at(738_886, 9, 0)), Some(at(738_886, 11, 0))), Some(60));
    // Eight in the evening to eleven the next morning: 135 + 60 minutes.
    assert_eq!(get_adjusted_contact_time(Some(at(738_886, 20, 0)), Some(at(738_887, 11, 0))), Some(195));
}

#[test]
fn readings_fit_checks_range_and_span() {
    assert!(readings_fit(None, None));
    assert!(readings_fit(Some(at(738_886, 9, 0)), Some(at(738_887, 11, 0))));
    assert!(readings_fit(Some(at(738_886, 9, 0)), None));
    let bad_time = DateTime { date: 738_886, time: TimeOfDay { secs: 86_400, nanos: 0 } };
    assert!(!readings_fit(Some(bad_time), None));
    assert!(!readings_fit(None, Some(bad_time)));
}

#[test]
fn scan_contact_resets_at_each_referral() {
    let timeline = vec![
        event(TimelineItemType::NewReferral, at(738_880, 12, 0), None),
        event(TimelineItemType::Contact, at(738_881, 12, 0), Some(true)),
        event(TimelineItemType::NewReferral, at(738_886, 12, 0), None),
        event(TimelineItemType::Contact, at(738_887, 12, 0), None),
        event(TimelineItemType::Teaching, at(738_888, 12, 0), Some(false)),
        event(TimelineItemType::Contact, at(738_889, 12, 0), Some(true)),
    ];
    let (referral, contact) = scan_contact(&timeline);
    assert_eq!(referral, Some(at(738_886, 12, 0)));
    assert_eq!(contact, Some(at(738_888, 12, 0)));
}

#[test]
fn contact_time_none_without_contact() {
    let timeline = vec![event(TimelineItemType::NewReferral, at(738_886, 12, 0), None)];
    let (referral, contact) = scan_contact(&timeline);
    assert_eq!(contact, None);
    assert_eq!(get_adjusted_contact_time(referral, contact), None);
}

#[test]
fn contact_time_zero_for_immediate_contact() {
    let timeline = vec![
        event(TimelineItemType::NewReferral, at(738_886, 12, 0), None),
        event(TimelineItemType::Contact, at(738_886, 12, 0), Some(true)),
    ];
    let (referral, contact) = scan_contact(&timeline);
    assert_eq!(get_adjusted_contact_time(referral, contact), Some(0));
}

#[test]
fn timeline_stats_of_two_referrals() {
    let mut taught = event(TimelineItemType::Teaching, at(738_882, 12, 0), Some(true));
    taught.contact_type = Some(TimelineContactType::InPerson);
    let timeline = vec![
        event(TimelineItemType::NewReferral, at(738_880, 12, 0), None),
        event(TimelineItemType::Sacrament, at(738_881, 12, 0), None),
        taught,
        event(TimelineItemType::NewReferral, at(738_884, 12, 0), None),
        event(TimelineItemType::Sacrament, at(738_885, 12, 0), None),
    ];
    let (referral, contact) = scan_contact(&timeline);
    let stats = get_timeline_stats(&timeline, referral, contact);
    assert_eq!(stats, (None, true, true, 2, true, true, false, Some(2)));
    let stats = get_timeline_stats(&timeline, Some(at(738_884, 9, 0)), Some(at(738_884, 11, 0)));
    assert_eq!(stats, (Some(60), true, true, 2, true, true, false, Some(2)));
}

#[test]
fn timeline_stats_attendance_before_last_referral() {
    let timeline = vec![
        event(TimelineItemType::Sacrament, at(738_881, 12, 0), None),
        event(TimelineItemType::Teaching, at(738_882, 12, 0), Some(true)),
        event(TimelineItemType::NewReferral, at(738_884, 12, 0), None),
    ];
    let stats = get_timeline_stats(&timeline, None, None);
    assert_eq!(stats, (None, true, false, 1, true, false, false, Some(1)));
}

#[test]
fn timeline_stats_of_empty_timeline() {
    let stats = get_timeline_stats(&Vec::new(), None, None);
    assert_eq!(stats, (None, false, false, 0, false, false, false, None));
}

#[test]
fn state_token_is_extracted() {
    let html = r#"<script>var x = {"stateToken":"abc\x2Ddef","other":1};</script>"#;
    assert_eq!(extract_state_token(html), Ok(r"abc\x2Ddef".to_string()));
}

#[test]
fn state_token_missing_start() {
    assert_eq!(extract_state_token("<html></html>"), Err(LoginError::StateTokenNotFound));
}

#[test]
fn state_token_missing_end() {
    assert_eq!(extract_state_token(r#"{"stateToken":"abc"}"#), Err(LoginError::EndTokenNotFound));
}

#[test]
fn state_token_empty() {
    assert_eq!(extract_state_token(r#"{"stateToken":"","x":1}"#), Err(LoginError::InvalidIndices));
}

#[test]
fn escape_sequences_are_decoded() {
    assert_eq!(decode_escape_sequences(r"a\x2Db\x5Fc\x2Ed\x2Fe\x3Df"), "a-b_c.d/e=f");
    assert_eq!(decode_escape_sequences(r"x\x41y\x2Dz"), "xAy-z");
    assert_eq!(decode_escape_sequences(r"\x2d\x7e\xE9"), "-~\u{e9}");
    assert_eq!(decode_escape_sequences(r"\x4"), r"\x4");
    assert_eq!(decode_escape_sequences(r"\xZZ\x"), r"\xZZ\x");
    assert_eq!(decode_escape_sequences(r"\\x41"), r"\A");
}

#[test]
fn state_token_is_decoded_as_json() {
    let html = r#"{"stateToken":"ab\x2Dc\u0041d","x":1}"#;
    assert_eq!(parse_state_token(html), Ok("ab-cAd".to_string()));
    assert_eq!(try_parse_state_token(html), Some(Ok("ab-cAd".to_string())));
}

#[test]
fn state_token_errors_pass_through() {
    assert_eq!(try_parse_state_token("nothing here"), Some(Err(LoginError::StateTokenNotFound)));
    assert_eq!(parse_state_token("nothing here"), Err(LoginError::StateTokenNotFound));
}

#[test]
fn state_token_that_is_not_json_is_reported() {
    let html = r#"{"stateToken":"ab\qcd","x":1}"#;
    assert_eq!(try_parse_state_token(html), None);
}

#[test]
fn introspect_body_embeds_token() {
    assert_eq!(introspect_request_body("tok"), r#"{"stateToken": "tok"}"#);
}

#[test]
fn retries_stop_after_three() {
    assert_eq!(MAX_RETRIES, 3);
    assert_eq!(after_failed_try(1), FetchStep::TryAgain);
    assert_eq!(after_failed_try(2), FetchStep::TryAgain);
    assert_eq!(after_failed_try(3), FetchStep::GiveUp);
}

#[test]
fn file_timestamps_are_read() {
    assert_eq!(extract_valid_file_timestamp("1700000000.json"), Some(1_700_000_000));
    assert_eq!(extract_valid_file_timestamp("12.3.json"), Some(12));
    assert_eq!(extract_valid_file_timestamp("+5.json"), Some(5));
    assert_eq!(extract_valid_file_timestamp("abc.json"), None);
    assert_eq!(extract_valid_file_timestamp("123"), None);
    assert_eq!(extract_valid_file_timestamp(".json"), None);
    assert_eq!(extract_valid_file_timestamp("-1.json"), None);
    assert_eq!(extract_valid_file_timestamp("18446744073709551615.json"), Some(u64::MAX));
    assert_eq!(extract_valid_file_timestamp("18446744073709551616.json"), None);
}

#[test]
fn list_file_name_round_trip() {
    assert_eq!(list_file_name(1_700_000_000), "1700000000.json");
    assert_eq!(extract_valid_file_timestamp(&list_file_name(0)), Some(0));
    assert_eq!(extract_valid_file_timestamp(&list_file_name(u64::MAX)), Some(u64::MAX));
}

#[test]
fn fresh_stored_list_is_reused() {
    let entries = vec![Some(1_000), None, Some(5_000), Some(5_400)];
    let source = cached_people_list_source(&entries, 5_500, RefetchPolicy::RefetchAfter(3_600));
    assert_eq!(source, ListSource::Stored(2));
}

#[test]
fn list_stamped_in_future_counts_as_fresh() {
    let entries = vec![Some(9_999)];
    assert_eq!(cached_people_list_source(&entries, 5_000, RefetchPolicy::RefetchAfter(10)), ListSource::Stored(0));
}

#[test]
fn stale_lists_are_fetched_again() {
    let entries = vec![Some(1_000), Some(2_000)];
    assert_eq!(cached_people_list_source(&entries, 9_000, RefetchPolicy::RefetchAfter(3_600)), ListSource::Fetch);
    assert_eq!(cached_people_list_source(&entries, 9_000, RefetchPolicy::ForceRefetch), ListSource::Fetch);
}

#[test]
fn no_refetch_uses_newest_list() {
    let entries = vec![Some(1_000), None, Some(3_000), Some(2_000)];
    assert_eq!(cached_people_list_source(&entries, 9_000, RefetchPolicy::NoRefetch), ListSource::Latest(3_000));
    assert_eq!(cached_people_list_source(&vec![None], 9_000, RefetchPolicy::NoRefetch), ListSource::Fetch);
    assert_eq!(cached_people_list_source(&vec![Some(0)], 9_000, RefetchPolicy::NoRefetch), ListSource::Fetch);
}

#[test]
fn limit_does_not_widen_the_hour() {
    let entries = vec![None, Some(1)];
    assert_eq!(cached_people_list_source(&entries, 9_000, RefetchPolicy::RefetchAfter(-1)), ListSource::Fetch);
    assert_eq!(cached_people_list_source(&entries, 3_000, RefetchPolicy::RefetchAfter(-1)), ListSource::Stored(1));
}

#[test]
fn zone_and_area_ids_first_seen() {
    let people = vec![
        placed_person("a", Some((7, "North")), Some((70, "North A"))),
        placed_person("b", Some((8, "South")), None),
        placed_person("c", Some((7, "North again")), Some((71, "North B"))),
        placed_person("d", None, Some((70, "North A2"))),
    ];
    let (zones, areas) = zone_and_area_ids(&people);
    assert_eq!(zones, vec![(7, "North".to_string()), (8, "South".to_string())]);
    assert_eq!(areas, vec![(70, "North A".to_string()), (71, "North B".to_string())]);
}

#[test]
fn list_under_an_hour_is_a_hit_whatever_the_limit() {
    let entries = vec![Some(9_900)];
    assert_eq!(cached_people_list_source(&entries, 10_000, RefetchPolicy::RefetchAfter(60)), ListSource::Stored(0));
    let half_hour = vec![Some(10_000 - 1_800)];
    assert_eq!(cached_people_list_source(&half_hour, 10_000, RefetchPolicy::RefetchAfter(10)), ListSource::Stored(0));
    let hour = vec![Some(10_000 - 3_600)];
    assert_eq!(cached_people_list_source(&hour, 10_000, RefetchPolicy::RefetchAfter(10)), ListSource::Fetch);
    let long_limit = vec![Some(10_000 - 7_000)];
    assert_eq!(cached_people_list_source(&long_limit, 10_000, RefetchPolicy::RefetchAfter(7_200)), ListSource::Fetch);
    let two = vec![Some(10_000 - 5_000), Some(10_000 - 10)];
    assert_eq!(cached_people_list_source(&two, 10_000, RefetchPolicy::RefetchAfter(7_200)), ListSource::Stored(1));
}

#[test]
fn people_filtered_in_order() {
    let people = vec![
        placed_person("a", Some((1, "Z")), None),
        placed_person("b", None, None),
        placed_person("c", Some((2, "Y")), None),
    ];
    let kept = filter_people(people, |p: &Person| p.zone_id.is_some());
    assert_eq!(kept.iter().map(|p| p.guid.as_str()).collect::<Vec<_>>(), vec!["a", "c"]);
}
