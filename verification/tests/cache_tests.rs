use referral_list::cache::{CacheLookup, PersonCache, PersonsCacheMap};
use referral_list::persons::{Person, PersonStatus, ReferralStatus, TimelineEvent, TimelineItemType};
use referral_list::scheduled_times::RefetchPolicy;
use referral_list::time::{DateTime, TimeOfDay};

fn at(date: i32, hours: u32) -> DateTime {
    DateTime { date, time: TimeOfDay { secs: hours * 3600, nanos: 0 } }
}

fn stats(response_time: Option<usize>, assessed: DateTime) -> PersonCache {
    PersonCache {
        response_time,
        has_attended_since_last_referral: true,
        has_attended_sacrament: true,
        sacrament_attendance_count: 3,
        has_been_taught: true,
        has_been_taught_in_person: false,
        has_been_taught_since_last_referral: false,
        last_timeline_assessment: assessed,
        referral_count: Some(2),
    }
}

fn referral(guid: &str, assigned: DateTime) -> Person {
    Person {
        guid: guid.to_string(),
        first_name: "Sam".to_string(),
        referral_status: ReferralStatus::NotSuccessful,
        person_status: PersonStatus::Yellow,
        mission_id: 4,
        zone_id: Some(1),
        zone_name: Some("Zone".to_string()),
        district_id: Some(2),
        area_name: Some("Area".to_string()),
        area_id: Some(3),
        assigned_date: assigned,
        baptism_goal_date: None,
        baptism_date: None,
        last_sacrament_attendance: None,
        response_time: None,
        has_attended_sacrament: None,
        has_attended_since_last_referral: None,
        sacrament_attendence_count: None,
        has_been_taught: None,
        has_been_taught_in_person: None,
        has_been_taught_since_last_referral: None,
        referral_count: None,
        last_timeline_assessment: None,
    }
}

#[test]
fn cache_map_read_after_write() {
    let mut map = PersonsCacheMap::new();
    assert_eq!(map.len(), 0);
    assert_eq!(map.get(&"a".to_string()), None);
    map.insert("a".to_string(), stats(Some(5), at(738_886, 1)));
    map.insert("b".to_string(), stats(Some(6), at(738_886, 2)));
    assert_eq!(map.get(&"a".to_string()), Some(stats(Some(5), at(738_886, 1))));
    map.insert("a".to_string(), stats(None, at(738_887, 1)));
    assert_eq!(map.get(&"a".to_string()), Some(stats(None, at(738_887, 1))));
    assert_eq!(map.get(&"b".to_string()), Some(stats(Some(6), at(738_886, 2))));
    assert_eq!(map.len(), 2);
}

#[test]
fn cache_map_from_entries_keeps_last() {
    let entries = vec![
        ("a".to_string(), stats(Some(1), at(738_886, 1))),
        ("b".to_string(), stats(Some(2), at(738_886, 1))),
        ("a".to_string(), stats(Some(3), at(738_886, 1))),
    ];
    let map = PersonsCacheMap::from_entries(&entries);
    assert_eq!(map.len(), 2);
    assert_eq!(map.get(&"a".to_string()), Some(stats(Some(3), at(738_886, 1))));
    let mut listed = map.entries();
    listed.sort_by(|x, y| x.0.cmp(&y.0));
    assert_eq!(listed, vec![
        ("a".to_string(), stats(Some(3), at(738_886, 1))),
        ("b".to_string(), stats(Some(2), at(738_886, 1))),
    ]);
}

#[test]
fn lookup_force_refetch_always_refreshes() {
    let mut map = PersonsCacheMap::new();
    map.insert("a".to_string(), stats(Some(5), at(738_890, 1)));
    let person = referral("a", at(738_886, 1));
    assert_eq!(PersonCache::get_cached_data_for_person(&person, &map, RefetchPolicy::ForceRefetch), CacheLookup::Refresh);
}

#[test]
fn lookup_no_refetch_uses_any_cache() {
    let mut map = PersonsCacheMap::new();
    map.insert("a".to_string(), stats(Some(5), at(738_880, 1)));
    let person = referral("a", at(738_886, 1));
    assert_eq!(
        PersonCache::get_cached_data_for_person(&person, &map, RefetchPolicy::NoRefetch),
        CacheLookup::Cached(stats(Some(5), at(738_880, 1)))
    );
    let stranger = referral("z", at(738_886, 1));
    assert_eq!(PersonCache::get_cached_data_for_person(&stranger, &map, RefetchPolicy::NoRefetch), CacheLookup::Missing);
}

#[test]
fn lookup_refetch_after_checks_assessment_date() {
    let mut map = PersonsCacheMap::new();
    map.insert("old".to_string(), stats(Some(5), at(738_880, 1)));
    map.insert("new".to_string(), stats(Some(6), at(738_890, 1)));
    map.insert("same".to_string(), stats(Some(7), at(738_886, 1)));
    let policy = RefetchPolicy::RefetchAfter(3600);
    assert_eq!(PersonCache::get_cached_data_for_person(&referral("old", at(738_886, 1)), &map, policy), CacheLookup::Refresh);
    assert_eq!(
        PersonCache::get_cached_data_for_person(&referral("new", at(738_886, 1)), &map, policy),
        CacheLookup::Cached(stats(Some(6), at(738_890, 1)))
    );
    assert_eq!(
        PersonCache::get_cached_data_for_person(&referral("same", at(738_886, 1)), &map, policy),
        CacheLookup::Cached(stats(Some(7), at(738_886, 1)))
    );
    assert_eq!(PersonCache::get_cached_data_for_person(&referral("none", at(738_886, 1)), &map, policy), CacheLookup::Refresh);
}

#[test]
fn update_cache_stores_retrieved_stats() {
    let mut map = PersonsCacheMap::new();
    let person = referral("a", at(738_886, 1));
    assert_eq!(PersonCache::update_cache(&person, &mut map, None), None);
    assert_eq!(map.len(), 0);
    let fresh = stats(Some(9), at(738_887, 1));
    assert_eq!(PersonCache::update_cache(&person, &mut map, Some(fresh)), Some(fresh));
    assert_eq!(map.get(&"a".to_string()), Some(fresh));
}

#[test]
fn retrieved_stats_read_newest_first() {
    let ev = |t: TimelineItemType, d: i32| TimelineEvent { item_type: t, item_date: at(d, 12), contact_type: None, status: None };
    // newest first, as the referral manager sends it
    let timeline = vec![ev(TimelineItemType::NewReferral, 738_890), ev(TimelineItemType::Sacrament, 738_885), ev(TimelineItemType::NewReferral, 738_880)];
    let (referral, contact) = PersonCache::contact_dates(&timeline);
    assert_eq!(referral, Some(at(738_890, 12)));
    assert_eq!(contact, None);
    let cache = PersonCache::retrieve_data_to_cache(&timeline, referral, contact, at(738_891, 3));
    assert_eq!(cache.response_time, None);
    assert!(cache.has_attended_sacrament);
    assert!(!cache.has_attended_since_last_referral);
    assert_eq!(cache.sacrament_attendance_count, 1);
    assert_eq!(cache.referral_count, Some(2));
    assert_eq!(cache.last_timeline_assessment, at(738_891, 3));
}

#[test]
fn retrieved_response_time_counts_the_local_readings() {
    let ev = |t: TimelineItemType, d: DateTime| TimelineEvent { item_type: t, item_date: d, contact_type: None, status: Some(true) };
    let timeline = vec![ev(TimelineItemType::Contact, at(738_886, 11)), ev(TimelineItemType::NewReferral, at(738_886, 9))];
    let (referral, contact) = PersonCache::contact_dates(&timeline);
    assert_eq!(referral, Some(at(738_886, 9)));
    assert_eq!(contact, Some(at(738_886, 11)));
    let cache = PersonCache::retrieve_data_to_cache(&timeline, referral, contact, at(738_887, 0));
    assert_eq!(cache.response_time, Some(60));
    assert_eq!(cache.referral_count, Some(1));
}

#[test]
fn apply_cache_copies_stats() {
    let mut person = referral("a", at(738_886, 1));
    let cache = stats(Some(42), at(738_887, 3));
    person.apply_cache(&cache);
    assert_eq!(person.response_time, Some(42));
    assert_eq!(person.has_attended_sacrament, Some(true));
    assert_eq!(person.has_attended_since_last_referral, Some(true));
    assert_eq!(person.sacrament_attendence_count, Some(3));
    assert_eq!(person.has_been_taught, Some(true));
    assert_eq!(person.has_been_taught_in_person, Some(false));
    assert_eq!(person.has_been_taught_since_last_referral, Some(false));
    assert_eq!(person.referral_count, Some(2));
    assert_eq!(person.last_timeline_assessment, Some(at(738_887, 3)));
    assert_eq!(person.guid, "a");
    assert_eq!(person.zone_name, Some("Zone".to_string()));
}
