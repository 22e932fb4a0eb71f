//! Per-person timeline statistics kept between runs, keyed by the person's
//! identifier.

use vstd::prelude::*;
use crate::time::DateTime;
use crate::persons::{Person, TimelineEvent};
use crate::church::{get_timeline_stats, timeline_stats_hold, contact_scan, scan_contact, readings_in_range, adjusted_contact_time};
use crate::scheduled_times::RefetchPolicy;

verus! {

/// The statistics of one person's timeline and when they were assessed.
#[derive(Clone, Copy, Debug, PartialEq, Eq, Structural)]
pub struct PersonCache {
    pub response_time: Option<usize>,
    pub has_attended_since_last_referral: bool,
    pub has_attended_sacrament: bool,
    pub sacrament_attendance_count: usize,
    pub has_been_taught: bool,
    pub has_been_taught_in_person: bool,
    pub has_been_taught_since_last_referral: bool,
    pub last_timeline_assessment: DateTime,
    pub referral_count: Option<usize>,
}

/// The cache of every person's statistics, one entry per identifier.
pub struct PersonsCacheMap {
    entries: Vec<(String, PersonCache)>,
}

/// The map that a list of entries describes when each entry overrides the
/// ones before it with the same key.
pub open spec fn map_of_entries(entries: Seq<(Seq<char>, PersonCache)>) -> Map<Seq<char>, PersonCache>
    decreases entries.len(),
{
    if entries.len() == 0 {
        Map::empty()
    } else {
        map_of_entries(entries.drop_last()).insert(entries.last().0, entries.last().1)
    }
}

/// The entries with each key taken by its characters.
pub open spec fn entry_views(entries: Seq<(String, PersonCache)>) -> Seq<(Seq<char>, PersonCache)> {
    entries.map_values(|e: (String, PersonCache)| (e.0@, e.1))
}

/// No key occurs twice.
pub open spec fn keys_distinct(entries: Seq<(Seq<char>, PersonCache)>) -> bool {
    forall|i: int, j: int|
        0 <= i < entries.len() && 0 <= j < entries.len() && i != j ==> #[trigger] entries[i].0
            != #[trigger] entries[j].0
}

/// With distinct keys, the map holds exactly the entries' keys, each with its
/// entry's value.
proof fn lemma_map_of_distinct_entries(entries: Seq<(Seq<char>, PersonCache)>)
    requires
        keys_distinct(entries),
    ensures
        forall|k: Seq<char>|
            #[trigger] map_of_entries(entries).contains_key(k) <==> exists|i: int|
                0 <= i < entries.len() && entries[i].0 == k,
        forall|i: int|
            0 <= i < entries.len() ==> #[trigger] map_of_entries(entries)[entries[i].0]
                == entries[i].1,
    decreases entries.len(),
{
    if entries.len() > 0 {
        let prefix = entries.drop_last();
        assert(keys_distinct(prefix)) by {
            assert forall|i: int, j: int|
                0 <= i < prefix.len() && 0 <= j < prefix.len() && i != j implies #[trigger] prefix[i].0
                    != #[trigger] prefix[j].0 by {
                assert(prefix[i] == entries[i] && prefix[j] == entries[j]);
            }
        }
        lemma_map_of_distinct_entries(prefix);
        let n = entries.len() - 1;
        assert(map_of_entries(entries) == map_of_entries(prefix).insert(entries[n].0, entries[n].1));
        assert forall|k: Seq<char>|
            #[trigger] map_of_entries(entries).contains_key(k) <==> exists|i: int|
                0 <= i < entries.len() && entries[i].0 == k by {
            if map_of_entries(entries).contains_key(k) && k != entries[n].0 {
                assert(map_of_entries(prefix).contains_key(k));
                let i = choose|i: int| 0 <= i < prefix.len() && prefix[i].0 == k;
                assert(entries[i] == prefix[i]);
            }
            if exists|i: int| 0 <= i < entries.len() && entries[i].0 == k {
                let i = choose|i: int| 0 <= i < entries.len() && entries[i].0 == k;
                if i < n {
                    assert(prefix[i] == entries[i]);
                    assert(map_of_entries(prefix).contains_key(k));
                }
            }
        }
        assert forall|i: int| 0 <= i < entries.len() implies #[trigger] map_of_entries(entries)[entries[i].0]
            == entries[i].1 by {
            if i < n {
                assert(prefix[i] == entries[i]);
                assert(entries[i].0 != entries[n].0);
                assert(map_of_entries(prefix)[prefix[i].0] == prefix[i].1);
            }
        }
    }
}

impl View for PersonsCacheMap {
    type V = Map<Seq<char>, PersonCache>;

    closed spec fn view(&self) -> Map<Seq<char>, PersonCache> {
        map_of_entries(entry_views(self.entries@))
    }
}

impl PersonsCacheMap {
    #[verifier::type_invariant]
    spec fn keys_are_distinct(self) -> bool {
        keys_distinct(entry_views(self.entries@))
    }

    /// An empty cache.
    pub fn new() -> (m: PersonsCacheMap)
        ensures
            m@ == Map::<Seq<char>, PersonCache>::empty(),
    {
        let m = PersonsCacheMap { entries: Vec::new() };
        assert(entry_views(m.entries@) =~= Seq::<(Seq<char>, PersonCache)>::empty());
        m
    }

    /// The index of the entry with this key, if there is one.
    fn position(&self, guid: &String) -> (pos: Option<usize>)
        ensures
            pos matches Some(i) ==> i < self.entries@.len() && self.entries@[i as int].0@ == guid@,
            pos is None ==> forall|i: int|
                0 <= i < self.entries@.len() ==> self.entries@[i].0@ != guid@,
    {
        let mut i: usize = 0;
        while i < self.entries.len()
            invariant
                i <= self.entries@.len(),
                forall|j: int| 0 <= j < i ==> self.entries@[j].0@ != guid@,
            decreases self.entries@.len() - i,
        {
            if self.entries[i].0 == *guid {
                return Some(i);
            }
            i = i + 1;
        }
        None
    }

    /// The cached statistics for a person's identifier.
    pub fn get(&self, guid: &String) -> (res: Option<PersonCache>)
        ensures
            res is Some <==> self@.contains_key(guid@),
            res matches Some(c) ==> c == self@[guid@],
    {
        proof {
            use_type_invariant(self);
            lemma_map_of_distinct_entries(entry_views(self.entries@));
        }
        let ghost views = entry_views(self.entries@);
        match self.position(guid) {
            Some(i) => {
                assert(views[i as int].0 == guid@);
                Some(self.entries[i].1)
            },
            None => {
                assert forall|i: int| 0 <= i < views.len() implies views[i].0 != guid@ by {
                    assert(views[i].0 == self.entries@[i].0@);
                }
                None
            },
        }
    }

    /// Stores statistics under a person's identifier, replacing what was
    /// stored under it before.
    pub fn insert(&mut self, guid: String, cache: PersonCache)
        ensures
            final(self)@ == old(self)@.insert(guid@, cache),
    {
        proof {
            use_type_invariant(&*self);
            lemma_map_of_distinct_entries(entry_views(self.entries@));
        }
        let ghost old_views = entry_views(self.entries@);
        let ghost old_entries = self.entries@;
        match self.position(&guid) {
            Some(i) => {
                let ghost new_views = old_views.update(i as int, (guid@, cache));
                let mut entries: Vec<(String, PersonCache)> = Vec::new();
                std::mem::swap(&mut entries, &mut self.entries);
                entries.set(i, (guid, cache));
                assert(entry_views(entries@) =~= new_views);
                assert forall|j: int| 0 <= j < new_views.len() implies #[trigger] new_views[j].0
                    == old_views[j].0 by {
                    if j == i {
                        assert(old_views[j].0 == old_entries[j].0@);
                    }
                }
                assert(keys_distinct(new_views)) by {
                    assert forall|a: int, b: int|
                        0 <= a < new_views.len() && 0 <= b < new_views.len() && a != b
                        implies #[trigger] new_views[a].0 != #[trigger] new_views[b].0 by {
                        assert(new_views[a].0 == old_views[a].0);
                        assert(new_views[b].0 == old_views[b].0);
                    }
                }
                proof {
                    lemma_map_of_distinct_entries(new_views);
                }
                assert(map_of_entries(new_views) =~= map_of_entries(old_views).insert(guid@, cache)) by {
                    assert forall|k: Seq<char>| #[trigger] map_of_entries(new_views).contains_key(k)
                        <==> map_of_entries(old_views).insert(guid@, cache).contains_key(k) by {
                        if exists|j: int| 0 <= j < old_views.len() && old_views[j].0 == k {
                            let j = choose|j: int| 0 <= j < old_views.len() && old_views[j].0 == k;
                            assert(new_views[j].0 == k);
                        }
                        if exists|j: int| 0 <= j < new_views.len() && new_views[j].0 == k {
                            let j = choose|j: int| 0 <= j < new_views.len() && new_views[j].0 == k;
                            if j != i {
                                assert(old_views[j].0 == k);
                            }
                        }
                        assert(new_views[i as int].0 == guid@);
                    }
                    assert forall|k: Seq<char>| #[trigger] map_of_entries(new_views).contains_key(k)
                        implies map_of_entries(new_views)[k] == map_of_entries(old_views).insert(guid@, cache)[k] by {
                        let j = choose|j: int| 0 <= j < new_views.len() && new_views[j].0 == k;
                        assert(map_of_entries(new_views)[new_views[j].0] == new_views[j].1);
                        assert(new_views[i as int].0 == guid@);
                        if j != i {
                            assert(new_views[j].0 != new_views[i as int].0);
                            assert(old_views[j] == new_views[j]);
                            assert(map_of_entries(old_views)[old_views[j].0] == old_views[j].1);
                        }
                    }
                }
                self.entries = entries;
            },
            None => {
                let ghost g = guid@;
                let mut entries: Vec<(String, PersonCache)> = Vec::new();
                std::mem::swap(&mut entries, &mut self.entries);
                entries.push((guid, cache));
                assert(entry_views(entries@) =~= old_views.push((g, cache)));
                assert(old_views.push((g, cache)).drop_last() =~= old_views);
                assert(keys_distinct(old_views.push((g, cache)))) by {
                    assert forall|a: int, b: int|
                        0 <= a < old_views.len() + 1 && 0 <= b < old_views.len() + 1 && a != b
                        implies #[trigger] old_views.push((g, cache))[a].0
                            != #[trigger] old_views.push((g, cache))[b].0 by {
                        if a < old_views.len() {
                            assert(old_views[a].0 == old_entries[a].0@);
                        }
                        if b < old_views.len() {
                            assert(old_views[b].0 == old_entries[b].0@);
                        }
                    }
                }
                self.entries = entries;
            },
        }
    }

    /// How many identifiers are cached.
    pub fn len(&self) -> (n: usize)
        ensures
            n == self@.dom().len(),
    {
        proof {
            use_type_invariant(self);
            lemma_map_of_distinct_entries(entry_views(self.entries@));
            lemma_map_of_distinct_entries_len(entry_views(self.entries@));
        }
        self.entries.len()
    }
}

/// With distinct keys, the map has one key per entry.
proof fn lemma_map_of_distinct_entries_len(entries: Seq<(Seq<char>, PersonCache)>)
    requires
        keys_distinct(entries),
    ensures
        map_of_entries(entries).dom().finite(),
        map_of_entries(entries).dom().len() == entries.len(),
    decreases entries.len(),
{
    if entries.len() > 0 {
        let prefix = entries.drop_last();
        assert(keys_distinct(prefix)) by {
            assert forall|i: int, j: int|
                0 <= i < prefix.len() && 0 <= j < prefix.len() && i != j implies #[trigger] prefix[i].0
                    != #[trigger] prefix[j].0 by {
                assert(prefix[i] == entries[i] && prefix[j] == entries[j]);
            }
        }
        lemma_map_of_distinct_entries_len(prefix);
        lemma_map_of_distinct_entries(prefix);
        let n = entries.len() - 1;
        assert(!map_of_entries(prefix).contains_key(entries[n].0)) by {
            if map_of_entries(prefix).contains_key(entries[n].0) {
                let i = choose|i: int| 0 <= i < prefix.len() && prefix[i].0 == entries[n].0;
                assert(entries[i] == prefix[i]);
            }
        }
    }
}

impl PersonsCacheMap {
    /// A cache holding the given entries, later entries overriding earlier ones
    /// with the same identifier.
    pub fn from_entries(entries: &Vec<(String, PersonCache)>) -> (m: PersonsCacheMap)
        ensures
            m@ == map_of_entries(entry_views(entries@)),
    {
        let ghost views = entry_views(entries@);
        let mut m = PersonsCacheMap::new();
        let mut i: usize = 0;
        while i < entries.len()
            invariant
                i <= entries@.len(),
                views == entry_views(entries@),
                m@ == map_of_entries(views.take(i as int)),
            decreases entries@.len() - i,
        {
            assert(views[i as int] == (entries@[i as int].0@, entries@[i as int].1));
            m.insert(entries[i].0.clone(), entries[i].1);
            assert(views.take(i + 1).drop_last() =~= views.take(i as int));
            assert(views.take(i + 1).last() == views[i as int]);
            i = i + 1;
        }
        assert(views.take(entries@.len() as int) =~= views);
        m
    }

    /// The cached entries, one per identifier.
    pub fn entries(&self) -> (res: Vec<(String, PersonCache)>)
        ensures
            keys_distinct(entry_views(res@)),
            map_of_entries(entry_views(res@)) == self@,
    {
        proof {
            use_type_invariant(self);
        }
        let mut res: Vec<(String, PersonCache)> = Vec::new();
        let mut i: usize = 0;
        while i < self.entries.len()
            invariant
                i <= self.entries@.len(),
                res@.len() == i,
                forall|j: int| 0 <= j < i ==> #[trigger] res@[j].0@ == self.entries@[j].0@ && res@[j].1
                    == self.entries@[j].1,
            decreases self.entries@.len() - i,
        {
            res.push((self.entries[i].0.clone(), self.entries[i].1));
            i = i + 1;
        }
        assert(entry_views(res@) =~= entry_views(self.entries@));
        res
    }
}

/// A read of an identifier after a write of it gives back what was written,
/// and leaves every other identifier as it was.
pub proof fn law_read_after_write(
    before: Map<Seq<char>, PersonCache>,
    after: Map<Seq<char>, PersonCache>,
    guid: Seq<char>,
    cache: PersonCache,
    other: Seq<char>,
)
    requires
        after == before.insert(guid, cache),
    ensures
        after.contains_key(guid),
        after[guid] == cache,
        other != guid ==> (after.contains_key(other) == before.contains_key(other)),
        other != guid && before.contains_key(other) ==> after[other] == before[other],
{
}

/// What to do about a person's cached statistics.
#[derive(Clone, Copy, Debug, PartialEq, Eq, Structural)]
pub enum CacheLookup {
    /// Use these cached statistics.
    Cached(PersonCache),
    /// Nothing is cached and nothing is to be fetched.
    Missing,
    /// Fetch the timeline and store fresh statistics.
    Refresh,
}

impl PersonCache {
    /// Whether a person's cached statistics may be used under a refetch policy:
    /// always when refetching is off, never when it is forced, and otherwise
    /// when they were assessed no earlier than the person's assignment (so a
    /// repeated referral is assessed again).
    pub fn get_cached_data_for_person(
        person: &Person,
        cache_map: &PersonsCacheMap,
        refetch_policy: RefetchPolicy,
    ) -> (res: CacheLookup)
        ensures
            match refetch_policy {
                RefetchPolicy::ForceRefetch => res == CacheLookup::Refresh,
                RefetchPolicy::NoRefetch => res == if cache_map@.contains_key(person.guid@) {
                    CacheLookup::Cached(cache_map@[person.guid@])
                } else {
                    CacheLookup::Missing
                },
                RefetchPolicy::RefetchAfter(_) => res == if cache_map@.contains_key(person.guid@)
                    && person.assigned_date.spec_at_or_before(
                    cache_map@[person.guid@].last_timeline_assessment,
                ) {
                    CacheLookup::Cached(cache_map@[person.guid@])
                } else {
                    CacheLookup::Refresh
                },
            },
    {
        match refetch_policy {
            RefetchPolicy::ForceRefetch => CacheLookup::Refresh,
            RefetchPolicy::NoRefetch => {
                match cache_map.get(&person.guid) {
                    Some(cache) => CacheLookup::Cached(cache),
                    None => CacheLookup::Missing,
                }
            },
            RefetchPolicy::RefetchAfter(_) => {
                match cache_map.get(&person.guid) {
                    Some(cache) => {
                        if person.assigned_date.at_or_before(&cache.last_timeline_assessment) {
                            CacheLookup::Cached(cache)
                        } else {
                            CacheLookup::Refresh
                        }
                    },
                    None => CacheLookup::Refresh,
                }
            },
        }
    }

    /// Stores freshly retrieved statistics under the person's identifier and
    /// hands them back; when nothing could be retrieved the cache stays as it
    /// was.
    pub fn update_cache(
        person: &Person,
        cache_map: &mut PersonsCacheMap,
        retrieved: Option<PersonCache>,
    ) -> (res: Option<PersonCache>)
        ensures
            res == retrieved,
            match retrieved {
                Some(c) => final(cache_map)@ == old(cache_map)@.insert(person.guid@, c),
                None => final(cache_map)@ == old(cache_map)@,
            },
    {
        match retrieved {
            Some(person_cache) => {
                cache_map.insert(person.guid.clone(), person_cache);
                Some(person_cache)
            },
            None => None,
        }
    }

    /// The referral and contact dates (in UTC) that the response time of a
    /// timeline, as the referral manager sends it (newest event first), is
    /// counted between: `scan_contact` of the timeline read oldest first.
    pub fn contact_dates(timeline: &Vec<TimelineEvent>) -> (res: (Option<DateTime>, Option<DateTime>))
        ensures
            res == contact_scan(timeline@.reverse()),
    {
        let reversed = reversed_timeline(timeline);
        scan_contact(&reversed)
    }

    /// The statistics of a timeline as the referral manager sends it (newest
    /// event first), assessed at `assessed_at`. The response time is counted
    /// between `referral_local` and `contact_local`: the dates that
    /// `contact_dates` gives, as the machine's local clock reads them.
    pub fn retrieve_data_to_cache(
        timeline: &Vec<TimelineEvent>,
        referral_local: Option<DateTime>,
        contact_local: Option<DateTime>,
        assessed_at: DateTime,
    ) -> (res: PersonCache)
        requires
            readings_in_range(referral_local, contact_local),
        ensures
            timeline_stats_hold(
                timeline@.reverse(),
                (
                    res.response_time,
                    res.has_attended_sacrament,
                    res.has_attended_since_last_referral,
                    res.sacrament_attendance_count,
                    res.has_been_taught,
                    res.has_been_taught_in_person,
                    res.has_been_taught_since_last_referral,
                    res.referral_count,
                ),
            ),
            res.response_time is Some <==> adjusted_contact_time(referral_local, contact_local) is Some,
            res.response_time matches Some(m) ==> adjusted_contact_time(referral_local, contact_local)
                == Some(m as int),
            res.last_timeline_assessment == assessed_at,
    {
        let reversed = reversed_timeline(timeline);
        let (
            response_time,
            has_attended_sacrament,
            has_attended_since_last_referral,
            sacrament_attendance_count,
            has_been_taught,
            has_been_taught_in_person,
            has_been_taught_since_last_referral,
            referral_count,
        ) = get_timeline_stats(&reversed, referral_local, contact_local);
        PersonCache {
            response_time,
            has_attended_sacrament,
            has_attended_since_last_referral,
            sacrament_attendance_count,
            has_been_taught,
            has_been_taught_in_person,
            has_been_taught_since_last_referral,
            referral_count,
            last_timeline_assessment: assessed_at,
        }
    }
}

/// The timeline in the opposite order.
fn reversed_timeline(timeline: &Vec<TimelineEvent>) -> (res: Vec<TimelineEvent>)
    ensures
        res@ == timeline@.reverse(),
{
    let mut res: Vec<TimelineEvent> = Vec::new();
    let mut i: usize = timeline.len();
    while i > 0
        invariant
            i <= timeline@.len(),
            res@ =~= timeline@.subrange(i as int, timeline@.len() as int).reverse(),
        decreases i,
    {
        i = i - 1;
        res.push(timeline[i]);
    }
    res
}

impl Person {
    /// Copies a person's cached statistics onto the person.
    pub fn apply_cache(&mut self, cache: &PersonCache)
        ensures
            final(self).response_time == cache.response_time,
            final(self).has_attended_sacrament == Some(cache.has_attended_sacrament),
            final(self).has_attended_since_last_referral == Some(
                cache.has_attended_since_last_referral,
            ),
            final(self).sacrament_attendence_count == Some(cache.sacrament_attendance_count),
            final(self).has_been_taught == Some(cache.has_been_taught),
            final(self).has_been_taught_in_person == Some(cache.has_been_taught_in_person),
            final(self).has_been_taught_since_last_referral == Some(
                cache.has_been_taught_since_last_referral,
            ),
            final(self).referral_count == cache.referral_count,
            final(self).last_timeline_assessment == Some(cache.last_timeline_assessment),
            final(self).guid == old(self).guid,
            final(self).first_name == old(self).first_name,
            final(self).referral_status == old(self).referral_status,
            final(self).person_status == old(self).person_status,
            final(self).mission_id == old(self).mission_id,
            final(self).zone_id == old(self).zone_id,
            final(self).zone_name == old(self).zone_name,
            final(self).district_id == old(self).district_id,
            final(self).area_name == old(self).area_name,
            final(self).area_id == old(self).area_id,
            final(self).assigned_date == old(self).assigned_date,
            final(self).baptism_goal_date == old(self).baptism_goal_date,
            final(self).baptism_date == old(self).baptism_date,
            final(self).last_sacrament_attendance == old(self).last_sacrament_attendance,
    {
        self.response_time = cache.response_time;
        self.has_attended_sacrament = Some(cache.has_attended_sacrament);
        self.has_attended_since_last_referral = Some(cache.has_attended_since_last_referral);
        self.sacrament_attendence_count = Some(cache.sacrament_attendance_count);
        self.has_been_taught = Some(cache.has_been_taught);
        self.has_been_taught_in_person = Some(cache.has_been_taught_in_person);
        self.has_been_taught_since_last_referral = Some(cache.has_been_taught_since_last_referral);
        self.referral_count = cache.referral_count;
        self.last_timeline_assessment = Some(cache.last_timeline_assessment);
    }
}

} // verus!
