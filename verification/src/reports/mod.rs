//! Response-time and follow-up reports, grouped by zone and area.

pub mod all_mission_report_weekly;
pub mod zone_report_daily;
pub mod reordering;
pub mod averages;

use vstd::prelude::*;
use crate::persons::Person;
use crate::text::{str_eq, contains_str, str_less, decimal_string, decimal, seq_less, occurs_at, lemma_seq_less_asymmetric, lemma_seq_less_transitive};
use vstd::string::*;
use vstd::multiset::Multiset;
use zone_report_daily::{AreaAverageResponseTime, AreaUnattemptedCount};

verus! {

broadcast use vstd::string::group_string_axioms;

/// The person's zone and area are both known.
pub open spec fn placed(p: Person) -> bool {
    p.zone_name is Some && p.area_name is Some
}

/// The person is placed and has a response time.
pub open spec fn timed(p: Person) -> bool {
    placed(p) && p.response_time is Some
}

/// The person's zone is `z`.
pub open spec fn in_zone(p: Person, z: Seq<char>) -> bool {
    p.zone_name matches Some(name) && name@ == z
}

/// The person's area is `a`.
pub open spec fn in_area(p: Person, a: Seq<char>) -> bool {
    p.area_name matches Some(name) && name@ == a
}

/// The person's area is one of `areas`.
pub open spec fn in_areas(p: Person, areas: Seq<Seq<char>>) -> bool {
    p.area_name matches Some(name) && areas.contains(name@)
}

/// The sequence with each value kept at its first occurrence only.
pub open spec fn dedup(s: Seq<Seq<char>>) -> Seq<Seq<char>>
    decreases s.len(),
{
    if s.len() == 0 {
        Seq::empty()
    } else {
        let d = dedup(s.drop_last());
        if d.contains(s.last()) {
            d
        } else {
            d.push(s.last())
        }
    }
}

/// The zones of the placed people, in order, repeats included.
pub open spec fn zone_names(ps: Seq<Person>) -> Seq<Seq<char>>
    decreases ps.len(),
{
    if ps.len() == 0 {
        Seq::empty()
    } else {
        let p = ps.last();
        zone_names(ps.drop_last()) + if placed(p) {
            seq![p.zone_name->0@]
        } else {
            Seq::empty()
        }
    }
}

/// The areas of the placed people in zone `z`, in order, repeats included.
pub open spec fn area_names_in(ps: Seq<Person>, z: Seq<char>) -> Seq<Seq<char>>
    decreases ps.len(),
{
    if ps.len() == 0 {
        Seq::empty()
    } else {
        let p = ps.last();
        area_names_in(ps.drop_last(), z) + if placed(p) && in_zone(p, z) {
            seq![p.area_name->0@]
        } else {
            Seq::empty()
        }
    }
}

/// Every zone of the placed people with its areas, each in order of first
/// appearance.
pub open spec fn zone_areas(ps: Seq<Person>) -> Seq<(Seq<char>, Seq<Seq<char>>)> {
    dedup(zone_names(ps)).map_values(|z: Seq<char>| (z, dedup(area_names_in(ps, z))))
}

/// Identifier and first name of each person in zone `z` and area `a` (only
/// those with a response time when `timed_only`), in order.
pub open spec fn area_people(ps: Seq<Person>, z: Seq<char>, a: Seq<char>, timed_only: bool) -> Seq<
    (Seq<char>, Seq<char>),
>
    decreases ps.len(),
{
    if ps.len() == 0 {
        Seq::empty()
    } else {
        let p = ps.last();
        area_people(ps.drop_last(), z, a, timed_only) + if placed(p) && (!timed_only || timed(p))
            && in_zone(p, z) && in_area(p, a) {
            seq![(p.guid@, p.first_name@)]
        } else {
            Seq::empty()
        }
    }
}

/// The people of each area in turn, one list after the other.
pub open spec fn zone_people(ps: Seq<Person>, z: Seq<char>, areas: Seq<Seq<char>>, timed_only: bool) -> Seq<
    (Seq<char>, Seq<char>),
>
    decreases areas.len(),
{
    if areas.len() == 0 {
        Seq::empty()
    } else {
        zone_people(ps, z, areas.drop_last(), timed_only) + area_people(
            ps,
            z,
            areas.last(),
            timed_only,
        )
    }
}

/// The summed response times of the timed people in zone `z` whose area is
/// one of `areas`.
pub open spec fn areas_time(ps: Seq<Person>, z: Seq<char>, areas: Seq<Seq<char>>) -> int
    decreases ps.len(),
{
    if ps.len() == 0 {
        0
    } else {
        let p = ps.last();
        areas_time(ps.drop_last(), z, areas) + if timed(p) && in_zone(p, z) && in_areas(p, areas) {
            p.response_time->0 as int
        } else {
            0
        }
    }
}

/// The summed response times of the timed people in zone `z`.
pub open spec fn zone_time(ps: Seq<Person>, z: Seq<char>) -> int
    decreases ps.len(),
{
    if ps.len() == 0 {
        0
    } else {
        let p = ps.last();
        zone_time(ps.drop_last(), z) + if timed(p) && in_zone(p, z) {
            p.response_time->0 as int
        } else {
            0
        }
    }
}

/// The summed response times of all timed people.
pub open spec fn total_time(ps: Seq<Person>) -> int
    decreases ps.len(),
{
    if ps.len() == 0 {
        0
    } else {
        let p = ps.last();
        total_time(ps.drop_last()) + if timed(p) {
            p.response_time->0 as int
        } else {
            0
        }
    }
}

proof fn lemma_times_bounded(ps: Seq<Person>, z: Seq<char>, areas: Seq<Seq<char>>)
    ensures
        0 <= areas_time(ps, z, areas) <= total_time(ps),
        0 <= zone_time(ps, z) <= total_time(ps),
    decreases ps.len(),
{
    if ps.len() > 0 {
        lemma_times_bounded(ps.drop_last(), z, areas);
    }
}

/// The prefix one longer is the prefix with the next person pushed.
proof fn lemma_take_push(ps: Seq<Person>, i: int)
    requires
        0 <= i < ps.len(),
    ensures
        ps.take(i + 1).drop_last() == ps.take(i),
        ps.take(i + 1).last() == ps[i],
{
    assert(ps.take(i + 1).drop_last() =~= ps.take(i));
}

/// Whether a list of names holds one with these characters.
fn contains_name(names: &Vec<String>, name: &String) -> (b: bool)
    ensures
        b == names.deep_view().contains(name@),
{
    let mut i: usize = 0;
    while i < names.len()
        invariant
            i <= names@.len(),
            forall|j: int| 0 <= j < i ==> names@[j]@ != name@,
        decreases names@.len() - i,
    {
        if names[i] == *name {
            assert(names.deep_view()[i as int] == name@);
            return true;
        }
        i = i + 1;
    }
    assert forall|j: int| 0 <= j < names.deep_view().len() implies names.deep_view()[j] != name@ by {
        assert(names.deep_view()[j] == names@[j]@);
    }
    false
}

/// Adds a name unless one with the same characters is there already.
fn push_if_absent(names: &mut Vec<String>, name: &String)
    ensures
        final(names).deep_view() == if old(names).deep_view().contains(name@) {
            old(names).deep_view()
        } else {
            old(names).deep_view().push(name@)
        },
{
    if !contains_name(names, name) {
        names.push(name.clone());
        assert(names.deep_view() =~= old(names).deep_view().push(name@));
    }
}

/// The areas of zone `z`, each once, in order of first appearance.
fn areas_of_zone(persons: &Vec<Person>, zone: &String) -> (areas: Vec<String>)
    ensures
        areas.deep_view() == dedup(area_names_in(persons@, zone@)),
{
    let mut areas: Vec<String> = Vec::new();
    let mut i: usize = 0;
    while i < persons.len()
        invariant
            i <= persons@.len(),
            areas.deep_view() == dedup(area_names_in(persons@.take(i as int), zone@)),
        decreases persons@.len() - i,
    {
        proof {
            lemma_take_push(persons@, i as int);
        }
        let ghost before = area_names_in(persons@.take(i as int), zone@);
        let person = &persons[i];
        match (&person.zone_name, &person.area_name) {
            (Some(zone_name), Some(area_name)) => {
                if *zone_name == *zone {
                    assert(area_names_in(persons@.take(i + 1), zone@) == before.push(area_name@));
                    assert(before.push(area_name@).drop_last() =~= before);
                    push_if_absent(&mut areas, area_name);
                } else {
                    assert(area_names_in(persons@.take(i + 1), zone@) =~= before);
                }
            },
            _ => {
                assert(area_names_in(persons@.take(i + 1), zone@) =~= before);
            },
        }
        i = i + 1;
    }
    assert(persons@.take(persons@.len() as int) =~= persons@);
    areas
}

/// Every zone of the placed people with its areas, each in order of first
/// appearance.
fn zone_area_names(persons_list: &Vec<Person>) -> (zones: Vec<(String, Vec<String>)>)
    ensures
        zones.deep_view() == zone_areas(persons_list@),
{
    let mut names: Vec<String> = Vec::new();
    let mut i: usize = 0;
    while i < persons_list.len()
        invariant
            i <= persons_list@.len(),
            names.deep_view() == dedup(zone_names(persons_list@.take(i as int))),
        decreases persons_list@.len() - i,
    {
        proof {
            lemma_take_push(persons_list@, i as int);
        }
        let ghost before = zone_names(persons_list@.take(i as int));
        let person = &persons_list[i];
        match (&person.zone_name, &person.area_name) {
            (Some(zone_name), Some(_)) => {
                assert(zone_names(persons_list@.take(i + 1)) == before.push(zone_name@));
                assert(before.push(zone_name@).drop_last() =~= before);
                push_if_absent(&mut names, zone_name);
            },
            _ => {
                assert(zone_names(persons_list@.take(i + 1)) =~= before);
            },
        }
        i = i + 1;
    }
    assert(persons_list@.take(persons_list@.len() as int) =~= persons_list@);
    let ghost zone_views = names.deep_view();
    let mut zones: Vec<(String, Vec<String>)> = Vec::new();
    let mut k: usize = 0;
    while k < names.len()
        invariant
            k <= names@.len(),
            zone_views == names.deep_view(),
            zone_views == dedup(zone_names(persons_list@)),
            zones.deep_view() == zone_views.take(k as int).map_values(
                |z: Seq<char>| (z, dedup(area_names_in(persons_list@, z))),
            ),
        decreases names@.len() - k,
    {
        let areas = areas_of_zone(persons_list, &names[k]);
        assert(zone_views[k as int] == names@[k as int]@);
        let ghost old_view = zones.deep_view();
        let ghost z = zone_views[k as int];
        zones.push((names[k].clone(), areas));
        assert(zones.deep_view() =~= old_view.push((z, dedup(area_names_in(persons_list@, z)))));
        assert(zone_views.take(k + 1).map_values(
            |z: Seq<char>| (z, dedup(area_names_in(persons_list@, z))),
        ) =~= zone_views.take(k as int).map_values(
            |z: Seq<char>| (z, dedup(area_names_in(persons_list@, z))),
        ).push((z, dedup(area_names_in(persons_list@, z)))));
        k = k + 1;
    }
    assert(zone_views.take(names@.len() as int) =~= zone_views);
    zones
}

/// The person is placed in zone `z` and area `a`.
pub open spec fn in_pair(p: Person, z: Seq<char>, a: Seq<char>) -> bool {
    placed(p) && in_zone(p, z) && in_area(p, a)
}

/// The index of the first person placed in zone `z` and area `a`, or -1.
pub open spec fn first_pair_index(ps: Seq<Person>, z: Seq<char>, a: Seq<char>) -> int
    decreases ps.len(),
{
    if ps.len() == 0 {
        -1
    } else {
        let r = first_pair_index(ps.drop_last(), z, a);
        if r >= 0 {
            r
        } else if in_pair(ps.last(), z, a) {
            ps.len() - 1
        } else {
            -1
        }
    }
}

/// The names of an aggregation: each zone with the names of its areas.
pub open spec fn aggregate_names<T>(zones: Seq<(String, Vec<(String, T)>)>) -> Seq<(Seq<char>, Seq<Seq<char>>)> {
    zones.map_values(|e: (String, Vec<(String, T)>)| (e.0@, e.1@.map_values(|x: (String, T)| x.0@)))
}

proof fn lemma_first_pair_index_bounds(ps: Seq<Person>, z: Seq<char>, a: Seq<char>)
    ensures
        -1 <= first_pair_index(ps, z, a) < ps.len(),
        first_pair_index(ps, z, a) >= 0 ==> in_pair(ps[first_pair_index(ps, z, a)], z, a),
    decreases ps.len(),
{
    if ps.len() > 0 {
        lemma_first_pair_index_bounds(ps.drop_last(), z, a);
        let r = first_pair_index(ps.drop_last(), z, a);
        if r >= 0 {
            assert(ps[r] == ps.drop_last()[r]);
        }
    }
}

proof fn lemma_first_pair_index_prefix(ps: Seq<Person>, z: Seq<char>, a: Seq<char>, m: int)
    requires
        0 <= m <= ps.len(),
        first_pair_index(ps.take(m), z, a) >= 0,
    ensures
        first_pair_index(ps, z, a) == first_pair_index(ps.take(m), z, a),
    decreases ps.len(),
{
    if m < ps.len() {
        assert(ps.drop_last().take(m) =~= ps.take(m));
        lemma_first_pair_index_prefix(ps.drop_last(), z, a, m);
    } else {
        assert(ps.take(m) =~= ps);
    }
}

proof fn lemma_area_named_has_first_index(ps: Seq<Person>, z: Seq<char>, a: Seq<char>)
    requires
        area_names_in(ps, z).contains(a),
    ensures
        first_pair_index(ps, z, a) >= 0,
    decreases ps.len(),
{
    if ps.len() > 0 {
        let p = ps.last();
        let prefix = area_names_in(ps.drop_last(), z);
        if prefix.contains(a) {
            lemma_area_named_has_first_index(ps.drop_last(), z, a);
        } else {
            let i = choose|i: int| 0 <= i < area_names_in(ps, z).len() && area_names_in(ps, z)[i] == a;
            if placed(p) && in_zone(p, z) {
                assert(area_names_in(ps, z) == prefix + seq![p.area_name->0@]);
                if i < prefix.len() {
                    assert(prefix[i] == a);
                }
            } else {
                assert(area_names_in(ps, z) == prefix + Seq::<Seq<char>>::empty());
                assert(area_names_in(ps, z) =~= prefix);
            }
        }
    }
}

/// The first person placed in zone `zone` and area `area`.
fn first_in_pair(persons: &Vec<Person>, zone: &String, area: &String) -> (res: Option<usize>)
    ensures
        match res {
            Some(i) => i as int == first_pair_index(persons@, zone@, area@),
            None => first_pair_index(persons@, zone@, area@) == -1,
        },
{
    let mut i: usize = 0;
    while i < persons.len()
        invariant
            i <= persons@.len(),
            first_pair_index(persons@.take(i as int), zone@, area@) == -1,
        decreases persons@.len() - i,
    {
        proof {
            lemma_take_push(persons@, i as int);
        }
        let person = &persons[i];
        let found = match (&person.zone_name, &person.area_name) {
            (Some(z), Some(a)) => *z == *zone && *a == *area,
            _ => false,
        };
        if found {
            assert(in_pair(persons@[i as int], zone@, area@));
            proof {
                lemma_first_pair_index_prefix(persons@, zone@, area@, i + 1);
            }
            return Some(i);
        }
        assert(!in_pair(persons@[i as int], zone@, area@));
        i = i + 1;
    }
    assert(persons@.take(persons@.len() as int) =~= persons@);
    None
}

/// Every zone of the placed people with its areas, each in order of first
/// appearance, and with each zone and area pair the value that `value_fn`
/// gives for the first person placed there; `value_fn` is called once per
/// pair.
pub fn aggregate_zones_areas<T, F: Fn(&Person) -> T>(persons_list: &Vec<Person>, value_fn: F) -> (zones: Vec<(String, Vec<(String, T)>)>)
    requires
        forall|i: int| 0 <= i < persons_list@.len() ==> call_requires(value_fn, (&persons_list@[i],)),
    ensures
        aggregate_names(zones@) == zone_areas(persons_list@),
        forall|i: int, j: int|
            0 <= i < zones@.len() && 0 <= j < zones@[i].1@.len() ==> {
                let k = first_pair_index(persons_list@, zones@[i].0@, #[trigger] zones@[i].1@[j].0@);
                &&& 0 <= k < persons_list@.len()
                &&& call_ensures(value_fn, (&persons_list@[k],), zones@[i].1@[j].1)
            },
{
    let names = zone_area_names(persons_list);
    let ghost zas = names.deep_view();
    let mut zones: Vec<(String, Vec<(String, T)>)> = Vec::new();
    let mut i: usize = 0;
    while i < names.len()
        invariant
            i <= names@.len(),
            zas == names.deep_view(),
            zas == zone_areas(persons_list@),
            forall|k: int| 0 <= k < persons_list@.len() ==> call_requires(value_fn, (&persons_list@[k],)),
            aggregate_names(zones@) == zas.take(i as int),
            forall|a: int, b: int|
                0 <= a < zones@.len() && 0 <= b < zones@[a].1@.len() ==> {
                    let k = first_pair_index(persons_list@, zones@[a].0@, #[trigger] zones@[a].1@[b].0@);
                    &&& 0 <= k < persons_list@.len()
                    &&& call_ensures(value_fn, (&persons_list@[k],), zones@[a].1@[b].1)
                },
        decreases names@.len() - i,
    {
        let zone = &names[i].0;
        let area_names = &names[i].1;
        let ghost z = zas[i as int].0;
        let ghost areas_view = zas[i as int].1;
        assert(z == zone@ && areas_view == area_names.deep_view());
        assert(zas.len() == names@.len());
        let ghost zs = dedup(zone_names(persons_list@));
        assert(zas[i as int] == (zs[i as int], dedup(area_names_in(persons_list@, zs[i as int]))));
        assert(areas_view == dedup(area_names_in(persons_list@, z)));
        proof {
            lemma_dedup_distinct(area_names_in(persons_list@, z));
        }
        let mut areas: Vec<(String, T)> = Vec::new();
        let mut j: usize = 0;
        while j < area_names.len()
            invariant
                j <= area_names@.len(),
                z == zone@,
                areas_view == area_names.deep_view(),
                forall|x: Seq<char>| areas_view.contains(x) ==> area_names_in(persons_list@, z).contains(x),
                forall|k: int| 0 <= k < persons_list@.len() ==> call_requires(value_fn, (&persons_list@[k],)),
                areas@.map_values(|x: (String, T)| x.0@) == areas_view.take(j as int),
                forall|b: int|
                    0 <= b < areas@.len() ==> {
                        let k = first_pair_index(persons_list@, z, #[trigger] areas@[b].0@);
                        &&& 0 <= k < persons_list@.len()
                        &&& call_ensures(value_fn, (&persons_list@[k],), areas@[b].1)
                    },
            decreases area_names@.len() - j,
        {
            let area = &area_names[j];
            assert(areas_view[j as int] == area@);
            assert(areas_view.contains(area@));
            proof {
                lemma_area_named_has_first_index(persons_list@, z, area@);
                lemma_first_pair_index_bounds(persons_list@, z, area@);
            }
            let first = first_in_pair(persons_list, zone, area);
            let k = first.unwrap();
            let value = value_fn(&persons_list[k]);
            let ghost before = areas@;
            areas.push((area.clone(), value));
            assert(areas@.map_values(|x: (String, T)| x.0@) =~= before.map_values(|x: (String, T)| x.0@).push(area@));
            assert(areas_view.take(j + 1) =~= areas_view.take(j as int).push(area@));
            assert forall|b: int| 0 <= b < areas@.len() implies {
                let k = first_pair_index(persons_list@, z, #[trigger] areas@[b].0@);
                &&& 0 <= k < persons_list@.len()
                &&& call_ensures(value_fn, (&persons_list@[k],), areas@[b].1)
            } by {
                if b < before.len() {
                    assert(areas@[b] == before[b]);
                }
            }
            j = j + 1;
        }
        assert(areas_view.take(area_names@.len() as int) =~= areas_view);
        let ghost before = zones@;
        zones.push((zone.clone(), areas));
        assert(aggregate_names(zones@) =~= aggregate_names(before).push(zas[i as int]));
        assert(zas.take(i + 1) =~= zas.take(i as int).push(zas[i as int]));
        assert forall|a: int, b: int|
            0 <= a < zones@.len() && 0 <= b < zones@[a].1@.len() implies {
                let k = first_pair_index(persons_list@, zones@[a].0@, #[trigger] zones@[a].1@[b].0@);
                &&& 0 <= k < persons_list@.len()
                &&& call_ensures(value_fn, (&persons_list@[k],), zones@[a].1@[b].1)
            } by {
            if a < before.len() {
                assert(zones@[a] == before[a]);
            }
        }
        i = i + 1;
    }
    assert(zas.take(names@.len() as int) =~= zas);
    zones
}

/// Identifier and first name of each person, as characters.
pub type NamesView = Seq<(Seq<char>, Seq<char>)>;

/// The index of the first entry with key `k`, or -1.
pub open spec fn key_position<V>(m: Seq<(Seq<char>, V)>, k: Seq<char>) -> int
    decreases m.len(),
{
    if m.len() == 0 {
        -1
    } else if m[0].0 == k {
        0
    } else {
        let r = key_position(m.drop_first(), k);
        if r < 0 {
            -1
        } else {
            r + 1
        }
    }
}

/// The entries with the value under `k` replaced, or the entry added at the
/// end when `k` is new.
pub open spec fn assoc_insert<V>(m: Seq<(Seq<char>, V)>, k: Seq<char>, v: V) -> Seq<(Seq<char>, V)> {
    let i = key_position(m, k);
    if i >= 0 {
        m.update(i, (k, v))
    } else {
        m.push((k, v))
    }
}

proof fn lemma_key_position<V>(m: Seq<(Seq<char>, V)>, k: Seq<char>, i: int)
    requires
        0 <= i <= m.len(),
        forall|j: int| 0 <= j < i ==> m[j].0 != k,
    ensures
        i < m.len() && m[i].0 == k ==> key_position(m, k) == i,
        i == m.len() ==> key_position(m, k) == -1,
    decreases i,
{
    if i > 0 {
        let rest = m.drop_first();
        assert forall|j: int| 0 <= j < i - 1 implies rest[j].0 != k by {
            assert(rest[j] == m[j + 1]);
        }
        lemma_key_position(rest, k, i - 1);
        if i < m.len() {
            assert(rest[i - 1] == m[i]);
        }
    } else if m.len() == 0 {
    }
}

/// Stores `value` under `key`: replaces the value of the entry with that key,
/// or adds an entry at the end.
pub fn insert_entry<V: DeepView>(m: &mut Vec<(String, V)>, key: String, value: V)
    ensures
        final(m).deep_view() == assoc_insert(old(m).deep_view(), key@, value.deep_view()),
{
    let ghost before = m.deep_view();
    let mut i: usize = 0;
    while i < m.len()
        invariant
            i <= m@.len(),
            before == m.deep_view(),
            before == old(m).deep_view(),
            forall|j: int| 0 <= j < i ==> before[j].0 != key@,
        decreases m@.len() - i,
    {
        if m[i].0 == key {
            proof {
                assert(before[i as int].0 == key@);
                lemma_key_position(before, key@, i as int);
            }
            let ghost k = key@;
            let ghost v = value.deep_view();
            m.set(i, (key, value));
            assert(m.deep_view() =~= before.update(i as int, (k, v)));
            return;
        }
        i = i + 1;
    }
    proof {
        lemma_key_position(before, key@, i as int);
    }
    let ghost k = key@;
    let ghost v = value.deep_view();
    m.push((key, value));
    assert(m.deep_view() =~= before.push((k, v)));
}

/// Appends copies of the pairs in `src` to `dst`.
pub fn append_pairs(dst: &mut Vec<(String, String)>, src: &Vec<(String, String)>)
    ensures
        final(dst).deep_view() == old(dst).deep_view() + src.deep_view(),
{
    let ghost before = dst.deep_view();
    let mut i: usize = 0;
    while i < src.len()
        invariant
            i <= src@.len(),
            dst.deep_view() == before + src.deep_view().take(i as int),
        decreases src@.len() - i,
    {
        let ghost old_view = dst.deep_view();
        dst.push((src[i].0.clone(), src[i].1.clone()));
        assert(dst.deep_view() =~= old_view.push(src.deep_view()[i as int]));
        assert(src.deep_view().take(i + 1) =~= src.deep_view().take(i as int).push(src.deep_view()[i as int]));
        i = i + 1;
    }
    assert(src.deep_view().take(src@.len() as int) =~= src.deep_view());
}

/// The people in zone `zone` and area `area` (only those with a response time
/// when `timed_only`).
fn area_people_of(persons: &Vec<Person>, zone: &String, area: &String, timed_only: bool) -> (res: Vec<(String, String)>)
    ensures
        res.deep_view() == area_people(persons@, zone@, area@, timed_only),
{
    let mut res: Vec<(String, String)> = Vec::new();
    let mut i: usize = 0;
    while i < persons.len()
        invariant
            i <= persons@.len(),
            res.deep_view() == area_people(persons@.take(i as int), zone@, area@, timed_only),
        decreases persons@.len() - i,
    {
        proof {
            lemma_take_push(persons@, i as int);
        }
        let person = &persons[i];
        let ghost before = res.deep_view();
        match (&person.zone_name, &person.area_name) {
            (Some(zone_name), Some(area_name)) => {
                if (!timed_only || person.response_time.is_some()) && *zone_name == *zone && *area_name == *area {
                    res.push((person.guid.clone(), person.first_name.clone()));
                    assert(res.deep_view() =~= before + seq![(person.guid@, person.first_name@)]);
                } else {
                    assert(before =~= before + Seq::<(Seq<char>, Seq<char>)>::empty());
                }
            },
            _ => {
                assert(before =~= before + Seq::<(Seq<char>, Seq<char>)>::empty());
            },
        }
        i = i + 1;
    }
    assert(persons@.take(persons@.len() as int) =~= persons@);
    res
}

/// The people of each area of `areas` in turn.
fn zone_people_of(persons: &Vec<Person>, zone: &String, areas: &Vec<String>, timed_only: bool) -> (res: Vec<(String, String)>)
    ensures
        res.deep_view() == zone_people(persons@, zone@, areas.deep_view(), timed_only),
{
    let ghost area_views = areas.deep_view();
    let mut res: Vec<(String, String)> = Vec::new();
    let mut j: usize = 0;
    while j < areas.len()
        invariant
            j <= areas@.len(),
            area_views == areas.deep_view(),
            res.deep_view() == zone_people(persons@, zone@, area_views.take(j as int), timed_only),
        decreases areas@.len() - j,
    {
        let people = area_people_of(persons, zone, &areas[j], timed_only);
        assert(area_views.take(j + 1).drop_last() =~= area_views.take(j as int));
        assert(area_views.take(j + 1).last() == areas@[j as int]@);
        append_pairs(&mut res, &people);
        j = j + 1;
    }
    assert(area_views.take(areas@.len() as int) =~= area_views);
    res
}

/// Summed response times of the timed people in `zone` whose area is among
/// `areas`.
fn areas_time_of(persons: &Vec<Person>, zone: &String, areas: &Vec<String>) -> (t: usize)
    requires
        total_time(persons@) <= usize::MAX,
    ensures
        t == areas_time(persons@, zone@, areas.deep_view()),
{
    let mut t: usize = 0;
    let mut i: usize = 0;
    while i < persons.len()
        invariant
            i <= persons@.len(),
            total_time(persons@) <= usize::MAX,
            t == areas_time(persons@.take(i as int), zone@, areas.deep_view()),
        decreases persons@.len() - i,
    {
        proof {
            lemma_take_push(persons@, i as int);
            lemma_times_bounded(persons@.take(i + 1), zone@, areas.deep_view());
            lemma_total_time_prefix(persons@, i + 1);
        }
        let person = &persons[i];
        match (&person.zone_name, &person.area_name, person.response_time) {
            (Some(zone_name), Some(area_name), Some(time)) => {
                if *zone_name == *zone && contains_name(areas, area_name) {
                    t = t + time;
                }
            },
            _ => {},
        }
        i = i + 1;
    }
    assert(persons@.take(persons@.len() as int) =~= persons@);
    t
}

/// Summed response times of all timed people.
fn total_time_of(persons: &Vec<Person>) -> (t: usize)
    requires
        total_time(persons@) <= usize::MAX,
    ensures
        t == total_time(persons@),
{
    let mut t: usize = 0;
    let mut i: usize = 0;
    while i < persons.len()
        invariant
            i <= persons@.len(),
            total_time(persons@) <= usize::MAX,
            t == total_time(persons@.take(i as int)),
        decreases persons@.len() - i,
    {
        proof {
            lemma_take_push(persons@, i as int);
            lemma_total_time_prefix(persons@, i + 1);
        }
        let person = &persons[i];
        match (&person.zone_name, &person.area_name, person.response_time) {
            (Some(_), Some(_), Some(time)) => {
                t = t + time;
            },
            _ => {},
        }
        i = i + 1;
    }
    assert(persons@.take(persons@.len() as int) =~= persons@);
    t
}

/// A prefix's total never exceeds the whole total.
proof fn lemma_total_time_prefix(ps: Seq<Person>, i: int)
    requires
        0 <= i <= ps.len(),
    ensures
        0 <= total_time(ps.take(i)) <= total_time(ps),
    decreases ps.len() - i,
{
    if i < ps.len() {
        lemma_total_time_prefix(ps, i + 1);
        lemma_take_push(ps, i);
        lemma_times_bounded(ps.take(i), Seq::empty(), Seq::empty());
        assert(total_time(ps.take(i + 1)) >= total_time(ps.take(i)));
    } else {
        assert(ps.take(i) =~= ps);
        lemma_times_bounded(ps, Seq::empty(), Seq::empty());
    }
}

/// The people of every zone in turn, one list after the other.
pub open spec fn mission_people(ps: Seq<Person>, zas: Seq<(Seq<char>, Seq<Seq<char>>)>) -> NamesView
    decreases zas.len(),
{
    if zas.len() == 0 {
        Seq::empty()
    } else {
        mission_people(ps, zas.drop_last()) + zone_people(ps, zas.last().0, zas.last().1, true)
    }
}

/// A zone's entry in the mission-wide report: its timed people and the
/// average of their response times.
pub open spec fn zone_entry(ps: Seq<Person>, za: (Seq<char>, Seq<Seq<char>>)) -> (Seq<char>, (NamesView, usize)) {
    let people = zone_people(ps, za.0, za.1, true);
    (za.0, (people, (areas_time(ps, za.0, za.1) / people.len() as int) as usize))
}

/// The mission-wide report: one entry per zone, then the mission total.
pub open spec fn mission_averages(ps: Seq<Person>) -> Seq<(Seq<char>, (NamesView, usize))> {
    let zas = zone_areas(ps);
    let people = mission_people(ps, zas);
    assoc_insert(
        zas.map_values(|za: (Seq<char>, Seq<Seq<char>>)| zone_entry(ps, za)),
        "Mission Total"@,
        (people, (total_time(ps) / people.len() as int) as usize),
    )
}

/// An area's entry in a zone report: its timed people, and the response
/// times of the zone's areas up to and including this one divided by this
/// area's count (0 while that sum is 0).
pub open spec fn area_entry(ps: Seq<Person>, z: Seq<char>, areas: Seq<Seq<char>>, j: int) -> (Seq<char>, (NamesView, usize)) {
    let people = area_people(ps, z, areas[j], true);
    let cumulative = areas_time(ps, z, areas.take(j + 1));
    (areas[j], (people, if cumulative > 0 {
        (cumulative / people.len() as int) as usize
    } else {
        0
    }))
}

/// The report for one zone: one entry per area, then the zone total; empty
/// when no placed person is in the zone.
pub open spec fn zone_averages(ps: Seq<Person>, z: Seq<char>) -> Seq<(Seq<char>, (NamesView, usize))> {
    let zas = zone_areas(ps);
    let k = key_position(zas, z);
    if k < 0 {
        Seq::empty()
    } else {
        let areas = zas[k].1;
        let people = zone_people(ps, z, areas, true);
        assoc_insert(
            Seq::new(areas.len(), |j: int| area_entry(ps, z, areas, j)),
            "Zone Total"@,
            (people, (areas_time(ps, z, areas) / people.len() as int) as usize),
        )
    }
}

/// The averages can be taken: the response times sum within a `usize`, and
/// no average divides by an empty list.
pub open spec fn average_defined(requested_zone: Option<Seq<char>>, ps: Seq<Person>) -> bool {
    let zas = zone_areas(ps);
    &&& total_time(ps) <= usize::MAX
    &&& match requested_zone {
        None => {
            &&& forall|i: int|
                0 <= i < zas.len() ==> #[trigger] zone_people(ps, zas[i].0, zas[i].1, true).len() > 0
            &&& mission_people(ps, zas).len() > 0
        },
        Some(z) => {
            let k = key_position(zas, z);
            k >= 0 ==> {
                &&& zone_people(ps, z, zas[k].1, true).len() > 0
                &&& forall|j: int|
                    0 <= j < zas[k].1.len() ==> (areas_time(ps, z, zas[k].1.take(j + 1)) > 0
                        ==> #[trigger] area_people(ps, z, zas[k].1[j], true).len() > 0)
            }
        },
    }
}

/// The characters of an optional name.
pub open spec fn opt_view(name: Option<String>) -> Option<Seq<char>> {
    match name {
        Some(n) => Some(n@),
        None => None,
    }
}

/// The index of the zone named `zone`, if there is one.
fn zone_position(zones: &Vec<(String, Vec<String>)>, zone: &String) -> (res: Option<usize>)
    ensures
        res matches Some(k) ==> k < zones@.len() && key_position(zones.deep_view(), zone@) == k,
        res is None ==> key_position(zones.deep_view(), zone@) == -1,
{
    let ghost views = zones.deep_view();
    let mut k: usize = 0;
    while k < zones.len()
        invariant
            k <= zones@.len(),
            views == zones.deep_view(),
            forall|j: int| 0 <= j < k ==> views[j].0 != zone@,
        decreases zones@.len() - k,
    {
        if zones[k].0 == *zone {
            proof {
                assert(views[k as int].0 == zone@);
                lemma_key_position(views, zone@, k as int);
            }
            return Some(k);
        }
        k = k + 1;
    }
    proof {
        lemma_key_position(views, zone@, k as int);
    }
    None
}

/// Average response times: with a zone, per area of that zone and for the
/// zone as a whole; without one, per zone and for the whole mission.
pub fn get_average(requested_zone: Option<String>, persons_list: &Vec<Person>) -> (res: AreaAverageResponseTime)
    requires
        average_defined(opt_view(requested_zone), persons_list@),
    ensures
        res.deep_view() == match requested_zone {
            Some(z) => zone_averages(persons_list@, z@),
            None => mission_averages(persons_list@),
        },
{
    let ghost ps = persons_list@;
    let zones = zone_area_names(persons_list);
    let ghost zas = zones.deep_view();
    let mut res: AreaAverageResponseTime = Vec::new();
    match requested_zone {
        Some(zone_name) => {
            match zone_position(&zones, &zone_name) {
                Some(k) => {
                    let areas = &zones[k].1;
                    let ghost area_views = areas.deep_view();
                    assert(area_views == zas[k as int].1);
                    let mut zone_total_people: Vec<(String, String)> = Vec::new();
                    let mut seen_areas: Vec<String> = Vec::new();
                    let mut j: usize = 0;
                    while j < areas.len()
                        invariant
                            j <= areas@.len(),
                            ps == persons_list@,
                            area_views == areas.deep_view(),
                            k < zas.len(),
                            area_views == zas[k as int].1,
                            zas == zone_areas(ps),
                            key_position(zas, zone_name@) == k,
                            average_defined(Some(zone_name@), ps),
                            seen_areas.deep_view() == area_views.take(j as int),
                            zone_total_people.deep_view() == zone_people(ps, zone_name@, area_views.take(j as int), true),
                            res.deep_view() == Seq::new(j as nat, |i: int| area_entry(ps, zone_name@, area_views, i)),
                        decreases areas@.len() - j,
                    {
                        let people = area_people_of(persons_list, &zone_name, &areas[j], true);
                        let count = people.len();
                        append_pairs(&mut zone_total_people, &people);
                        let ghost old_seen = seen_areas.deep_view();
                        seen_areas.push(areas[j].clone());
                        assert(seen_areas.deep_view() =~= area_views.take(j + 1));
                        assert(area_views.take(j + 1).drop_last() =~= area_views.take(j as int));
                        assert(area_views.take(j + 1).last() == areas@[j as int]@);
                        let zone_total_time = areas_time_of(persons_list, &zone_name, &seen_areas);
                        assert(area_people(ps, zone_name@, area_views[j as int], true).len() == count);
                        let avg = if zone_total_time > 0 {
                            zone_total_time / count
                        } else {
                            0
                        };
                        let ghost old_res = res.deep_view();
                        let ghost e = area_entry(ps, zone_name@, area_views, j as int);
                        let ghost people_view = people.deep_view();
                        assert(e.0 == areas@[j as int]@);
                        assert(e.1.0 == people_view);
                        assert(e.1.1 == avg);
                        res.push((areas[j].clone(), (people, avg)));
                        assert(res.deep_view() =~= old_res.push(e));
                        assert(res.deep_view() =~= Seq::new((j + 1) as nat, |i: int| area_entry(ps, zone_name@, area_views, i)));
                        j = j + 1;
                    }
                    assert(area_views.take(areas@.len() as int) =~= area_views);
                    let zone_total_time = areas_time_of(persons_list, &zone_name, areas);
                    let count = zone_total_people.len();
                    insert_entry(&mut res, "Zone Total".to_string(), (zone_total_people, zone_total_time / count));
                },
                None => {},
            }
        },
        None => {
            let mut total_people: Vec<(String, String)> = Vec::new();
            let mut k: usize = 0;
            while k < zones.len()
                invariant
                    k <= zones@.len(),
                    ps == persons_list@,
                    zas == zones.deep_view(),
                    zas == zone_areas(ps),
                    average_defined(None, ps),
                    total_people.deep_view() == mission_people(ps, zas.take(k as int)),
                    res.deep_view() == zas.take(k as int).map_values(
                        |za: (Seq<char>, Seq<Seq<char>>)| zone_entry(ps, za),
                    ),
                decreases zones@.len() - k,
            {
                let zone_name = &zones[k].0;
                let areas = &zones[k].1;
                assert(zas[k as int] == (zone_name@, areas.deep_view()));
                let people = zone_people_of(persons_list, zone_name, areas, true);
                let total = areas_time_of(persons_list, zone_name, areas);
                let count = people.len();
                assert(zone_people(ps, zas[k as int].0, zas[k as int].1, true).len() > 0);
                append_pairs(&mut total_people, &people);
                assert(zas.take(k + 1).drop_last() =~= zas.take(k as int));
                let ghost old_res = res.deep_view();
                res.push((zone_name.clone(), (people, total / count)));
                assert(res.deep_view() =~= old_res.push(zone_entry(ps, zas[k as int])));
                assert(zas.take(k + 1).map_values(|za: (Seq<char>, Seq<Seq<char>>)| zone_entry(ps, za))
                    =~= zas.take(k as int).map_values(|za: (Seq<char>, Seq<Seq<char>>)| zone_entry(ps, za)).push(
                    zone_entry(ps, zas[k as int])));
                k = k + 1;
            }
            assert(zas.take(zones@.len() as int) =~= zas);
            let total_time = total_time_of(persons_list);
            let count = total_people.len();
            insert_entry(&mut res, "Mission Total".to_string(), (total_people, total_time / count));
        },
    }
    res
}

/// Whether the response times of all timed people sum within a `usize`.
fn total_time_fits(persons: &Vec<Person>) -> (b: bool)
    ensures
        b == (total_time(persons@) <= usize::MAX),
{
    let mut t: usize = 0;
    let mut i: usize = 0;
    while i < persons.len()
        invariant
            i <= persons@.len(),
            t == total_time(persons@.take(i as int)),
        decreases persons@.len() - i,
    {
        proof {
            lemma_take_push(persons@, i as int);
            lemma_total_time_prefix(persons@, i + 1);
        }
        let person = &persons[i];
        match (&person.zone_name, &person.area_name, person.response_time) {
            (Some(_), Some(_), Some(time)) => {
                match t.checked_add(time) {
                    Some(sum) => {
                        t = sum;
                    },
                    None => {
                        return false;
                    },
                }
            },
            _ => {},
        }
        i = i + 1;
    }
    assert(persons@.take(persons@.len() as int) =~= persons@);
    true
}

/// Whether `get_average` can take its averages for these arguments: the
/// response times sum within a `usize` and no average divides by an empty
/// list.
pub fn average_is_defined(requested_zone: &Option<String>, persons_list: &Vec<Person>) -> (b: bool)
    ensures
        b == average_defined(opt_view(*requested_zone), persons_list@),
{
    let ghost ps = persons_list@;
    if !total_time_fits(persons_list) {
        return false;
    }
    let zones = zone_area_names(persons_list);
    let ghost zas = zones.deep_view();
    match requested_zone {
        Some(zone_name) => {
            match zone_position(&zones, zone_name) {
                Some(k) => {
                    let areas = &zones[k].1;
                    let ghost area_views = areas.deep_view();
                    let people = zone_people_of(persons_list, zone_name, areas, true);
                    if people.len() == 0 {
                        return false;
                    }
                    let mut seen_areas: Vec<String> = Vec::new();
                    let mut j: usize = 0;
                    while j < areas.len()
                        invariant
                            j <= areas@.len(),
                            ps == persons_list@,
                            k < zas.len(),
                            opt_view(*requested_zone) == Some(zone_name@),
                            zas == zone_areas(ps),
                            key_position(zas, zone_name@) == k,
                            area_views == areas.deep_view(),
                            area_views == zas[k as int].1,
                            total_time(ps) <= usize::MAX,
                            zone_people(ps, zone_name@, area_views, true).len() > 0,
                            seen_areas.deep_view() == area_views.take(j as int),
                            forall|i: int|
                                0 <= i < j ==> (areas_time(ps, zone_name@, area_views.take(i + 1)) > 0
                                    ==> #[trigger] area_people(ps, zone_name@, area_views[i], true).len() > 0),
                        decreases areas@.len() - j,
                    {
                        let count = area_people_of(persons_list, zone_name, &areas[j], true).len();
                        assert(area_views[j as int] == areas@[j as int]@);
                        let ghost old_seen = seen_areas.deep_view();
                        seen_areas.push(areas[j].clone());
                        assert(seen_areas.deep_view() =~= old_seen.push(area_views[j as int]));
                        assert(seen_areas.deep_view() =~= area_views.take(j + 1));
                        let cumulative = areas_time_of(persons_list, zone_name, &seen_areas);
                        if cumulative > 0 && count == 0 {
                            assert(area_people(ps, zone_name@, zas[k as int].1[j as int], true).len() == 0);
                            assert(areas_time(ps, zone_name@, zas[k as int].1.take(j + 1)) > 0);
                            return false;
                        }
                        j = j + 1;
                    }
                    true
                },
                None => true,
            }
        },
        None => {
            let mut total_people: Vec<(String, String)> = Vec::new();
            let mut k: usize = 0;
            while k < zones.len()
                invariant
                    k <= zones@.len(),
                    ps == persons_list@,
                    zas == zones.deep_view(),
                    zas == zone_areas(ps),
                    *requested_zone is None,
                    total_people.deep_view() == mission_people(ps, zas.take(k as int)),
                    forall|i: int|
                        0 <= i < k ==> #[trigger] zone_people(ps, zas[i].0, zas[i].1, true).len() > 0,
                decreases zones@.len() - k,
            {
                let zone_name = &zones[k].0;
                let areas = &zones[k].1;
                assert(zas[k as int] == (zone_name@, areas.deep_view()));
                let people = zone_people_of(persons_list, zone_name, areas, true);
                if people.len() == 0 {
                    assert(zone_people(ps, zas[k as int].0, zas[k as int].1, true).len() == 0);
                    return false;
                }
                append_pairs(&mut total_people, &people);
                assert(zas.take(k + 1).drop_last() =~= zas.take(k as int));
                k = k + 1;
            }
            assert(zas.take(zones@.len() as int) =~= zas);
            total_people.len() > 0
        },
    }
}

/// The people of every area (with a zone) or of every zone (without one),
/// whatever their response time.
pub open spec fn uncontacted(requested_zone: Option<Seq<char>>, ps: Seq<Person>) -> Seq<(Seq<char>, NamesView)> {
    let zas = zone_areas(ps);
    match requested_zone {
        Some(z) => {
            let k = key_position(zas, z);
            if k < 0 {
                Seq::empty()
            } else {
                zas[k].1.map_values(|a: Seq<char>| (a, area_people(ps, z, a, false)))
            }
        },
        None => zas.map_values(
            |za: (Seq<char>, Seq<Seq<char>>)| (za.0, zone_people(ps, za.0, za.1, false)),
        ),
    }
}

/// The people of each area of the requested zone, or of each zone when none
/// is requested.
pub fn get_uncontacted(requested_zone: Option<String>, persons_list: &Vec<Person>) -> (res: AreaUnattemptedCount)
    ensures
        res.deep_view() == uncontacted(opt_view(requested_zone), persons_list@),
{
    let ghost ps = persons_list@;
    let zones = zone_area_names(persons_list);
    let ghost zas = zones.deep_view();
    let mut res: AreaUnattemptedCount = Vec::new();
    match requested_zone {
        Some(zone_name) => {
            match zone_position(&zones, &zone_name) {
                Some(k) => {
                    let areas = &zones[k].1;
                    let ghost area_views = areas.deep_view();
                    let mut j: usize = 0;
                    while j < areas.len()
                        invariant
                            j <= areas@.len(),
                            ps == persons_list@,
                            area_views == areas.deep_view(),
                            res.deep_view() == area_views.take(j as int).map_values(
                                |a: Seq<char>| (a, area_people(ps, zone_name@, a, false)),
                            ),
                        decreases areas@.len() - j,
                    {
                        let people = area_people_of(persons_list, &zone_name, &areas[j], false);
                        let ghost old_res = res.deep_view();
                        let ghost a = area_views[j as int];
                        assert(a == areas@[j as int]@);
                        res.push((areas[j].clone(), people));
                        assert(res.deep_view() =~= old_res.push((a, area_people(ps, zone_name@, a, false))));
                        assert(area_views.take(j + 1).map_values(
                            |a: Seq<char>| (a, area_people(ps, zone_name@, a, false)),
                        ) =~= area_views.take(j as int).map_values(
                            |a: Seq<char>| (a, area_people(ps, zone_name@, a, false)),
                        ).push((a, area_people(ps, zone_name@, a, false))));
                        j = j + 1;
                    }
                    assert(area_views.take(areas@.len() as int) =~= area_views);
                },
                None => {},
            }
        },
        None => {
            let mut k: usize = 0;
            while k < zones.len()
                invariant
                    k <= zones@.len(),
                    ps == persons_list@,
                    zas == zones.deep_view(),
                    res.deep_view() == zas.take(k as int).map_values(
                        |za: (Seq<char>, Seq<Seq<char>>)| (za.0, zone_people(ps, za.0, za.1, false)),
                    ),
                decreases zones@.len() - k,
            {
                let zone_name = &zones[k].0;
                let areas = &zones[k].1;
                let ghost za = zas[k as int];
                assert(za == (zone_name@, areas.deep_view()));
                let people = zone_people_of(persons_list, zone_name, areas, false);
                let ghost old_res = res.deep_view();
                res.push((zone_name.clone(), people));
                assert(res.deep_view() =~= old_res.push((za.0, zone_people(ps, za.0, za.1, false))));
                assert(zas.take(k + 1).map_values(
                    |za: (Seq<char>, Seq<Seq<char>>)| (za.0, zone_people(ps, za.0, za.1, false)),
                ) =~= zas.take(k as int).map_values(
                    |za: (Seq<char>, Seq<Seq<char>>)| (za.0, zone_people(ps, za.0, za.1, false)),
                ).push((za.0, zone_people(ps, za.0, za.1, false))));
                k = k + 1;
            }
            assert(zas.take(zones@.len() as int) =~= zas);
        },
    }
    res
}

/// The name holds the word "Total".
pub open spec fn is_total(name: Seq<char>) -> bool {
    exists|i: int| #[trigger] occurs_at(name, "Total"@, i)
}

/// Report entries with "Total" in their name come first; otherwise names are
/// in alphabetical order.
pub open spec fn entry_precedes(a: Seq<char>, b: Seq<char>) -> bool {
    (is_total(a) && !is_total(b)) || (is_total(a) == is_total(b) && seq_less(a, b))
}

/// The order of entries in a report: with `totals_first`, totals first and
/// then alphabetical; otherwise alphabetical.
pub open spec fn report_order(totals_first: bool, a: Seq<char>, b: Seq<char>) -> bool {
    if totals_first {
        entry_precedes(a, b)
    } else {
        seq_less(a, b)
    }
}

/// No entry is preceded by a later one.
pub open spec fn sorted_for_report<V>(s: Seq<(Seq<char>, V)>, totals_first: bool) -> bool {
    forall|i: int, j: int|
        0 <= i < j < s.len() ==> !report_order(totals_first, #[trigger] s[j].0, #[trigger] s[i].0)
}

proof fn lemma_report_order(totals_first: bool, a: Seq<char>, b: Seq<char>, c: Seq<char>)
    ensures
        !(report_order(totals_first, a, b) && report_order(totals_first, b, a)),
        report_order(totals_first, a, b) && report_order(totals_first, b, c) ==> report_order(
            totals_first,
            a,
            c,
        ),
{
    lemma_seq_less_asymmetric(a, b);
    if report_order(totals_first, a, b) && report_order(totals_first, b, c) && (!totals_first || (
    is_total(a) == is_total(b) && is_total(b) == is_total(c))) {
        lemma_seq_less_transitive(a, b, c);
    }
}

/// One entry of the printed average report.
pub open spec fn avg_line(e: (Seq<char>, (NamesView, usize))) -> Seq<char> {
    e.0 + ":\nReceived: "@ + decimal(e.1.0.len()) + ", Avg: "@ + decimal((e.1.1 / 60) as nat) + "h "@
        + decimal((e.1.1 % 60) as nat) + "m\n\n"@
}

/// The printed average report: every entry in turn.
pub open spec fn avg_report_text(s: Seq<(Seq<char>, (NamesView, usize))>) -> Seq<char>
    decreases s.len(),
{
    if s.len() == 0 {
        Seq::empty()
    } else {
        avg_report_text(s.drop_last()) + avg_line(s.last())
    }
}

/// Whether entry name `a` precedes entry name `b` in a printed report.
fn precedes_in_report(totals_first: bool, a: &String, b: &String) -> (res: bool)
    ensures
        res == report_order(totals_first, a@, b@),
{
    if !totals_first {
        return str_less(a.as_str(), b.as_str());
    }
    let a_is_total = contains_str(a.as_str(), "Total");
    let b_is_total = contains_str(b.as_str(), "Total");
    (a_is_total && !b_is_total) || (a_is_total == b_is_total && str_less(a.as_str(), b.as_str()))
}

/// The entries in report order.
pub fn sort_for_report<V: DeepView>(entries: Vec<(String, V)>, totals_first: bool) -> (sorted: Vec<(String, V)>)
    ensures
        sorted.deep_view().to_multiset() == entries.deep_view().to_multiset(),
        sorted_for_report(sorted.deep_view(), totals_first),
{
    broadcast use vstd::seq_lib::group_to_multiset_ensures;

    let ghost all = entries.deep_view();
    let mut rest = entries;
    let mut sorted: Vec<(String, V)> = Vec::new();
    assert(sorted.deep_view().to_multiset() =~= Multiset::empty());
    while rest.len() > 0
        invariant
            sorted.deep_view().to_multiset().add(rest.deep_view().to_multiset()) == all.to_multiset(),
            sorted_for_report(sorted.deep_view(), totals_first),
        decreases rest@.len(),
    {
        let ghost rest_view = rest.deep_view();
        let e = rest.pop().unwrap();
        let ghost ev = e.deep_view();
        assert(rest_view =~= rest.deep_view().push(ev));
        let ghost sv = sorted.deep_view();
        let mut p: usize = 0;
        while p < sorted.len() && !precedes_in_report(totals_first, &e.0, &sorted[p].0)
            invariant
                p <= sorted@.len(),
                sv == sorted.deep_view(),
                ev == e.deep_view(),
                forall|q: int| 0 <= q < p ==> !report_order(totals_first, ev.0, #[trigger] sv[q].0),
            decreases sorted@.len() - p,
        {
            p = p + 1;
        }
        sorted.insert(p, e);
        assert(sorted.deep_view() =~= sv.insert(p as int, ev));
        proof {
            broadcast use vstd::multiset::group_multiset_axioms;
            let rv = rest.deep_view();
            vstd::seq_lib::to_multiset_insert(sv, p as int, ev);
            vstd::seq_lib::to_multiset_build(rv, ev);
            assert(sv.to_multiset().insert(ev).add(rv.to_multiset()) =~= sv.to_multiset().add(
                rv.to_multiset().insert(ev),
            ));
        }
        assert(sorted_for_report(sorted.deep_view(), totals_first)) by {
            let nv = sorted.deep_view();
            assert forall|i: int, j: int| 0 <= i < j < nv.len() implies !report_order(totals_first, #[trigger] nv[j].0, #[trigger] nv[i].0) by {
                if j < p {
                    assert(nv[i] == sv[i] && nv[j] == sv[j]);
                } else if j == p {
                    assert(nv[i] == sv[i]);
                } else if i == p {
                    assert(nv[j] == sv[j - 1]);
                    lemma_report_order(totals_first, nv[j].0, ev.0, sv[p as int].0);
                    if j - 1 > p {
                        assert(!report_order(totals_first, sv[j - 1].0, sv[p as int].0));
                    }
                } else if i < p {
                    assert(nv[i] == sv[i] && nv[j] == sv[j - 1]);
                } else {
                    assert(nv[i] == sv[i - 1] && nv[j] == sv[j - 1]);
                }
            }
        }
    }
    assert(rest.deep_view() =~= Seq::empty());
    assert(sorted.deep_view().to_multiset().add(Multiset::empty()) =~= sorted.deep_view().to_multiset());
    sorted
}

/// The average report as text: totals first, then alphabetically, each entry
/// with its count of people and its average as hours and minutes.
pub fn pretty_print_avg_response_time(avg_response_time: AreaAverageResponseTime) -> (output: String)
    ensures
        exists|order: Seq<(Seq<char>, (NamesView, usize))>|
            order.to_multiset() == avg_response_time.deep_view().to_multiset()
                && sorted_for_report(order, true) && output@ == avg_report_text(order),
{
    let avg_entries = sort_for_report(avg_response_time, true);
    let ghost order = avg_entries.deep_view();
    let mut output = String::new();
    let mut i: usize = 0;
    while i < avg_entries.len()
        invariant
            i <= avg_entries@.len(),
            order == avg_entries.deep_view(),
            output@ == avg_report_text(order.take(i as int)),
        decreases avg_entries@.len() - i,
    {
        let area_name = &avg_entries[i].0;
        let people = &(avg_entries[i].1).0;
        let average = (avg_entries[i].1).1;
        let hours = average / 60;
        let minutes = average % 60;
        let count = people.len();
        let ghost e = order[i as int];
        assert(e.0 == area_name@ && e.1.0.len() == count && e.1.1 == average);
        output.append(area_name.as_str());
        output.append(":\nReceived: ");
        output.append(decimal_string(count as u64).as_str());
        output.append(", Avg: ");
        output.append(decimal_string(hours as u64).as_str());
        output.append("h ");
        output.append(decimal_string(minutes as u64).as_str());
        output.append("m\n\n");
        assert(order.take(i + 1).drop_last() =~= order.take(i as int));
        assert(order.take(i + 1).last() == e);
        i = i + 1;
    }
    assert(order.take(avg_entries@.len() as int) =~= order);
    output
}

/// A copy of a list of identifier and name pairs.
pub fn clone_pairs(src: &Vec<(String, String)>) -> (res: Vec<(String, String)>)
    ensures
        res.deep_view() == src.deep_view(),
{
    let mut res: Vec<(String, String)> = Vec::new();
    append_pairs(&mut res, src);
    assert(res.deep_view() =~= src.deep_view());
    res
}

/// A copy of an average report.
pub fn clone_averages(src: &AreaAverageResponseTime) -> (res: AreaAverageResponseTime)
    ensures
        res.deep_view() == src.deep_view(),
{
    let mut res: AreaAverageResponseTime = Vec::new();
    let mut i: usize = 0;
    while i < src.len()
        invariant
            i <= src@.len(),
            res.deep_view() == src.deep_view().take(i as int),
        decreases src@.len() - i,
    {
        let ghost before = res.deep_view();
        let entry = &src[i];
        res.push((entry.0.clone(), (clone_pairs(&(entry.1).0), (entry.1).1)));
        assert(res.deep_view() =~= before.push(src.deep_view()[i as int]));
        assert(src.deep_view().take(i + 1) =~= src.deep_view().take(i as int).push(src.deep_view()[i as int]));
        i = i + 1;
    }
    assert(src.deep_view().take(src@.len() as int) =~= src.deep_view());
    res
}

/// A copy of a follow-up report.
pub fn clone_unattempted(src: &AreaUnattemptedCount) -> (res: AreaUnattemptedCount)
    ensures
        res.deep_view() == src.deep_view(),
{
    let mut res: AreaUnattemptedCount = Vec::new();
    let mut i: usize = 0;
    while i < src.len()
        invariant
            i <= src@.len(),
            res.deep_view() == src.deep_view().take(i as int),
        decreases src@.len() - i,
    {
        let ghost before = res.deep_view();
        let entry = &src[i];
        res.push((entry.0.clone(), clone_pairs(&entry.1)));
        assert(res.deep_view() =~= before.push(src.deep_view()[i as int]));
        assert(src.deep_view().take(i + 1) =~= src.deep_view().take(i as int).push(src.deep_view()[i as int]));
        i = i + 1;
    }
    assert(src.deep_view().take(src@.len() as int) =~= src.deep_view());
    res
}

/// The names of a report's entries, in order.
pub open spec fn report_names<V>(s: Seq<(Seq<char>, V)>) -> Seq<Seq<char>> {
    s.map_values(|e: (Seq<char>, V)| e.0)
}

proof fn lemma_dedup_distinct(s: Seq<Seq<char>>)
    ensures
        dedup(s).no_duplicates(),
        forall|x: Seq<char>| dedup(s).contains(x) ==> s.contains(x),
    decreases s.len(),
{
    if s.len() > 0 {
        lemma_dedup_distinct(s.drop_last());
        let d = dedup(s.drop_last());
        assert forall|x: Seq<char>| dedup(s).contains(x) implies s.contains(x) by {
            if d.contains(x) {
                assert(s.drop_last().contains(x));
                let i = choose|i: int| 0 <= i < s.drop_last().len() && s.drop_last()[i] == x;
                assert(s[i] == x);
            } else {
                assert(s[s.len() - 1] == x);
            }
        }
    }
}

proof fn lemma_key_position_bounds<V>(m: Seq<(Seq<char>, V)>, k: Seq<char>)
    ensures
        key_position(m, k) >= 0 ==> key_position(m, k) < m.len() && m[key_position(m, k)].0 == k,
        key_position(m, k) < 0 ==> forall|j: int| 0 <= j < m.len() ==> #[trigger] m[j].0 != k,
    decreases m.len(),
{
    if m.len() > 0 && m[0].0 != k {
        let rest = m.drop_first();
        lemma_key_position_bounds(rest, k);
        assert forall|j: int| 0 <= j < rest.len() implies rest[j] == m[j + 1] by {}
        if key_position(m, k) < 0 {
            assert forall|j: int| 0 <= j < m.len() implies #[trigger] m[j].0 != k by {
                if j > 0 {
                    assert(m[j] == rest[j - 1]);
                }
            }
        }
    }
}

proof fn lemma_assoc_insert_distinct<V>(m: Seq<(Seq<char>, V)>, k: Seq<char>, v: V)
    requires
        report_names(m).no_duplicates(),
    ensures
        report_names(assoc_insert(m, k, v)).no_duplicates(),
{
    lemma_key_position_bounds(m, k);
    let r = assoc_insert(m, k, v);
    let i = key_position(m, k);
    if i >= 0 {
        assert(report_names(m)[i] == k);
        assert(report_names(r) =~= report_names(m));
    } else {
        assert(report_names(r) =~= report_names(m).push(k));
        assert forall|a: int, b: int| 0 <= a < b < report_names(r).len() implies report_names(r)[a]
            != report_names(r)[b] by {
            if b == m.len() {
                assert(m[a].0 != k);
            }
        }
    }
}

/// Every report names each zone or area once: the average response times
/// and the follow-up lists, for one zone or for the whole mission.
pub proof fn law_report_names_distinct(requested_zone: Option<Seq<char>>, ps: Seq<Person>)
    ensures
        report_names(
            match requested_zone {
                Some(z) => zone_averages(ps, z),
                None => mission_averages(ps),
            },
        ).no_duplicates(),
        report_names(uncontacted(requested_zone, ps)).no_duplicates(),
{
    let zas = zone_areas(ps);
    let zones = dedup(zone_names(ps));
    lemma_dedup_distinct(zone_names(ps));
    assert(report_names(zas) =~= zones);
    match requested_zone {
        None => {
            let entries = zas.map_values(|za: (Seq<char>, Seq<Seq<char>>)| zone_entry(ps, za));
            assert(report_names(entries) =~= zones);
            let people = mission_people(ps, zas);
            lemma_assoc_insert_distinct(
                entries,
                "Mission Total"@,
                (people, (total_time(ps) / people.len() as int) as usize),
            );
            let u = zas.map_values(
                |za: (Seq<char>, Seq<Seq<char>>)| (za.0, zone_people(ps, za.0, za.1, false)),
            );
            assert(report_names(u) =~= zones);
        },
        Some(z) => {
            let k = key_position(zas, z);
            if k >= 0 {
                lemma_key_position_bounds(zas, z);
                let areas = zas[k].1;
                assert(areas == dedup(area_names_in(ps, zas[k].0)));
                lemma_dedup_distinct(area_names_in(ps, zas[k].0));
                let entries = Seq::new(areas.len(), |j: int| area_entry(ps, z, areas, j));
                assert(report_names(entries) =~= areas);
                let people = zone_people(ps, z, areas, true);
                lemma_assoc_insert_distinct(
                    entries,
                    "Zone Total"@,
                    (people, (areas_time(ps, z, areas) / people.len() as int) as usize),
                );
                let u = areas.map_values(|a: Seq<char>| (a, area_people(ps, z, a, false)));
                assert(report_names(u) =~= areas);
            } else {
                assert(report_names(Seq::<(Seq<char>, (NamesView, usize))>::empty()) =~= Seq::empty());
                assert(report_names(Seq::<(Seq<char>, NamesView)>::empty()) =~= Seq::empty());
            }
        },
    }
}

proof fn lemma_concat_zone_names(a: Seq<Person>, b: Seq<Person>)
    ensures
        zone_names(a + b) == zone_names(a) + zone_names(b),
    decreases b.len(),
{
    if b.len() == 0 {
        assert(a + b =~= a);
        assert(zone_names(a) + zone_names(b) =~= zone_names(a));
    } else {
        lemma_concat_zone_names(a, b.drop_last());
        assert((a + b).drop_last() =~= a + b.drop_last());
        assert((a + b).last() == b.last());
        let g = if placed(b.last()) {
            seq![b.last().zone_name->0@]
        } else {
            Seq::<Seq<char>>::empty()
        };
        assert(zone_names(a) + zone_names(b.drop_last()) + g =~= zone_names(a) + (zone_names(b.drop_last()) + g));
    }
}

proof fn lemma_concat_area_names(a: Seq<Person>, b: Seq<Person>, z: Seq<char>)
    ensures
        area_names_in(a + b, z) == area_names_in(a, z) + area_names_in(b, z),
    decreases b.len(),
{
    if b.len() == 0 {
        assert(a + b =~= a);
        assert(area_names_in(a, z) + area_names_in(b, z) =~= area_names_in(a, z));
    } else {
        lemma_concat_area_names(a, b.drop_last(), z);
        assert((a + b).drop_last() =~= a + b.drop_last());
        assert((a + b).last() == b.last());
        let g = if placed(b.last()) && in_zone(b.last(), z) {
            seq![b.last().area_name->0@]
        } else {
            Seq::<Seq<char>>::empty()
        };
        assert(area_names_in(a, z) + area_names_in(b.drop_last(), z) + g =~= area_names_in(a, z) + (
        area_names_in(b.drop_last(), z) + g));
    }
}

proof fn lemma_concat_area_people(a: Seq<Person>, b: Seq<Person>, z: Seq<char>, x: Seq<char>)
    ensures
        area_people(a + b, z, x, true) == area_people(a, z, x, true) + area_people(b, z, x, true),
    decreases b.len(),
{
    if b.len() == 0 {
        assert(a + b =~= a);
        assert(area_people(a, z, x, true) + area_people(b, z, x, true) =~= area_people(a, z, x, true));
    } else {
        lemma_concat_area_people(a, b.drop_last(), z, x);
        assert((a + b).drop_last() =~= a + b.drop_last());
        assert((a + b).last() == b.last());
        let p = b.last();
        let g = if placed(p) && timed(p) && in_zone(p, z) && in_area(p, x) {
            seq![(p.guid@, p.first_name@)]
        } else {
            Seq::<(Seq<char>, Seq<char>)>::empty()
        };
        assert(area_people(a, z, x, true) + area_people(b.drop_last(), z, x, true) + g
            =~= area_people(a, z, x, true) + (area_people(b.drop_last(), z, x, true) + g));
    }
}

proof fn lemma_concat_times(a: Seq<Person>, b: Seq<Person>, z: Seq<char>, areas: Seq<Seq<char>>)
    ensures
        areas_time(a + b, z, areas) == areas_time(a, z, areas) + areas_time(b, z, areas),
        total_time(a + b) == total_time(a) + total_time(b),
    decreases b.len(),
{
    if b.len() == 0 {
        assert(a + b =~= a);
    } else {
        lemma_concat_times(a, b.drop_last(), z, areas);
        assert((a + b).drop_last() =~= a + b.drop_last());
        assert((a + b).last() == b.last());
    }
}

proof fn lemma_dedup_contains(s: Seq<Seq<char>>, x: Seq<char>)
    requires
        s.contains(x),
    ensures
        dedup(s).contains(x),
    decreases s.len(),
{
    if s.last() != x {
        let i = choose|i: int| 0 <= i < s.len() && s[i] == x;
        assert(s.drop_last()[i] == x);
        lemma_dedup_contains(s.drop_last(), x);
        let d = dedup(s.drop_last());
        if !d.contains(s.last()) {
            let j = choose|j: int| 0 <= j < d.len() && d[j] == x;
            assert(d.push(s.last())[j] == x);
        }
    } else {
        let d = dedup(s.drop_last());
        if !d.contains(s.last()) {
            assert(d.push(s.last())[d.len() as int] == x);
        }
    }
}

/// Repeating a value after its first occurrence changes no deduplication.
proof fn lemma_dedup_repeat(a: Seq<Seq<char>>, x: Seq<char>, b: Seq<Seq<char>>)
    requires
        a.contains(x),
    ensures
        dedup(a + seq![x] + b) == dedup(a + b),
    decreases b.len(),
{
    if b.len() == 0 {
        assert(a + seq![x] + b =~= a.push(x));
        assert(a + b =~= a);
        assert(a.push(x).drop_last() =~= a);
        lemma_dedup_contains(a, x);
    } else {
        lemma_dedup_repeat(a, x, b.drop_last());
        assert((a + seq![x] + b).drop_last() =~= a + seq![x] + b.drop_last());
        assert((a + b).drop_last() =~= a + b.drop_last());
        assert((a + seq![x] + b).last() == b.last());
        assert((a + b).last() == b.last());
    }
}

proof fn lemma_single_person(q: Person, z: Seq<char>, x: Seq<char>, areas: Seq<Seq<char>>)
    requires
        q.response_time is None,
    ensures
        zone_names(seq![q]) == (if placed(q) {
            seq![q.zone_name->0@]
        } else {
            Seq::<Seq<char>>::empty()
        }),
        area_names_in(seq![q], z) == (if placed(q) && in_zone(q, z) {
            seq![q.area_name->0@]
        } else {
            Seq::<Seq<char>>::empty()
        }),
        area_people(seq![q], z, x, true) == Seq::<(Seq<char>, Seq<char>)>::empty(),
        areas_time(seq![q], z, areas) == 0,
        total_time(seq![q]) == 0,
{
    assert(seq![q].drop_last() =~= Seq::<Person>::empty());
    assert(seq![q].last() == q);
    assert(!timed(q));
    assert(areas_time(Seq::<Person>::empty(), z, areas) == 0);
    assert(total_time(Seq::<Person>::empty()) == 0);
    assert(zone_names(Seq::<Person>::empty()) + seq![q.zone_name->0@] =~= seq![q.zone_name->0@]);
    assert(area_names_in(Seq::<Person>::empty(), z) + seq![q.area_name->0@] =~= seq![q.area_name->0@]);
    assert(zone_names(Seq::<Person>::empty()) + Seq::<Seq<char>>::empty() =~= Seq::<Seq<char>>::empty());
    assert(area_names_in(Seq::<Person>::empty(), z) + Seq::<Seq<char>>::empty() =~= Seq::<Seq<char>>::empty());
    assert(area_people(Seq::<Person>::empty(), z, x, true) + Seq::<(Seq<char>, Seq<char>)>::empty()
        =~= Seq::<(Seq<char>, Seq<char>)>::empty());
}

proof fn lemma_pair_named(ps: Seq<Person>, i: int, z: Seq<char>, x: Seq<char>)
    requires
        0 <= i < ps.len(),
        in_pair(ps[i], z, x),
    ensures
        zone_names(ps).contains(z),
        area_names_in(ps, z).contains(x),
    decreases ps.len(),
{
    if i < ps.len() - 1 {
        assert(ps.drop_last()[i] == ps[i]);
        lemma_pair_named(ps.drop_last(), i, z, x);
        let zs = zone_names(ps.drop_last());
        let xs = area_names_in(ps.drop_last(), z);
        let k = choose|k: int| 0 <= k < zs.len() && zs[k] == z;
        let m = choose|m: int| 0 <= m < xs.len() && xs[m] == x;
        assert(zone_names(ps)[k] == z);
        assert(area_names_in(ps, z)[m] == x);
    } else {
        assert(ps.last() == ps[i]);
        assert(zone_names(ps)[zone_names(ps).len() - 1] == z);
        assert(area_names_in(ps, z)[area_names_in(ps, z).len() - 1] == x);
    }
}

proof fn lemma_zone_people_same(ps1: Seq<Person>, ps2: Seq<Person>, z: Seq<char>, areas: Seq<Seq<char>>)
    requires
        forall|x: Seq<char>| #[trigger] area_people(ps1, z, x, true) == area_people(ps2, z, x, true),
    ensures
        zone_people(ps1, z, areas, true) == zone_people(ps2, z, areas, true),
    decreases areas.len(),
{
    if areas.len() > 0 {
        lemma_zone_people_same(ps1, ps2, z, areas.drop_last());
        assert(area_people(ps1, z, areas.last(), true) == area_people(ps2, z, areas.last(), true));
    }
}

proof fn lemma_mission_people_same(ps1: Seq<Person>, ps2: Seq<Person>, zas: Seq<(Seq<char>, Seq<Seq<char>>)>)
    requires
        forall|z: Seq<char>, x: Seq<char>| #[trigger] area_people(ps1, z, x, true) == area_people(ps2, z, x, true),
    ensures
        mission_people(ps1, zas) == mission_people(ps2, zas),
        forall|i: int| 0 <= i < zas.len() ==> #[trigger] zone_people(ps1, zas[i].0, zas[i].1, true) == zone_people(ps2, zas[i].0, zas[i].1, true),
    decreases zas.len(),
{
    if zas.len() > 0 {
        lemma_mission_people_same(ps1, ps2, zas.drop_last());
        assert forall|i: int| 0 <= i < zas.len() implies #[trigger] zone_people(ps1, zas[i].0, zas[i].1, true) == zone_people(ps2, zas[i].0, zas[i].1, true) by {
            assert forall|x: Seq<char>| #[trigger] area_people(ps1, zas[i].0, x, true) == area_people(ps2, zas[i].0, x, true) by {}
            lemma_zone_people_same(ps1, ps2, zas[i].0, zas[i].1);
        }
        assert(zas.last() == zas[zas.len() - 1]);
    }
}

/// A person without a response time who is not placed, or whose zone and
/// area pair already occurs before the place where the person is added,
/// changes no average: the report (for a zone or for the whole mission) is
/// the same, and so is whether the averages can be taken.
pub proof fn law_untimed_person_changes_no_average(requested_zone: Option<Seq<char>>, ps: Seq<Person>, q: Person, k: int)
    requires
        0 <= k <= ps.len(),
        q.response_time is None,
        !placed(q) || exists|i: int|
            0 <= i < k && #[trigger] in_pair(ps[i], q.zone_name->0@, q.area_name->0@),
    ensures
        average_defined(requested_zone, ps.insert(k, q)) == average_defined(requested_zone, ps),
        match requested_zone {
            Some(z) => zone_averages(ps.insert(k, q), z) == zone_averages(ps, z),
            None => mission_averages(ps.insert(k, q)) == mission_averages(ps),
        },
{
    let a = ps.take(k);
    let b = ps.skip(k);
    let ps2 = ps.insert(k, q);
    assert(ps2 =~= a + seq![q] + b);
    assert(ps =~= a + b);
    lemma_concat_zone_names(a, seq![q]);
    lemma_concat_zone_names(a + seq![q], b);
    lemma_concat_zone_names(a, b);
    // the same people, per zone and area, and the same times
    reordering::lemma_untimed_insert(ps, q, k);
    lemma_single_person(q, Seq::empty(), Seq::empty(), Seq::empty());
    // the same zones and areas, in the same order
    if placed(q) {
        let zq = q.zone_name->0@;
        let xq = q.area_name->0@;
        let i = choose|i: int| 0 <= i < k && #[trigger] in_pair(ps[i], zq, xq);
        assert(a[i] == ps[i]);
        lemma_pair_named(a, i, zq, xq);
        assert(zone_names(seq![q]) == seq![zq]);
        lemma_dedup_repeat(zone_names(a), zq, zone_names(b));
        assert(dedup(zone_names(ps2)) == dedup(zone_names(ps)));
    } else {
        assert(zone_names(seq![q]) == Seq::<Seq<char>>::empty());
        assert(zone_names(a) + Seq::<Seq<char>>::empty() =~= zone_names(a));
        assert(zone_names(ps2) =~= zone_names(ps));
    }
    assert forall|z: Seq<char>| #[trigger] dedup(area_names_in(ps2, z)) == dedup(area_names_in(ps, z)) by {
        lemma_concat_area_names(a, seq![q], z);
        lemma_concat_area_names(a + seq![q], b, z);
        lemma_concat_area_names(a, b, z);
        lemma_single_person(q, z, Seq::empty(), Seq::empty());
        if placed(q) && in_zone(q, z) {
            let xq = q.area_name->0@;
            let i = choose|i: int| 0 <= i < k && #[trigger] in_pair(ps[i], q.zone_name->0@, xq);
            assert(a[i] == ps[i]);
            lemma_pair_named(a, i, z, xq);
            lemma_dedup_repeat(area_names_in(a, z), xq, area_names_in(b, z));
        } else {
            assert(area_names_in(a, z) + Seq::<Seq<char>>::empty() =~= area_names_in(a, z));
            assert(area_names_in(ps2, z) =~= area_names_in(ps, z));
        }
    }
    let zas = zone_areas(ps);
    assert(zone_areas(ps2) =~= zas);
    lemma_mission_people_same(ps2, ps, zas);
    match requested_zone {
        None => {
            if forall|i: int| 0 <= i < zas.len() ==> #[trigger] zone_people(ps, zas[i].0, zas[i].1, true).len() > 0 {
                assert forall|i: int| 0 <= i < zas.len() implies #[trigger] zone_people(ps2, zas[i].0, zas[i].1, true).len() > 0 by {
                    assert(zone_people(ps2, zas[i].0, zas[i].1, true) == zone_people(ps, zas[i].0, zas[i].1, true));
                }
            }
            if forall|i: int| 0 <= i < zas.len() ==> #[trigger] zone_people(ps2, zas[i].0, zas[i].1, true).len() > 0 {
                assert forall|i: int| 0 <= i < zas.len() implies #[trigger] zone_people(ps, zas[i].0, zas[i].1, true).len() > 0 by {
                    assert(zone_people(ps2, zas[i].0, zas[i].1, true) == zone_people(ps, zas[i].0, zas[i].1, true));
                }
            }
            assert(zas.map_values(|za: (Seq<char>, Seq<Seq<char>>)| zone_entry(ps2, za)) =~= zas.map_values(
                |za: (Seq<char>, Seq<Seq<char>>)| zone_entry(ps, za),
            ));
        },
        Some(z) => {
            let kz = key_position(zas, z);
            if kz >= 0 {
                lemma_key_position_bounds(zas, z);
                let areas = zas[kz].1;
                assert(zone_people(ps2, z, areas, true) == zone_people(ps, z, areas, true)) by {
                    assert forall|x: Seq<char>| #[trigger] area_people(ps2, z, x, true) == area_people(ps, z, x, true) by {}
                    lemma_zone_people_same(ps2, ps, z, areas);
                }
                assert(Seq::new(areas.len(), |j: int| area_entry(ps2, z, areas, j)) =~= Seq::new(
                    areas.len(),
                    |j: int| area_entry(ps, z, areas, j),
                ));
                assert forall|j: int| 0 <= j < areas.len() implies
                    #[trigger] area_people(ps2, z, areas[j], true) == area_people(ps, z, areas[j], true)
                    && areas_time(ps2, z, areas.take(j + 1)) == areas_time(ps, z, areas.take(j + 1)) by {}
                if forall|j: int| 0 <= j < areas.len() ==> (areas_time(ps, z, areas.take(j + 1)) > 0
                    ==> #[trigger] area_people(ps, z, areas[j], true).len() > 0) {
                    assert forall|j: int| 0 <= j < areas.len() implies (areas_time(ps2, z, areas.take(j + 1)) > 0
                        ==> #[trigger] area_people(ps2, z, areas[j], true).len() > 0) by {
                        assert(area_people(ps2, z, areas[j], true) == area_people(ps, z, areas[j], true));
                    }
                }
                if forall|j: int| 0 <= j < areas.len() ==> (areas_time(ps2, z, areas.take(j + 1)) > 0
                    ==> #[trigger] area_people(ps2, z, areas[j], true).len() > 0) {
                    assert forall|j: int| 0 <= j < areas.len() implies (areas_time(ps, z, areas.take(j + 1)) > 0
                        ==> #[trigger] area_people(ps, z, areas[j], true).len() > 0) by {
                        assert(area_people(ps2, z, areas[j], true) == area_people(ps, z, areas[j], true));
                    }
                }
            }
        },
    }
}

} // verus!
