//! The mission-wide report when a person without a response time is added
//! anywhere in the list: the same entries, perhaps in another order.

use vstd::prelude::*;
use vstd::multiset::Multiset;
use crate::persons::Person;
use super::{
    area_names_in, area_people, areas_time, assoc_insert, average_defined, dedup, in_pair, in_zone,
    key_position, lemma_concat_area_names, lemma_concat_area_people, lemma_concat_times,
    lemma_concat_zone_names, lemma_dedup_contains, lemma_dedup_distinct, lemma_key_position,
    lemma_key_position_bounds, lemma_pair_named, lemma_single_person, lemma_zone_people_same,
    mission_averages, mission_people, placed, total_time, zone_areas, zone_entry, zone_names,
    zone_people, NamesView,
};

verus! {

broadcast use {
    vstd::multiset::group_multiset_axioms,
    vstd::seq_lib::lemma_seq_concat_contains_all_elements,
    vstd::seq_lib::lemma_multiset_commutative,
    vstd::seq_lib::to_multiset_len,
    vstd::seq_lib::group_to_multiset_ensures,
};

/// Two reports name the same zones or areas and give under each name the
/// same average and the same people, perhaps in another order.
pub open spec fn same_report_up_to_order(
    m1: Seq<(Seq<char>, (NamesView, usize))>,
    m2: Seq<(Seq<char>, (NamesView, usize))>,
) -> bool {
    &&& m1.len() == m2.len()
    &&& forall|k: Seq<char>| #[trigger] key_position(m1, k) >= 0 <==> key_position(m2, k) >= 0
    &&& forall|k: Seq<char>|
        #[trigger] key_position(m1, k) >= 0 ==> {
            let e1 = m1[key_position(m1, k)].1;
            let e2 = m2[key_position(m2, k)].1;
            e1.1 == e2.1 && e1.0.to_multiset() == e2.0.to_multiset()
        }
}

/// The areas of zone `z`, each once, in order of first appearance.
spec fn areas_in_zone(ps: Seq<Person>, z: Seq<char>) -> Seq<Seq<char>> {
    dedup(area_names_in(ps, z))
}

/// The timed people of zone `z`, without their order.
spec fn zone_multiset(ps: Seq<Person>, z: Seq<char>) -> Multiset<(Seq<char>, Seq<char>)> {
    zone_people(ps, z, areas_in_zone(ps, z), true).to_multiset()
}

/// The multisets that `g` gives for the items of `s`, added together.
spec fn msum<A>(s: Seq<A>, g: spec_fn(A) -> Multiset<(Seq<char>, Seq<char>)>) -> Multiset<
    (Seq<char>, Seq<char>),
>
    decreases s.len(),
{
    if s.len() == 0 {
        Multiset::empty()
    } else {
        msum(s.drop_last(), g).add(g(s.last()))
    }
}

proof fn lemma_msum_remove<A>(s: Seq<A>, g: spec_fn(A) -> Multiset<(Seq<char>, Seq<char>)>, j: int)
    requires
        0 <= j < s.len(),
    ensures
        msum(s, g) == msum(s.remove(j), g).add(g(s[j])),
    decreases s.len(),
{
    if j == s.len() - 1 {
        assert(s.remove(j) =~= s.drop_last());
    } else {
        let t = s.drop_last();
        lemma_msum_remove(t, g, j);
        assert(s.remove(j).drop_last() =~= t.remove(j));
        assert(s.remove(j).last() == s.last());
        assert(t[j] == s[j]);
        assert(msum(s, g) =~= msum(s.remove(j), g).add(g(s[j])));
    }
}

/// Two lists that hold the same items, each once, add up to the same
/// multiset and have the same length.
proof fn lemma_msum_permuted<A>(s1: Seq<A>, s2: Seq<A>, g: spec_fn(A) -> Multiset<(Seq<char>, Seq<char>)>)
    requires
        s1.no_duplicates(),
        s2.no_duplicates(),
        forall|x: A| s1.contains(x) <==> s2.contains(x),
    ensures
        msum(s1, g) == msum(s2, g),
        s1.len() == s2.len(),
    decreases s1.len(),
{
    if s1.len() == 0 {
        if s2.len() > 0 {
            assert(s2.contains(s2[0]));
        }
        assert(s2 =~= Seq::<A>::empty());
    } else {
        let x = s1.last();
        assert(s1.contains(x)) by {
            assert(s1[s1.len() - 1] == x);
        }
        let j = choose|j: int| 0 <= j < s2.len() && s2[j] == x;
        let t1 = s1.drop_last();
        let t2 = s2.remove(j);
        assert forall|a: int, b: int| 0 <= a < b < t2.len() implies t2[a] != t2[b] by {
            let a2 = if a < j { a } else { a + 1 };
            let b2 = if b < j { b } else { b + 1 };
            assert(t2[a] == s2[a2]);
            assert(t2[b] == s2[b2]);
        }
        assert forall|y: A| t1.contains(y) <==> t2.contains(y) by {
            if t1.contains(y) {
                let a = choose|a: int| 0 <= a < t1.len() && t1[a] == y;
                assert(s1[a] == y);
                assert(y != x);
                assert(s1.contains(y));
                let b = choose|b: int| 0 <= b < s2.len() && s2[b] == y;
                assert(b != j);
                let b2 = if b < j { b } else { b - 1 };
                assert(t2[b2] == y);
            }
            if t2.contains(y) {
                let b = choose|b: int| 0 <= b < t2.len() && t2[b] == y;
                let b2 = if b < j { b } else { b + 1 };
                assert(s2[b2] == y);
                assert(b2 != j);
                assert(y != x);
                assert(s2.contains(y));
                let a = choose|a: int| 0 <= a < s1.len() && s1[a] == y;
                assert(a != s1.len() - 1);
                assert(t1[a] == y);
            }
        }
        lemma_msum_permuted(t1, t2, g);
        lemma_msum_remove(s2, g, j);
    }
}

proof fn lemma_msum_map<A, B>(
    s: Seq<A>,
    h: spec_fn(A) -> B,
    g: spec_fn(B) -> Multiset<(Seq<char>, Seq<char>)>,
    g2: spec_fn(A) -> Multiset<(Seq<char>, Seq<char>)>,
)
    requires
        forall|x: A| #[trigger] g2(x) == g(h(x)),
    ensures
        msum(s.map_values(h), g) == msum(s, g2),
    decreases s.len(),
{
    if s.len() > 0 {
        lemma_msum_map(s.drop_last(), h, g, g2);
        assert(s.map_values(h).drop_last() =~= s.drop_last().map_values(h));
        assert(g2(s.last()) == g(h(s.last())));
    }
}

proof fn lemma_zone_people_msum(
    ps: Seq<Person>,
    z: Seq<char>,
    areas: Seq<Seq<char>>,
    g: spec_fn(Seq<char>) -> Multiset<(Seq<char>, Seq<char>)>,
)
    requires
        forall|x: Seq<char>| #[trigger] g(x) == area_people(ps, z, x, true).to_multiset(),
    ensures
        zone_people(ps, z, areas, true).to_multiset() == msum(areas, g),
    decreases areas.len(),
{
    if areas.len() > 0 {
        lemma_zone_people_msum(ps, z, areas.drop_last(), g);
        assert(g(areas.last()) == area_people(ps, z, areas.last(), true).to_multiset());
        vstd::seq_lib::lemma_multiset_commutative(
            zone_people(ps, z, areas.drop_last(), true),
            area_people(ps, z, areas.last(), true),
        );
    }
}

proof fn lemma_mission_people_msum(
    ps: Seq<Person>,
    zas: Seq<(Seq<char>, Seq<Seq<char>>)>,
    g: spec_fn((Seq<char>, Seq<Seq<char>>)) -> Multiset<(Seq<char>, Seq<char>)>,
)
    requires
        forall|za: (Seq<char>, Seq<Seq<char>>)| #[trigger] g(za) == zone_people(ps, za.0, za.1, true).to_multiset(),
    ensures
        mission_people(ps, zas).to_multiset() == msum(zas, g),
    decreases zas.len(),
{
    if zas.len() > 0 {
        lemma_mission_people_msum(ps, zas.drop_last(), g);
        assert(g(zas.last()) == zone_people(ps, zas.last().0, zas.last().1, true).to_multiset());
        vstd::seq_lib::lemma_multiset_commutative(
            mission_people(ps, zas.drop_last()),
            zone_people(ps, zas.last().0, zas.last().1, true),
        );
    }
}

/// The summed response times over a list of areas depend only on which
/// areas it holds.
proof fn lemma_areas_time_same_set(ps: Seq<Person>, z: Seq<char>, a1: Seq<Seq<char>>, a2: Seq<Seq<char>>)
    requires
        forall|x: Seq<char>| a1.contains(x) <==> a2.contains(x),
    ensures
        areas_time(ps, z, a1) == areas_time(ps, z, a2),
    decreases ps.len(),
{
    if ps.len() > 0 {
        lemma_areas_time_same_set(ps.drop_last(), z, a1, a2);
    }
}

/// The index of the first entry with key `k`: no entry before it has that key.
proof fn lemma_key_position_first<V>(m: Seq<(Seq<char>, V)>, k: Seq<char>)
    ensures
        forall|j: int| 0 <= j < key_position(m, k) ==> #[trigger] m[j].0 != k,
    decreases m.len(),
{
    lemma_key_position_bounds(m, k);
    if m.len() > 0 && m[0].0 != k {
        let rest = m.drop_first();
        lemma_key_position_first(rest, k);
        assert forall|j: int| 0 <= j < key_position(m, k) implies #[trigger] m[j].0 != k by {
            if j > 0 {
                assert(m[j] == rest[j - 1]);
            }
        }
    }
}

/// Where the entries stand once `v` is stored under `k`.
pub(super) proof fn lemma_assoc_insert_positions<V>(m: Seq<(Seq<char>, V)>, k: Seq<char>, v: V)
    ensures
        ({
            let r = assoc_insert(m, k, v);
            &&& key_position(r, k) >= 0
            &&& key_position(r, k) == if key_position(m, k) >= 0 { key_position(m, k) } else { m.len() as int }
            &&& key_position(r, k) < r.len()
            &&& r[key_position(r, k)] == (k, v)
            &&& r.len() == if key_position(m, k) >= 0 { m.len() } else { m.len() + 1 }
            &&& forall|k2: Seq<char>| k2 != k ==> #[trigger] key_position(r, k2) == key_position(m, k2)
            &&& forall|j: int| 0 <= j < m.len() && m[j].0 != k ==> #[trigger] r[j] == m[j]
        }),
{
    let r = assoc_insert(m, k, v);
    let i = key_position(m, k);
    lemma_key_position_bounds(m, k);
    lemma_key_position_first(m, k);
    if i >= 0 {
        assert forall|j: int| 0 <= j < i implies r[j].0 != k by {
            assert(m[j].0 != k);
        }
        lemma_key_position(r, k, i);
    } else {
        assert forall|j: int| 0 <= j < m.len() implies r[j].0 != k by {
            assert(m[j].0 != k);
        }
        lemma_key_position(r, k, m.len() as int);
    }
    assert forall|k2: Seq<char>| k2 != k implies #[trigger] key_position(r, k2) == key_position(m, k2) by {
        let i2 = key_position(m, k2);
        lemma_key_position_bounds(m, k2);
        lemma_key_position_first(m, k2);
        if i2 >= 0 {
            assert forall|j: int| 0 <= j < i2 implies r[j].0 != k2 by {
                assert(m[j].0 != k2);
            }
            lemma_key_position(r, k2, i2);
        } else {
            assert forall|j: int| 0 <= j < r.len() implies r[j].0 != k2 by {
                if j < m.len() {
                    assert(m[j].0 != k2);
                }
            }
            lemma_key_position(r, k2, r.len() as int);
        }
    }
}

/// Adding a person without a response time changes no area's people and no
/// summed time, and adds at most the person's own zone and area to the names.
pub(super) proof fn lemma_untimed_insert(ps: Seq<Person>, q: Person, k: int)
    requires
        0 <= k <= ps.len(),
        q.response_time is None,
    ensures
        forall|z: Seq<char>, x: Seq<char>|
            #[trigger] area_people(ps.insert(k, q), z, x, true) == area_people(ps, z, x, true),
        forall|z: Seq<char>, areas: Seq<Seq<char>>|
            #[trigger] areas_time(ps.insert(k, q), z, areas) == areas_time(ps, z, areas),
        total_time(ps.insert(k, q)) == total_time(ps),
        forall|x: Seq<char>|
            #[trigger] zone_names(ps.insert(k, q)).contains(x) <==> (zone_names(ps).contains(x) || (placed(q)
                && x == q.zone_name->0@)),
        forall|z: Seq<char>, x: Seq<char>|
            #[trigger] area_names_in(ps.insert(k, q), z).contains(x) <==> (area_names_in(ps, z).contains(x) || (
            placed(q) && in_zone(q, z) && x == q.area_name->0@)),
{
    let a = ps.take(k);
    let b = ps.skip(k);
    let ps2 = ps.insert(k, q);
    assert(ps2 =~= a + seq![q] + b);
    assert(ps =~= a + b);
    assert forall|z: Seq<char>, x: Seq<char>| #[trigger] area_people(ps2, z, x, true) == area_people(ps, z, x, true) by {
        lemma_concat_area_people(a, seq![q], z, x);
        lemma_concat_area_people(a + seq![q], b, z, x);
        lemma_concat_area_people(a, b, z, x);
        lemma_single_person(q, z, x, Seq::empty());
        assert(area_people(a, z, x, true) + Seq::<(Seq<char>, Seq<char>)>::empty() =~= area_people(a, z, x, true));
    }
    assert forall|z: Seq<char>, areas: Seq<Seq<char>>| #[trigger] areas_time(ps2, z, areas) == areas_time(ps, z, areas) by {
        lemma_concat_times(a, seq![q], z, areas);
        lemma_concat_times(a + seq![q], b, z, areas);
        lemma_concat_times(a, b, z, areas);
        lemma_single_person(q, z, Seq::empty(), areas);
    }
    lemma_concat_times(a, seq![q], Seq::empty(), Seq::empty());
    lemma_concat_times(a + seq![q], b, Seq::empty(), Seq::empty());
    lemma_concat_times(a, b, Seq::empty(), Seq::empty());
    lemma_single_person(q, Seq::empty(), Seq::empty(), Seq::empty());
    lemma_concat_zone_names(a, seq![q]);
    lemma_concat_zone_names(a + seq![q], b);
    lemma_concat_zone_names(a, b);
    assert forall|x: Seq<char>| #[trigger] zone_names(ps2).contains(x) <==> (zone_names(ps).contains(x) || (placed(q)
        && x == q.zone_name->0@)) by {
        if placed(q) {
            assert(seq![q.zone_name->0@][0] == q.zone_name->0@);
        }
    }
    assert forall|z: Seq<char>, x: Seq<char>| #[trigger] area_names_in(ps2, z).contains(x) <==> (area_names_in(
        ps,
        z,
    ).contains(x) || (placed(q) && in_zone(q, z) && x == q.area_name->0@)) by {
        lemma_concat_area_names(a, seq![q], z);
        lemma_concat_area_names(a + seq![q], b, z);
        lemma_concat_area_names(a, b, z);
        lemma_single_person(q, z, Seq::empty(), Seq::empty());
        if placed(q) && in_zone(q, z) {
            assert(seq![q.area_name->0@][0] == q.area_name->0@);
        }
    }
}

/// Deduplicating two lists that hold the same values gives two lists that
/// hold them once each.
proof fn lemma_dedup_same_set(s1: Seq<Seq<char>>, s2: Seq<Seq<char>>)
    requires
        forall|x: Seq<char>| s1.contains(x) <==> s2.contains(x),
    ensures
        dedup(s1).no_duplicates(),
        dedup(s2).no_duplicates(),
        forall|x: Seq<char>| dedup(s1).contains(x) <==> dedup(s2).contains(x),
        forall|x: Seq<char>| dedup(s1).contains(x) <==> s1.contains(x),
{
    lemma_dedup_distinct(s1);
    lemma_dedup_distinct(s2);
    assert forall|x: Seq<char>| dedup(s1).contains(x) <==> dedup(s2).contains(x) by {
        if s1.contains(x) {
            lemma_dedup_contains(s1, x);
            lemma_dedup_contains(s2, x);
        }
    }
    assert forall|x: Seq<char>| dedup(s1).contains(x) <==> s1.contains(x) by {
        if s1.contains(x) {
            lemma_dedup_contains(s1, x);
        }
    }
}

/// A person without a response time who is not placed, or whose zone and
/// area pair occurs somewhere in the list, added at any place, leaves the
/// mission-wide report the same but for the order of its entries and of the
/// people listed under each: the same zones, the same averages, the same
/// people; and whether the averages can be taken stays the same.
pub proof fn law_untimed_person_keeps_mission_report(ps: Seq<Person>, q: Person, k: int)
    requires
        0 <= k <= ps.len(),
        q.response_time is None,
        !placed(q) || exists|i: int|
            0 <= i < ps.len() && #[trigger] in_pair(ps[i], q.zone_name->0@, q.area_name->0@),
    ensures
        average_defined(None, ps.insert(k, q)) == average_defined(None, ps),
        same_report_up_to_order(mission_averages(ps), mission_averages(ps.insert(k, q))),
{
    let ps2 = ps.insert(k, q);
    lemma_untimed_insert(ps, q, k);
    let zn1 = zone_names(ps);
    let zn2 = zone_names(ps2);
    if placed(q) {
        let i = choose|i: int| 0 <= i < ps.len() && #[trigger] in_pair(ps[i], q.zone_name->0@, q.area_name->0@);
        lemma_pair_named(ps, i, q.zone_name->0@, q.area_name->0@);
    }
    assert forall|x: Seq<char>| zn1.contains(x) <==> zn2.contains(x) by {}
    lemma_dedup_same_set(zn1, zn2);
    let dz1 = dedup(zn1);
    let dz2 = dedup(zn2);
    let ga = |z: Seq<char>| (|x: Seq<char>| area_people(ps, z, x, true).to_multiset());
    let h = |z: Seq<char>| zone_multiset(ps, z);
    // each zone: the same people and the same summed time, whatever the order of its areas
    assert forall|z: Seq<char>|
        #[trigger] zone_multiset(ps2, z) == zone_multiset(ps, z)
        && areas_time(ps2, z, areas_in_zone(ps2, z)) == areas_time(ps, z, areas_in_zone(ps, z)) by {
        let a1 = areas_in_zone(ps, z);
        let a2 = areas_in_zone(ps2, z);
        assert forall|x: Seq<char>| area_names_in(ps, z).contains(x) <==> area_names_in(ps2, z).contains(x) by {
            if placed(q) && in_zone(q, z) {
                assert(z == q.zone_name->0@);
            }
        }
        lemma_dedup_same_set(area_names_in(ps, z), area_names_in(ps2, z));
        assert forall|x: Seq<char>| #[trigger] area_people(ps2, z, x, true) == area_people(ps, z, x, true) by {}
        lemma_zone_people_same(ps2, ps, z, a2);
        lemma_zone_people_msum(ps, z, a2, ga(z));
        lemma_zone_people_msum(ps, z, a1, ga(z));
        lemma_msum_permuted(a1, a2, ga(z));
        lemma_areas_time_same_set(ps, z, a1, a2);
    }
    // the whole mission: the same people
    let zas1 = zone_areas(ps);
    let zas2 = zone_areas(ps2);
    let f1 = |z: Seq<char>| (z, areas_in_zone(ps, z));
    let f2 = |z: Seq<char>| (z, areas_in_zone(ps2, z));
    assert(zas1 =~= dz1.map_values(f1));
    assert(zas2 =~= dz2.map_values(f2));
    let g1 = |za: (Seq<char>, Seq<Seq<char>>)| zone_people(ps, za.0, za.1, true).to_multiset();
    let g2 = |za: (Seq<char>, Seq<Seq<char>>)| zone_people(ps2, za.0, za.1, true).to_multiset();
    lemma_mission_people_msum(ps, zas1, g1);
    lemma_mission_people_msum(ps2, zas2, g2);
    lemma_msum_map(dz1, f1, g1, h);
    assert forall|z: Seq<char>| #[trigger] h(z) == g2(f2(z)) by {
        assert(zone_multiset(ps2, z) == zone_multiset(ps, z));
    }
    lemma_msum_map(dz2, f2, g2, h);
    lemma_msum_permuted(dz1, dz2, h);
    let mp1 = mission_people(ps, zas1);
    let mp2 = mission_people(ps2, zas2);
    assert(mp1.to_multiset() == mp2.to_multiset());
    vstd::seq_lib::to_multiset_len(mp1);
    vstd::seq_lib::to_multiset_len(mp2);
    assert(mp1.len() == mp2.len());
    // the entries
    let e1 = zas1.map_values(|za: (Seq<char>, Seq<Seq<char>>)| zone_entry(ps, za));
    let e2 = zas2.map_values(|za: (Seq<char>, Seq<Seq<char>>)| zone_entry(ps2, za));
    let total = "Mission Total"@;
    let t1 = (mp1, (total_time(ps) / mp1.len() as int) as usize);
    let t2 = (mp2, (total_time(ps2) / mp2.len() as int) as usize);
    let m1 = mission_averages(ps);
    let m2 = mission_averages(ps2);
    assert(m1 == assoc_insert(e1, total, t1));
    assert(m2 == assoc_insert(e2, total, t2));
    lemma_assoc_insert_positions(e1, total, t1);
    lemma_assoc_insert_positions(e2, total, t2);
    assert forall|z: Seq<char>| #[trigger] key_position(e1, z) >= 0 <==> dz1.contains(z) by {
        lemma_key_position_bounds(e1, z);
        if key_position(e1, z) >= 0 {
            assert(dz1[key_position(e1, z)] == z);
        }
        if dz1.contains(z) {
            let j = choose|j: int| 0 <= j < dz1.len() && dz1[j] == z;
            assert(e1[j].0 == z);
        }
    }
    assert forall|z: Seq<char>| #[trigger] key_position(e2, z) >= 0 <==> dz2.contains(z) by {
        lemma_key_position_bounds(e2, z);
        if key_position(e2, z) >= 0 {
            assert(dz2[key_position(e2, z)] == z);
        }
        if dz2.contains(z) {
            let j = choose|j: int| 0 <= j < dz2.len() && dz2[j] == z;
            assert(e2[j].0 == z);
        }
    }
    assert(key_position(e1, total) >= 0 <==> key_position(e2, total) >= 0);
    assert(m1.len() == m2.len());
    assert forall|kk: Seq<char>| #[trigger] key_position(m1, kk) >= 0 <==> key_position(m2, kk) >= 0 by {
        if kk != total {
            assert(key_position(m1, kk) == key_position(e1, kk));
            assert(key_position(m2, kk) == key_position(e2, kk));
        }
    }
    // whether the averages can be taken
    assert forall|z: Seq<char>|
        #[trigger] zone_people(ps, z, areas_in_zone(ps, z), true).len() == zone_people(ps2, z, areas_in_zone(ps2, z), true).len() by {
        assert(zone_multiset(ps2, z) == zone_multiset(ps, z));
        vstd::seq_lib::to_multiset_len(zone_people(ps, z, areas_in_zone(ps, z), true));
        vstd::seq_lib::to_multiset_len(zone_people(ps2, z, areas_in_zone(ps2, z), true));
    }
    assert forall|kk: Seq<char>| #[trigger] key_position(m1, kk) >= 0 implies ({
        let v1 = m1[key_position(m1, kk)].1;
        let v2 = m2[key_position(m2, kk)].1;
        v1.1 == v2.1 && v1.0.to_multiset() == v2.0.to_multiset()
    }) by {
        if kk != total {
            let p1 = key_position(e1, kk);
            let p2 = key_position(e2, kk);
            assert(key_position(m1, kk) == p1);
            assert(key_position(m2, kk) == p2);
            lemma_key_position_bounds(e1, kk);
            lemma_key_position_bounds(e2, kk);
            assert(m1[p1] == e1[p1]);
            assert(m2[p2] == e2[p2]);
            assert(dz1[p1] == kk);
            assert(dz2[p2] == kk);
            assert(zas1[p1] == (kk, areas_in_zone(ps, kk)));
            assert(zas2[p2] == (kk, areas_in_zone(ps2, kk)));
            assert(e1[p1] == zone_entry(ps, zas1[p1]));
            assert(e2[p2] == zone_entry(ps2, zas2[p2]));
            assert(zone_multiset(ps2, kk) == zone_multiset(ps, kk));
            assert(zone_people(ps, kk, areas_in_zone(ps, kk), true).len() == zone_people(ps2, kk, areas_in_zone(ps2, kk), true).len());
        }
    }
    if forall|i: int| 0 <= i < zas1.len() ==> #[trigger] zone_people(ps, zas1[i].0, zas1[i].1, true).len() > 0 {
        assert forall|i: int| 0 <= i < zas2.len() implies #[trigger] zone_people(ps2, zas2[i].0, zas2[i].1, true).len() > 0 by {
            let z = dz2[i];
            assert(dz2.contains(z));
            let j = choose|j: int| 0 <= j < dz1.len() && dz1[j] == z;
            assert(zas1[j] == (z, areas_in_zone(ps, z)));
            assert(zone_people(ps, z, areas_in_zone(ps, z), true).len() == zone_people(ps2, z, areas_in_zone(ps2, z), true).len());
            assert(zone_people(ps, zas1[j].0, zas1[j].1, true).len() > 0);
        }
    }
    if forall|i: int| 0 <= i < zas2.len() ==> #[trigger] zone_people(ps2, zas2[i].0, zas2[i].1, true).len() > 0 {
        assert forall|i: int| 0 <= i < zas1.len() implies #[trigger] zone_people(ps, zas1[i].0, zas1[i].1, true).len() > 0 by {
            let z = dz1[i];
            assert(dz1.contains(z));
            let j = choose|j: int| 0 <= j < dz2.len() && dz2[j] == z;
            assert(zas2[j] == (z, areas_in_zone(ps2, z)));
            assert(zone_people(ps, z, areas_in_zone(ps, z), true).len() == zone_people(ps2, z, areas_in_zone(ps2, z), true).len());
            assert(zone_people(ps2, zas2[j].0, zas2[j].1, true).len() > 0);
        }
    }
}

} // verus!
