//! What the averages of the mission-wide report are: each one is the summed
//! response times divided by the number of people listed with it.

use vstd::prelude::*;
use crate::persons::Person;
use super::reordering::lemma_assoc_insert_positions;
use super::{
    area_names_in, areas_time, average_defined, dedup, in_areas, in_zone, key_position,
    lemma_dedup_contains, lemma_dedup_distinct, lemma_key_position, lemma_pair_named,
    lemma_times_bounded, mission_averages, mission_people, placed, timed, total_time, zone_areas,
    zone_entry, zone_names, zone_people, zone_time, zone_averages, lemma_key_position_bounds,
};

verus! {

/// Summing over a list of areas that holds every area of zone `z` sums all
/// the zone's response times.
proof fn lemma_covering_areas_time(ps: Seq<Person>, z: Seq<char>, areas: Seq<Seq<char>>)
    requires
        forall|i: int|
            0 <= i < ps.len() && placed(ps[i]) && #[trigger] in_zone(ps[i], z) ==> areas.contains(
                ps[i].area_name->0@,
            ),
    ensures
        areas_time(ps, z, areas) == zone_time(ps, z),
    decreases ps.len(),
{
    if ps.len() > 0 {
        let prefix = ps.drop_last();
        assert forall|i: int|
            0 <= i < prefix.len() && placed(prefix[i]) && #[trigger] in_zone(prefix[i], z) implies areas.contains(
                prefix[i].area_name->0@,
            ) by {
            assert(prefix[i] == ps[i]);
            assert(in_zone(ps[i], z));
        }
        lemma_covering_areas_time(prefix, z, areas);
        let p = ps.last();
        assert(p == ps[ps.len() - 1]);
        if timed(p) && in_zone(p, z) {
            assert(in_zone(ps[ps.len() - 1], z));
            assert(in_areas(p, areas));
        }
    }
}

/// The areas listed for zone `z` hold every area of the zone.
proof fn lemma_zone_areas_cover(ps: Seq<Person>, z: Seq<char>)
    ensures
        areas_time(ps, z, dedup(area_names_in(ps, z))) == zone_time(ps, z),
{
    let areas = dedup(area_names_in(ps, z));
    assert forall|i: int|
        0 <= i < ps.len() && placed(ps[i]) && #[trigger] in_zone(ps[i], z) implies areas.contains(
            ps[i].area_name->0@,
        ) by {
        let x = ps[i].area_name->0@;
        lemma_pair_named(ps, i, z, x);
        lemma_dedup_contains(area_names_in(ps, z), x);
    }
    lemma_covering_areas_time(ps, z, areas);
}

/// Every entry of the mission-wide report holds people, and its average
/// times their number is at most the summed response times it stands for,
/// while the next average up times their number exceeds that sum. The sum is
/// the zone's response times for a zone's entry and all response times for
/// the mission total.
pub proof fn law_mission_average_brackets_the_times(ps: Seq<Person>, i: int)
    requires
        average_defined(None, ps),
        0 <= i < mission_averages(ps).len(),
    ensures
        ({
            let (name, (people, avg)) = mission_averages(ps)[i];
            let sum = if name == "Mission Total"@ {
                total_time(ps)
            } else {
                zone_time(ps, name)
            };
            &&& people.len() > 0
            &&& avg * people.len() <= sum
            &&& sum < (avg + 1) * people.len()
        }),
{
    let total = "Mission Total"@;
    let zas = zone_areas(ps);
    let dz = dedup(zone_names(ps));
    let mp = mission_people(ps, zas);
    let e = zas.map_values(|za: (Seq<char>, Seq<Seq<char>>)| zone_entry(ps, za));
    let t = (mp, (total_time(ps) / mp.len() as int) as usize);
    let m = mission_averages(ps);
    assert(m == super::assoc_insert(e, total, t));
    lemma_assoc_insert_positions(e, total, t);
    lemma_times_bounded(ps, Seq::empty(), Seq::empty());
    let p = key_position(m, total);
    if i == p {
        let n = mp.len() as int;
        let s = total_time(ps);
        assert(0 <= s / n <= s) by (nonlinear_arith)
            requires 0 <= s, n > 0;
        assert((s / n) * n <= s < (s / n + 1) * n) by (nonlinear_arith)
            requires 0 <= s, n > 0;
    } else {
        assert(i < e.len());
        lemma_dedup_distinct(zone_names(ps));
        if e[i].0 == total {
            assert forall|j: int| 0 <= j < i implies e[j].0 != total by {
                assert(dz[j] != dz[i]);
            }
            lemma_key_position(e, total, i);
        }
        assert(e[i].0 != total);
        assert(m[i] == e[i]);
        let z = dz[i];
        let areas = dedup(area_names_in(ps, z));
        assert(zas[i] == (z, areas));
        let people = zone_people(ps, z, areas, true);
        assert(people.len() > 0) by {
            assert(zone_people(ps, zas[i].0, zas[i].1, true).len() > 0);
        }
        lemma_zone_areas_cover(ps, z);
        lemma_times_bounded(ps, z, areas);
        let n = people.len() as int;
        let s = zone_time(ps, z);
        assert(0 <= s / n <= s) by (nonlinear_arith)
            requires 0 <= s, n > 0;
        assert((s / n) * n <= s < (s / n + 1) * n) by (nonlinear_arith)
            requires 0 <= s, n > 0;
    }
}

/// In the report for zone `z`, the zone total holds people, and its average
/// times their number is at most the zone's summed response times, while the
/// next average up times their number exceeds that sum.
pub proof fn law_zone_total_brackets_the_times(ps: Seq<Person>, z: Seq<char>)
    requires
        average_defined(Some(z), ps),
        zone_averages(ps, z).len() > 0,
    ensures
        ({
            let r = zone_averages(ps, z);
            let (people, avg) = r[key_position(r, "Zone Total"@)].1;
            &&& 0 <= key_position(r, "Zone Total"@) < r.len()
            &&& people.len() > 0
            &&& avg * people.len() <= zone_time(ps, z)
            &&& zone_time(ps, z) < (avg + 1) * people.len()
        }),
{
    let zas = zone_areas(ps);
    let dz = dedup(zone_names(ps));
    let k = key_position(zas, z);
    lemma_key_position_bounds(zas, z);
    assert(k >= 0);
    let areas = zas[k].1;
    assert(zas[k] == (dz[k], dedup(area_names_in(ps, dz[k]))));
    assert(areas == dedup(area_names_in(ps, z)));
    let people = zone_people(ps, z, areas, true);
    let entries = Seq::new(areas.len(), |j: int| super::area_entry(ps, z, areas, j));
    let t = (people, (areas_time(ps, z, areas) / people.len() as int) as usize);
    assert(zone_averages(ps, z) == super::assoc_insert(entries, "Zone Total"@, t));
    lemma_assoc_insert_positions(entries, "Zone Total"@, t);
    lemma_zone_areas_cover(ps, z);
    lemma_times_bounded(ps, z, areas);
    let n = people.len() as int;
    let s = zone_time(ps, z);
    assert(0 <= s / n <= s) by (nonlinear_arith)
        requires 0 <= s, n > 0;
    assert((s / n) * n <= s < (s / n + 1) * n) by (nonlinear_arith)
        requires 0 <= s, n > 0;
}

} // verus!
