//! The daily report for each zone.

use vstd::prelude::*;
use vstd::string::*;
use std::collections::HashMap;
use crate::persons::{Person, ReferralStatus};
use crate::text::{decimal, decimal_string, replace, replace_all};
use super::{NamesView, get_average, get_uncontacted, average_defined, mission_averages, zone_averages, uncontacted, opt_view, pretty_print_avg_response_time, clone_averages, clone_unattempted, sort_for_report, sorted_for_report, avg_report_text};

verus! {

broadcast use {vstd::string::group_string_axioms, vstd::std_specs::hash::group_hash_axioms};

/// For each zone or area: who was counted, and the average response time in
/// minutes.
pub type AreaAverageResponseTime = Vec<(String, (Vec<(String, String)>, usize))>;

/// For each zone or area: the people counted in it.
pub type AreaUnattemptedCount = Vec<(String, Vec<(String, String)>)>;

/// One zone's daily report: average response times per area and the
/// referrals not yet attempted per area.
pub struct ZoneReportDaily {
    pub area_avg_response_time: AreaAverageResponseTime,
    pub area_unattempted_count: AreaUnattemptedCount,
}

/// The daily reports, by zone identifier.
pub struct ZoneReportDailyMap(pub HashMap<usize, ZoneReportDaily>);

impl Default for ZoneReportDailyMap {
    fn default() -> (r: ZoneReportDailyMap)
        ensures
            r.0@ == Map::<usize, ZoneReportDaily>::empty(),
    {
        ZoneReportDailyMap(HashMap::new())
    }
}

/// One line per area: its name and how many referrals it has.
pub open spec fn unattempted_text(s: Seq<(Seq<char>, NamesView)>) -> Seq<char>
    decreases s.len(),
{
    if s.len() == 0 {
        Seq::empty()
    } else {
        unattempted_text(s.drop_last()) + s.last().0 + ": "@ + decimal(s.last().1.len()) + "\n"@
    }
}

/// The two template variables of a report, in order: the printed averages
/// and the printed counts of referrals not attempted.
pub open spec fn template_vars(
    avg_order: Seq<(Seq<char>, (NamesView, usize))>,
    unattempted_order: Seq<(Seq<char>, NamesView)>,
) -> Seq<(Seq<char>, Seq<char>)> {
    seq![
        ("area_avg_response_time"@, avg_report_text(avg_order)),
        ("area_unattempted_count"@, unattempted_text(unattempted_order)),
    ]
}

/// `avg_order` and `unattempted_order` hold the report's entries in printed
/// order.
pub open spec fn printed_orders(
    report: ZoneReportDaily,
    avg_order: Seq<(Seq<char>, (NamesView, usize))>,
    unattempted_order: Seq<(Seq<char>, NamesView)>,
) -> bool {
    &&& avg_order.to_multiset() == report.area_avg_response_time.deep_view().to_multiset()
    &&& sorted_for_report(avg_order, true)
    &&& unattempted_order.to_multiset() == report.area_unattempted_count.deep_view().to_multiset()
    &&& sorted_for_report(unattempted_order, false)
}

/// The message sent for a zone: the template with its two placeholders
/// filled in, one after the other.
pub open spec fn zone_message(template: Seq<char>, vars: Seq<(Seq<char>, Seq<char>)>) -> Seq<char> {
    replace_all(
        replace_all(template, "{area_avg_response_time}"@, vars[0].1),
        "{area_unattempted_count}"@,
        vars[1].1,
    )
}

/// A zone's report as printed.
pub open spec fn zone_report_text(zone_name: Seq<char>, vars: Seq<(Seq<char>, Seq<char>)>) -> Seq<char> {
    zone_name + ":\n"@ + "Average Response time:\n"@ + vars[0].1
        + "\nUnattempted Contacted Referrals:\n"@ + vars[1].1 + "\n"@
}

/// The averages a zone's report holds: the zone's when its name is known,
/// the whole mission's otherwise.
pub open spec fn averages_for(zone_name: Option<Seq<char>>, ps: Seq<Person>) -> Seq<(Seq<char>, (NamesView, usize))> {
    match zone_name {
        Some(z) => zone_averages(ps, z),
        None => mission_averages(ps),
    }
}

impl ZoneReportDaily {
    /// The report's template variables: the printed averages, and one line
    /// per area with its count of referrals not attempted, in alphabetical
    /// order.
    pub fn get_vars_for_template(&self) -> (result: Vec<(String, String)>)
        ensures
            exists|avg_order: Seq<(Seq<char>, (NamesView, usize))>, unattempted_order: Seq<(Seq<char>, NamesView)>|
                printed_orders(*self, avg_order, unattempted_order) && result.deep_view()
                    == template_vars(avg_order, unattempted_order),
    {
        let area_avg_response_time = pretty_print_avg_response_time(clone_averages(&self.area_avg_response_time));
        let unattempted_entries = sort_for_report(clone_unattempted(&self.area_unattempted_count), false);
        let ghost order = unattempted_entries.deep_view();
        let mut area_unattempted_count = String::new();
        let mut i: usize = 0;
        while i < unattempted_entries.len()
            invariant
                i <= unattempted_entries@.len(),
                order == unattempted_entries.deep_view(),
                area_unattempted_count@ == unattempted_text(order.take(i as int)),
            decreases unattempted_entries@.len() - i,
        {
            let area_name = &unattempted_entries[i].0;
            let count = unattempted_entries[i].1.len();
            assert(order[i as int].0 == area_name@ && order[i as int].1.len() == count);
            area_unattempted_count.append(area_name.as_str());
            area_unattempted_count.append(": ");
            area_unattempted_count.append(decimal_string(count as u64).as_str());
            area_unattempted_count.append("\n");
            assert(order.take(i + 1).drop_last() =~= order.take(i as int));
            assert(order.take(i + 1).last() == order[i as int]);
            i = i + 1;
        }
        assert(order.take(unattempted_entries@.len() as int) =~= order);
        let mut result: Vec<(String, String)> = Vec::new();
        result.push(("area_avg_response_time".to_string(), area_avg_response_time));
        result.push(("area_unattempted_count".to_string(), area_unattempted_count));
        let ghost avg_order = choose|avg_order: Seq<(Seq<char>, (NamesView, usize))>|
            avg_order.to_multiset() == self.area_avg_response_time.deep_view().to_multiset()
                && sorted_for_report(avg_order, true) && result@[0].1@ == avg_report_text(avg_order);
        assert(result.deep_view() =~= template_vars(avg_order, order));
        result
    }

    /// The message for a zone: `template` with `{area_avg_response_time}` and
    /// then `{area_unattempted_count}` replaced by the report's variables.
    pub fn render_message(&self, template: &str) -> (message: String)
        ensures
            exists|avg_order: Seq<(Seq<char>, (NamesView, usize))>, unattempted_order: Seq<(Seq<char>, NamesView)>|
                printed_orders(*self, avg_order, unattempted_order) && message@ == zone_message(
                    template@,
                    template_vars(avg_order, unattempted_order),
                ),
    {
        let vars = self.get_vars_for_template();
        let ghost (avg_order, unattempted_order) = choose|avg_order: Seq<(Seq<char>, (NamesView, usize))>, unattempted_order: Seq<(Seq<char>, NamesView)>|
            printed_orders(*self, avg_order, unattempted_order) && vars.deep_view()
                == template_vars(avg_order, unattempted_order);
        assert(vars.deep_view().len() == 2);
        assert(vars@[0].1@ == vars.deep_view()[0].1 && vars@[1].1@ == vars.deep_view()[1].1);
        proof {
            reveal_strlit("{area_avg_response_time}");
            reveal_strlit("{area_unattempted_count}");
        }
        let first = replace(template, "{area_avg_response_time}", vars[0].1.as_str());
        replace(first.as_str(), "{area_unattempted_count}", vars[1].1.as_str())
    }

    /// The report printed under the zone's name.
    pub fn pretty_print_zone(&self, zone_name: &str) -> (output: String)
        ensures
            exists|avg_order: Seq<(Seq<char>, (NamesView, usize))>, unattempted_order: Seq<(Seq<char>, NamesView)>|
                printed_orders(*self, avg_order, unattempted_order) && output@ == zone_report_text(
                    zone_name@,
                    template_vars(avg_order, unattempted_order),
                ),
    {
        let vars = self.get_vars_for_template();
        let ghost (avg_order, unattempted_order) = choose|avg_order: Seq<(Seq<char>, (NamesView, usize))>, unattempted_order: Seq<(Seq<char>, NamesView)>|
            printed_orders(*self, avg_order, unattempted_order) && vars.deep_view()
                == template_vars(avg_order, unattempted_order);
        assert(vars.deep_view().len() == 2);
        assert(vars@[0].1@ == vars.deep_view()[0].1 && vars@[1].1@ == vars.deep_view()[1].1);
        let mut output = String::new();
        output.append(zone_name);
        output.append(":\n");
        output.append("Average Response time:\n");
        output.append(vars[0].1.as_str());
        output.append("\nUnattempted Contacted Referrals:\n");
        output.append(vars[1].1.as_str());
        output.append("\n");
        assert(output@ =~= zone_report_text(zone_name@, template_vars(avg_order, unattempted_order)));
        output
    }
}

impl ZoneReportDailyMap {
    /// One report per zone: the averages of `timed_people` for the zone (for
    /// the whole mission when its name is unknown) and the referrals of
    /// `unattempted_people` per area. A zone listed twice keeps its last
    /// report.
    pub fn generate_report(
        zones: &Vec<(usize, Option<String>)>,
        timed_people: &Vec<Person>,
        unattempted_people: &Vec<Person>,
    ) -> (report: ZoneReportDailyMap)
        requires
            forall|i: int|
                0 <= i < zones@.len() ==> average_defined(
                    opt_view(#[trigger] zones@[i].1),
                    timed_people@,
                ),
        ensures
            forall|id: usize|
                #[trigger] report.0@.contains_key(id) <==> exists|i: int|
                    0 <= i < zones@.len() && zones@[i].0 == id,
            forall|i: int|
                0 <= i < zones@.len() && (forall|j: int| i < j < zones@.len() ==> zones@[j].0 != zones@[i].0)
                    ==> {
                    &&& #[trigger] report.0@[zones@[i].0].area_avg_response_time.deep_view()
                        == averages_for(opt_view(zones@[i].1), timed_people@)
                    &&& report.0@[zones@[i].0].area_unattempted_count.deep_view() == uncontacted(
                        opt_view(zones@[i].1),
                        unattempted_people@,
                    )
                },
    {
        let mut new_map: HashMap<usize, ZoneReportDaily> = HashMap::new();
        let mut k: usize = 0;
        while k < zones.len()
            invariant
                k <= zones@.len(),
                forall|i: int|
                    0 <= i < zones@.len() ==> average_defined(
                        opt_view(#[trigger] zones@[i].1),
                        timed_people@,
                    ),
                forall|id: usize|
                    #[trigger] new_map@.contains_key(id) <==> exists|i: int| 0 <= i < k && zones@[i].0 == id,
                forall|i: int|
                    0 <= i < k && (forall|j: int| i < j < k ==> zones@[j].0 != zones@[i].0) ==> {
                        &&& #[trigger] new_map@[zones@[i].0].area_avg_response_time.deep_view()
                            == averages_for(opt_view(zones@[i].1), timed_people@)
                        &&& new_map@[zones@[i].0].area_unattempted_count.deep_view() == uncontacted(
                            opt_view(zones@[i].1),
                            unattempted_people@,
                        )
                    },
            decreases zones@.len() - k,
        {
            let zone_id = zones[k].0;
            let zone_name = match &zones[k].1 {
                Some(name) => Some(name.clone()),
                None => None,
            };
            assert(opt_view(zone_name) == opt_view(zones@[k as int].1));
            assert(average_defined(opt_view(zones@[k as int].1), timed_people@));
            let unattempted_zone_name = match &zone_name {
                Some(name) => Some(name.clone()),
                None => None,
            };
            let area_avg_response_time = get_average(zone_name, timed_people);
            let area_unattempted_count = get_uncontacted(unattempted_zone_name, unattempted_people);
            let ghost old_map = new_map@;
            new_map.insert(zone_id, ZoneReportDaily { area_avg_response_time, area_unattempted_count });
            assert forall|id: usize| #[trigger] new_map@.contains_key(id) <==> exists|i: int|
                0 <= i < k + 1 && zones@[i].0 == id by {
                if id != zone_id && new_map@.contains_key(id) {
                    assert(old_map.contains_key(id));
                }
                if exists|i: int| 0 <= i < k + 1 && zones@[i].0 == id {
                    let i = choose|i: int| 0 <= i < k + 1 && zones@[i].0 == id;
                    if i < k {
                        assert(old_map.contains_key(id));
                    }
                }
            }
            k = k + 1;
        }
        ZoneReportDailyMap(new_map)
    }
}

/// `text` is the report of `report` printed under the zone name `zone_name`.
pub open spec fn printed_zone(report: ZoneReportDaily, zone_name: Seq<char>, text: Seq<char>) -> bool {
    exists|avg_order: Seq<(Seq<char>, (NamesView, usize))>, unattempted_order: Seq<(Seq<char>, NamesView)>|
        printed_orders(report, avg_order, unattempted_order) && text == zone_report_text(
            zone_name,
            template_vars(avg_order, unattempted_order),
        )
}

/// The texts one after the other.
pub open spec fn concat(texts: Seq<Seq<char>>) -> Seq<char>
    decreases texts.len(),
{
    if texts.len() == 0 {
        Seq::empty()
    } else {
        concat(texts.drop_last()) + texts.last()
    }
}

/// `texts` holds, for each named zone in turn, its report printed under its
/// name, or nothing when the map holds no report for it.
pub open spec fn printed_zones(
    reports: Map<usize, ZoneReportDaily>,
    zone_names: Seq<(usize, Seq<char>)>,
    texts: Seq<Seq<char>>,
) -> bool {
    &&& texts.len() == zone_names.len()
    &&& forall|i: int|
        0 <= i < zone_names.len() ==> if reports.contains_key(#[trigger] zone_names[i].0) {
            printed_zone(reports[zone_names[i].0], zone_names[i].1, texts[i])
        } else {
            texts[i] == Seq::<char>::empty()
        }
}

impl ZoneReportDailyMap {
    /// Every zone's report printed under its name, for the zones in
    /// `zone_names` (identifier and name, as recorded with the people list)
    /// that the map holds a report for, in that order.
    pub fn pretty_print_report(&self, zone_names: &Vec<(usize, String)>) -> (output: String)
        ensures
            exists|texts: Seq<Seq<char>>|
                printed_zones(self.0@, zone_names.deep_view(), texts) && output@ == concat(texts),
    {
        let ghost names = zone_names.deep_view();
        let ghost mut texts: Seq<Seq<char>> = Seq::empty();
        let mut output = String::new();
        let mut i: usize = 0;
        while i < zone_names.len()
            invariant
                i <= zone_names@.len(),
                names == zone_names.deep_view(),
                names.len() == zone_names@.len(),
                printed_zones(self.0@, names.take(i as int), texts),
                output@ == concat(texts),
            decreases zone_names@.len() - i,
        {
            let zone_id = zone_names[i].0;
            assert(names[i as int] == (zone_id, zone_names@[i as int].1@));
            let ghost before = texts;
            match self.0.get(&zone_id) {
                Some(zone_report) => {
                    let text = zone_report.pretty_print_zone(zone_names[i].1.as_str());
                    output.append(text.as_str());
                    proof {
                        texts = before.push(text@);
                    }
                },
                None => {
                    proof {
                        texts = before.push(Seq::empty());
                    }
                },
            }
            assert(texts.drop_last() =~= before);
            assert(names.take(i + 1).drop_last() =~= names.take(i as int));
            assert forall|k: int| 0 <= k < i + 1 implies if self.0@.contains_key(#[trigger] names.take(i + 1)[k].0) {
                printed_zone(self.0@[names.take(i + 1)[k].0], names.take(i + 1)[k].1, texts[k])
            } else {
                texts[k] == Seq::<char>::empty()
            } by {
                if k < i {
                    assert(names.take(i + 1)[k] == names.take(i as int)[k]);
                    assert(texts[k] == before[k]);
                }
            }
            i = i + 1;
        }
        assert(names.take(zone_names@.len() as int) =~= names);
        output
    }
}

/// Whether nobody has tried to contact the referral yet.
pub fn unattempted_filter(person: &Person) -> (b: bool)
    ensures
        b == (person.referral_status == ReferralStatus::NotAttempted),
{
    person.referral_status == ReferralStatus::NotAttempted
}

} // verus!
