//! The ranking of teaching areas by their average response time.

use vstd::prelude::*;
use vstd::string::*;
use vstd::multiset::Multiset;
use crate::missionary::{Missionary, ProsArea};
use crate::persons::Person;
use crate::text::{decimal, decimal_string, join, join_strings};

verus! {

broadcast use vstd::string::group_string_axioms;

/// A teaching area on the leaderboard.
struct LeaderBoardItem {
    area_name: String,
    missionaries: Vec<Missionary>,
    response_time: usize,
}

/// The teaching areas ranked by average response time.
pub struct LeaderBoard {
    items: Vec<LeaderBoardItem>,
}

impl LeaderBoardItem {
    fn new(missionaries: Vec<Missionary>, area_name: String, response_time: usize) -> (item: LeaderBoardItem)
        ensures
            item.missionaries == missionaries,
            item.area_name == area_name,
            item.response_time == response_time,
    {
        LeaderBoardItem { area_name, missionaries, response_time }
    }
}

/// The identifiers, each once, in order of first appearance.
pub open spec fn dedup_ids(s: Seq<usize>) -> Seq<usize>
    decreases s.len(),
{
    if s.len() == 0 {
        Seq::empty()
    } else {
        let d = dedup_ids(s.drop_last());
        if d.contains(s.last()) {
            d
        } else {
            d.push(s.last())
        }
    }
}

/// The sum of the response times sampled in area `id`.
pub open spec fn area_sum(samples: Seq<(usize, usize)>, id: usize) -> int
    decreases samples.len(),
{
    if samples.len() == 0 {
        0
    } else {
        area_sum(samples.drop_last(), id) + if samples.last().0 == id {
            samples.last().1 as int
        } else {
            0
        }
    }
}

/// How many response times were sampled in area `id`.
pub open spec fn area_count(samples: Seq<(usize, usize)>, id: usize) -> int
    decreases samples.len(),
{
    if samples.len() == 0 {
        0
    } else {
        area_count(samples.drop_last(), id) + if samples.last().0 == id {
            1int
        } else {
            0
        }
    }
}

/// Each sampled area with the average of its response times, in order of
/// first appearance.
pub open spec fn area_averages(samples: Seq<(usize, usize)>) -> Seq<(usize, usize)> {
    dedup_ids(samples.map_values(|s: (usize, usize)| s.0)).map_values(
        |id: usize| (id, (area_sum(samples, id) / area_count(samples, id)) as usize),
    )
}

/// Ordered by average: smallest first when `incrementing`, largest first
/// otherwise.
pub open spec fn ranked(s: Seq<(usize, usize)>, incrementing: bool) -> bool {
    forall|i: int, j: int|
        0 <= i < j < s.len() ==> if incrementing {
            #[trigger] s[i].1 <= #[trigger] s[j].1
        } else {
            s[i].1 >= s[j].1
        }
}

proof fn lemma_area_sum_prefix(samples: Seq<(usize, usize)>, i: int, id: usize)
    requires
        0 <= i <= samples.len(),
    ensures
        0 <= area_sum(samples.take(i), id) <= area_sum(samples, id),
        0 <= area_count(samples.take(i), id) <= area_count(samples, id),
    decreases samples.len() - i,
{
    if i < samples.len() {
        lemma_area_sum_prefix(samples, i + 1, id);
        assert(samples.take(i + 1).drop_last() =~= samples.take(i));
        lemma_area_nonnegative(samples.take(i), id);
    } else {
        assert(samples.take(i) =~= samples);
        lemma_area_nonnegative(samples, id);
    }
}

proof fn lemma_area_nonnegative(samples: Seq<(usize, usize)>, id: usize)
    ensures
        0 <= area_sum(samples, id),
        0 <= area_count(samples, id),
    decreases samples.len(),
{
    if samples.len() > 0 {
        lemma_area_nonnegative(samples.drop_last(), id);
    }
}

/// Every identifier kept is one of the sampled ones, and a sampled area has
/// at least one sample.
proof fn lemma_dedup_sampled(samples: Seq<(usize, usize)>, id: usize)
    requires
        dedup_ids(samples.map_values(|s: (usize, usize)| s.0)).contains(id),
    ensures
        area_count(samples, id) > 0,
    decreases samples.len(),
{
    let ids = samples.map_values(|s: (usize, usize)| s.0);
    if samples.len() > 0 {
        let prefix = samples.drop_last();
        assert(prefix.map_values(|s: (usize, usize)| s.0) =~= ids.drop_last());
        lemma_area_nonnegative(prefix, id);
        if samples.last().0 != id {
            lemma_dedup_sampled(prefix, id);
        }
    }
}

proof fn lemma_area_sum_absent(samples: Seq<(usize, usize)>, id: usize)
    requires
        forall|k: int| 0 <= k < samples.len() ==> #[trigger] samples[k].0 != id,
    ensures
        area_sum(samples, id) == 0,
    decreases samples.len(),
{
    if samples.len() > 0 {
        let prefix = samples.drop_last();
        assert forall|k: int| 0 <= k < prefix.len() implies #[trigger] prefix[k].0 != id by {
            assert(prefix[k] == samples[k]);
        }
        lemma_area_sum_absent(prefix, id);
        assert(samples.last() == samples[samples.len() - 1]);
    }
}

/// Whether every area's summed response times fit in a `usize`, so that the
/// areas can be ranked.
pub fn area_sums_fit(samples: &Vec<(usize, usize)>) -> (fits: bool)
    ensures
        fits == forall|id: usize| area_sum(samples@, id) <= usize::MAX,
{
    let mut i: usize = 0;
    while i < samples.len()
        invariant
            i <= samples@.len(),
            forall|k: int| 0 <= k < i ==> area_sum(samples@, #[trigger] samples@[k].0) <= usize::MAX,
        decreases samples@.len() - i,
    {
        let id = samples[i].0;
        let mut sum: usize = 0;
        let mut j: usize = 0;
        while j < samples.len()
            invariant
                j <= samples@.len(),
                sum == area_sum(samples@.take(j as int), id),
            decreases samples@.len() - j,
        {
            assert(samples@.take(j + 1).drop_last() =~= samples@.take(j as int));
            if samples[j].0 == id {
                match sum.checked_add(samples[j].1) {
                    Some(next) => {
                        sum = next;
                    },
                    None => {
                        proof {
                            lemma_area_sum_prefix(samples@, j + 1, id);
                        }
                        return false;
                    },
                }
            }
            j = j + 1;
        }
        assert(samples@.take(samples@.len() as int) =~= samples@);
        i = i + 1;
    }
    assert forall|id: usize| area_sum(samples@, id) <= usize::MAX by {
        if exists|k: int| 0 <= k < samples@.len() && samples@[k].0 == id {
            let k = choose|k: int| 0 <= k < samples@.len() && samples@[k].0 == id;
            assert(area_sum(samples@, samples@[k].0) <= usize::MAX);
        } else {
            lemma_area_sum_absent(samples@, id);
        }
    }
    true
}

/// Each sampled area with its average, in order of first appearance.
fn average_per_area(samples: &Vec<(usize, usize)>) -> (res: Vec<(usize, usize)>)
    requires
        forall|id: usize| area_sum(samples@, id) <= usize::MAX,
    ensures
        res@ == area_averages(samples@),
{
    let ghost ids = samples@.map_values(|s: (usize, usize)| s.0);
    let mut areas: Vec<usize> = Vec::new();
    let mut i: usize = 0;
    while i < samples.len()
        invariant
            i <= samples@.len(),
            ids == samples@.map_values(|s: (usize, usize)| s.0),
            areas@ == dedup_ids(ids.take(i as int)),
        decreases samples@.len() - i,
    {
        let id = samples[i].0;
        assert(ids.take(i + 1).drop_last() =~= ids.take(i as int));
        assert(ids.take(i + 1).last() == id);
        let mut found = false;
        let mut k: usize = 0;
        while k < areas.len()
            invariant
                k <= areas@.len(),
                found == exists|q: int| 0 <= q < k && areas@[q] == id,
            decreases areas@.len() - k,
        {
            if areas[k] == id {
                found = true;
            }
            k = k + 1;
        }
        if !found {
            areas.push(id);
        }
        i = i + 1;
    }
    assert(ids.take(samples@.len() as int) =~= ids);
    let mut res: Vec<(usize, usize)> = Vec::new();
    let mut a: usize = 0;
    while a < areas.len()
        invariant
            a <= areas@.len(),
            areas@ == dedup_ids(ids),
            ids == samples@.map_values(|s: (usize, usize)| s.0),
            forall|id: usize| area_sum(samples@, id) <= usize::MAX,
            res@ == areas@.take(a as int).map_values(
                |id: usize| (id, (area_sum(samples@, id) / area_count(samples@, id)) as usize),
            ),
        decreases areas@.len() - a,
    {
        let id = areas[a];
        let mut sum: usize = 0;
        let mut count: usize = 0;
        let mut j: usize = 0;
        while j < samples.len()
            invariant
                j <= samples@.len(),
                area_sum(samples@, id) <= usize::MAX,
                sum == area_sum(samples@.take(j as int), id),
                count == area_count(samples@.take(j as int), id),
                count <= j,
            decreases samples@.len() - j,
        {
            proof {
                lemma_area_sum_prefix(samples@, j + 1, id);
                assert(samples@.take(j + 1).drop_last() =~= samples@.take(j as int));
            }
            if samples[j].0 == id {
                sum = sum + samples[j].1;
                count = count + 1;
            }
            j = j + 1;
        }
        assert(samples@.take(samples@.len() as int) =~= samples@);
        proof {
            assert(areas@.contains(id)) by {
                assert(areas@[a as int] == id);
            }
            lemma_dedup_sampled(samples@, id);
        }
        let ghost old_res = res@;
        res.push((id, sum / count));
        assert(areas@.take(a + 1) =~= areas@.take(a as int).push(id));
        assert(res@ =~= areas@.take(a + 1).map_values(
            |id: usize| (id, (area_sum(samples@, id) / area_count(samples@, id)) as usize),
        ));
        a = a + 1;
    }
    assert(areas@.take(areas@.len() as int) =~= areas@);
    res
}

/// Whether an average of `a` is placed strictly before one of `b`.
fn ranks_before(a: usize, b: usize, incrementing: bool) -> (before: bool)
    ensures
        before == if incrementing {
            a < b
        } else {
            a > b
        },
{
    if incrementing {
        a < b
    } else {
        a > b
    }
}

/// The areas sorted by average, smallest first when `incrementing`.
fn rank(areas: Vec<(usize, usize)>, incrementing: bool) -> (sorted: Vec<(usize, usize)>)
    ensures
        sorted@.to_multiset() == areas@.to_multiset(),
        ranked(sorted@, incrementing),
{
    broadcast use vstd::seq_lib::group_to_multiset_ensures;

    let ghost all = areas@;
    let mut rest = areas;
    let mut sorted: Vec<(usize, usize)> = Vec::new();
    assert(sorted@.to_multiset() =~= Multiset::empty());
    while rest.len() > 0
        invariant
            sorted@.to_multiset().add(rest@.to_multiset()) == all.to_multiset(),
            ranked(sorted@, incrementing),
        decreases rest@.len(),
    {
        let ghost rest_view = rest@;
        let e = rest.pop().unwrap();
        assert(rest_view =~= rest@.push(e));
        let ghost sv = sorted@;
        let mut p: usize = 0;
        while p < sorted.len() && !ranks_before(e.1, sorted[p].1, incrementing)
            invariant
                p <= sorted@.len(),
                sv == sorted@,
                forall|q: int| 0 <= q < p ==> if incrementing {
                    #[trigger] sv[q].1 <= e.1
                } else {
                    sv[q].1 >= e.1
                },
            decreases sorted@.len() - p,
        {
            p = p + 1;
        }
        sorted.insert(p, e);
        proof {
            broadcast use vstd::multiset::group_multiset_axioms;
            vstd::seq_lib::to_multiset_insert(sv, p as int, e);
            vstd::seq_lib::to_multiset_build(rest@, e);
            assert(sv.to_multiset().insert(e).add(rest@.to_multiset()) =~= sv.to_multiset().add(
                rest@.to_multiset().insert(e),
            ));
        }
        assert(ranked(sorted@, incrementing)) by {
            let nv = sorted@;
            assert forall|i: int, j: int| 0 <= i < j < nv.len() implies (if incrementing {
                #[trigger] nv[i].1 <= #[trigger] nv[j].1
            } else {
                nv[i].1 >= nv[j].1
            }) by {
                if j < p {
                    assert(nv[i] == sv[i] && nv[j] == sv[j]);
                } else if j == p {
                    assert(nv[i] == sv[i]);
                } else if i == p {
                    assert(nv[j] == sv[j - 1]);
                    if j - 1 > p {
                        assert(nv[j] == sv[j - 1] && sv[p as int] == sv[p as int]);
                    }
                } else if i < p {
                    assert(nv[i] == sv[i] && nv[j] == sv[j - 1]);
                } else {
                    assert(nv[i] == sv[i - 1] && nv[j] == sv[j - 1]);
                }
            }
        }
    }
    assert(rest@ =~= Seq::empty());
    assert(sorted@.to_multiset().add(Multiset::empty()) =~= sorted@.to_multiset());
    sorted
}

/// `res` holds the first `top_nth` entries (all of them when there are
/// fewer) of some ordering of `areas` ranked by average.
pub open spec fn top_ranked(res: Seq<(usize, usize)>, areas: Seq<(usize, usize)>, top_nth: usize, incrementing: bool) -> bool {
    exists|order: Seq<(usize, usize)>|
        #![trigger order.to_multiset()]
        order.to_multiset() == areas.to_multiset() && ranked(order, incrementing)
            && res == order.take(if top_nth < order.len() {
            top_nth as int
        } else {
            order.len() as int
        })
}

/// The `top_nth` first areas ranked by average response time: each sampled
/// area with the average of its samples, ordered smallest first when
/// `incrementing` and largest first otherwise.
pub fn rank_areas(samples: &Vec<(usize, usize)>, top_nth: usize, incrementing: bool) -> (res: Vec<(usize, usize)>)
    requires
        forall|id: usize| area_sum(samples@, id) <= usize::MAX,
    ensures
        top_ranked(res@, area_averages(samples@), top_nth, incrementing),
{
    let averages = average_per_area(samples);
    let sorted = rank(averages, incrementing);
    let mut res: Vec<(usize, usize)> = Vec::new();
    let mut i: usize = 0;
    while i < sorted.len() && i < top_nth
        invariant
            i <= sorted@.len(),
            i <= top_nth,
            res@ == sorted@.take(i as int),
        decreases sorted@.len() - i,
    {
        res.push(sorted[i]);
        assert(sorted@.take(i + 1) =~= sorted@.take(i as int).push(sorted@[i as int]));
        i = i + 1;
    }
    let ghost order = sorted@;
    assert(order.to_multiset() == area_averages(samples@).to_multiset() && ranked(order, incrementing)
        && res@ == order.take(if top_nth < order.len() {
        top_nth as int
    } else {
        order.len() as int
    }));
    res
}

/// Whether a person's response time has to be asked of the referral manager
/// for the leaderboard: the person has a teaching area and no response time is
/// stored for them.
pub fn needs_contact_time(person: &Person, stored: Option<usize>) -> (b: bool)
    ensures
        b == (person.area_id is Some && stored is None),
{
    person.area_id.is_some() && stored.is_none()
}

/// The leaderboard's samples: for each person with a teaching area, in
/// order, the area and the person's response time, the stored one first and
/// the fetched one otherwise; people with neither are passed over.
pub open spec fn leaderboard_samples_of(
    people: Seq<Person>,
    stored: Seq<Option<usize>>,
    fetched: Seq<Option<usize>>,
) -> Seq<(usize, usize)>
    decreases people.len(),
{
    if people.len() == 0 {
        Seq::empty()
    } else {
        let n = people.len() - 1;
        let earlier = leaderboard_samples_of(people.drop_last(), stored.take(n), fetched.take(n));
        match people.last().area_id {
            Some(area) => match stored[n] {
                Some(t) => earlier.push((area, t)),
                None => match fetched[n] {
                    Some(t) => earlier.push((area, t)),
                    None => earlier,
                },
            },
            None => earlier,
        }
    }
}

/// The response times to store: for each person without a stored time whose
/// time was fetched, the person's identifier and that time, in order.
pub open spec fn contacts_to_store_of(
    people: Seq<Person>,
    stored: Seq<Option<usize>>,
    fetched: Seq<Option<usize>>,
) -> Seq<(Seq<char>, usize)>
    decreases people.len(),
{
    if people.len() == 0 {
        Seq::empty()
    } else {
        let n = people.len() - 1;
        let earlier = contacts_to_store_of(people.drop_last(), stored.take(n), fetched.take(n));
        if people.last().area_id is Some && stored[n] is None && fetched[n] is Some {
            earlier.push((people.last().guid@, fetched[n]->0))
        } else {
            earlier
        }
    }
}

/// Merges the response times for the leaderboard: `stored[i]` is the time
/// already stored for person `i`, `fetched[i]` the one asked of the referral
/// manager. Gives the samples (area, time) and the newly fetched times to
/// store.
pub fn leaderboard_samples(
    people: &Vec<Person>,
    stored: &Vec<Option<usize>>,
    fetched: &Vec<Option<usize>>,
) -> (res: (Vec<(usize, usize)>, Vec<(String, usize)>))
    requires
        stored@.len() == people@.len(),
        fetched@.len() == people@.len(),
    ensures
        res.0@ == leaderboard_samples_of(people@, stored@, fetched@),
        res.1.deep_view() == contacts_to_store_of(people@, stored@, fetched@),
{
    let mut samples: Vec<(usize, usize)> = Vec::new();
    let mut to_store: Vec<(String, usize)> = Vec::new();
    let mut i: usize = 0;
    while i < people.len()
        invariant
            i <= people@.len(),
            stored@.len() == people@.len(),
            fetched@.len() == people@.len(),
            samples@ == leaderboard_samples_of(people@.take(i as int), stored@.take(i as int), fetched@.take(i as int)),
            to_store.deep_view() == contacts_to_store_of(people@.take(i as int), stored@.take(i as int), fetched@.take(i as int)),
        decreases people@.len() - i,
    {
        assert(people@.take(i + 1).drop_last() =~= people@.take(i as int));
        assert(stored@.take(i + 1).take(i as int) =~= stored@.take(i as int));
        assert(fetched@.take(i + 1).take(i as int) =~= fetched@.take(i as int));
        assert(people@.take(i + 1).last() == people@[i as int]);
        let person = &people[i];
        let ghost before = to_store.deep_view();
        if let Some(area) = person.area_id {
            match stored[i] {
                Some(t) => {
                    samples.push((area, t));
                },
                None => {
                    if let Some(t) = fetched[i] {
                        samples.push((area, t));
                        to_store.push((person.guid.clone(), t));
                        assert(to_store.deep_view() =~= before.push((person.guid@, t)));
                    }
                },
            }
        }
        i = i + 1;
    }
    assert(people@.take(people@.len() as int) =~= people@);
    assert(stored@.take(people@.len() as int) =~= stored@);
    assert(fetched@.take(people@.len() as int) =~= fetched@);
    (samples, to_store)
}

/// The missionaries of an area as addressed.
pub open spec fn missionary_names(missionaries: Seq<Missionary>) -> Seq<Seq<char>> {
    missionaries.map_values(|m: Missionary| m.spec_pretty_print())
}

/// One line of the printed leaderboard: place, area, missionaries and the
/// average response time.
pub open spec fn leaderboard_line(place: nat, line: (Seq<char>, Seq<Seq<char>>, usize)) -> Seq<char> {
    decimal(place) + ": "@ + line.0 + " ("@ + join(line.1, " & "@) + "): "@ + decimal(line.2 as nat)
        + " sec\n"@
}

/// The printed leaderboard: its lines in order, numbered from 1.
pub open spec fn leaderboard_text(lines: Seq<(Seq<char>, Seq<Seq<char>>, usize)>) -> Seq<char>
    decreases lines.len(),
{
    if lines.len() == 0 {
        Seq::empty()
    } else {
        leaderboard_text(lines.drop_last()) + leaderboard_line(lines.len(), lines.last())
    }
}

impl LeaderBoard {
    /// Each area on the board: its name, its missionaries as addressed, and
    /// its average response time.
    pub closed spec fn lines(self) -> Seq<(Seq<char>, Seq<Seq<char>>, usize)> {
        self.items@.map_values(
            |item: LeaderBoardItem| (item.area_name@, missionary_names(item.missionaries@), item.response_time),
        )
    }

    /// An empty leaderboard with room for `capacity` areas.
    pub fn new(capacity: usize) -> (board: LeaderBoard)
        ensures
            board.lines() == Seq::<(Seq<char>, Seq<Seq<char>>, usize)>::empty(),
    {
        let board = LeaderBoard { items: Vec::with_capacity(capacity) };
        assert(board.lines() =~= Seq::<(Seq<char>, Seq<Seq<char>>, usize)>::empty());
        board
    }

    /// Adds a teaching area with its average response time at the bottom.
    pub fn add_area(&mut self, pros_area: ProsArea, response_time: usize)
        ensures
            final(self).lines() == old(self).lines().push(
                (pros_area.area_name@, missionary_names(pros_area.missionaries@), response_time),
            ),
    {
        let item = LeaderBoardItem::new(pros_area.missionaries, pros_area.area_name, response_time);
        self.items.push(item);
        assert(self.lines() =~= old(self).lines().push(
            (pros_area.area_name@, missionary_names(pros_area.missionaries@), response_time),
        ));
    }

    /// The leaderboard as text, one numbered line per area.
    pub fn pretty_print(&self) -> (output: String)
        ensures
            output@ == leaderboard_text(self.lines()),
    {
        let ghost lines = self.lines();
        let mut output = String::new();
        let mut place: usize = 0;
        while place < self.items.len()
            invariant
                place <= self.items@.len(),
                lines == self.lines(),
                output@ == leaderboard_text(lines.take(place as int)),
            decreases self.items@.len() - place,
        {
            let item = &self.items[place];
            let mut names: Vec<String> = Vec::new();
            let mut m: usize = 0;
            while m < item.missionaries.len()
                invariant
                    m <= item.missionaries@.len(),
                    names.deep_view() == missionary_names(item.missionaries@).take(m as int),
                decreases item.missionaries@.len() - m,
            {
                let ghost before = names.deep_view();
                names.push(item.missionaries[m].pretty_print());
                assert(names.deep_view() =~= before.push(item.missionaries@[m as int].spec_pretty_print()));
                assert(missionary_names(item.missionaries@).take(m + 1) =~= missionary_names(item.missionaries@).take(m as int).push(item.missionaries@[m as int].spec_pretty_print()));
                m = m + 1;
            }
            assert(missionary_names(item.missionaries@).take(item.missionaries@.len() as int) =~= missionary_names(item.missionaries@));
            let missionaries = join_strings(&names, " & ");
            output.append(decimal_string((place + 1) as u64).as_str());
            output.append(": ");
            output.append(item.area_name.as_str());
            output.append(" (");
            output.append(missionaries.as_str());
            output.append("): ");
            output.append(decimal_string(item.response_time as u64).as_str());
            output.append(" sec\n");
            assert(lines.take(place + 1).drop_last() =~= lines.take(place as int));
            assert(lines.take(place + 1).last() == lines[place as int]);
            place = place + 1;
        }
        assert(lines.take(self.items@.len() as int) =~= lines);
        output
    }
}

/// When every sample of area `id` is `t`, the area's samples sum to `t` times
/// their count.
proof fn lemma_equal_samples_sum(samples: Seq<(usize, usize)>, id: usize, t: usize)
    requires
        forall|k: int| 0 <= k < samples.len() && #[trigger] samples[k].0 == id ==> samples[k].1 == t,
    ensures
        area_sum(samples, id) == t * area_count(samples, id),
    decreases samples.len(),
{
    if samples.len() > 0 {
        let prefix = samples.drop_last();
        assert forall|k: int| 0 <= k < prefix.len() && #[trigger] prefix[k].0 == id implies prefix[k].1 == t by {
            assert(prefix[k] == samples[k]);
        }
        lemma_equal_samples_sum(prefix, id, t);
        let c = area_count(prefix, id);
        assert(t * (c + 1) == t * c + t) by (nonlinear_arith);
        assert(samples.last() == samples[samples.len() - 1]);
    }
}

/// An entry of the averages per area: an area that was sampled, with the sum
/// of its samples divided by their number.
proof fn lemma_area_average_entry(samples: Seq<(usize, usize)>, j: int)
    requires
        0 <= j < area_averages(samples).len(),
    ensures
        ({
            let (id, avg) = area_averages(samples)[j];
            &&& area_count(samples, id) > 0
            &&& 0 <= area_sum(samples, id)
            &&& area_sum(samples, id) / area_count(samples, id) <= usize::MAX ==> avg == area_sum(samples, id)
                / area_count(samples, id)
        }),
{
    let ids = dedup_ids(samples.map_values(|s: (usize, usize)| s.0));
    let id = ids[j];
    assert(ids.contains(id));
    lemma_dedup_sampled(samples, id);
    lemma_area_nonnegative(samples, id);
    let sum = area_sum(samples, id);
    let count = area_count(samples, id);
    assert(0 <= sum / count) by (nonlinear_arith)
        requires 0 <= sum, count > 0;
}

/// An entry of the ranking is a sampled area with the average of its
/// samples: the average times the number of the area's samples is at most
/// their sum, and the next average up times that number exceeds it.
pub proof fn law_ranked_average_brackets_the_sum(
    samples: Seq<(usize, usize)>,
    res: Seq<(usize, usize)>,
    top_nth: usize,
    incrementing: bool,
    i: int,
)
    requires
        forall|id: usize| area_sum(samples, id) <= usize::MAX,
        top_ranked(res, area_averages(samples), top_nth, incrementing),
        0 <= i < res.len(),
    ensures
        area_count(samples, res[i].0) > 0,
        res[i].1 * area_count(samples, res[i].0) <= area_sum(samples, res[i].0),
        area_sum(samples, res[i].0) < (res[i].1 + 1) * area_count(samples, res[i].0),
{
    let j = lemma_ranked_entry_is_an_average(samples, res, top_nth, incrementing, i);
    lemma_area_average_entry(samples, j);
    let sum = area_sum(samples, res[i].0);
    let count = area_count(samples, res[i].0);
    assert(sum / count <= sum) by (nonlinear_arith)
        requires 0 <= sum, count > 0;
    assert((sum / count) * count <= sum < (sum / count + 1) * count) by (nonlinear_arith)
        requires 0 <= sum, count > 0;
}

/// An area whose samples are all `t` is ranked with the average `t`.
pub proof fn law_equal_samples_rank_with_their_value(
    samples: Seq<(usize, usize)>,
    res: Seq<(usize, usize)>,
    top_nth: usize,
    incrementing: bool,
    i: int,
    t: usize,
)
    requires
        top_ranked(res, area_averages(samples), top_nth, incrementing),
        0 <= i < res.len(),
        forall|k: int| 0 <= k < samples.len() && #[trigger] samples[k].0 == res[i].0 ==> samples[k].1 == t,
    ensures
        res[i].1 == t,
{
    let j = lemma_ranked_entry_is_an_average(samples, res, top_nth, incrementing, i);
    lemma_area_average_entry(samples, j);
    lemma_equal_samples_sum(samples, res[i].0, t);
    let count = area_count(samples, res[i].0);
    assert((t * count) / count == t) by (nonlinear_arith)
        requires count > 0;
}

/// Each entry of a ranking is one of the averages per area.
proof fn lemma_ranked_entry_is_an_average(
    samples: Seq<(usize, usize)>,
    res: Seq<(usize, usize)>,
    top_nth: usize,
    incrementing: bool,
    i: int,
) -> (j: int)
    requires
        top_ranked(res, area_averages(samples), top_nth, incrementing),
        0 <= i < res.len(),
    ensures
        0 <= j < area_averages(samples).len(),
        area_averages(samples)[j] == res[i],
{
    broadcast use vstd::seq_lib::to_multiset_contains;
    let averages = area_averages(samples);
    let order = choose|order: Seq<(usize, usize)>|
        #![trigger order.to_multiset()]
        order.to_multiset() == averages.to_multiset() && ranked(order, incrementing)
            && res == order.take(if top_nth < order.len() {
            top_nth as int
        } else {
            order.len() as int
        });
    assert(res[i] == order[i]);
    assert(order.contains(order[i]));
    assert(order.to_multiset().contains(res[i]));
    assert(averages.contains(res[i]));
    choose|j: int| 0 <= j < averages.len() && averages[j] == res[i]
}

} // verus!
