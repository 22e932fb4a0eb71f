//! People on the referral list and the events of their timelines.

use vstd::prelude::*;
use crate::time::DateTime;

verus! {

/// Whether the missionaries have tried to contact a referral, and how it went.
#[derive(Clone, Copy, Debug, PartialEq, Eq, Structural)]
pub enum ReferralStatus {
    NotAttempted,
    NotSuccessful,
    Successful,
}

/// The progress of a person, ordered by the numeric code that the referral
/// manager gives it.
#[derive(Clone, Copy, Debug, PartialEq, Eq, Structural)]
pub enum PersonStatus {
    Yellow,
    Green,
    BetterGreen,
    ProgressingGreen,
    NewMember,
    NotInterested,
    NotInterestedDeclared,
    NotProgressing,
    UnableToContact,
    Prank,
    NotRecentlyContacted,
    TooBusy,
    OutsideAreaStrength,
    Member,
    Moved,
}

/// How a contact on the timeline was made.
#[derive(Clone, Copy, Debug, PartialEq, Eq, Structural)]
pub enum TimelineContactType {
    InPerson,
    Phone,
    Text,
    WhatsApp,
    Email,
    VideoCall,
}

/// The kind of an event on a person's timeline.
#[derive(Clone, Copy, Debug, PartialEq, Eq, Structural)]
pub enum TimelineItemType {
    StoppedTeaching,
    Contact,
    Teaching,
    NewReferral,
    PersonCreate,
    PersonOfferItem,
    Sacrament,
    TeachingReset,
    Note,
    Task,
    EmailSubscription,
}

impl PersonStatus {
    /// The numeric code of the status; statuses are ordered by it.
    pub open spec fn spec_code(self) -> u8 {
        match self {
            PersonStatus::Yellow => 1,
            PersonStatus::Green => 2,
            PersonStatus::BetterGreen => 3,
            PersonStatus::ProgressingGreen => 4,
            PersonStatus::NewMember => 6,
            PersonStatus::NotInterested => 20,
            PersonStatus::NotInterestedDeclared => 21,
            PersonStatus::NotProgressing => 22,
            PersonStatus::UnableToContact => 23,
            PersonStatus::Prank => 25,
            PersonStatus::NotRecentlyContacted => 26,
            PersonStatus::TooBusy => 27,
            PersonStatus::OutsideAreaStrength => 28,
            PersonStatus::Member => 40,
            PersonStatus::Moved => 201,
        }
    }

    /// The numeric code of the status; statuses are ordered by it.
    pub fn code(&self) -> (c: u8)
        ensures
            c == self.spec_code(),
    {
        match self {
            PersonStatus::Yellow => 1,
            PersonStatus::Green => 2,
            PersonStatus::BetterGreen => 3,
            PersonStatus::ProgressingGreen => 4,
            PersonStatus::NewMember => 6,
            PersonStatus::NotInterested => 20,
            PersonStatus::NotInterestedDeclared => 21,
            PersonStatus::NotProgressing => 22,
            PersonStatus::UnableToContact => 23,
            PersonStatus::Prank => 25,
            PersonStatus::NotRecentlyContacted => 26,
            PersonStatus::TooBusy => 27,
            PersonStatus::OutsideAreaStrength => 28,
            PersonStatus::Member => 40,
            PersonStatus::Moved => 201,
        }
    }

    /// Whether `self` orders strictly before `other`.
    pub fn precedes(&self, other: &PersonStatus) -> (b: bool)
        ensures
            b == (self.spec_code() < other.spec_code()),
    {
        self.code() < other.code()
    }
}

/// A person on the referral list, with the statistics that the timeline cache
/// adds to it.
#[derive(Clone, Debug)]
pub struct Person {
    pub guid: String,
    pub first_name: String,
    pub referral_status: ReferralStatus,
    pub person_status: PersonStatus,
    pub mission_id: usize,
    pub zone_id: Option<usize>,
    pub zone_name: Option<String>,
    pub district_id: Option<usize>,
    pub area_name: Option<String>,
    pub area_id: Option<usize>,
    pub assigned_date: DateTime,
    pub baptism_goal_date: Option<DateTime>,
    pub baptism_date: Option<DateTime>,
    pub last_sacrament_attendance: Option<DateTime>,
    pub response_time: Option<usize>,
    pub has_attended_sacrament: Option<bool>,
    pub has_attended_since_last_referral: Option<bool>,
    pub sacrament_attendence_count: Option<usize>,
    pub has_been_taught: Option<bool>,
    pub has_been_taught_in_person: Option<bool>,
    pub has_been_taught_since_last_referral: Option<bool>,
    pub referral_count: Option<usize>,
    pub last_timeline_assessment: Option<DateTime>,
}

/// The list of people that the referral manager sends.
#[derive(Clone, Debug)]
pub struct Persons {
    pub persons: Vec<Person>,
}

/// One event on a person's timeline.
#[derive(Clone, Copy, Debug, PartialEq, Eq, Structural)]
pub struct TimelineEvent {
    pub item_type: TimelineItemType,
    pub item_date: DateTime,
    pub contact_type: Option<TimelineContactType>,
    pub status: Option<bool>,
}

/// The people whose flag is set, in order.
pub open spec fn select_people(people: Seq<Person>, kept: Seq<bool>) -> Seq<Person>
    decreases people.len(),
{
    if people.len() == 0 {
        Seq::empty()
    } else {
        select_people(people.drop_last(), kept.take(people.len() - 1)) + if kept[people.len() - 1] {
            seq![people.last()]
        } else {
            Seq::empty()
        }
    }
}

/// `result` holds, in order, the people for whom `keep` answered `true`.
pub open spec fn filtered_by<F: Fn(&Person) -> bool>(result: Seq<Person>, people: Seq<Person>, keep: F) -> bool {
    exists|kept: Seq<bool>|
        #![trigger select_people(people, kept)]
        kept.len() == people.len() && (forall|i: int|
            0 <= i < people.len() ==> call_ensures(keep, (&people[i],), #[trigger] kept[i]))
            && result == select_people(people, kept)
}

/// The people for whom `keep` answers `true`, in order; `keep` is asked once
/// about each person, in order.
pub fn filter_people<F: Fn(&Person) -> bool>(people: Vec<Person>, keep: F) -> (result: Vec<Person>)
    requires
        forall|i: int| 0 <= i < people@.len() ==> call_requires(keep, (&people@[i],)),
    ensures
        filtered_by(result@, people@, keep),
{
    let ghost all = people@;
    assert(all.len() == people.len());
    let mut rest = people;
    let mut result: Vec<Person> = Vec::new();
    let ghost mut kept: Seq<bool> = Seq::empty();
    let mut k: usize = 0;
    while rest.len() > 0
        invariant
            k + rest@.len() == all.len(),
            all.len() <= usize::MAX,
            rest@ == all.skip(k as int),
            kept.len() == k,
            forall|i: int| 0 <= i < all.len() ==> call_requires(keep, (&all[i],)),
            forall|i: int| 0 <= i < k ==> call_ensures(keep, (&all[i],), #[trigger] kept[i]),
            result@ == select_people(all.take(k as int), kept),
        decreases rest@.len(),
    {
        let person = rest.remove(0);
        assert(person == all[k as int]);
        let answer = keep(&person);
        let ghost old_kept = kept;
        proof {
            kept = kept.push(answer);
        }
        assert(all.take(k + 1).drop_last() =~= all.take(k as int));
        assert(all.take(k + 1).last() == all[k as int]);
        assert(kept.take(k as int) =~= old_kept);
        assert(rest@ =~= all.skip(k + 1));
        if answer {
            result.push(person);
        }
        assert forall|i: int| 0 <= i < k + 1 implies call_ensures(keep, (&all[i],), #[trigger] kept[i]) by {
            if i < k {
                assert(kept[i] == old_kept[i]);
            }
        }
        k = k + 1;
    }
    assert(all.take(k as int) =~= all);
    result
}

} // verus!
