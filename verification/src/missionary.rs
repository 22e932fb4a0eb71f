//! Missionaries and the teaching areas they serve in.

use vstd::prelude::*;
use vstd::string::*;

verus! {

broadcast use vstd::string::group_string_axioms;

/// Whether a missionary is an elder or a sister.
#[derive(Clone, Copy, Debug, PartialEq, Eq, Structural)]
pub enum MissionaryType {
    Elder,
    Sister,
}

/// A missionary serving in a teaching area.
#[derive(Clone, Debug)]
pub struct Missionary {
    pub first_name: String,
    pub last_name: String,
    missionary_type: MissionaryType,
    pros_area_id: usize,
}

/// A teaching area and its missionaries.
#[derive(Clone, Debug)]
pub struct ProsArea {
    pub id: usize,
    pub area_name: String,
    pub missionaries: Vec<Missionary>,
}

impl MissionaryType {
    /// The title of the missionary.
    pub open spec fn spec_title(self) -> Seq<char> {
        match self {
            MissionaryType::Elder => "Elder"@,
            MissionaryType::Sister => "Sister"@,
        }
    }

    /// The title of the missionary.
    pub fn title(&self) -> (t: &'static str)
        ensures
            t@ == self.spec_title(),
    {
        match self {
            MissionaryType::Elder => "Elder",
            MissionaryType::Sister => "Sister",
        }
    }
}

impl Missionary {
    /// A missionary with the given names, type and teaching area.
    pub fn new(first_name: String, last_name: String, missionary_type: MissionaryType, pros_area_id: usize) -> (m: Missionary)
        ensures
            m.spec_first_name() == first_name@,
            m.spec_last_name() == last_name@,
            m.spec_missionary_type() == missionary_type,
            m.spec_pros_area_id() == pros_area_id,
    {
        Missionary { first_name, last_name, missionary_type, pros_area_id }
    }

    /// The missionary's first name.
    pub closed spec fn spec_first_name(self) -> Seq<char> {
        self.first_name@
    }

    /// The missionary's last name.
    pub closed spec fn spec_last_name(self) -> Seq<char> {
        self.last_name@
    }

    /// Whether the missionary is an elder or a sister.
    pub closed spec fn spec_missionary_type(self) -> MissionaryType {
        self.missionary_type
    }

    /// The teaching area the missionary serves in.
    pub closed spec fn spec_pros_area_id(self) -> usize {
        self.pros_area_id
    }

    /// Whether the missionary is an elder or a sister.
    pub fn missionary_type(&self) -> (t: MissionaryType)
        ensures
            t == self.spec_missionary_type(),
    {
        self.missionary_type
    }

    /// The teaching area the missionary serves in.
    pub fn pros_area_id(&self) -> (id: usize)
        ensures
            id == self.spec_pros_area_id(),
    {
        self.pros_area_id
    }

    /// The missionary as addressed: title and last name.
    pub open spec fn spec_pretty_print(self) -> Seq<char> {
        self.spec_missionary_type().spec_title() + " "@ + self.spec_last_name()
    }

    /// The missionary as addressed: title and last name, such as "Elder Smith".
    pub fn pretty_print(&self) -> (s: String)
        ensures
            s@ == self.spec_pretty_print(),
    {
        let mut s = String::new();
        s.append(self.missionary_type.title());
        s.append(" ");
        s.append(self.last_name.as_str());
        s
    }
}

} // verus!
