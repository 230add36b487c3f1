use vstd::prelude::*;

verus! {

/// One swimmer of a class: age in lunar months, skill grade, and the time in
/// seconds of their timed dive.
#[derive(Debug)]
pub struct Participant {
    pub name: String,
    pub age: u32,
    pub skill: u32,
    pub duration: u32,
}

/// A participant able to lead others: skilled above grade seven and quick.
pub open spec fn is_escort_spec(p: Participant) -> bool {
    p.skill > 7 && p.duration < 60
}

/// `a` comes strictly before `b` in the descending order on (age, skill, duration).
pub open spec fn outranks_spec(a: Participant, b: Participant) -> bool {
    a.age > b.age || (a.age == b.age && (a.skill > b.skill || (a.skill == b.skill
        && a.duration > b.duration)))
}

impl Participant {
    pub fn new(name: String, age: u32, skill: u32, duration: u32) -> (r: Participant)
        ensures
            r == (Participant { name, age, skill, duration }),
    {
        Participant { name, age, skill, duration }
    }

    /// A field-by-field copy.
    pub fn duplicate(&self) -> (r: Participant)
        ensures
            r == *self,
    {
        Participant { name: self.name.clone(), age: self.age, skill: self.skill, duration: self.duration }
    }

    pub fn is_escort(&self) -> (r: bool)
        ensures
            r == is_escort_spec(*self),
    {
        self.skill > 7 && self.duration < 60
    }

    /// Whether `self` precedes `other` in the descending order on (age, skill, duration).
    pub fn outranks(&self, other: &Participant) -> (r: bool)
        ensures
            r == outranks_spec(*self, *other),
    {
        self.age > other.age || (self.age == other.age && (self.skill > other.skill || (
        self.skill == other.skill && self.duration > other.duration)))
    }
}

} // verus!
