//! Technicians: an id, the intervals in which they are available, and their
//! skills.

use crate::calendar::DateTime;
use crate::schedule_graph::Skill;
use crate::schedule_graph::TechnicianId;
use vstd::prelude::*;

verus! {

/// The elements of `s` in order, each at its first occurrence only.
pub open spec fn first_occurrences<T>(s: Seq<T>) -> Seq<T>
    decreases s.len(),
{
    if s.len() == 0 {
        s
    } else {
        let f = first_occurrences(s.drop_last());
        if f.contains(s.last()) {
            f
        } else {
            f.push(s.last())
        }
    }
}

fn skill_listed(v: &Vec<Skill>, skill: Skill) -> (r: bool)
    ensures
        r == v@.contains(skill),
{
    let mut i: usize = 0;
    while i < v.len()
        invariant
            i <= v@.len(),
            forall|k: int| 0 <= k < i ==> v@[k] != skill,
        decreases v@.len() - i,
    {
        if v[i] == skill {
            return true;
        }
        i += 1;
    }
    false
}

fn interval_listed(v: &Vec<(DateTime, DateTime)>, interval: (DateTime, DateTime)) -> (r: bool)
    ensures
        r == v@.contains(interval),
{
    let mut i: usize = 0;
    while i < v.len()
        invariant
            i <= v@.len(),
            forall|k: int| 0 <= k < i ==> v@[k] != interval,
        decreases v@.len() - i,
    {
        if v[i].0 == interval.0 && v[i].1 == interval.1 {
            return true;
        }
        i += 1;
    }
    false
}

/// A technician. Availabilities and skills are sets: each is held once, in
/// the order first given. They are kept in vectors rather than `BTreeSet`s,
/// whose order would rest on derived `Ord` impls that cannot be reasoned
/// about.
pub struct Technician {
    technician_id: TechnicianId,
    availabilities: Vec<(DateTime, DateTime)>,
    skills: Vec<Skill>,
}

impl Technician {
    pub closed spec fn spec_id(self) -> TechnicianId {
        self.technician_id
    }

    pub closed spec fn spec_availabilities(self) -> Seq<(DateTime, DateTime)> {
        self.availabilities@
    }

    pub closed spec fn spec_skills(self) -> Seq<Skill> {
        self.skills@
    }

    /// A technician with the given availability intervals (start, finish) and
    /// skills, each kept at its first occurrence.
    pub fn new(technician_id: TechnicianId, availabilities: Vec<(DateTime, DateTime)>, skills: Vec<Skill>) -> (r:
        Technician)
        ensures
            r.spec_id() == technician_id,
            r.spec_availabilities() == first_occurrences(availabilities@),
            r.spec_skills() == first_occurrences(skills@),
    {
        let mut kept_skills: Vec<Skill> = Vec::new();
        let mut i: usize = 0;
        while i < skills.len()
            invariant
                i <= skills@.len(),
                kept_skills@ == first_occurrences(skills@.take(i as int)),
            decreases skills@.len() - i,
        {
            assert(skills@.take(i + 1).drop_last() =~= skills@.take(i as int));
            if !skill_listed(&kept_skills, skills[i]) {
                kept_skills.push(skills[i]);
            }
            i += 1;
        }
        assert(skills@.take(skills@.len() as int) =~= skills@);
        let mut kept_intervals: Vec<(DateTime, DateTime)> = Vec::new();
        let mut i: usize = 0;
        while i < availabilities.len()
            invariant
                i <= availabilities@.len(),
                kept_intervals@ == first_occurrences(availabilities@.take(i as int)),
            decreases availabilities@.len() - i,
        {
            assert(availabilities@.take(i + 1).drop_last() =~= availabilities@.take(i as int));
            if !interval_listed(&kept_intervals, availabilities[i]) {
                kept_intervals.push(availabilities[i]);
            }
            i += 1;
        }
        assert(availabilities@.take(availabilities@.len() as int) =~= availabilities@);
        Technician { technician_id, availabilities: kept_intervals, skills: kept_skills }
    }

    pub fn id(&self) -> (r: TechnicianId)
        ensures
            r == self.spec_id(),
    {
        self.technician_id
    }

    pub fn skills(&self) -> (r: &Vec<Skill>)
        ensures
            r@ == self.spec_skills(),
    {
        &self.skills
    }

    pub fn availabilities(&self) -> (r: &Vec<(DateTime, DateTime)>)
        ensures
            r@ == self.spec_availabilities(),
    {
        &self.availabilities
    }
}

} // verus!
