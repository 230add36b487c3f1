use vstd::prelude::*;
use crate::assign::{Group, indexed, plan_groups, plan_spec};
use crate::failure::Failure;
use crate::instruction::{Instruction, get_instruction, instruction_spec};
use crate::participant::Participant;

verus! {

/// A ward in a group, with what they are told to do.
#[derive(Debug)]
pub struct Placement {
    pub ward: Participant,
    pub instruction: Instruction,
}

/// An escort with the wards of their group.
#[derive(Debug)]
pub struct Slot {
    pub escort: Participant,
    pub first: Option<Placement>,
    pub second: Option<Placement>,
}

/// The placement of participant `x` as a ward, or the failure of its skill grade.
pub open spec fn placement_spec(ps: Seq<Participant>, x: Option<usize>) -> Result<Option<Placement>, Failure> {
    match x {
        None => Ok(None),
        Some(i) => match instruction_spec(ps[i as int].skill, ps[i as int].duration) {
            Some(ins) => Ok(Some(Placement { ward: ps[i as int], instruction: ins })),
            None => Err(Failure::InvalidSkillLevel(ps[i as int].skill)),
        },
    }
}

/// A group written out with its participants; the first ward's failure comes first.
pub open spec fn slot_spec(ps: Seq<Participant>, g: Group) -> Result<Slot, Failure> {
    match placement_spec(ps, g.first) {
        Err(f) => Err(f),
        Ok(a) => match placement_spec(ps, g.second) {
            Err(f) => Err(f),
            Ok(b) => Ok(Slot { escort: ps[g.escort as int], first: a, second: b }),
        },
    }
}

/// All groups written out in order; the earliest failing group decides the failure.
pub open spec fn slots_spec(ps: Seq<Participant>, g: Seq<Group>) -> Result<Seq<Slot>, Failure>
    decreases g.len(),
{
    if g.len() == 0 {
        Ok(Seq::empty())
    } else {
        match slots_spec(ps, g.drop_last()) {
            Err(f) => Err(f),
            Ok(s) => match slot_spec(ps, g.last()) {
                Err(f) => Err(f),
                Ok(x) => Ok(s.push(x)),
            },
        }
    }
}

/// The assignment of a class with each ward's instruction, or why there is none.
pub open spec fn distribution_spec(ps: Seq<Participant>) -> Result<Seq<Slot>, Failure> {
    match plan_spec(ps) {
        Err(f) => Err(f),
        Ok(g) => slots_spec(ps, g),
    }
}

proof fn lemma_failure_stays(ps: Seq<Participant>, g: Seq<Group>, i: int)
    requires
        0 <= i <= g.len(),
        slots_spec(ps, g.take(i)) is Err,
    ensures
        slots_spec(ps, g) == slots_spec(ps, g.take(i)),
    decreases g.len() - i,
{
    if i < g.len() {
        assert(g.take(i + 1).drop_last() =~= g.take(i));
        lemma_failure_stays(ps, g, i + 1);
    } else {
        assert(g.take(i) =~= g);
    }
}

fn make_placement(ps: &Vec<Participant>, x: Option<usize>) -> (r: Result<Option<Placement>, Failure>)
    requires
        x matches Some(i) ==> i < ps@.len(),
    ensures
        r == placement_spec(ps@, x),
{
    match x {
        None => Ok(None),
        Some(i) => {
            let instruction = get_instruction(&ps[i])?;
            Ok(Some(Placement { ward: ps[i].duplicate(), instruction }))
        },
    }
}

/// Writes out the groups with their participants and each ward's instruction.
pub fn make_distr(ps: &Vec<Participant>, groups: &Vec<Group>) -> (r: Result<Vec<Slot>, Failure>)
    requires
        indexed(ps@.len() as int, groups@),
    ensures
        match slots_spec(ps@, groups@) {
            Ok(s) => r is Ok && r->Ok_0@ == s,
            Err(f) => r == Err::<Vec<Slot>, Failure>(f),
        },
{
    let mut out: Vec<Slot> = Vec::new();
    let mut i: usize = 0;
    while i < groups.len()
        invariant
            i <= groups@.len(),
            indexed(ps@.len() as int, groups@),
            slots_spec(ps@, groups@.take(i as int)) == Ok::<Seq<Slot>, Failure>(out@),
        decreases groups@.len() - i,
    {
        let g = groups[i];
        proof {
            assert(groups@.take(i as int + 1).drop_last() =~= groups@.take(i as int));
            assert(groups@.take(i as int + 1).last() == g);
        }
        let first = match make_placement(ps, g.first) {
            Ok(a) => a,
            Err(f) => {
                proof {
                    lemma_failure_stays(ps@, groups@, i as int + 1);
                }
                return Err(f);
            },
        };
        let second = match make_placement(ps, g.second) {
            Ok(b) => b,
            Err(f) => {
                proof {
                    lemma_failure_stays(ps@, groups@, i as int + 1);
                }
                return Err(f);
            },
        };
        out.push(Slot { escort: ps[g.escort].duplicate(), first, second });
        i += 1;
    }
    assert(groups@.take(groups@.len() as int) =~= groups@);
    Ok(out)
}

/// Divides a class into groups of one escort and up to two wards and gives each
/// ward an instruction.
pub fn create_distribution(ps: &Vec<Participant>) -> (r: Result<Vec<Slot>, Failure>)
    ensures
        match distribution_spec(ps@) {
            Ok(s) => r is Ok && r->Ok_0@ == s,
            Err(f) => r == Err::<Vec<Slot>, Failure>(f),
        },
{
    let groups = plan_groups(ps)?;
    make_distr(ps, &groups)
}

} // verus!
