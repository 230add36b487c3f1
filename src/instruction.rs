use vstd::prelude::*;
use crate::failure::Failure;
use crate::participant::Participant;

verus! {

/// What a ward is told to do under their escort.
#[derive(Debug, Clone, Copy, PartialEq, Eq, Structural)]
pub enum Instruction {
    Unsupervised,
    FullDepthRoundTrip,
    SingleDepthDescent,
    DepthAndReturn,
    ThreePracticeDivesAndReturn,
    TwoPracticeDivesAndReturn,
}

/// The instruction for a skill grade and dive time; `None` for a grade outside 5..=9.
pub open spec fn instruction_spec(skill: u32, duration: u32) -> Option<Instruction> {
    if skill == 8 || skill == 9 {
        Some(if duration < 60 { Instruction::Unsupervised } else { Instruction::FullDepthRoundTrip })
    } else if skill == 7 {
        Some(if duration < 55 { Instruction::SingleDepthDescent } else { Instruction::FullDepthRoundTrip })
    } else if skill == 6 {
        Some(if duration < 55 { Instruction::DepthAndReturn } else { Instruction::ThreePracticeDivesAndReturn })
    } else if skill == 5 {
        Some(if duration < 55 { Instruction::ThreePracticeDivesAndReturn } else { Instruction::TwoPracticeDivesAndReturn })
    } else {
        None
    }
}

pub open spec fn text_spec(i: Instruction) -> Seq<char> {
    match i {
        Instruction::Unsupervised => "unsupervised pass"@,
        Instruction::FullDepthRoundTrip => "full-depth round trip"@,
        Instruction::SingleDepthDescent => "single-depth descent"@,
        Instruction::DepthAndReturn => "depth-and-return"@,
        Instruction::ThreePracticeDivesAndReturn => "3 practice dives + depth-and-return"@,
        Instruction::TwoPracticeDivesAndReturn => "2 practice dives + depth-and-return"@,
    }
}

impl Instruction {
    pub fn text(&self) -> (r: &'static str)
        ensures
            r@ == text_spec(*self),
    {
        match self {
            Instruction::Unsupervised => "unsupervised pass",
            Instruction::FullDepthRoundTrip => "full-depth round trip",
            Instruction::SingleDepthDescent => "single-depth descent",
            Instruction::DepthAndReturn => "depth-and-return",
            Instruction::ThreePracticeDivesAndReturn => "3 practice dives + depth-and-return",
            Instruction::TwoPracticeDivesAndReturn => "2 practice dives + depth-and-return",
        }
    }
}

} // verus!

verus! {

/// The instruction for a ward, from their skill grade and dive time.
pub fn get_instruction(swimmer: &Participant) -> (r: Result<Instruction, Failure>)
    ensures
        match instruction_spec(swimmer.skill, swimmer.duration) {
            Some(i) => r == Ok::<Instruction, Failure>(i),
            None => r == Err::<Instruction, Failure>(Failure::InvalidSkillLevel(swimmer.skill)),
        },
{
    let skill = swimmer.skill;
    let duration = swimmer.duration;
    if skill == 8 || skill == 9 {
        if duration < 60 {
            Ok(Instruction::Unsupervised)
        } else {
            Ok(Instruction::FullDepthRoundTrip)
        }
    } else if skill == 7 {
        if duration < 55 {
            Ok(Instruction::SingleDepthDescent)
        } else {
            Ok(Instruction::FullDepthRoundTrip)
        }
    } else if skill == 6 {
        if duration < 55 {
            Ok(Instruction::DepthAndReturn)
        } else {
            Ok(Instruction::ThreePracticeDivesAndReturn)
        }
    } else if skill == 5 {
        if duration < 55 {
            Ok(Instruction::ThreePracticeDivesAndReturn)
        } else {
            Ok(Instruction::TwoPracticeDivesAndReturn)
        }
    } else {
        Err(Failure::InvalidSkillLevel(skill))
    }
}

} // verus!
