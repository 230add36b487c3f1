use vstd::prelude::*;

verus! {

/// Why a class could not be divided into groups.
#[derive(Debug, PartialEq, Eq)]
pub enum Failure {
    /// More wards than twice the escorts.
    InsufficientEscorts,
    /// Fewer than three participants in all.
    GroupTooSmall,
    /// No escort older than this age (in lunar months) could take the ward.
    NoOlderEscortAvailable(u32),
    /// The one escort left without a ward, by name, could not be absorbed.
    NoSlotForLeftoverEscort(String),
    /// A skill grade outside the table of instructions.
    InvalidSkillLevel(u32),
}

} // verus!
