pub mod failure;
pub mod participant;
pub mod instruction;
pub mod order;
pub mod assign;
pub mod distribution;
pub mod tally;
pub mod reorder;
pub mod laws;
