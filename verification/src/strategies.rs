//! Other ways to search than the bounded best-first search: scores that
//! look ahead, and searches that keep their states by other rules.

pub mod beam;
pub mod limited;
pub mod lookahead;
pub mod reservoir;
pub mod scoring;

use vstd::prelude::*;

verus! {

/// How one step of a search that expands one state at a time ended.
pub enum StepOutcome {
    /// A child of the expanded state is a goal: its generators.
    Found(Vec<u32>),
    /// The frontier held no state to expand.
    Idle,
    /// A state was expanded and none of its children is a goal.
    Expanded,
}

/// The goal that a step outcome names.
pub open spec fn outcome_goal(out: StepOutcome) -> Option<Seq<u32>> {
    match out {
        StepOutcome::Found(f) => Some(f@),
        _ => None,
    }
}

/// The goal that a search found, by its generators.
pub open spec fn found_goal(found: Option<Vec<u32>>) -> Option<Seq<u32>> {
    match found {
        Some(f) => Some(f@),
        None => None,
    }
}

} // verus!
