//! Fuzzy matching of a query against candidate strings.
use vstd::prelude::*;

pub mod binary64;
pub mod characters;
pub mod embedding;
pub mod laws;
pub mod lowering;
pub mod matcher;
pub mod meaning;
pub mod scoring;
pub mod search;
pub mod weights;

pub use binary64::Binary64;
pub use matcher::{MatchCandidate, Matcher, Overrun};

verus! {

/// How matches are ranked.
#[derive(Debug, PartialEq, Eq, Structural, Clone, Copy)]
pub enum MatchingMode {
    Default,
    /// Characters at the beginning of words weigh more.
    WordBoundaryBoosted,
}

impl Default for MatchingMode {
    fn default() -> (mode: Self)
        ensures
            mode == MatchingMode::Default,
    {
        MatchingMode::Default
    }
}

} // verus!
