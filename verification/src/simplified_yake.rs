//! A simpler selection of candidates.

pub mod candidate_selection;

pub use candidate_selection::CandidateSelection;
