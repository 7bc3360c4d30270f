//! Phrase ranking by the degree and the frequency of the words: what is
//! counted for it.

pub mod rake_logic;
pub mod rake_params;

pub use rake_logic::{RakeCounts, RakeLogic};
pub use rake_params::RakeParams;
