//! Word ranking by a walk over the graph of neighbouring words: the graph.

pub mod text_rank_logic;

pub use text_rank_logic::{Graph, TextRankLogic};
