//! Word ranking by term frequency and inverse document frequency: what is
//! counted for it.

pub mod document_processor;
pub mod tf_idf_logic;
pub mod tf_idf_params;

pub use tf_idf_logic::{TfIdfCounts, TfIdfLogic};
pub use tf_idf_params::{TextSplit, TfIdfParams};
