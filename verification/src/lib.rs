//! Per-column frequency ranking of a matrix of categorical symbols.
//!
//! Each cell of a matrix holds a symbol code, with 0 for a gap. Within a
//! column the symbol that occurs most often gets the highest rank, ties go to
//! the smaller symbol, and gaps keep rank 0.
pub mod matrix;
pub mod occurrences;
pub mod ranks;
pub mod transform;

pub use matrix::{Column, Matrix};
pub use occurrences::{_convert_to_ranks, _count_occurrences, _sort_occurrences};
pub use transform::{rank_sequences, try_rank_sequences};
