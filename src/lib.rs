pub mod chunk;
pub mod format;
pub mod generator;
pub mod parse;
pub mod partial;
pub mod pipeline;
pub mod stats;
pub mod table;
pub mod worker;

pub use chunk::{split_chunks, ChunkError, StrBuffer, BLOCK_SIZE};
pub use format::{format_result, rounded_mean};
pub use parse::parse_value;
pub use partial::{AggregateError, PartialResult};
pub use pipeline::{combine_results, summarize, Fault};
pub use stats::StatAccumulator;
pub use worker::parse_line;
