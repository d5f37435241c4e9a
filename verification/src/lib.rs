//! Classical cryptanalysis of a sequence of fixed-width unsigned symbols:
//! range, symbol frequencies and repeated words with their positions.

pub mod analytics;
pub mod arguments;
pub mod error;
pub mod input;
pub mod order;
pub mod text;
pub mod types;
