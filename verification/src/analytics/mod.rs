//! The analyses that can be run on a symbol sequence.

pub mod count_letters;
pub mod dedup_pair_iter;
pub mod fingerprint;
pub mod frequency_analysis;
pub mod kasiski_examination;
pub mod min_max;
pub mod repeats;
pub mod word_index;

pub use count_letters::count_letters;
pub use frequency_analysis::frequency_analysis;
pub use frequency_analysis::print_frequency_analysis_result;
pub use kasiski_examination::kasiski_examination;
pub use kasiski_examination::print_kasiski_examination_result;
pub use min_max::min_max;
pub use min_max::print_min_max_result;
