//! A word-puzzle search engine: a corpus preprocessor that reduces n-gram
//! counts to a frequency dictionary, and a query engine that compiles a
//! puzzle pattern into an anchored template and ranks the matching words.

pub mod artifacts;
pub mod corpus;
pub mod discovery;
pub mod error;
pub mod laws;
pub mod matcher;
pub mod order;
pub mod pattern;
pub mod query;
pub mod text;

pub use artifacts::{build_fst, dictionary_entries, render_text_list, text_list, BuildError};
pub use corpus::{is_allowed_char, parse_line, trim_part_of_speech, LineError, WordFrequency, FREQUENCY_CUTOFF};
pub use discovery::{candidate, find_processed_file, SEARCH_DEPTH};
pub use error::SearchError;
pub use order::rank_results;
pub use pattern::{validate_absent_letters, validate_pattern, PatternMode, Slot, MAX_PATTERN_LEN};
pub use query::{
    compile_pairs, compile_query, is_valid_string, rank_matches, search_combinations, search_fst_plan,
    search_text_plan, CompiledQuery, FST_WILDCARD_THRESHOLD,
};
