//! A lookup engine over a fixed Chinese-vocabulary corpus: an in-memory
//! index keyed by (orthographic form, normalized romanized
//! pronunciation), a resolver with exact, pronunciation-omitted and
//! multi-candidate queries, and a compiler that derives character-level
//! aggregate frequency counts from the word-level index.
pub mod compile;
pub mod corpus;
pub mod dictionary;
pub mod normalize;
pub mod records;

pub use compile::compile_common_chars;
pub use corpus::get_comps;
pub use corpus::normalize;
pub use corpus::remove_digits;
pub use corpus::remove_non_digits;
pub use corpus::written_sums_by_level;
pub use dictionary::TOCFLDictionary;
pub use normalize::normalize_pinyin;
pub use normalize::remove_whitespace;
pub use records::Entry;
pub use records::build_dictionary;
