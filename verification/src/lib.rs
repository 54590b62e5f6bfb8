//! Approximate string similarity search over an in-memory inverted index of
//! n-gram features, in the style of the CPMerge overlap-join algorithm.

pub mod alpha;
pub mod character_ngrams;
pub mod cosine;
pub mod dice;
pub mod exact_match;
pub mod extract;
pub mod hashdb;
pub mod interner;
pub mod jaccard;
pub mod laws;
pub mod loaders;
pub mod measures;
pub mod overlap;
pub mod score;
pub mod search;
pub mod text;
pub mod word_ngrams;

pub use alpha::Alpha;
pub use character_ngrams::CharacterNgrams;
pub use cosine::Cosine;
pub use dice::Dice;
pub use exact_match::ExactMatch;
pub use extract::FeatureExtractor;
pub use hashdb::HashDb;
pub use interner::Interner;
pub use jaccard::Jaccard;
pub use loaders::FileLoadError;
pub use measures::Measure;
pub use overlap::Overlap;
pub use score::Score;
pub use search::SearchError;
pub use search::Searcher;
pub use word_ngrams::WordNgrams;
