//! A local transcript search engine: an inverted index over time-aligned
//! transcripts, a proximity merge that clusters query-term positions into
//! segment ranges, and a ranked, paginated query planner on top of them.

pub mod app_config;
pub mod hsk;
pub mod ingest;
pub mod merge;
pub mod normalize;
pub mod searcher;
pub mod text;
pub mod word_id;

pub use normalize::normalize_word;
