//! Bulk per-element text transformation engine: work partitioning, per-worker
//! arenas, fixed-width <-> UTF-8 transcoding and index-addressed write-back.

pub mod arena;
pub mod engine;
pub mod from_utf8;
pub mod laws;
pub mod matching;
pub mod partition;
pub mod text;
pub mod to_utf8;
pub mod transforms;
pub mod unicode;

pub use arena::{ucs1_to_utf8_bump, ucs2_to_utf8_bump, ucs4_to_utf8_bump, BumpAllocatorManager};
pub use engine::{map_texts, ConversionStrategy, WorkerResult};
pub use from_utf8::{analyze_utf8_simd, utf8_to_ucs1_simd, utf8_to_ucs2_simd, utf8_to_ucs4_simd};
pub use matching::{
    capture_regex_in_string, find_in_string, is_match_in_string, replace_regexp_in_string,
    split_by_regexp_string,
};
pub use partition::make_range;
pub use to_utf8::{ucs1_to_utf8, ucs2_to_utf8, ucs4_to_utf8};
