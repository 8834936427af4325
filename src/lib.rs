//! Repairs loosely written JSON-like text into strictly formed JSON: bare keys
//! and values get quoted, semicolons and stray commas are tolerated, and
//! separators are made canonical.
//!
//! `text` holds character sets and trimming, `context` the classification of
//! a span by its delimiters, `split` the depth-aware splitter, `coerce` the
//! rendering of scalar tokens, `normalize` the recursive normalizer and
//! `prepare` the entry points. `tree` models JSON documents and `laws`
//! states what holds of the engine as a whole.
pub mod coerce;
pub mod context;
pub mod laws;
pub mod normalize;
pub mod prepare;
pub mod split;
pub mod text;
pub mod tree;

pub use coerce::Mode;
pub use context::JsonContext;
pub use normalize::{parse_json_string, parse_stringified_json_string};
pub use prepare::{
    prepare_json_array, prepare_json_string, prepare_stringified_json_array,
    prepare_stringified_json_string, prepare_with_depth_limit, PrepareError,
};
