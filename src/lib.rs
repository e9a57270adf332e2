//! A geographic-location database: a compact binary/text file of cities and
//! hierarchical reference tables, with its codecs and an index-based query engine.
//!
//! - `text`: character-level helpers (whitespace, trimming, substrings, digits).
//! - `angle`: exact angles in degrees.
//! - `population`: the 12-bit population code and its text form.
//! - `position`: the coordinate parser.
//! - `record`: the packed city record.
//! - `store`: the in-memory store and its queries.
//! - `stream`: the whole-file framing.
pub mod text;
pub mod angle;
pub mod population;
pub mod position;
pub mod record;
pub mod store;
pub mod stream;
