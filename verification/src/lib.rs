//! Core of a markdown web server: maps client-supplied URL paths to
//! filesystem locations confined to a content root, parses front matter,
//! infers missing metadata, locates inherited assets, renders markdown to
//! HTML, and orders directory listings.
//!
//! Documents and paths are modelled as byte strings (`Vec<u8>` / `&[u8]`,
//! viewed as `Seq<u8>`); all delimiters this library cares about are ASCII,
//! and UTF-8 text passes through untouched. Filesystem and network access
//! stay with the caller: the functions here decide, the caller performs.

pub mod assets;
pub mod error;
pub mod front_matter;
pub mod listing;
pub mod nav;
pub mod render;
pub mod resolve;
pub mod routes;
pub mod rss;
pub mod session;
pub mod stats;
pub mod text;
pub mod tree;
