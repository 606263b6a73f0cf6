//! A path router: maps request paths to registered handler chains through a
//! prefix tree keyed by path segments, with single-segment wildcard parameters
//! and static mounts.
//!
//! - `text`: path text (trimming, segment splitting, substring replacement).
//! - `keyed`: entry lists read as maps.
//! - `trie`: the route map, its registration and lookup.
//! - `laws`: properties of registration and lookup.

pub mod text;
pub mod keyed;
pub mod trie;
pub mod laws;
