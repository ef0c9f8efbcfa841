//! Recent-files engine for a launcher front end.
//!
//! The crate turns a raw, unordered list of usage records -- each naming a
//! file, a last-access timestamp, a content type, and the applications that
//! opened the file -- into a compact per-program listing: entries are grouped
//! by the program that opened them, duplicates of the same path are merged,
//! each group is ordered by recency and capped, and entries whose display
//! names collide anywhere in the listing are marked so that a shortened
//! parent-directory fragment is folded into their renderable text.

pub mod arguments;
pub mod disambig;
pub mod file;
pub mod listing;
pub mod rank;
pub mod recently_used_xbel;
pub mod render;
pub mod store;
pub mod text;
