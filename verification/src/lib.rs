//! IP-range country lookup.
//!
//! The crate turns an IP address into a numeric ordinal, resolves that
//! ordinal against an ordered table of disjoint address ranges tagged with
//! country codes, and derives European-Union membership from the resolved
//! code. A loader parses delimited-text range datasets into tables,
//! validating numeric width, ordering and non-overlap.

pub mod codec;
pub mod eu;
pub mod loader;
pub mod service;
pub mod table;
