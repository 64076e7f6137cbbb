//! An ordered index for sorted-set semantics: a skip list keyed by a score and
//! a member, with per-level spans for rank queries; beside it a growable byte
//! string and a thin dictionary.
pub mod hash;
pub mod level_generator;
pub mod score;
pub mod sds;
pub mod zskiplist;
pub mod zskipnode;
