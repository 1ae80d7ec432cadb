//! Structural name matching between two versions of a schema: a reference
//! version whose identifiers are meaningful, and a target version whose
//! identifiers have been replaced by opaque tokens. The matcher recovers the
//! target's names from structural cues alone (field kinds, type shapes,
//! occurrence counts), committing a name only when the match is unambiguous,
//! and never overwriting a name once committed.

pub mod database;
pub mod grouping;
pub mod laws;
pub mod matcher;
pub mod prototype;
pub mod resolve;
