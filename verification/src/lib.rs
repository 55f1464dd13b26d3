//! Verified core of a hosts-file profile manager.
//!
//! Profiles are named collections of host-to-address mappings; one profile is
//! "active" at a time. The library owns the store semantics (uniqueness of
//! profile names and of (profile, host) pairs, cascade deletion, lexicographic
//! listing), the deterministic rendering of a profile into hosts-file text,
//! and the decision logic of each command. Persistence and all file, terminal
//! and privilege handling live outside the library and call into it with
//! plain values.

pub mod command;
pub mod lex;
pub mod render;
pub mod store;
