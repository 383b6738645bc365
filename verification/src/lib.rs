//! An incrementally filtered command selector.
//!
//! A set of capability providers each advertises named commands. The library
//! builds a deduplicated candidate index over them, ranks the candidates
//! against a free-text query, tracks a selection cursor that is clamped to the
//! current match list, and, on confirmation, resolves the selected match back
//! to the owning provider to produce a dispatch request. All I/O — rendering,
//! scheduling of evaluations, and the actual remote command invocation — is
//! left to the caller.

pub mod index;
pub mod matcher;
pub mod selector;
pub mod text;
