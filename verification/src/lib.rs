//! A local registry of version-controlled repository clones: raw
//! repository references (URLs, SCP shorthands, bare `owner/name` paths)
//! are resolved into canonical remote connection strings and local
//! destinations, and a deduplicated, persisted list of tracked clone
//! directories is maintained around them.

use vstd::prelude::*;

pub mod cache;
pub mod fspath;
pub mod ops;
pub mod order;
pub mod query;
pub mod registry;
pub mod remote;
pub mod text;
pub mod workspace;

pub use crate::query::Query;
pub use crate::remote::Remote;
pub use crate::workspace::Workspace;

verus! {

/// Errors the library reports: reference parsing, resolution, repository
/// registration, scanning and persistence each have their own variants.
/// A path that is already tracked is not an error: adding it again is a
/// successful no-op.
#[derive(Clone, Copy, Debug, PartialEq, Eq, Structural)]
pub enum RhqError {
    InvalidReference,
    UnsupportedScheme,
    NotARepository,
    VcsError,
    ScanError,
    PersistenceError,
}

} // verus!
