//! Memory watchpoint engine: registration of watched byte regions, page-level
//! protection bookkeeping, change detection with bounded value previews, and a
//! fixed-capacity event ring shared between the fault path and consumers.

pub mod decimal;
pub mod engine;
pub mod pagemap;
pub mod region;
pub mod ring;
pub mod sql;
pub mod tracker;
pub mod valuestore;

use vstd::prelude::*;

verus! {

/// Error taxonomy of the engine's public operations.
#[derive(Clone, Copy, Debug, PartialEq, Eq, Structural)]
pub enum ErrorCode {
    /// An operation other than `init` was called before `init`, or after `shutdown`.
    NotInitialized,
    /// `init` was called on an engine that is already past `Uninitialized`.
    AlreadyInitialized,
    /// A watch request with a zero-length or malformed address range.
    InvalidRange,
    /// No identifier (or protection slot) is left to serve the request.
    ResourceExhausted,
    /// Page-protection trapping is not available on this platform.
    PlatformUnsupported,
}

/// An exact copy of an optional string.
pub(crate) fn clone_opt_string(s: &Option<String>) -> (r: Option<String>)
    ensures
        r == *s,
{
    match s {
        Some(v) => Some(v.clone()),
        None => None,
    }
}

} // verus!
