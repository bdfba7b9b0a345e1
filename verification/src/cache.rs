//! The resolution cache decision.
//!
//! The expanded project list is cached in a file.  The cache may be reused
//! only while it is at least as new as the project list file; an absent or
//! older cache forces a fresh aggregation that overwrites it.  Staleness
//! is decided purely by modification times, never by content.

use vstd::prelude::*;

verus! {

/// What a resolution run must do with the cache.
#[derive(Clone, Copy, Debug, PartialEq, Eq, Structural)]
pub enum CachePlan {
    /// The cache is fresh: read it back verbatim.
    UseCache,
    /// The cache is absent or stale: aggregate anew and overwrite it.
    Recompute,
}

/// True when a cache stamped `cache_mtime` may serve for a list stamped
/// `list_mtime`.
pub open spec fn cache_fresh(cache_mtime: Option<u128>, list_mtime: u128) -> bool {
    match cache_mtime {
        Some(t) => t >= list_mtime,
        None => false,
    }
}

/// Decides whether the cached expansion may be reused, from the two
/// modification times (the cache's is `None` when the file is absent).
pub fn plan_cache_use(cache_mtime: Option<u128>, list_mtime: u128) -> (r: CachePlan)
    ensures
        r == CachePlan::UseCache <==> cache_fresh(cache_mtime, list_mtime),
        r == CachePlan::Recompute <==> !cache_fresh(cache_mtime, list_mtime),
{
    match cache_mtime {
        Some(t) => if t >= list_mtime {
            CachePlan::UseCache
        } else {
            CachePlan::Recompute
        },
        None => CachePlan::Recompute,
    }
}

} // verus!
