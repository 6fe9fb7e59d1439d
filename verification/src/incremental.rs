//! Refreshing the cache from the change journal of the filesystem.

use vstd::prelude::*;
use crate::cache::DiskCache;
use crate::error::PTreeError;

verus! {

/// Tries to bring the cache up to date from the change journal of the
/// drive. No journal is read: the answer is always that the refresh did
/// not happen, so that the caller scans, and the cache stays as it was.
pub fn try_incremental_update(cache: &mut DiskCache, drive_letter: char) -> (r: Result<bool, PTreeError>)
    ensures
        r == Ok::<bool, PTreeError>(false),
        final(cache)@ == old(cache)@,
{
    Ok(false)
}

} // verus!
