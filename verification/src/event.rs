//! Decisions of the file-event provider.
use vstd::prelude::*;

use crate::strutil::ends_with;

verus! {

/// How many failed reads of the event queue in a row are tolerated.
pub const MAX_READ_RETRIES: u32 = 10;

/// `/proc` marks the link target of a deleted file with ` (deleted)`.
pub open spec fn marked_deleted(path: Seq<char>) -> bool {
    " (deleted)"@.len() <= path.len() && path.skip(path.len() - " (deleted)"@.len()) == " (deleted)"@
}

/// Whether a path read back from an event's file descriptor names a live
/// file; a deleted one would only end up not indexed.
pub fn is_live_path(path: &str) -> (b: bool)
    ensures
        b == !marked_deleted(path@),
{
    !ends_with(path, " (deleted)")
}

/// After a failed read of the event queue with `retry` failures before it:
/// the new count, and whether to give up.
pub fn after_read_error(retry: u32) -> (r: (u32, bool))
    requires
        retry < u32::MAX,
    ensures
        r.0 == retry + 1,
        r.1 == (retry + 1 > MAX_READ_RETRIES),
{
    let next = retry + 1;
    (next, next > MAX_READ_RETRIES)
}

} // verus!
