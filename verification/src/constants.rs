//! Size constants for arena chunk growth.
use vstd::prelude::*;

verus! {

/// The number of bytes in the first chunk of an arena.
pub const MIN_CHUNK: usize = 512;

/// The number of bytes beyond which chunk sizes stop doubling.
pub const MAX_CHUNK: usize = 2 * 1024 * 1024;

} // verus!
