//! The two-bit code a child contributes to its parent's `.bt` descriptor.

use vstd::prelude::*;

verus! {

/// No child at this index.
pub const UNKNOWN: u8 = 0;

/// Childless and below the occupancy threshold.
pub const FREE: u8 = 1;

/// Childless and at or above the occupancy threshold.
pub const OCCUPIED: u8 = 2;

/// Has children of its own; its descriptors follow.
pub const INNER: u8 = 3;

} // verus!
