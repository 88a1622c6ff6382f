//! The outcome of a ray cast that found nothing, which needs no geometry.

use vstd::prelude::*;

verus! {

/// Why a ray cast ended without finding an occupied voxel.
#[derive(Debug, Clone, Copy, PartialEq, Eq, Structural)]
pub enum RayCastMiss {
    /// The origin lies outside the addressable volume.
    OriginOutOfBounds,
    /// The direction vector was zero, so there is nothing to follow.
    ZeroDirection,
    /// The ray entered a voxel the map has never observed, and
    /// `ignore_unknown` was not set.
    UnknownVoxel,
    /// The ray travelled past `max_range`.
    MaxRange,
    /// The ray walked off the edge of the addressable volume.
    OutOfBounds,
}

} // verus!
