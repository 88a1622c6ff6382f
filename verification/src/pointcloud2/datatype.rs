//! The `sensor_msgs/PointField` type constants.
//!
//! Named rather than an enum so a field's `datatype` can be compared against
//! them without a fallible conversion at the call site.

use vstd::prelude::*;

verus! {

/// Signed 8-bit integer.
pub const INT8: u8 = 1;

/// Unsigned 8-bit integer.
pub const UINT8: u8 = 2;

/// Signed 16-bit integer.
pub const INT16: u8 = 3;

/// Unsigned 16-bit integer.
pub const UINT16: u8 = 4;

/// Signed 32-bit integer.
pub const INT32: u8 = 5;

/// Unsigned 32-bit integer.
pub const UINT32: u8 = 6;

/// IEEE-754 single precision.
pub const FLOAT32: u8 = 7;

/// IEEE-754 double precision.
pub const FLOAT64: u8 = 8;

} // verus!
