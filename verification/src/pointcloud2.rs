//! Decoding the `sensor_msgs/PointCloud2` binary blob.
//!
//! A `PointCloud2` is a flat byte buffer plus a description of how to read it:
//! named fields with offsets and types, a stride between points, a stride
//! between rows, and a byte order. [`Cloud`] resolves that layout once,
//! rejecting any message whose declared geometry would reach outside its own
//! buffer, and then hands out the raw coordinate scalars of each point.
//!
//! The scalars come out exactly as stored: integers as integers, floating
//! point as its bit pattern. Widening them to coordinates is the caller's
//! last step.

use vstd::prelude::*;
use vstd::string::StringSliceAdditionalSpecFns;

pub mod datatype;

verus! {

/// The width in bytes of a `PointField` datatype, if recognized.
pub open spec fn spec_datatype_size(datatype: u8) -> Option<usize> {
    if datatype == datatype::INT8 || datatype == datatype::UINT8 {
        Some(1)
    } else if datatype == datatype::INT16 || datatype == datatype::UINT16 {
        Some(2)
    } else if datatype == datatype::INT32 || datatype == datatype::UINT32 || datatype
        == datatype::FLOAT32 {
        Some(4)
    } else if datatype == datatype::FLOAT64 {
        Some(8)
    } else {
        None
    }
}

/// The width in bytes of a `PointField` datatype, or `None` if unrecognized.
pub fn datatype_size(datatype: u8) -> (r: Option<usize>)
    ensures
        r == spec_datatype_size(datatype),
{
    match datatype {
        datatype::INT8 | datatype::UINT8 => Some(1),
        datatype::INT16 | datatype::UINT16 => Some(2),
        datatype::INT32 | datatype::UINT32 | datatype::FLOAT32 => Some(4),
        datatype::FLOAT64 => Some(8),
        _ => None,
    }
}

/// One entry of a `PointCloud2`'s `fields` array, borrowing its name.
#[derive(Debug, Clone, Copy, PartialEq, Eq)]
pub struct FieldRef<'a> {
    /// Field name, `"x"` / `"y"` / `"z"` for the coordinates.
    pub name: &'a str,
    /// Byte offset of the field within a point.
    pub offset: u32,
    /// One of the [`datatype`] constants.
    pub datatype: u8,
    /// Number of elements; only the first is read.
    pub count: u32,
}

impl<'a> FieldRef<'a> {
    /// Builds a field descriptor.
    pub fn new(name: &'a str, offset: u32, datatype: u8, count: u32) -> (f: Self)
        ensures
            f.name == name,
            f.offset == offset,
            f.datatype == datatype,
            f.count == count,
    {
        FieldRef { name, offset, datatype, count }
    }
}

/// A `PointCloud2` that could not be decoded.
#[derive(Debug, Clone, PartialEq, Eq)]
#[non_exhaustive]
pub enum CloudError {
    /// One of the coordinate fields is absent.
    MissingField(&'static str),
    /// A coordinate field has a type this decoder does not recognize.
    UnsupportedDatatype {
        /// The coordinate field that carries it.
        field: &'static str,
        /// The unrecognized `datatype` value.
        datatype: u8,
    },
    /// A field is declared with `count` 0, so it holds nothing.
    EmptyField(&'static str),
    /// A field extends past the end of a point.
    FieldOutOfBounds {
        /// The coordinate field.
        field: &'static str,
        /// Byte one past the field's last.
        end: usize,
        /// The declared stride between points.
        point_step: usize,
    },
    /// The blob is shorter than the declared geometry needs.
    ShortData {
        /// Bytes the declared geometry needs.
        expected: usize,
        /// Bytes actually present.
        actual: usize,
    },
    /// `point_step` is zero, so points do not advance.
    ZeroPointStep,
    /// The declared geometry does not fit in a `usize` on this platform.
    GeometryOverflow,
}

/// Where one coordinate lives inside a point, and how to read it.
#[derive(Debug, Clone, Copy, PartialEq, Eq, Structural)]
pub struct Axis {
    /// Byte offset within a point.
    pub offset: usize,
    /// The field's `datatype`.
    pub datatype: u8,
    /// Width in bytes of one element of that datatype.
    pub size: usize,
}

/// Two names are the same field name when their bytes agree.
pub open spec fn same_name(a: &str, b: &str) -> bool {
    a.spec_bytes() == b.spec_bytes()
}

/// Index of the first field called `name`, scanning from `start`.
pub open spec fn first_named(fields: Seq<FieldRef>, name: &str, start: int) -> Option<int>
    decreases fields.len() - start,
{
    if start < 0 || start >= fields.len() {
        None
    } else if same_name(fields[start].name, name) {
        Some(start)
    } else {
        first_named(fields, name, start + 1)
    }
}

/// What resolving the coordinate field `name` yields.
pub open spec fn spec_resolve(fields: Seq<FieldRef>, name: &'static str, point_step: usize) -> Result<
    Axis,
    CloudError,
> {
    match first_named(fields, name, 0) {
        None => Err(CloudError::MissingField(name)),
        Some(i) => {
            let f = fields[i];
            if f.count == 0 {
                Err(CloudError::EmptyField(name))
            } else {
                match spec_datatype_size(f.datatype) {
                    None => Err(CloudError::UnsupportedDatatype { field: name, datatype: f.datatype }),
                    Some(size) => {
                        let end = f.offset + size;
                        if end > usize::MAX {
                            Err(CloudError::GeometryOverflow)
                        } else if end > point_step {
                            Err(
                                CloudError::FieldOutOfBounds {
                                    field: name,
                                    end: end as usize,
                                    point_step,
                                },
                            )
                        } else {
                            Ok(Axis { offset: f.offset as usize, datatype: f.datatype, size })
                        }
                    },
                }
            }
        },
    }
}

/// The checked layout of a cloud: its three axes and its effective row
/// stride, or the reason the declared geometry is refused.
pub open spec fn spec_layout(
    fields: Seq<FieldRef>,
    data_len: nat,
    width: u32,
    height: u32,
    point_step: u32,
    row_step: u32,
) -> Result<(Axis, Axis, Axis, usize), CloudError> {
    let ps = point_step as usize;
    if ps == 0 {
        Err(CloudError::ZeroPointStep)
    } else {
        match spec_resolve(fields, "x", ps) {
            Err(e) => Err(e),
            Ok(x) => match spec_resolve(fields, "y", ps) {
                Err(e) => Err(e),
                Ok(y) => match spec_resolve(fields, "z", ps) {
                    Err(e) => Err(e),
                    Ok(z) => {
                        let packed = width * point_step;
                        if packed > usize::MAX {
                            Err(CloudError::GeometryOverflow)
                        } else {
                            let rs: int = if row_step >= packed {
                                row_step as int
                            } else {
                                packed
                            };
                            let expected: int = if height == 0 {
                                0
                            } else {
                                (height - 1) * rs + packed
                            };
                            if height > 0 && ((height - 1) * rs > usize::MAX || expected
                                > usize::MAX) {
                                Err(CloudError::GeometryOverflow)
                            } else if data_len < expected {
                                Err(
                                    CloudError::ShortData {
                                        expected: expected as usize,
                                        actual: data_len as usize,
                                    },
                                )
                            } else {
                                Ok((x, y, z, rs as usize))
                            }
                        }
                    },
                },
            },
        }
    }
}

fn names_equal(a: &str, b: &str) -> (r: bool)
    ensures
        r == same_name(a, b),
{
    let x = a.as_bytes();
    let y = b.as_bytes();
    if x.len() != y.len() {
        return false;
    }
    let mut i: usize = 0;
    while i < x.len()
        invariant
            i <= x@.len(),
            x@.len() == y@.len(),
            x@ == a.spec_bytes(),
            y@ == b.spec_bytes(),
            forall|j: int| 0 <= j < i ==> x@[j] == y@[j],
        decreases x@.len() - i,
    {
        if x[i] != y[i] {
            return false;
        }
        i += 1;
    }
    assert(x@ =~= y@);
    true
}

impl Axis {
    /// Resolves one coordinate field out of the `fields` array.
    ///
    /// The first field carrying the name is used. It must hold at least one
    /// element of a recognized type, and that element must end within a
    /// point.
    pub fn resolve(fields: &[FieldRef<'_>], name: &'static str, point_step: usize) -> (r: Result<
        Self,
        CloudError,
    >)
        ensures
            r == spec_resolve(fields@, name, point_step),
    {
        let mut i: usize = 0;
        while i < fields.len()
            invariant
                i <= fields@.len(),
                first_named(fields@, name, 0) == first_named(fields@, name, i as int),
            decreases fields@.len() - i,
        {
            if names_equal(fields[i].name, name) {
                return Self::from_field(fields[i], name, point_step);
            }
            i += 1;
        }
        Err(CloudError::MissingField(name))
    }

    fn from_field(field: FieldRef<'_>, name: &'static str, point_step: usize) -> (r: Result<
        Self,
        CloudError,
    >)
        ensures
            r == (if field.count == 0 {
                Err(CloudError::EmptyField(name))
            } else {
                match spec_datatype_size(field.datatype) {
                    None => Err(
                        CloudError::UnsupportedDatatype { field: name, datatype: field.datatype },
                    ),
                    Some(size) => {
                        let end = field.offset + size;
                        if end > usize::MAX {
                            Err(CloudError::GeometryOverflow)
                        } else if end > point_step {
                            Err(
                                CloudError::FieldOutOfBounds {
                                    field: name,
                                    end: end as usize,
                                    point_step,
                                },
                            )
                        } else {
                            Ok(Axis { offset: field.offset as usize, datatype: field.datatype, size })
                        }
                    },
                }
            }),
    {
        if field.count == 0 {
            return Err(CloudError::EmptyField(name));
        }
        let size = match datatype_size(field.datatype) {
            None => {
                return Err(CloudError::UnsupportedDatatype { field: name, datatype: field.datatype });
            },
            Some(s) => s,
        };
        let offset = field.offset as usize;
        let end = match offset.checked_add(size) {
            None => {
                return Err(CloudError::GeometryOverflow);
            },
            Some(e) => e,
        };
        if end > point_step {
            return Err(CloudError::FieldOutOfBounds { field: name, end, point_step });
        }
        Ok(Axis { offset, datatype: field.datatype, size })
    }
}

/// One coordinate scalar exactly as the message stores it; floating-point
/// types carry their IEEE-754 bit pattern.
#[derive(Debug, Clone, Copy, PartialEq, Eq, Structural)]
pub enum Scalar {
    /// A signed 8-bit integer.
    Int8(i8),
    /// An unsigned 8-bit integer.
    UInt8(u8),
    /// A signed 16-bit integer.
    Int16(i16),
    /// An unsigned 16-bit integer.
    UInt16(u16),
    /// A signed 32-bit integer.
    Int32(i32),
    /// An unsigned 32-bit integer.
    UInt32(u32),
    /// The bits of a single-precision float.
    Float32(u32),
    /// The bits of a double-precision float.
    Float64(u64),
}

/// The three coordinate scalars of one point.
#[derive(Debug, Clone, Copy, PartialEq, Eq, Structural)]
pub struct RawPoint {
    /// The `x` coordinate.
    pub x: Scalar,
    /// The `y` coordinate.
    pub y: Scalar,
    /// The `z` coordinate.
    pub z: Scalar,
}

/// Little-endian value of the `n` bytes of `s` starting at `start`.
pub open spec fn le_value(s: Seq<u8>, start: int, n: nat) -> nat
    decreases n,
{
    if n == 0 {
        0
    } else {
        s[start] as nat + 256 * le_value(s, start + 1, (n - 1) as nat)
    }
}

/// Big-endian value of the `n` bytes of `s` starting at `start`.
pub open spec fn be_value(s: Seq<u8>, start: int, n: nat) -> nat
    decreases n,
{
    if n == 0 {
        0
    } else {
        s[start + n - 1] as nat + 256 * be_value(s, start, (n - 1) as nat)
    }
}

/// `256^n`.
pub open spec fn pow256(n: nat) -> nat
    decreases n,
{
    if n == 0 {
        1
    } else {
        256 * pow256((n - 1) as nat)
    }
}

/// A raw unsigned value reinterpreted as the scalar type `datatype` names.
pub open spec fn spec_scalar(datatype: u8, raw: nat) -> Scalar {
    if datatype == datatype::INT8 {
        Scalar::Int8(raw as u8 as i8)
    } else if datatype == datatype::UINT8 {
        Scalar::UInt8(raw as u8)
    } else if datatype == datatype::INT16 {
        Scalar::Int16(raw as u16 as i16)
    } else if datatype == datatype::UINT16 {
        Scalar::UInt16(raw as u16)
    } else if datatype == datatype::INT32 {
        Scalar::Int32(raw as u32 as i32)
    } else if datatype == datatype::UINT32 {
        Scalar::UInt32(raw as u32)
    } else if datatype == datatype::FLOAT32 {
        Scalar::Float32(raw as u32)
    } else {
        Scalar::Float64(raw as u64)
    }
}

/// The scalar `axis` describes, in the point starting at byte `base`.
pub open spec fn spec_read(axis: Axis, data: Seq<u8>, base: int, big_endian: bool) -> Scalar {
    let raw = if big_endian {
        be_value(data, base + axis.offset, axis.size as nat)
    } else {
        le_value(data, base + axis.offset, axis.size as nat)
    };
    spec_scalar(axis.datatype, raw)
}

/// The `PointField` datatype whose values `s` holds.
pub open spec fn scalar_datatype(s: Scalar) -> u8 {
    match s {
        Scalar::Int8(_) => datatype::INT8,
        Scalar::UInt8(_) => datatype::UINT8,
        Scalar::Int16(_) => datatype::INT16,
        Scalar::UInt16(_) => datatype::UINT16,
        Scalar::Int32(_) => datatype::INT32,
        Scalar::UInt32(_) => datatype::UINT32,
        Scalar::Float32(_) => datatype::FLOAT32,
        Scalar::Float64(_) => datatype::FLOAT64,
    }
}

/// The bits `s` holds, read as an unsigned number of its width.
pub open spec fn scalar_bits(s: Scalar) -> nat {
    match s {
        Scalar::Int8(v) => v as u8 as nat,
        Scalar::UInt8(v) => v as nat,
        Scalar::Int16(v) => v as u16 as nat,
        Scalar::UInt16(v) => v as nat,
        Scalar::Int32(v) => v as u32 as nat,
        Scalar::UInt32(v) => v as nat,
        Scalar::Float32(v) => v as nat,
        Scalar::Float64(v) => v as nat,
    }
}

/// The numeric value of an integer scalar; for a float, its bits.
pub open spec fn scalar_value(s: Scalar) -> int {
    match s {
        Scalar::Int8(v) => v as int,
        Scalar::UInt8(v) => v as int,
        Scalar::Int16(v) => v as int,
        Scalar::UInt16(v) => v as int,
        Scalar::Int32(v) => v as int,
        Scalar::UInt32(v) => v as int,
        Scalar::Float32(v) => v as int,
        Scalar::Float64(v) => v as int,
    }
}

proof fn lemma_signed_round_trips(a: u8, b: u16, c: u32)
    ensures
        (a as i8) as u8 == a,
        (b as i16) as u16 == b,
        (c as i32) as u32 == c,
        (a as i8) as int == (if a >= 128 { a - 256 } else { a as int }),
        (b as i16) as int == (if b >= 32768 { b - 65536 } else { b as int }),
        (c as i32) as int == (if c >= 0x8000_0000 { c - 0x1_0000_0000 } else { c as int }),
{
    assert((a as i8) as u8 == a) by (bit_vector);
    assert((b as i16) as u16 == b) by (bit_vector);
    assert((c as i32) as u32 == c) by (bit_vector);
    assert((a as i8) as int == (if a >= 128 { a - 256 } else { a as int })) by (bit_vector);
    assert((b as i16) as int == (if b >= 32768 { b - 65536 } else { b as int })) by (bit_vector);
    assert((c as i32) as int == (if c >= 0x8000_0000 { c - 0x1_0000_0000 } else { c as int }))
        by (bit_vector);
}

/// A coordinate comes out as the scalar type its field declares, holding
/// the bits the field stores: an unsigned field never reads as signed, a
/// signed one is the two's complement of its bits, and a float keeps its
/// bit pattern.
pub proof fn law_read_keeps_datatype(axis: Axis, data: Seq<u8>, base: int, big_endian: bool)
    requires
        spec_datatype_size(axis.datatype) == Some(axis.size),
    ensures
        scalar_datatype(spec_read(axis, data, base, big_endian)) == axis.datatype,
        scalar_bits(spec_read(axis, data, base, big_endian)) == (if big_endian {
            be_value(data, base + axis.offset, axis.size as nat)
        } else {
            le_value(data, base + axis.offset, axis.size as nat)
        }),
        (axis.datatype == datatype::UINT8 || axis.datatype == datatype::UINT16 || axis.datatype
            == datatype::UINT32) ==> scalar_value(spec_read(axis, data, base, big_endian))
            == scalar_bits(spec_read(axis, data, base, big_endian)),
        axis.datatype == datatype::INT8 ==> scalar_value(spec_read(axis, data, base, big_endian)) == (
        if scalar_bits(spec_read(axis, data, base, big_endian)) >= 128 {
            scalar_bits(spec_read(axis, data, base, big_endian)) - 256
        } else {
            scalar_bits(spec_read(axis, data, base, big_endian)) as int
        }),
        axis.datatype == datatype::INT16 ==> scalar_value(spec_read(axis, data, base, big_endian)) == (
        if scalar_bits(spec_read(axis, data, base, big_endian)) >= 32768 {
            scalar_bits(spec_read(axis, data, base, big_endian)) - 65536
        } else {
            scalar_bits(spec_read(axis, data, base, big_endian)) as int
        }),
        axis.datatype == datatype::INT32 ==> scalar_value(spec_read(axis, data, base, big_endian)) == (
        if scalar_bits(spec_read(axis, data, base, big_endian)) >= 0x8000_0000 {
            scalar_bits(spec_read(axis, data, base, big_endian)) - 0x1_0000_0000
        } else {
            scalar_bits(spec_read(axis, data, base, big_endian)) as int
        }),
{
    let o = base + axis.offset;
    let n = axis.size as nat;
    let raw = if big_endian {
        be_value(data, o, n)
    } else {
        le_value(data, o, n)
    };
    lemma_value_bounds(data, o, n);
    reveal_with_fuel(pow256, 9);
    assert(raw < pow256(n));
    let r = spec_read(axis, data, base, big_endian);
    if n == 1 {
        assert(raw < 256);
        let a = raw as u8;
        assert(a == raw);
        lemma_signed_round_trips(a, 0, 0);
    } else if n == 2 {
        assert(raw < 65536);
        let b = raw as u16;
        assert(b == raw);
        lemma_signed_round_trips(0, b, 0);
    } else if n == 4 {
        assert(raw < 0x1_0000_0000);
        let c = raw as u32;
        assert(c == raw);
        lemma_signed_round_trips(0, 0, c);
    } else {
        assert(raw < 0x1_0000_0000_0000_0000);
        assert(raw as u64 == raw);
    }
}

/// The bytes of a field combine in the cloud's byte order, whatever the
/// field's width: a little-endian cloud puts the first byte lowest, a
/// big-endian one highest.
pub proof fn law_read_byte_order(axis: Axis, data: Seq<u8>, base: int)
    requires
        spec_datatype_size(axis.datatype) == Some(axis.size),
    ensures
        ({
            let o = base + axis.offset;
            let le = scalar_bits(spec_read(axis, data, base, false));
            let be = scalar_bits(spec_read(axis, data, base, true));
            &&& axis.size == 1 ==> le == data[o] && be == data[o]
            &&& axis.size == 2 ==> le == data[o] + 256 * data[o + 1] && be == 256 * data[o] + data[o + 1]
            &&& axis.size == 4 ==> le == data[o] + 256 * data[o + 1] + 65536 * data[o + 2]
                + 16777216 * data[o + 3] && be == 16777216 * data[o] + 65536 * data[o + 1] + 256
                * data[o + 2] + data[o + 3]
            &&& axis.size == 8 ==> le == data[o] + 256 * data[o + 1] + 65536 * data[o + 2]
                + 16777216 * data[o + 3] + 4294967296 * data[o + 4] + 1099511627776 * data[o + 5]
                + 281474976710656 * data[o + 6] + 72057594037927936 * data[o + 7] && be
                == 72057594037927936 * data[o] + 281474976710656 * data[o + 1] + 1099511627776
                * data[o + 2] + 4294967296 * data[o + 3] + 16777216 * data[o + 4] + 65536 * data[o
                + 5] + 256 * data[o + 6] + data[o + 7]
        }),
{
    law_read_keeps_datatype(axis, data, base, false);
    law_read_keeps_datatype(axis, data, base, true);
    reveal_with_fuel(le_value, 9);
    reveal_with_fuel(be_value, 9);
}

proof fn lemma_value_bounds(s: Seq<u8>, start: int, n: nat)
    ensures
        le_value(s, start, n) < pow256(n),
        be_value(s, start, n) < pow256(n),
    decreases n,
{
    if n > 0 {
        lemma_value_bounds(s, start + 1, (n - 1) as nat);
        lemma_value_bounds(s, start, (n - 1) as nat);
    }
}

proof fn lemma_pow256_mono(a: nat, b: nat)
    requires
        a <= b,
    ensures
        pow256(a) <= pow256(b),
    decreases b - a,
{
    if a < b {
        lemma_pow256_mono(a, (b - 1) as nat);
    }
}

/// Reads `n` bytes at `start` as an unsigned integer in the given byte order.
fn read_unsigned(data: &[u8], start: usize, n: usize, big_endian: bool) -> (r: u64)
    requires
        start + n <= data@.len(),
        n <= 8,
    ensures
        r == (if big_endian {
            be_value(data@, start as int, n as nat)
        } else {
            le_value(data@, start as int, n as nat)
        }),
{
    proof {
        reveal_with_fuel(pow256, 9);
        assert(pow256(8) == 0x1_0000_0000_0000_0000);
        assert(data@.len() == data.len());
    }
    let mut acc: u64 = 0;
    if big_endian {
        let mut i: usize = 0;
        while i < n
            invariant
                i <= n <= 8,
                start + n <= data@.len() <= usize::MAX,
                acc == be_value(data@, start as int, i as nat),
                pow256(8) == 0x1_0000_0000_0000_0000,
            decreases n - i,
        {
            proof {
                lemma_value_bounds(data@, start as int, i as nat);
                lemma_pow256_mono((i + 1) as nat, 8);
                assert(acc * 256 + data@[start + i] < pow256((i + 1) as nat)) by (nonlinear_arith)
                    requires
                        acc < pow256(i as nat),
                        data@[start + i] < 256,
                        pow256((i + 1) as nat) == 256 * pow256(i as nat),
                ;
            }
            acc = acc * 256 + data[start + i] as u64;
            i += 1;
        }
    } else {
        let mut i: usize = n;
        while i > 0
            invariant
                i <= n <= 8,
                start + n <= data@.len() <= usize::MAX,
                acc == le_value(data@, start + i, (n - i) as nat),
                pow256(8) == 0x1_0000_0000_0000_0000,
            decreases i,
        {
            proof {
                lemma_value_bounds(data@, start + i, (n - i) as nat);
                lemma_pow256_mono((n - i + 1) as nat, 8);
                assert(acc * 256 + data@[start + i - 1] < pow256((n - i + 1) as nat))
                    by (nonlinear_arith)
                    requires
                        acc < pow256((n - i) as nat),
                        data@[start + i - 1] < 256,
                        pow256((n - i + 1) as nat) == 256 * pow256((n - i) as nat),
                ;
            }
            acc = acc * 256 + data[start + i - 1] as u64;
            i -= 1;
        }
    }
    acc
}

impl Axis {
    /// The axis reads a recognized datatype of the matching width, and ends
    /// within a point of `point_step` bytes.
    pub open spec fn fits(&self, point_step: usize) -> bool {
        &&& spec_datatype_size(self.datatype) == Some(self.size)
        &&& self.offset + self.size <= point_step
    }

    /// Reads this coordinate out of the point starting at `base`.
    pub fn read(&self, data: &[u8], base: usize, big_endian: bool) -> (s: Scalar)
        requires
            base + self.offset + self.size <= data@.len(),
            spec_datatype_size(self.datatype) == Some(self.size),
        ensures
            s == spec_read(*self, data@, base as int, big_endian),
            scalar_datatype(s) == self.datatype,
            scalar_bits(s) == (if big_endian {
                be_value(data@, base + self.offset, self.size as nat)
            } else {
                le_value(data@, base + self.offset, self.size as nat)
            }),
    {
        proof {
            assert(data@.len() == data.len());
            law_read_keeps_datatype(*self, data@, base as int, big_endian);
        }
        let raw = read_unsigned(data, base + self.offset, self.size, big_endian);
        match self.datatype {
            datatype::INT8 => Scalar::Int8(raw as u8 as i8),
            datatype::UINT8 => Scalar::UInt8(raw as u8),
            datatype::INT16 => Scalar::Int16(raw as u16 as i16),
            datatype::UINT16 => Scalar::UInt16(raw as u16),
            datatype::INT32 => Scalar::Int32(raw as u32 as i32),
            datatype::UINT32 => Scalar::UInt32(raw as u32),
            datatype::FLOAT32 => Scalar::Float32(raw as u32),
            _ => Scalar::Float64(raw),
        }
    }
}

/// A borrowed `sensor_msgs/PointCloud2` with its layout already resolved.
#[derive(Debug, Clone, Copy)]
pub struct Cloud<'a> {
    data: &'a [u8],
    x: Axis,
    y: Axis,
    z: Axis,
    width: usize,
    height: usize,
    point_step: usize,
    row_step: usize,
    big_endian: bool,
}

impl<'a> Cloud<'a> {
    /// The message bytes.
    pub closed spec fn spec_data(&self) -> Seq<u8> {
        self.data@
    }

    /// The resolved `x`, `y` and `z` axes.
    pub closed spec fn spec_axes(&self) -> (Axis, Axis, Axis) {
        (self.x, self.y, self.z)
    }

    /// Points per row.
    pub closed spec fn spec_width(&self) -> usize {
        self.width
    }

    /// Number of rows.
    pub closed spec fn spec_height(&self) -> usize {
        self.height
    }

    /// Bytes from one point to the next.
    pub closed spec fn spec_point_step(&self) -> usize {
        self.point_step
    }

    /// Bytes from one row to the next, never less than a packed row.
    pub closed spec fn spec_row_step(&self) -> usize {
        self.row_step
    }

    /// Whether scalars are stored most significant byte first.
    pub closed spec fn spec_big_endian(&self) -> bool {
        self.big_endian
    }

    /// The layout is self-consistent: every declared point lies in the data.
    pub open spec fn wf(&self) -> bool {
        let (x, y, z) = self.spec_axes();
        &&& self.spec_point_step() > 0
        &&& x.fits(self.spec_point_step())
        &&& y.fits(self.spec_point_step())
        &&& z.fits(self.spec_point_step())
        &&& self.spec_row_step() >= self.spec_width() * self.spec_point_step()
        &&& self.spec_height() > 0 ==> (self.spec_height() - 1) * self.spec_row_step()
            + self.spec_width() * self.spec_point_step() <= self.spec_data().len()
    }

    /// Number of points declared.
    pub open spec fn spec_len(&self) -> nat {
        (self.spec_width() as nat) * (self.spec_height() as nat)
    }

    /// The raw coordinates of point `index`, counted in message order.
    pub open spec fn spec_point(&self, index: int) -> RawPoint {
        let w = self.spec_width() as int;
        let base = (index / w) * self.spec_row_step() + (index % w) * self.spec_point_step();
        let (x, y, z) = self.spec_axes();
        RawPoint {
            x: spec_read(x, self.spec_data(), base, self.spec_big_endian()),
            y: spec_read(y, self.spec_data(), base, self.spec_big_endian()),
            z: spec_read(z, self.spec_data(), base, self.spec_big_endian()),
        }
    }

    /// Resolves a cloud's layout, borrowing its data.
    ///
    /// The arguments are the message's fields verbatim. `row_step` is the
    /// stride between rows; one too small to hold `width` points is read as
    /// the unpadded `width * point_step`. The last row only needs to hold its
    /// points, not a full stride of padding.
    pub fn new(
        fields: &[FieldRef<'_>],
        data: &'a [u8],
        width: u32,
        height: u32,
        point_step: u32,
        row_step: u32,
        is_bigendian: bool,
    ) -> (r: Result<Self, CloudError>)
        ensures
            match spec_layout(fields@, data@.len(), width, height, point_step, row_step) {
                Err(e) => r == Err::<Self, CloudError>(e),
                Ok((x, y, z, rs)) => r matches Ok(c) && {
                    &&& c.wf()
                    &&& c.spec_data() == data@
                    &&& c.spec_axes() == (x, y, z)
                    &&& c.spec_width() == width
                    &&& c.spec_height() == height
                    &&& c.spec_point_step() == point_step
                    &&& c.spec_row_step() == rs
                    &&& c.spec_big_endian() == is_bigendian
                },
            },
    {
        let point_step = point_step as usize;
        if point_step == 0 {
            return Err(CloudError::ZeroPointStep);
        }
        let x = Axis::resolve(fields, "x", point_step)?;
        let y = Axis::resolve(fields, "y", point_step)?;
        let z = Axis::resolve(fields, "z", point_step)?;

        let width = width as usize;
        let height = height as usize;

        let packed = match width.checked_mul(point_step) {
            None => {
                return Err(CloudError::GeometryOverflow);
            },
            Some(p) => p,
        };
        let row_step = if (row_step as usize) >= packed {
            row_step as usize
        } else {
            packed
        };

        let expected = if height == 0 {
            0
        } else {
            match (height - 1).checked_mul(row_step) {
                None => {
                    return Err(CloudError::GeometryOverflow);
                },
                Some(rows) => match rows.checked_add(packed) {
                    None => {
                        return Err(CloudError::GeometryOverflow);
                    },
                    Some(e) => e,
                },
            }
        };
        if data.len() < expected {
            return Err(CloudError::ShortData { expected, actual: data.len() });
        }

        Ok(Cloud {
            data,
            x,
            y,
            z,
            width,
            height,
            point_step,
            row_step,
            big_endian: is_bigendian,
        })
    }

    /// Number of points the cloud declares, finite or not.
    pub fn len(&self) -> (n: usize)
        requires
            self.wf(),
        ensures
            n == self.spec_len(),
    {
        proof {
            self.lemma_len_fits();
        }
        self.width * self.height
    }

    proof fn lemma_len_fits(&self)
        requires
            self.wf(),
        ensures
            self.spec_len() <= self.spec_data().len(),
            self.spec_data().len() <= usize::MAX,
    {
        let w = self.width as int;
        let h = self.height as int;
        let ps = self.point_step as int;
        let rs = self.row_step as int;
        assert(self.data@.len() == self.data.len());
        if h > 0 {
            assert(w * h <= (h - 1) * rs + w * ps) by (nonlinear_arith)
                requires
                    h > 0,
                    ps > 0,
                    w >= 0,
                    rs >= w * ps,
            ;
            assert((h - 1) * rs + w * ps <= self.data@.len());
        }
        assert(self.spec_len() == w * h);
        assert(w * h <= self.data@.len()) by (nonlinear_arith)
            requires
                h > 0 ==> w * h <= (h - 1) * rs + w * ps,
                h > 0 ==> (h - 1) * rs + w * ps <= self.data@.len(),
                h >= 0,
                w >= 0,
        ;
    }

    /// Whether the cloud declares no points at all.
    pub fn is_empty(&self) -> (b: bool)
        requires
            self.wf(),
        ensures
            b == (self.spec_len() == 0),
    {
        self.len() == 0
    }

    /// Iterates over every point, in message order, including ones a caller
    /// would consider invalid.
    pub fn iter<'c>(&'c self) -> (it: PointIter<'c, 'a>)
        requires
            self.wf(),
        ensures
            it.spec_cloud() == *self,
            it.spec_index() == 0,
    {
        PointIter { cloud: self, index: 0 }
    }

    /// The raw coordinates of point `index`.
    pub fn point(&self, index: usize) -> (p: RawPoint)
        requires
            self.wf(),
            index < self.spec_len(),
        ensures
            p == self.spec_point(index as int),
    {
        proof {
            self.lemma_point_in_bounds(index as int);
        }
        let row = index / self.width;
        let col = index % self.width;
        proof {
            self.lemma_len_fits();
            assert(row * self.row_step + col * self.point_step + self.point_step <= usize::MAX);
            assert(row * self.row_step <= row * self.row_step + col * self.point_step)
                by (nonlinear_arith)
                requires
                    col >= 0,
                    self.point_step >= 0,
            ;
        }
        let base = row * self.row_step + col * self.point_step;
        RawPoint {
            x: self.x.read(self.data, base, self.big_endian),
            y: self.y.read(self.data, base, self.big_endian),
            z: self.z.read(self.data, base, self.big_endian),
        }
    }

    proof fn lemma_point_in_bounds(&self, index: int)
        requires
            self.wf(),
            0 <= index < self.spec_len(),
        ensures
            self.spec_width() > 0,
            (index / self.spec_width() as int) * self.spec_row_step() + (index
                % self.spec_width() as int) * self.spec_point_step() + self.spec_point_step()
                <= self.spec_data().len(),
    {
        let w = self.width as int;
        let h = self.height as int;
        let ps = self.point_step as int;
        let rs = self.row_step as int;
        assert(w > 0 && h > 0) by (nonlinear_arith)
            requires
                0 <= index < w * h,
                w >= 0,
                h >= 0,
        ;
        let row = index / w;
        let col = index % w;
        vstd::arithmetic::div_mod::lemma_fundamental_div_mod(index, w);
        assert(0 <= col < w);
        assert(row < h) by (nonlinear_arith)
            requires
                index == w * row + col,
                0 <= col,
                index < w * h,
                w > 0,
        ;
        assert(0 <= row) by (nonlinear_arith)
            requires
                index == w * row + col,
                col < w,
                index >= 0,
                w > 0,
        ;
        assert(row * rs + col * ps + ps <= (h - 1) * rs + w * ps) by (nonlinear_arith)
            requires
                0 <= row <= h - 1,
                0 <= col <= w - 1,
                rs >= 0,
                ps > 0,
        ;
    }
}

/// Iterator over a [`Cloud`]'s points, in message order.
#[derive(Debug)]
pub struct PointIter<'c, 'a> {
    cloud: &'c Cloud<'a>,
    index: usize,
}

impl<'c, 'a> PointIter<'c, 'a> {
    /// The cloud being walked.
    pub closed spec fn spec_cloud(&self) -> Cloud<'a> {
        *self.cloud
    }

    /// How many points have been handed out.
    pub closed spec fn spec_index(&self) -> usize {
        self.index
    }

    /// The next point, or `None` once every declared point has been read.
    pub fn next(&mut self) -> (p: Option<RawPoint>)
        requires
            old(self).spec_cloud().wf(),
        ensures
            final(self).spec_cloud() == old(self).spec_cloud(),
            old(self).spec_index() < old(self).spec_cloud().spec_len() ==> {
                &&& p == Some(old(self).spec_cloud().spec_point(old(self).spec_index() as int))
                &&& final(self).spec_index() == old(self).spec_index() + 1
            },
            old(self).spec_index() >= old(self).spec_cloud().spec_len() ==> {
                &&& p is None
                &&& final(self).spec_index() == old(self).spec_index()
            },
    {
        let cloud = self.cloud;
        if self.index >= cloud.len() {
            return None;
        }
        let p = cloud.point(self.index);
        self.index += 1;
        Some(p)
    }

    /// Points still to come.
    pub fn remaining(&self) -> (n: usize)
        requires
            self.spec_cloud().wf(),
        ensures
            n == (if self.spec_index() < self.spec_cloud().spec_len() {
                self.spec_cloud().spec_len() - self.spec_index()
            } else {
                0
            }),
    {
        let len = self.cloud.len();
        if self.index < len {
            len - self.index
        } else {
            0
        }
    }
}

} // verus!
