//! The depth-dependent half of a tree's geometry.
//!
//! Everything here depends only on the tree depth and on the key-space offset
//! of the world origin; the metric half (resolution, coordinates in meters)
//! is layered on top of it by the caller.

use vstd::prelude::*;
use vstd::arithmetic::power2::{pow2, lemma_pow2_pos, lemma_pow2_adds};
use vstd::bits::{lemma_u64_shr_is_div, lemma_u64_shl_is_mul, lemma_u64_pow2_no_overflow};
use vstd::arithmetic::div_mod::{
    lemma_fundamental_div_mod, lemma_fundamental_div_mod_converse, lemma_hoist_over_denominator,
    lemma_mod_multiples_vanish,
};
use crate::key::{KeyScalar, OcTreeKey};

verus! {

/// Maximum tree depth used by every stock tree.
pub const DEFAULT_TREE_DEPTH: u32 = 16;

/// Key-space offset of the world origin, `2^(DEFAULT_TREE_DEPTH - 1)`.
pub const DEFAULT_TREE_MAX_VAL: u32 = 32768;

/// Deepest tree a 16-bit key can address.
pub const MAX_TREE_DEPTH: u32 = 16;

/// A depth argument that exceeded the tree depth.
#[derive(Debug, Clone, Copy, PartialEq, Eq, Structural)]
pub struct InvalidDepth {
    /// The rejected depth.
    pub got: u32,
    /// The maximum depth the tree accepts.
    pub tree_depth: u32,
}

/// Tree depth and key-space offset of the origin.
#[derive(Debug, Clone, Copy, PartialEq, Eq, Structural)]
pub struct KeyGeometry {
    tree_depth: u32,
    tree_max_val: u32,
}

/// `x` rounded down to a multiple of `2^n`, for any integer `x`.
pub open spec fn floor_to(x: int, n: nat) -> int {
    (x / pow2(n) as int) * pow2(n) as int
}

/// One axis of a bottom-level key snapped to the voxel that contains it when
/// the tree is cut `diff` levels above the bottom: the offset from the origin
/// is rounded down to a multiple of `2^diff`, moved to the middle of that
/// block, and wrapped back into the 16-bit key range.
pub open spec fn spec_adjust_axis(key: u16, max_val: u32, diff: nat) -> u16 {
    if diff == 0 {
        key
    } else {
        ((floor_to(key - max_val, diff) + pow2((diff - 1) as nat) + max_val) % 65536) as u16
    }
}

impl KeyGeometry {
    /// The depth of the tree.
    pub closed spec fn spec_tree_depth(&self) -> u32 {
        self.tree_depth
    }

    /// The key-space offset of the world origin.
    pub closed spec fn spec_tree_max_val(&self) -> u32 {
        self.tree_max_val
    }

    /// A 16-bit key can address this depth.
    pub open spec fn wf(&self) -> bool {
        self.spec_tree_depth() <= MAX_TREE_DEPTH
    }

    /// The stock geometry: depth 16, origin at key 32768.
    pub fn new() -> (g: Self)
        ensures
            g.wf(),
            g.spec_tree_depth() == DEFAULT_TREE_DEPTH,
            g.spec_tree_max_val() == DEFAULT_TREE_MAX_VAL,
    {
        KeyGeometry { tree_depth: DEFAULT_TREE_DEPTH, tree_max_val: DEFAULT_TREE_MAX_VAL }
    }

    /// A geometry with non-default tree constants.
    pub fn with_depth(tree_depth: u32, tree_max_val: u32) -> (g: Self)
        requires
            tree_depth <= MAX_TREE_DEPTH,
        ensures
            g.wf(),
            g.spec_tree_depth() == tree_depth,
            g.spec_tree_max_val() == tree_max_val,
    {
        KeyGeometry { tree_depth, tree_max_val }
    }

    /// Maximum depth of the tree.
    pub fn tree_depth(&self) -> (d: u32)
        ensures
            d == self.spec_tree_depth(),
    {
        self.tree_depth
    }

    /// Key-space offset of the world origin.
    pub fn tree_max_val(&self) -> (v: u32)
        ensures
            v == self.spec_tree_max_val(),
    {
        self.tree_max_val
    }

    /// Confirms `depth` is addressable in this tree.
    pub fn validate_depth(&self, depth: u32) -> (r: Result<(), InvalidDepth>)
        ensures
            r is Ok <==> depth <= self.spec_tree_depth(),
            r matches Err(e) ==> e == (InvalidDepth { got: depth, tree_depth: self.spec_tree_depth() }),
    {
        if depth > self.tree_depth {
            return Err(InvalidDepth { got: depth, tree_depth: self.tree_depth });
        }
        Ok(())
    }

    /// Snaps one axis of a bottom-level key to the voxel that contains it at
    /// `depth`.
    pub fn adjust_key_axis_at_depth(&self, key: KeyScalar, depth: u32) -> (r: Result<KeyScalar, InvalidDepth>)
        requires
            self.wf(),
        ensures
            r is Ok <==> depth <= self.spec_tree_depth(),
            r matches Err(e) ==> e == (InvalidDepth { got: depth, tree_depth: self.spec_tree_depth() }),
            r matches Ok(v) ==> v == spec_adjust_axis(
                key,
                self.spec_tree_max_val(),
                (self.spec_tree_depth() - depth) as nat,
            ),
    {
        self.validate_depth(depth)?;
        let diff = self.tree_depth - depth;
        if diff == 0 {
            return Ok(key);
        }
        Ok(snap_axis(key, self.tree_max_val, diff))
    }

    /// Snaps a bottom-level key to the voxel that contains it at `depth`.
    pub fn adjust_key_at_depth(&self, key: OcTreeKey, depth: u32) -> (r: Result<OcTreeKey, InvalidDepth>)
        requires
            self.wf(),
        ensures
            r is Ok <==> depth <= self.spec_tree_depth(),
            r matches Err(e) ==> e == (InvalidDepth { got: depth, tree_depth: self.spec_tree_depth() }),
            r matches Ok(k) ==> k == spec_adjust_key(*self, key, depth),
    {
        if depth == self.tree_depth {
            assert(key.k =~= spec_adjust_key(*self, key, depth).k);
            return Ok(key);
        }
        let x = self.adjust_key_axis_at_depth(key.k[0], depth)?;
        let y = self.adjust_key_axis_at_depth(key.k[1], depth)?;
        let z = self.adjust_key_axis_at_depth(key.k[2], depth)?;
        let r = OcTreeKey::new(x, y, z);
        assert(r.k =~= spec_adjust_key(*self, key, depth).k);
        Ok(r)
    }
}

/// A bottom-level key snapped, axis by axis, to the voxel containing it at
/// `depth`.
pub open spec fn spec_adjust_key(g: KeyGeometry, key: OcTreeKey, depth: u32) -> OcTreeKey {
    let diff = (g.spec_tree_depth() - depth) as nat;
    OcTreeKey {
        k: [
            spec_adjust_axis(key.k[0], g.spec_tree_max_val(), diff),
            spec_adjust_axis(key.k[1], g.spec_tree_max_val(), diff),
            spec_adjust_axis(key.k[2], g.spec_tree_max_val(), diff),
        ],
    }
}

/// Snapping computed on a non-negative offset: `2^32` is a multiple of every
/// block size up to `2^16`, so adding it first changes nothing modulo the key
/// range.
fn snap_axis(key: KeyScalar, max_val: u32, diff: u32) -> (r: KeyScalar)
    requires
        1 <= diff <= MAX_TREE_DEPTH,
    ensures
        r == spec_adjust_axis(key, max_val, diff as nat),
{
    let shift: u64 = 0x1_0000_0000;
    let c: u64 = key as u64 + shift - max_val as u64;
    let snapped: u64 = (c >> diff as u64) << diff as u64;
    let half: u64 = 1u64 << (diff - 1) as u64;
    proof {
        lemma_snap(key, max_val, diff);
    }
    #[verifier::truncate]
    ((snapped + half + max_val as u64) as u16)
}

proof fn lemma_snap(key: u16, max_val: u32, diff: u32)
    requires
        1 <= diff <= MAX_TREE_DEPTH,
    ensures
        ({
            let c: u64 = (key as u64 + 0x1_0000_0000u64 - max_val as u64) as u64;
            let snapped = (c >> diff as u64) << diff as u64;
            &&& snapped <= c
            &&& pow2((diff - 1) as nat) <= 0x8000
            &&& (1u64 << (diff - 1) as u64) == pow2((diff - 1) as nat)
            &&& ((snapped + (1u64 << (diff - 1) as u64) + max_val as u64) as u64) as u16
                == spec_adjust_axis(key, max_val, diff as nat)
        }),
{
    let c: u64 = (key as u64 + 0x1_0000_0000u64 - max_val as u64) as u64;
    let d = diff as u64;
    let p = pow2(diff as nat) as int;
    let h = pow2((diff - 1) as nat) as int;
    lemma_pow2_pos(diff as nat);
    lemma_u64_pow2_no_overflow(diff as nat);
    lemma_u64_pow2_no_overflow((diff - 1) as nat);
    lemma_u64_shr_is_div(c, d);
    let q: u64 = c >> d;
    assert(q as int == c as int / p);
    lemma_fundamental_div_mod(c as int, p);
    assert(q as int * p <= c as int) by (nonlinear_arith)
        requires
            q as int == c as int / p,
            p > 0,
            c as int == p * (c as int / p) + c as int % p,
            0 <= c as int % p,
    ;
    lemma_u64_shl_is_mul(q, d);
    assert(1u64 << ((diff - 1) as u64) == h) by {
        lemma_u64_shl_is_mul(1u64, (diff - 1) as u64);
    }
    lemma_pow2_adds(diff as nat, (32 - diff) as nat);
    vstd::arithmetic::power2::lemma2_to64();
    if diff - 1 < 15 {
        vstd::arithmetic::power2::lemma_pow2_strictly_increases((diff - 1) as nat, 15);
    }
    let m = pow2((32 - diff) as nat) as int;
    assert(0x1_0000_0000int == p * m);
    let x = key as int - max_val as int;
    assert(c as int == x + m * p) by (nonlinear_arith)
        requires
            c as int == x + 0x1_0000_0000int,
            0x1_0000_0000int == p * m,
    ;
    lemma_hoist_over_denominator(x, m, p as nat);
    assert(q as int * p == floor_to(x, diff as nat) + 0x1_0000_0000int) by (nonlinear_arith)
        requires
            q as int == x / p + m,
            floor_to(x, diff as nat) == (x / p) * p,
            0x1_0000_0000int == p * m,
    ;
    let b = floor_to(x, diff as nat) + h + max_val as int;
    let total = q as int * p + h + max_val as int;
    assert(total == 65536 * 65536 + b);
    lemma_mod_multiples_vanish(65536, b, 65536);
    let t: u64 = ((q << d) + (1u64 << ((diff - 1) as u64)) + max_val as u64) as u64;
    assert(t as int == total);
    assert(t as u16 == t % 65536) by (bit_vector);
}

/// Snapping a key to its voxel at some depth is idempotent: a key already
/// snapped stays where it is.
pub proof fn law_adjust_axis_idempotent(key: u16, max_val: u32, diff: nat)
    requires
        diff <= MAX_TREE_DEPTH,
    ensures
        spec_adjust_axis(spec_adjust_axis(key, max_val, diff), max_val, diff) == spec_adjust_axis(
            key,
            max_val,
            diff,
        ),
{
    if diff > 0 {
        let p = pow2(diff) as int;
        let h = pow2((diff - 1) as nat) as int;
        lemma_pow2_pos(diff);
        lemma_pow2_pos((diff - 1) as nat);
        lemma_pow2_adds((diff - 1) as nat, 1);
        vstd::arithmetic::power2::lemma2_to64();
        assert(p == 2 * h);
        lemma_pow2_adds(diff, (16 - diff) as nat);
        let m = pow2((16 - diff) as nat) as int;
        assert(65536 == p * m);
        let x = key as int - max_val as int;
        let q = x / p;
        let f = floor_to(x, diff);
        assert(f == q * p);
        let s = f + h + max_val as int;
        let y = spec_adjust_axis(key, max_val, diff);
        let k = s / 65536;
        lemma_fundamental_div_mod(s, 65536);
        assert(y as int == s % 65536);
        assert(y as int - max_val as int == (q - k * m) * p + h) by (nonlinear_arith)
            requires
                y as int == s % 65536,
                s == 65536 * k + s % 65536,
                s == q * p + h + max_val as int,
                65536 == p * m,
        ;
        lemma_fundamental_div_mod_converse(y as int - max_val as int, p, q - k * m, h);
        let f2 = floor_to(y as int - max_val as int, diff);
        assert(f2 == (q - k * m) * p);
        assert(f2 + h + max_val as int == 65536 * (-k) + s) by (nonlinear_arith)
            requires
                f2 == (q - k * m) * p,
                s == q * p + h + max_val as int,
                65536 == p * m,
        ;
        lemma_mod_multiples_vanish(-k, s, 65536);
    }
}

/// Snapping a whole key to its voxel at `depth` is idempotent.
pub proof fn law_adjust_key_idempotent(g: KeyGeometry, key: OcTreeKey, depth: u32)
    requires
        g.wf(),
        depth <= g.spec_tree_depth(),
    ensures
        spec_adjust_key(g, spec_adjust_key(g, key, depth), depth) == spec_adjust_key(g, key, depth),
{
    let diff = (g.spec_tree_depth() - depth) as nat;
    law_adjust_axis_idempotent(key.k[0], g.spec_tree_max_val(), diff);
    law_adjust_axis_idempotent(key.k[1], g.spec_tree_max_val(), diff);
    law_adjust_axis_idempotent(key.k[2], g.spec_tree_max_val(), diff);
    assert(spec_adjust_key(g, spec_adjust_key(g, key, depth), depth).k =~= spec_adjust_key(
        g,
        key,
        depth,
    ).k);
}

/// One axis of a bottom-level key for a coordinate `offset` voxels from the
/// origin (counted from the voxel the origin is in, rounded down), wrapped
/// into the 16-bit key range.
pub open spec fn spec_key_from_offset(offset: int, max_val: u32) -> u16 {
    ((offset + max_val) % 65536) as u16
}

/// One axis of the key, at `diff` levels above the bottom, of the voxel that
/// holds a coordinate `offset` voxels from the origin: the offset rounded
/// down to a block of `2^diff`, moved to the block's middle, and wrapped.
pub open spec fn spec_key_from_offset_at(offset: int, max_val: u32, diff: nat) -> u16 {
    if diff == 0 {
        spec_key_from_offset(offset, max_val)
    } else {
        ((floor_to(offset, diff) + pow2((diff - 1) as nat) + max_val) % 65536) as u16
    }
}

/// `x` modulo the key range, in `0..65536`.
fn wrap_offset(x: i64) -> (r: u32)
    ensures
        r == x % 65536,
        r < 65536,
{
    let m: i64 = x % 65536;
    let m2: i64 = if m < 0 {
        m + 65536
    } else {
        m
    };
    m2 as u32
}

impl KeyGeometry {
    /// One axis of the key of a coordinate `offset` voxels from the origin,
    /// wrapped into the key range without a bounds check.
    pub fn key_from_offset(&self, offset: i64) -> (k: KeyScalar)
        ensures
            k == spec_key_from_offset(offset as int, self.spec_tree_max_val()),
    {
        let m = wrap_offset(offset);
        let mv = self.tree_max_val % 65536;
        proof {
            lemma_mod_sum(offset as int, self.tree_max_val as int);
        }
        ((m + mv) % 65536) as u16
    }

    /// One axis of the key of a coordinate `offset` voxels from the origin,
    /// or `None` when it lies outside the addressable volume.
    pub fn checked_key_from_offset(&self, offset: i64) -> (k: Option<KeyScalar>)
        ensures
            k is Some <==> 0 <= offset + self.spec_tree_max_val() < 2 * self.spec_tree_max_val(),
            k matches Some(v) ==> v == spec_key_from_offset(offset as int, self.spec_tree_max_val()),
    {
        let mv = self.tree_max_val as i64;
        if offset >= -mv && offset < mv {
            Some(self.key_from_offset(offset))
        } else {
            None
        }
    }

    /// One axis of the key, at `depth`, of the voxel holding a coordinate
    /// `offset` voxels from the origin, wrapped without a bounds check.
    pub fn key_from_offset_at_depth(&self, offset: i64, depth: u32) -> (r: Result<
        KeyScalar,
        InvalidDepth,
    >)
        requires
            self.wf(),
        ensures
            r is Ok <==> depth <= self.spec_tree_depth(),
            r matches Err(e) ==> e == (InvalidDepth { got: depth, tree_depth: self.spec_tree_depth() }),
            r matches Ok(v) ==> v == spec_key_from_offset_at(
                offset as int,
                self.spec_tree_max_val(),
                (self.spec_tree_depth() - depth) as nat,
            ),
    {
        self.validate_depth(depth)?;
        let diff = self.tree_depth - depth;
        let key = self.key_from_offset(offset);
        if diff == 0 {
            return Ok(key);
        }
        proof {
            law_offset_then_adjust(offset as int, self.tree_max_val, diff as nat);
        }
        Ok(snap_axis(key, self.tree_max_val, diff))
    }
}

/// `(x + y) % 65536` from the two remainders.
proof fn lemma_mod_sum(x: int, y: int)
    ensures
        ((x % 65536) + (y % 65536)) % 65536 == (x + y) % 65536,
{
    vstd::arithmetic::div_mod::lemma_add_mod_noop(x, y, 65536);
}

/// Taking the key of a coordinate at some depth is the same as taking its
/// bottom-level key and snapping that to the depth.
pub proof fn law_offset_then_adjust(offset: int, max_val: u32, diff: nat)
    requires
        diff <= MAX_TREE_DEPTH,
    ensures
        spec_key_from_offset_at(offset, max_val, diff) == spec_adjust_axis(
            spec_key_from_offset(offset, max_val),
            max_val,
            diff,
        ),
{
    if diff > 0 {
        let p = pow2(diff) as int;
        let h = pow2((diff - 1) as nat) as int;
        lemma_pow2_pos(diff);
        lemma_pow2_adds(diff, (16 - diff) as nat);
        vstd::arithmetic::power2::lemma2_to64();
        let m = pow2((16 - diff) as nat) as int;
        assert(65536 == p * m);
        let s = offset + max_val as int;
        let key = spec_key_from_offset(offset, max_val);
        let k = s / 65536;
        lemma_fundamental_div_mod(s, 65536);
        assert(key as int == s % 65536);
        let q = offset / p;
        lemma_fundamental_div_mod(offset, p);
        let x = key as int - max_val as int;
        assert(x == (q - k * m) * p + offset % p) by (nonlinear_arith)
            requires
                x == key as int - max_val as int,
                key as int == s % 65536,
                s == 65536 * k + s % 65536,
                s == offset + max_val as int,
                offset == p * q + offset % p,
                65536 == p * m,
        ;
        lemma_fundamental_div_mod_converse(x, p, q - k * m, offset % p);
        let f = floor_to(offset, diff);
        let f2 = floor_to(x, diff);
        assert(f2 + h + max_val as int == 65536 * (-k) + (f + h + max_val as int)) by (nonlinear_arith)
            requires
                f2 == (q - k * m) * p,
                f == q * p,
                65536 == p * m,
        ;
        lemma_mod_multiples_vanish(-k, f + h + max_val as int, 65536);
    }
}

} // verus!
