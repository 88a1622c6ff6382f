//! Discrete voxel addressing.
//!
//! A key is the index of a voxel counted from the corner of the addressable
//! volume, one `u16` per axis. The world origin sits at `tree_max_val`
//! (32768 for the stock depth of 16) so that it lands mid-range.

use vstd::prelude::*;
use vstd::std_specs::iter::IteratorSpec;
use vstd::arithmetic::power2::{pow2, lemma_pow2_pos};
use vstd::bits::{lemma_u32_shr_is_div, lemma_u32_shl_is_mul, lemma_u32_pow2_no_overflow};
use vstd::arithmetic::div_mod::lemma_fundamental_div_mod;

verus! {

/// Scalar type of a single key axis.
pub type KeyScalar = u16;

/// The discrete address of a voxel.
#[derive(Debug, Clone, Copy, Eq, Hash, PartialOrd, Ord)]
pub struct OcTreeKey {
    /// Per-axis voxel indices, in `[x, y, z]` order.
    pub k: [KeyScalar; 3],
}

impl PartialEq for OcTreeKey {
    fn eq(&self, other: &Self) -> (r: bool) {
        let r = self.k[0] == other.k[0] && self.k[1] == other.k[1] && self.k[2] == other.k[2];
        proof {
            if r {
                assert(self.k =~= other.k);
            }
        }
        r
    }
}

impl vstd::std_specs::cmp::PartialEqSpecImpl for OcTreeKey {
    open spec fn obeys_eq_spec() -> bool {
        true
    }

    open spec fn eq_spec(&self, other: &Self) -> bool {
        *self == *other
    }
}

/// Whether bit `level` of `v` is set, stated arithmetically.
pub open spec fn axis_bit(v: u16, level: u32) -> bool {
    (v as int / pow2(level as nat) as int) % 2 == 1
}

/// `v` rounded down to a multiple of `2^level`.
pub open spec fn round_down(v: u16, level: u32) -> int {
    (v as int / pow2(level as nat) as int) * pow2(level as nat) as int
}

/// Child slot selected by the three axis bits at `level`.
pub open spec fn spec_child_index(key: OcTreeKey, level: u32) -> int {
    (if axis_bit(key.k[0], level) { 1int } else { 0int })
        + (if axis_bit(key.k[1], level) { 2int } else { 0int })
        + (if axis_bit(key.k[2], level) { 4int } else { 0int })
}

/// One axis of a child key: half an extent up on the selected side, half an
/// extent (and one more when the extent is zero) down on the other, modulo
/// the 16-bit key range.
pub open spec fn spec_child_axis(selected: bool, offset: u16, parent: u16) -> u16 {
    if selected {
        ((parent + offset) % 65536) as u16
    } else {
        ((parent - offset - (if offset == 0 { 1int } else { 0int })) % 65536) as u16
    }
}

/// The key of child `pos` of `parent`, with `offset` half the child extent.
pub open spec fn spec_child_key(pos: u8, offset: u16, parent: OcTreeKey) -> OcTreeKey {
    OcTreeKey {
        k: [
            spec_child_axis(pos % 2 == 1, offset, parent.k[0]),
            spec_child_axis((pos / 2) % 2 == 1, offset, parent.k[1]),
            spec_child_axis((pos / 4) % 2 == 1, offset, parent.k[2]),
        ],
    }
}

/// The key shared by every voxel that collapses together at `level`.
pub open spec fn spec_index_key(level: u32, key: OcTreeKey) -> OcTreeKey {
    OcTreeKey {
        k: [
            round_down(key.k[0], level) as u16,
            round_down(key.k[1], level) as u16,
            round_down(key.k[2], level) as u16,
        ],
    }
}

/// The classic octree key hash: `k0 + 1447 k1 + 345637 k2`.
pub open spec fn spec_key_hash(key: OcTreeKey) -> int {
    key.k[0] as int + 1447 * key.k[1] as int + 345_637 * key.k[2] as int
}

impl OcTreeKey {
    /// Builds a key from its three axis indices.
    pub fn new(x: KeyScalar, y: KeyScalar, z: KeyScalar) -> (key: Self)
        ensures
            key.k[0] == x,
            key.k[1] == y,
            key.k[2] == z,
    {
        OcTreeKey { k: [x, y, z] }
    }

    /// Index along the x axis.
    pub fn x(&self) -> (r: KeyScalar)
        ensures
            r == self.k[0],
    {
        self.k[0]
    }

    /// Index along the y axis.
    pub fn y(&self) -> (r: KeyScalar)
        ensures
            r == self.k[1],
    {
        self.k[1]
    }

    /// Index along the z axis.
    pub fn z(&self) -> (r: KeyScalar)
        ensures
            r == self.k[2],
    {
        self.k[2]
    }

    /// The classic octree key hash, `k0 + 1447 k1 + 345637 k2`, that hashed key
    /// sets of map files and tools are built on.
    pub fn reference_hash(&self) -> (h: u64)
        ensures
            h == spec_key_hash(*self),
    {
        self.k[0] as u64 + 1447 * self.k[1] as u64 + 345_637 * self.k[2] as u64
    }
}

proof fn lemma_bit_test(v: u16, level: u32)
    requires
        level < 32,
    ensures
        ((v as u32) & (1u32 << level) != 0) == axis_bit(v, level),
{
    let w = v as u32;
    assert(((w & (1u32 << level)) != 0) == (((w >> level) % 2) == 1)) by (bit_vector)
        requires
            level < 32,
    ;
    lemma_u32_shr_is_div(w, level);
}

/// Child index (0..=7) selected by `key` at the given depth-from-bottom.
pub fn compute_child_index(key: &OcTreeKey, depth: u32) -> (pos: u8)
    requires
        depth < 32,
    ensures
        pos == spec_child_index(*key, depth),
        pos < 8,
{
    proof {
        lemma_bit_test(key.k[0], depth);
        lemma_bit_test(key.k[1], depth);
        lemma_bit_test(key.k[2], depth);
    }
    let bit = 1u32 << depth;
    let mut pos = 0u8;
    if key.k[0] as u32 & bit != 0 {
        pos += 1;
    }
    if key.k[1] as u32 & bit != 0 {
        pos += 2;
    }
    if key.k[2] as u32 & bit != 0 {
        pos += 4;
    }
    pos
}

fn child_axis(selected: bool, offset: KeyScalar, parent: KeyScalar) -> (r: KeyScalar)
    ensures
        r == spec_child_axis(selected, offset, parent),
{
    if selected {
        parent.wrapping_add(offset)
    } else {
        let extra: KeyScalar = if offset != 0 { 0 } else { 1 };
        parent.wrapping_sub(offset).wrapping_sub(extra)
    }
}

/// Key of child `pos` while descending the tree.
///
/// `center_offset_key` is half the child's extent in key units. When it is
/// zero (the bottom of the tree) the negative side subtracts one more, so the
/// two halves still get distinct keys.
pub fn compute_child_key(pos: u8, center_offset_key: KeyScalar, parent: &OcTreeKey) -> (key: OcTreeKey)
    ensures
        key == spec_child_key(pos, center_offset_key, *parent),
{
    assert((pos & 1 != 0) == (pos % 2 == 1)) by (bit_vector);
    assert((pos & 2 != 0) == ((pos / 2) % 2 == 1)) by (bit_vector);
    assert((pos & 4 != 0) == ((pos / 4) % 2 == 1)) by (bit_vector);
    let x = child_axis(pos & 1 != 0, center_offset_key, parent.k[0]);
    let y = child_axis(pos & 2 != 0, center_offset_key, parent.k[1]);
    let z = child_axis(pos & 4 != 0, center_offset_key, parent.k[2]);
    let key = OcTreeKey::new(x, y, z);
    assert(key.k =~= spec_child_key(pos, center_offset_key, *parent).k);
    key
}

/// `v` is the center of a node on the axis, where the node's children are
/// told apart by bit `level`: that bit is set and every lower bit is clear.
pub open spec fn is_center_axis(v: u16, level: u32) -> bool {
    (v as u32) % (1u32 << (level + 1)) == (1u32 << level)
}

/// Half the extent, in key units, of a child of a node whose children are
/// told apart by bit `level`; zero at the bottom of the tree.
pub open spec fn half_extent(level: u32) -> u16 {
    if level == 0 {
        0
    } else {
        (1u32 << ((level - 1) as u32)) as u16
    }
}

/// How far a child key lies from its parent on one axis: the offset up on
/// the selected side, the offset (at least one) down on the other.
pub open spec fn child_step(selected: bool, offset: u16) -> int {
    if selected {
        offset as int
    } else if offset == 0 {
        -1
    } else {
        -(offset as int)
    }
}

proof fn lemma_center_axis_child(v: u16, level: u32, selected: bool)
    requires
        level < 16,
        is_center_axis(v, level),
    ensures
        spec_child_axis(selected, half_extent(level), v) as int == v + child_step(
            selected,
            half_extent(level),
        ),
        axis_bit(spec_child_axis(selected, half_extent(level), v), level) == selected,
{
    let w = v as u32;
    let off = half_extent(level);
    let o = off as u32;
    if level == 0 {
        assert(w >= 1 && (w & (1u32 << level)) != 0 && (((w - 1) as u32) & (1u32 << level)) == 0)
            by (bit_vector)
            requires
                w < 65536,
                level == 0,
                w % (1u32 << (level + 1)) == (1u32 << level),
        ;
    } else {
        let lm = (level - 1) as u32;
        assert(w + o < 65536 && w >= o && ((((w + o) as u32) & (1u32 << level)) != 0) && ((((w
            - o) as u32) & (1u32 << level)) == 0)) by (bit_vector)
            requires
                w < 65536,
                1 <= level < 16,
                lm + 1 == level,
                w % (1u32 << (level + 1)) == (1u32 << level),
                o == ((1u32 << lm) as u16) as u32,
        ;
    }
    let c = spec_child_axis(selected, off, v);
    if selected {
        assert(c as int == w + o);
    } else {
        assert(c as int == w - o - (if o == 0 { 1int } else { 0int }));
    }
    lemma_bit_test(c, level);
}

/// Descending from the center key of a node whose children are told apart
/// by key bit `level`, with half the child extent as the offset, reaches
/// child `pos`: the child key selects `pos` again at that level, and on
/// no axis does the step wrap around the key range.
pub proof fn law_child_key_selects_pos(pos: u8, level: u32, parent: OcTreeKey)
    requires
        level < 16,
        pos < 8,
        is_center_axis(parent.k[0], level),
        is_center_axis(parent.k[1], level),
        is_center_axis(parent.k[2], level),
    ensures
        spec_child_index(spec_child_key(pos, half_extent(level), parent), level) == pos,
        spec_child_key(pos, half_extent(level), parent).k[0] == parent.k[0] + child_step(
            pos % 2 == 1,
            half_extent(level),
        ),
        spec_child_key(pos, half_extent(level), parent).k[1] == parent.k[1] + child_step(
            (pos / 2) % 2 == 1,
            half_extent(level),
        ),
        spec_child_key(pos, half_extent(level), parent).k[2] == parent.k[2] + child_step(
            (pos / 4) % 2 == 1,
            half_extent(level),
        ),
{
    lemma_center_axis_child(parent.k[0], level, pos % 2 == 1);
    lemma_center_axis_child(parent.k[1], level, (pos / 2) % 2 == 1);
    lemma_center_axis_child(parent.k[2], level, (pos / 4) % 2 == 1);
}

proof fn lemma_mask_rounds_down(v: u16, level: u32)
    requires
        level < 32,
    ensures
        ((v as u32) & (0xffffu32 << level)) as u16 == round_down(v, level),
        0 <= round_down(v, level) <= v,
{
    let w = v as u32;
    assert((w & (0xffffu32 << level)) == ((w >> level) << level)) by (bit_vector)
        requires
            w < 65536,
            level < 32,
    ;
    lemma_u32_shr_is_div(w, level);
    lemma_pow2_pos(level as nat);
    lemma_u32_pow2_no_overflow(level as nat);
    let p = pow2(level as nat) as int;
    let q = w as int / p;
    lemma_fundamental_div_mod(w as int, p);
    assert(0 <= q * p <= w) by (nonlinear_arith)
        requires
            q == w as int / p,
            p > 0,
            w as int == p * q + w as int % p,
            0 <= w as int % p,
            w >= 0,
    ;
    lemma_u32_shl_is_mul((w >> level), level);
}

fn mask_axis(v: KeyScalar, level: u32) -> (r: KeyScalar)
    requires
        level < 32,
    ensures
        r == round_down(v, level),
{
    proof {
        lemma_mask_rounds_down(v, level);
    }
    let mask = 0xffffu32 << level;
    (v as u32 & mask) as u16
}

/// Canonical key shared by every voxel that collapses together at `level`.
///
/// `level` counts up from the bottom of the tree, so `level == 0` is the
/// finest resolution and returns the key unchanged.
pub fn compute_index_key(level: u32, key: &OcTreeKey) -> (r: OcTreeKey)
    requires
        level < 32,
    ensures
        r == spec_index_key(level, *key),
        level == 0 ==> r == *key,
{
    if level == 0 {
        proof {
            vstd::arithmetic::power2::lemma2_to64();
        }
        assert(key.k =~= spec_index_key(level, *key).k);
        return *key;
    }
    let r = OcTreeKey::new(
        mask_axis(key.k[0], level),
        mask_axis(key.k[1], level),
        mask_axis(key.k[2], level),
    );
    assert(r.k =~= spec_index_key(level, *key).k);
    r
}

/// Upper bound on the number of keys in a single ray.
pub const KEY_RAY_MAX_SIZE: usize = 100_000;

/// The ordered set of voxels a ray passes through.
#[derive(Debug, Default, Clone, PartialEq)]
pub struct KeyRay {
    keys: Vec<OcTreeKey>,
}

impl View for KeyRay {
    type V = Seq<OcTreeKey>;

    closed spec fn view(&self) -> Seq<OcTreeKey> {
        self.keys@
    }
}

impl KeyRay {
    /// An empty ray with no allocation yet.
    pub fn new() -> (ray: Self)
        ensures
            ray@ == Seq::<OcTreeKey>::empty(),
    {
        KeyRay { keys: Vec::new() }
    }

    /// An empty ray with room for the full bound preallocated.
    pub fn with_reference_capacity() -> (ray: Self)
        ensures
            ray@ == Seq::<OcTreeKey>::empty(),
    {
        KeyRay { keys: Vec::with_capacity(KEY_RAY_MAX_SIZE) }
    }

    /// Appends a key. Returns `false`, without appending, once the ray holds
    /// [`KEY_RAY_MAX_SIZE`] keys.
    pub fn push(&mut self, key: OcTreeKey) -> (pushed: bool)
        ensures
            pushed == (old(self)@.len() < KEY_RAY_MAX_SIZE),
            pushed ==> final(self)@ == old(self)@.push(key),
            !pushed ==> final(self)@ == old(self)@,
    {
        if self.keys.len() >= KEY_RAY_MAX_SIZE {
            return false;
        }
        self.keys.push(key);
        true
    }

    /// Empties the ray.
    pub fn clear(&mut self)
        ensures
            final(self)@ == Seq::<OcTreeKey>::empty(),
    {
        self.keys.clear();
    }

    /// Number of keys currently in the ray.
    pub fn len(&self) -> (n: usize)
        ensures
            n == self@.len(),
    {
        self.keys.len()
    }

    /// True when the ray holds no keys.
    pub fn is_empty(&self) -> (b: bool)
        ensures
            b == (self@.len() == 0),
    {
        self.keys.len() == 0
    }

    /// The keys, in traversal order.
    pub fn as_slice(&self) -> (s: &[OcTreeKey])
        ensures
            s@ == self@,
    {
        self.keys.as_slice()
    }

    /// Iterates the keys in traversal order.
    pub fn iter(&self) -> (it: core::slice::Iter<'_, OcTreeKey>)
        ensures
            it.remaining() == self@.as_ref(),
    {
        self.keys.as_slice().iter()
    }
}

} // verus!
