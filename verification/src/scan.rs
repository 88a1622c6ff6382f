//! The voxels one scan touches.
//!
//! Integrating a scan frees every voxel a ray crosses and occupies every
//! voxel a ray ends in. Collected over the whole scan, each voxel is listed
//! once, and a voxel that is both crossed by one ray and the end of another
//! counts as occupied only: the two sets are disjoint.

use vstd::prelude::*;
use std::collections::HashSet;
use crate::key::OcTreeKey;

verus! {

broadcast use {vstd::std_specs::hash::group_hash_axioms, vstd::seq_lib::group_to_multiset_ensures};

/// A key as one integer: x in bits 32..48, y in bits 16..32, z in bits 0..16.
pub open spec fn spec_pack(k: OcTreeKey) -> u64 {
    (k.k[0] as u64 * 0x1_0000_0000 + k.k[1] as u64 * 0x1_0000 + k.k[2] as u64) as u64
}

/// Packs a key into one integer, for hashing.
pub fn pack(k: &OcTreeKey) -> (r: u64)
    ensures
        r == spec_pack(*k),
{
    k.k[0] as u64 * 0x1_0000_0000 + k.k[1] as u64 * 0x1_0000 + k.k[2] as u64
}

/// Different keys pack to different integers.
pub proof fn lemma_pack_injective(a: OcTreeKey, b: OcTreeKey)
    ensures
        spec_pack(a) == spec_pack(b) ==> a == b,
{
    if spec_pack(a) == spec_pack(b) {
        let (a0, a1, a2) = (a.k[0] as int, a.k[1] as int, a.k[2] as int);
        let (b0, b1, b2) = (b.k[0] as int, b.k[1] as int, b.k[2] as int);
        assert(a0 * 0x1_0000_0000 + a1 * 0x1_0000 + a2 == b0 * 0x1_0000_0000 + b1 * 0x1_0000 + b2);
        assert(a2 == b2 && a1 == b1 && a0 == b0) by (nonlinear_arith)
            requires
                a0 * 0x1_0000_0000 + a1 * 0x1_0000 + a2 == b0 * 0x1_0000_0000 + b1 * 0x1_0000 + b2,
                0 <= a0 < 0x1_0000,
                0 <= a1 < 0x1_0000,
                0 <= a2 < 0x1_0000,
                0 <= b0 < 0x1_0000,
                0 <= b1 < 0x1_0000,
                0 <= b2 < 0x1_0000,
        ;
        assert(a.k =~= b.k);
    }
}

/// The packed forms of a sequence of keys.
pub open spec fn packs(s: Seq<OcTreeKey>) -> Set<u64> {
    Set::new(|p: u64| exists|i: int| 0 <= i < s.len() && spec_pack(s[i]) == p)
}

/// A voxel list paired with the set of its packed keys.
struct KeyList {
    keys: Vec<OcTreeKey>,
    seen: HashSet<u64>,
}

impl KeyList {
    spec fn wf(&self) -> bool {
        &&& self.keys@.no_duplicates()
        &&& self.seen@ == packs(self.keys@)
    }

    fn new() -> (l: Self)
        ensures
            l.wf(),
            l.keys@ == Seq::<OcTreeKey>::empty(),
    {
        let l = KeyList { keys: Vec::new(), seen: HashSet::new() };
        assert(l.seen@ =~= packs(l.keys@));
        l
    }

    fn contains(&self, key: &OcTreeKey) -> (r: bool)
        requires
            self.wf(),
        ensures
            r == self.keys@.contains(*key),
    {
        let p = pack(key);
        let r = self.seen.contains(&p);
        proof {
            if r {
                let i = choose|i: int| 0 <= i < self.keys@.len() && spec_pack(self.keys@[i]) == p;
                lemma_pack_injective(self.keys@[i], *key);
            }
            if self.keys@.contains(*key) {
                let i = choose|i: int| 0 <= i < self.keys@.len() && self.keys@[i] == *key;
                assert(packs(self.keys@).contains(p));
            }
        }
        r
    }

    fn add(&mut self, key: OcTreeKey)
        requires
            old(self).wf(),
        ensures
            final(self).wf(),
            final(self).keys@.to_set() == old(self).keys@.to_set().insert(key),
            old(self).keys@.contains(key) ==> final(self).keys@ == old(self).keys@,
            !old(self).keys@.contains(key) ==> final(self).keys@ == old(self).keys@.push(key),
    {
        if self.contains(&key) {
            proof {
                assert(old(self).keys@.to_set().insert(key) =~= old(self).keys@.to_set());
            }
            return;
        }
        let p = pack(&key);
        self.seen.insert(p);
        self.keys.push(key);
        proof {
            let s = self.keys@;
            assert(s.last() == key);
            assert(self.seen@ =~= packs(s)) by {
                assert forall|q: u64| self.seen@.contains(q) implies packs(s).contains(q) by {
                    if q == p {
                        assert(spec_pack(s[s.len() - 1]) == q);
                    } else {
                        let i = choose|i: int|
                            0 <= i < old(self).keys@.len() && spec_pack(old(self).keys@[i]) == q;
                        assert(s[i] == old(self).keys@[i]);
                    }
                }
                assert forall|q: u64| packs(s).contains(q) implies self.seen@.contains(q) by {
                    let i = choose|i: int| 0 <= i < s.len() && spec_pack(s[i]) == q;
                    if i < s.len() - 1 {
                        assert(old(self).keys@[i] == s[i]);
                        assert(packs(old(self).keys@).contains(q));
                    }
                }
            }
            assert(s.to_set() =~= old(self).keys@.to_set().insert(key)) by {
                assert forall|x: OcTreeKey| s.to_set().contains(x) implies old(self).keys@.to_set().insert(key).contains(x) by {
                    let i = choose|i: int| 0 <= i < s.len() && s[i] == x;
                    if i < s.len() - 1 {
                        assert(old(self).keys@[i] == x);
                    }
                }
                assert forall|x: OcTreeKey| old(self).keys@.to_set().insert(key).contains(x) implies s.to_set().contains(x) by {
                    if x == key {
                        assert(s[s.len() - 1] == x);
                    } else {
                        let i = choose|i: int| 0 <= i < old(self).keys@.len() && old(self).keys@[i] == x;
                        assert(s[i] == x);
                    }
                }
            }
        }
    }
}

/// The voxels a scan frees and occupies, collected ray by ray.
pub struct ScanUpdate {
    free: KeyList,
    occupied: KeyList,
}

impl ScanUpdate {
    /// Voxels some ray crossed so far.
    pub closed spec fn crossed(&self) -> Set<OcTreeKey> {
        self.free.keys@.to_set()
    }

    /// Voxels some ray ended in so far.
    pub closed spec fn ended(&self) -> Set<OcTreeKey> {
        self.occupied.keys@.to_set()
    }

    /// The two key lists and their hash sets agree.
    pub closed spec fn wf(&self) -> bool {
        self.free.wf() && self.occupied.wf()
    }

    /// Nothing collected yet.
    pub fn new() -> (u: Self)
        ensures
            u.wf(),
            u.crossed() == Set::<OcTreeKey>::empty(),
            u.ended() == Set::<OcTreeKey>::empty(),
    {
        let u = ScanUpdate { free: KeyList::new(), occupied: KeyList::new() };
        assert(u.crossed() =~= Set::<OcTreeKey>::empty());
        assert(u.ended() =~= Set::<OcTreeKey>::empty());
        u
    }

    /// Records the voxels one ray crossed.
    pub fn add_crossed(&mut self, keys: &[OcTreeKey])
        requires
            old(self).wf(),
        ensures
            final(self).wf(),
            final(self).crossed() == old(self).crossed() + keys@.to_set(),
            final(self).ended() == old(self).ended(),
    {
        let mut i: usize = 0;
        while i < keys.len()
            invariant
                i <= keys@.len(),
                self.wf(),
                self.crossed() == old(self).crossed() + keys@.subrange(0, i as int).to_set(),
                self.ended() == old(self).ended(),
            decreases keys@.len() - i,
        {
            let ghost before = self.crossed();
            self.free.add(keys[i]);
            proof {
                assert(keys@.subrange(0, i + 1).to_set() =~= keys@.subrange(0, i as int).to_set().insert(
                    keys@[i as int],
                )) by {
                    assert(keys@.subrange(0, i + 1) =~= keys@.subrange(0, i as int).push(keys@[i as int]));
                    keys@.subrange(0, i as int).lemma_push_to_set_commute(keys@[i as int]);
                }
                assert(self.crossed() =~= old(self).crossed() + keys@.subrange(0, i + 1).to_set());
            }
            i += 1;
        }
        proof {
            assert(keys@.subrange(0, keys@.len() as int) =~= keys@);
        }
    }

    /// Records the voxel a ray ended in.
    pub fn add_ended(&mut self, key: OcTreeKey)
        requires
            old(self).wf(),
        ensures
            final(self).wf(),
            final(self).ended() == old(self).ended().insert(key),
            final(self).crossed() == old(self).crossed(),
    {
        self.occupied.add(key);
    }

    /// The voxels to free and the voxels to occupy, each listed once: every
    /// crossed voxel that no ray ended in, and every voxel a ray ended in.
    pub fn finish(self) -> (r: (Vec<OcTreeKey>, Vec<OcTreeKey>))
        requires
            self.wf(),
        ensures
            r.0@.no_duplicates(),
            r.1@.no_duplicates(),
            r.0@.to_set() == self.crossed().difference(self.ended()),
            r.1@.to_set() == self.ended(),
    {
        let free = &self.free.keys;
        let mut out: Vec<OcTreeKey> = Vec::new();
        let mut i: usize = 0;
        while i < free.len()
            invariant
                i <= free@.len(),
                self.wf(),
                free@ == self.free.keys@,
                out@.no_duplicates(),
                out@.to_set() == free@.subrange(0, i as int).to_set().difference(self.ended()),
                forall|x: OcTreeKey| out@.contains(x) ==> free@.subrange(0, i as int).contains(x),
            decreases free@.len() - i,
        {
            let k = free[i];
            let ghost pre = free@.subrange(0, i as int);
            let ghost next = free@.subrange(0, i + 1);
            proof {
                assert(next =~= pre.push(k));
                pre.lemma_push_to_set_commute(k);
                assert(!pre.contains(k)) by {
                    if pre.contains(k) {
                        let j = choose|j: int| 0 <= j < pre.len() && pre[j] == k;
                        assert(free@[j] == free@[i as int]);
                    }
                }
            }
            if !self.occupied.contains(&k) {
                let ghost o = out@;
                out.push(k);
                proof {
                    assert(!o.contains(k));
                    assert(out@ =~= o.push(k));
                    o.lemma_push_to_set_commute(k);
                    assert forall|a: int, b: int| 0 <= a < b < out@.len() implies out@[a] != out@[b] by {
                        if b == out@.len() - 1 {
                            assert(o.contains(out@[a]) || a == b);
                        }
                    }
                    assert forall|x: OcTreeKey| out@.contains(x) implies next.contains(x) by {
                        if x != k {
                            assert(o.contains(x));
                            let j = choose|j: int| 0 <= j < pre.len() && pre[j] == x;
                            assert(next[j] == x);
                        } else {
                            assert(next[i as int] == x);
                        }
                    }
                }
            } else {
                proof {
                    assert forall|x: OcTreeKey| out@.contains(x) implies next.contains(x) by {
                        let j = choose|j: int| 0 <= j < pre.len() && pre[j] == x;
                        assert(next[j] == x);
                    }
                }
            }
            proof {
                assert(out@.to_set() =~= next.to_set().difference(self.ended()));
            }
            i += 1;
        }
        proof {
            assert(free@.subrange(0, free@.len() as int) =~= free@);
        }
        (out, self.occupied.keys)
    }
}

/// The distinct keys of a list, each once.
pub fn distinct_keys(keys: &[OcTreeKey]) -> (r: Vec<OcTreeKey>)
    ensures
        r@.no_duplicates(),
        r@.to_set() == keys@.to_set(),
{
    let mut list = KeyList::new();
    let mut i: usize = 0;
    while i < keys.len()
        invariant
            i <= keys@.len(),
            list.wf(),
            list.keys@.to_set() == keys@.subrange(0, i as int).to_set(),
        decreases keys@.len() - i,
    {
        list.add(keys[i]);
        proof {
            assert(keys@.subrange(0, i + 1) =~= keys@.subrange(0, i as int).push(keys@[i as int]));
            keys@.subrange(0, i as int).lemma_push_to_set_commute(keys@[i as int]);
        }
        i += 1;
    }
    proof {
        assert(keys@.subrange(0, keys@.len() as int) =~= keys@);
    }
    list.keys
}

/// The voxels a scan frees and those it occupies never overlap, and
/// together they are every voxel the scan touched.
pub proof fn law_scan_sets_partition(crossed: Set<OcTreeKey>, ended: Set<OcTreeKey>)
    ensures
        crossed.difference(ended).disjoint(ended),
        crossed.difference(ended) + ended == crossed + ended,
{
    assert(crossed.difference(ended) + ended =~= crossed + ended);
}

} // verus!
