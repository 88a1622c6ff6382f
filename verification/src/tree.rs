//! The generic octree.
//!
//! This layer stores, finds, deletes, prunes and expands nodes of any value
//! type and knows nothing about probabilities; an occupancy model is built on
//! top of it.
//!
//! # Descent convention
//!
//! A child at depth `d` is selected by bit `tree_depth - 1 - d` of the key,
//! so the root (depth 0) branches on the most significant bit. Every
//! traversal below follows that convention.

use vstd::prelude::*;
use vstd::std_specs::cmp::PartialEqSpec;
use crate::geometry::{spec_adjust_key, InvalidDepth, KeyGeometry, MAX_TREE_DEPTH};
use crate::key::{compute_child_index, spec_child_index, OcTreeKey};
use crate::node::{Node, CHILD_COUNT};

verus! {

/// `v` is a value that `T::default()` can return.
pub open spec fn is_default<T: Default>(v: T) -> bool {
    call_ensures(T::default, (), v)
}

/// Child slot followed at depth `d` of a tree `td` levels deep.
pub open spec fn slot(key: OcTreeKey, td: u32, d: nat) -> int {
    spec_child_index(key, (td - 1 - d) as u32)
}

/// The node a lookup of `key` reaches, starting at `node` on depth `d` and
/// stopping at `depth`.
///
/// A missing child under a node that has other children is a miss. A missing
/// child under a childless node means the key lies inside a pruned leaf,
/// which answers for it.
pub open spec fn descend<T>(node: Node<T>, key: OcTreeKey, td: u32, d: nat, depth: nat) -> Option<
    Node<T>,
>
    decreases depth - d,
{
    if d >= depth {
        Some(node)
    } else {
        match node.spec_child(slot(key, td, d)) {
            Some(c) => descend(c, key, td, d + 1, depth),
            None => if node.spec_has_children() {
                None
            } else {
                Some(node)
            },
        }
    }
}

/// The child in `slot` of an optional node.
pub open spec fn opt_child<T>(n: Option<Node<T>>, slot: int) -> Option<Node<T>> {
    match n {
        Some(n) => n.spec_child(slot),
        None => None,
    }
}

/// `new` is `old` (or, for `None`, a node that did not exist yet) with the
/// path to `key` created from depth `d` down to `depth`, the node reached at
/// `depth` holding `v`.
///
/// Nodes created on the way hold a default value and have no other child;
/// existing nodes keep their value and every child off the path.
pub open spec fn path_set<T: Default>(
    old: Option<Node<T>>,
    new: Node<T>,
    key: OcTreeKey,
    td: u32,
    d: nat,
    depth: nat,
    v: T,
) -> bool
    decreases depth - d,
{
    &&& new.wf()
    &&& if d >= depth {
        &&& new.spec_value() == v
        &&& match old {
            Some(o) => {
                &&& forall|i: int| #[trigger] new.spec_child(i) == o.spec_child(i)
                &&& new.array_allocated() == o.array_allocated()
            },
            None => forall|i: int| #[trigger] new.spec_child(i) is None,
        }
    } else {
        let pos = slot(key, td, d);
        &&& match old {
            Some(o) => new.same_except(o, pos),
            None => {
                &&& is_default(new.spec_value())
                &&& forall|j: int| j != pos ==> #[trigger] new.spec_child(j) is None
            },
        }
        &&& new.spec_child(pos) matches Some(nc) && path_set(
            opt_child(old, pos),
            nc,
            key,
            td,
            d + 1,
            depth,
            v,
        )
    }
}

/// An octree storing a value of type `T` per node.
#[derive(Debug, PartialEq)]
pub struct OctreeCore<T> {
    geometry: KeyGeometry,
    root: Option<Node<T>>,
    tree_size: usize,
}

impl<T> OctreeCore<T> {
    /// The tree's depth constants.
    pub closed spec fn spec_geometry(&self) -> KeyGeometry {
        self.geometry
    }

    /// The root node, if any.
    pub closed spec fn spec_root(&self) -> Option<Node<T>> {
        self.root
    }

    /// The maintained node count.
    pub closed spec fn spec_len(&self) -> usize {
        self.tree_size
    }

    /// Depth of the tree.
    pub open spec fn spec_depth(&self) -> u32 {
        self.spec_geometry().spec_tree_depth()
    }

    /// The geometry is valid, every node is well formed, and the maintained
    /// count is the number of nodes.
    pub open spec fn wf(&self) -> bool {
        &&& self.spec_geometry().wf()
        &&& match self.spec_root() {
            Some(r) => r.wf(),
            None => true,
        }
        &&& self.spec_len() == Node::opt_size(self.spec_root())
    }

    /// The effective depth a `depth` argument names: 0 is the full depth.
    pub open spec fn eff_depth(&self, depth: u32) -> u32 {
        if depth == 0 {
            self.spec_depth()
        } else {
            depth
        }
    }

    /// The node a search for `key` at `depth` finds.
    pub open spec fn spec_search(&self, key: OcTreeKey, depth: u32) -> Option<Node<T>> {
        let eff = self.eff_depth(depth);
        let k = if eff == self.spec_depth() {
            key
        } else {
            spec_adjust_key(self.spec_geometry(), key, eff)
        };
        match self.spec_root() {
            None => None,
            Some(r) => descend(r, k, self.spec_depth(), 0, eff as nat),
        }
    }

    /// The value a full-depth lookup of `key` finds.
    pub open spec fn spec_get(&self, key: OcTreeKey) -> Option<T> {
        match self.spec_search(key, 0) {
            Some(n) => Some(n.spec_value()),
            None => None,
        }
    }

    /// Creates an empty tree from a prepared geometry.
    pub fn with_geometry(geometry: KeyGeometry) -> (t: Self)
        requires
            geometry.wf(),
        ensures
            t.wf(),
            t.spec_geometry() == geometry,
            t.spec_root() is None,
    {
        OctreeCore { geometry, root: None, tree_size: 0 }
    }

    /// The tree's depth constants.
    pub fn geometry(&self) -> (g: &KeyGeometry)
        ensures
            *g == self.spec_geometry(),
    {
        &self.geometry
    }

    /// The root node, or `None` for an empty tree.
    pub fn root(&self) -> (r: Option<&Node<T>>)
        ensures
            match r {
                Some(n) => self.spec_root() == Some(*n),
                None => self.spec_root() is None,
            },
    {
        match &self.root {
            Some(n) => Some(n),
            None => None,
        }
    }

    /// Mutable access to the root node.
    ///
    /// Changing the structure through it leaves the maintained count behind;
    /// [`OctreeCore::set_root`] recomputes it.
    pub fn root_mut(&mut self) -> (r: Option<&mut Node<T>>)
        ensures
            match r {
                Some(n) => {
                    &&& old(self).spec_root() == Some(*n)
                    &&& final(self).spec_root() == Some(*final(n))
                },
                None => {
                    &&& old(self).spec_root() is None
                    &&& final(self).spec_root() is None
                },
            },
            final(self).spec_geometry() == old(self).spec_geometry(),
            final(self).spec_len() == old(self).spec_len(),
    {
        self.root.as_mut()
    }

    /// Number of nodes in the tree, inner nodes included, maintained
    /// incrementally.
    pub fn len(&self) -> (n: usize)
        ensures
            n == self.spec_len(),
    {
        self.tree_size
    }

    /// True when the tree holds no nodes at all.
    pub fn is_empty(&self) -> (b: bool)
        ensures
            b == self.spec_root() is None,
    {
        self.root.is_none()
    }

    /// Recomputes the node count by walking the tree.
    pub fn count_nodes(&self) -> (n: usize)
        requires
            self.wf(),
        ensures
            n == Node::opt_size(self.spec_root()),
            n == self.spec_len(),
    {
        match &self.root {
            None => 0,
            Some(r) => r.subtree_size(),
        }
    }

    /// Number of leaves in the tree.
    pub fn count_leaf_nodes(&self) -> (n: usize)
        requires
            self.wf(),
        ensures
            n == Node::opt_leaves(self.spec_root()),
    {
        match &self.root {
            None => 0,
            Some(r) => {
                proof {
                    r.lemma_leaves_le_size();
                }
                r.leaf_count()
            },
        }
    }

    /// Removes every node.
    pub fn clear(&mut self)
        ensures
            final(self).wf() == old(self).spec_geometry().wf(),
            final(self).spec_geometry() == old(self).spec_geometry(),
            final(self).spec_root() is None,
            final(self).spec_len() == 0,
    {
        self.root = None;
        self.tree_size = 0;
    }

    /// Disjoint mutable access to the geometry, the root, and the node count,
    /// for layers that run their own descent and keep the count themselves.
    pub fn parts_mut(&mut self) -> (r: (&KeyGeometry, &mut Option<Node<T>>, &mut usize))
        ensures
            *r.0 == old(self).spec_geometry(),
            *r.1 == old(self).spec_root(),
            *r.2 == old(self).spec_len(),
            final(self).spec_geometry() == old(self).spec_geometry(),
            final(self).spec_root() == *final(r.1),
            final(self).spec_len() == *final(r.2),
    {
        (&self.geometry, &mut self.root, &mut self.tree_size)
    }

    /// Installs a whole subtree as the root, recomputing the node count.
    pub fn set_root(&mut self, root: Option<Node<T>>)
        requires
            match root {
                Some(r) => r.wf() && r.spec_size() <= usize::MAX,
                None => true,
            },
        ensures
            final(self).spec_geometry() == old(self).spec_geometry(),
            final(self).spec_root() == root,
            final(self).wf() == old(self).spec_geometry().wf(),
    {
        self.tree_size = match &root {
            None => 0,
            Some(r) => r.subtree_size(),
        };
        self.root = root;
    }

    /// Sets the root to a fresh node holding `value`, if the tree is empty.
    ///
    /// Returns `true` when a root was created.
    pub fn ensure_root(&mut self, value: T) -> (created: bool)
        requires
            old(self).wf(),
        ensures
            final(self).wf(),
            final(self).spec_geometry() == old(self).spec_geometry(),
            created == old(self).spec_root() is None,
            created ==> (final(self).spec_root() matches Some(r) && r.is_bare_leaf(value)),
            !created ==> *final(self) == *old(self),
    {
        if self.root.is_some() {
            return false;
        }
        let r = Node::new(value);
        proof {
            r.lemma_wf_facts();
            r.lemma_childless_size();
        }
        self.root = Some(r);
        self.tree_size = 1;
        true
    }

    /// Finds the node addressed by `key`, descending at most `depth` levels.
    ///
    /// `depth` of 0 means the full tree depth. When the descent reaches a
    /// leaf before `depth` (a pruned node covering the key) that leaf is
    /// returned rather than `None`.
    pub fn search_at_depth(&self, key: OcTreeKey, depth: u32) -> (r: Result<
        Option<&Node<T>>,
        InvalidDepth,
    >)
        requires
            self.wf(),
        ensures
            depth > self.spec_depth() ==> r == Err::<Option<&Node<T>>, InvalidDepth>(
                InvalidDepth { got: depth, tree_depth: self.spec_depth() },
            ),
            depth <= self.spec_depth() ==> (r matches Ok(found) && match found {
                Some(n) => self.spec_search(key, depth) == Some(*n),
                None => self.spec_search(key, depth) is None,
            }),
    {
        self.geometry.validate_depth(depth)?;
                let tree_depth = self.geometry.tree_depth();
        let eff = if depth == 0 {
            tree_depth
        } else {
            depth
        };
        let root = match &self.root {
            None => {
                return Ok(None);
            },
            Some(r) => r,
        };
        let key_at_depth = if eff == tree_depth {
            key
        } else {
            match self.geometry.adjust_key_at_depth(key, eff) {
                Ok(k) => k,
                Err(e) => {
                    return Err(e);
                },
            }
        };
        let ghost target = descend(*root, key_at_depth, tree_depth, 0, eff as nat);
        assert(target == self.spec_search(key, depth));
        let mut node = root;
        let mut d: u32 = 0;
        while d < eff
            invariant
                d <= eff <= tree_depth <= MAX_TREE_DEPTH,
                depth <= self.spec_depth(),
                target == self.spec_search(key, depth),
                node.wf(),
                descend(*node, key_at_depth, tree_depth, d as nat, eff as nat) == target,
            decreases eff - d,
        {
            let pos = compute_child_index(&key_at_depth, tree_depth - 1 - d);
            proof {
                node.lemma_wf_facts();
            }
            match node.child(pos) {
                Some(child) => {
                    node = child;
                },
                None => {
                    if node.has_children() {
                        return Ok(None);
                    } else {
                        return Ok(Some(node));
                    }
                },
            }
            d += 1;
        }
        Ok(Some(node))
    }

    /// Finds the leaf-level node addressed by `key`.
    pub fn search(&self, key: OcTreeKey) -> (r: Option<&Node<T>>)
        requires
            self.wf(),
        ensures
            match r {
                Some(n) => self.spec_search(key, 0) == Some(*n),
                None => self.spec_search(key, 0) is None,
            },
    {
        match self.search_at_depth(key, 0) {
            Ok(found) => found,
            Err(_) => None,
        }
    }

    /// The value stored at `key`, if the tree covers it.
    pub fn get(&self, key: OcTreeKey) -> (r: Option<&T>)
        requires
            self.wf(),
        ensures
            match r {
                Some(v) => self.spec_get(key) == Some(*v),
                None => self.spec_get(key) is None,
            },
    {
        match self.search(key) {
            Some(n) => Some(n.value()),
            None => None,
        }
    }
}

/// Descending along a path that `path_set` created reaches the node that
/// holds `v`.
pub proof fn lemma_descend_path_set<T: Default>(
    old: Option<Node<T>>,
    new: Node<T>,
    key: OcTreeKey,
    td: u32,
    d: nat,
    depth: nat,
    v: T,
)
    requires
        path_set(old, new, key, td, d, depth, v),
    ensures
        descend(new, key, td, d, depth) matches Some(n) && n.spec_value() == v,
    decreases depth - d,
{
    if d < depth {
        let pos = slot(key, td, d);
        let nc = new.spec_child(pos).unwrap();
        lemma_descend_path_set(opt_child(old, pos), nc, key, td, d + 1, depth, v);
    }
}

/// A path built over a freshly created default leaf is a path built from
/// nothing.
proof fn lemma_path_set_fresh<T: Default>(leaf: Node<T>, dv: T, key: OcTreeKey, td: u32, d: nat, depth: nat)
    requires
        leaf.is_bare_leaf(dv),
        is_default(dv),
    ensures
        forall|new: Node<T>, v: T|
            #[trigger] path_set(Some(leaf), new, key, td, d, depth, v) ==> path_set(
                None,
                new,
                key,
                td,
                d,
                depth,
                v,
            ),
{
    assert forall|new: Node<T>, v: T| #[trigger]
        path_set(Some(leaf), new, key, td, d, depth, v) implies path_set(
        None,
        new,
        key,
        td,
        d,
        depth,
        v,
    ) by {
        if d < depth {
            let pos = slot(key, td, d);
            assert(opt_child(Some(leaf), pos) == opt_child(None::<Node<T>>, pos));
        }
    }
}

/// Creates the path to `key` below `node` (at depth `d`) down to `depth`,
/// stores `value` there, and hands back a reference to it. `created` counts
/// the nodes made on the way.
fn insert_recurs<'a, T: Default>(
    node: &'a mut Node<T>,
    key: &OcTreeKey,
    td: u32,
    d: u32,
    depth: u32,
    value: T,
    created: &mut usize,
) -> (r: &'a mut T)
    requires
        old(node).wf(),
        d <= depth <= td <= MAX_TREE_DEPTH,
        *old(created) + (depth - d) <= usize::MAX,
    ensures
        *r == value,
        path_set(Some(*old(node)), *final(node), *key, td, d as nat, depth as nat, *final(r)),
        final(node).spec_size() + *old(created) == old(node).spec_size() + *final(created),
        *final(created) <= *old(created) + (depth - d),
    decreases depth - d,
{
    if d >= depth {
        node.set_value(value);
        let r = node.value_mut();
        proof {
            assert forall|a: Node<T>|
                #![trigger a.spec_size()]
                (forall|i: int| #[trigger] a.spec_child(i) == old(node).spec_child(i))
                implies a.spec_size() == old(node).spec_size() by {
                Node::lemma_same_children_size(a, *old(node));
            }
        }
        return r;
    }
    let pos = compute_child_index(key, td - 1 - d);
    let ghost before = *node;
    let ghost mut fresh: Option<T> = None;
    if !node.child_exists(pos) {
        let dv = T::default();
        proof {
            fresh = Some(dv);
        }
        if node.create_child(pos, dv) {
            *created += 1;
        }
    }
    let ghost mid = *node;
    proof {
        Node::lemma_size_replace(mid, before, pos as int);
        mid.lemma_wf_facts();
        Node::<T>::lemma_size_replace_all();
        if let Some(dv) = fresh {
            assert(is_default(dv));
            let c0 = mid.spec_child(pos as int).unwrap();
            c0.lemma_childless_size();
            lemma_path_set_fresh(c0, dv, *key, td, (d + 1) as nat, depth as nat);
        }
    }
    let child = node.child_mut(pos).unwrap();
    insert_recurs(child, key, td, d + 1, depth, value, created)
}

impl<T: Default> OctreeCore<T> {
    /// `self` is `old` with `v` stored at `key` on depth `depth` (0 meaning
    /// the full depth), every node on the way there created if missing.
    pub open spec fn inserted(&self, old: Self, key: OcTreeKey, depth: u32, v: T) -> bool {
        &&& self.wf()
        &&& self.spec_geometry() == old.spec_geometry()
        &&& self.spec_root() matches Some(r) && path_set(
            old.spec_root(),
            r,
            key,
            old.spec_depth(),
            0,
            old.eff_depth(depth) as nat,
            v,
        )
    }
}

impl<T: Clone + Default + PartialEq> OctreeCore<T> {
    /// Stores `value` at `key`, stopping the descent at `depth`, and returns
    /// a mutable reference to the stored value.
    ///
    /// `depth` of 0 means the full tree depth. Intermediate nodes are created
    /// holding `T::default()`.
    pub fn insert_at_depth(&mut self, key: OcTreeKey, depth: u32, value: T) -> (r: Result<
        &mut T,
        InvalidDepth,
    >)
        requires
            old(self).wf(),
            old(self).spec_len() + MAX_TREE_DEPTH + 1 <= usize::MAX,
        ensures
            depth > old(self).spec_depth() ==> {
                &&& r matches Err(e) && e == (InvalidDepth {
                    got: depth,
                    tree_depth: old(self).spec_depth(),
                })
                &&& *final(self) == *old(self)
            },
            depth <= old(self).spec_depth() ==> (r matches Ok(v) && {
                &&& *v == value
                &&& final(self).inserted(*old(self), key, depth, *final(v))
            }),
    {
        if let Err(e) = self.geometry.validate_depth(depth) {
            return Err(e);
        }
        let tree_depth = self.geometry.tree_depth();
        let eff = if depth == 0 {
            tree_depth
        } else {
            depth
        };
        let ghost old_root = self.root;
        let ghost mut fresh: Option<T> = None;
        if self.root.is_none() {
            let dv = T::default();
            proof {
                fresh = Some(dv);
            }
            let n = Node::new(dv);
            proof {
                n.lemma_wf_facts();
                n.lemma_childless_size();
            }
            self.root = Some(n);
            self.tree_size = 1;
        }
        let ghost start = self.root.unwrap();
        let ghost start_len = self.tree_size;
        let mut created: usize = 0;
        proof {
            if let Some(dv) = fresh {
                lemma_path_set_fresh(start, dv, key, tree_depth, 0, eff as nat);
            }
        }
        let root = self.root.as_mut().unwrap();
        let v = insert_recurs(root, &key, tree_depth, 0, eff, value, &mut created);
        self.tree_size = self.tree_size + created;
        Ok(v)
    }

    /// Stores `value` at `key` at full depth and returns a mutable reference
    /// to the stored value.
    pub fn insert(&mut self, key: OcTreeKey, value: T) -> (r: &mut T)
        requires
            old(self).wf(),
            old(self).spec_len() + MAX_TREE_DEPTH + 1 <= usize::MAX,
        ensures
            *r == value,
            final(self).inserted(*old(self), key, 0, *final(r)),
    {
        self.insert_at_depth(key, 0, value).unwrap()
    }
}

/// Storing a value at full depth makes a lookup of the same key find it.
pub proof fn law_get_after_insert<T: Default>(
    before: OctreeCore<T>,
    after: OctreeCore<T>,
    key: OcTreeKey,
    v: T,
)
    requires
        before.wf(),
        after.inserted(before, key, 0, v),
    ensures
        after.spec_get(key) == Some(v),
{
    let r = after.spec_root().unwrap();
    lemma_descend_path_set(before.spec_root(), r, key, before.spec_depth(), 0, before.spec_depth() as nat, v);
}

/// `new` is what deleting `key` down to depth `max` leaves of a pruned leaf
/// holding `v` at depth `d`: the leaf is split into eight children cloned
/// from `v`, and the descent continues into the child on the path, whose
/// own subtree is carved the same way; the child reached at `max` is
/// dropped.
#[verifier::opaque]
pub open spec fn carve<T: Clone>(
    new: Option<Node<T>>,
    v: T,
    key: OcTreeKey,
    td: u32,
    d: nat,
    max: nat,
) -> bool
    decreases max - d,
{
    if d >= max {
        new is None
    } else {
        let pos = slot(key, td, d);
        new matches Some(n) && {
            &&& n.spec_value() == v
            &&& n.array_allocated()
            &&& forall|j: int|
                0 <= j < 8 && j != pos ==> (#[trigger] n.spec_child(j) matches Some(c) && {
                    &&& c.wf()
                    &&& !c.array_allocated()
                    &&& forall|k: int| #[trigger] c.spec_child(k) is None
                    &&& cloned(v, c.spec_value())
                })
            &&& match n.spec_child(pos) {
                None => d + 1 >= max,
                Some(c) => d + 1 < max && cloned(v, c.spec_value()) && carve(
                    Some(c),
                    c.spec_value(),
                    key,
                    td,
                    d + 1,
                    max,
                ),
            }
        }
    }
}

/// `new` is what deleting `key` down to depth `max` makes of `old`, a node at
/// depth `d`; `None` when `old` itself is to be removed by its parent.
///
/// The descent stops, changing nothing, at a missing child of a node that
/// has other children (or of the root). A childless node that is not the
/// root is a pruned block: it is split and carved (see [`carve`]). A node
/// whose last child went is itself removed.
#[verifier::opaque]
pub open spec fn delete_rel<T: Clone>(
    old: Node<T>,
    new: Option<Node<T>>,
    key: OcTreeKey,
    td: u32,
    d: nat,
    max: nat,
    is_root: bool,
) -> bool
    decreases max - d,
{
    if d >= max {
        new is None
    } else {
        let pos = slot(key, td, d);
        match old.spec_child(pos) {
            None => if old.spec_has_children() || is_root {
                new == Some(old)
            } else {
                carve(new, old.spec_value(), key, td, d, max)
            },
            Some(oc) => match new {
                Some(n) => {
                    &&& n.same_except(old, pos)
                    &&& n.spec_has_children()
                    &&& delete_rel(oc, n.spec_child(pos), key, td, d + 1, max, false)
                },
                None => {
                    &&& delete_rel(oc, None, key, td, d + 1, max, false)
                    &&& forall|j: int| j != pos ==> #[trigger] old.spec_child(j) is None
                },
            },
        }
    }
}

/// The descent for `key` from `node` at depth `d` gets down to `max`: every
/// missing child on the way belongs to a childless node other than the
/// root, which is split rather than treated as a miss.
pub open spec fn reaches<T>(
    node: Node<T>,
    key: OcTreeKey,
    td: u32,
    d: nat,
    max: nat,
    is_root: bool,
) -> bool
    decreases max - d,
{
    if d >= max {
        true
    } else {
        match node.spec_child(slot(key, td, d)) {
            Some(c) => reaches(c, key, td, d + 1, max, false),
            None => !node.spec_has_children() && !is_root,
        }
    }
}

/// Deleting at or below the stopping depth removes the node.
proof fn lemma_del_base<T: Clone>(old: Node<T>, key: OcTreeKey, td: u32, d: nat, max: nat, is_root: bool)
    requires
        d >= max,
    ensures
        delete_rel(old, None, key, td, d, max, is_root),
{
    reveal(delete_rel);
}

/// A missing child under a node with other children, or under the root,
/// stops the deletion with nothing changed.
proof fn lemma_del_stop<T: Clone>(old: Node<T>, key: OcTreeKey, td: u32, d: nat, max: nat, is_root: bool)
    requires
        d < max,
        old.spec_child(slot(key, td, d)) is None,
        old.spec_has_children() || is_root,
    ensures
        delete_rel(old, Some(old), key, td, d, max, is_root),
{
    reveal(delete_rel);
}

/// The node on the path survives, with its child replaced by what the
/// deletion below made of it.
proof fn lemma_del_keep<T: Clone>(
    old: Node<T>,
    new: Node<T>,
    key: OcTreeKey,
    td: u32,
    d: nat,
    max: nat,
    is_root: bool,
)
    requires
        d < max,
        old.spec_child(slot(key, td, d)) matches Some(oc) && delete_rel(
            oc,
            new.spec_child(slot(key, td, d)),
            key,
            td,
            d + 1,
            max,
            false,
        ),
        new.same_except(old, slot(key, td, d)),
        new.spec_has_children(),
    ensures
        delete_rel(old, Some(new), key, td, d, max, is_root),
{
    reveal(delete_rel);
}

/// The node on the path loses its only child and goes too.
proof fn lemma_del_drop<T: Clone>(old: Node<T>, key: OcTreeKey, td: u32, d: nat, max: nat, is_root: bool)
    requires
        d < max,
        old.spec_child(slot(key, td, d)) matches Some(oc) && delete_rel(
            oc,
            None,
            key,
            td,
            d + 1,
            max,
            false,
        ),
        forall|j: int| j != slot(key, td, d) ==> #[trigger] old.spec_child(j) is None,
    ensures
        delete_rel(old, None, key, td, d, max, is_root),
{
    reveal(delete_rel);
}

/// A pruned block met on the way is carved.
proof fn lemma_del_split<T: Clone>(
    old: Node<T>,
    new: Node<T>,
    key: OcTreeKey,
    td: u32,
    d: nat,
    max: nat,
    is_root: bool,
)
    requires
        d < max,
        old.spec_child(slot(key, td, d)) is None,
        !old.spec_has_children(),
        !is_root,
        carve(Some(new), old.spec_value(), key, td, d, max),
    ensures
        delete_rel(old, Some(new), key, td, d, max, is_root),
{
    reveal(delete_rel);
}

/// What deleting below a freshly split child (a childless non-root node)
/// yields: nothing at the stopping depth, a carved node above it.
proof fn lemma_del_leaf<T: Clone>(
    leaf: Node<T>,
    new: Option<Node<T>>,
    key: OcTreeKey,
    td: u32,
    d: nat,
    max: nat,
)
    requires
        forall|k: int| #[trigger] leaf.spec_child(k) is None,
        delete_rel(leaf, new, key, td, d, max, false),
    ensures
        d >= max ==> new is None,
        d < max ==> (new matches Some(n) && n.spec_value() == leaf.spec_value() && carve(
            new,
            leaf.spec_value(),
            key,
            td,
            d,
            max,
        )),
{
    reveal(delete_rel);
    if d < max {
        assert(!leaf.spec_has_children());
        reveal(carve);
    }
}

/// One level of carving, given the level below.
proof fn lemma_carve_step<T: Clone>(n: Node<T>, v: T, key: OcTreeKey, td: u32, d: nat, max: nat)
    requires
        d < max,
        n.spec_value() == v,
        n.array_allocated(),
        forall|j: int|
            0 <= j < 8 && j != slot(key, td, d) ==> (#[trigger] n.spec_child(j) matches Some(c) && {
                &&& c.wf()
                &&& !c.array_allocated()
                &&& forall|k: int| #[trigger] c.spec_child(k) is None
                &&& cloned(v, c.spec_value())
            }),
        match n.spec_child(slot(key, td, d)) {
            None => d + 1 >= max,
            Some(c) => d + 1 < max && cloned(v, c.spec_value()) && carve(
                Some(c),
                c.spec_value(),
                key,
                td,
                d + 1,
                max,
            ),
        },
    ensures
        carve(Some(n), v, key, td, d, max),
{
    reveal(carve);
}

/// Node-count bookkeeping threaded through the recursive deletion.
struct Delta {
    created: usize,
    removed: usize,
}

/// Deletes `key` below `node`, a node at depth `depth`; returns `true` when
/// the caller should delete `node` itself.
///
/// A childless non-root node met mid-descent is expanded rather than
/// treated as a miss, which is what makes deleting a single voxel out of a
/// pruned block work.
fn delete_recurs<T: Clone>(
    node: &mut Node<T>,
    depth: u32,
    max_depth: u32,
    key: &OcTreeKey,
    tree_depth: u32,
    is_root: bool,
    delta: &mut Delta,
) -> (drop: bool)
    requires
        old(node).wf(),
        depth <= max_depth <= tree_depth <= MAX_TREE_DEPTH,
        old(delta).created + 8 * (max_depth - depth) <= usize::MAX,
        old(delta).removed + old(node).spec_size() + 8 * (max_depth - depth) <= usize::MAX,
    ensures
        final(node).wf(),
        delete_rel(
            *old(node),
            if drop {
                None
            } else {
                Some(*final(node))
            },
            *key,
            tree_depth,
            depth as nat,
            max_depth as nat,
            is_root,
        ),
        final(node).spec_size() + final(delta).removed + old(delta).created == old(node).spec_size()
            + final(delta).created + old(delta).removed,
        old(delta).created <= final(delta).created <= old(delta).created + 8 * (max_depth - depth),
        old(delta).removed <= final(delta).removed,
        reaches(*old(node), *key, tree_depth, depth as nat, max_depth as nat, is_root) <==> (drop
            || final(delta).removed > old(delta).removed),
        !reaches(*old(node), *key, tree_depth, depth as nat, max_depth as nat, is_root) ==> {
            &&& !drop
            &&& final(delta).created == old(delta).created
            &&& final(delta).removed == old(delta).removed
        },
    decreases max_depth - depth,
{
    if depth >= max_depth {
        proof {
            lemma_del_base(*node, *key, tree_depth, depth as nat, max_depth as nat, is_root);
        }
        return true;
    }
    let pos = compute_child_index(key, tree_depth - 1 - depth);
    proof {
        node.lemma_wf_facts();
    }
    let ghost before = *node;
    let ghost d = depth as nat;
    let ghost max = max_depth as nat;
    let mut split = false;
    if !node.child_exists(pos) {
        if !node.has_children() && !is_root {
            proof {
                node.lemma_childless_size();
            }
            let n = node.expand();
            delta.created = delta.created + n;
            split = true;
            proof {
                node.lemma_wf_facts();
                node.lemma_expanded_size();
            }
        } else {
            proof {
                lemma_del_stop(before, *key, tree_depth, d, max, is_root);
            }
            return false;
        }
    }
    let ghost mid = *node;
    proof {
        mid.lemma_wf_facts();
        mid.lemma_child_size_le(pos as int, 0);
    }
    let child = node.child_mut(pos).unwrap();
    let ghost c0 = *child;
    let drop_child = delete_recurs(child, depth + 1, max_depth, key, tree_depth, false, delta);
    let ghost n2 = *node;
    proof {
        Node::lemma_size_replace(n2, mid, pos as int);
        n2.lemma_wf_facts();
        if split {
            lemma_del_leaf(c0, if drop_child { None } else { Some(n2.spec_child(pos as int).unwrap()) },
                *key, tree_depth, d + 1, max);
        }
    }
    if drop_child {
        let k = node.delete_child(pos);
        delta.removed = delta.removed + k;
        proof {
            node.lemma_wf_facts();
        }
        proof {
            if split {
                let j: int = if pos == 0 { 1 } else { 0 };
                assert(node.spec_child(j) == mid.spec_child(j));
                assert(node.spec_has_children());
            }
        }
        if !node.has_children() {
            proof {
                before.lemma_wf_facts();
                assert forall|j: int| j != pos as int implies #[trigger] before.spec_child(j) is None by {
                    assert(node.spec_child(j) == n2.spec_child(j));
                    assert(n2.spec_child(j) == mid.spec_child(j));
                    if 0 <= j < 8 {
                        assert(!(node.spec_child(j) is Some));
                    }
                }
                assert(before.spec_child(pos as int) == Some(c0));
                lemma_del_drop(before, *key, tree_depth, d, max, is_root);
            }
            return true;
        }
    }
    proof {
        if split {
            lemma_carve_step(*node, before.spec_value(), *key, tree_depth, d, max);
            lemma_del_split(before, *node, *key, tree_depth, d, max, is_root);
        } else {
            lemma_del_keep(before, *node, *key, tree_depth, d, max, is_root);
        }
    }
    false
}

impl<T: Clone + Default + PartialEq> OctreeCore<T> {
    /// Removes the node addressed by `key` at `depth`, and everything below
    /// it, returning whether anything was removed.
    ///
    /// `depth` of 0 means the full tree depth. Descending into a pruned node
    /// expands it first, so deleting one voxel out of a pruned block leaves
    /// the other seven behind. An ancestor left without children goes too.
    pub fn delete_at_depth(&mut self, key: OcTreeKey, depth: u32) -> (r: Result<bool, InvalidDepth>)
        requires
            old(self).wf(),
            old(self).spec_len() + 8 * MAX_TREE_DEPTH <= usize::MAX,
        ensures
            depth > old(self).spec_depth() ==> {
                &&& r == Err::<bool, InvalidDepth>(
                    InvalidDepth { got: depth, tree_depth: old(self).spec_depth() },
                )
                &&& *final(self) == *old(self)
            },
            depth <= old(self).spec_depth() ==> (r matches Ok(removed) && final(self).deleted(
                *old(self),
                key,
                depth,
                removed,
            )),
    {
        if let Err(e) = self.geometry.validate_depth(depth) {
            return Err(e);
        }
        let tree_depth = self.geometry.tree_depth();
        let max_depth = if depth == 0 {
            tree_depth
        } else {
            depth
        };
        let root_node = match &mut self.root {
            None => {
                return Ok(false);
            },
            Some(r) => r,
        };
        let mut delta = Delta { created: 0, removed: 0 };
        let drop_root = delete_recurs(root_node, 0, max_depth, &key, tree_depth, true, &mut delta);
        if drop_root {
            delta.removed = delta.removed + 1;
            self.root = None;
        }
        self.tree_size = self.tree_size.saturating_add(delta.created).saturating_sub(
            delta.removed,
        );
        if self.root.is_none() {
            self.tree_size = 0;
        }
        Ok(delta.removed > 0)
    }

    /// Removes the leaf-level node addressed by `key`, and everything below
    /// it, returning whether anything was removed.
    pub fn delete(&mut self, key: OcTreeKey) -> (removed: bool)
        requires
            old(self).wf(),
            old(self).spec_len() + 8 * MAX_TREE_DEPTH <= usize::MAX,
        ensures
            final(self).deleted(*old(self), key, 0, removed),
    {
        match self.delete_at_depth(key, 0) {
            Ok(b) => b,
            Err(_) => false,
        }
    }
}

impl<T: Clone> OctreeCore<T> {
    /// `self` is `old` after deleting `key` at `depth` (0 meaning the full
    /// depth), which reported `removed`.
    pub open spec fn deleted(&self, old: Self, key: OcTreeKey, depth: u32, removed: bool) -> bool {
        &&& self.wf()
        &&& self.spec_geometry() == old.spec_geometry()
        &&& match old.spec_root() {
            None => !removed && self.spec_root() is None,
            Some(or) => {
                &&& removed == reaches(
                    or,
                    key,
                    old.spec_depth(),
                    0,
                    old.eff_depth(depth) as nat,
                    true,
                )
                &&& delete_rel(
                    or,
                    self.spec_root(),
                    key,
                    old.spec_depth(),
                    0,
                    old.eff_depth(depth) as nat,
                    true,
                )
            },
        }
    }
}

/// A lookup of the carved key inside a carved block misses.
proof fn lemma_carve_misses<T: Clone>(n: Node<T>, v: T, key: OcTreeKey, td: u32, d: nat, max: nat)
    requires
        carve(Some(n), v, key, td, d, max),
    ensures
        descend(n, key, td, d, max) is None,
    decreases max - d,
{
    reveal(carve);
    let pos = slot(key, td, d);
    match n.spec_child(pos) {
        Some(c) => {
            lemma_carve_misses(c, c.spec_value(), key, td, d + 1, max);
        },
        None => {
            let j: int = if pos == 0 { 1 } else { 0 };
            assert(n.spec_child(j) is Some);
        },
    }
}

/// Once a deletion has reached its depth, a lookup of the deleted key below
/// the surviving node misses.
proof fn lemma_delete_misses<T: Clone>(
    old: Node<T>,
    new: Node<T>,
    key: OcTreeKey,
    td: u32,
    d: nat,
    max: nat,
    is_root: bool,
)
    requires
        delete_rel(old, Some(new), key, td, d, max, is_root),
        reaches(old, key, td, d, max, is_root),
    ensures
        descend(new, key, td, d, max) is None,
    decreases max - d,
{
    reveal(delete_rel);
    let pos = slot(key, td, d);
    match old.spec_child(pos) {
        None => {
            lemma_carve_misses(new, old.spec_value(), key, td, d, max);
        },
        Some(oc) => {
            if let Some(nc) = new.spec_child(pos) {
                lemma_delete_misses(oc, nc, key, td, d + 1, max, false);
            }
        },
    }
}

/// A full-depth deletion that reports a removal leaves nothing at that key:
/// a lookup of it misses.
pub proof fn law_get_after_delete<T: Clone>(
    before: OctreeCore<T>,
    after: OctreeCore<T>,
    key: OcTreeKey,
)
    requires
        before.wf(),
        after.deleted(before, key, 0, true),
    ensures
        after.spec_get(key) is None,
{
    if let Some(n) = after.spec_root() {
        let or = before.spec_root().unwrap();
        lemma_delete_misses(or, n, key, before.spec_depth(), 0, before.spec_depth() as nat, true);
    }
}

/// Number of collapsible nodes at depth `max` in the subtree of `node`, a
/// node at depth `d`.
pub open spec fn collapsible_at<T: PartialEq>(node: Node<T>, d: nat, max: nat) -> nat
    decreases node, 9int,
{
    if d >= max {
        if node.spec_collapsible() {
            1
        } else {
            0
        }
    } else {
        kids_collapsible(node, 0, d, max)
    }
}

/// Collapsible nodes at depth `max` under the children in slots `i..8` of
/// `node`, a node at depth `d`.
pub open spec fn kids_collapsible<T: PartialEq>(node: Node<T>, i: int, d: nat, max: nat) -> nat
    decreases node, 8 - i,
{
    if 0 <= i < 8 {
        let here: nat = match node.spec_child(i) {
            Some(c) => {
                proof {
                    node.lemma_child_decreases(i);
                }
                collapsible_at(c, d + 1, max)
            },
            None => 0,
        };
        here + kids_collapsible(node, i + 1, d, max)
    } else {
        0
    }
}

/// Two optional children correspond under one pruning sweep.
pub open spec fn child_pruned<T: Clone + PartialEq>(
    old: Option<Node<T>>,
    new: Option<Node<T>>,
    d: nat,
    max: nat,
) -> bool {
    match old {
        None => new is None,
        Some(o) => new matches Some(n) && prune_rel(o, n, d, max),
    }
}

/// `new` is what one pruning sweep at depth `max` makes of `old`, a node at
/// depth `d`: nodes above `max` keep their value and slots, and each node at
/// `max` either stays as it was or, when its eight children are equal
/// leaves, takes the first child's value and drops them.
#[verifier::opaque]
pub open spec fn prune_rel<T: Clone + PartialEq>(old: Node<T>, new: Node<T>, d: nat, max: nat) -> bool
    decreases max - d,
{
    if d < max {
        &&& new.spec_value() == old.spec_value()
        &&& new.array_allocated() == old.array_allocated()
        &&& forall|i: int|
            #![trigger new.spec_child(i)]
            match old.spec_child(i) {
                None => new.spec_child(i) is None,
                Some(o) => new.spec_child(i) matches Some(n) && prune_rel(o, n, d + 1, max),
            }
    } else {
        ||| new == old
        ||| {
            &&& old.eight_leaf_children()
            &&& new.pruned_from(old)
            &&& T::obeys_eq_spec() ==> old.spec_collapsible()
        }
    }
}

/// One pruning sweep over the subtree of `node`, a node at depth `depth`:
/// every collapsible node at `max_depth` is merged.
fn prune_recurs<T: Clone + PartialEq>(
    node: &mut Node<T>,
    depth: u32,
    max_depth: u32,
    pruned: &mut usize,
    removed: &mut usize,
)
    requires
        old(node).wf(),
        depth <= max_depth,
        *old(removed) + old(node).spec_size() <= usize::MAX,
        *old(pruned) + old(node).spec_size() <= usize::MAX,
    ensures
        final(node).wf(),
        prune_rel(*old(node), *final(node), depth as nat, max_depth as nat),
        final(node).spec_size() + *final(removed) == old(node).spec_size() + *old(removed),
        *final(removed) - *old(removed) == 8 * (*final(pruned) - *old(pruned)),
        *old(pruned) <= *final(pruned),
        T::obeys_eq_spec() ==> *final(pruned) == *old(pruned) + collapsible_at(
            *old(node),
            depth as nat,
            max_depth as nat,
        ),
    decreases max_depth - depth,
{
    let ghost start = *node;
    let ghost start_pruned = *pruned;
    let ghost start_removed = *removed;
    if depth < max_depth {
        proof {
            start.lemma_wf_facts();
        }
        let mut i: u8 = 0;
        while i < 8
            invariant
                i <= 8,
                depth < max_depth,
                start.wf(),
                node.wf(),
                node.spec_value() == start.spec_value(),
                node.array_allocated() == start.array_allocated(),
                forall|j: int| i <= j ==> #[trigger] node.spec_child(j) == start.spec_child(j),
                forall|j: int|
                    0 <= j < i ==> child_pruned(
                        start.spec_child(j),
                        #[trigger] node.spec_child(j),
                        depth as nat + 1,
                        max_depth as nat,
                    ),
                node.spec_size() + *removed == start.spec_size() + start_removed,
                *removed - start_removed == 8 * (*pruned - start_pruned),
                start_pruned <= *pruned,
                start_removed + start.spec_size() <= usize::MAX,
                start_pruned + start.spec_size() <= usize::MAX,
                T::obeys_eq_spec() ==> *pruned + kids_collapsible(
                    start,
                    i as int,
                    depth as nat,
                    max_depth as nat,
                ) == start_pruned + kids_collapsible(start, 0, depth as nat, max_depth as nat),
            decreases 8 - i,
        {
            let ghost cur = *node;
            proof {
                cur.lemma_wf_facts();
                cur.lemma_child_size_le(i as int, 0);
                Node::<T>::lemma_size_replace_all();
            }
            if let Some(child) = node.child_mut(i) {
                prune_recurs(child, depth + 1, max_depth, pruned, removed);
            }
            proof {
                assert(node.same_except(cur, i as int));
            }
            i += 1;
        }
        proof {
            reveal(prune_rel);
            assert forall|j: int|
                #![trigger node.spec_child(j)]
                match start.spec_child(j) {
                    None => node.spec_child(j) is None,
                    Some(o) => node.spec_child(j) matches Some(n) && prune_rel(
                        o,
                        n,
                        depth as nat + 1,
                        max_depth as nat,
                    ),
                } by {
                if !(0 <= j < 8) {
                    node.lemma_wf_facts();
                } else {
                    assert(child_pruned(start.spec_child(j), node.spec_child(j), depth as nat + 1, max_depth as nat));
                }
            }
        }
    } else {
        let n = node.prune();
        proof {
            reveal(prune_rel);
            if n > 0 {
                start.lemma_eight_leaves_size_pub();
                node.lemma_childless_size();
            }
        }
        if n > 0 {
            *pruned = *pruned + 1;
            *removed = *removed + n;
        }
    }
}

/// The value a full-depth lookup of `key` finds below `node`, a node at
/// depth `d` of a tree `td` levels deep.
pub open spec fn lookup<T>(node: Node<T>, key: OcTreeKey, td: u32, d: nat) -> Option<T> {
    match descend(node, key, td, d, td as nat) {
        Some(n) => Some(n.spec_value()),
        None => None,
    }
}

/// `==` on `T` is equality and a clone equals its source: the values for
/// which merging equal leaves loses nothing.
pub open spec fn plain_values<T: Clone + PartialEq>() -> bool {
    &&& vstd::laws_eq::obeys_concrete_eq::<T>()
    &&& forall|a: T, b: T| #[trigger] cloned(a, b) ==> a == b
}

/// Nodes that agree slot by slot on whether a child exists agree on whether
/// they have children.
proof fn lemma_same_occupancy<T>(a: Node<T>, b: Node<T>)
    requires
        forall|i: int| #[trigger] a.spec_child(i) is Some <==> b.spec_child(i) is Some,
    ensures
        a.spec_has_children() == b.spec_has_children(),
{
    if a.spec_has_children() {
        let i = choose|i: int| 0 <= i < 8 && #[trigger] a.spec_child(i) is Some;
        assert(b.spec_child(i) is Some);
    }
    if b.spec_has_children() {
        let i = choose|i: int| 0 <= i < 8 && #[trigger] b.spec_child(i) is Some;
        assert(a.spec_child(i) is Some);
    }
}

/// A pruning sweep above the bottom level changes no lookup, for plain
/// values.
proof fn lemma_prune_lookup<T: Clone + PartialEq>(
    old: Node<T>,
    new: Node<T>,
    key: OcTreeKey,
    td: u32,
    d: nat,
    max: nat,
)
    requires
        old.wf(),
        prune_rel(old, new, d, max),
        d <= max < td,
        plain_values::<T>(),
    ensures
        lookup(new, key, td, d) == lookup(old, key, td, d),
    decreases max - d,
{
    reveal(prune_rel);
    reveal(vstd::laws_eq::obeys_concrete_eq);
    let pos = slot(key, td, d);
    old.lemma_wf_facts();
    if d < max {
        assert forall|i: int| #[trigger] new.spec_child(i) is Some <==> old.spec_child(i) is Some by {}
        lemma_same_occupancy(new, old);
        if let Some(o) = old.spec_child(pos) {
            let n = new.spec_child(pos).unwrap();
            lemma_prune_lookup(o, n, key, td, d + 1, max);
        }
    } else if new != old {
        assert(0 <= pos < 8);
        let first = old.spec_child(0).unwrap();
        let c = old.spec_child(pos).unwrap();
        assert(!c.spec_has_children());
        assert(c.spec_child(slot(key, td, d + 1)) is None);
        assert(descend(c, key, td, d + 1, td as nat) == Some(c));
        assert(descend(old, key, td, d, td as nat) == descend(c, key, td, d + 1, td as nat));
        assert(!new.spec_has_children());
        assert(new.spec_child(pos) is None);
        assert(descend(new, key, td, d, td as nat) == Some(new));
        assert(cloned(first.spec_value(), new.spec_value()));
        assert(new.spec_value() == first.spec_value());
        if pos != 0 {
            assert(c.spec_value().eq_spec(&first.spec_value()));
        }
        assert(c.spec_value() == first.spec_value());
    }
}

/// `new` is what the pruning sweeps make of the root `old` when the next
/// sweep is at depth `level - 1`: each sweep merges, at its depth, nodes whose
/// eight children are equal leaves, and the sweeps move up one depth at a
/// time until one merges nothing or the root's depth is done.
#[verifier::opaque]
pub open spec fn sweeps<T: Clone + PartialEq>(old: Node<T>, new: Node<T>, level: int) -> bool
    decreases level,
{
    if level <= 0 {
        new == old
    } else {
        exists|mid: Node<T>|
            #[trigger] prune_rel(old, mid, 0, (level - 1) as nat) && if mid.spec_size()
                == old.spec_size() {
                new == mid
            } else {
                sweeps(mid, new, level - 1)
            }
    }
}

impl<T: Clone + Default + PartialEq> OctreeCore<T> {
    /// Merges every group of eight equal childless children into their
    /// parent, and returns the number of nodes removed.
    ///
    /// The sweep runs from the deepest inner level upward and stops at the
    /// first level that merges nothing, so a tree whose deepest level has
    /// nothing left to merge is left alone even where shallower levels could
    /// still collapse.
    pub fn prune(&mut self) -> (removed: usize)
        requires
            old(self).wf(),
        ensures
            final(self).wf(),
            final(self).spec_geometry() == old(self).spec_geometry(),
            final(self).spec_len() + removed == old(self).spec_len(),
            old(self).spec_root() is None ==> final(self).spec_root() is None && removed == 0,
            T::obeys_eq_spec() && old(self).spec_depth() > 0 ==> (old(self).spec_root() matches Some(
                r,
            ) ==> (removed == 0 <==> collapsible_at(r, 0, (old(self).spec_depth() - 1) as nat)
                == 0)),
            plain_values::<T>() ==> forall|key: OcTreeKey| #[trigger]
                final(self).spec_get(key) == old(self).spec_get(key),
            old(self).spec_root() matches Some(r) ==> (final(self).spec_root() matches Some(n)
                && sweeps(r, n, old(self).spec_depth() as int)),
    {
        let mut root_node = match self.root.take() {
            None => {
                return 0;
            },
            Some(r) => r,
        };
        let ghost r0 = root_node;
        let tree_depth = self.geometry.tree_depth();
        let mut total_removed: usize = 0;
        let mut max_depth: u32 = tree_depth;
        let mut done = false;
        let ghost mut first_hit = false;
        while max_depth > 0 && !done
            invariant
                root_node.wf(),
                root_node.spec_size() + total_removed == r0.spec_size(),
                r0.spec_size() <= usize::MAX,
                max_depth <= tree_depth,
                max_depth == 0 ==> done || tree_depth == 0 || max_depth < tree_depth,
                max_depth < tree_depth ==> (total_removed > 0 <==> first_hit),
                max_depth < tree_depth && T::obeys_eq_spec() ==> (first_hit <==> collapsible_at(
                    r0,
                    0,
                    (tree_depth - 1) as nat,
                ) > 0),
                done ==> max_depth < tree_depth,
                max_depth < tree_depth && !done ==> first_hit,
                max_depth == tree_depth ==> root_node == r0 && total_removed == 0,
                plain_values::<T>() ==> forall|key: OcTreeKey| #[trigger]
                    lookup(root_node, key, tree_depth, 0) == lookup(r0, key, tree_depth, 0),
                forall|x: Node<T>|
                    (if done {
                        x == root_node
                    } else {
                        sweeps(root_node, x, max_depth as int)
                    }) ==> #[trigger] sweeps(r0, x, tree_depth as int),
            decreases max_depth,
        {
            max_depth -= 1;
            let mut pruned_here: usize = 0;
            let mut removed_here: usize = 0;
            let ghost before = root_node;
            prune_recurs(&mut root_node, 0, max_depth, &mut pruned_here, &mut removed_here);
            proof {
                if max_depth == tree_depth - 1 {
                    first_hit = pruned_here > 0;
                }
                if plain_values::<T>() {
                    assert forall|key: OcTreeKey| #[trigger]
                        lookup(root_node, key, tree_depth, 0) == lookup(r0, key, tree_depth, 0) by {
                        lemma_prune_lookup(before, root_node, key, tree_depth, 0, max_depth as nat);
                        assert(lookup(before, key, tree_depth, 0) == lookup(r0, key, tree_depth, 0));
                    }
                }
            }
            total_removed = total_removed + removed_here;
            proof {
                let mid = root_node;
                assert forall|x: Node<T>|
                    (if pruned_here == 0 {
                        x == mid
                    } else {
                        sweeps(mid, x, max_depth as int)
                    }) implies #[trigger] sweeps(r0, x, tree_depth as int) by {
                    let lv: int = max_depth + 1;
                    assert(((lv - 1) as nat) == max_depth as nat);
                    assert(prune_rel(before, mid, 0, (lv - 1) as nat));
                    assert(mid.spec_size() == before.spec_size() <==> pruned_here == 0);
                    reveal(sweeps);
                    assert(sweeps(before, x, lv));
                }
            }
            if pruned_here == 0 {
                done = true;
            }
        }
        proof {
            reveal(sweeps);
            assert(sweeps(r0, root_node, tree_depth as int));
        }
        self.root = Some(root_node);
        self.tree_size = self.tree_size.saturating_sub(total_removed);
        proof {
            if plain_values::<T>() {
                assert forall|key: OcTreeKey| #[trigger]
                    self.spec_get(key) == old(self).spec_get(key) by {
                    assert(lookup(root_node, key, tree_depth, 0) == lookup(r0, key, tree_depth, 0));
                }
            }
        }
        total_removed
    }
}

/// Number of nodes in a complete octree of height `h`.
pub open spec fn full_size(h: nat) -> nat
    decreases h,
{
    if h == 0 {
        1
    } else {
        1 + 8 * full_size((h - 1) as nat)
    }
}

/// Number of nodes that expanding the subtree of `node`, a node at depth
/// `d`, down to `max` creates: each childless node above `max` grows a
/// complete subtree reaching `max`.
pub open spec fn expansion_count<T>(node: Node<T>, d: nat, max: nat) -> nat
    decreases node, 9int,
{
    if d >= max {
        0
    } else if !node.spec_has_children() {
        (full_size((max - d) as nat) - 1) as nat
    } else {
        kids_expansion(node, 0, d, max)
    }
}

/// Nodes created below the children in slots `i..8` of `node`.
pub open spec fn kids_expansion<T>(node: Node<T>, i: int, d: nat, max: nat) -> nat
    decreases node, 8 - i,
{
    if 0 <= i < 8 {
        let here: nat = match node.spec_child(i) {
            Some(c) => {
                proof {
                    node.lemma_child_decreases(i);
                }
                expansion_count(c, d + 1, max)
            },
            None => 0,
        };
        here + kids_expansion(node, i + 1, d, max)
    } else {
        0
    }
}

/// `new` is a complete subtree from depth `d` down to `max` whose root holds
/// `v` and whose every other node holds a clone of its parent's value.
#[verifier::opaque]
pub open spec fn full_rel<T: Clone>(new: Node<T>, v: T, d: nat, max: nat) -> bool
    decreases max - d,
{
    &&& new.wf()
    &&& new.spec_value() == v
    &&& if d >= max {
        &&& !new.array_allocated()
        &&& forall|i: int| #[trigger] new.spec_child(i) is None
    } else {
        forall|i: int|
            0 <= i < 8 ==> (#[trigger] new.spec_child(i) matches Some(c) && cloned(
                v,
                c.spec_value(),
            ) && full_rel(c, c.spec_value(), d + 1, max))
    }
}

/// `new` is `old`, a node at depth `d`, expanded down to `max`: every
/// childless node above `max` becomes the root of a complete subtree of
/// clones of its value, and every other node keeps its value and slots.
#[verifier::opaque]
pub open spec fn expand_rel<T: Clone>(old: Node<T>, new: Node<T>, d: nat, max: nat) -> bool
    decreases max - d,
{
    if d >= max {
        new == old
    } else if !old.spec_has_children() {
        full_rel(new, old.spec_value(), d, max)
    } else {
        &&& new.spec_value() == old.spec_value()
        &&& new.array_allocated() == old.array_allocated()
        &&& forall|i: int|
            #![trigger new.spec_child(i)]
            match old.spec_child(i) {
                None => new.spec_child(i) is None,
                Some(o) => new.spec_child(i) matches Some(n) && expand_rel(o, n, d + 1, max),
            }
    }
}

proof fn lemma_full_size_pos(h: nat)
    ensures
        full_size(h) >= 1,
    decreases h,
{
    if h > 0 {
        lemma_full_size_pos((h - 1) as nat);
    }
}

/// Expanding a childless node builds a complete subtree.
proof fn lemma_expand_leaf_full<T: Clone>(old: Node<T>, new: Node<T>, d: nat, max: nat)
    requires
        old.wf(),
        !old.spec_has_children(),
        expand_rel(old, new, d, max),
    ensures
        full_rel(new, old.spec_value(), d, max),
{
    reveal(expand_rel);
    if d >= max {
        reveal(full_rel);
        old.lemma_wf_facts();
        assert forall|i: int| #[trigger] new.spec_child(i) is None by {
            if 0 <= i < 8 {
                assert(!(old.spec_child(i) is Some));
            }
        }
    }
}

/// Slots `j..8` of a node whose children are all childless account for
/// `8 - j` complete subtrees below depth `d + 1`.
proof fn lemma_kids_expansion_leaves<T>(node: Node<T>, j: int, d: nat, max: nat)
    requires
        0 <= j <= 8,
        d < max,
        forall|i: int|
            0 <= i < 8 ==> (#[trigger] node.spec_child(i) matches Some(c) && !c.spec_has_children()),
    ensures
        kids_expansion(node, j, d, max) == (8 - j) * (full_size((max - d - 1) as nat) - 1),
    decreases 8 - j,
{
    if j < 8 {
        lemma_kids_expansion_leaves(node, j + 1, d, max);
        lemma_full_size_pos((max - d - 1) as nat);
        let x: int = full_size((max - d - 1) as nat) - 1;
        let c = node.spec_child(j).unwrap();
        assert(expansion_count(c, d + 1, max) == x);
        assert(kids_expansion(node, j, d, max) == expansion_count(c, d + 1, max) + kids_expansion(
            node,
            j + 1,
            d,
            max,
        ));
        assert((8 - j) * x == x + (8 - (j + 1)) * x) by (nonlinear_arith);
        assert(kids_expansion(node, j + 1, d, max) == (8 - (j + 1)) * x);
        assert(kids_expansion(node, j, d, max) == (8 - j) * x);
    } else {
        let x: int = full_size((max - d - 1) as nat) - 1;
        assert(kids_expansion(node, j, d, max) == 0);
        assert((8 - j) * x == 0) by (nonlinear_arith)
            requires
                j == 8,
        ;
    }
}

/// Splits every childless node above `max_depth` in the subtree of `node`,
/// a node at depth `depth`, counting the nodes made in `created`.
fn expand_recurs<T: Clone + PartialEq>(
    node: &mut Node<T>,
    depth: u32,
    max_depth: u32,
    created: &mut usize,
)
    requires
        old(node).wf(),
        depth <= max_depth,
        *old(created) + expansion_count(*old(node), depth as nat, max_depth as nat) <= usize::MAX,
    ensures
        final(node).wf(),
        expand_rel(*old(node), *final(node), depth as nat, max_depth as nat),
        *final(created) == *old(created) + expansion_count(
            *old(node),
            depth as nat,
            max_depth as nat,
        ),
        final(node).spec_size() == old(node).spec_size() + expansion_count(
            *old(node),
            depth as nat,
            max_depth as nat,
        ),
    decreases max_depth - depth,
{
    let ghost start = *node;
    let ghost d = depth as nat;
    let ghost max = max_depth as nat;
    if depth >= max_depth {
        proof {
            reveal(expand_rel);
        }
        return;
    }
    proof {
        start.lemma_wf_facts();
        lemma_full_size_pos((max - d) as nat);
    }
    let was_leaf = !node.has_children();
    if was_leaf {
        proof {
            start.lemma_childless_size();
            lemma_full_size_pos((max - d - 1) as nat);
        }
        let n = node.expand();
        proof {
            node.lemma_expanded_size();
            node.lemma_wf_facts();
            assert forall|i: int|
                0 <= i < 8 implies (#[trigger] node.spec_child(i) matches Some(c)
                && !c.spec_has_children()) by {
                let c = node.spec_child(i).unwrap();
                assert(c.spec_child(0) is None);
            }
            lemma_kids_expansion_leaves(*node, 0, d, max);
            assert((full_size((max - d) as nat) - 1) == 8 * full_size((max - d - 1) as nat));
        }
        *created = *created + n;
    }
    let ghost mid = *node;
    let ghost mid_created = *created;
    proof {
        mid.lemma_wf_facts();
    }
    let mut i: u8 = 0;
    while i < 8
        invariant
            i <= 8,
            d < max,
            d == depth,
            max == max_depth,
            mid.wf(),
            node.wf(),
            node.spec_value() == mid.spec_value(),
            node.array_allocated() == mid.array_allocated(),
            forall|j: int| i <= j ==> #[trigger] node.spec_child(j) == mid.spec_child(j),
            forall|j: int|
                0 <= j < i ==> match mid.spec_child(j) {
                    None => #[trigger] node.spec_child(j) is None,
                    Some(o) => node.spec_child(j) matches Some(n) && expand_rel(o, n, d + 1, max),
                },
            *created + kids_expansion(mid, i as int, d, max) == mid_created + kids_expansion(
                mid,
                0,
                d,
                max,
            ),
            node.spec_size() + kids_expansion(mid, i as int, d, max) == mid.spec_size()
                + kids_expansion(mid, 0, d, max),
            mid_created + kids_expansion(mid, 0, d, max) <= usize::MAX,
        decreases 8 - i,
    {
        let ghost cur = *node;
        proof {
            cur.lemma_wf_facts();
            Node::<T>::lemma_size_replace_all();
        }
        if let Some(child) = node.child_mut(i) {
            expand_recurs(child, depth + 1, max_depth, created);
        }
        proof {
            assert(node.same_except(cur, i as int));
        }
        i += 1;
    }
    proof {
        reveal(expand_rel);
        if was_leaf {
            reveal(full_rel);
            assert forall|j: int|
                0 <= j < 8 implies (#[trigger] node.spec_child(j) matches Some(c) && cloned(
                start.spec_value(),
                c.spec_value(),
            ) && full_rel(c, c.spec_value(), d + 1, max)) by {
                let o = mid.spec_child(j).unwrap();
                let c = node.spec_child(j).unwrap();
                assert(o.spec_child(0) is None);
                lemma_expand_leaf_full(o, c, d + 1, max);
            }
        } else {
            assert forall|j: int|
                #![trigger node.spec_child(j)]
                match start.spec_child(j) {
                    None => node.spec_child(j) is None,
                    Some(o) => node.spec_child(j) matches Some(n) && expand_rel(o, n, d + 1, max),
                } by {
                if !(0 <= j < 8) {
                    node.lemma_wf_facts();
                }
            }
        }
    }
}

/// Every lookup below a complete subtree of clones finds the value it was
/// cloned from, for plain values.
proof fn lemma_full_lookup<T: Clone + PartialEq>(
    new: Node<T>,
    v: T,
    key: OcTreeKey,
    td: u32,
    d: nat,
    max: nat,
)
    requires
        full_rel(new, v, d, max),
        d <= max <= td,
        plain_values::<T>(),
    ensures
        lookup(new, key, td, d) == Some(v),
    decreases max - d,
{
    reveal(full_rel);
    if d < max {
        let c = new.spec_child(slot(key, td, d)).unwrap();
        lemma_full_lookup(c, c.spec_value(), key, td, d + 1, max);
    } else if d < td {
        assert(!new.spec_has_children());
    }
}

/// Expansion changes no lookup, for plain values.
proof fn lemma_expand_lookup<T: Clone + PartialEq>(
    old: Node<T>,
    new: Node<T>,
    key: OcTreeKey,
    td: u32,
    d: nat,
    max: nat,
)
    requires
        old.wf(),
        expand_rel(old, new, d, max),
        d <= max <= td,
        plain_values::<T>(),
    ensures
        lookup(new, key, td, d) == lookup(old, key, td, d),
    decreases max - d,
{
    reveal(expand_rel);
    old.lemma_wf_facts();
    if d < max {
        let pos = slot(key, td, d);
        if !old.spec_has_children() {
            lemma_full_lookup(new, old.spec_value(), key, td, d, max);
        } else {
            assert forall|i: int| #[trigger] new.spec_child(i) is Some <==> old.spec_child(i) is Some by {}
            lemma_same_occupancy(new, old);
            if let Some(o) = old.spec_child(pos) {
                let n = new.spec_child(pos).unwrap();
                lemma_expand_lookup(o, n, key, td, d + 1, max);
            }
        }
    }
}

impl<T> OctreeCore<T> {
    /// The depth a `max_depth` argument names: 0, or anything past the
    /// bottom, is the full depth.
    pub open spec fn spec_clamp(&self, max_depth: u32) -> u32 {
        if max_depth == 0 || max_depth > self.spec_depth() {
            self.spec_depth()
        } else {
            max_depth
        }
    }

    fn clamp_depth(&self, max_depth: u32) -> (r: u32)
        ensures
            r == self.spec_clamp(max_depth),
    {
        let tree_depth = self.geometry.tree_depth();
        if max_depth == 0 || max_depth > tree_depth {
            tree_depth
        } else {
            max_depth
        }
    }
}

impl<T: Clone + Default + PartialEq> OctreeCore<T> {
    /// Splits every leaf into eight children, down to `max_depth`, and
    /// returns the number of nodes created.
    ///
    /// `max_depth` of 0 means the full tree depth. Cost is exponential in the
    /// distance between the shallowest leaf and `max_depth`; the node count
    /// must stay within `usize`.
    pub fn expand_to_depth(&mut self, max_depth: u32) -> (created: usize)
        requires
            old(self).wf(),
            old(self).spec_root() matches Some(r) ==> old(self).spec_len() + expansion_count(
                r,
                0,
                old(self).spec_clamp(max_depth) as nat,
            ) <= usize::MAX,
        ensures
            final(self).wf(),
            final(self).spec_geometry() == old(self).spec_geometry(),
            final(self).spec_len() == old(self).spec_len() + created,
            match old(self).spec_root() {
                None => created == 0 && final(self).spec_root() is None,
                Some(r) => {
                    &&& created == expansion_count(r, 0, old(self).spec_clamp(max_depth) as nat)
                    &&& final(self).spec_root() matches Some(n) && expand_rel(
                        r,
                        n,
                        0,
                        old(self).spec_clamp(max_depth) as nat,
                    )
                },
            },
            plain_values::<T>() ==> forall|key: OcTreeKey| #[trigger]
                final(self).spec_get(key) == old(self).spec_get(key),
    {
        let max_depth = self.clamp_depth(max_depth);
        let mut root_node = match self.root.take() {
            None => {
                return 0;
            },
            Some(r) => r,
        };
        let ghost r0 = root_node;
        let mut created: usize = 0;
        expand_recurs(&mut root_node, 0, max_depth, &mut created);
        proof {
            if plain_values::<T>() {
                assert forall|key: OcTreeKey| #[trigger]
                    lookup(root_node, key, self.spec_depth(), 0) == lookup(r0, key, self.spec_depth(), 0) by {
                    lemma_expand_lookup(r0, root_node, key, self.spec_depth(), 0, max_depth as nat);
                }
            }
        }
        self.root = Some(root_node);
        self.tree_size = self.tree_size + created;
        proof {
            if plain_values::<T>() {
                assert forall|key: OcTreeKey| #[trigger]
                    self.spec_get(key) == old(self).spec_get(key) by {
                    assert(lookup(root_node, key, self.spec_depth(), 0) == lookup(r0, key, self.spec_depth(), 0));
                }
            }
        }
        created
    }
}

/// A visited node, its key and its depth, as values.
pub type VisitModel<T> = (Node<T>, OcTreeKey, u32);

/// The key of the root: the center of the addressable volume.
pub open spec fn center_key(tmv: u32) -> OcTreeKey {
    OcTreeKey { k: [tmv as u16, tmv as u16, tmv as u16] }
}

/// Key of child `pos` of the node keyed `parent`, the child lying at depth
/// `child_depth`.
pub open spec fn visit_child_key(pos: int, tmv: u32, child_depth: u32, parent: OcTreeKey) -> OcTreeKey {
    crate::key::spec_child_key(pos as u8, (tmv >> child_depth) as u16, parent)
}

/// Depth-first, pre-order listing of the subtree of `node` (keyed `key`, at
/// `depth`) down to `max`, children in slot order.
pub open spec fn preorder<T>(node: Node<T>, key: OcTreeKey, depth: u32, max: u32, tmv: u32) -> Seq<
    VisitModel<T>,
>
    decreases node, 9int,
{
    seq![(node, key, depth)] + if depth >= max {
        Seq::empty()
    } else {
        kids_preorder(node, key, depth, max, tmv, 0)
    }
}

/// Pre-order listings of the children in slots `i..8`, concatenated.
pub open spec fn kids_preorder<T>(
    node: Node<T>,
    key: OcTreeKey,
    depth: u32,
    max: u32,
    tmv: u32,
    i: int,
) -> Seq<VisitModel<T>>
    decreases node, 8 - i,
{
    if 0 <= i < 8 && depth < max {
        let here = match node.spec_child(i) {
            Some(c) => {
                proof {
                    node.lemma_child_decreases(i);
                }
                preorder(c, visit_child_key(i, tmv, (depth + 1) as u32, key), (depth + 1) as u32, max, tmv)
            },
            None => Seq::empty(),
        };
        here + kids_preorder(node, key, depth, max, tmv, i + 1)
    } else {
        Seq::empty()
    }
}

/// The entries a leaf traversal reports: childless nodes, and nodes at the
/// depth limit.
pub open spec fn reported<T>(max: u32) -> spec_fn(VisitModel<T>) -> bool {
    |e: VisitModel<T>| !e.0.spec_has_children() || e.2 == max
}

/// One node reached during traversal, with the key and depth it sits at.
#[derive(Debug)]
pub struct Visit<'a, T> {
    node: &'a Node<T>,
    key: OcTreeKey,
    depth: u32,
}

impl<'a, T> Clone for Visit<'a, T> {
    fn clone(&self) -> (r: Self)
        ensures
            r == *self,
    {
        Visit { node: self.node, key: self.key, depth: self.depth }
    }
}

impl<'a, T> Copy for Visit<'a, T> {

}

impl<'a, T> Visit<'a, T> {
    /// The node, key and depth.
    pub closed spec fn model(&self) -> VisitModel<T> {
        (*self.node, self.key, self.depth)
    }

    /// The node itself.
    pub fn node(&self) -> (n: &'a Node<T>)
        ensures
            *n == self.model().0,
    {
        self.node
    }

    /// The value stored in the node.
    pub fn value(&self) -> (v: &'a T)
        ensures
            *v == self.model().0.spec_value(),
    {
        self.node.value()
    }

    /// The key addressing this node's center.
    pub fn key(&self) -> (k: OcTreeKey)
        ensures
            k == self.model().1,
    {
        self.key
    }

    /// Depth of this node, with the root at 0.
    pub fn depth(&self) -> (d: u32)
        ensures
            d == self.model().2,
    {
        self.depth
    }
}

/// Pre-order listing of everything a traversal stack still holds, the top
/// of the stack first.
pub open spec fn pending<'a, T>(stack: Seq<Visit<'a, T>>, max: u32, tmv: u32) -> Seq<VisitModel<T>>
    decreases stack.len(),
{
    if stack.len() == 0 {
        Seq::empty()
    } else {
        let top = stack.last().model();
        preorder(top.0, top.1, top.2, max, tmv) + pending(stack.drop_last(), max, tmv)
    }
}

/// Depth-first iterator over every node, inner nodes included.
pub struct TreeIter<'a, T> {
    stack: Vec<Visit<'a, T>>,
    max_depth: u32,
    tree_max_val: u32,
}

impl<'a, T> TreeIter<'a, T> {
    /// The visits still to come, in order.
    pub closed spec fn spec_remaining(&self) -> Seq<VisitModel<T>> {
        pending(self.stack@, self.max_depth, self.tree_max_val)
    }

    /// Depth below which the traversal does not descend.
    pub closed spec fn spec_max_depth(&self) -> u32 {
        self.max_depth
    }

    /// Key-space offset of the origin, used to rebuild child keys.
    pub closed spec fn spec_tree_max_val(&self) -> u32 {
        self.tree_max_val
    }

    /// Every pending node is well formed and no deeper than the limit, which
    /// a 16-bit key can address.
    pub closed spec fn wf(&self) -> bool {
        &&& self.max_depth <= MAX_TREE_DEPTH
        &&& forall|i: int|
            0 <= i < self.stack@.len() ==> (#[trigger] self.stack@[i]).model().0.wf()
                && self.stack@[i].model().2 <= self.max_depth
    }

    /// Pushes `top`'s children so they pop in slot order 0..8.
    fn push_children(&mut self, top: &Visit<'a, T>)
        requires
            old(self).wf(),
            top.model().0.wf(),
            top.model().2 <= old(self).spec_max_depth(),
        ensures
            final(self).wf(),
            final(self).spec_max_depth() == old(self).spec_max_depth(),
            final(self).spec_tree_max_val() == old(self).spec_tree_max_val(),
            final(self).spec_remaining() == kids_preorder(
                top.model().0,
                top.model().1,
                top.model().2,
                old(self).spec_max_depth(),
                old(self).spec_tree_max_val(),
                0,
            ) + old(self).spec_remaining(),
    {
        let ghost t = top.model();
        let ghost max = self.max_depth;
        let ghost tmv = self.tree_max_val;
        if top.depth >= self.max_depth {
            proof {
                assert(kids_preorder(t.0, t.1, t.2, max, tmv, 0) =~= Seq::empty());
                assert(self.spec_remaining() =~= Seq::empty() + self.spec_remaining());
            }
            return;
        }
        let child_depth = top.depth + 1;
        let center_offset_key: u16 = #[verifier::truncate] ((self.tree_max_val >> child_depth) as u16);
        proof {
            t.0.lemma_wf_facts();
            assert(kids_preorder(t.0, t.1, t.2, max, tmv, 8) =~= Seq::empty());
            assert(self.spec_remaining() =~= kids_preorder(t.0, t.1, t.2, max, tmv, 8) + old(self).spec_remaining());
        }
        let mut i: u8 = 8;
        while i > 0
            invariant
                i <= 8,
                top.model() == t,
                t.0.wf(),
                t.2 < max,
                child_depth == t.2 + 1,
                center_offset_key == (tmv >> child_depth) as u16,
                self.max_depth == max,
                self.tree_max_val == tmv,
                max <= MAX_TREE_DEPTH,
                self.wf(),
                self.spec_remaining() == kids_preorder(t.0, t.1, t.2, max, tmv, i as int)
                    + old(self).spec_remaining(),
            decreases i,
        {
            i -= 1;
            let ghost before = self.stack@;
            proof {
                t.0.lemma_wf_facts();
            }
            if let Some(child) = top.node.child(i) {
                let v = Visit {
                    node: child,
                    key: crate::key::compute_child_key(i, center_offset_key, &top.key),
                    depth: child_depth,
                };
                self.stack.push(v);
                proof {
                    assert(self.stack@.drop_last() =~= before);
                    assert(v.model() == (*child, visit_child_key(i as int, tmv, child_depth, t.1), child_depth));
                }
            }
            proof {
                let k = kids_preorder(t.0, t.1, t.2, max, tmv, i as int);
                assert(k == (match t.0.spec_child(i as int) {
                    Some(c) => preorder(c, visit_child_key(i as int, tmv, (t.2 + 1) as u32, t.1), (t.2 + 1) as u32, max, tmv),
                    None => Seq::<VisitModel<T>>::empty(),
                }) + kids_preorder(t.0, t.1, t.2, max, tmv, i + 1));
                if t.0.spec_child(i as int) is None {
                    assert(k =~= kids_preorder(t.0, t.1, t.2, max, tmv, i + 1));
                } else {
                    assert(self.spec_remaining() =~= k + old(self).spec_remaining());
                }
            }
        }
    }

    /// The next node in depth-first pre-order, children in slot order.
    pub fn next(&mut self) -> (r: Option<Visit<'a, T>>)
        requires
            old(self).wf(),
        ensures
            final(self).wf(),
            final(self).spec_max_depth() == old(self).spec_max_depth(),
            final(self).spec_tree_max_val() == old(self).spec_tree_max_val(),
            old(self).spec_remaining().len() == 0 ==> r is None && final(self).spec_remaining()
                == old(self).spec_remaining(),
            old(self).spec_remaining().len() > 0 ==> (r matches Some(v) && v.model()
                == old(self).spec_remaining()[0] && final(self).spec_remaining()
                == old(self).spec_remaining().drop_first()),
    {
        let ghost before = self.stack@;
        let top = match self.stack.pop() {
            None => {
                return None;
            },
            Some(t) => t,
        };
        proof {
            assert(self.stack@ =~= before.drop_last());
            assert(before[before.len() - 1] == top);
        }
        self.push_children(&top);
        proof {
            let t = top.model();
            assert(old(self).spec_remaining() =~= seq![t] + (if t.2 >= self.max_depth {
                Seq::<VisitModel<T>>::empty()
            } else {
                kids_preorder(t.0, t.1, t.2, self.max_depth, self.tree_max_val, 0)
            }) + pending(before.drop_last(), self.max_depth, self.tree_max_val));
            if t.2 >= self.max_depth {
                assert(kids_preorder(t.0, t.1, t.2, self.max_depth, self.tree_max_val, 0) =~= Seq::empty());
            }
            assert(self.spec_remaining() =~= old(self).spec_remaining().drop_first());
        }
        Some(top)
    }
}

/// A childless node lists no descendants.
proof fn lemma_childless_kids_preorder<T>(
    node: Node<T>,
    key: OcTreeKey,
    depth: u32,
    max: u32,
    tmv: u32,
    i: int,
)
    requires
        !node.spec_has_children(),
        0 <= i,
    ensures
        kids_preorder(node, key, depth, max, tmv, i) =~= Seq::empty(),
    decreases 8 - i,
{
    if 0 <= i < 8 && depth < max {
        assert(node.spec_child(i) is None);
        lemma_childless_kids_preorder(node, key, depth, max, tmv, i + 1);
    }
}

/// Depth-first iterator over leaves only.
pub struct LeafIter<'a, T> {
    inner: TreeIter<'a, T>,
}

impl<'a, T> LeafIter<'a, T> {
    /// The leaves still to come, in order: the reported entries of the
    /// underlying traversal.
    pub closed spec fn spec_remaining(&self) -> Seq<VisitModel<T>> {
        self.inner.spec_remaining().filter(reported(self.inner.spec_max_depth()))
    }

    /// Depth at which nodes are reported as leaves.
    pub closed spec fn spec_max_depth(&self) -> u32 {
        self.inner.spec_max_depth()
    }

    /// The underlying traversal is well formed.
    pub closed spec fn wf(&self) -> bool {
        self.inner.wf()
    }

    /// The next leaf: a childless node, or a node at the depth limit, in
    /// depth-first order.
    pub fn next(&mut self) -> (r: Option<Visit<'a, T>>)
        requires
            old(self).wf(),
        ensures
            final(self).wf(),
            final(self).spec_max_depth() == old(self).spec_max_depth(),
            old(self).spec_remaining().len() == 0 ==> r is None && final(self).spec_remaining()
                == old(self).spec_remaining(),
            old(self).spec_remaining().len() > 0 ==> (r matches Some(v) && v.model()
                == old(self).spec_remaining()[0] && final(self).spec_remaining()
                == old(self).spec_remaining().drop_first()),
    {
        let ghost pred = reported::<T>(self.inner.max_depth);
        let ghost target = self.inner.spec_remaining().filter(pred);
        loop
            invariant
                self.inner.wf(),
                self.inner.max_depth == old(self).inner.max_depth,
                self.inner.tree_max_val == old(self).inner.tree_max_val,
                pred == reported::<T>(self.inner.max_depth),
                target == old(self).spec_remaining(),
                self.inner.spec_remaining().filter(pred) == target,
            decreases self.inner.spec_remaining().len(),
        {
            let ghost before = self.inner.stack@;
            let ghost rem = self.inner.spec_remaining();
            let top = match self.inner.stack.pop() {
                None => {
                    proof {
                        assert(before.len() == 0);
                        reveal_with_fuel(Seq::filter, 1);
                    }
                    return None;
                },
                Some(t) => t,
            };
            proof {
                assert(self.inner.stack@ =~= before.drop_last());
                assert(before[before.len() - 1] == top);
                let t = top.model();
                let rest = pending(before.drop_last(), self.inner.max_depth, self.inner.tree_max_val);
                let kids = if t.2 >= self.inner.max_depth {
                    Seq::<VisitModel<T>>::empty()
                } else {
                    kids_preorder(t.0, t.1, t.2, self.inner.max_depth, self.inner.tree_max_val, 0)
                };
                assert(rem =~= seq![t] + (kids + rest));
                Seq::filter_distributes_over_add(seq![t], kids + rest, pred);
                Seq::filter_distributes_over_add(kids, rest, pred);
                reveal_with_fuel(Seq::filter, 2);
                assert(seq![t].drop_last() =~= Seq::<VisitModel<T>>::empty());
            }
            if !top.node.has_children() || top.depth == self.inner.max_depth {
                proof {
                    let t = top.model();
                    if t.2 < self.inner.max_depth {
                        lemma_childless_kids_preorder(t.0, t.1, t.2, self.inner.max_depth, self.inner.tree_max_val, 0);
                    }
                    assert(pred(t));
                    assert(seq![t].filter(pred) =~= seq![t]);
                    assert(self.inner.spec_remaining() =~= pending(before.drop_last(), self.inner.max_depth, self.inner.tree_max_val));
                    assert(target =~= seq![t] + self.spec_remaining());
                }
                return Some(top);
            }
            self.inner.push_children(&top);
            proof {
                let t = top.model();
                assert(!pred(t));
                assert(seq![t].filter(pred) =~= Seq::<VisitModel<T>>::empty());
                assert(self.inner.spec_remaining() =~= rem.drop_first());
            }
        }
    }
}

impl<T> OctreeCore<T> {
    fn initial_stack(&self) -> (stack: Vec<Visit<'_, T>>)
        requires
            self.wf(),
        ensures
            match self.spec_root() {
                None => stack@.len() == 0,
                Some(r) => stack@.len() == 1 && stack@[0].model() == (
                    r,
                    center_key(self.spec_geometry().spec_tree_max_val()),
                    0u32,
                ),
            },
    {
        match &self.root {
            None => Vec::new(),
            Some(root) => {
                let center: u16 = #[verifier::truncate] (self.geometry.tree_max_val() as u16);
                let key = OcTreeKey::new(center, center, center);
                proof {
                    assert(key.k =~= center_key(self.spec_geometry().spec_tree_max_val()).k);
                }
                let mut v = Vec::new();
                v.push(Visit { node: root, key, depth: 0 });
                v
            },
        }
    }

    /// The pre-order listing of the whole tree down to `max`.
    pub open spec fn spec_preorder(&self, max: u32) -> Seq<VisitModel<T>> {
        match self.spec_root() {
            None => Seq::empty(),
            Some(r) => preorder(
                r,
                center_key(self.spec_geometry().spec_tree_max_val()),
                0,
                max,
                self.spec_geometry().spec_tree_max_val(),
            ),
        }
    }

    /// Iterates every node down to `max_depth` (0, or anything past the
    /// bottom, meaning the full depth), depth first, children in slot order.
    pub fn iter_nodes_to_depth(&self, max_depth: u32) -> (it: TreeIter<'_, T>)
        requires
            self.wf(),
        ensures
            it.wf(),
            it.spec_max_depth() == self.spec_clamp(max_depth),
            it.spec_tree_max_val() == self.spec_geometry().spec_tree_max_val(),
            it.spec_remaining() == self.spec_preorder(self.spec_clamp(max_depth)),
    {
        let stack = self.initial_stack();
        let it = TreeIter {
            stack,
            max_depth: self.clamp_depth(max_depth),
            tree_max_val: self.geometry.tree_max_val(),
        };
        proof {
            if let Some(r) = self.spec_root() {
                r.lemma_wf_facts();
                assert(it.stack@.drop_last() =~= Seq::<Visit<'_, T>>::empty());
                let tmv = it.tree_max_val;
                let m = it.max_depth;
                assert(pending(it.stack@.drop_last(), m, tmv) =~= Seq::<VisitModel<T>>::empty());
                let top = it.stack@.last().model();
                assert(it.spec_remaining() == preorder(top.0, top.1, top.2, m, tmv) + pending(
                    it.stack@.drop_last(),
                    m,
                    tmv,
                ));
                assert(it.spec_remaining() =~= self.spec_preorder(self.spec_clamp(max_depth)));
            }
        }
        it
    }

    /// Iterates every node in the tree, inner nodes included, depth first.
    pub fn iter_nodes(&self) -> (it: TreeIter<'_, T>)
        requires
            self.wf(),
        ensures
            it.wf(),
            it.spec_max_depth() == self.spec_depth(),
            it.spec_tree_max_val() == self.spec_geometry().spec_tree_max_val(),
            it.spec_remaining() == self.spec_preorder(self.spec_depth()),
    {
        self.iter_nodes_to_depth(self.geometry.tree_depth())
    }

    /// Iterates the tree as if it were pruned to `max_depth`, so that nodes
    /// at `max_depth` are reported as leaves even when they have children.
    pub fn iter_leaves_to_depth(&self, max_depth: u32) -> (it: LeafIter<'_, T>)
        requires
            self.wf(),
        ensures
            it.wf(),
            it.spec_max_depth() == self.spec_clamp(max_depth),
            it.spec_remaining() == self.spec_preorder(self.spec_clamp(max_depth)).filter(
                reported(self.spec_clamp(max_depth)),
            ),
    {
        LeafIter { inner: self.iter_nodes_to_depth(max_depth) }
    }

    /// Iterates the leaves of the tree, depth first.
    pub fn iter_leaves(&self) -> (it: LeafIter<'_, T>)
        requires
            self.wf(),
        ensures
            it.wf(),
            it.spec_max_depth() == self.spec_depth(),
            it.spec_remaining() == self.spec_preorder(self.spec_depth()).filter(
                reported(self.spec_depth()),
            ),
    {
        self.iter_leaves_to_depth(self.geometry.tree_depth())
    }
}

/// No node of the subtree of `node`, a node at depth `d`, lies below `max`.
pub open spec fn within_depth<T>(node: Node<T>, d: nat, max: nat) -> bool
    decreases max - d,
{
    if d >= max {
        !node.spec_has_children()
    } else {
        forall|i: int| #[trigger] node.spec_child(i) matches Some(c) ==> within_depth(c, d + 1, max)
    }
}

proof fn lemma_preorder_len<T>(node: Node<T>, key: OcTreeKey, depth: u32, max: u32, tmv: u32)
    requires
        within_depth(node, depth as nat, max as nat),
    ensures
        preorder(node, key, depth, max, tmv).len() == node.spec_size(),
    decreases max - depth, 9int,
{
    if depth >= max {
        node.lemma_childless_size();
    } else {
        lemma_kids_preorder_len(node, key, depth, max, tmv, 0);
    }
}

proof fn lemma_kids_preorder_len<T>(
    node: Node<T>,
    key: OcTreeKey,
    depth: u32,
    max: u32,
    tmv: u32,
    i: int,
)
    requires
        depth < max,
        0 <= i,
        within_depth(node, depth as nat, max as nat),
    ensures
        kids_preorder(node, key, depth, max, tmv, i).len() == node.kids_size(i),
    decreases max - depth, 8 - i,
{
    if i < 8 {
        lemma_kids_preorder_len(node, key, depth, max, tmv, i + 1);
        if let Some(c) = node.spec_child(i) {
            lemma_preorder_len(
                c,
                visit_child_key(i, tmv, (depth + 1) as u32, key),
                (depth + 1) as u32,
                max,
                tmv,
            );
        }
    }
}

/// A full traversal lists every node exactly once: as many entries as the
/// maintained count, when no node lies below the tree depth.
pub proof fn law_iteration_visits_every_node<T>(t: OctreeCore<T>)
    requires
        t.wf(),
        t.spec_root() matches Some(r) ==> within_depth(r, 0, t.spec_depth() as nat),
    ensures
        t.spec_preorder(t.spec_depth()).len() == t.spec_len(),
{
    if let Some(r) = t.spec_root() {
        lemma_preorder_len(
            r,
            center_key(t.spec_geometry().spec_tree_max_val()),
            0,
            t.spec_depth(),
            t.spec_geometry().spec_tree_max_val(),
        );
    }
}

} // verus!
