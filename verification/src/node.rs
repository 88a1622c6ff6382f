//! Octree nodes.
//!
//! A node holds a value and, lazily, an array of eight child slots. The array
//! is allocated with the first child and released as soon as the last child
//! goes, so a childless node never carries an empty array.

use vstd::prelude::*;
use vstd::std_specs::cmp::PartialEqSpec;

verus! {

/// Number of children an octree node can have.
pub const CHILD_COUNT: usize = 8;

/// A node holding a value of type `T` and up to eight children.
#[derive(Debug, PartialEq)]
pub struct Node<T> {
    value: T,
    children: Option<Vec<Option<Node<T>>>>,
}

impl<T: PartialEq> Node<T> {
    /// All eight children exist, none has children of its own, and each of
    /// children 1..8 compares equal to child 0.
    pub open spec fn spec_collapsible(&self) -> bool {
        &&& self.eight_leaf_children()
        &&& forall|i: int|
            1 <= i < 8 ==> (#[trigger] self.spec_child(i) matches Some(c) && self.spec_child(0) matches Some(
                first,
            ) && c.spec_value().eq_spec(&first.spec_value()))
    }
}

impl<T> Node<T> {
    /// The value stored in the node.
    pub closed spec fn spec_value(&self) -> T {
        self.value
    }

    /// The child in slot `i`, if any.
    pub closed spec fn spec_child(&self, i: int) -> Option<Node<T>> {
        match self.children {
            None => None,
            Some(v) => if 0 <= i < v@.len() {
                v@[i]
            } else {
                None
            },
        }
    }

    /// Whether the child array is allocated.
    pub closed spec fn array_allocated(&self) -> bool {
        self.children is Some
    }

    /// Well-formedness, recursively: an allocated array has exactly eight
    /// slots and at least one child.
    pub closed spec fn wf(&self) -> bool
        decreases self,
    {
        match self.children {
            None => true,
            Some(v) => {
                &&& v@.len() == CHILD_COUNT
                &&& exists|i: int| 0 <= i < 8 && #[trigger] v@[i] is Some
                &&& forall|i: int|
                    0 <= i < 8 ==> (#[trigger] v@[i] matches Some(c) ==> {
                        proof {
                            lemma_vec_elem_decreases(v, i);
                        }
                        c.wf()
                    })
            }
        }
    }

    /// A child is strictly smaller than its parent.
    pub proof fn lemma_child_decreases(&self, i: int)
        ensures
            self.spec_child(i) matches Some(c) ==> decreases_to!(*self => c),
    {
        if let Some(v) = self.children {
            if 0 <= i < v@.len() {
                if let Some(c) = v@[i] {
                    lemma_vec_elem_decreases(v, i);
                }
            }
        }
    }

    /// Children of a well-formed node are well-formed, and allocation is the
    /// same thing as having a child.
    pub proof fn lemma_wf_facts(&self)
        requires
            self.wf(),
        ensures
            forall|i: int| #[trigger] self.spec_child(i) matches Some(c) ==> c.wf(),
            forall|i: int| !(0 <= i < 8) ==> #[trigger] self.spec_child(i) is None,
            self.array_allocated() == self.spec_has_children(),
    {
        if let Some(v) = self.children {
            let i = choose|i: int| 0 <= i < 8 && v@[i] is Some;
            assert(self.spec_child(i) is Some);
        }
    }

    /// Some slot in `0..8` holds a child.
    pub open spec fn spec_has_children(&self) -> bool {
        exists|i: int| 0 <= i < 8 && #[trigger] self.spec_child(i) is Some
    }

    /// A childless node holding `value`.
    pub open spec fn is_bare_leaf(&self, value: T) -> bool {
        &&& self.wf()
        &&& self.spec_value() == value
        &&& !self.array_allocated()
        &&& forall|i: int| #[trigger] self.spec_child(i) is None
    }

    /// `other` has the same value and the same children as `self`, except
    /// possibly in slot `i`.
    pub open spec fn same_except(&self, other: Node<T>, i: int) -> bool {
        &&& self.spec_value() == other.spec_value()
        &&& forall|j: int| j != i ==> #[trigger] self.spec_child(j) == other.spec_child(j)
    }

    /// Number of nodes in the subtree, counting this one.
    pub open spec fn spec_size(&self) -> nat
        decreases *self, 9int,
    {
        1 + self.kids_size(0)
    }

    /// Sum of the subtree sizes of the children in slots `i..8`.
    pub open spec fn kids_size(&self, i: int) -> nat
        decreases *self, 8 - i,
    {
        if 0 <= i < 8 {
            let here: nat = match self.spec_child(i) {
                Some(c) => {
                    proof {
                        self.lemma_child_decreases(i);
                    }
                    c.spec_size()
                },
                None => 0,
            };
            here + self.kids_size(i + 1)
        } else {
            0
        }
    }

    /// Number of leaves in the subtree; a childless node is its own leaf.
    pub open spec fn spec_leaf_count(&self) -> nat
        decreases *self, 9int,
    {
        if !self.spec_has_children() {
            1
        } else {
            self.kids_leaves(0)
        }
    }

    /// Sum of the leaf counts of the children in slots `i..8`.
    pub open spec fn kids_leaves(&self, i: int) -> nat
        decreases *self, 8 - i,
    {
        if 0 <= i < 8 {
            let here: nat = match self.spec_child(i) {
                Some(c) => {
                    proof {
                        self.lemma_child_decreases(i);
                    }
                    c.spec_leaf_count()
                },
                None => 0,
            };
            here + self.kids_leaves(i + 1)
        } else {
            0
        }
    }

    /// Number of occupied slots among `i..8`.
    pub open spec fn kids_count(&self, i: int) -> nat
        decreases 8 - i,
    {
        if 0 <= i < 8 {
            (if self.spec_child(i) is Some { 1nat } else { 0nat }) + self.kids_count(i + 1)
        } else {
            0
        }
    }

    /// The occupied slots among `0..n` with their children, in slot order.
    pub open spec fn kids_upto(&self, n: int) -> Seq<(u8, Node<T>)>
        decreases n,
    {
        if n <= 0 {
            Seq::empty()
        } else {
            let rest = self.kids_upto(n - 1);
            match self.spec_child(n - 1) {
                Some(c) => rest.push(((n - 1) as u8, c)),
                None => rest,
            }
        }
    }

    /// Subtree size of an optional child, zero when absent.
    pub open spec fn opt_size(c: Option<Node<T>>) -> nat {
        match c {
            Some(n) => n.spec_size(),
            None => 0,
        }
    }

    /// Leaf count of an optional child, zero when absent.
    pub open spec fn opt_leaves(c: Option<Node<T>>) -> nat {
        match c {
            Some(n) => n.spec_leaf_count(),
            None => 0,
        }
    }

    /// All eight slots hold childless children.
    pub open spec fn eight_leaf_children(&self) -> bool {
        forall|i: int|
            0 <= i < 8 ==> (#[trigger] self.spec_child(i) matches Some(c) && !c.spec_has_children())
    }

    /// `self` is what `prune` leaves: no array, and a clone of the value of
    /// `old`'s first child.
    pub open spec fn pruned_from(&self, old: Node<T>) -> bool
        where T: Clone
    {
        &&& self.wf()
        &&& !self.array_allocated()
        &&& (forall|i: int| #[trigger] self.spec_child(i) is None)
        &&& old.spec_child(0) matches Some(first) && cloned(first.spec_value(), self.spec_value())
    }

    /// `self` is `old` split into eight childless children, each holding a
    /// clone of `old`'s value.
    pub open spec fn expanded_from(&self, old: Node<T>) -> bool
        where T: Clone
    {
        &&& self.wf()
        &&& self.spec_value() == old.spec_value()
        &&& self.array_allocated()
        &&& forall|i: int|
            0 <= i < 8 ==> (#[trigger] self.spec_child(i) matches Some(c) && {
                &&& c.wf()
                &&& !c.array_allocated()
                &&& forall|j: int| #[trigger] c.spec_child(j) is None
                &&& cloned(old.spec_value(), c.spec_value())
            })
    }
}


fn empty_slots<T>() -> (v: Vec<Option<Node<T>>>)
    ensures
        v@.len() == CHILD_COUNT,
        forall|i: int| 0 <= i < 8 ==> #[trigger] v@[i] is None,
{
    let mut v: Vec<Option<Node<T>>> = Vec::new();
    let mut i: usize = 0;
    while i < CHILD_COUNT
        invariant
            i <= CHILD_COUNT,
            v@.len() == i,
            forall|j: int| 0 <= j < i ==> #[trigger] v@[j] is None,
        decreases CHILD_COUNT - i,
    {
        v.push(None);
        i += 1;
    }
    v
}

impl<T> Node<T> {
    /// The childless node holding `value`.
    pub closed spec fn leaf_of(value: T) -> Node<T> {
        Node { value, children: None }
    }

    /// A childless node without an array is the leaf of its value.
    pub proof fn lemma_bare_leaf_is_leaf_of(&self, value: T)
        requires
            self.is_bare_leaf(value),
        ensures
            *self == Node::leaf_of(value),
    {
    }

    /// The leaf of a value is a bare leaf holding it.
    pub proof fn lemma_leaf_of(value: T)
        ensures
            Node::leaf_of(value).is_bare_leaf(value),
    {
    }

    /// Creates a childless node holding `value`.
    pub fn new(value: T) -> (node: Self)
        ensures
            node.is_bare_leaf(value),
    {
        Node { value, children: None }
    }

    /// The value stored in this node.
    pub fn value(&self) -> (r: &T)
        ensures
            *r == self.spec_value(),
    {
        &self.value
    }

    /// Mutable access to the value stored in this node.
    pub fn value_mut(&mut self) -> (r: &mut T)
        ensures
            *r == old(self).spec_value(),
            final(self).spec_value() == *final(r),
            forall|i: int| #[trigger] final(self).spec_child(i) == old(self).spec_child(i),
            final(self).array_allocated() == old(self).array_allocated(),
            final(self).wf() == old(self).wf(),
    {
        &mut self.value
    }

    /// Replaces the value stored in this node.
    pub fn set_value(&mut self, value: T)
        ensures
            final(self).spec_value() == value,
            forall|i: int| #[trigger] final(self).spec_child(i) == old(self).spec_child(i),
            final(self).array_allocated() == old(self).array_allocated(),
            final(self).wf() == old(self).wf(),
    {
        self.value = value;
    }

    /// True when the child array is allocated; a well-formed node allocates
    /// it with its first child and releases it with its last.
    pub fn has_child_array(&self) -> (r: bool)
        ensures
            r == self.array_allocated(),
    {
        self.children.is_some()
    }

    /// True when at least one child slot is occupied.
    pub fn has_children(&self) -> (r: bool)
        requires
            self.wf(),
        ensures
            r == self.spec_has_children(),
    {
        match &self.children {
            None => false,
            Some(children) => {
                let mut i: usize = 0;
                while i < CHILD_COUNT
                    invariant
                        i <= CHILD_COUNT,
                        children@.len() == CHILD_COUNT,
                        self.children == Some(*children),
                        forall|j: int| 0 <= j < i ==> self.spec_child(j) is None,
                    decreases CHILD_COUNT - i,
                {
                    if children[i].is_some() {
                        assert(self.spec_child(i as int) is Some);
                        return true;
                    }
                    i += 1;
                }
                false
            },
        }
    }

    /// The array slot of child `index`, or `None` when `index` names no child.
    fn checked_slot(index: u8) -> (r: Option<usize>)
        ensures
            r == (if (index as usize) < CHILD_COUNT { Some(index as usize) } else { None::<usize> }),
    {
        if (index as usize) < CHILD_COUNT {
            Some(index as usize)
        } else {
            None
        }
    }

    /// True when the child at `index` exists.
    pub fn child_exists(&self, index: u8) -> (r: bool)
        requires
            self.wf(),
            (index as usize) < CHILD_COUNT,
        ensures
            r == self.spec_child(index as int) is Some,
    {
        let slot = Self::checked_slot(index).expect("child index out of range");
        match &self.children {
            None => false,
            Some(children) => children[slot].is_some(),
        }
    }

    /// The child at `index`, if it exists.
    pub fn child(&self, index: u8) -> (r: Option<&Node<T>>)
        requires
            self.wf(),
            (index as usize) < CHILD_COUNT,
        ensures
            match r {
                Some(c) => self.spec_child(index as int) == Some(*c),
                None => self.spec_child(index as int) is None,
            },
    {
        let slot = Self::checked_slot(index).expect("child index out of range");
        match &self.children {
            None => None,
            Some(children) => match &children[slot] {
                Some(c) => Some(c),
                None => None,
            },
        }
    }

    /// Mutable access to the child at `index`, if it exists.
    pub fn child_mut(&mut self, index: u8) -> (r: Option<&mut Node<T>>)
        requires
            old(self).wf(),
            (index as usize) < CHILD_COUNT,
        ensures
            match r {
                Some(c) => {
                    &&& old(self).spec_child(index as int) == Some(*c)
                    &&& final(self).spec_child(index as int) == Some(*final(c))
                    &&& old(self).wf() && final(c).wf() ==> final(self).wf()
                },
                None => {
                    &&& old(self).spec_child(index as int) is None
                    &&& *final(self) == *old(self)
                },
            },
            final(self).same_except(*old(self), index as int),
            final(self).array_allocated() == old(self).array_allocated(),
    {
        if !self.child_exists(index) {
            return None;
        }
        match &mut self.children {
            None => None,
            Some(children) => children[index as usize].as_mut(),
        }
    }
}

impl<T> Node<T> {
    /// Slots `j..8` of two nodes that agree outside slot `i` differ in total
    /// size exactly by the difference in slot `i`.
    pub proof fn lemma_kids_size_replace(a: Node<T>, b: Node<T>, i: int, j: int)
        requires
            a.same_except(b, i),
            0 <= i < 8,
            0 <= j,
        ensures
            j <= i ==> a.kids_size(j) + Self::opt_size(b.spec_child(i)) == b.kids_size(j)
                + Self::opt_size(a.spec_child(i)),
            i < j ==> a.kids_size(j) == b.kids_size(j),
            j <= i ==> a.kids_leaves(j) + Self::opt_leaves(b.spec_child(i)) == b.kids_leaves(j)
                + Self::opt_leaves(a.spec_child(i)),
            i < j ==> a.kids_leaves(j) == b.kids_leaves(j),
        decreases 8 - j,
    {
        if j < 8 {
            Self::lemma_kids_size_replace(a, b, i, j + 1);
            if j != i {
                assert(a.spec_child(j) == b.spec_child(j));
            }
        }
    }

    /// Replacing the child in slot `i` changes the subtree size by the
    /// difference between the old and the new child.
    pub proof fn lemma_size_replace(a: Node<T>, b: Node<T>, i: int)
        requires
            a.same_except(b, i),
            0 <= i < 8,
        ensures
            a.spec_size() + Self::opt_size(b.spec_child(i)) == b.spec_size() + Self::opt_size(
                a.spec_child(i),
            ),
    {
        Self::lemma_kids_size_replace(a, b, i, 0);
    }

    /// Nodes with the same children have the same subtree size and leaf
    /// count, whatever their values.
    pub proof fn lemma_same_children_size(a: Node<T>, b: Node<T>)
        requires
            forall|i: int| #[trigger] a.spec_child(i) == b.spec_child(i),
        ensures
            a.spec_size() == b.spec_size(),
            a.spec_leaf_count() == b.spec_leaf_count(),
    {
        Self::lemma_same_children_kids(a, b, 0);
        assert(a.spec_has_children() == b.spec_has_children()) by {
            if a.spec_has_children() {
                let i = choose|i: int| 0 <= i < 8 && #[trigger] a.spec_child(i) is Some;
                assert(b.spec_child(i) is Some);
            }
            if b.spec_has_children() {
                let i = choose|i: int| 0 <= i < 8 && #[trigger] b.spec_child(i) is Some;
                assert(a.spec_child(i) is Some);
            }
        }
    }

    proof fn lemma_same_children_kids(a: Node<T>, b: Node<T>, j: int)
        requires
            forall|i: int| #[trigger] a.spec_child(i) == b.spec_child(i),
        ensures
            a.kids_size(j) == b.kids_size(j),
            a.kids_leaves(j) == b.kids_leaves(j),
        decreases 8 - j,
    {
        if 0 <= j < 8 {
            Self::lemma_same_children_kids(a, b, j + 1);
            assert(a.spec_child(j) == b.spec_child(j));
        }
    }

    /// A node split into eight childless children has nine nodes.
    pub proof fn lemma_expanded_size(&self)
        requires
            forall|i: int|
                0 <= i < 8 ==> (#[trigger] self.spec_child(i) matches Some(c) && forall|k: int|
                    #[trigger] c.spec_child(k) is None),
        ensures
            self.spec_size() == 9,
    {
        assert forall|i: int| 0 <= i < 8 implies (#[trigger] self.spec_child(i) matches Some(c)
            && !c.spec_has_children()) by {
            let c = self.spec_child(i).unwrap();
            assert(c.spec_child(0) is None);
        }
        self.lemma_eight_leaves_size();
    }

    /// `lemma_size_replace` for every pair of nodes at once.
    pub proof fn lemma_size_replace_all()
        ensures
            forall|a: Node<T>, b: Node<T>, i: int|
                #![trigger a.same_except(b, i)]
                a.same_except(b, i) && 0 <= i < 8 ==> a.spec_size() + Self::opt_size(b.spec_child(i))
                    == b.spec_size() + Self::opt_size(a.spec_child(i)),
    {
        assert forall|a: Node<T>, b: Node<T>, i: int|
            a.same_except(b, i) && 0 <= i < 8 implies a.spec_size() + Self::opt_size(
            b.spec_child(i),
        ) == b.spec_size() + Self::opt_size(a.spec_child(i)) by {
            Self::lemma_size_replace(a, b, i);
        }
    }

    /// Each child's subtree is no larger than what the slots from `j` on hold.
    pub proof fn lemma_child_size_le(&self, i: int, j: int)
        requires
            0 <= j <= i < 8,
        ensures
            Self::opt_size(self.spec_child(i)) <= self.kids_size(j),
            Self::opt_leaves(self.spec_child(i)) <= self.kids_leaves(j),
        decreases i - j,
    {
        if j < i {
            self.lemma_child_size_le(i, j + 1);
        }
    }

    /// A node with no children has size one.
    pub proof fn lemma_childless_size(&self)
        requires
            !self.spec_has_children(),
        ensures
            self.spec_size() == 1,
            self.spec_leaf_count() == 1,
    {
        self.lemma_childless_kids(0);
    }

    proof fn lemma_childless_kids(&self, j: int)
        requires
            !self.spec_has_children(),
        ensures
            self.kids_size(j) == 0,
            self.kids_leaves(j) == 0,
            self.kids_count(j) == 0,
        decreases 8 - j,
    {
        if 0 <= j < 8 {
            assert(self.spec_child(j) is None);
            self.lemma_childless_kids(j + 1);
        }
    }

    /// Inserts a child holding `value` at `index`, replacing any existing one.
    ///
    /// Returns `true` when an empty slot was filled, `false` when an existing
    /// child (and its subtree) was overwritten.
    pub fn create_child(&mut self, index: u8, value: T) -> (created: bool)
        requires
            old(self).wf(),
            (index as usize) < CHILD_COUNT,
        ensures
            final(self).wf(),
            created == old(self).spec_child(index as int) is None,
            final(self).spec_child(index as int) matches Some(c) && c.is_bare_leaf(value),
            final(self).same_except(*old(self), index as int),
            final(self).array_allocated(),
    {
        let mut children = match self.children.take() {
            Some(v) => v,
            None => empty_slots(),
        };
        let was_empty = children[index as usize].is_none();
        children[index as usize] = Some(Node::new(value));
        self.children = Some(children);
        proof {
            assert(self.children.unwrap()@[index as int] is Some);
            assert forall|j: int| j != index as int implies #[trigger] self.spec_child(j) == old(
                self,
            ).spec_child(j) by {}
        }
        was_empty
    }

    /// Number of nodes in the subtree rooted at this node, counting itself.
    pub fn subtree_size(&self) -> (n: usize)
        requires
            self.wf(),
            self.spec_size() <= usize::MAX,
        ensures
            n == self.spec_size(),
        decreases self,
    {
        let mut total: usize = 1;
        match &self.children {
            None => {
                proof {
                    self.lemma_wf_facts();
                    self.lemma_childless_size();
                }
            },
            Some(children) => {
                let mut i: usize = 0;
                while i < CHILD_COUNT
                    invariant
                        i <= CHILD_COUNT,
                        self.wf(),
                        self.spec_size() <= usize::MAX,
                        self.children == Some(*children),
                        children@.len() == CHILD_COUNT,
                        total + self.kids_size(i as int) == 1 + self.kids_size(0),
                    decreases CHILD_COUNT - i,
                {
                    proof {
                        self.lemma_wf_facts();
                    }
                    if let Some(c) = &children[i] {
                        proof {
                            assert(self.spec_child(i as int) == Some(*c));
                            self.lemma_child_decreases(i as int);
                            self.lemma_child_size_le(i as int, 0);
                        }
                        total += c.subtree_size();
                    }
                    i += 1;
                }
            },
        }
        total
    }

    /// Number of leaves in the subtree rooted at this node. A childless node
    /// is its own leaf, so this never returns zero.
    pub fn leaf_count(&self) -> (n: usize)
        requires
            self.wf(),
            self.spec_leaf_count() <= usize::MAX,
        ensures
            n == self.spec_leaf_count(),
            n >= 1,
        decreases self,
    {
        proof {
            self.lemma_leaf_count_positive();
        }
        if !self.has_children() {
            return 1;
        }
        let mut total: usize = 0;
        match &self.children {
            None => {
                proof {
                    self.lemma_wf_facts();
                }
            },
            Some(children) => {
                let mut i: usize = 0;
                while i < CHILD_COUNT
                    invariant
                        i <= CHILD_COUNT,
                        self.wf(),
                        self.spec_has_children(),
                        self.spec_leaf_count() <= usize::MAX,
                        self.children == Some(*children),
                        children@.len() == CHILD_COUNT,
                        total + self.kids_leaves(i as int) == self.kids_leaves(0),
                    decreases CHILD_COUNT - i,
                {
                    proof {
                        self.lemma_wf_facts();
                    }
                    if let Some(c) = &children[i] {
                        proof {
                            assert(self.spec_child(i as int) == Some(*c));
                            self.lemma_child_decreases(i as int);
                            self.lemma_child_size_le(i as int, 0);
                        }
                        total += c.leaf_count();
                    }
                    i += 1;
                }
            },
        }
        total
    }
}

impl<T> Node<T> {
    /// Removes the child at `index` and everything below it.
    ///
    /// Returns the number of nodes removed, zero when the slot was empty. The
    /// child array is released as soon as its last child goes.
    pub fn delete_child(&mut self, index: u8) -> (removed: usize)
        requires
            old(self).wf(),
            (index as usize) < CHILD_COUNT,
            old(self).spec_size() <= usize::MAX,
        ensures
            final(self).wf(),
            removed == Self::opt_size(old(self).spec_child(index as int)),
            final(self).spec_child(index as int) is None,
            final(self).same_except(*old(self), index as int),
            final(self).spec_size() + removed == old(self).spec_size(),
    {
        proof {
            self.lemma_wf_facts();
        }
        let mut children = match self.children.take() {
            None => {
                return 0;
            },
            Some(v) => v,
        };
        let ghost before = children@;
        let taken = children[index as usize].take();
        proof {
            assert(children@ == before.update(index as int, None));
        }
        match taken {
            None => {
                self.children = Some(children);
                proof {
                    assert(children@ =~= before);
                    assert(self.spec_size() == old(self).spec_size()) by {
                        Self::lemma_size_replace(*self, *old(self), index as int);
                    }
                }
                0
            },
            Some(child) => {
                proof {
                    old(self).lemma_child_size_le(index as int, 0);
                    assert(old(self).spec_child(index as int) == Some(child));
                    let i = index as int;
                    assert(forall|j: int| 0 <= j < 8 && j != i ==> (#[trigger] children@[j] matches Some(c) ==> c.wf()));
                }
                let removed = child.subtree_size();
                let mut any = false;
                let mut i: usize = 0;
                while i < CHILD_COUNT
                    invariant
                        i <= CHILD_COUNT,
                        children@.len() == CHILD_COUNT,
                        any == exists|j: int| 0 <= j < i && #[trigger] children@[j] is Some,
                    decreases CHILD_COUNT - i,
                {
                    if children[i].is_some() {
                        any = true;
                    }
                    i += 1;
                }
                if any {
                    self.children = Some(children);
                } else {
                    self.children = None;
                }
                proof {
                    assert forall|j: int| j != index as int implies #[trigger] self.spec_child(j)
                        == old(self).spec_child(j) by {
                        if 0 <= j < 8 {
                            assert(children@[j] == before[j]);
                            if !any {
                                assert(children@[j] is None);
                            }
                        }
                    }
                    Self::lemma_size_replace(*self, *old(self), index as int);
                }
                removed
            },
        }
    }

    /// Drops the child array, removing every child at once.
    ///
    /// Returns the number of nodes removed.
    pub fn clear_children(&mut self) -> (removed: usize)
        requires
            old(self).wf(),
            old(self).spec_size() <= usize::MAX,
        ensures
            final(self).is_bare_leaf(old(self).spec_value()),
            removed + 1 == old(self).spec_size(),
    {
        proof {
            self.lemma_wf_facts();
        }
        match self.children.take() {
            None => {
                proof {
                    old(self).lemma_childless_size();
                }
                0
            },
            Some(children) => {
                let mut total: usize = 0;
                let mut i: usize = 0;
                while i < CHILD_COUNT
                    invariant
                        i <= CHILD_COUNT,
                        old(self).wf(),
                        old(self).spec_size() <= usize::MAX,
                        old(self).children == Some(children),
                        children@.len() == CHILD_COUNT,
                        total + old(self).kids_size(i as int) == old(self).kids_size(0),
                    decreases CHILD_COUNT - i,
                {
                    proof {
                        old(self).lemma_wf_facts();
                    }
                    if let Some(c) = &children[i] {
                        proof {
                            assert(old(self).spec_child(i as int) == Some(*c));
                            old(self).lemma_child_size_le(i as int, 0);
                        }
                        total += c.subtree_size();
                    }
                    i += 1;
                }
                total
            },
        }
    }

    /// Number of occupied child slots.
    pub fn child_count(&self) -> (n: usize)
        requires
            self.wf(),
        ensures
            n == self.kids_count(0),
            n <= CHILD_COUNT,
    {
        let mut n: usize = 0;
        let mut i: u8 = 0;
        while i < 8
            invariant
                i <= 8,
                self.wf(),
                n + self.kids_count(i as int) == self.kids_count(0),
                n <= i,
            decreases 8 - i,
        {
            if self.child_exists(i) {
                n += 1;
            }
            i += 1;
        }
        proof {
            self.lemma_kids_count_bound(0);
        }
        n
    }

    proof fn lemma_kids_count_bound(&self, j: int)
        requires
            0 <= j <= 8,
        ensures
            self.kids_count(j) <= 8 - j,
        decreases 8 - j,
    {
        if j < 8 {
            self.lemma_kids_count_bound(j + 1);
        }
    }

    /// The occupied children together with their indices, in slot order.
    pub fn children_iter(&self) -> (r: Vec<(u8, &Node<T>)>)
        requires
            self.wf(),
        ensures
            r@.len() == self.kids_upto(8).len(),
            forall|k: int|
                0 <= k < r@.len() ==> (#[trigger] r@[k]).0 == self.kids_upto(8)[k].0 && *r@[k].1
                    == self.kids_upto(8)[k].1,
    {
        let mut r: Vec<(u8, &Node<T>)> = Vec::new();
        let mut i: u8 = 0;
        while i < 8
            invariant
                i <= 8,
                self.wf(),
                r@.len() == self.kids_upto(i as int).len(),
                forall|k: int|
                    0 <= k < r@.len() ==> (#[trigger] r@[k]).0 == self.kids_upto(i as int)[k].0
                        && *r@[k].1 == self.kids_upto(i as int)[k].1,
            decreases 8 - i,
        {
            if let Some(c) = self.child(i) {
                r.push((i, c));
            }
            i += 1;
        }
        r
    }
}

impl<T: PartialEq> Node<T> {
    /// True when this node's eight children can be merged back into it:
    /// every child exists, is childless, and holds a value equal to the
    /// first child's.
    pub fn is_collapsible(&self) -> (r: bool)
        requires
            self.wf(),
        ensures
            r ==> self.eight_leaf_children(),
            T::obeys_eq_spec() ==> r == self.spec_collapsible(),
    {
        proof {
            self.lemma_wf_facts();
        }
        let first = match self.child(0) {
            None => {
                return false;
            },
            Some(f) => f,
        };
        if first.has_children() {
            return false;
        }
        let mut i: u8 = 1;
        while i < 8
            invariant
                1 <= i <= 8,
                self.wf(),
                self.spec_child(0) == Some(*first),
                !first.spec_has_children(),
                forall|j: int|
                    0 <= j < i ==> (#[trigger] self.spec_child(j) matches Some(c)
                        && !c.spec_has_children()),
                T::obeys_eq_spec() ==> forall|j: int|
                    1 <= j < i ==> (#[trigger] self.spec_child(j) matches Some(c)
                        && c.spec_value().eq_spec(&first.spec_value())),
            decreases 8 - i,
        {
            proof {
                self.lemma_wf_facts();
            }
            match self.child(i) {
                None => {
                    return false;
                },
                Some(c) => {
                    if c.has_children() {
                        return false;
                    }
                    if !(c.value == first.value) {
                        return false;
                    }
                },
            }
            i += 1;
        }
        true
    }
}

impl<T: Clone + PartialEq> Node<T> {
    /// Merges eight equal childless children back into this node, which takes
    /// the first child's value.
    ///
    /// Returns the number of nodes removed: eight on success, zero when the
    /// node was not collapsible (and is then left as it was).
    pub fn prune(&mut self) -> (removed: usize)
        requires
            old(self).wf(),
        ensures
            final(self).wf(),
            removed == 0 || removed == CHILD_COUNT,
            removed == 0 ==> *final(self) == *old(self),
            removed == CHILD_COUNT ==> old(self).eight_leaf_children() && final(self).pruned_from(
                *old(self),
            ),
            T::obeys_eq_spec() ==> (removed == CHILD_COUNT <==> old(self).spec_collapsible()),
    {
        if !self.is_collapsible() {
            return 0;
        }
        proof {
            self.lemma_wf_facts();
            self.lemma_eight_leaves_size();
        }
        let value = match self.child(0) {
            Some(first) => first.value.clone(),
            None => {
                return 0;
            },
        };
        self.value = value;
        proof {
            assert(self.children == old(self).children);
            assert forall|i: int| 0 <= i < 8 implies (#[trigger] self.spec_child(i) matches Some(c)
                && !c.spec_has_children()) by {
                assert(self.spec_child(i) == old(self).spec_child(i));
            }
            self.lemma_eight_leaves_size();
        }
        self.clear_children()
    }
}

impl<T> Node<T> {
    /// A node whose eight children are all leaves has nine nodes.
    pub proof fn lemma_eight_leaves_size_pub(&self)
        requires
            self.eight_leaf_children(),
        ensures
            self.spec_size() == 9,
    {
        self.lemma_eight_leaves_size();
    }

    proof fn lemma_eight_leaves_size(&self)
        requires
            self.eight_leaf_children(),
        ensures
            self.spec_size() == 9,
    {
        self.lemma_eight_leaves_kids(0);
    }

    proof fn lemma_eight_leaves_kids(&self, j: int)
        requires
            self.eight_leaf_children(),
            0 <= j <= 8,
        ensures
            self.kids_size(j) == 8 - j,
        decreases 8 - j,
    {
        if j < 8 {
            self.lemma_eight_leaves_kids(j + 1);
            assert(self.spec_child(j) is Some);
            let c = self.spec_child(j).unwrap();
            c.lemma_childless_size();
        }
    }
}

impl<T: Clone> Node<T> {
    /// Splits a childless node into eight children, each holding a clone of
    /// its value.
    ///
    /// Returns the number of nodes created, zero when the node already had
    /// children (it is then left as it was).
    pub fn expand(&mut self) -> (created: usize)
        requires
            old(self).wf(),
        ensures
            final(self).wf(),
            old(self).spec_has_children() ==> created == 0 && *final(self) == *old(self),
            !old(self).spec_has_children() ==> created == CHILD_COUNT && final(self).expanded_from(
                *old(self),
            ),
    {
        if self.has_children() {
            return 0;
        }
        proof {
            self.lemma_wf_facts();
        }
        let mut i: u8 = 0;
        while i < 8
            invariant
                i <= 8,
                self.wf(),
                self.spec_value() == old(self).spec_value(),
                i > 0 ==> self.array_allocated(),
                forall|j: int|
                    0 <= j < i ==> (#[trigger] self.spec_child(j) matches Some(c) && {
                        &&& c.wf()
                        &&& !c.array_allocated()
                        &&& forall|k: int| #[trigger] c.spec_child(k) is None
                        &&& cloned(old(self).spec_value(), c.spec_value())
                    }),
            decreases 8 - i,
        {
            let v = self.value.clone();
            self.create_child(i, v);
            i += 1;
        }
        CHILD_COUNT
    }
}

impl<T> Node<T> {
    /// A well-formed subtree always has at least one leaf.
    pub proof fn lemma_leaf_count_positive(&self)
        requires
            self.wf(),
        ensures
            self.spec_leaf_count() >= 1,
        decreases *self,
    {
        if self.spec_has_children() {
            let i = choose|i: int| 0 <= i < 8 && #[trigger] self.spec_child(i) is Some;
            let c = self.spec_child(i).unwrap();
            self.lemma_child_decreases(i);
            self.lemma_wf_facts();
            c.lemma_leaf_count_positive();
            self.lemma_child_size_le(i, 0);
        }
    }
}

impl<T> Node<T> {
    /// A subtree has no more leaves than nodes.
    pub proof fn lemma_leaves_le_size(&self)
        ensures
            self.spec_leaf_count() <= self.spec_size(),
        decreases *self, 9int,
    {
        self.lemma_kids_leaves_le(0);
        if !self.spec_has_children() {
            self.lemma_childless_size();
        }
    }

    proof fn lemma_kids_leaves_le(&self, j: int)
        ensures
            self.kids_leaves(j) <= self.kids_size(j),
        decreases *self, 8 - j,
    {
        if 0 <= j < 8 {
            self.lemma_kids_leaves_le(j + 1);
            if let Some(c) = self.spec_child(j) {
                self.lemma_child_decreases(j);
                c.lemma_leaves_le_size();
            }
        }
    }
}

impl<T> Node<T> {
    /// The two subtrees hold the same values in the same shape.
    pub open spec fn same_tree(&self, other: Node<T>) -> bool
        decreases *self, 9int,
    {
        self.spec_value() == other.spec_value() && self.same_kids(other, 0)
    }

    /// The children in slots `i..8` of the two nodes are pairwise the same
    /// subtrees, or pairwise absent.
    pub open spec fn same_kids(&self, other: Node<T>, i: int) -> bool
        decreases *self, 8 - i,
    {
        if 0 <= i < 8 {
            let here = match self.spec_child(i) {
                None => other.spec_child(i) is None,
                Some(a) => {
                    proof {
                        self.lemma_child_decreases(i);
                    }
                    other.spec_child(i) matches Some(b) && a.same_tree(b)
                },
            };
            here && self.same_kids(other, i + 1)
        } else {
            true
        }
    }

    /// Two subtrees of the same shape have the same number of nodes.
    pub proof fn lemma_same_tree_size(&self, other: Node<T>)
        requires
            self.same_tree(other),
        ensures
            self.spec_size() == other.spec_size(),
        decreases *self, 9int,
    {
        self.lemma_same_kids_size(other, 0);
    }

    proof fn lemma_same_kids_size(&self, other: Node<T>, i: int)
        requires
            self.same_kids(other, i),
        ensures
            self.kids_size(i) == other.kids_size(i),
        decreases *self, 8 - i,
    {
        if 0 <= i < 8 {
            self.lemma_same_kids_size(other, i + 1);
            if let Some(a) = self.spec_child(i) {
                self.lemma_child_decreases(i);
                a.lemma_same_tree_size(other.spec_child(i).unwrap());
            }
        }
    }
}

impl<T> Node<T> {
    /// `other` has the shape of `self`, and each of its values is what `f`
    /// returns for the value in the same place.
    pub open spec fn maps_to<U, F: Fn(&T) -> U>(&self, other: Node<U>, f: F) -> bool
        decreases *self, 9int,
    {
        &&& call_ensures(f, (&self.spec_value(),), other.spec_value())
        &&& self.array_allocated() == other.array_allocated()
        &&& self.kids_map_to(other, f, 0)
    }

    /// The children in slots `i..8` of `other` are those of `self` mapped by
    /// `f`.
    pub open spec fn kids_map_to<U, F: Fn(&T) -> U>(&self, other: Node<U>, f: F, i: int) -> bool
        decreases *self, 8 - i,
    {
        if 0 <= i < 8 {
            let here = match self.spec_child(i) {
                None => other.spec_child(i) is None,
                Some(a) => {
                    proof {
                        self.lemma_child_decreases(i);
                    }
                    other.spec_child(i) matches Some(b) && a.maps_to(b, f)
                },
            };
            here && self.kids_map_to(other, f, i + 1)
        } else {
            true
        }
    }

    /// Copies the subtree, passing each value through `f`.
    pub fn map_values<U, F: Fn(&T) -> U>(&self, f: &F) -> (r: Node<U>)
        requires
            self.wf(),
            forall|v: &T| #[trigger] call_requires(*f, (v,)),
        ensures
            r.wf(),
            self.maps_to(r, *f),
        decreases self,
    {
        let value = f(&self.value);
        match &self.children {
            None => {
                proof {
                    self.lemma_wf_facts();
                }
                let r = Node { value, children: None };
                proof {
                    self.lemma_maps_childless(r, *f, 0);
                }
                r
            },
            Some(children) => {
                let mut out: Vec<Option<Node<U>>> = Vec::new();
                let mut i: usize = 0;
                while i < CHILD_COUNT
                    invariant
                        i <= CHILD_COUNT,
                        self.wf(),
                        self.children == Some(*children),
                        children@.len() == CHILD_COUNT,
                        out@.len() == i,
                        forall|v: &T| #[trigger] call_requires(*f, (v,)),
                        forall|j: int|
                            0 <= j < i ==> match children@[j] {
                                None => out@[j] is None,
                                Some(a) => (#[trigger] out@[j]) matches Some(b) && b.wf()
                                    && a.maps_to(b, *f),
                            },
                    decreases CHILD_COUNT - i,
                {
                    proof {
                        self.lemma_wf_facts();
                    }
                    match &children[i] {
                        None => {
                            out.push(None);
                        },
                        Some(c) => {
                            proof {
                                assert(self.spec_child(i as int) == Some(*c));
                                self.lemma_child_decreases(i as int);
                            }
                            out.push(Some(c.map_values(f)));
                        },
                    }
                    i += 1;
                }
                let r = Node { value, children: Some(out) };
                proof {
                    self.lemma_wf_facts();
                    let k = choose|k: int| 0 <= k < 8 && #[trigger] children@[k] is Some;
                    assert(out@[k] is Some);
                    assert(r.wf());
                    self.lemma_maps_kids(r, *f, 0);
                }
                r
            },
        }
    }

    proof fn lemma_maps_childless<U, F: Fn(&T) -> U>(&self, r: Node<U>, f: F, i: int)
        requires
            self.wf(),
            !self.array_allocated(),
            !r.array_allocated(),
        ensures
            self.kids_map_to(r, f, i),
        decreases 8 - i,
    {
        if 0 <= i < 8 {
            self.lemma_maps_childless(r, f, i + 1);
        }
    }

    proof fn lemma_maps_kids<U, F: Fn(&T) -> U>(&self, r: Node<U>, f: F, i: int)
        requires
            self.children matches Some(v) && r.children matches Some(w) && v@.len() == 8 && w@.len()
                == 8 && forall|j: int|
                0 <= j < 8 ==> match v@[j] {
                    None => w@[j] is None,
                    Some(a) => (#[trigger] w@[j]) matches Some(b) && a.maps_to(b, f),
                },
        ensures
            self.kids_map_to(r, f, i),
        decreases 8 - i,
    {
        if 0 <= i < 8 {
            self.lemma_maps_kids(r, f, i + 1);
        }
    }
}

/// Expanding a childless node and pruning the result gives back a childless
/// node with the original value, for values whose clone is a copy and whose
/// `==` is equality: the eight children `expand` creates are collapsible, and
/// collapsing them restores the value they were cloned from.
pub proof fn law_expand_then_prune<T: Clone + PartialEq>(
    node: Node<T>,
    expanded: Node<T>,
    pruned: Node<T>,
)
    requires
        node.wf(),
        !node.spec_has_children(),
        expanded.expanded_from(node),
        pruned.pruned_from(expanded),
        vstd::laws_eq::obeys_concrete_eq::<T>(),
        forall|a: T, b: T| #[trigger] cloned(a, b) ==> a == b,
    ensures
        expanded.spec_collapsible(),
        pruned.is_bare_leaf(node.spec_value()),
{
    reveal(vstd::laws_eq::obeys_concrete_eq);
    assert forall|i: int| 0 <= i < 8 implies (#[trigger] expanded.spec_child(i) matches Some(c)
        && !c.spec_has_children()) by {
        let c = expanded.spec_child(i).unwrap();
        assert(c.spec_child(0) is None);
    }
    assert forall|i: int|
        1 <= i < 8 implies (#[trigger] expanded.spec_child(i) matches Some(c)
        && expanded.spec_child(0) matches Some(first) && c.spec_value().eq_spec(
        &first.spec_value(),
    )) by {
        let c = expanded.spec_child(i).unwrap();
        let first = expanded.spec_child(0).unwrap();
        assert(cloned(node.spec_value(), c.spec_value()));
        assert(cloned(node.spec_value(), first.spec_value()));
    }
    let first = expanded.spec_child(0).unwrap();
    assert(cloned(node.spec_value(), first.spec_value()));
    assert(cloned(first.spec_value(), pruned.spec_value()));
}

proof fn lemma_vec_elem_decreases<T>(v: Vec<Option<Node<T>>>, i: int)
    requires
        0 <= i < v@.len(),
    ensures
        v@[i] matches Some(c) ==> decreases_to!(v => c),
{
    broadcast use vstd::std_specs::vec::group_vec_axioms;
    assert(decreases_to!(v => v@));
    assert(decreases_to!(v@ => v@[i]));
}

} // verus!
