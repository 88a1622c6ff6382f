//! The descent of a voxel update.
//!
//! An occupancy update walks from the root to the voxel at a key, creating
//! what is missing on the way: a slot missing under a node that has other
//! children gets a fresh child holding the default value, and a childless
//! node that was already there (a pruned block) is opened up into eight
//! children that inherit its value. At the voxel a caller-supplied operation
//! replaces the value. On the way back up, unless the update is lazy, each
//! node on the path is pruned if its children have become eight equal
//! leaves, and otherwise takes the value the caller's refresh computes from
//! it.
//!
//! The values are opaque here: what the operation and the refresh compute
//! is the caller's arithmetic.

use vstd::prelude::*;
use vstd::std_specs::cmp::PartialEqSpec;
use crate::geometry::MAX_TREE_DEPTH;
use crate::key::{compute_child_index, OcTreeKey};
use crate::node::{Node, CHILD_COUNT};
use crate::tree::{descend, is_default, lookup, plain_values, slot, OctreeCore};

verus! {

/// `k` follows the same path as `key` from depth `d` down to the bottom of
/// a tree `td` levels deep.
pub open spec fn same_path(k: OcTreeKey, key: OcTreeKey, td: u32, d: nat) -> bool {
    forall|e: nat| d <= e < td ==> #[trigger] slot(k, td, e) == slot(key, td, e)
}

/// Applying `op` to the value `v0` gave the value `w` and the report `b`.
pub open spec fn applied<T, B, L: Fn(&T) -> (T, B)>(op: L, v0: T, w: T, b: B) -> bool {
    call_ensures(op, (&v0,), (w, b))
}

/// What an update of `key` below `old` (a node at depth `d`, `fresh` when
/// it was created by this update) leaves in `new`, given that the operation
/// turned the voxel's value `v0` into `w` and reported `b`, and that the
/// voxel was `created`.
pub open spec fn update_done<T: Clone + Default + PartialEq, B, L: Fn(&T) -> (T, B)>(
    old: Node<T>,
    new: Node<T>,
    fresh: bool,
    key: OcTreeKey,
    td: u32,
    d: nat,
    op: L,
    lazy: bool,
    b: B,
    created: bool,
    v0: T,
    w: T,
) -> bool {
    &&& applied(op, v0, w, b)
    &&& created ==> is_default(v0)
    &&& plain_values::<T>() && !fresh ==> (lookup(old, key, td, d) matches Some(v) ==> v0 == v)
    &&& lazy || plain_values::<T>() ==> lookup(new, key, td, d) == Some(w)
    &&& created <==> (fresh || lookup(old, key, td, d) is None)
    &&& fresh ==> forall|k: OcTreeKey|
        !same_path(k, key, td, d) ==> #[trigger] lookup(new, k, td, d) is None
    &&& plain_values::<T>() && !fresh ==> forall|k: OcTreeKey|
        !same_path(k, key, td, d) ==> #[trigger] lookup(new, k, td, d) == lookup(old, k, td, d)
}

/// The shape an update of `key` leaves below `old`, a node at depth `d`
/// (`fresh` when the update created it), when the voxel ends up holding
/// `w`: the slot on the path is opened as the descent opens it (the child
/// that is there; eight children inheriting the value of a childless node
/// that was already there; or a fresh child holding the default value), the
/// rest of the node is kept, and, unless `lazy`, the node is then merged if
/// its children are eight equal leaves, or otherwise takes the value
/// `refresh` computes from it.
pub open spec fn update_shape<T: Clone + Default + PartialEq, R: Fn(&Node<T>) -> T>(
    old: Node<T>,
    new: Node<T>,
    fresh: bool,
    key: OcTreeKey,
    td: u32,
    d: nat,
    w: T,
    refresh: R,
    lazy: bool,
) -> bool
    decreases td - d,
{
    if d >= td {
        &&& new.spec_value() == w
        &&& new.array_allocated() == old.array_allocated()
        &&& forall|i: int| #[trigger] new.spec_child(i) == old.spec_child(i)
    } else {
        let pos = slot(key, td, d);
        exists|mid: Node<T>|
            #![trigger mid.spec_child(slot(key, td, d))]
            {
                &&& mid.spec_value() == old.spec_value()
                &&& mid.array_allocated()
                &&& mid.spec_child(pos) matches Some(cn) && match old.spec_child(pos) {
                    Some(c0) => {
                        &&& forall|j: int| j != pos ==> #[trigger] mid.spec_child(j) == old.spec_child(j)
                        &&& update_shape(c0, cn, false, key, td, d + 1, w, refresh, lazy)
                    },
                    None => if !old.spec_has_children() && !fresh {
                        &&& forall|j: int|
                            0 <= j < 8 && j != pos ==> (#[trigger] mid.spec_child(j) matches Some(c)
                                && c.is_bare_leaf(c.spec_value()) && cloned(
                                old.spec_value(),
                                c.spec_value(),
                            ))
                        &&& exists|v: T|
                            #![trigger Node::<T>::leaf_of(v)]
                            cloned(old.spec_value(), v) && update_shape(
                                Node::leaf_of(v),
                                cn,
                                false,
                                key,
                                td,
                                d + 1,
                                w,
                                refresh,
                                lazy,
                            )
                    } else {
                        &&& forall|j: int| j != pos ==> #[trigger] mid.spec_child(j) == old.spec_child(j)
                        &&& exists|v: T|
                            #![trigger Node::<T>::leaf_of(v)]
                            is_default(v) && update_shape(
                                Node::leaf_of(v),
                                cn,
                                true,
                                key,
                                td,
                                d + 1,
                                w,
                                refresh,
                                lazy,
                            )
                    },
                }
                &&& if lazy {
                    new == mid
                } else {
                    &&& T::obeys_eq_spec() ==> (mid.spec_collapsible() <==> !new.array_allocated())
                    &&& ({
                        ||| {
                            &&& mid.eight_leaf_children()
                            &&& new.pruned_from(mid)
                        }
                        ||| {
                            &&& new.array_allocated()
                            &&& forall|i: int| #[trigger] new.spec_child(i) == mid.spec_child(i)
                            &&& call_ensures(refresh, (&mid,), new.spec_value())
                        }
                    })
                }
            }
    }
}

/// A node with children ignores its own value in a lookup below the bottom.
proof fn lemma_lookup_ignores_inner_value<T>(a: Node<T>, b: Node<T>, k: OcTreeKey, td: u32, d: nat)
    requires
        d < td,
        a.spec_has_children(),
        forall|i: int| #[trigger] a.spec_child(i) == b.spec_child(i),
    ensures
        lookup(a, k, td, d) == lookup(b, k, td, d),
{
    assert(a.spec_has_children() == b.spec_has_children()) by {
        if a.spec_has_children() {
            let i = choose|i: int| 0 <= i < 8 && #[trigger] a.spec_child(i) is Some;
            assert(b.spec_child(i) is Some);
        }
        if b.spec_has_children() {
            let i = choose|i: int| 0 <= i < 8 && #[trigger] b.spec_child(i) is Some;
            assert(a.spec_child(i) is Some);
        }
    }
    if a.spec_has_children() {
        let c = a.spec_child(slot(k, td, d));
        assert(c == b.spec_child(slot(k, td, d)));
    }
}

/// Merging eight equal leaves into their parent changes no lookup, for
/// plain values.
proof fn lemma_prune_one_lookup<T: Clone + PartialEq>(
    before: Node<T>,
    after: Node<T>,
    k: OcTreeKey,
    td: u32,
    d: nat,
)
    requires
        before.wf(),
        d < td,
        before.eight_leaf_children(),
        after.pruned_from(before),
        T::obeys_eq_spec() ==> before.spec_collapsible(),
        plain_values::<T>(),
    ensures
        lookup(after, k, td, d) == lookup(before, k, td, d),
{
    reveal(vstd::laws_eq::obeys_concrete_eq);
    let pos = slot(k, td, d);
    before.lemma_wf_facts();
    assert(0 <= pos < 8);
    let first = before.spec_child(0).unwrap();
    let c = before.spec_child(pos).unwrap();
    assert(!c.spec_has_children());
    assert(c.spec_child(slot(k, td, d + 1)) is None);
    assert(descend(c, k, td, d + 1, td as nat) == Some(c));
    assert(!after.spec_has_children());
    assert(descend(after, k, td, d, td as nat) == Some(after));
    assert(after.spec_value() == first.spec_value());
    if pos != 0 {
        assert(c.spec_value().eq_spec(&first.spec_value()));
    }
    assert(c.spec_value() == first.spec_value());
}

/// The lookups of a node at depth `d` go through the child on their path;
/// at the bottom the node itself answers.
proof fn lemma_lookup_step<T>(n: Node<T>, k: OcTreeKey, td: u32, d: nat)
    ensures
        d >= td ==> lookup(n, k, td, d) == Some(n.spec_value()),
        d < td ==> (n.spec_child(slot(k, td, d)) matches Some(c) ==> lookup(n, k, td, d) == lookup(
            c,
            k,
            td,
            d + 1,
        )),
        d < td ==> (n.spec_child(slot(k, td, d)) is None ==> lookup(n, k, td, d) == (
        if n.spec_has_children() {
            None
        } else {
            Some(n.spec_value())
        })),
{
}

/// The upward pass (a merge, or a refresh of a node that keeps its children)
/// keeps what the descent established.
proof fn lemma_upward<T: Clone + Default + PartialEq, B, L: Fn(&T) -> (T, B)>(
    old: Node<T>,
    n2: Node<T>,
    n3: Node<T>,
    fresh: bool,
    key: OcTreeKey,
    td: u32,
    d: nat,
    op: L,
    lazy: bool,
    b: B,
    created: bool,
    v0: T,
    w: T,
)
    requires
        d < td,
        n2.wf(),
        n2.spec_has_children(),
        update_done(old, n2, fresh, key, td, d, op, lazy, b, created, v0, w),
        lazy ==> n3 == n2,
        fresh ==> forall|i: int| #[trigger] n3.spec_child(i) == n2.spec_child(i),
        ({
            ||| forall|i: int| #[trigger] n3.spec_child(i) == n2.spec_child(i)
            ||| {
                &&& n2.eight_leaf_children()
                &&& n3.pruned_from(n2)
                &&& T::obeys_eq_spec() ==> n2.spec_collapsible()
            }
        }),
    ensures
        update_done(old, n3, fresh, key, td, d, op, lazy, b, created, v0, w),
{
    assert forall|k: OcTreeKey| plain_values::<T>() || fresh implies #[trigger] lookup(n3, k, td, d)
        == lookup(n2, k, td, d) by {
        if forall|i: int| #[trigger] n3.spec_child(i) == n2.spec_child(i) {
            lemma_lookup_ignores_inner_value(n2, n3, k, td, d);
        } else {
            lemma_prune_one_lookup(n2, n3, k, td, d);
        }
    }
    assert(lazy || plain_values::<T>() ==> lookup(n3, key, td, d) == Some(w));
}

/// Paths that agree at depth `d` and below `d` agree from `d`.
proof fn lemma_same_path_step(k: OcTreeKey, key: OcTreeKey, td: u32, d: nat)
    requires
        d < td,
        slot(k, td, d) == slot(key, td, d),
        same_path(k, key, td, d + 1),
    ensures
        same_path(k, key, td, d),
{
    assert forall|e: nat| d <= e < td implies #[trigger] slot(k, td, e) == slot(key, td, e) by {
        if e > d {
            assert(d + 1 <= e);
        }
    }
}

/// How the child on the path was found on the way down.
enum Opened {
    /// It was already there.
    Existing,
    /// The node was a pruned block and was split into eight.
    Expanded,
    /// The slot was empty and a fresh child was made.
    Created,
}

/// What an update of the child on the path establishes for the node at
/// depth `d` above it.
proof fn lemma_descent_done<T: Clone + Default + PartialEq, B, L: Fn(&T) -> (T, B)>(
    old: Node<T>,
    mid: Node<T>,
    n2: Node<T>,
    c0: Node<T>,
    cn: Node<T>,
    how: Opened,
    fresh: bool,
    key: OcTreeKey,
    td: u32,
    d: nat,
    op: L,
    lazy: bool,
    b: B,
    created: bool,
    v0: T,
    w: T,
)
    requires
        d < td,
        old.wf(),
        mid.wf(),
        fresh ==> !old.spec_has_children(),
        ({
            let pos = slot(key, td, d);
            &&& mid.spec_child(pos) == Some(c0)
            &&& n2.spec_child(pos) == Some(cn)
            &&& n2.same_except(mid, pos)
            &&& match how {
                Opened::Existing => mid == old && !fresh,
                Opened::Expanded => !old.spec_has_children() && !fresh && mid.expanded_from(old),
                Opened::Created => {
                    &&& old.spec_child(pos) is None
                    &&& (old.spec_has_children() || fresh)
                    &&& mid.same_except(old, pos)
                    &&& !c0.spec_has_children()
                },
            }
        }),
        update_done(c0, cn, how is Created, key, td, d + 1, op, lazy, b, created, v0, w),
    ensures
        update_done(old, n2, fresh, key, td, d, op, lazy, b, created, v0, w),
{
    let pos = slot(key, td, d);
    old.lemma_wf_facts();
    mid.lemma_wf_facts();
    assert(n2.spec_has_children()) by {
        assert(0 <= pos < 8);
        assert(n2.spec_child(pos) is Some);
    }
    lemma_lookup_step(old, key, td, d);
    lemma_lookup_step(n2, key, td, d);
    lemma_lookup_step(c0, key, td, d + 1);
    if how is Expanded {
        reveal(vstd::laws_eq::obeys_concrete_eq);
        assert(c0.spec_child(slot(key, td, d + 1)) is None);
        assert(lookup(c0, key, td, d + 1) == Some(c0.spec_value()));
        assert(lookup(old, key, td, d) == Some(old.spec_value()));
    }
    assert(plain_values::<T>() && !fresh ==> (lookup(old, key, td, d) matches Some(v) ==> v0 == v));
    assert(lazy || plain_values::<T>() ==> lookup(n2, key, td, d) == Some(w));
    assert forall|k: OcTreeKey| fresh && !same_path(k, key, td, d) implies #[trigger] lookup(
        n2,
        k,
        td,
        d,
    ) is None by {
        lemma_lookup_step(n2, k, td, d);
        if slot(k, td, d) == pos {
            if same_path(k, key, td, d + 1) {
                lemma_same_path_step(k, key, td, d);
            }
        } else {
            assert(n2.spec_child(slot(k, td, d)) == mid.spec_child(slot(k, td, d)));
            assert(mid.spec_child(slot(k, td, d)) == old.spec_child(slot(k, td, d)));
        }
    }
    assert forall|k: OcTreeKey| plain_values::<T>() && !fresh && !same_path(k, key, td, d) implies #[trigger] lookup(
        n2,
        k,
        td,
        d,
    ) == lookup(old, k, td, d) by {
        reveal(vstd::laws_eq::obeys_concrete_eq);
        lemma_lookup_step(n2, k, td, d);
        lemma_lookup_step(old, k, td, d);
        if slot(k, td, d) == pos {
            if same_path(k, key, td, d + 1) {
                lemma_same_path_step(k, key, td, d);
            }
            lemma_lookup_step(c0, k, td, d + 1);
            if how is Expanded {
                assert(c0.spec_child(slot(k, td, d + 1)) is None);
            }
        } else {
            let sk = slot(k, td, d);
            assert(n2.spec_child(sk) == mid.spec_child(sk));
            if how is Expanded {
                assert(0 <= sk < 8);
                let e = mid.spec_child(sk).unwrap();
                lemma_lookup_step(e, k, td, d + 1);
                assert(e.spec_child(slot(k, td, d + 1)) is None);
            } else {
                assert(mid.spec_child(sk) == old.spec_child(sk));
            }
        }
    }
}

/// One level of an update: `node` is at depth `d`, `fresh` when this update
/// created it. Returns the operation's report, whether the voxel was
/// created, the numbers of nodes created and removed below `node`, and the
/// voxel's value before and after.
fn update_recurs<T: Clone + Default + PartialEq, B, L: Fn(&T) -> (T, B), R: Fn(&Node<T>) -> T>(
    node: &mut Node<T>,
    fresh: bool,
    key: &OcTreeKey,
    td: u32,
    d: u32,
    op: &L,
    refresh: &R,
    lazy: bool,
) -> (r: (B, bool, usize, usize, Ghost<(T, T)>))
    requires
        old(node).wf(),
        d <= td <= MAX_TREE_DEPTH,
        old(node).spec_size() + 8 * (td - d) <= usize::MAX,
        fresh ==> !old(node).spec_has_children() && is_default(old(node).spec_value()),
        forall|t: &T| call_requires(*op, (t,)),
        forall|n: &Node<T>| call_requires(*refresh, (n,)),
    ensures
        final(node).wf(),
        final(node).spec_size() + r.3 == old(node).spec_size() + r.2,
        r.2 <= 8 * (td - d),
        update_done(
            *old(node),
            *final(node),
            fresh,
            *key,
            td,
            d as nat,
            *op,
            lazy,
            r.0,
            r.1,
            r.4@.0,
            r.4@.1,
        ),
        update_shape(*old(node), *final(node), fresh, *key, td, d as nat, r.4@.1, *refresh, lazy),
    decreases td - d,
{
    let ghost old0 = *node;
    if d >= td {
        let (w, b) = op(node.value());
        node.set_value(w);
        proof {
            Node::lemma_same_children_size(*node, old0);
            lemma_lookup_step(old0, *key, td, d as nat);
            lemma_lookup_step(*node, *key, td, d as nat);
            assert(applied(*op, old0.spec_value(), w, b));
        }
        return (b, fresh, 0, 0, Ghost((old0.spec_value(), w)));
    }
    let pos = compute_child_index(key, td - 1 - d);
    proof {
        node.lemma_wf_facts();
    }
    let ghost mut how = Opened::Existing;
    let mut made: usize = 0;
    let mut child_fresh = false;
    if !node.child_exists(pos) {
        if !node.has_children() && !fresh {
            proof {
                node.lemma_childless_size();
            }
            made = node.expand();
            proof {
                how = Opened::Expanded;
                node.lemma_wf_facts();
                node.lemma_expanded_size();
            }
        } else {
            let v = T::default();
            node.create_child(pos, v);
            made = 1;
            child_fresh = true;
            proof {
                how = Opened::Created;
                node.lemma_wf_facts();
                let c = node.spec_child(pos as int).unwrap();
                c.lemma_childless_size();
                Node::lemma_size_replace(*node, old0, pos as int);
            }
        }
    }
    let ghost mid = *node;
    proof {
        mid.lemma_wf_facts();
        mid.lemma_child_size_le(pos as int, 0);
    }
    let child = node.child_mut(pos).unwrap();
    let ghost c0 = *child;
    let (b, created, c_made, c_removed, vals) = update_recurs(
        child,
        child_fresh,
        key,
        td,
        d + 1,
        op,
        refresh,
        lazy,
    );
    let ghost n2 = *node;
    let ghost cn = n2.spec_child(pos as int).unwrap();
    proof {
        Node::lemma_size_replace(n2, mid, pos as int);
        n2.lemma_wf_facts();
        lemma_descent_done(
            old0,
            mid,
            n2,
            c0,
            cn,
            how,
            fresh,
            *key,
            td,
            d as nat,
            *op,
            lazy,
            b,
            created,
            vals@.0,
            vals@.1,
        );
        if fresh {
            let j: int = if pos == 0 { 1 } else { 0 };
            assert(n2.spec_child(j) is None);
        }
    }
    let mut removed = c_removed;
    if !lazy {
        let p = node.prune();
        if p > 0 {
            proof {
                n2.lemma_eight_leaves_size_pub();
                node.lemma_childless_size();
            }
            removed = removed + p;
        } else {
            let v = refresh(node);
            node.set_value(v);
            proof {
                Node::lemma_same_children_size(*node, n2);
                assert(call_ensures(*refresh, (&n2,), node.spec_value()));
            }
        }
    }
    proof {
        lemma_upward(old0, n2, *node, fresh, *key, td, d as nat, *op, lazy, b, created, vals@.0, vals@.1);
        lemma_shape_step(old0, mid, n2, *node, c0, cn, how, fresh, *key, td, d as nat, vals@.1, *refresh, lazy);
    }
    (b, created, made + c_made, removed, vals)
}

/// The shape one level of an update leaves, from the shape it left below.
proof fn lemma_shape_step<T: Clone + Default + PartialEq, R: Fn(&Node<T>) -> T>(
    old: Node<T>,
    mid: Node<T>,
    n2: Node<T>,
    n3: Node<T>,
    c0: Node<T>,
    cn: Node<T>,
    how: Opened,
    fresh: bool,
    key: OcTreeKey,
    td: u32,
    d: nat,
    w: T,
    refresh: R,
    lazy: bool,
)
    requires
        d < td,
        old.wf(),
        mid.wf(),
        n2.wf(),
        fresh ==> !old.spec_has_children(),
        ({
            let pos = slot(key, td, d);
            &&& mid.spec_child(pos) == Some(c0)
            &&& n2.spec_child(pos) == Some(cn)
            &&& n2.same_except(mid, pos)
            &&& match how {
                Opened::Existing => mid == old && !fresh,
                Opened::Expanded => !old.spec_has_children() && !fresh && mid.expanded_from(old),
                Opened::Created => {
                    &&& old.spec_child(pos) is None
                    &&& (old.spec_has_children() || fresh)
                    &&& mid.same_except(old, pos)
                    &&& c0.is_bare_leaf(c0.spec_value())
                    &&& is_default(c0.spec_value())
                },
            }
        }),
        update_shape(c0, cn, how is Created, key, td, d + 1, w, refresh, lazy),
        lazy ==> n3 == n2,
        !lazy ==> {
            &&& T::obeys_eq_spec() ==> (n2.spec_collapsible() <==> !n3.array_allocated())
            &&& ({
                ||| {
                    &&& n2.eight_leaf_children()
                    &&& n3.pruned_from(n2)
                }
                ||| {
                    &&& n3.array_allocated()
                    &&& forall|i: int| #[trigger] n3.spec_child(i) == n2.spec_child(i)
                    &&& call_ensures(refresh, (&n2,), n3.spec_value())
                }
            })
        },
    ensures
        update_shape(old, n3, fresh, key, td, d, w, refresh, lazy),
{
    let pos = slot(key, td, d);
    old.lemma_wf_facts();
    mid.lemma_wf_facts();
    n2.lemma_wf_facts();
    assert(0 <= pos < 8);
    assert(n2.array_allocated());
    assert(n2.spec_value() == old.spec_value());
    match how {
        Opened::Existing => {
            assert(old.spec_child(pos) == Some(c0));
            assert forall|j: int| j != pos implies #[trigger] n2.spec_child(j) == old.spec_child(j) by {}
        },
        Opened::Expanded => {
            assert(old.spec_child(pos) is None);
            assert forall|j: int| 0 <= j < 8 && j != pos implies (#[trigger] n2.spec_child(j) matches Some(c)
                && c.is_bare_leaf(c.spec_value()) && cloned(old.spec_value(), c.spec_value())) by {
                assert(n2.spec_child(j) == mid.spec_child(j));
            }
            let cv = c0.spec_value();
            c0.lemma_bare_leaf_is_leaf_of(cv);
            assert(cloned(old.spec_value(), cv) && update_shape(
                Node::leaf_of(cv),
                cn,
                false,
                key,
                td,
                d + 1,
                w,
                refresh,
                lazy,
            ));
        },
        Opened::Created => {
            assert forall|j: int| j != pos implies #[trigger] n2.spec_child(j) == old.spec_child(j) by {
                assert(n2.spec_child(j) == mid.spec_child(j));
            }
            let cv = c0.spec_value();
            c0.lemma_bare_leaf_is_leaf_of(cv);
            assert(is_default(cv) && update_shape(
                Node::leaf_of(cv),
                cn,
                true,
                key,
                td,
                d + 1,
                w,
                refresh,
                lazy,
            ));
        },
    }
}

impl<T: Clone + Default + PartialEq> OctreeCore<T> {
    /// Updates the voxel at `key`.
    ///
    /// The descent creates what is missing: a fresh child holding the
    /// default value where a slot is empty under a node with other children
    /// (or under a node this update just made), and eight children that
    /// inherit the value where the path runs into a pruned block. At the
    /// voxel, `op` maps the value found to the value kept and to a report
    /// for the caller. Unless `lazy`, each node on the way back up is merged
    /// if its children have become eight equal leaves, and otherwise takes
    /// the value `refresh` computes from it; a lazy update leaves inner
    /// nodes stale.
    ///
    /// Returns the report and whether the voxel did not exist before.
    pub fn update<B, L: Fn(&T) -> (T, B), R: Fn(&Node<T>) -> T>(
        &mut self,
        key: OcTreeKey,
        op: &L,
        refresh: &R,
        lazy: bool,
    ) -> (r: (B, bool))
        requires
            old(self).wf(),
            old(self).spec_len() + 8 * MAX_TREE_DEPTH < usize::MAX,
            forall|t: &T| call_requires(*op, (t,)),
            forall|n: &Node<T>| call_requires(*refresh, (n,)),
        ensures
            final(self).wf(),
            final(self).spec_geometry() == old(self).spec_geometry(),
            r.1 <==> old(self).spec_get(key) is None,
            plain_values::<T>() ==> forall|k: OcTreeKey|
                !same_path(k, key, old(self).spec_depth(), 0) ==> #[trigger] final(self).spec_get(k)
                    == old(self).spec_get(k),
            exists|v0: T, w: T|
                #![trigger applied(*op, v0, w, r.0)]
                {
                    &&& applied(*op, v0, w, r.0)
                    &&& r.1 ==> is_default(v0)
                    &&& plain_values::<T>() ==> (old(self).spec_get(key) matches Some(v) ==> v0 == v)
                    &&& lazy || plain_values::<T>() ==> final(self).spec_get(key) == Some(w)
                    &&& final(self).spec_root() matches Some(n) && match old(self).spec_root() {
                        Some(o) => update_shape(o, n, false, key, old(self).spec_depth(), 0, w, *refresh, lazy),
                        None => exists|v: T|
                            #![trigger Node::<T>::leaf_of(v)]
                            is_default(v) && update_shape(
                                Node::leaf_of(v),
                                n,
                                true,
                                key,
                                old(self).spec_depth(),
                                0,
                                w,
                                *refresh,
                                lazy,
                            ),
                    }
                },
    {
        let ghost old_self = *self;
        let dv = T::default();
        let created_root = self.ensure_root(dv);
        proof {
            if created_root {
                self.spec_root().unwrap().lemma_childless_size();
                self.spec_root().unwrap().lemma_bare_leaf_is_leaf_of(dv);
            }
        }
        let ghost rooted = *self;
        let ghost mut old_node = rooted.spec_root().unwrap();
        let ghost mut new_node = old_node;
        let ghost mut v0 = dv;
        let ghost mut w = dv;
        let (geometry, root, tree_size) = self.parts_mut();
        let td = geometry.tree_depth();
        let res = match root {
            Some(node) => {
                let (b, created, made, removed, vals) = update_recurs(
                    node,
                    created_root,
                    &key,
                    td,
                    0,
                    op,
                    refresh,
                    lazy,
                );
                proof {
                    new_node = *node;
                    v0 = vals@.0;
                    w = vals@.1;
                }
                *tree_size = *tree_size + made - removed;
                (b, created)
            },
            None => {
                proof {
                    assert(false);
                }
                (op(&T::default()).1, true)
            },
        };
        proof {
            assert(self.spec_root() == Some(new_node));
            assert forall|k: OcTreeKey| #[trigger] self.spec_get(k) == lookup(new_node, k, td, 0) by {}
            assert forall|k: OcTreeKey| #[trigger] old_self.spec_get(k) == (if created_root {
                None
            } else {
                lookup(old_node, k, td, 0)
            }) by {}
            assert(applied(*op, v0, w, res.0));
            if created_root {
                assert(is_default(dv) && update_shape(Node::leaf_of(dv), new_node, true, key, td, 0, w, *refresh, lazy));
            }
        }
        res
    }
}

/// What an update does to a voxel's entry in the record of changes.
#[derive(Debug, Clone, Copy, PartialEq, Eq, Structural)]
pub enum ChangeAction {
    /// Record the voxel, flagged `true` when it is new.
    Record(bool),
    /// Forget the voxel: it flipped back to where it started.
    Forget,
    /// Leave the record as it is.
    Keep,
}

/// The change-record decision for one updated voxel: a new voxel is
/// recorded as new; an existing one whose occupancy flipped is recorded
/// if it was not, forgotten if it was recorded as a flip (it has flipped
/// back), and left alone if it was recorded as new.
pub open spec fn spec_change_action(
    recorded: Option<bool>,
    created: bool,
    occupied_before: bool,
    occupied_after: bool,
) -> ChangeAction {
    if created {
        ChangeAction::Record(true)
    } else if occupied_before != occupied_after {
        match recorded {
            None => ChangeAction::Record(false),
            Some(false) => ChangeAction::Forget,
            Some(true) => ChangeAction::Keep,
        }
    } else {
        ChangeAction::Keep
    }
}

/// The record of changes after `action` on `key`.
pub open spec fn apply_change<K>(m: Map<K, bool>, key: K, action: ChangeAction) -> Map<K, bool> {
    match action {
        ChangeAction::Record(new) => m.insert(key, new),
        ChangeAction::Forget => m.remove(key),
        ChangeAction::Keep => m,
    }
}

/// Decides what an update does to the record of changes, given the
/// voxel's current entry, whether the update created it, and its occupancy
/// before and after.
pub fn change_action(
    recorded: Option<bool>,
    created: bool,
    occupied_before: bool,
    occupied_after: bool,
) -> (a: ChangeAction)
    ensures
        a == spec_change_action(recorded, created, occupied_before, occupied_after),
{
    if created {
        ChangeAction::Record(true)
    } else if occupied_before != occupied_after {
        match recorded {
            None => ChangeAction::Record(false),
            Some(false) => ChangeAction::Forget,
            Some(true) => ChangeAction::Keep,
        }
    } else {
        ChangeAction::Keep
    }
}

/// A voxel that flips and then flips back leaves the record of changes as
/// it was.
pub proof fn law_flip_back_is_no_change<K>(m: Map<K, bool>, key: K, a: bool)
    requires
        !m.contains_key(key),
    ensures
        ({
            let once = apply_change(m, key, spec_change_action(None, false, a, !a));
            let twice = apply_change(
                once,
                key,
                spec_change_action(once.get(key), false, !a, a),
            );
            twice == m
        }),
{
    let once = m.insert(key, false);
    assert(once.get(key) == Some(false));
    assert(once.remove(key) =~= m);
}

/// `new` is `old`, a node at depth `d`, with every node that has children,
/// down to depth `td`, holding the value `refresh` computed from it once
/// its own children were refreshed. Leaves keep their values, and the
/// shape is unchanged.
pub open spec fn inner_refreshed<T, R: Fn(&Node<T>) -> T>(
    old: Node<T>,
    new: Node<T>,
    refresh: R,
    td: u32,
    d: nat,
) -> bool
    decreases td - d,
{
    &&& new.wf()
    &&& new.array_allocated() == old.array_allocated()
    &&& if old.spec_has_children() {
        exists|m: Node<T>|
            #[trigger] call_ensures(refresh, (&m,), new.spec_value()) && forall|i: int|
                #[trigger] m.spec_child(i) == new.spec_child(i)
    } else {
        new.spec_value() == old.spec_value()
    }
    &&& if d < td {
        forall|i: int|
            #![trigger new.spec_child(i)]
            match old.spec_child(i) {
                None => new.spec_child(i) is None,
                Some(oc) => new.spec_child(i) matches Some(nc) && inner_refreshed(
                    oc,
                    nc,
                    refresh,
                    td,
                    d + 1,
                ),
            }
    } else {
        forall|i: int| #[trigger] new.spec_child(i) == old.spec_child(i)
    }
}

/// Refreshing inner nodes changes no lookup, when no node lies below the
/// bottom.
proof fn lemma_inner_refreshed_lookup<T, R: Fn(&Node<T>) -> T>(
    old: Node<T>,
    new: Node<T>,
    refresh: R,
    k: OcTreeKey,
    td: u32,
    d: nat,
)
    requires
        old.wf(),
        inner_refreshed(old, new, refresh, td, d),
        crate::tree::within_depth(old, d, td as nat),
    ensures
        lookup(new, k, td, d) == lookup(old, k, td, d),
    decreases td - d,
{
    lemma_lookup_step(old, k, td, d);
    lemma_lookup_step(new, k, td, d);
    old.lemma_wf_facts();
    new.lemma_wf_facts();
    if d < td {
        let pos = slot(k, td, d);
        if let Some(oc) = old.spec_child(pos) {
            let nc = new.spec_child(pos).unwrap();
            lemma_inner_refreshed_lookup(oc, nc, refresh, k, td, d + 1);
        }
    }
}

/// Refreshes, bottom up, every node with children in the subtree of
/// `node`, a node at depth `d`.
fn refresh_inner_recurs<T, R: Fn(&Node<T>) -> T>(node: &mut Node<T>, refresh: &R, td: u32, d: u32)
    requires
        old(node).wf(),
        d <= td,
        forall|n: &Node<T>| call_requires(*refresh, (n,)),
    ensures
        inner_refreshed(*old(node), *final(node), *refresh, td, d as nat),
        final(node).spec_size() == old(node).spec_size(),
    decreases td - d,
{
    let ghost old0 = *node;
    proof {
        node.lemma_wf_facts();
    }
    if !node.has_children() {
        return;
    }
    if d < td {
        let mut i: u8 = 0;
        while i < 8
            invariant
                i <= 8,
                d < td,
                node.wf(),
                old0.wf(),
                node.spec_value() == old0.spec_value(),
                node.array_allocated() == old0.array_allocated(),
                node.spec_size() == old0.spec_size(),
                forall|n: &Node<T>| call_requires(*refresh, (n,)),
                forall|j: int| i <= j ==> #[trigger] node.spec_child(j) == old0.spec_child(j),
                forall|j: int|
                    #![trigger node.spec_child(j)]
                    0 <= j < i ==> match old0.spec_child(j) {
                        None => node.spec_child(j) is None,
                        Some(oc) => node.spec_child(j) matches Some(nc) && inner_refreshed(
                            oc,
                            nc,
                            *refresh,
                            td,
                            d as nat + 1,
                        ),
                    },
            decreases 8 - i,
        {
            proof {
                node.lemma_wf_facts();
            }
            let ghost before = *node;
            match node.child_mut(i) {
                Some(c) => {
                    refresh_inner_recurs(c, refresh, td, d + 1);
                    proof {
                        Node::lemma_size_replace(*node, before, i as int);
                    }
                },
                None => {},
            }
            i += 1;
        }
    }
    proof {
        node.lemma_wf_facts();
    }
    let v = refresh(node);
    let ghost m = *node;
    node.set_value(v);
    proof {
        Node::lemma_same_children_size(*node, m);
        assert(call_ensures(*refresh, (&m,), node.spec_value()));
    }
}

impl<T> OctreeCore<T> {
    /// Recomputes, bottom up, every node that has children from its
    /// children: each takes the value `refresh` returns for it. Needed after
    /// lazy updates, which leave inner nodes stale. Leaves and the shape of
    /// the tree are unchanged.
    pub fn refresh_inner<R: Fn(&Node<T>) -> T>(&mut self, refresh: &R)
        requires
            old(self).wf(),
            forall|n: &Node<T>| call_requires(*refresh, (n,)),
        ensures
            final(self).wf(),
            final(self).spec_geometry() == old(self).spec_geometry(),
            final(self).spec_len() == old(self).spec_len(),
            match (old(self).spec_root(), final(self).spec_root()) {
                (None, None) => true,
                (Some(o), Some(n)) => inner_refreshed(o, n, *refresh, old(self).spec_depth(), 0),
                _ => false,
            },
            old(self).spec_root() matches Some(o) && crate::tree::within_depth(
                o,
                0,
                old(self).spec_depth() as nat,
            ) ==> forall|k: OcTreeKey| #[trigger] final(self).spec_get(k) == old(self).spec_get(k),
    {
        let ghost old_self = *self;
        let (geometry, root, _) = self.parts_mut();
        let td = geometry.tree_depth();
        let ghost mut new_root = *root;
        match root {
            Some(node) => {
                refresh_inner_recurs(node, refresh, td, 0);
                proof {
                    new_root = Some(*node);
                }
            },
            None => {},
        }
        proof {
            assert(self.spec_root() == new_root);
            if let Some(o) = old_self.spec_root() {
                let n = new_root.unwrap();
                if crate::tree::within_depth(o, 0, td as nat) {
                    assert forall|k: OcTreeKey| #[trigger] self.spec_get(k) == old_self.spec_get(k) by {
                        lemma_inner_refreshed_lookup(o, n, *refresh, k, td, 0);
                    }
                }
            }
        }
    }
}

} // verus!
