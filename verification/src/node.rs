//! The document tree: typed nodes held in an arena, owned by their `Tree`.
//!
//! A node is addressed by its index in the arena, which works as the handle
//! the rest of the library and its callers pass around.  Ownership is strictly
//! downward: the arena owns every node, a node's `children` list names the
//! nodes below it, and the `parent` back-link is a bare index that never keeps
//! anything alive.  Construction discipline — a node is created after its
//! parent and attached at most once — is captured by `Tree::wf`, which every
//! operation preserves.

use vstd::prelude::*;
use crate::attributes::Attribute;
use crate::error::{NodeError, NodeResult};
use crate::matrix::{Matrix, spec_parse};
use crate::property_bag::PropertyBag;
use crate::state::{ComputedValues, Overflow, SpecifiedValue, State, spec_merge};
use crate::surface::{DrawOp, Surface};

verus! {

/// The element kind of a node, fixed at construction.
#[derive(Clone, Copy, Debug, PartialEq, Eq, Structural)]
pub enum NodeType {
    Invalid,
    Chars,
    Circle,
    ClipPath,
    ComponentTransferFunction,
    Defs,
    Ellipse,
    Filter,
    Group,
    Image,
    LightSource,
    Line,
    LinearGradient,
    Link,
    Marker,
    Mask,
    Path,
    Pattern,
    Polygon,
    Polyline,
    RadialGradient,
    Rect,
    Stop,
    Svg,
    Switch,
    Symbol,
    Text,
    TRef,
    TSpan,
    Use,
    FilterPrimitiveBlend,
    FilterPrimitiveColorMatrix,
    FilterPrimitiveComponentTransfer,
    FilterPrimitiveComposite,
    FilterPrimitiveConvolveMatrix,
    FilterPrimitiveDiffuseLighting,
    FilterPrimitiveDisplacementMap,
    FilterPrimitiveErode,
    FilterPrimitiveFlood,
    FilterPrimitiveGaussianBlur,
    FilterPrimitiveImage,
    FilterPrimitiveMerge,
    FilterPrimitiveMergeNode,
    FilterPrimitiveOffset,
    FilterPrimitiveSpecularLighting,
    FilterPrimitiveTile,
    FilterPrimitiveTurbulence,
}

/// The per-element behavior of a node: a closed taxonomy, dispatched by the
/// draw pass.  A `Container` draws its children through the dispatcher; a
/// `Shape` emits a drawing command of its own; `NonRendering` elements (such
/// as definitions) draw nothing.
#[derive(Clone, Copy, Debug, PartialEq, Eq, Structural)]
pub enum Behavior {
    Container,
    Shape,
    NonRendering,
}

/// One node of the document tree.
pub struct Node {
    pub node_type: NodeType,
    pub parent: Option<usize>,
    pub children: Vec<usize>,
    pub state: State,
    pub result: NodeResult,
    pub transform: Matrix,
    pub values: ComputedValues,
    pub behavior: Behavior,
}

/// The arena holding a document tree.
pub struct Tree {
    pub nodes: Vec<Node>,
}

impl Tree {
    pub open spec fn node_count(self) -> int {
        self.nodes@.len() as int
    }

    pub open spec fn valid_id(self, i: int) -> bool {
        0 <= i < self.node_count()
    }

    /// The node at index `i`.
    pub open spec fn nd(self, i: int) -> Node {
        self.nodes@[i]
    }

    /// Well-formedness of one node's links: the parent was created earlier,
    /// every child was created later and points back here, and no child is
    /// attached twice.
    pub open spec fn node_wf(self, i: int) -> bool {
        &&& (self.nd(i).parent is Some ==> 0 <= self.nd(i).parent->0 < i)
        &&& (forall|k: int|
            0 <= k < self.nd(i).children@.len() ==> i < #[trigger] self.nd(i).children@[k]
                < self.node_count())
        &&& (forall|k: int|
            0 <= k < self.nd(i).children@.len() ==> self.nd(
                #[trigger] self.nd(i).children@[k] as int,
            ).parent == Some(i as usize))
        &&& (forall|k1: int, k2: int|
            0 <= k1 < k2 < self.nd(i).children@.len() ==> #[trigger] self.nd(i).children@[k1]
                != #[trigger] self.nd(i).children@[k2])
    }

    /// Well-formedness of the whole arena: the construction discipline —
    /// acyclic downward links, parents created before children, each node
    /// attached at most once.
    pub open spec fn wf(self) -> bool {
        forall|i: int| self.valid_id(i) ==> self.node_wf(i)
    }

    /// An empty arena.
    pub fn new() -> (t: Tree)
        ensures
            t.wf(),
            t.node_count() == 0,
    {
        Tree { nodes: Vec::new() }
    }

    /// Creates a node with identity transform, default computed style, a
    /// success result and no children, and returns its handle.  The new node
    /// is not yet attached to its parent's child list; `add_child` does that.
    pub fn new_node(
        &mut self,
        node_type: NodeType,
        parent: Option<usize>,
        state: State,
        behavior: Behavior,
    ) -> (id: usize)
        requires
            old(self).wf(),
            parent is Some ==> (parent->0 as int) < old(self).node_count(),
        ensures
            final(self).wf(),
            id as int == old(self).node_count(),
            final(self).node_count() == old(self).node_count() + 1,
            forall|i: int| old(self).valid_id(i) ==> final(self).nd(i) == old(self).nd(i),
            final(self).nd(id as int).node_type == node_type,
            final(self).nd(id as int).parent == parent,
            final(self).nd(id as int).children@.len() == 0,
            final(self).nd(id as int).state == state,
            final(self).nd(id as int).result is Ok,
            final(self).nd(id as int).transform == Matrix::spec_identity(),
            final(self).nd(id as int).values == ComputedValues::spec_initial(),
            final(self).nd(id as int).behavior == behavior,
    {
        let id = self.nodes.len();
        let node = Node {
            node_type,
            parent,
            children: Vec::new(),
            state,
            result: Ok(()),
            transform: Matrix::identity(),
            values: ComputedValues::default(),
            behavior,
        };
        self.nodes.push(node);
        proof {
            assert forall|i: int| final(self).valid_id(i) implies final(self).node_wf(i) by {
                if i < id {
                    assert(old(self).node_wf(i));
                    assert(final(self).nd(i) == old(self).nd(i));
                }
            }
        }
        id
    }

    /// Appends `child` to `parent`'s child list.  The construction discipline
    /// asks that `child` was created with `parent` as its parent and has not
    /// been attached before.
    pub fn add_child(&mut self, parent: usize, child: usize)
        requires
            old(self).wf(),
            old(self).valid_id(parent as int),
            old(self).valid_id(child as int),
            old(self).nd(child as int).parent == Some(parent),
            !old(self).nd(parent as int).children@.contains(child),
        ensures
            final(self).wf(),
            final(self).node_count() == old(self).node_count(),
            final(self).nd(parent as int).children@ == old(self).nd(
                parent as int,
            ).children@.push(child),
            final(self).nd(parent as int) == (Node {
                children: final(self).nd(parent as int).children,
                ..old(self).nd(parent as int)
            }),
            forall|i: int|
                old(self).valid_id(i) && i != parent ==> final(self).nd(i) == old(self).nd(i),
    {
        proof {
            assert(old(self).node_wf(child as int));
        }
        self.nodes[parent].children.push(child);
        proof {
            let t0 = *old(self);
            let t1 = *self;
            assert forall|i: int| t1.valid_id(i) implies t1.node_wf(i) by {
                assert(t0.node_wf(i));
                if i == parent {
                    let c0 = t0.nd(i).children@;
                    let c1 = t1.nd(i).children@;
                    assert(c1 == c0.push(child));
                    assert forall|k: int| 0 <= k < c1.len() implies i < c1[k] < t1.node_count()
                        && t1.nd(c1[k] as int).parent == Some(i as usize) by {
                        if k < c0.len() {
                            assert(c1[k] == c0[k]);
                        } else {
                            assert(c1[k] == child);
                        }
                    }
                    assert forall|k1: int, k2: int| 0 <= k1 < k2 < c1.len() implies c1[k1]
                        != c1[k2] by {
                        if k2 < c0.len() {
                            assert(c1[k1] == c0[k1] && c1[k2] == c0[k2]);
                        } else {
                            assert(c1[k2] == child);
                            assert(c1[k1] == c0[k1]);
                            assert(c0.contains(c0[k1]));
                        }
                    }
                }
            }
        }
    }

    /// The node's element kind.
    pub fn get_type(&self, id: usize) -> (t: NodeType)
        requires
            self.valid_id(id as int),
        ensures
            t == self.nd(id as int).node_type,
    {
        self.nodes[id].node_type
    }

    /// The node's local transform.
    pub fn get_transform(&self, id: usize) -> (m: Matrix)
        requires
            self.valid_id(id as int),
        ensures
            m == self.nd(id as int).transform,
    {
        self.nodes[id].transform
    }

    /// The node's style state: what its element specified.
    pub fn get_state(&self, id: usize) -> (s: &State)
        requires
            self.valid_id(id as int),
        ensures
            *s == self.nd(id as int).state,
    {
        &self.nodes[id].state
    }

    /// Replaces the node's style state.
    pub fn set_state(&mut self, id: usize, state: State)
        requires
            old(self).valid_id(id as int),
        ensures
            final(self).node_count() == old(self).node_count(),
            final(self).nd(id as int) == (Node { state, ..old(self).nd(id as int) }),
            forall|i: int|
                old(self).valid_id(i) && i != id ==> final(self).nd(i) == old(self).nd(i),
            old(self).wf() ==> final(self).wf(),
    {
        self.nodes[id].state = state;
        proof {
            if old(self).wf() {
                lemma_wf_same_links(*old(self), *self);
            }
        }
    }

    /// Writes the node's cached computed style.
    pub fn set_computed_values(&mut self, id: usize, values: &ComputedValues)
        requires
            old(self).valid_id(id as int),
        ensures
            final(self).node_count() == old(self).node_count(),
            final(self).nd(id as int) == (Node { values: *values, ..old(self).nd(id as int) }),
            forall|i: int|
                old(self).valid_id(i) && i != id ==> final(self).nd(i) == old(self).nd(i),
            old(self).wf() ==> final(self).wf(),
    {
        self.nodes[id].values = *values;
        proof {
            if old(self).wf() {
                lemma_wf_same_links(*old(self), *self);
            }
        }
    }

    /// The node's cached computed style, as the last cascade pass left it.
    pub fn get_computed_values(&self, id: usize) -> (v: ComputedValues)
        requires
            self.valid_id(id as int),
        ensures
            v == self.nd(id as int).values,
    {
        self.nodes[id].values
    }

    /// Resolves the node's parent link: the parent's handle, or `None` when
    /// this node is the root.
    pub fn get_parent(&self, id: usize) -> (p: Option<usize>)
        requires
            self.valid_id(id as int),
        ensures
            p == self.nd(id as int).parent,
    {
        self.nodes[id].parent
    }

    /// Capability recovery for dispatch sites: the node's behavior, a
    /// closed taxonomy that callers match on to reach the concrete per-type
    /// handling.
    pub fn get_behavior(&self, id: usize) -> (b: Behavior)
        requires
            self.valid_id(id as int),
        ensures
            b == self.nd(id as int).behavior,
    {
        self.nodes[id].behavior
    }

    /// Whether the node has any children.
    pub fn has_children(&self, id: usize) -> (b: bool)
        requires
            self.valid_id(id as int),
        ensures
            b == (self.nd(id as int).children@.len() > 0),
    {
        self.nodes[id].children.len() > 0
    }

    /// Force-marks the node as being in error.
    pub fn set_error(&mut self, id: usize, error: NodeError)
        requires
            old(self).valid_id(id as int),
        ensures
            final(self).node_count() == old(self).node_count(),
            final(self).nd(id as int) == (Node {
                result: Err(error),
                ..old(self).nd(id as int)
            }),
            forall|i: int|
                old(self).valid_id(i) && i != id ==> final(self).nd(i) == old(self).nd(i),
            old(self).wf() ==> final(self).wf(),
    {
        self.nodes[id].result = Err(error);
        proof {
            if old(self).wf() {
                lemma_wf_same_links(*old(self), *self);
            }
        }
    }

    /// Whether the node is in error.
    pub fn is_in_error(&self, id: usize) -> (b: bool)
        requires
            self.valid_id(id as int),
        ensures
            b == (self.nd(id as int).result is Err),
    {
        self.nodes[id].result.is_err()
    }

    /// A copy of the node's result.
    pub fn get_result(&self, id: usize) -> (r: NodeResult)
        requires
            self.valid_id(id as int),
        ensures
            r is Ok <==> self.nd(id as int).result is Ok,
            r matches Err(e) ==> e.attribute == self.nd(id as int).result->Err_0.attribute
                && e.description@ == self.nd(id as int).result->Err_0.description@,
    {
        match &self.nodes[id].result {
            Ok(()) => Ok(()),
            Err(e) => Err(
                NodeError { attribute: e.attribute, description: e.description.clone() },
            ),
        }
    }

    /// Records that the node's element clips its viewport: the one property
    /// the core itself specifies.
    pub fn set_overflow_hidden(&mut self, id: usize)
        requires
            old(self).valid_id(id as int),
        ensures
            final(self).node_count() == old(self).node_count(),
            final(self).nd(id as int).state.values.overflow == SpecifiedValue::Specified(
                Overflow::Hidden,
            ),
            final(self).nd(id as int) == (Node {
                state: final(self).nd(id as int).state,
                ..old(self).nd(id as int)
            }),
            final(self).nd(id as int).state.values == (crate::state::SpecifiedValues {
                overflow: SpecifiedValue::Specified(Overflow::Hidden),
                ..old(self).nd(id as int).state.values
            }),
            forall|i: int|
                old(self).valid_id(i) && i != id ==> final(self).nd(i) == old(self).nd(i),
            old(self).wf() ==> final(self).wf(),
    {
        self.nodes[id].state.values.overflow = SpecifiedValue::Specified(Overflow::Hidden);
        proof {
            if old(self).wf() {
                lemma_wf_same_links(*old(self), *self);
            }
        }
    }
}

impl Tree {
    /// Whether node `a` lies on the parent chain of node `d` (both included).
    pub open spec fn is_ancestor_of(self, a: int, d: int) -> bool
        decreases d,
        when self.wf() && self.valid_id(a) && self.valid_id(d)
    {
        if d == a {
            true
        } else if self.nd(d).parent is Some {
            self.is_ancestor_of(a, self.nd(d).parent->0 as int)
        } else {
            false
        }
    }

    /// Whether `ancestor`'s subtree contains `descendant`: true exactly when
    /// `ancestor` lies on `descendant`'s parent chain.
    pub fn is_ancestor(&self, ancestor: usize, descendant: usize) -> (b: bool)
        requires
            self.wf(),
            self.valid_id(ancestor as int),
            self.valid_id(descendant as int),
        ensures
            b == self.is_ancestor_of(ancestor as int, descendant as int),
        decreases descendant,
    {
        if descendant == ancestor {
            return true;
        }
        match self.nodes[descendant].parent {
            Some(p) => {
                proof {
                    assert(self.node_wf(descendant as int));
                }
                self.is_ancestor(ancestor, p)
            },
            None => false,
        }
    }
}

/// Every node is an ancestor of itself.
pub proof fn lemma_is_ancestor_reflexive(t: Tree, n: int)
    requires
        t.wf(),
        t.valid_id(n),
    ensures
        t.is_ancestor_of(n, n),
{
}

/// An ancestor was created no later than its descendant: its handle is no
/// greater.
pub proof fn lemma_ancestor_le(t: Tree, a: int, d: int)
    requires
        t.wf(),
        t.valid_id(a),
        t.valid_id(d),
        t.is_ancestor_of(a, d),
    ensures
        a <= d,
    decreases d,
{
    if d != a {
        assert(t.node_wf(d));
        lemma_ancestor_le(t, a, t.nd(d).parent->0 as int);
    }
}

/// Ancestry is not symmetric: a node is an ancestor of any node whose parent
/// link names it, and never the other way round.
pub proof fn lemma_is_ancestor_child(t: Tree, n: int, c: int)
    requires
        t.wf(),
        t.valid_id(n),
        t.valid_id(c),
        t.nd(c).parent is Some,
        t.nd(c).parent->0 == n,
    ensures
        t.is_ancestor_of(n, c),
        !t.is_ancestor_of(c, n),
{
    assert(t.node_wf(c));
    assert(n < c);
    assert(t.is_ancestor_of(n, n));
    assert(t.is_ancestor_of(n, c));
    if t.is_ancestor_of(c, n) {
        lemma_ancestor_le(t, c, n);
    }
}

/// A read-only view over a node's children, snapshot at creation, consumable
/// from either end until the cursors meet.
pub struct Children {
    pub snapshot: Vec<usize>,
    pub index: usize,
    pub reverse_index: usize,
}

impl Children {
    pub open spec fn wf(self) -> bool {
        self.index <= self.reverse_index <= self.snapshot@.len()
    }

    /// The elements not yet yielded from either end.
    pub open spec fn remaining(self) -> Seq<usize> {
        self.snapshot@.subrange(self.index as int, self.reverse_index as int)
    }

    /// The elements yielded by forward consumption so far, in yield order.
    pub open spec fn yielded_front(self) -> Seq<usize> {
        self.snapshot@.subrange(0, self.index as int)
    }

    /// The elements yielded by backward consumption so far, in yield order
    /// (so the snapshot's last element comes first).
    pub open spec fn yielded_back(self) -> Seq<usize> {
        self.snapshot@.subrange(self.reverse_index as int, self.snapshot@.len() as int).reverse()
    }

    fn new(snapshot: Vec<usize>) -> (c: Children)
        ensures
            c.snapshot@ == snapshot@,
            c.index == 0,
            c.reverse_index as int == snapshot@.len(),
            c.wf(),
    {
        let len = snapshot.len();
        Children { snapshot, index: 0, reverse_index: len }
    }

    /// Yields the next element from the front, or nothing once the cursors
    /// have met.
    pub fn next(&mut self) -> (r: Option<usize>)
        requires
            old(self).wf(),
        ensures
            final(self).wf(),
            final(self).snapshot@ == old(self).snapshot@,
            old(self).remaining().len() == 0 ==> r is None && *final(self) == *old(self),
            old(self).remaining().len() > 0 ==> r == Some(old(self).remaining()[0])
                && final(self).index == old(self).index + 1
                && final(self).reverse_index == old(self).reverse_index
                && final(self).remaining() == old(self).remaining().drop_first(),
    {
        if self.index == self.reverse_index {
            return None;
        }
        let item = self.snapshot[self.index];
        self.index = self.index + 1;
        proof {
            assert(final(self).remaining() =~= old(self).remaining().drop_first());
        }
        Some(item)
    }

    /// Yields the next element from the back, or nothing once the cursors
    /// have met.
    pub fn next_back(&mut self) -> (r: Option<usize>)
        requires
            old(self).wf(),
        ensures
            final(self).wf(),
            final(self).snapshot@ == old(self).snapshot@,
            old(self).remaining().len() == 0 ==> r is None && *final(self) == *old(self),
            old(self).remaining().len() > 0 ==> r == Some(old(self).remaining().last())
                && final(self).index == old(self).index
                && final(self).reverse_index == old(self).reverse_index - 1
                && final(self).remaining() == old(self).remaining().drop_last(),
    {
        if self.index == self.reverse_index {
            return None;
        }
        self.reverse_index = self.reverse_index - 1;
        let item = self.snapshot[self.reverse_index];
        proof {
            assert(final(self).remaining() =~= old(self).remaining().drop_last());
        }
        Some(item)
    }

    /// How many elements are still pending, from either end.
    pub fn len(&self) -> (n: usize)
        requires
            self.wf(),
        ensures
            n == self.remaining().len(),
    {
        self.reverse_index - self.index
    }
}

/// At any point of an interleaved traversal the elements yielded at the
/// front, the elements still pending, and the elements yielded at the back
/// partition the snapshot.  With `next`'s and `next_back`'s contracts this
/// pins the round trip: a full forward pass yields the snapshot in order, a
/// full backward pass yields it reversed, and no element is ever yielded
/// twice or skipped.
pub proof fn lemma_view_partition(c: Children)
    requires
        c.wf(),
    ensures
        c.snapshot@ == c.yielded_front() + c.remaining() + c.yielded_back().reverse(),
        c.yielded_front().len() + c.remaining().len() + c.yielded_back().len()
            == c.snapshot@.len(),
{
    assert(c.yielded_back().reverse() =~= c.snapshot@.subrange(
        c.reverse_index as int,
        c.snapshot@.len() as int,
    ));
    assert(c.snapshot@ =~= c.yielded_front() + c.remaining() + c.yielded_back().reverse());
}

impl Tree {
    /// A snapshot view over the node's children; later structural changes to
    /// the tree do not show through it.
    pub fn children(&self, id: usize) -> (c: Children)
        requires
            self.valid_id(id as int),
        ensures
            c.snapshot@ == self.nd(id as int).children@,
            c.index == 0,
            c.reverse_index as int == self.nd(id as int).children@.len(),
            c.wf(),
    {
        let list = &self.nodes[id].children;
        let n = list.len();
        let mut snapshot: Vec<usize> = Vec::new();
        let mut k: usize = 0;
        while k < n
            invariant
                k <= n,
                n == list@.len(),
                snapshot@ == list@.subrange(0, k as int),
            decreases n - k,
        {
            snapshot.push(list[k]);
            proof {
                assert(snapshot@ =~= list@.subrange(0, k + 1));
            }
            k = k + 1;
        }
        proof {
            assert(snapshot@ =~= list@);
        }
        Children::new(snapshot)
    }
}

impl Tree {
    /// Whether `d` lies in the subtree rooted at `r`, following child links.
    pub open spec fn in_subtree(self, r: int, d: int) -> bool
        decreases self.node_count() - r,
        when self.wf() && self.valid_id(r)
    {
        d == r || exists|k: int|
            0 <= k < self.nd(r).children@.len() && self.in_subtree(
                #[trigger] self.nd(r).children@[k] as int,
                d,
            )
    }

    /// The style a cascade rooted at `r` with inherited values `v` computes
    /// for a node `d` of that subtree: the merges along the path from `r`
    /// down to `d`.
    pub open spec fn cascade_value(self, r: int, v: ComputedValues, d: int) -> ComputedValues
        decreases d,
        when self.wf() && self.valid_id(r) && self.valid_id(d)
    {
        if d == r {
            spec_merge(v, self.nd(d).state.values)
        } else if self.nd(d).parent is Some {
            spec_merge(
                self.cascade_value(r, v, self.nd(d).parent->0 as int),
                self.nd(d).state.values,
            )
        } else {
            spec_merge(v, self.nd(d).state.values)
        }
    }
}

/// Two arenas that agree on everything but the cached computed values.
pub open spec fn values_only_diff(a: Tree, b: Tree) -> bool {
    &&& b.node_count() == a.node_count()
    &&& forall|i: int|
        a.valid_id(i) ==> #[trigger] b.nd(i) == (Node { values: b.nd(i).values, ..a.nd(i) })
}

/// Every node of a subtree was created no earlier than the subtree's root.
proof fn lemma_subtree_le(t: Tree, r: int, d: int)
    requires
        t.wf(),
        t.valid_id(r),
        t.in_subtree(r, d),
    ensures
        r <= d,
        t.valid_id(d),
    decreases t.node_count() - r,
{
    if d != r {
        let k = choose|k: int|
            0 <= k < t.nd(r).children@.len() && t.in_subtree(#[trigger] t.nd(r).children@[k] as int, d);
        assert(t.node_wf(r));
        lemma_subtree_le(t, t.nd(r).children@[k] as int, d);
    }
}

/// A node of a subtree other than its root has a parent, and that parent is
/// in the subtree too.
proof fn lemma_subtree_parent(t: Tree, r: int, d: int)
    requires
        t.wf(),
        t.valid_id(r),
        t.in_subtree(r, d),
        d != r,
    ensures
        t.valid_id(d),
        t.nd(d).parent is Some,
        t.in_subtree(r, t.nd(d).parent->0 as int),
        t.nd(d).parent->0 < d,
    decreases t.node_count() - r,
{
    lemma_subtree_le(t, r, d);
    let k = choose|k: int|
        0 <= k < t.nd(r).children@.len() && t.in_subtree(#[trigger] t.nd(r).children@[k] as int, d);
    let c = t.nd(r).children@[k] as int;
    assert(t.node_wf(r));
    assert(t.node_wf(d));
    if d == c {
        assert(t.nd(d).parent == Some(r as usize));
        assert(r < d);
        assert(t.nd(d).parent->0 as int == r) by {
            assert(t.node_wf(d));
        }
        assert(t.in_subtree(r, r));
    } else {
        lemma_subtree_parent(t, c, d);
        assert(t.in_subtree(c, t.nd(d).parent->0 as int));
        assert(t.in_subtree(r, t.nd(d).parent->0 as int));
    }
}

/// The subtrees of two distinct children of one node are disjoint.
proof fn lemma_subtree_disjoint(t: Tree, r: int, c1: int, c2: int, d: int)
    requires
        t.wf(),
        t.valid_id(r),
        exists|k: int| 0 <= k < t.nd(r).children@.len() && t.nd(r).children@[k] == c1,
        exists|k: int| 0 <= k < t.nd(r).children@.len() && t.nd(r).children@[k] == c2,
        c1 != c2,
        t.in_subtree(c1, d),
    ensures
        !t.in_subtree(c2, d),
    decreases d,
{
    assert(t.node_wf(r));
    assert(t.valid_id(c1) && r < c1);
    assert(t.valid_id(c2) && r < c2);
    lemma_subtree_le(t, c1, d);
    if t.in_subtree(c2, d) {
        lemma_subtree_le(t, c2, d);
        if d == c1 {
            lemma_subtree_parent(t, c2, d);
            assert(t.nd(c1).parent == Some(r as usize));
            lemma_subtree_le(t, c2, r);
        } else if d == c2 {
            lemma_subtree_parent(t, c1, d);
            assert(t.nd(c2).parent == Some(r as usize));
            lemma_subtree_le(t, c1, r);
        } else {
            lemma_subtree_parent(t, c1, d);
            lemma_subtree_parent(t, c2, d);
            lemma_subtree_disjoint(t, r, c1, c2, t.nd(d).parent->0 as int);
        }
    }
}

/// Cascading a child's subtree from the root's merged values computes, node
/// for node, the same styles as the cascade rooted above.
proof fn lemma_cascade_value_child(t: Tree, r: int, c: int, v: ComputedValues, d: int)
    requires
        t.wf(),
        t.valid_id(r),
        exists|k: int| 0 <= k < t.nd(r).children@.len() && t.nd(r).children@[k] == c,
        t.in_subtree(c, d),
    ensures
        t.cascade_value(r, v, d) == t.cascade_value(
            c,
            spec_merge(v, t.nd(r).state.values),
            d,
        ),
    decreases d,
{
    assert(t.node_wf(r));
    assert(t.valid_id(c) && r < c);
    lemma_subtree_le(t, c, d);
    if d == c {
        assert(t.nd(c).parent == Some(r as usize));
        assert(t.cascade_value(r, v, r) == spec_merge(v, t.nd(r).state.values));
    } else {
        lemma_subtree_parent(t, c, d);
        let p = t.nd(d).parent->0 as int;
        lemma_cascade_value_child(t, r, c, v, p);
        assert(r < c <= d);
    }
}

/// What a cascade computes for a node is the fold of merges along the path
/// from the cascade's root down to the node: the root's resolved style is
/// the inherited values merged with its own specified values, and every
/// other node's is its parent's resolved style merged with its own.
pub proof fn lemma_cascade_value_path(t: Tree, r: int, v: ComputedValues, d: int)
    requires
        t.wf(),
        t.valid_id(r),
        t.in_subtree(r, d),
    ensures
        d == r ==> t.cascade_value(r, v, d) == spec_merge(v, t.nd(d).state.values),
        d != r ==> t.nd(d).parent is Some && t.in_subtree(r, t.nd(d).parent->0 as int)
            && t.cascade_value(r, v, d) == spec_merge(
            t.cascade_value(r, v, t.nd(d).parent->0 as int),
            t.nd(d).state.values,
        ),
{
    lemma_subtree_le(t, r, d);
    if d != r {
        lemma_subtree_parent(t, r, d);
    }
}

/// Subtree membership and cascade results depend only on the links and the
/// specified states — never on the cached computed values.  In particular a
/// cascade pass, which changes only the cache, never changes what a later
/// cascade from the same inherited values would compute: re-cascading is
/// idempotent.
pub proof fn lemma_cascade_deterministic(a: Tree, b: Tree, r: int, d: int, v: ComputedValues)
    requires
        a.wf(),
        values_only_diff(a, b),
        a.valid_id(r),
    ensures
        b.wf(),
        a.in_subtree(r, d) == b.in_subtree(r, d),
        a.valid_id(d) ==> a.cascade_value(r, v, d) == b.cascade_value(r, v, d),
    decreases a.node_count() - r, 0int, if 0 <= d < a.node_count() { d } else { 0 },
{
    lemma_wf_same_links(a, b);
    lemma_in_subtree_same(a, b, r, d);
    if a.valid_id(d) {
        lemma_cascade_value_same(a, b, r, d, v);
    }
}

proof fn lemma_in_subtree_same(a: Tree, b: Tree, r: int, d: int)
    requires
        a.wf(),
        values_only_diff(a, b),
        a.valid_id(r),
    ensures
        a.in_subtree(r, d) == b.in_subtree(r, d),
    decreases a.node_count() - r,
{
    lemma_wf_same_links(a, b);
    assert(a.node_wf(r));
    assert(b.nd(r).children@ == a.nd(r).children@);
    assert forall|k: int|
        0 <= k < a.nd(r).children@.len() implies a.in_subtree(
        #[trigger] a.nd(r).children@[k] as int,
        d,
    ) == b.in_subtree(b.nd(r).children@[k] as int, d) by {
        lemma_in_subtree_same(a, b, a.nd(r).children@[k] as int, d);
    }
}

proof fn lemma_cascade_value_same(a: Tree, b: Tree, r: int, d: int, v: ComputedValues)
    requires
        a.wf(),
        values_only_diff(a, b),
        a.valid_id(r),
        a.valid_id(d),
    ensures
        a.cascade_value(r, v, d) == b.cascade_value(r, v, d),
    decreases d,
{
    lemma_wf_same_links(a, b);
    assert(b.nd(d).parent == a.nd(d).parent);
    assert(b.nd(d).state == a.nd(d).state);
    if d != r && a.nd(d).parent is Some {
        assert(a.node_wf(d));
        lemma_cascade_value_same(a, b, r, a.nd(d).parent->0 as int, v);
    }
}

impl Tree {
    /// Cascades the subtree rooted at `id`: resolves the node's style by
    /// merging `values` with its own specified overrides, caches the result,
    /// and recurses into every child with the just-computed style as the new
    /// inherited values.  Every node of the subtree is visited exactly once
    /// and ends with the style determined by its path from `id`; nothing
    /// outside the subtree's caches is touched.
    pub fn cascade(&mut self, id: usize, values: &ComputedValues)
        requires
            old(self).wf(),
            old(self).valid_id(id as int),
        ensures
            final(self).wf(),
            values_only_diff(*old(self), *final(self)),
            forall|i: int|
                old(self).valid_id(i) && old(self).in_subtree(id as int, i) ==> final(self).nd(
                    i,
                ).values == old(self).cascade_value(id as int, *values, i),
            forall|i: int|
                old(self).valid_id(i) && !old(self).in_subtree(id as int, i) ==> final(self).nd(
                    i,
                ).values == old(self).nd(i).values,
        decreases old(self).node_count() - id,
    {
        proof {
            assert(old(self).node_wf(id as int));
        }
        let mut v: ComputedValues = *values;
        let st: State = self.nodes[id].state;
        st.to_computed_values(&mut v);
        self.nodes[id].values = v;
        proof {
            assert(values_only_diff(*old(self), *self));
            lemma_wf_same_links(*old(self), *self);
        }
        let ghost t0 = *old(self);
        let ghost merged = v;
        let n = self.nodes[id].children.len();
        let mut k: usize = 0;
        while k < n
            invariant
                t0 == *old(self),
                t0.wf(),
                t0.valid_id(id as int),
                self.wf(),
                values_only_diff(t0, *self),
                k <= n,
                n == t0.nd(id as int).children@.len(),
                merged == spec_merge(*values, t0.nd(id as int).state.values),
                v == merged,
                self.nd(id as int).values == merged,
                forall|i: int|
                    t0.valid_id(i) && (exists|j: int|
                        0 <= j < k && t0.in_subtree(
                            #[trigger] t0.nd(id as int).children@[j] as int,
                            i,
                        )) ==> #[trigger] self.nd(i).values == t0.cascade_value(
                        id as int,
                        *values,
                        i,
                    ),
                forall|i: int|
                    t0.valid_id(i) && i != id && !(exists|j: int|
                        0 <= j < k && t0.in_subtree(
                            #[trigger] t0.nd(id as int).children@[j] as int,
                            i,
                        )) ==> #[trigger] self.nd(i).values == t0.nd(i).values,
            decreases n - k,
        {
            proof {
                assert(t0.node_wf(id as int));
            }
            let child = self.nodes[id].children[k];
            let ghost pre = *self;
            self.cascade(child, &v);
            proof {
                let c = child as int;
                assert(t0.nd(id as int).children@[k as int] == child);
                assert(id < c < t0.node_count());
                assert forall|i: int|
                    t0.valid_id(i) && (exists|j: int|
                        0 <= j < k + 1 && t0.in_subtree(
                            #[trigger] t0.nd(id as int).children@[j] as int,
                            i,
                        )) implies #[trigger] self.nd(i).values == t0.cascade_value(
                    id as int,
                    *values,
                    i,
                ) by {
                    let j = choose|j: int|
                        0 <= j < k + 1 && t0.in_subtree(
                            #[trigger] t0.nd(id as int).children@[j] as int,
                            i,
                        );
                    let cj = t0.nd(id as int).children@[j] as int;
                    assert(t0.in_subtree(cj, i));
                    if j < k && cj != c {
                        // settled by an earlier iteration; this call only
                        // touched the other child's subtree, which is disjoint
                        assert(exists|m: int|
                            0 <= m < t0.nd(id as int).children@.len() && t0.nd(
                                id as int,
                            ).children@[m] == cj);
                        assert(exists|m: int|
                            0 <= m < t0.nd(id as int).children@.len() && t0.nd(
                                id as int,
                            ).children@[m] == c);
                        lemma_subtree_disjoint(t0, id as int, cj, c, i);
                        assert(!t0.in_subtree(c, i));
                        lemma_in_subtree_same(t0, pre, c, i);
                        assert(!pre.in_subtree(c, i));
                        assert(pre.nd(i).values == t0.cascade_value(id as int, *values, i));
                        assert(pre.valid_id(i));
                        assert(!pre.in_subtree(child as int, i));
                        assert(self.nd(i).values == pre.nd(i).values);
                    } else {
                        assert(t0.in_subtree(c, i)) by {
                            if j == k {
                                assert(cj == c);
                            }
                        }
                        lemma_in_subtree_same(t0, pre, c, i);
                        assert(pre.in_subtree(c, i));
                        lemma_subtree_le(t0, c, i);
                        assert(self.nd(i).values == pre.cascade_value(c, merged, i));
                        lemma_cascade_deterministic(t0, pre, c, i, merged);
                        assert(pre.cascade_value(c, merged, i) == t0.cascade_value(c, merged, i));
                        assert(exists|m: int|
                            0 <= m < t0.nd(id as int).children@.len() && t0.nd(
                                id as int,
                            ).children@[m] == c);
                        lemma_cascade_value_child(t0, id as int, c, *values, i);
                        assert(t0.cascade_value(id as int, *values, i) == t0.cascade_value(
                            c,
                            merged,
                            i,
                        ));
                    }
                }
                assert forall|i: int|
                    t0.valid_id(i) && i != id && !(exists|j: int|
                        0 <= j < k + 1 && t0.in_subtree(
                            #[trigger] t0.nd(id as int).children@[j] as int,
                            i,
                        )) implies #[trigger] self.nd(i).values == t0.nd(i).values by {
                    assert(!t0.in_subtree(c, i)) by {
                        if t0.in_subtree(c, i) {
                            assert(t0.nd(id as int).children@[k as int] as int == c);
                        }
                    }
                    lemma_in_subtree_same(t0, pre, c, i);
                    assert(!pre.in_subtree(c, i));
                    assert(pre.nd(i).values == t0.nd(i).values);
                    assert(pre.valid_id(i));
                    assert(!pre.in_subtree(child as int, i));
                    assert(self.nd(i).values == pre.nd(i).values);
                }
                assert(values_only_diff(t0, *self));
                assert(!t0.in_subtree(c, id as int)) by {
                    if t0.in_subtree(c, id as int) {
                        lemma_subtree_le(t0, c, id as int);
                    }
                }
                assert(self.nd(id as int).values == merged) by {
                    lemma_in_subtree_same(t0, pre, c, id as int);
                    assert(!pre.in_subtree(c, id as int));
                    assert(pre.valid_id(id as int));
                    assert(!pre.in_subtree(child as int, id as int));
                    assert(self.nd(id as int).values == pre.nd(id as int).values);
                }
            }
            k = k + 1;
        }
        proof {
            assert forall|i: int|
                t0.valid_id(i) && t0.in_subtree(id as int, i) implies #[trigger] self.nd(
                i,
            ).values == t0.cascade_value(id as int, *values, i) by {
                if i == id {
                    assert(t0.cascade_value(id as int, *values, id as int) == merged);
                } else {
                    assert(exists|j: int|
                        0 <= j < n && t0.in_subtree(
                            #[trigger] t0.nd(id as int).children@[j] as int,
                            i,
                        ));
                }
            }
            assert forall|i: int|
                t0.valid_id(i) && !t0.in_subtree(id as int, i) implies #[trigger] self.nd(
                i,
            ).values == t0.nd(i).values by {
                assert(i != id);
                assert(!(exists|j: int|
                    0 <= j < n && t0.in_subtree(
                        #[trigger] t0.nd(id as int).children@[j] as int,
                        i,
                    )));
            }
        }
    }
}

/// Well-formedness depends only on the parent and child links, so any change
/// that leaves those alone preserves it.
pub proof fn lemma_wf_same_links(a: Tree, b: Tree)
    requires
        a.wf(),
        b.node_count() == a.node_count(),
        forall|i: int|
            a.valid_id(i) ==> #[trigger] b.nd(i).parent == a.nd(i).parent && b.nd(i).children@
                == a.nd(i).children@,
    ensures
        b.wf(),
{
    assert forall|i: int| b.valid_id(i) implies b.node_wf(i) by {
        assert(a.node_wf(i));
        assert(b.nd(i).parent == a.nd(i).parent);
        assert(b.nd(i).children@ == a.nd(i).children@);
        assert forall|k: int| 0 <= k < b.nd(i).children@.len() implies i < #[trigger] b.nd(
            i,
        ).children@[k] < b.node_count() && b.nd(b.nd(i).children@[k] as int).parent == Some(
            i as usize,
        ) by {
            assert(a.nd(i).children@[k] == b.nd(i).children@[k]);
            let c = a.nd(i).children@[k] as int;
            assert(a.valid_id(c));
            assert(b.nd(c).parent == a.nd(c).parent);
        }
    }
}

/// How a cascaded-values context resolves: by borrowing a node's cached
/// cascade, or from an owned override snapshot.
#[derive(Clone, Copy, Debug, PartialEq, Eq, Structural)]
pub enum CascadedInner {
    FromNode(usize),
    FromValues(ComputedValues),
}

/// A draw-time handle to resolved style.  In `FromNode` mode it follows a
/// node's cached cascade — the common case, which keeps a subtree under its
/// ancestors' cascade.  In `FromValues` mode it carries an owned snapshot
/// built from caller-supplied values, used when an element re-roots the
/// cascade for content it instances from elsewhere in the tree.
#[derive(Clone, Copy, Debug, PartialEq, Eq, Structural)]
pub struct CascadedValues {
    pub inner: CascadedInner,
}

impl CascadedValues {
    pub open spec fn wf_for(self, tree: Tree) -> bool {
        match self.inner {
            CascadedInner::FromNode(id) => tree.valid_id(id as int),
            CascadedInner::FromValues(_) => true,
        }
    }

    /// The style this context resolves to, given the tree it reads.
    pub open spec fn resolved(self, tree: Tree) -> ComputedValues {
        match self.inner {
            CascadedInner::FromNode(id) => tree.nd(id as int).values,
            CascadedInner::FromValues(v) => v,
        }
    }

    /// Derives the context for drawing `node`, keeping this context's mode:
    /// a borrowing context moves on to borrow `node`'s cached cascade, while
    /// an override context merges its own snapshot — not `node`'s cached
    /// style — with `node`'s specified overrides.
    pub fn new(&self, tree: &Tree, node: usize) -> (r: CascadedValues)
        requires
            tree.valid_id(node as int),
        ensures
            r.wf_for(*tree),
            self.inner is FromNode ==> r.inner == CascadedInner::FromNode(node),
            self.inner matches CascadedInner::FromValues(w) ==> r.inner
                == CascadedInner::FromValues(spec_merge(w, tree.nd(node as int).state.values)),
    {
        match &self.inner {
            CascadedInner::FromNode(_) => CascadedValues {
                inner: CascadedInner::FromNode(node),
            },
            CascadedInner::FromValues(v) => CascadedValues::new_from_values(tree, node, v),
        }
    }

    /// A context that borrows `node`'s cached cascade.
    fn new_from_node(tree: &Tree, node: usize) -> (r: CascadedValues)
        requires
            tree.valid_id(node as int),
        ensures
            r.inner == CascadedInner::FromNode(node),
    {
        CascadedValues { inner: CascadedInner::FromNode(node) }
    }

    /// A context that overrides `node`'s cascade: `values` merged with
    /// `node`'s own specified overrides, held as an owned snapshot.
    pub fn new_from_values(tree: &Tree, node: usize, values: &ComputedValues) -> (r:
        CascadedValues)
        requires
            tree.valid_id(node as int),
        ensures
            r.inner == CascadedInner::FromValues(
                spec_merge(*values, tree.nd(node as int).state.values),
            ),
            r.wf_for(*tree),
    {
        let mut v: ComputedValues = *values;
        tree.get_state(node).to_computed_values(&mut v);
        CascadedValues { inner: CascadedInner::FromValues(v) }
    }

    /// The resolved style, whichever mode produced the context.
    pub fn get<'a>(&'a self, tree: &'a Tree) -> (v: &'a ComputedValues)
        requires
            self.wf_for(*tree),
        ensures
            *v == self.resolved(*tree),
    {
        match &self.inner {
            CascadedInner::FromNode(id) => &tree.nodes[*id].values,
            CascadedInner::FromValues(v) => v,
        }
    }
}

/// An override context derived into a child resolves to the override
/// snapshot merged with the child's own specified overrides — a value that
/// does not depend on the child's cached style: trees that differ only in
/// their caches derive identical override contexts.
pub proof fn lemma_override_ignores_cache(a: Tree, b: Tree, w: ComputedValues, child: int)
    requires
        values_only_diff(a, b),
        a.valid_id(child),
    ensures
        spec_merge(w, a.nd(child).state.values) == spec_merge(w, b.nd(child).state.values),
{
}

impl Tree {
    /// A context borrowing the node's cached cascade, for the top of a
    /// rendering pass or for elements that deliberately do not propagate
    /// their ambient cascade.
    pub fn get_cascaded_values(&self, node: usize) -> (r: CascadedValues)
        requires
            self.valid_id(node as int),
        ensures
            r.inner == CascadedInner::FromNode(node),
            r.wf_for(*self),
    {
        CascadedValues::new_from_node(self, node)
    }
}

impl Tree {
    /// The context a container's draw pass derives for one of its children.
    pub open spec fn spec_derive(self, cas: CascadedValues, child: int) -> CascadedValues {
        match cas.inner {
            CascadedInner::FromNode(_) => CascadedValues {
                inner: CascadedInner::FromNode(child as usize),
            },
            CascadedInner::FromValues(w) => CascadedValues {
                inner: CascadedInner::FromValues(spec_merge(w, self.nd(child).state.values)),
            },
        }
    }

    /// The commands a draw pass on `id` records: nothing at all when the
    /// node is in error; the node's shape when it is a shape; its children's
    /// commands — bracketed in a compositing layer unless `dominate` is the
    /// already-isolated sentinel -1 — when it is a container.
    pub open spec fn draw_ops(
        self,
        id: int,
        cas: CascadedValues,
        dominate: int,
        clipping: bool,
    ) -> Seq<DrawOp>
        decreases self.node_count() - id, 1int, 0int,
        when self.wf() && self.valid_id(id)
    {
        if self.nd(id).result is Err {
            Seq::empty()
        } else {
            match self.nd(id).behavior {
                Behavior::Container => {
                    let body = self.child_ops(id, 0, cas, clipping);
                    if dominate != -1 {
                        seq![DrawOp::PushLayer(cas.resolved(self), clipping)] + body + seq![
                            DrawOp::PopLayer(cas.resolved(self), clipping),
                        ]
                    } else {
                        body
                    }
                },
                Behavior::Shape => seq![DrawOp::Shape(id as usize)],
                Behavior::NonRendering => Seq::empty(),
            }
        }
    }

    /// The commands the children of `id`, from the `k`-th on, record, each
    /// drawn under its derived context with a neutral layering value.
    pub open spec fn child_ops(self, id: int, k: int, cas: CascadedValues, clipping: bool) -> Seq<
        DrawOp,
    >
        decreases self.node_count() - id, 0int, self.nd(id).children@.len() - k,
        when self.wf() && self.valid_id(id) && 0 <= k
    {
        if k >= self.nd(id).children@.len() {
            Seq::empty()
        } else {
            let c = self.nd(id).children@[k] as int;
            self.draw_ops(c, self.spec_derive(cas, c), 0, clipping) + self.child_ops(
                id,
                k + 1,
                cas,
                clipping,
            )
        }
    }

    /// What `draw_children` records: the children's commands, bracketed in a
    /// compositing layer keyed by the current cascaded style unless
    /// `dominate` is the already-isolated sentinel.
    pub open spec fn children_ops_bracketed(
        self,
        id: int,
        cas: CascadedValues,
        dominate: int,
        clipping: bool,
    ) -> Seq<DrawOp> {
        let body = self.child_ops(id, 0, cas, clipping);
        if dominate != -1 {
            seq![DrawOp::PushLayer(cas.resolved(self), clipping)] + body + seq![
                DrawOp::PopLayer(cas.resolved(self), clipping),
            ]
        } else {
            body
        }
    }

    /// Draws the subtree rooted at `node`: nothing at all when the node is
    /// in error; otherwise the node's transform is composed onto the
    /// surface for the node's own drawing and restored afterwards, so
    /// transform changes never leak past the subtree.
    pub fn draw(
        &self,
        node: usize,
        cascaded: &CascadedValues,
        surface: &mut Surface,
        dominate: i32,
        clipping: bool,
    )
        requires
            self.wf(),
            self.valid_id(node as int),
            cascaded.wf_for(*self),
        ensures
            final(surface).transform == old(surface).transform,
            final(surface).log@ == old(surface).log@ + self.draw_ops(
                node as int,
                *cascaded,
                dominate as int,
                clipping,
            ),
        decreases self.node_count() - node, 1int,
    {
        if self.nodes[node].result.is_ok() {
            let save_affine = surface.get_matrix();
            surface.compose_transform(self.get_transform(node));
            match self.nodes[node].behavior {
                Behavior::Container => {
                    self.draw_children(node, cascaded, surface, dominate, clipping);
                },
                Behavior::Shape => {
                    surface.draw_shape(node);
                },
                Behavior::NonRendering => {},
            }
            surface.set_matrix(save_affine);
        } else {
            proof {
                assert(final(surface).log@ =~= old(surface).log@ + Seq::<DrawOp>::empty());
            }
        }
    }

    /// The shared helper container behaviors call: brackets the subtree in a
    /// compositing layer when `dominate` asks for one, then draws every
    /// child in sequence order under its derived context, each with a
    /// neutral layering value and the same clipping flag.
    pub fn draw_children(
        &self,
        node: usize,
        cascaded: &CascadedValues,
        surface: &mut Surface,
        dominate: i32,
        clipping: bool,
    )
        requires
            self.wf(),
            self.valid_id(node as int),
            cascaded.wf_for(*self),
        ensures
            final(surface).transform == old(surface).transform,
            final(surface).log@ == old(surface).log@ + self.children_ops_bracketed(
                node as int,
                *cascaded,
                dominate as int,
                clipping,
            ),
        decreases self.node_count() - node, 0int,
    {
        let values: ComputedValues = *cascaded.get(self);
        if dominate != -1 {
            surface.push_layer(&values, clipping);
        }
        let ghost base_log = surface.log@;
        let ghost base_t = surface.transform;
        let ghost total = self.child_ops(node as int, 0, *cascaded, clipping);
        let n = self.nodes[node].children.len();
        let mut k: usize = 0;
        while k < n
            invariant
                self.wf(),
                self.valid_id(node as int),
                cascaded.wf_for(*self),
                k <= n,
                n == self.nd(node as int).children@.len(),
                total == self.child_ops(node as int, 0, *cascaded, clipping),
                surface.transform == base_t,
                surface.log@ + self.child_ops(node as int, k as int, *cascaded, clipping)
                    == base_log + total,
            decreases n - k,
        {
            proof {
                assert(self.node_wf(node as int));
            }
            let child = self.nodes[node].children[k];
            let child_cascaded = cascaded.new(self, child);
            proof {
                assert(child_cascaded == self.spec_derive(*cascaded, child as int));
            }
            let ghost log_pre = surface.log@;
            self.draw(child, &child_cascaded, surface, 0, clipping);
            proof {
                let ops = self.draw_ops(
                    child as int,
                    self.spec_derive(*cascaded, child as int),
                    0,
                    clipping,
                );
                assert(self.child_ops(node as int, k as int, *cascaded, clipping) == ops
                    + self.child_ops(node as int, k + 1, *cascaded, clipping));
                assert(surface.log@ + self.child_ops(node as int, k + 1, *cascaded, clipping)
                    =~= base_log + total);
            }
            k = k + 1;
        }
        if dominate != -1 {
            surface.pop_layer(&values, clipping);
        }
        proof {
            assert(self.child_ops(node as int, n as int, *cascaded, clipping)
                =~= Seq::<DrawOp>::empty());
            assert(final(surface).log@ =~= old(surface).log@ + self.children_ops_bracketed(
                node as int,
                *cascaded,
                dominate as int,
                clipping,
            ));
        }
    }
}

/// Failure isolation: a node in error records nothing at all — its whole
/// subtree is elided — and every shape command any draw pass records names a
/// node whose result is success.
pub proof fn lemma_error_isolation(
    t: Tree,
    id: int,
    cas: CascadedValues,
    dominate: int,
    clipping: bool,
)
    requires
        t.wf(),
        t.valid_id(id),
    ensures
        t.nd(id).result is Err ==> t.draw_ops(id, cas, dominate, clipping)
            == Seq::<DrawOp>::empty(),
        forall|j: int|
            0 <= j < t.draw_ops(id, cas, dominate, clipping).len() && (#[trigger] t.draw_ops(
                id,
                cas,
                dominate,
                clipping,
            )[j]) is Shape ==> t.valid_id(t.draw_ops(id, cas, dominate, clipping)[j]->Shape_0 as int)
            && t.nd(t.draw_ops(id, cas, dominate, clipping)[j]->Shape_0 as int).result is Ok,
    decreases t.node_count() - id, 1int, 0int,
{
    let ops = t.draw_ops(id, cas, dominate, clipping);
    if t.nd(id).result is Ok && t.nd(id).behavior is Container {
        lemma_child_ops_ok(t, id, 0, cas, clipping);
    }
    assert forall|j: int|
        0 <= j < t.draw_ops(id, cas, dominate, clipping).len() && (#[trigger] t.draw_ops(
            id,
            cas,
            dominate,
            clipping,
        )[j]) is Shape implies t.valid_id(
        t.draw_ops(id, cas, dominate, clipping)[j]->Shape_0 as int,
    ) && t.nd(t.draw_ops(id, cas, dominate, clipping)[j]->Shape_0 as int).result is Ok by {
        assert(t.draw_ops(id, cas, dominate, clipping)[j] == ops[j]);
        if t.nd(id).result is Ok {
            match t.nd(id).behavior {
                Behavior::Container => {
                    let body = t.child_ops(id, 0, cas, clipping);
                    if dominate != -1 {
                        assert(ops == seq![DrawOp::PushLayer(cas.resolved(t), clipping)] + body
                            + seq![DrawOp::PopLayer(cas.resolved(t), clipping)]);
                        if j == 0 {
                            assert(ops[0] == DrawOp::PushLayer(cas.resolved(t), clipping));
                        } else if j == body.len() + 1 {
                            assert(ops[j] == DrawOp::PopLayer(cas.resolved(t), clipping));
                        } else {
                            assert(ops[j] == body[j - 1]);
                        }
                    } else {
                        assert(ops[j] == body[j]);
                    }
                },
                Behavior::Shape => {
                    assert(ops == seq![DrawOp::Shape(id as usize)]);
                    assert(ops[0]->Shape_0 == id as usize);
                    vstd::std_specs::vec::axiom_spec_len(&t.nodes);
                    assert(t.node_count() <= usize::MAX);
                    assert(id as usize as int == id);
                },
                Behavior::NonRendering => {},
            }
        }
    }
}

proof fn lemma_child_ops_ok(t: Tree, id: int, k: int, cas: CascadedValues, clipping: bool)
    requires
        t.wf(),
        t.valid_id(id),
        0 <= k,
    ensures
        forall|j: int|
            0 <= j < t.child_ops(id, k, cas, clipping).len() && (#[trigger] t.child_ops(
                id,
                k,
                cas,
                clipping,
            )[j]) is Shape ==> t.valid_id(t.child_ops(id, k, cas, clipping)[j]->Shape_0 as int)
            && t.nd(t.child_ops(id, k, cas, clipping)[j]->Shape_0 as int).result is Ok,
    decreases t.node_count() - id, 0int, t.nd(id).children@.len() - k,
{
    if k < t.nd(id).children@.len() {
        assert(t.node_wf(id));
        let c = t.nd(id).children@[k] as int;
        lemma_error_isolation(t, c, t.spec_derive(cas, c), 0, clipping);
        lemma_child_ops_ok(t, id, k + 1, cas, clipping);
        let head = t.draw_ops(c, t.spec_derive(cas, c), 0, clipping);
        let tail = t.child_ops(id, k + 1, cas, clipping);
        let ops = t.child_ops(id, k, cas, clipping);
        assert(ops == head + tail);
        assert forall|j: int| 0 <= j < ops.len() && (#[trigger] ops[j]) is Shape implies t.valid_id(
            ops[j]->Shape_0 as int,
        ) && t.nd(ops[j]->Shape_0 as int).result is Ok by {
            if j < head.len() {
                assert(ops[j] == head[j]);
            } else {
                assert(ops[j] == tail[j - head.len()]);
            }
        }
    }
}

impl Behavior {
    /// Per-element attribute parsing.  The behaviors of this closed taxonomy
    /// have no attributes of their own, so each accepts any bag.
    pub fn set_atts(&self, _pbag: &PropertyBag) -> (r: NodeResult)
        ensures
            r is Ok,
    {
        Ok(())
    }

    /// The per-element hook for properties whose defaults differ from the
    /// node's `State`.  None of the behaviors here overrides any.
    pub fn set_overriden_properties(&self, state: &mut State)
        ensures
            *final(state) == *old(state),
    {
    }
}

/// The index of the first transform attribute, from `k` on, whose raw value
/// is malformed — the entry at which attribute processing stops.
pub open spec fn spec_first_transform_error(entries: Seq<crate::property_bag::PropertyBagEntry>, k: int) -> Option<int>
    decreases entries.len() - k,
    when 0 <= k
{
    if k >= entries.len() {
        None
    } else if entries[k].attribute == Some(Attribute::Transform) && spec_parse(
        entries[k].value@,
    ) is None {
        Some(k)
    } else {
        spec_first_transform_error(entries, k + 1)
    }
}

/// The transform left after processing entries `k` up to (not including)
/// `upto`, starting from `m0`: each well-formed transform attribute replaces
/// it, the last one winning.
pub open spec fn spec_fold_transform(
    m0: Matrix,
    entries: Seq<crate::property_bag::PropertyBagEntry>,
    k: int,
    upto: int,
) -> Matrix
    decreases upto - k,
{
    if k >= upto || k >= entries.len() {
        m0
    } else {
        let m1 = if entries[k].attribute == Some(Attribute::Transform) && spec_parse(
            entries[k].value@,
        ) is Some {
            spec_parse(entries[k].value@)->0
        } else {
            m0
        };
        spec_fold_transform(m1, entries, k + 1, upto)
    }
}

impl Tree {
    /// Processes the node's attributes: the core reads the one reserved
    /// transform attribute itself, stopping at the first malformed value and
    /// recording the failure on the node, and forwards the whole bag to the
    /// per-element behavior.  A node already in error is never cleared back
    /// to success.
    pub fn set_atts(&mut self, id: usize, pbag: &PropertyBag)
        requires
            old(self).valid_id(id as int),
        ensures
            final(self).node_count() == old(self).node_count(),
            forall|i: int|
                old(self).valid_id(i) && i != id ==> final(self).nd(i) == old(self).nd(i),
            final(self).nd(id as int) == (Node {
                transform: final(self).nd(id as int).transform,
                result: final(self).nd(id as int).result,
                ..old(self).nd(id as int)
            }),
            old(self).wf() ==> final(self).wf(),
            spec_first_transform_error(pbag.entries@, 0) matches Some(j) ==> final(self).nd(
                id as int,
            ).transform == spec_fold_transform(
                old(self).nd(id as int).transform,
                pbag.entries@,
                0,
                j,
            ) && final(self).nd(id as int).result is Err && final(self).nd(
                id as int,
            ).result->Err_0.attribute == Attribute::Transform,
            spec_first_transform_error(pbag.entries@, 0) is None ==> final(self).nd(
                id as int,
            ).transform == spec_fold_transform(
                old(self).nd(id as int).transform,
                pbag.entries@,
                0,
                pbag.entries@.len() as int,
            ) && (old(self).nd(id as int).result is Ok ==> final(self).nd(id as int).result is Ok)
                && (old(self).nd(id as int).result is Err ==> final(self).nd(id as int).result
                == old(self).nd(id as int).result),
    {
        let ghost t0 = *old(self);
        let ghost entries = pbag.entries@;
        let n = pbag.entries.len();
        let mut k: usize = 0;
        while k < n
            invariant
                t0 == *old(self),
                t0.valid_id(id as int),
                entries == pbag.entries@,
                n == entries.len(),
                k <= n,
                self.node_count() == t0.node_count(),
                forall|i: int| t0.valid_id(i) && i != id ==> self.nd(i) == t0.nd(i),
                self.nd(id as int) == (Node {
                    transform: self.nd(id as int).transform,
                    ..t0.nd(id as int)
                }),
                spec_first_transform_error(entries, k as int)
                    == spec_first_transform_error(entries, 0),
                self.nd(id as int).transform == spec_fold_transform(
                    t0.nd(id as int).transform,
                    entries,
                    0,
                    k as int,
                ),
            decreases n - k,
        {
            let entry = &pbag.entries[k];
            let is_transform: bool = match entry.attribute {
                Some(Attribute::Transform) => true,
                _ => false,
            };
            proof {
                lemma_fold_transform_step(t0.nd(id as int).transform, entries, k as int);
            }
            if is_transform {
                match Matrix::parse(entry.value.as_slice()) {
                    Ok(affine) => {
                        self.nodes[id].transform = affine;
                    },
                    Err(e) => {
                        let error = NodeError::parse_error(Attribute::Transform, e);
                        self.nodes[id].result = Err(error);
                        proof {
                            assert(spec_first_transform_error(entries, k as int) == Some(
                                k as int,
                            ));
                            if t0.wf() {
                                lemma_wf_same_links(t0, *self);
                            }
                        }
                        return ;
                    },
                }
            }
            k = k + 1;
        }
        let behavior: Behavior = self.nodes[id].behavior;
        let r = behavior.set_atts(pbag);
        if !self.is_in_error(id) {
            self.nodes[id].result = r;
        }
        proof {
            if t0.wf() {
                lemma_wf_same_links(t0, *self);
            }
        }
    }

    /// Lets the node's behavior adjust the node's style state; the behaviors
    /// of this taxonomy leave it as it is.
    pub fn set_overriden_properties(&mut self, id: usize)
        requires
            old(self).valid_id(id as int),
        ensures
            final(self).node_count() == old(self).node_count(),
            forall|i: int| old(self).valid_id(i) ==> final(self).nd(i) == old(self).nd(i),
    {
        let behavior: Behavior = self.nodes[id].behavior;
        let mut st: State = self.nodes[id].state;
        behavior.set_overriden_properties(&mut st);
        self.nodes[id].state = st;
        proof {
            assert forall|i: int| old(self).valid_id(i) implies final(self).nd(i) == old(
                self,
            ).nd(i) by {
                assert(final(self).nodes@ =~= old(self).nodes@);
            }
        }
    }
}

/// One step of the transform fold: folding from `k` to the end equals one
/// entry's effect followed by folding the rest.
proof fn lemma_fold_transform_step(
    m0: Matrix,
    entries: Seq<crate::property_bag::PropertyBagEntry>,
    k: int,
)
    requires
        0 <= k < entries.len(),
    ensures
        spec_fold_transform(m0, entries, 0, k + 1) == (if entries[k].attribute == Some(
            Attribute::Transform,
        ) && spec_parse(entries[k].value@) is Some {
            spec_parse(entries[k].value@)->0
        } else {
            spec_fold_transform(m0, entries, 0, k)
        }),
{
    lemma_fold_prefix(m0, entries, 0, k);
}

/// Folding up to `upto + 1` is folding up to `upto`, then applying entry
/// `upto`.
proof fn lemma_fold_prefix(
    m0: Matrix,
    entries: Seq<crate::property_bag::PropertyBagEntry>,
    k: int,
    upto: int,
)
    requires
        0 <= k <= upto < entries.len(),
    ensures
        spec_fold_transform(m0, entries, k, upto + 1) == (if entries[upto].attribute == Some(
            Attribute::Transform,
        ) && spec_parse(entries[upto].value@) is Some {
            spec_parse(entries[upto].value@)->0
        } else {
            spec_fold_transform(m0, entries, k, upto)
        }),
    decreases upto - k,
{
    let mu = if entries[upto].attribute == Some(Attribute::Transform) && spec_parse(
        entries[upto].value@,
    ) is Some {
        spec_parse(entries[upto].value@)->0
    } else {
        m0
    };
    if k < upto {
        let m1 = if entries[k].attribute == Some(Attribute::Transform) && spec_parse(
            entries[k].value@,
        ) is Some {
            spec_parse(entries[k].value@)->0
        } else {
            m0
        };
        lemma_fold_prefix(m1, entries, k + 1, upto);
    } else {
        assert(spec_fold_transform(mu, entries, upto + 1, upto + 1) == mu);
        assert(spec_fold_transform(m0, entries, upto, upto + 1) == mu);
        assert(spec_fold_transform(m0, entries, upto, upto) == m0);
    }
}

} // verus!
