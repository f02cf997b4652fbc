//! Tracked nodes: the cached, per-path objects that wrap an edge, expose
//! child-accessor operations appropriate to their kind, and propagate
//! invalidation into their own live children.
//!
//! The five kinds form a closed set (leaf, product, sum, optional,
//! sequence); the trackable registry maps each shape constructor to the
//! kind that tracks it.

use vstd::prelude::*;

use crate::edge::Edge;
use crate::mapper::Mapper;
use crate::mapper::MapperVec;
use crate::value::Shape;

verus! {

/// What client code holds: a shared claim on the tracked node at a path.
///
/// A handle names its path (the structural identity of the node's edge) and
/// the identity of the node generation it was taken on, so a store can tell
/// a live claim from one whose cache slot has since been reclaimed.
pub struct Handle {
    /// The mapper steps from the root store to the tracked node.
    pub path: Vec<Mapper>,
    /// The identity of the node generation this handle refers to.
    pub node_id: u64,
}

/// One weakly-held cache slot of a sequence node.
///
/// The slot does not itself keep the child alive: `strong` counts the
/// handles client code holds, and a slot whose count has reached zero is
/// reclaimed by the next invalidation sweep through this node.
pub struct SeqEntry {
    /// The sequence index this child tracks.
    pub index: usize,
    /// How many client handles to this child are outstanding.
    pub strong: u64,
    /// The cached child node.
    pub node: TrackedNode,
}

/// The sequence node: children are created on demand, one per accessed
/// index, held weakly in an ordered mapping keyed by index.
#[allow(non_camel_case_types)]
pub struct XBowTracked_Vec {
    /// The edge this node wraps: its path identity and its local signal.
    pub incoming_edge: Edge,
    /// The weak cache: sorted by index, one slot per accessed index.
    pub items: Vec<SeqEntry>,
    /// The next node-generation identity to hand out at this node.
    pub next_id: u64,
}

/// One strongly-held child slot of a product, sum or optional node.
pub struct FixedEntry {
    /// The field offset, variant tag, or `0` for an optional's single child.
    pub key: usize,
    /// The cached child node.
    pub node: TrackedNode,
}

/// A node with a fixed, declared child set: product fields, sum variant
/// payloads, or an optional's single content slot. Children are created on
/// demand and then held for as long as this node lives.
pub struct FixedNode {
    /// The edge this node wraps.
    pub incoming_edge: Edge,
    /// The materialized children, at most one per declared key.
    pub children: Vec<FixedEntry>,
}

/// The closed set of tracked-node kinds.
pub enum NodeKind {
    /// Tracks a primitive scalar; no children exist.
    Leaf(Edge),
    /// Tracks an aggregate with fixed fields.
    Product(FixedNode),
    /// Tracks a tagged union, one child slot per variant payload.
    Sum(FixedNode),
    /// Tracks an optional value, with a single child slot.
    Opt(FixedNode),
    /// Tracks an ordered dynamic sequence, with the weak cache.
    Sequence(XBowTracked_Vec),
}

/// One cached, per-path object: its node-generation identity and its kind.
pub struct TrackedNode {
    /// Distinguishes this node from an earlier, reclaimed generation that
    /// tracked the same path.
    pub id: u64,
    /// The kind-specific state, including the node's edge.
    pub kind: NodeKind,
}

/// The edge a node wraps.
pub open spec fn edge_of(n: TrackedNode) -> Edge {
    match n.kind {
        NodeKind::Leaf(e) => e,
        NodeKind::Product(f) => f.incoming_edge,
        NodeKind::Sum(f) => f.incoming_edge,
        NodeKind::Opt(f) => f.incoming_edge,
        NodeKind::Sequence(x) => x.incoming_edge,
    }
}

/// A counter's successor, stopping at the largest value rather than wrapping.
pub open spec fn sat_inc(v: u64) -> u64 {
    if v == u64::MAX {
        u64::MAX
    } else {
        (v + 1) as u64
    }
}

/// The first cache slot with the given index, scanning left to right.
pub open spec fn entry_at(entries: Seq<SeqEntry>, index: usize) -> Option<SeqEntry>
    decreases entries.len(),
{
    if entries.len() == 0 {
        None
    } else if entries[0].index == index {
        Some(entries[0])
    } else {
        entry_at(entries.drop_first(), index)
    }
}

/// The first fixed child slot with the given key, scanning left to right.
pub open spec fn child_at(children: Seq<FixedEntry>, key: usize) -> Option<FixedEntry>
    decreases children.len(),
{
    if children.len() == 0 {
        None
    } else if children[0].key == key {
        Some(children[0])
    } else {
        child_at(children.drop_first(), key)
    }
}

/// The cache is an ordered mapping: slot indices strictly increase.
pub open spec fn seq_sorted(entries: Seq<SeqEntry>) -> bool {
    forall|j: int, k: int| 0 <= j < k < entries.len() ==> entries[j].index < entries[k].index
}

/// Every cached generation identity lies below the counter that will mint
/// the next one, unless the counter has reached its ceiling.
pub open spec fn ids_below_next(x: XBowTracked_Vec) -> bool {
    (forall|j: int| 0 <= j < x.items@.len() ==> x.items@[j].node.id < x.next_id) || x.next_id
        == u64::MAX
}

/// A fixed child set holds at most one slot per key.
pub open spec fn keys_distinct(children: Seq<FixedEntry>) -> bool {
    forall|j: int, k: int| 0 <= j < k < children.len() ==> children[j].key != children[k].key
}

/// Well-formedness of a node and everything cached beneath it.
pub open spec fn node_wf(n: TrackedNode) -> bool
    decreases n,
{
    match n.kind {
        NodeKind::Leaf(_) => true,
        NodeKind::Product(f) => fixed_node_wf(f),
        NodeKind::Sum(f) => fixed_node_wf(f),
        NodeKind::Opt(f) => fixed_node_wf(f),
        NodeKind::Sequence(x) => seq_node_wf(x),
    }
}

/// Well-formedness of a fixed child set: distinct keys, well-formed children.
pub open spec fn fixed_node_wf(f: FixedNode) -> bool
    decreases f,
{
    &&& keys_distinct(f.children@)
    &&& forall|j: int| 0 <= j < f.children@.len() ==> node_wf(#[trigger] f.children@[j].node)
}

/// Well-formedness of a sequence node: an ordered cache, fresh identities
/// below the counter, well-formed children.
pub open spec fn seq_node_wf(x: XBowTracked_Vec) -> bool
    decreases x,
{
    &&& seq_sorted(x.items@)
    &&& ids_below_next(x)
    &&& forall|j: int| 0 <= j < x.items@.len() ==> node_wf(#[trigger] x.items@[j].node)
}

/// Whether a node kind is the one the trackable registry assigns to a shape.
pub open spec fn kind_matches(s: Shape, k: NodeKind) -> bool {
    match s {
        Shape::Leaf => k is Leaf,
        Shape::Product(_) => k is Product,
        Shape::Sum(_) => k is Sum,
        Shape::Opt(_) => k is Opt,
        Shape::Sequence(_) => k is Sequence,
    }
}

/// A node just constructed for a path: the registry's kind for the shape,
/// the given generation identity, a fresh signal, and nothing materialized.
pub open spec fn is_fresh_node(n: TrackedNode, s: Shape, path: Seq<Mapper>, id: u64) -> bool {
    &&& n.id == id
    &&& kind_matches(s, n.kind)
    &&& edge_of(n).path@ == path
    &&& edge_of(n).version == 0
    &&& (match n.kind {
        NodeKind::Leaf(_) => true,
        NodeKind::Product(f) => f.children@.len() == 0,
        NodeKind::Sum(f) => f.children@.len() == 0,
        NodeKind::Opt(f) => f.children@.len() == 0,
        NodeKind::Sequence(x) => x.items@.len() == 0 && x.next_id == 0,
    })
    &&& node_wf(n)
}

/// The trackable registry: construct the node of the kind registered for
/// the given shape, with no children materialized yet. Consulted only at
/// the point a handle's child-accessor is called, never as a pass over the
/// whole data graph.
pub fn make_node(shape: &Shape, edge: Edge, id: u64) -> (n: TrackedNode)
    requires
        edge.version == 0,
    ensures
        is_fresh_node(n, *shape, edge.path@, id),
{
    let kind = match shape {
        Shape::Leaf => NodeKind::Leaf(edge),
        Shape::Product(_) => NodeKind::Product(FixedNode { incoming_edge: edge, children: Vec::new() }),
        Shape::Sum(_) => NodeKind::Sum(FixedNode { incoming_edge: edge, children: Vec::new() }),
        Shape::Opt(_) => NodeKind::Opt(FixedNode { incoming_edge: edge, children: Vec::new() }),
        Shape::Sequence(_) => NodeKind::Sequence(XBowTracked_Vec::new(edge)),
    };
    TrackedNode { id, kind }
}

impl XBowTracked_Vec {
    /// Construct a sequence node with no children materialized yet.
    pub fn new(edge: Edge) -> (x: Self)
        ensures
            x.incoming_edge == edge,
            x.items@.len() == 0,
            x.next_id == 0,
    {
        XBowTracked_Vec { incoming_edge: edge, items: Vec::new(), next_id: 0 }
    }

    /// This node's path identity and local signal.
    pub fn edge(&self) -> (e: &Edge)
        ensures
            *e == self.incoming_edge,
    {
        &self.incoming_edge
    }

    /// Construct a fresh child node for one index: compose this node's edge
    /// with the index mapper and consult the registry for the child's kind.
    pub fn create_item(&self, index: usize, elem_shape: &Shape, id: u64) -> (n: TrackedNode)
        ensures
            is_fresh_node(
                n,
                *elem_shape,
                self.incoming_edge.path@.push(Mapper::Index(MapperVec { index })),
                id,
            ),
    {
        let edge = Edge::new(&self.incoming_edge, Mapper::Index(MapperVec::new(index)));
        make_node(elem_shape, edge, id)
    }

    /// Obtain a handle for one index: return a new claim on the live cached
    /// child if one exists, otherwise construct a fresh child, cache it
    /// weakly, and return the first claim on it.
    ///
    /// The index is not validated against any current sequence length: a
    /// handle for an index past the end is constructible, and its projection
    /// stays absent until the sequence grows to cover it.
    pub fn handle_at(&mut self, index: usize, elem_shape: &Shape) -> (h: Handle)
        requires
            seq_node_wf(*old(self)),
        ensures
            seq_node_wf(*final(self)),
            final(self).incoming_edge == old(self).incoming_edge,
            h.path@ == old(self).incoming_edge.path@.push(Mapper::Index(MapperVec { index })),
            forall|i: usize|
                i != index ==> entry_at(final(self).items@, i) == entry_at(old(self).items@, i),
            handle_at_post(*old(self), *final(self), h, index, *elem_shape),
            // A fresh generation is distinguishable from every cached one.
            ((match entry_at(old(self).items@, index) {
                Some(e) => e.strong == 0,
                None => true,
            }) && old(self).next_id < u64::MAX) ==> forall|j: int|
                0 <= j < old(self).items@.len() ==> old(self).items@[j].node.id != h.node_id,
    {
        let step = Mapper::Index(MapperVec::new(index));
        let mut hpath = crate::edge::clone_path(&self.incoming_edge.path);
        hpath.push(step);
        let ghost pre = *self;
        match find_entry(&self.items, index) {
            Ok(j) => {
                proof {
                    assert(forall|k: int|
                        0 <= k < j ==> pre.items@[k].index != pre.items@[j as int].index);
                }
                if self.items[j].strong > 0 {
                    let e = vstd::std_specs::vec::vec_index_mut(&mut self.items, j);
                    let id = e.node.id;
                    if e.strong < u64::MAX {
                        e.strong = e.strong + 1;
                    }
                    proof {
                        let e2 = final(self).items@[j as int];
                        lemma_entry_at_update(pre.items@, j as int, e2);
                        assert(final(self).items@ =~= pre.items@.update(j as int, e2));
                        assert(seq_sorted(final(self).items@)) by {
                            assert(forall|k: int|
                                0 <= k < final(self).items@.len() ==> final(self).items@[k].index
                                    == pre.items@[k].index);
                        }
                    }
                    Handle { path: hpath, node_id: id }
                } else {
                    let fresh_id = self.next_id;
                    let node = self.create_item(index, elem_shape, fresh_id);
                    let e = vstd::std_specs::vec::vec_index_mut(&mut self.items, j);
                    e.strong = 1;
                    e.node = node;
                    if self.next_id < u64::MAX {
                        self.next_id = self.next_id + 1;
                    }
                    proof {
                        let e2 = final(self).items@[j as int];
                        lemma_entry_at_update(pre.items@, j as int, e2);
                        assert(final(self).items@ =~= pre.items@.update(j as int, e2));
                        assert(seq_sorted(final(self).items@)) by {
                            assert(forall|k: int|
                                0 <= k < final(self).items@.len() ==> final(self).items@[k].index
                                    == pre.items@[k].index);
                        }
                    }
                    Handle { path: hpath, node_id: fresh_id }
                }
            },
            Err(p) => {
                let fresh_id = self.next_id;
                let node = self.create_item(index, elem_shape, fresh_id);
                self.items.insert(p, SeqEntry { index, strong: 1, node });
                if self.next_id < u64::MAX {
                    self.next_id = self.next_id + 1;
                }
                proof {
                    let e2 = SeqEntry { index, strong: 1u64, node };
                    lemma_entry_at_insert(pre.items@, p as int, e2);
                    assert(final(self).items@ =~= pre.items@.insert(p as int, e2));
                    assert(seq_sorted(final(self).items@)) by {
                        let fin = final(self).items@;
                        assert forall|a: int, b: int|
                            0 <= a < b < fin.len() implies fin[a].index < fin[b].index by {
                            if a < p && b < p {
                                assert(fin[a] == pre.items@[a] && fin[b] == pre.items@[b]);
                            } else if a < p && b == p {
                                assert(fin[a] == pre.items@[a] && fin[b] == e2);
                            } else if a < p && b > p {
                                assert(fin[a] == pre.items@[a] && fin[b] == pre.items@[b - 1]);
                            } else if a == p {
                                assert(fin[a] == e2 && fin[b] == pre.items@[b - 1]);
                            } else {
                                assert(fin[a] == pre.items@[a - 1] && fin[b] == pre.items@[b - 1]);
                            }
                        }
                    }
                }
                Handle { path: hpath, node_id: fresh_id }
            },
        }
    }
}

/// The outcome of `handle_at` on an index whose cached child is still alive:
/// the handle claims the cached node generation, and the slot's claim count
/// rises by one. This is identity stability: as long as a strong handle is
/// retained, every further handle for the index refers to the same node.
pub open spec fn handle_live_case(
    pre: XBowTracked_Vec,
    post: XBowTracked_Vec,
    h: Handle,
    index: usize,
) -> bool {
    match entry_at(pre.items@, index) {
        Some(e) => {
            &&& e.strong > 0
            &&& h.node_id == e.node.id
            &&& post.next_id == pre.next_id
            &&& entry_at(post.items@, index) == Some(
                SeqEntry { index, strong: sat_inc(e.strong), node: e.node },
            )
        },
        None => false,
    }
}

/// The outcome of `handle_at` on an index with no live cached child: a
/// freshly constructed node, under a newly minted generation identity, is
/// cached with a single claim on it.
pub open spec fn handle_fresh_case(
    pre: XBowTracked_Vec,
    post: XBowTracked_Vec,
    h: Handle,
    index: usize,
    s: Shape,
) -> bool {
    &&& h.node_id == pre.next_id
    &&& post.next_id == sat_inc(pre.next_id)
    &&& (match entry_at(post.items@, index) {
        Some(e2) => {
            &&& e2.index == index
            &&& e2.strong == 1
            &&& is_fresh_node(
                e2.node,
                s,
                pre.incoming_edge.path@.push(Mapper::Index(MapperVec { index })),
                pre.next_id,
            )
        },
        None => false,
    })
}

/// The first slot with the given index, found by scanning the ordered cache;
/// or, when no slot has it, the position where such a slot belongs.
pub fn find_entry(items: &Vec<SeqEntry>, index: usize) -> (r: Result<usize, usize>)
    requires
        seq_sorted(items@),
    ensures
        match r {
            Ok(j) => {
                &&& j < items@.len()
                &&& items@[j as int].index == index
                &&& entry_at(items@, index) == Some(items@[j as int])
            },
            Err(p) => {
                &&& p <= items@.len()
                &&& entry_at(items@, index) is None
                &&& forall|k: int| 0 <= k < p ==> items@[k].index < index
                &&& forall|k: int| p <= k < items@.len() ==> items@[k].index > index
            },
        },
{
    let mut i: usize = 0;
    while i < items.len() && items[i].index < index
        invariant
            i <= items@.len(),
            forall|k: int| 0 <= k < i ==> items@[k].index < index,
            seq_sorted(items@),
        decreases items@.len() - i,
    {
        i = i + 1;
    }
    if i < items.len() && items[i].index == index {
        proof {
            lemma_entry_at_first(items@, i as int, index);
        }
        Ok(i)
    } else {
        proof {
            assert(forall|k: int| 0 <= k < items@.len() ==> items@[k].index != index);
            lemma_entry_at_absent(items@, index);
        }
        Err(i)
    }
}

/// When no slot carries the index, the scan finds nothing.
pub proof fn lemma_entry_at_absent(entries: Seq<SeqEntry>, index: usize)
    requires
        forall|k: int| 0 <= k < entries.len() ==> entries[k].index != index,
    ensures
        entry_at(entries, index) is None,
    decreases entries.len(),
{
    if entries.len() > 0 {
        lemma_entry_at_absent(entries.drop_first(), index);
    }
}

/// When slot `j` is the first to carry the index, the scan finds it.
proof fn lemma_entry_at_first(entries: Seq<SeqEntry>, j: int, index: usize)
    requires
        0 <= j < entries.len(),
        entries[j].index == index,
        forall|k: int| 0 <= k < j ==> entries[k].index != index,
    ensures
        entry_at(entries, index) == Some(entries[j]),
    decreases entries.len(),
{
    if j > 0 {
        lemma_entry_at_first(entries.drop_first(), j - 1, index);
    }
}

/// Replacing the first slot that carries an index, by a slot with the same
/// index, changes the scan's outcome at that index alone.
pub proof fn lemma_entry_at_update(entries: Seq<SeqEntry>, j: int, e2: SeqEntry)
    requires
        0 <= j < entries.len(),
        e2.index == entries[j].index,
        forall|k: int| 0 <= k < j ==> entries[k].index != entries[j].index,
    ensures
        entry_at(entries.update(j, e2), e2.index) == Some(e2),
        forall|i: usize|
            i != e2.index ==> entry_at(entries.update(j, e2), i) == entry_at(entries, i),
    decreases entries.len(),
{
    let upd = entries.update(j, e2);
    if j == 0 {
        assert(upd[0] == e2);
        assert(upd.drop_first() =~= entries.drop_first());
        assert forall|i: usize| i != e2.index implies entry_at(upd, i) == entry_at(
            entries,
            i,
        ) by {
            assert(entry_at(upd, i) == entry_at(upd.drop_first(), i));
            assert(entry_at(entries, i) == entry_at(entries.drop_first(), i));
        }
    } else {
        lemma_entry_at_update(entries.drop_first(), j - 1, e2);
        assert(upd.drop_first() =~= entries.drop_first().update(j - 1, e2));
        assert(upd[0] == entries[0]);
        assert(entries[0].index != e2.index);
        assert(entry_at(upd, e2.index) == entry_at(upd.drop_first(), e2.index));
        assert forall|i: usize| i != e2.index implies entry_at(upd, i) == entry_at(
            entries,
            i,
        ) by {
            if entries[0].index == i {
                assert(entry_at(upd, i) == Some(upd[0]));
                assert(entry_at(entries, i) == Some(entries[0]));
            } else {
                assert(entry_at(upd, i) == entry_at(upd.drop_first(), i));
                assert(entry_at(entries, i) == entry_at(entries.drop_first(), i));
            }
        }
    }
}

/// Inserting a slot whose index no slot carries makes the scan find it, and
/// changes the scan's outcome at that index alone.
proof fn lemma_entry_at_insert(entries: Seq<SeqEntry>, p: int, e: SeqEntry)
    requires
        0 <= p <= entries.len(),
        entry_at(entries, e.index) is None,
    ensures
        entry_at(entries.insert(p, e), e.index) == Some(e),
        forall|i: usize|
            i != e.index ==> entry_at(entries.insert(p, e), i) == entry_at(entries, i),
    decreases entries.len(),
{
    let ins = entries.insert(p, e);
    if p == 0 {
        assert(ins[0] == e);
        assert(ins.drop_first() =~= entries);
        assert forall|i: usize| i != e.index implies entry_at(ins, i) == entry_at(
            entries,
            i,
        ) by {
            assert(entry_at(ins, i) == entry_at(ins.drop_first(), i));
        }
    } else {
        assert(entries.len() > 0);
        assert(entries[0].index != e.index) by {
            assert(entry_at(entries, e.index) is None);
        }
        lemma_entry_at_insert(entries.drop_first(), p - 1, e);
        assert(ins[0] == entries[0]);
        assert(ins.drop_first() =~= entries.drop_first().insert(p - 1, e));
        assert(entry_at(ins, e.index) == entry_at(ins.drop_first(), e.index));
        assert forall|i: usize| i != e.index implies entry_at(ins, i) == entry_at(
            entries,
            i,
        ) by {
            if entries[0].index == i {
                assert(entry_at(ins, i) == Some(ins[0]));
                assert(entry_at(entries, i) == Some(entries[0]));
            } else {
                assert(entry_at(ins, i) == entry_at(ins.drop_first(), i));
                assert(entry_at(entries, i) == entry_at(entries.drop_first(), i));
            }
        }
    }
}

/// When no slot carries the key, the scan finds nothing.
pub proof fn lemma_child_at_absent(children: Seq<FixedEntry>, key: usize)
    requires
        forall|k: int| 0 <= k < children.len() ==> children[k].key != key,
    ensures
        child_at(children, key) is None,
    decreases children.len(),
{
    if children.len() > 0 {
        lemma_child_at_absent(children.drop_first(), key);
    }
}

/// When slot `j` is the first to carry the key, the scan finds it.
pub proof fn lemma_child_at_first(children: Seq<FixedEntry>, j: int, key: usize)
    requires
        0 <= j < children.len(),
        children[j].key == key,
        forall|k: int| 0 <= k < j ==> children[k].key != key,
    ensures
        child_at(children, key) == Some(children[j]),
    decreases children.len(),
{
    if j > 0 {
        lemma_child_at_first(children.drop_first(), j - 1, key);
    }
}

/// Appending a slot under a key no slot carries makes the scan find it, and
/// changes the scan's outcome at that key alone.
pub proof fn lemma_child_at_push(children: Seq<FixedEntry>, e: FixedEntry)
    requires
        child_at(children, e.key) is None,
    ensures
        child_at(children.push(e), e.key) == Some(e),
        forall|k: usize| k != e.key ==> child_at(children.push(e), k) == child_at(children, k),
    decreases children.len(),
{
    let ps = children.push(e);
    if children.len() == 0 {
        assert(ps[0] == e);
        assert(ps.drop_first() =~= Seq::<FixedEntry>::empty());
        assert forall|k: usize| k != e.key implies child_at(ps, k) == child_at(children, k) by {
            assert(child_at(ps, k) == child_at(ps.drop_first(), k));
        }
    } else {
        lemma_child_at_push(children.drop_first(), e);
        assert(ps[0] == children[0]);
        assert(ps.drop_first() =~= children.drop_first().push(e));
        assert(children[0].key != e.key);
        assert(child_at(ps, e.key) == child_at(ps.drop_first(), e.key));
        assert forall|k: usize| k != e.key implies child_at(ps, k) == child_at(children, k) by {
            if children[0].key == k {
                assert(child_at(ps, k) == Some(ps[0]));
                assert(child_at(children, k) == Some(children[0]));
            } else {
                assert(child_at(ps, k) == child_at(ps.drop_first(), k));
                assert(child_at(children, k) == child_at(children.drop_first(), k));
            }
        }
    }
}

/// The cached child one mapper step leads to, when it is materialized.
pub open spec fn child_of(n: TrackedNode, m: Mapper) -> Option<TrackedNode> {
    match n.kind {
        NodeKind::Leaf(_) => None,
        NodeKind::Product(f) => match m {
            Mapper::Field(k) => match child_at(f.children@, k) {
                Some(c) => Some(c.node),
                None => None,
            },
            _ => None,
        },
        NodeKind::Sum(f) => match m {
            Mapper::Variant(t) => match child_at(f.children@, t) {
                Some(c) => Some(c.node),
                None => None,
            },
            _ => None,
        },
        NodeKind::Opt(f) => match m {
            Mapper::Inner => match child_at(f.children@, 0) {
                Some(c) => Some(c.node),
                None => None,
            },
            _ => None,
        },
        NodeKind::Sequence(x) => match m {
            Mapper::Index(mv) => match entry_at(x.items@, mv.index) {
                Some(e) => Some(e.node),
                None => None,
            },
            _ => None,
        },
    }
}

/// The cached node a whole path leads to, when every step of it is
/// materialized.
pub open spec fn node_at(n: TrackedNode, path: Seq<Mapper>) -> Option<TrackedNode>
    decreases path.len(),
{
    if path.len() == 0 {
        Some(n)
    } else {
        match child_of(n, path[0]) {
            Some(c) => node_at(c, path.drop_first()),
            None => None,
        }
    }
}

/// Follow one mapper step through the cache.
pub fn find_child<'a>(n: &'a TrackedNode, m: &Mapper) -> (r: Option<&'a TrackedNode>)
    ensures
        match r {
            Some(c) => child_of(*n, *m) == Some(*c),
            None => child_of(*n, *m) is None,
        },
{
    match (&n.kind, m) {
        (NodeKind::Product(f), Mapper::Field(k)) => scan_children(&f.children, *k),
        (NodeKind::Sum(f), Mapper::Variant(t)) => scan_children(&f.children, *t),
        (NodeKind::Opt(f), Mapper::Inner) => scan_children(&f.children, 0),
        (NodeKind::Sequence(x), Mapper::Index(mv)) => scan_entries(&x.items, mv.index),
        _ => None,
    }
}

/// Scan a fixed child set for the first slot with the given key.
fn scan_children<'a>(children: &'a Vec<FixedEntry>, key: usize) -> (r: Option<&'a TrackedNode>)
    ensures
        match r {
            Some(c) => child_at(children@, key) matches Some(e) && e.node == *c,
            None => child_at(children@, key) is None,
        },
{
    let mut i: usize = 0;
    while i < children.len()
        invariant
            i <= children@.len(),
            forall|k: int| 0 <= k < i ==> children@[k].key != key,
        decreases children@.len() - i,
    {
        if children[i].key == key {
            proof {
                lemma_child_at_first(children@, i as int, key);
            }
            return Some(&children[i].node);
        }
        i = i + 1;
    }
    proof {
        lemma_child_at_absent(children@, key);
    }
    None
}

/// Scan a sequence cache for the first slot with the given index.
fn scan_entries<'a>(items: &'a Vec<SeqEntry>, index: usize) -> (r: Option<&'a TrackedNode>)
    ensures
        match r {
            Some(c) => entry_at(items@, index) matches Some(e) && e.node == *c,
            None => entry_at(items@, index) is None,
        },
{
    let mut i: usize = 0;
    while i < items.len()
        invariant
            i <= items@.len(),
            forall|k: int| 0 <= k < i ==> items@[k].index != index,
        decreases items@.len() - i,
    {
        if items[i].index == index {
            proof {
                lemma_entry_at_first(items@, i as int, index);
            }
            return Some(&items[i].node);
        }
        i = i + 1;
    }
    proof {
        lemma_entry_at_absent(items@, index);
    }
    None
}

/// Replacing the first slot that carries a key, by a slot with the same key,
/// changes the scan's outcome at that key alone.
pub proof fn lemma_child_at_update(children: Seq<FixedEntry>, j: int, e2: FixedEntry)
    requires
        0 <= j < children.len(),
        e2.key == children[j].key,
        forall|k: int| 0 <= k < j ==> children[k].key != children[j].key,
    ensures
        child_at(children.update(j, e2), e2.key) == Some(e2),
        forall|k: usize|
            k != e2.key ==> child_at(children.update(j, e2), k) == child_at(children, k),
    decreases children.len(),
{
    let upd = children.update(j, e2);
    if j == 0 {
        assert(upd[0] == e2);
        assert(upd.drop_first() =~= children.drop_first());
        assert forall|k: usize| k != e2.key implies child_at(upd, k) == child_at(
            children,
            k,
        ) by {
            assert(child_at(upd, k) == child_at(upd.drop_first(), k));
            assert(child_at(children, k) == child_at(children.drop_first(), k));
        }
    } else {
        lemma_child_at_update(children.drop_first(), j - 1, e2);
        assert(upd.drop_first() =~= children.drop_first().update(j - 1, e2));
        assert(upd[0] == children[0]);
        assert(children[0].key != e2.key);
        assert(child_at(upd, e2.key) == child_at(upd.drop_first(), e2.key));
        assert forall|k: usize| k != e2.key implies child_at(upd, k) == child_at(
            children,
            k,
        ) by {
            if children[0].key == k {
                assert(child_at(upd, k) == Some(upd[0]));
                assert(child_at(children, k) == Some(children[0]));
            } else {
                assert(child_at(upd, k) == child_at(upd.drop_first(), k));
                assert(child_at(children, k) == child_at(children.drop_first(), k));
            }
        }
    }
}

/// The position of the first fixed slot with the given key, if any.
pub(crate) fn scan_children_pos(children: &Vec<FixedEntry>, key: usize) -> (r: Option<usize>)
    ensures
        match r {
            Some(j) => {
                &&& j < children@.len()
                &&& children@[j as int].key == key
                &&& forall|k: int| 0 <= k < j ==> children@[k].key != key
                &&& child_at(children@, key) == Some(children@[j as int])
            },
            None => {
                &&& child_at(children@, key) is None
                &&& forall|k: int| 0 <= k < children@.len() ==> children@[k].key != key
            },
        },
{
    let mut i: usize = 0;
    while i < children.len()
        invariant
            i <= children@.len(),
            forall|k: int| 0 <= k < i ==> children@[k].key != key,
        decreases children@.len() - i,
    {
        if children[i].key == key {
            proof {
                lemma_child_at_first(children@, i as int, key);
            }
            return Some(i);
        }
        i = i + 1;
    }
    proof {
        lemma_child_at_absent(children@, key);
    }
    None
}

/// The position of the first cache slot with the given index, if any.
pub(crate) fn scan_entries_pos(items: &Vec<SeqEntry>, index: usize) -> (r: Option<usize>)
    ensures
        match r {
            Some(j) => {
                &&& j < items@.len()
                &&& items@[j as int].index == index
                &&& forall|k: int| 0 <= k < j ==> items@[k].index != index
                &&& entry_at(items@, index) == Some(items@[j as int])
            },
            None => {
                &&& entry_at(items@, index) is None
                &&& forall|k: int| 0 <= k < items@.len() ==> items@[k].index != index
            },
        },
{
    let mut i: usize = 0;
    while i < items.len()
        invariant
            i <= items@.len(),
            forall|k: int| 0 <= k < i ==> items@[k].index != index,
        decreases items@.len() - i,
    {
        if items[i].index == index {
            proof {
                lemma_entry_at_first(items@, i as int, index);
            }
            return Some(i);
        }
        i = i + 1;
    }
    proof {
        lemma_entry_at_absent(items@, index);
    }
    None
}

/// Following a concatenated path through the cache is following the first
/// part, then following the second from where it led.
pub proof fn lemma_node_at_split(p: Seq<Mapper>, q: Seq<Mapper>, n: TrackedNode)
    ensures
        node_at(n, p + q) == (match node_at(n, p) {
            Some(mid) => node_at(mid, q),
            None => None,
        }),
    decreases p.len(),
{
    if p.len() == 0 {
        assert(p + q =~= q);
    } else {
        assert((p + q)[0] == p[0]);
        match child_of(n, p[0]) {
            Some(c) => {
                lemma_node_at_split(p.drop_first(), q, c);
                assert((p + q).drop_first() =~= p.drop_first() + q);
            },
            None => {
                assert((p + q).len() > 0);
            },
        }
    }
}

/// Following a path and then one more step is one step out of where the
/// path led.
pub proof fn lemma_node_at_snoc(n: TrackedNode, path: Seq<Mapper>, step: Mapper)
    ensures
        node_at(n, path.push(step)) == (match node_at(n, path) {
            Some(mid) => child_of(mid, step),
            None => None,
        }),
{
    let q = seq![step];
    lemma_node_at_split(path, q, n);
    assert(path + q =~= path.push(step));
    match node_at(n, path) {
        Some(mid) => {
            assert(q.len() == 1);
            assert(q[0] == step);
            assert(q.drop_first() =~= Seq::<Mapper>::empty());
            match child_of(mid, step) {
                Some(c) => {
                    assert(node_at(c, q.drop_first()) == Some(c));
                    assert(node_at(mid, q) == Some(c));
                },
                None => {
                    assert(node_at(mid, q) is None);
                },
            }
        },
        None => {},
    }
}

/// The cache outcome of `handle_at`: a live slot is claimed again, anything
/// else is replaced by a freshly constructed child under a new generation.
pub open spec fn handle_at_post(
    pre: XBowTracked_Vec,
    post: XBowTracked_Vec,
    h: Handle,
    index: usize,
    s: Shape,
) -> bool {
    match entry_at(pre.items@, index) {
        Some(e) => if e.strong > 0 {
            handle_live_case(pre, post, h, index)
        } else {
            handle_fresh_case(pre, post, h, index, s)
        },
        None => handle_fresh_case(pre, post, h, index, s),
    }
}

/// What the scan finds is a slot of the cache.
pub proof fn lemma_entry_at_in(entries: Seq<SeqEntry>, index: usize)
    requires
        entry_at(entries, index) is Some,
    ensures
        exists|j: int|
            0 <= j < entries.len() && entries[j] == entry_at(entries, index)->Some_0,
    decreases entries.len(),
{
    if entries.len() > 0 && entries[0].index != index {
        lemma_entry_at_in(entries.drop_first(), index);
        let j = choose|j: int|
            0 <= j < entries.drop_first().len() && entries.drop_first()[j] == entry_at(
                entries.drop_first(),
                index,
            )->Some_0;
        assert(entries[j + 1] == entries.drop_first()[j]);
    }
}

/// What the scan finds carries the index it was asked for.
pub proof fn lemma_entry_at_index(entries: Seq<SeqEntry>, index: usize)
    requires
        entry_at(entries, index) is Some,
    ensures
        entry_at(entries, index)->Some_0.index == index,
    decreases entries.len(),
{
    if entries.len() > 0 && entries[0].index != index {
        lemma_entry_at_index(entries.drop_first(), index);
    }
}

/// Two fixed child sets with the same keys in the same positions are
/// scanned alike: the same key is found at the same position in both.
pub proof fn lemma_child_at_aligned(pre: Seq<FixedEntry>, post: Seq<FixedEntry>, key: usize)
    requires
        post.len() == pre.len(),
        forall|j: int| 0 <= j < pre.len() ==> (#[trigger] post[j]).key == pre[j].key,
    ensures
        match (child_at(pre, key), child_at(post, key)) {
            (Option::None, Option::None) => true,
            (Some(a), Some(b)) => exists|j: int|
                0 <= j < pre.len() && #[trigger] pre[j] == a && post[j] == b,
            _ => false,
        },
    decreases pre.len(),
{
    if pre.len() > 0 {
        if pre[0].key == key {
            assert(child_at(pre, key) == Some(pre[0]));
            assert(child_at(post, key) == Some(post[0]));
        } else {
            lemma_child_at_aligned(pre.drop_first(), post.drop_first(), key);
            assert(child_at(pre, key) == child_at(pre.drop_first(), key));
            assert(child_at(post, key) == child_at(post.drop_first(), key));
            match child_at(pre.drop_first(), key) {
                Some(a) => {
                    let j = choose|j: int|
                        0 <= j < pre.drop_first().len() && #[trigger] pre.drop_first()[j] == a
                            && post.drop_first()[j] == child_at(post.drop_first(), key)->Some_0;
                    assert(pre[j + 1] == pre.drop_first()[j]);
                    assert(post[j + 1] == post.drop_first()[j]);
                },
                None => {},
            }
        }
    }
}

/// What the scan finds carries the key it was asked for.
pub proof fn lemma_child_at_key(children: Seq<FixedEntry>, key: usize)
    requires
        child_at(children, key) is Some,
    ensures
        child_at(children, key)->Some_0.key == key,
    decreases children.len(),
{
    if children.len() > 0 && children[0].key != key {
        lemma_child_at_key(children.drop_first(), key);
    }
}

} // verus!
