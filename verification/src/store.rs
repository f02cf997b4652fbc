//! The root store: owns the backing data, its shape, and the root tracked
//! node. Client code obtains handles through it, reads values through path
//! projection, performs raw writes, and triggers the invalidation sweep.
//!
//! Exclusive-borrow discipline: every mutating operation takes the store
//! exclusively and runs synchronously to completion, so a notified
//! subscriber can never reenter the cache that is being swept — reentrance
//! is ruled out by construction rather than detected at run time.

use vstd::prelude::*;

use crate::edge::clone_path;
use crate::edge::Edge;
use crate::mapper::apply_path;
use crate::mapper::borrows_opt;
use crate::mapper::project_path;
use crate::mapper::Mapper;
use crate::node::child_at;
use crate::node::child_of;
use crate::node::edge_of;
use crate::node::entry_at;
use crate::node::find_child;
use crate::node::fixed_node_wf;
use crate::node::is_fresh_node;
use crate::node::lemma_child_at_update;
use crate::node::lemma_entry_at_update;
use crate::node::lemma_node_at_snoc;
use crate::node::lemma_node_at_split;
use crate::node::make_node;
use crate::node::node_at;
use crate::node::node_wf;
use crate::node::scan_children_pos;
use crate::node::scan_entries_pos;
use crate::node::seq_node_wf;
use crate::node::FixedNode;
use crate::node::Handle;
use crate::node::NodeKind;
use crate::node::TrackedNode;
use crate::node::XBowTracked_Vec;
use crate::sweep::deref_data;
use crate::sweep::footprint_node;
use crate::sweep::step_data;
use crate::sweep::swept_at;
use crate::sweep::kind_swept;
use crate::sweep::swept;
use crate::value::ImitateOption;
use crate::value::leaf_of;
use crate::value::spec_leaf;
use crate::value::Shape;
use crate::value::Value;

verus! {

/// The root store: the actual data, the shape the registry tracks it by,
/// and the lazily materialized observer tree shaped like the data.
pub struct Store {
    /// The static shape of the tracked data, consulted by the registry.
    pub shape: Shape,
    /// The backing data itself.
    pub data: Value,
    /// The root tracked node; descendants materialize on demand.
    pub root: TrackedNode,
}

/// Well-formedness of a store: its observer tree is well-formed.
pub open spec fn store_wf(s: Store) -> bool {
    node_wf(s.root)
}

/// The shape one mapper step leads to. Total in the index: a sequence
/// element's shape is known for every index, so a handle can be built for
/// an index past the current length.
pub open spec fn spec_shape_step(s: Shape, m: Mapper) -> Option<Shape> {
    match m {
        Mapper::Field(k) => match s {
            Shape::Product(fs) => if k < fs@.len() {
                Some(fs@[k as int])
            } else {
                None
            },
            _ => None,
        },
        Mapper::Variant(t) => match s {
            Shape::Sum(vs) => if t < vs@.len() {
                Some(vs@[t as int])
            } else {
                None
            },
            _ => None,
        },
        Mapper::Inner => match s {
            Shape::Opt(e) => Some(*e),
            _ => None,
        },
        Mapper::Index(_) => match s {
            Shape::Sequence(e) => Some(*e),
            _ => None,
        },
    }
}

/// The shape a whole path leads to, step by step.
pub open spec fn shape_at(s: Shape, path: Seq<Mapper>) -> Option<Shape>
    decreases path.len(),
{
    if path.len() == 0 {
        Some(s)
    } else {
        match spec_shape_step(s, path[0]) {
            Some(c) => shape_at(c, path.drop_first()),
            None => None,
        }
    }
}

/// Whether a node kind has a child-accessor for a mapper step: the closed
/// correspondence between the registry's kinds and the path steps.
pub open spec fn step_supported(k: NodeKind, m: Mapper) -> bool {
    match (k, m) {
        (NodeKind::Sequence(_), Mapper::Index(_)) => true,
        (NodeKind::Product(_), Mapper::Field(_)) => true,
        (NodeKind::Sum(_), Mapper::Variant(_)) => true,
        (NodeKind::Opt(_), Mapper::Inner) => true,
        _ => false,
    }
}

/// When a child acquisition below `n` succeeds: the registry declares a
/// shape for the whole way including the final step, the cache chain down
/// to the parent is materialized, the parent is the node generation the
/// caller claims, and its kind has an accessor for the step.
pub open spec fn acquirable(n: TrackedNode, s: Shape, rest: Seq<Mapper>, step: Mapper, expect: u64) -> bool {
    &&& shape_at(s, rest.push(step)) is Some
    &&& (match node_at(n, rest) {
        Some(t) => t.id == expect && step_supported(t.kind, step),
        None => false,
    })
}

/// Follow one mapper step through a shape.
fn shape_step<'a>(s: &'a Shape, m: &Mapper) -> (r: Option<&'a Shape>)
    ensures
        match r {
            Some(c) => spec_shape_step(*s, *m) == Some(*c),
            None => spec_shape_step(*s, *m) is None,
        },
{
    match (m, s) {
        (Mapper::Field(k), Shape::Product(fs)) => if *k < fs.len() {
            Some(&fs[*k])
        } else {
            None
        },
        (Mapper::Variant(t), Shape::Sum(vs)) => if *t < vs.len() {
            Some(&vs[*t])
        } else {
            None
        },
        (Mapper::Inner, Shape::Opt(e)) => Some(&**e),
        (Mapper::Index(_), Shape::Sequence(e)) => Some(&**e),
        _ => None,
    }
}

impl Store {
    /// Build a store over the given data, tracked by the given shape. The
    /// root node is constructed through the registry; nothing beneath it is
    /// materialized yet.
    pub fn new(shape: Shape, data: Value) -> (s: Store)
        ensures
            store_wf(s),
            s.shape == shape,
            s.data == data,
            is_fresh_node(s.root, shape, Seq::<Mapper>::empty(), 0),
    {
        let root = make_node(&shape, Edge::new_root(), 0);
        Store { shape, data, root }
    }

    /// A handle on the root node itself.
    pub fn root_handle(&self) -> (h: Handle)
        ensures
            h.path@ == Seq::<Mapper>::empty(),
            h.node_id == self.root.id,
    {
        Handle { path: Vec::new(), node_id: self.root.id }
    }

    /// Resolve a path against the current data: the projected value, or
    /// absent. Absence is a first-class outcome, not a failure.
    pub fn read<'a>(&'a self, path: &Vec<Mapper>) -> (r: Option<&'a Value>)
        ensures
            borrows_opt(r, project_path(path@, self.data)),
    {
        apply_path(path, &self.data)
    }

    /// Resolve a path down to a primitive leaf: present with its value
    /// exactly when the path currently resolves to a leaf.
    pub fn read_leaf(&self, path: &Vec<Mapper>) -> (r: ImitateOption<u64>)
        ensures
            r == (match project_path(path@, self.data) {
                Some(v) => match spec_leaf(v) {
                    Some(n) => ImitateOption::Present(n),
                    None => ImitateOption::Absent,
                },
                None => ImitateOption::<u64>::Absent,
            }),
    {
        match self.read(path) {
            Some(v) => match leaf_of(v) {
                Some(n) => ImitateOption::Present(n),
                None => ImitateOption::Absent,
            },
            None => ImitateOption::Absent,
        }
    }

    /// The raw-write hook of the store owner: replace the backing data.
    /// The caller is expected to follow it with `invalidate_root`; batching
    /// several writes under one invalidation is valid and recommended.
    pub fn set_data(&mut self, new: Value)
        ensures
            final(self).data == new,
            final(self).shape == old(self).shape,
            final(self).root == old(self).root,
    {
        self.data = new;
    }

    /// Invalidate downward from the root: notify every path with a live
    /// cached node, pruning unclaimed sequence slots on the way. The work
    /// done is bounded by the observer tree's cache footprint, never by the
    /// size of the data.
    pub fn invalidate_root(&mut self) -> (work: u64)
        requires
            store_wf(*old(self)),
        ensures
            store_wf(*final(self)),
            final(self).data == old(self).data,
            final(self).shape == old(self).shape,
            swept(old(self).root, final(self).root),
            kind_swept(old(self).root.kind, final(self).root.kind, Some(old(self).data)),
            work <= footprint_node(old(self).root),
    {
        self.root.invalidate_down_outside(Some(&self.data))
    }

    /// Whether the backing data currently conforms to the tracked shape:
    /// the registry's typing judgment, decided at run time.
    pub fn data_conforms(&self) -> (r: bool)
        ensures
            r == crate::value::conforms(self.data, self.shape),
    {
        crate::value::conforms_check(&self.data, &self.shape)
    }

    /// Invalidate downward from the node at `path` — the smallest subtree
    /// a write there could have changed. Everything at or below that node
    /// with a live cached child is notified; nothing above or beside it is.
    /// Absent when no node is materialized at that path (then nothing can
    /// be subscribed below it, and no notification is owed).
    pub fn invalidate_at(&mut self, path: &Vec<Mapper>) -> (r: Option<u64>)
        requires
            store_wf(*old(self)),
        ensures
            store_wf(*final(self)),
            final(self).data == old(self).data,
            final(self).shape == old(self).shape,
            final(self).root.id == old(self).root.id,
            match r {
                Some(work) => {
                    &&& swept_at(old(self).root, final(self).root, path@, Some(old(self).data))
                    &&& (match node_at(old(self).root, path@) {
                        Some(t) => work <= footprint_node(t),
                        None => false,
                    })
                },
                None => node_at(old(self).root, path@) is None,
            },
    {
        proof {
            assert(path@.skip(0) =~= path@);
        }
        sweep_at(&mut self.root, Some(&self.data), path, 0)
    }

    /// The version last notified at the node a handle claims: the signal a
    /// subscriber polls. Absent when the handle is stale — when its cache
    /// chain is gone or its node generation was reclaimed.
    pub fn version_of(&self, h: &Handle) -> (r: Option<u64>)
        ensures
            r == (match node_at(self.root, h.path@) {
                Some(n) => if n.id == h.node_id {
                    Some(edge_of(n).version)
                } else {
                    None
                },
                None => None,
            }),
    {
        let mut cur: &TrackedNode = &self.root;
        let mut i: usize = 0;
        proof {
            assert(h.path@.take(0) =~= Seq::<Mapper>::empty());
        }
        while i < h.path.len()
            invariant
                i <= h.path@.len(),
                node_at(self.root, h.path@.take(i as int)) == Some(*cur),
            decreases h.path@.len() - i,
        {
            proof {
                lemma_node_at_snoc(self.root, h.path@.take(i as int), h.path@[i as int]);
                assert(h.path@.take(i as int).push(h.path@[i as int]) =~= h.path@.take(
                    i as int + 1,
                ));
            }
            match find_child(cur, &h.path[i]) {
                Some(c) => {
                    cur = c;
                    i = i + 1;
                },
                None => {
                    proof {
                        lemma_node_at_split(h.path@.take(i as int + 1), h.path@.skip(i as int + 1), self.root);
                        assert(h.path@.take(i as int + 1) + h.path@.skip(i as int + 1) =~= h.path@);
                    }
                    return None;
                },
            }
        }
        proof {
            assert(h.path@.take(h.path@.len() as int) =~= h.path@);
        }
        if cur.id == h.node_id {
            Some(cur.edge().version)
        } else {
            None
        }
    }

    /// Obtain a child handle one step below an existing handle, lazily
    /// materializing (or re-claiming) the child node. Absent when the
    /// parent handle is stale — its cache chain gone or its node generation
    /// reclaimed — or when the registry declares no child for this step at
    /// this shape.
    pub fn child_handle(&mut self, parent: &Handle, step: Mapper) -> (r: Option<Handle>)
        requires
            store_wf(*old(self)),
        ensures
            store_wf(*final(self)),
            final(self).data == old(self).data,
            final(self).shape == old(self).shape,
            final(self).root.id == old(self).root.id,
            r is Some <==> acquirable(
                old(self).root,
                old(self).shape,
                parent.path@,
                step,
                parent.node_id,
            ),
            match r {
                Some(h) => {
                    &&& h.path@ == parent.path@.push(step)
                    &&& (match node_at(final(self).root, h.path@) {
                        Some(c) => c.id == h.node_id,
                        None => false,
                    })
                },
                None => true,
            },
    {
        proof {
            assert(parent.path@.skip(0) =~= parent.path@);
        }
        let id_opt = acquire(&mut self.root, &self.shape, &parent.path, 0, step, parent.node_id);
        match id_opt {
            Some(id) => {
                let mut path = clone_path(&parent.path);
                path.push(step);
                Some(Handle { path, node_id: id })
            },
            None => None,
        }
    }

    /// Release one claim a handle holds on a sequence slot. True exactly
    /// when a claim was released; a handle on a root or fixed child (whose
    /// node lives as long as its owner) releases nothing, and neither does
    /// a stale handle.
    pub fn drop_handle(&mut self, h: Handle) -> (r: bool)
        requires
            store_wf(*old(self)),
        ensures
            store_wf(*final(self)),
            final(self).data == old(self).data,
            final(self).shape == old(self).shape,
            final(self).root.id == old(self).root.id,
            r <==> (h.path@.len() > 0 && releasable(old(self).root, h.path@, h.node_id)),
            r ==> released_from(old(self).root, final(self).root, h.path@, h.node_id),
    {
        if h.path.len() == 0 {
            return false;
        }
        proof {
            assert(h.path@.skip(0) =~= h.path@);
        }
        release(&mut self.root, &h.path, 0, h.node_id)
    }
}

/// Descend along a materialized path to the node generation `expect`, then
/// acquire the child one `step` further down: return a claim on the live
/// cached child if one exists, else construct it through the registry.
/// Returns the node generation the claim refers to, or nothing when the
/// chain, the parent generation or the registry gives out.
fn acquire(
    node: &mut TrackedNode,
    shape: &Shape,
    path: &Vec<Mapper>,
    i: usize,
    step: Mapper,
    expect: u64,
) -> (r: Option<u64>)
    requires
        node_wf(*old(node)),
        i <= path@.len(),
    ensures
        node_wf(*final(node)),
        final(node).id == old(node).id,
        edge_of(*final(node)) == edge_of(*old(node)),
        r is Some <==> acquirable(*old(node), *shape, path@.skip(i as int), step, expect),
        match r {
            Some(id) => match node_at(*final(node), path@.skip(i as int).push(step)) {
                Some(c) => c.id == id,
                None => false,
            },
            None => true,
        },
    decreases path@.len() - i, 1int,
{
    if i == path.len() {
        let ghost rest = path@.skip(i as int);
        let ghost p = rest.push(step);
        proof {
            assert(rest =~= Seq::<Mapper>::empty());
            assert(p.len() == 1);
            assert(p[0] == step);
            assert(p.drop_first() =~= Seq::<Mapper>::empty());
            assert(node_at(*old(node), rest) == Some(*old(node)));
        }
        if node.id != expect {
            return None;
        }
        let cshape = match shape_step(shape, &step) {
            Some(s) => s,
            None => {
                proof {
                    assert(shape_at(*shape, p) is None);
                }
                return None;
            },
        };
        proof {
            assert(shape_at(*cshape, Seq::<Mapper>::empty()) == Some(*cshape));
            assert(shape_at(*shape, p) == Some(*cshape));
        }
        match (&mut node.kind, &step) {
            (NodeKind::Sequence(x), Mapper::Index(mv)) => {
                let ghost xpre = *x;
                let h = x.handle_at(mv.index, cshape);
                proof {
                    match entry_at(xpre.items@, mv.index) {
                        Some(e) => {
                            if e.strong > 0 {
                                assert(crate::node::handle_live_case(xpre, *x, h, mv.index));
                            } else {
                                assert(crate::node::handle_fresh_case(
                                    xpre,
                                    *x,
                                    h,
                                    mv.index,
                                    *cshape,
                                ));
                            }
                        },
                        None => {
                            assert(crate::node::handle_fresh_case(xpre, *x, h, mv.index, *cshape));
                        },
                    }
                    match entry_at(x.items@, mv.index) {
                        Some(e2) => {
                            assert(e2.node.id == h.node_id);
                            assert(node_at(e2.node, Seq::<Mapper>::empty()) == Some(e2.node));
                        },
                        None => {
                            assert(false);
                        },
                    }
                }
                Some(h.node_id)
            },
            (NodeKind::Product(f), Mapper::Field(k)) => {
                let idq = acquire_fixed(f, *k, cshape, step);
                proof {
                    lemma_fixed_target(*f, *k);
                }
                Some(idq)
            },
            (NodeKind::Sum(f), Mapper::Variant(t)) => {
                let idq = acquire_fixed(f, *t, cshape, step);
                proof {
                    lemma_fixed_target(*f, *t);
                }
                Some(idq)
            },
            (NodeKind::Opt(f), Mapper::Inner) => {
                let idq = acquire_fixed(f, 0, cshape, step);
                proof {
                    lemma_fixed_target(*f, 0);
                }
                Some(idq)
            },
            _ => None,
        }
    } else {
        let m = path[i];
        let ghost rest = path@.skip(i as int);
        let ghost p = rest.push(step);
        proof {
            assert(rest.len() > 0);
            assert(rest[0] == path@[i as int]);
            assert(rest.drop_first() =~= path@.skip(i as int + 1));
            assert(p[0] == path@[i as int]);
            assert(p.drop_first() =~= path@.skip(i as int + 1).push(step));
        }
        let cshape = match shape_step(shape, &m) {
            Some(s) => s,
            None => {
                proof {
                    assert(shape_at(*shape, p) is None);
                }
                return None;
            },
        };
        proof {
            assert(shape_at(*shape, p) == shape_at(*cshape, p.drop_first()));
        }
        match (&mut node.kind, &m) {
            (NodeKind::Sequence(x), Mapper::Index(mv)) => {
                let j = match scan_entries_pos(&x.items, mv.index) {
                    Some(j) => j,
                    None => {
                        proof {
                            assert(child_of(*old(node), path@[i as int]) is None);
                            assert(node_at(*old(node), rest) is None);
                        }
                        return None;
                    },
                };
                let ghost pre_items = x.items@;
                proof {
                    assert(child_of(*old(node), path@[i as int]) == Some(
                        pre_items[j as int].node,
                    ));
                    assert(node_at(*old(node), rest) == node_at(
                        pre_items[j as int].node,
                        path@.skip(i as int + 1),
                    ));
                }
                let e = vstd::std_specs::vec::vec_index_mut(&mut x.items, j);
                let r = acquire(&mut e.node, cshape, path, i + 1, step, expect);
                proof {
                    let post_items = x.items@;
                    let e2 = post_items[j as int];
                    assert(e2.index == pre_items[j as int].index);
                    lemma_entry_at_update(pre_items, j as int, e2);
                    assert(post_items =~= pre_items.update(j as int, e2));
                    assert(seq_node_wf(*x)) by {
                        assert(forall|a: int|
                            0 <= a < post_items.len() ==> post_items[a].index == pre_items[a].index
                                && post_items[a].node.id == pre_items[a].node.id);
                    }
                }
                r
            },
            (NodeKind::Product(f), Mapper::Field(k)) => descend_fixed(
                f,
                *k,
                cshape,
                path,
                i,
                step,
                expect,
            ),
            (NodeKind::Sum(f), Mapper::Variant(t)) => descend_fixed(
                f,
                *t,
                cshape,
                path,
                i,
                step,
                expect,
            ),
            (NodeKind::Opt(f), Mapper::Inner) => descend_fixed(f, 0, cshape, path, i, step, expect),
            _ => None,
        }
    }
}

/// Acquire the fixed child under `key`, materializing it through the
/// registry if it has not been asked for yet. Fixed children are held for
/// as long as their owner lives, so the claim is permanent and carries the
/// constant generation identity.
fn acquire_fixed(f: &mut FixedNode, key: usize, cshape: &Shape, step: Mapper) -> (id: u64)
    requires
        fixed_node_wf(*old(f)),
    ensures
        fixed_node_wf(*final(f)),
        final(f).incoming_edge == old(f).incoming_edge,
        match child_at(final(f).children@, key) {
            Some(c) => c.node.id == id,
            None => false,
        },
{
    match scan_children_pos(&f.children, key) {
        Some(j) => f.children[j].node.id,
        None => {
            let edge = Edge::new(&f.incoming_edge, step);
            let child = make_node(cshape, edge, 0);
            let ghost pre = f.children@;
            f.children.push(crate::node::FixedEntry { key, node: child });
            proof {
                crate::node::lemma_child_at_push(
                    pre,
                    crate::node::FixedEntry { key, node: child },
                );
                assert(f.children@ =~= pre.push(crate::node::FixedEntry { key, node: child }));
                assert(crate::node::keys_distinct(f.children@)) by {
                    assert forall|a: int, b: int|
                        0 <= a < b < f.children@.len() implies f.children@[a].key != f.children@[
                        b].key by {
                        if b == f.children@.len() - 1 {
                            assert(f.children@[a] == pre[a]);
                        } else {
                            assert(f.children@[a] == pre[a]);
                            assert(f.children@[b] == pre[b]);
                        }
                    }
                }
            }
            0
        },
    }
}

/// Descend into the fixed child under `key` and continue acquiring below it.
fn descend_fixed(
    f: &mut FixedNode,
    key: usize,
    cshape: &Shape,
    path: &Vec<Mapper>,
    i: usize,
    step: Mapper,
    expect: u64,
) -> (r: Option<u64>)
    requires
        fixed_node_wf(*old(f)),
        i < path@.len(),
        path@.len() <= usize::MAX,
    ensures
        fixed_node_wf(*final(f)),
        final(f).incoming_edge == old(f).incoming_edge,
        r is Some <==> (match child_at(old(f).children@, key) {
            Some(c0) => acquirable(c0.node, *cshape, path@.skip(i as int + 1), step, expect),
            None => false,
        }),
        match r {
            Some(id) => match child_at(final(f).children@, key) {
                Some(c) => match node_at(c.node, path@.skip(i as int + 1).push(step)) {
                    Some(t) => t.id == id,
                    None => false,
                },
                None => false,
            },
            None => true,
        },
    decreases path@.len() - i, 0int,
{
    let j = match scan_children_pos(&f.children, key) {
        Some(j) => j,
        None => {
            return None;
        },
    };
    let ghost pre = f.children@;
    let e = vstd::std_specs::vec::vec_index_mut(&mut f.children, j);
    let r = acquire(&mut e.node, cshape, path, i + 1, step, expect);
    proof {
        let post = f.children@;
        let e2 = post[j as int];
        assert(e2.key == pre[j as int].key);
        lemma_child_at_update(pre, j as int, e2);
        assert(post =~= pre.update(j as int, e2));
        assert(crate::node::keys_distinct(post)) by {
            assert(forall|a: int| 0 <= a < post.len() ==> post[a].key == pre[a].key);
        }
    }
    r
}

/// Descend along a handle's path to the sequence slot it claims and release
/// one claim on it. True exactly when a claim was released.
fn release(node: &mut TrackedNode, path: &Vec<Mapper>, i: usize, id: u64) -> (r: bool)
    requires
        node_wf(*old(node)),
        i < path@.len(),
    ensures
        node_wf(*final(node)),
        final(node).id == old(node).id,
        edge_of(*final(node)) == edge_of(*old(node)),
        r <==> releasable(*old(node), path@.skip(i as int), id),
        r ==> released_from(*old(node), *final(node), path@.skip(i as int), id),
    decreases path@.len() - i,
{
    let ghost p = path@.skip(i as int);
    if i == path.len() - 1 {
        proof {
            assert(p.len() == 1);
            assert(p[0] == path@[i as int]);
        }
        match (&mut node.kind, &path[i]) {
            (NodeKind::Sequence(x), Mapper::Index(mv)) => {
                let j = match scan_entries_pos(&x.items, mv.index) {
                    Some(j) => j,
                    None => {
                        return false;
                    },
                };
                let ghost pre_items = x.items@;
                let e = vstd::std_specs::vec::vec_index_mut(&mut x.items, j);
                if e.node.id == id && e.strong > 0 {
                    e.strong = e.strong - 1;
                    proof {
                        let post_items = x.items@;
                        let e2 = post_items[j as int];
                        lemma_entry_at_update(pre_items, j as int, e2);
                        assert(post_items =~= pre_items.update(j as int, e2));
                        assert(seq_node_wf(*x)) by {
                            assert(forall|a: int|
                                0 <= a < post_items.len() ==> post_items[a].index == pre_items[a].index && post_items[a].node.id == pre_items[a].node.id
                                    && post_items[a].node == pre_items[a].node);
                        }
                    }
                    true
                } else {
                    false
                }
            },
            _ => false,
        }
    } else {
        let m = path[i];
        proof {
            assert(p.len() > 1);
            assert(p[0] == path@[i as int]);
            assert(p.drop_first() =~= path@.skip(i as int + 1));
        }
        match (&mut node.kind, &m) {
            (NodeKind::Sequence(x), Mapper::Index(mv)) => {
                let j = match scan_entries_pos(&x.items, mv.index) {
                    Some(j) => j,
                    None => {
                        proof {
                            assert(child_of(*old(node), path@[i as int]) is None);
                        }
                        return false;
                    },
                };
                let ghost pre_items = x.items@;
                proof {
                    assert(child_of(*old(node), path@[i as int]) == Some(
                        pre_items[j as int].node,
                    ));
                }
                let e = vstd::std_specs::vec::vec_index_mut(&mut x.items, j);
                let r = release(&mut e.node, path, i + 1, id);
                proof {
                    let post_items = x.items@;
                    let e2 = post_items[j as int];
                    lemma_entry_at_update(pre_items, j as int, e2);
                    assert(post_items =~= pre_items.update(j as int, e2));
                    assert(seq_node_wf(*x)) by {
                        assert(forall|a: int|
                            0 <= a < post_items.len() ==> post_items[a].index == pre_items[a].index
                                && post_items[a].node.id == pre_items[a].node.id);
                    }
                }
                r
            },
            (NodeKind::Product(f), Mapper::Field(k)) => release_fixed(f, *k, path, i, id),
            (NodeKind::Sum(f), Mapper::Variant(t)) => release_fixed(f, *t, path, i, id),
            (NodeKind::Opt(f), Mapper::Inner) => release_fixed(f, 0, path, i, id),
            _ => false,
        }
    }
}

/// Descend into the fixed child under `key` and continue releasing below it.
fn release_fixed(f: &mut FixedNode, key: usize, path: &Vec<Mapper>, i: usize, id: u64) -> (r: bool)
    requires
        fixed_node_wf(*old(f)),
        i + 1 < path@.len(),
        path@.len() <= usize::MAX,
    ensures
        fixed_node_wf(*final(f)),
        final(f).incoming_edge == old(f).incoming_edge,
        r <==> (match child_at(old(f).children@, key) {
            Some(c0) => releasable(c0.node, path@.skip(i as int + 1), id),
            None => false,
        }),
        r ==> match child_at(final(f).children@, key) {
            Some(c) => match child_at(old(f).children@, key) {
                Some(c0) => released_from(c0.node, c.node, path@.skip(i as int + 1), id),
                None => false,
            },
            None => false,
        },
    decreases path@.len() - i, 0int,
{
    let j = match scan_children_pos(&f.children, key) {
        Some(j) => j,
        None => {
            return false;
        },
    };
    let ghost pre = f.children@;
    let e = vstd::std_specs::vec::vec_index_mut(&mut f.children, j);
    let r = release(&mut e.node, path, i + 1, id);
    proof {
        let post = f.children@;
        let e2 = post[j as int];
        lemma_child_at_update(pre, j as int, e2);
        assert(post =~= pre.update(j as int, e2));
        assert(crate::node::keys_distinct(post)) by {
            assert(forall|a: int| 0 <= a < post.len() ==> post[a].key == pre[a].key);
        }
    }
    r
}

/// When a release below `n` succeeds: the path leads through materialized
/// children to a sequence slot that carries the handle's node generation
/// with an outstanding claim.
pub open spec fn releasable(n: TrackedNode, path: Seq<Mapper>, id: u64) -> bool
    decreases path.len(),
{
    if path.len() == 1 {
        match (n.kind, path[0]) {
            (NodeKind::Sequence(x), Mapper::Index(mv)) => match entry_at(x.items@, mv.index) {
                Some(e) => e.node.id == id && e.strong > 0,
                None => false,
            },
            _ => false,
        }
    } else if path.len() > 1 {
        match child_of(n, path[0]) {
            Some(c) => releasable(c, path.drop_first(), id),
            None => false,
        }
    } else {
        false
    }
}

/// What a successful release did, seen from a node downward: the path leads
/// through materialized children to a sequence slot that carried the
/// handle's node generation with an outstanding claim, and exactly that
/// claim count went down by one — the slot, its node, every other slot and
/// the identity counter stay as they were.
pub open spec fn released_from(pre: TrackedNode, post: TrackedNode, path: Seq<Mapper>, id: u64) -> bool
    decreases path.len(),
{
    if path.len() == 1 {
        match (pre.kind, post.kind, path[0]) {
            (NodeKind::Sequence(x0), NodeKind::Sequence(x1), Mapper::Index(mv)) => {
                &&& (match (entry_at(x0.items@, mv.index), entry_at(x1.items@, mv.index)) {
                    (Some(e0), Some(e1)) => {
                        &&& e0.node.id == id
                        &&& e0.strong > 0
                        &&& e1.strong == e0.strong - 1
                        &&& e1.node == e0.node
                        &&& e1.index == e0.index
                    },
                    _ => false,
                })
                &&& (forall|k: usize|
                    k != mv.index ==> entry_at(x1.items@, k) == entry_at(x0.items@, k))
                &&& x1.next_id == x0.next_id
            },
            _ => false,
        }
    } else if path.len() > 1 {
        match (child_of(pre, path[0]), child_of(post, path[0])) {
            (Some(c0), Some(c1)) => released_from(c0, c1, path.drop_first(), id),
            _ => false,
        }
    } else {
        false
    }
}

/// The cached fixed child under `key` is the node a one-step path reaches.
proof fn lemma_fixed_target(f: FixedNode, key: usize)
    ensures
        match child_at(f.children@, key) {
            Some(c) => node_at(c.node, Seq::<Mapper>::empty()) == Some(c.node),
            None => true,
        },
{
}

/// Descend along a materialized path, projecting the data in step, and run
/// the downward invalidation sweep at the node the path names.
fn sweep_at(node: &mut TrackedNode, data: Option<&Value>, path: &Vec<Mapper>, i: usize) -> (r:
    Option<u64>)
    requires
        node_wf(*old(node)),
        i <= path@.len(),
    ensures
        node_wf(*final(node)),
        final(node).id == old(node).id,
        match r {
            Some(work) => {
                &&& swept_at(*old(node), *final(node), path@.skip(i as int), deref_data(data))
                &&& (match node_at(*old(node), path@.skip(i as int)) {
                    Some(t) => work <= footprint_node(t),
                    None => false,
                })
            },
            None => node_at(*old(node), path@.skip(i as int)) is None,
        },
    decreases path@.len() - i,
{
    let ghost p = path@.skip(i as int);
    if i == path.len() {
        proof {
            assert(p =~= Seq::<Mapper>::empty());
        }
        let work = node.invalidate_down_outside(data);
        Some(work)
    } else {
        let m = path[i];
        let cdata = step_data(data, &m);
        proof {
            assert(p[0] == path@[i as int]);
            assert(p.drop_first() =~= path@.skip(i as int + 1));
        }
        match (&mut node.kind, &m) {
            (NodeKind::Sequence(x), Mapper::Index(mv)) => {
                let j = match scan_entries_pos(&x.items, mv.index) {
                    Some(j) => j,
                    None => {
                        return None;
                    },
                };
                let ghost pre_items = x.items@;
                let e = vstd::std_specs::vec::vec_index_mut(&mut x.items, j);
                let r = sweep_at(&mut e.node, cdata, path, i + 1);
                proof {
                    let post_items = x.items@;
                    let e2 = post_items[j as int];
                    lemma_entry_at_update(pre_items, j as int, e2);
                    assert(post_items =~= pre_items.update(j as int, e2));
                    assert(seq_node_wf(*x)) by {
                        assert(forall|a: int|
                            0 <= a < post_items.len() ==> post_items[a].index == pre_items[a].index
                                && post_items[a].node.id == pre_items[a].node.id);
                    }
                }
                r
            },
            (NodeKind::Product(f), Mapper::Field(k)) => sweep_at_fixed(f, *k, cdata, path, i),
            (NodeKind::Sum(f), Mapper::Variant(t)) => sweep_at_fixed(f, *t, cdata, path, i),
            (NodeKind::Opt(f), Mapper::Inner) => sweep_at_fixed(f, 0, cdata, path, i),
            _ => None,
        }
    }
}

/// Descend into the fixed child under `key` and continue the targeted sweep.
fn sweep_at_fixed(
    f: &mut FixedNode,
    key: usize,
    cdata: Option<&Value>,
    path: &Vec<Mapper>,
    i: usize,
) -> (r: Option<u64>)
    requires
        fixed_node_wf(*old(f)),
        i < path@.len(),
        path@.len() <= usize::MAX,
    ensures
        fixed_node_wf(*final(f)),
        final(f).incoming_edge == old(f).incoming_edge,
        match r {
            Some(work) => match (child_at(old(f).children@, key), child_at(
                final(f).children@,
                key,
            )) {
                (Some(c0), Some(c1)) => {
                    &&& swept_at(c0.node, c1.node, path@.skip(i as int + 1), deref_data(cdata))
                    &&& (match node_at(c0.node, path@.skip(i as int + 1)) {
                        Some(t) => work <= footprint_node(t),
                        None => false,
                    })
                    &&& c1.key == c0.key
                    &&& forall|k2: usize|
                        k2 != key ==> child_at(final(f).children@, k2) == child_at(
                            old(f).children@,
                            k2,
                        )
                },
                _ => false,
            },
            None => match child_at(old(f).children@, key) {
                Some(c0) => node_at(c0.node, path@.skip(i as int + 1)) is None,
                None => true,
            },
        },
    decreases path@.len() - i, 0int,
{
    let j = match scan_children_pos(&f.children, key) {
        Some(j) => j,
        None => {
            return None;
        },
    };
    let ghost pre = f.children@;
    let e = vstd::std_specs::vec::vec_index_mut(&mut f.children, j);
    let r = sweep_at(&mut e.node, cdata, path, i + 1);
    proof {
        let post = f.children@;
        let e2 = post[j as int];
        lemma_child_at_update(pre, j as int, e2);
        assert(post =~= pre.update(j as int, e2));
        assert(crate::node::keys_distinct(post)) by {
            assert(forall|a: int| 0 <= a < post.len() ==> post[a].key == pre[a].key);
        }
    }
    r
}

} // verus!
