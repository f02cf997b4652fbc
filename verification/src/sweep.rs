//! The invalidation sweep: the externally-triggered, downward entry point.
//!
//! A sweep notifies the node's own path, then fans out synchronously into
//! every currently live cached descendant. A sequence slot whose claim count
//! has reached zero is reclaimed in the same pass, so stale cache slots cost
//! exactly one examination and never a separate collection pass. The work a
//! sweep performs is bounded by the cache footprint of the node — what has
//! been materialized and is still held — never by how much data exists.

use vstd::prelude::*;

use crate::edge::bump;
use crate::edge::Edge;
use crate::mapper::borrows_opt;
use crate::mapper::project_step;
use crate::mapper::Mapper;
use crate::mapper::MapperVec;
use crate::node::child_of;
use crate::node::edge_of;
use crate::node::entry_at;
use crate::node::ids_below_next;
use crate::node::node_wf;
use crate::node::seq_node_wf;
use crate::node::seq_sorted;
use crate::node::FixedEntry;
use crate::node::FixedNode;
use crate::node::NodeKind;
use crate::node::SeqEntry;
use crate::node::TrackedNode;
use crate::node::XBowTracked_Vec;
use crate::value::Value;

verus! {

/// Which child-addressing discipline a fixed node uses during a sweep.
pub enum FixedRole {
    /// Product: one child per declared field; all are forwarded into.
    Fields,
    /// Sum: one child per declared variant payload; only the child of the
    /// currently live tag is forwarded into.
    Variants,
    /// Optional: a single content child, forwarded into regardless of
    /// current presence.
    Content,
}

/// The value behind an optional borrowed value.
pub open spec fn deref_data(d: Option<&Value>) -> Option<Value> {
    match d {
        Some(v) => Some(*v),
        None => None,
    }
}

/// One mapper step applied to a possibly absent value.
pub open spec fn data_step(d: Option<Value>, m: Mapper) -> Option<Value> {
    match d {
        Some(v) => project_step(m, v),
        None => None,
    }
}

/// The mapper step a fixed node's child with the given key stands for.
pub open spec fn role_step(role: FixedRole, key: usize) -> Mapper {
    match role {
        FixedRole::Fields => Mapper::Field(key),
        FixedRole::Variants => Mapper::Variant(key),
        FixedRole::Content => Mapper::Inner,
    }
}

/// Whether a sweep forwards into the child with the given key: always for
/// fields and optional content, and only into the live tag's payload for
/// variants.
pub open spec fn forwards(role: FixedRole, d: Option<Value>, key: usize) -> bool {
    match role {
        FixedRole::Variants => data_step(d, role_step(role, key)) is Some,
        _ => true,
    }
}

/// Whether two node kinds use the same constructor.
pub open spec fn same_kind(a: NodeKind, b: NodeKind) -> bool {
    match (a, b) {
        (NodeKind::Leaf(_), NodeKind::Leaf(_)) => true,
        (NodeKind::Product(_), NodeKind::Product(_)) => true,
        (NodeKind::Sum(_), NodeKind::Sum(_)) => true,
        (NodeKind::Opt(_), NodeKind::Opt(_)) => true,
        (NodeKind::Sequence(_), NodeKind::Sequence(_)) => true,
        _ => false,
    }
}

/// What one sweep does to any node it reaches: the node keeps its identity,
/// kind and path, and its subscribers are notified — the path's version
/// counter moves by exactly one bump.
pub open spec fn swept(c: TrackedNode, c2: TrackedNode) -> bool {
    &&& c2.id == c.id
    &&& same_kind(c.kind, c2.kind)
    &&& edge_of(c2).path == edge_of(c).path
    &&& edge_of(c2).version == bump(edge_of(c).version)
}

/// What a sweep does to a fixed child set: the declared slots all stay, in
/// order and under their keys, and exactly the forwarded children are swept
/// while the rest are untouched.
pub open spec fn fixed_swept(
    pre: Seq<FixedEntry>,
    post: Seq<FixedEntry>,
    d: Option<Value>,
    role: FixedRole,
) -> bool
    decreases pre,
{
    &&& post.len() == pre.len()
    &&& forall|j: int|
        0 <= j < pre.len() ==> {
            &&& (#[trigger] post[j]).key == pre[j].key
            &&& if forwards(role, d, pre[j].key) {
                &&& swept(pre[j].node, post[j].node)
                &&& kind_swept(
                    pre[j].node.kind,
                    post[j].node.kind,
                    data_step(d, role_step(role, pre[j].key)),
                )
            } else {
                post[j] == pre[j]
            }
        }
}

/// What a sweep does to a sequence node's weak cache, slot by slot:
/// a slot with outstanding claims is kept, under the same index, claim count
/// and node generation, and its child is swept — no notification is lost on
/// a live slot. A slot with no outstanding claim is reclaimed in this same
/// pass. No slot appears from nowhere, and the identity counter is kept.
pub open spec fn entries_swept(pre: XBowTracked_Vec, post: XBowTracked_Vec, d: Option<Value>) -> bool
    decreases pre,
{
    &&& post.next_id == pre.next_id
    &&& (forall|i: usize|
        match #[trigger] entry_at(pre.items@, i) {
            Some(e) => if e.strong > 0 {
                match entry_at(post.items@, i) {
                    Some(e2) => {
                        &&& e2.index == e.index
                        &&& e2.strong == e.strong
                        &&& swept(e.node, e2.node)
                    },
                    None => false,
                }
            } else {
                entry_at(post.items@, i) is None
            },
            None => entry_at(post.items@, i) is None,
        })
    &&& (forall|j: int|
        0 <= j < pre.items@.len() && (#[trigger] pre.items@[j]).strong > 0
            ==> match entry_at(post.items@, pre.items@[j].index) {
            Some(e2) => kind_swept(
                pre.items@[j].node.kind,
                e2.node.kind,
                data_step(d, Mapper::Index(MapperVec { index: pre.items@[j].index })),
            ),
            None => false,
        })
}

/// What a sweep of this node does beneath it, by kind, at every depth the
/// sweep reaches.
pub open spec fn kind_swept(pre: NodeKind, post: NodeKind, d: Option<Value>) -> bool
    decreases pre,
{
    match (pre, post) {
        (NodeKind::Leaf(_), NodeKind::Leaf(_)) => true,
        (NodeKind::Product(f), NodeKind::Product(f2)) => fixed_swept(
            f.children@,
            f2.children@,
            d,
            FixedRole::Fields,
        ),
        (NodeKind::Sum(f), NodeKind::Sum(f2)) => fixed_swept(
            f.children@,
            f2.children@,
            d,
            FixedRole::Variants,
        ),
        (NodeKind::Opt(f), NodeKind::Opt(f2)) => fixed_swept(
            f.children@,
            f2.children@,
            d,
            FixedRole::Content,
        ),
        (NodeKind::Sequence(x), NodeKind::Sequence(x2)) => entries_swept(x, x2, d),
        _ => false,
    }
}

/// The cache footprint of a node: one unit for the node itself, plus one
/// unit per cached slot examined, plus the footprints of the children a
/// sweep can be forwarded into. Data size appears nowhere: the footprint
/// counts only what has been materialized and, for sequence slots, what is
/// still claimed.
pub open spec fn footprint_node(n: TrackedNode) -> nat
    decreases n, 0int,
{
    match n.kind {
        NodeKind::Leaf(_) => 1,
        NodeKind::Product(f) => 1 + footprint_children(f.children@),
        NodeKind::Sum(f) => 1 + footprint_children(f.children@),
        NodeKind::Opt(f) => 1 + footprint_children(f.children@),
        NodeKind::Sequence(x) => 1 + footprint_entries(x.items@),
    }
}

/// The combined footprint of a fixed child set.
pub open spec fn footprint_children(children: Seq<FixedEntry>) -> nat
    decreases children, 1int,
{
    if children.len() == 0 {
        0
    } else {
        1 + footprint_node(children[0].node) + footprint_children(children.drop_first())
    }
}

/// The combined footprint of a sequence cache: an unclaimed slot costs its
/// one examination; a claimed slot also costs its child's footprint.
pub open spec fn footprint_entries(entries: Seq<SeqEntry>) -> nat
    decreases entries, 1int,
{
    if entries.len() == 0 {
        0
    } else {
        1 + (if entries[0].strong > 0 {
            footprint_node(entries[0].node)
        } else {
            0
        }) + footprint_entries(entries.drop_first())
    }
}

/// Addition that stops at the largest counter value instead of overflowing.
fn sat_add(a: u64, b: u64) -> (r: u64)
    ensures
        r <= a + b,
        a + b <= u64::MAX ==> r == a + b,
{
    if b > u64::MAX - a {
        u64::MAX
    } else {
        a + b
    }
}

/// One mapper step applied to a possibly absent borrowed value.
pub(crate) fn step_data<'a>(data: Option<&'a Value>, m: &Mapper) -> (r: Option<&'a Value>)
    ensures
        borrows_opt(r, data_step(deref_data(data), *m)),
{
    match data {
        Some(v) => crate::mapper::apply_step(m, v),
        None => None,
    }
}

/// Sweep one node: notify its own path, then forward into the live cached
/// children its kind declares. Returns the swept node and the work done.
pub fn sweep_node(node: TrackedNode, data: Option<&Value>) -> (r: (TrackedNode, u64))
    requires
        node_wf(node),
    ensures
        node_wf(r.0),
        swept(node, r.0),
        kind_swept(node.kind, r.0.kind, deref_data(data)),
        r.1 <= footprint_node(node),
    decreases node, 2int,
{
    let ghost n0 = node;
    let TrackedNode { id, kind } = node;
    match kind {
        NodeKind::Leaf(mut e) => {
            e.notify_self();
            (TrackedNode { id, kind: NodeKind::Leaf(e) }, 1)
        },
        NodeKind::Product(f) => {
            let ghost f0 = f;
            let FixedNode { mut incoming_edge, children } = f;
            incoming_edge.notify_self();
            proof {
                assert(decreases_to!(n0, 2int => f0.children@, 1int));
            }
            let (children2, w) = sweep_children(children, data, FixedRole::Fields);
            let n2 = TrackedNode {
                id,
                kind: NodeKind::Product(FixedNode { incoming_edge, children: children2 }),
            };
            proof {
                lemma_keys_distinct_preserved(
                    f0.children@,
                    children2@,
                    deref_data(data),
                    FixedRole::Fields,
                );
            }
            (n2, sat_add(1, w))
        },
        NodeKind::Sum(f) => {
            let ghost f0 = f;
            let FixedNode { mut incoming_edge, children } = f;
            incoming_edge.notify_self();
            proof {
                assert(decreases_to!(n0, 2int => f0.children@, 1int));
            }
            let (children2, w) = sweep_children(children, data, FixedRole::Variants);
            let n2 = TrackedNode {
                id,
                kind: NodeKind::Sum(FixedNode { incoming_edge, children: children2 }),
            };
            proof {
                lemma_keys_distinct_preserved(
                    f0.children@,
                    children2@,
                    deref_data(data),
                    FixedRole::Variants,
                );
            }
            (n2, sat_add(1, w))
        },
        NodeKind::Opt(f) => {
            let ghost f0 = f;
            let FixedNode { mut incoming_edge, children } = f;
            incoming_edge.notify_self();
            proof {
                assert(decreases_to!(n0, 2int => f0.children@, 1int));
            }
            let (children2, w) = sweep_children(children, data, FixedRole::Content);
            let n2 = TrackedNode {
                id,
                kind: NodeKind::Opt(FixedNode { incoming_edge, children: children2 }),
            };
            proof {
                lemma_keys_distinct_preserved(
                    f0.children@,
                    children2@,
                    deref_data(data),
                    FixedRole::Content,
                );
            }
            (n2, sat_add(1, w))
        },
        NodeKind::Sequence(x) => {
            let ghost x0 = x;
            let XBowTracked_Vec { mut incoming_edge, items, next_id } = x;
            incoming_edge.notify_self();
            proof {
                assert(decreases_to!(n0, 2int => x0.items@, 1int));
            }
            let (items2, w) = sweep_entries(items, data);
            let n2 = TrackedNode {
                id,
                kind: NodeKind::Sequence(
                    XBowTracked_Vec { incoming_edge, items: items2, next_id },
                ),
            };
            proof {
                assert(ids_below_next(XBowTracked_Vec { incoming_edge, items: items2, next_id }))
                    by {
                    if next_id != u64::MAX {
                        assert forall|j: int|
                            0 <= j < items2@.len() implies (#[trigger] items2@[j]).node.id
                            < next_id by {
                            let k = choose|k: int|
                                0 <= k < x0.items@.len() && items2@[j].index == x0.items@[k].index
                                    && items2@[j].node.id == x0.items@[k].node.id;
                        }
                    }
                }
            }
            (n2, sat_add(1, w))
        },
    }
}

/// Sweep a fixed child set, slot by slot, forwarding into each child its
/// role says a sweep reaches.
fn sweep_children(children: Vec<FixedEntry>, outer: Option<&Value>, role: FixedRole) -> (r: (
    Vec<FixedEntry>,
    u64,
))
    requires
        forall|j: int| 0 <= j < children@.len() ==> node_wf(#[trigger] children@[j].node),
    ensures
        forall|j: int| 0 <= j < r.0@.len() ==> node_wf(#[trigger] r.0@[j].node),
        fixed_swept(children@, r.0@, deref_data(outer), role),
        r.1 <= footprint_children(children@),
        forall|j: int| 0 <= j < r.0@.len() ==> r.0@[j].key == children@[j].key,
    decreases children@, 1int,
{
    let ghost c0 = children@;
    let mut children = children;
    if children.len() == 0 {
        return (children, 0);
    }
    let e = children.remove(0);
    let FixedEntry { key, node } = e;
    let step = match role {
        FixedRole::Fields => Mapper::Field(key),
        FixedRole::Variants => Mapper::Variant(key),
        FixedRole::Content => Mapper::Inner,
    };
    let cdata = step_data(outer, &step);
    let forward = match role {
        FixedRole::Variants => cdata.is_some(),
        _ => true,
    };
    let (node2, w1): (TrackedNode, u64) = if forward {
        proof {
            assert(c0[0].node == node);
            assert(decreases_to!(c0, 1int => node, 2int));
        }
        sweep_node(node, cdata)
    } else {
        (node, 0)
    };
    proof {
        assert(children@ =~= c0.drop_first());
        assert(decreases_to!(c0 => c0.subrange(1, c0.len() as int)));
        assert(c0.subrange(1, c0.len() as int) =~= children@);
    }
    let (rest2, w2) = sweep_children(children, outer, role);
    let mut out: Vec<FixedEntry> = Vec::new();
    out.push(FixedEntry { key, node: node2 });
    let mut rest2_v = rest2;
    let ghost rest2s = rest2_v@;
    out.append(&mut rest2_v);
    let work = sat_add(sat_add(1, w1), w2);
    proof {
        assert(out@ =~= seq![FixedEntry { key, node: node2 }] + rest2s);
        let ghost d = deref_data(outer);
        assert(out@.len() == c0.len());
        assert(step == role_step(role, key));
        assert forall|j: int| 0 <= j < c0.len() implies {
            &&& (#[trigger] out@[j]).key == c0[j].key
            &&& if forwards(role, d, c0[j].key) {
                &&& swept(c0[j].node, out@[j].node)
                &&& kind_swept(
                    c0[j].node.kind,
                    out@[j].node.kind,
                    data_step(d, role_step(role, c0[j].key)),
                )
            } else {
                out@[j] == c0[j]
            }
        } by {
            if j == 0 {
                assert(out@[0] == FixedEntry { key, node: node2 });
                assert(c0[0] == FixedEntry { key, node });
                if !forward {
                    assert(!forwards(role, d, key));
                    assert(out@[0] == c0[0]);
                } else {
                    assert(deref_data(cdata) == data_step(d, step));
                }
            } else {
                assert(out@[j] == rest2s[j - 1]);
                assert(c0[j] == c0.drop_first()[j - 1]);
            }
        }
        assert forall|j: int| 0 <= j < out@.len() implies node_wf(
            #[trigger] out@[j].node,
        ) by {
            if j > 0 {
                assert(out@[j] == rest2s[j - 1]);
            }
        }
    }
    (out, work)
}

/// Sweep a sequence node's weak cache: examine every slot once, forward
/// into the children that still have outstanding claims, and reclaim in
/// this same pass every slot whose claims are gone.
fn sweep_entries(items: Vec<SeqEntry>, outer: Option<&Value>) -> (r: (Vec<SeqEntry>, u64))
    requires
        seq_sorted(items@),
        forall|j: int| 0 <= j < items@.len() ==> node_wf(#[trigger] items@[j].node),
    ensures
        seq_sorted(r.0@),
        forall|j: int| 0 <= j < r.0@.len() ==> node_wf(#[trigger] r.0@[j].node),
        forall|i: usize|
            match #[trigger] entry_at(items@, i) {
                Some(e) => if e.strong > 0 {
                    match entry_at(r.0@, i) {
                        Some(e2) => {
                            &&& e2.index == e.index
                            &&& e2.strong == e.strong
                            &&& swept(e.node, e2.node)
                        },
                        None => false,
                    }
                } else {
                    entry_at(r.0@, i) is None
                },
                None => entry_at(r.0@, i) is None,
            },
        r.1 <= footprint_entries(items@),
        forall|j: int|
            0 <= j < r.0@.len() ==> exists|k: int|
                0 <= k < items@.len() && (#[trigger] r.0@[j]).index == items@[k].index
                    && r.0@[j].node.id == items@[k].node.id,
        forall|j: int|
            0 <= j < items@.len() && (#[trigger] items@[j]).strong > 0
                ==> match entry_at(r.0@, items@[j].index) {
                Some(e2) => kind_swept(
                    items@[j].node.kind,
                    e2.node.kind,
                    data_step(deref_data(outer), Mapper::Index(MapperVec { index: items@[j].index })),
                ),
                None => false,
            },
    decreases items@, 1int,
{
    let ghost c0 = items@;
    let mut items = items;
    if items.len() == 0 {
        return (items, 0);
    }
    let e = items.remove(0);
    let SeqEntry { index, strong, node } = e;
    proof {
        assert(items@ =~= c0.drop_first());
        assert(decreases_to!(c0 => c0.subrange(1, c0.len() as int)));
        assert(c0.subrange(1, c0.len() as int) =~= items@);
    }
    let (rest2, w2) = sweep_entries(items, outer);
    proof {
        // The head's index occurs nowhere in the sorted tail, so its
        // outcome in the tail's rebuilt cache is absent.
        assert forall|k: int|
            0 <= k < c0.drop_first().len() implies (#[trigger] c0.drop_first()[k]).index
            != index by {
            assert(c0.drop_first()[k] == c0[k + 1]);
        }
        crate::node::lemma_entry_at_absent(c0.drop_first(), index);
        assert(entry_at(rest2@, index) is None);
    }
    if strong > 0 {
        let cdata = step_data(outer, &Mapper::Index(crate::mapper::MapperVec { index }));
        proof {
            assert(c0[0].node == node);
            assert(decreases_to!(c0, 1int => node, 2int));
        }
        let (node2, w1) = sweep_node(node, cdata);
        let ghost e2 = SeqEntry { index, strong, node: node2 };
        let mut out: Vec<SeqEntry> = Vec::new();
        out.push(SeqEntry { index, strong, node: node2 });
        let mut rest2_v = rest2;
        let ghost rest2s = rest2_v@;
        out.append(&mut rest2_v);
        let work = sat_add(sat_add(1, w1), w2);
        proof {
            assert(out@ =~= seq![e2] + rest2s);
            assert(out@[0] == e2);
            assert(out@.drop_first() =~= rest2s);
            // Slot-by-slot outcomes.
            assert forall|i: usize|
                match #[trigger] entry_at(c0, i) {
                    Some(e) => if e.strong > 0 {
                        match entry_at(out@, i) {
                            Some(f2) => {
                                &&& f2.index == e.index
                                &&& f2.strong == e.strong
                                &&& swept(e.node, f2.node)
                            },
                            None => false,
                        }
                    } else {
                        entry_at(out@, i) is None
                    },
                    None => entry_at(out@, i) is None,
                } by {
                if i == index {
                    assert(entry_at(c0, i) == Some(c0[0]));
                    assert(entry_at(out@, i) == Some(e2));
                } else {
                    assert(entry_at(c0, i) == entry_at(c0.drop_first(), i));
                    assert(entry_at(out@, i) == entry_at(rest2s, i));
                }
            }
            // The rebuilt cache stays sorted: every tail index is an index
            // of the old tail, hence above the head's index.
            assert forall|a: int, b: int|
                0 <= a < b < out@.len() implies out@[a].index < out@[b].index by {
                if a == 0 {
                    let tail = c0.drop_first();
                    let k = choose|k: int|
                        0 <= k < tail.len() && rest2s[b - 1].index == tail[k].index && rest2s[b
                            - 1].node.id == tail[k].node.id;
                    assert(c0.drop_first()[k] == c0[k + 1]);
                    assert(out@[b] == rest2s[b - 1]);
                } else {
                    assert(out@[a] == rest2s[a - 1] && out@[b] == rest2s[b - 1]);
                }
            }
            // The deep relation, slot by slot.
            assert forall|j: int|
                0 <= j < c0.len() && (#[trigger] c0[j]).strong > 0 implies match entry_at(
                out@,
                c0[j].index,
            ) {
                Some(f2) => kind_swept(
                    c0[j].node.kind,
                    f2.node.kind,
                    data_step(deref_data(outer), Mapper::Index(MapperVec { index: c0[j].index })),
                ),
                None => false,
            } by {
                if j == 0 {
                    assert(entry_at(out@, index) == Some(e2));
                    assert(deref_data(cdata) == data_step(
                        deref_data(outer),
                        Mapper::Index(MapperVec { index }),
                    ));
                } else {
                    assert(c0[j] == c0.drop_first()[j - 1]);
                    assert(c0[j].index != index);
                    assert(entry_at(out@, c0[j].index) == entry_at(rest2s, c0[j].index));
                }
            }
            // Every rebuilt slot keeps an index and a node generation of
            // the old cache.
            assert forall|j: int| 0 <= j < out@.len() implies exists|k: int|
                0 <= k < c0.len() && (#[trigger] out@[j]).index == c0[k].index && out@[j].node.id
                    == c0[k].node.id by {
                if j == 0 {
                    assert(out@[0].index == c0[0].index && out@[0].node.id == c0[0].node.id);
                } else {
                    let tail = c0.drop_first();
                    let k = choose|k: int|
                        0 <= k < tail.len() && rest2s[j - 1].index == tail[k].index && rest2s[j
                            - 1].node.id == tail[k].node.id;
                    assert(c0.drop_first()[k] == c0[k + 1]);
                    assert(out@[j] == rest2s[j - 1]);
                }
            }
        }
        (out, work)
    } else {
        let work = sat_add(1, w2);
        proof {
            assert forall|i: usize|
                match #[trigger] entry_at(c0, i) {
                    Some(e) => if e.strong > 0 {
                        match entry_at(rest2@, i) {
                            Some(f2) => {
                                &&& f2.index == e.index
                                &&& f2.strong == e.strong
                                &&& swept(e.node, f2.node)
                            },
                            None => false,
                        }
                    } else {
                        entry_at(rest2@, i) is None
                    },
                    None => entry_at(rest2@, i) is None,
                } by {
                if i == index {
                    assert(entry_at(c0, i) == Some(c0[0]));
                } else {
                    assert(entry_at(c0, i) == entry_at(c0.drop_first(), i));
                }
            }
            assert forall|j: int|
                0 <= j < c0.len() && (#[trigger] c0[j]).strong > 0 implies match entry_at(
                rest2@,
                c0[j].index,
            ) {
                Some(f2) => kind_swept(
                    c0[j].node.kind,
                    f2.node.kind,
                    data_step(deref_data(outer), Mapper::Index(MapperVec { index: c0[j].index })),
                ),
                None => false,
            } by {
                assert(j != 0);
                assert(c0[j] == c0.drop_first()[j - 1]);
                assert(c0[j].index != index);
            }
            assert forall|j: int| 0 <= j < rest2@.len() implies exists|k: int|
                0 <= k < c0.len() && (#[trigger] rest2@[j]).index == c0[k].index && rest2@[j].node.id
                    == c0[k].node.id by {
                let tail = c0.drop_first();
                let k = choose|k: int|
                    0 <= k < tail.len() && rest2@[j].index == tail[k].index && rest2@[j].node.id
                        == tail[k].node.id;
                assert(c0.drop_first()[k] == c0[k + 1]);
            }
        }
        (rest2, work)
    }
}

/// A sweep keeps every declared key in place, so a distinct child set stays
/// distinct.
proof fn lemma_keys_distinct_preserved(
    pre: Seq<FixedEntry>,
    post: Seq<FixedEntry>,
    d: Option<Value>,
    role: FixedRole,
)
    requires
        crate::node::keys_distinct(pre),
        fixed_swept(pre, post, d, role),
    ensures
        crate::node::keys_distinct(post),
{
    assert forall|a: int, b: int| 0 <= a < b < post.len() implies (#[trigger] post[a]).key != (
    #[trigger] post[b]).key by {
        assert(post[a].key == pre[a].key);
        assert(post[b].key == pre[b].key);
    }
}

impl XBowTracked_Vec {
    /// The externally-triggered, downward invalidation entry point for a
    /// sequence node: notify this path's subscribers, then walk the weak
    /// cache once — forwarding into every slot that still has outstanding
    /// claims and reclaiming every slot that has none. `data` is the value
    /// currently reachable at this node's path, if any; it is only read.
    ///
    /// The work done is bounded by this node's cache footprint: it never
    /// depends on the length of the underlying sequence.
    pub fn invalidate_down_outside(&mut self, data: Option<&Value>) -> (work: u64)
        requires
            seq_node_wf(*old(self)),
        ensures
            seq_node_wf(*final(self)),
            final(self).incoming_edge.path == old(self).incoming_edge.path,
            final(self).incoming_edge.version == bump(old(self).incoming_edge.version),
            entries_swept(*old(self), *final(self), deref_data(data)),
            work <= 1 + footprint_entries(old(self).items@),
    {
        self.incoming_edge.notify_self();
        let mut items: Vec<SeqEntry> = Vec::new();
        core::mem::swap(&mut items, &mut self.items);
        let (items2, w) = sweep_entries(items, data);
        self.items = items2;
        proof {
            let pre = old(self).items@;
            let cur = self.items@;
            assert(ids_below_next(*self)) by {
                if self.next_id != u64::MAX {
                    assert forall|j: int|
                        0 <= j < cur.len() implies (#[trigger] cur[j]).node.id < self.next_id by {
                        let k = choose|k: int|
                            0 <= k < pre.len() && cur[j].index == pre[k].index && cur[j].node.id
                                == pre[k].node.id;
                    }
                }
            }
        }
        sat_add(1, w)
    }
}

impl TrackedNode {
    /// The edge this node wraps: its path identity and local signal.
    pub fn edge(&self) -> (e: &Edge)
        ensures
            *e == edge_of(*self),
    {
        match &self.kind {
            NodeKind::Leaf(e) => e,
            NodeKind::Product(f) => &f.incoming_edge,
            NodeKind::Sum(f) => &f.incoming_edge,
            NodeKind::Opt(f) => &f.incoming_edge,
            NodeKind::Sequence(x) => &x.incoming_edge,
        }
    }

    /// The externally-triggered, downward invalidation entry point: notify
    /// this path, then fan out synchronously into every currently live
    /// cached descendant, as this node's kind prescribes.
    pub fn invalidate_down_outside(&mut self, data: Option<&Value>) -> (work: u64)
        requires
            node_wf(*old(self)),
        ensures
            node_wf(*final(self)),
            swept(*old(self), *final(self)),
            kind_swept(old(self).kind, final(self).kind, deref_data(data)),
            work <= footprint_node(*old(self)),
    {
        let mut tmp = TrackedNode { id: 0, kind: NodeKind::Leaf(Edge::new_root()) };
        core::mem::swap(&mut tmp, self);
        let (n2, w) = sweep_node(tmp, data);
        *self = n2;
        w
    }
}

/// What a targeted invalidation did: the path leads through materialized
/// children to the node the caller named, that node and its live cached
/// descendants were swept — with the data projected along the same path —
/// and every node on the way kept its identity. Propagation is strictly
/// downward: nothing above or beside the named node is notified.
pub open spec fn swept_at(pre: TrackedNode, post: TrackedNode, path: Seq<Mapper>, d: Option<Value>) -> bool
    decreases path.len(),
{
    if path.len() == 0 {
        &&& swept(pre, post)
        &&& kind_swept(pre.kind, post.kind, d)
    } else {
        match (child_of(pre, path[0]), child_of(post, path[0])) {
            (Some(c0), Some(c1)) => swept_at(c0, c1, path.drop_first(), data_step(d, path[0])),
            _ => false,
        }
    }
}

} // verus!
