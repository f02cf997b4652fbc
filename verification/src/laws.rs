//! The engine's laws, stated and proved over the contracts of `handle_at`
//! and the invalidation sweep.

use vstd::prelude::*;

use crate::edge::bump;
use crate::edge::lemma_bump_changes;
use crate::mapper::Mapper;
use crate::node::child_at;
use crate::node::child_of;
use crate::node::edge_of;
use crate::node::entry_at;
use crate::node::handle_at_post;
use crate::node::lemma_child_at_aligned;
use crate::node::lemma_child_at_key;
use crate::node::lemma_entry_at_in;
use crate::node::lemma_entry_at_index;
use crate::node::node_at;
use crate::node::seq_node_wf;
use crate::node::Handle;
use crate::node::NodeKind;
use crate::node::TrackedNode;
use crate::node::XBowTracked_Vec;
use crate::sweep::data_step;
use crate::sweep::entries_swept;
use crate::sweep::forwards;
use crate::sweep::kind_swept;
use crate::sweep::swept;
use crate::sweep::FixedRole;
use crate::value::Shape;
use crate::value::Value;

verus! {

/// Identity stability: while a strong handle obtained for an index is
/// retained, a second `handle_at` for the same index returns a handle that
/// refers to the same tracked node — the same generation identity.
///
/// `x0` is a sequence node's cache before the first call, `x1` after it,
/// `x2` after the second; `h1` and `h2` are the two handles returned.
pub proof fn lemma_identity_stability(
    x0: XBowTracked_Vec,
    x1: XBowTracked_Vec,
    x2: XBowTracked_Vec,
    h1: Handle,
    h2: Handle,
    index: usize,
    s1: Shape,
    s2: Shape,
)
    requires
        handle_at_post(x0, x1, h1, index, s1),
        handle_at_post(x1, x2, h2, index, s2),
    ensures
        h2.node_id == h1.node_id,
{
}

/// Reclaim-after-drop: once the only strong handle for an index is dropped,
/// an invalidation sweep prunes the slot, and the next `handle_at` for that
/// index constructs a new tracked node — under a generation identity that
/// differs from the reclaimed one.
///
/// `x0` is the cache after the drop (no claims left at `index`), `x1` the
/// cache after a sweep over it, `x2` the cache after `handle_at` ran again
/// and returned `h2`. The identity counter must not have reached its
/// ceiling, or generations are no longer told apart.
pub proof fn lemma_reclaim_after_drop(
    x0: XBowTracked_Vec,
    x1: XBowTracked_Vec,
    x2: XBowTracked_Vec,
    h2: Handle,
    index: usize,
    s: Shape,
    d: Option<Value>,
)
    requires
        seq_node_wf(x0),
        x0.next_id < u64::MAX,
        ({
            let slot = entry_at(x0.items@, index);
            slot matches Some(e) && e.strong == 0
        }),
        entries_swept(x0, x1, d),
        handle_at_post(x1, x2, h2, index, s),
    ensures
        entry_at(x1.items@, index) is None,
        ({
            let slot = entry_at(x0.items@, index);
            slot matches Some(e) && h2.node_id != e.node.id
        }),
{
    let e = entry_at(x0.items@, index)->Some_0;
    lemma_entry_at_in(x0.items@, index);
    assert(e.node.id < x0.next_id);
    assert(x1.next_id == x0.next_id);
    assert(h2.node_id == x1.next_id);
}

/// No lost notification under liveness: a sweep over a sequence node
/// delivers a notification to the subscribers of every index that has an
/// externally retained handle at sweep time — the slot's version counter
/// moves, and to a different value than it had.
pub proof fn lemma_no_lost_notification(
    x0: XBowTracked_Vec,
    x1: XBowTracked_Vec,
    index: usize,
    d: Option<Value>,
)
    requires
        entries_swept(x0, x1, d),
        ({
            let slot = entry_at(x0.items@, index);
            slot matches Some(e) && e.strong > 0
        }),
    ensures
        match (entry_at(x0.items@, index), entry_at(x1.items@, index)) {
            (Some(e), Some(e2)) => {
                &&& e2.strong == e.strong
                &&& edge_of(e2.node).version == bump(edge_of(e.node).version)
                &&& edge_of(e2.node).version != edge_of(e.node).version
            },
            _ => false,
        },
{
    let e = entry_at(x0.items@, index)->Some_0;
    lemma_bump_changes(edge_of(e.node).version);
}

/// Whether one invalidation step forwards from this node into the child one
/// mapper step below, given the data at this node: always for a cached field
/// or optional content, only with outstanding claims for a sequence slot,
/// and only into the live tag's payload for a sum.
pub open spec fn step_forwarded(n: TrackedNode, m: Mapper, d: Option<Value>) -> bool {
    match (n.kind, m) {
        (NodeKind::Sequence(x), Mapper::Index(mv)) => match entry_at(x.items@, mv.index) {
            Some(e) => e.strong > 0,
            None => false,
        },
        (NodeKind::Sum(_), Mapper::Variant(t)) => forwards(FixedRole::Variants, d, t),
        (NodeKind::Product(_), Mapper::Field(_)) => true,
        (NodeKind::Opt(_), Mapper::Inner) => true,
        _ => false,
    }
}

/// Whether a whole path below this node is materialized and externally
/// live, so that a sweep arriving here is forwarded along all of it. The
/// data is projected along the same steps.
pub open spec fn live_chain(n: TrackedNode, path: Seq<Mapper>, d: Option<Value>) -> bool
    decreases path.len(),
{
    if path.len() == 0 {
        true
    } else {
        match child_of(n, path[0]) {
            Some(c) => step_forwarded(n, path[0], d) && live_chain(
                c,
                path.drop_first(),
                data_step(d, path[0]),
            ),
            None => false,
        }
    }
}

/// No lost notification from above: when an invalidation sweep runs at a
/// node from which a live chain leads down to a sequence node, every index
/// of that sequence with an externally retained handle at sweep time has a
/// notification delivered to its subscribers during that same call.
pub proof fn lemma_no_lost_notification_from_above(
    pre: TrackedNode,
    post: TrackedNode,
    path: Seq<Mapper>,
    d: Option<Value>,
    index: usize,
)
    requires
        kind_swept(pre.kind, post.kind, d),
        live_chain(pre, path, d),
        ({
            let t = node_at(pre, path);
            &&& t matches Some(tn)
            &&& tn.kind matches NodeKind::Sequence(x)
            &&& (entry_at(x.items@, index) matches Some(e) && e.strong > 0)
        }),
    ensures
        match (node_at(pre, path), node_at(post, path)) {
            (Some(tn), Some(tn2)) => match (tn.kind, tn2.kind) {
                (NodeKind::Sequence(x), NodeKind::Sequence(x2)) => match (
                    entry_at(x.items@, index),
                    entry_at(x2.items@, index),
                ) {
                    (Some(e), Some(e2)) => {
                        &&& edge_of(e2.node).version == bump(edge_of(e.node).version)
                        &&& edge_of(e2.node).version != edge_of(e.node).version
                    },
                    _ => false,
                },
                _ => false,
            },
            _ => false,
        },
    decreases path.len(),
{
    if path.len() == 0 {
        let x = pre.kind->Sequence_0;
        let x2 = post.kind->Sequence_0;
        let e = entry_at(x.items@, index)->Some_0;
        lemma_bump_changes(edge_of(e.node).version);
    } else {
        let m = path[0];
        let c0 = child_of(pre, m)->Some_0;
        let dd = data_step(d, m);
        match (pre.kind, post.kind) {
            (NodeKind::Sequence(x), NodeKind::Sequence(x2)) => {
                let mv = m->Index_0;
                let e = entry_at(x.items@, mv.index)->Some_0;
                lemma_entry_at_index(x.items@, mv.index);
                lemma_entry_at_in(x.items@, mv.index);
                let j = choose|j: int| 0 <= j < x.items@.len() && x.items@[j] == e;
                let e2 = entry_at(x2.items@, mv.index)->Some_0;
                assert(kind_swept(e.node.kind, e2.node.kind, data_step(d, Mapper::Index(
                    crate::mapper::MapperVec { index: e.index },
                ))));
                lemma_no_lost_notification_from_above(e.node, e2.node, path.drop_first(), dd, index);
            },
            (NodeKind::Product(f), NodeKind::Product(f2)) => {
                let k = m->Field_0;
                lemma_child_at_aligned(f.children@, f2.children@, k);
                lemma_child_at_key(f.children@, k);
                let a = child_at(f.children@, k)->Some_0;
                let b = child_at(f2.children@, k)->Some_0;
                let j = choose|j: int|
                    0 <= j < f.children@.len() && #[trigger] f.children@[j] == a && f2.children@[j]
                        == b;
                lemma_no_lost_notification_from_above(a.node, b.node, path.drop_first(), dd, index);
            },
            (NodeKind::Sum(f), NodeKind::Sum(f2)) => {
                let k = m->Variant_0;
                lemma_child_at_aligned(f.children@, f2.children@, k);
                lemma_child_at_key(f.children@, k);
                let a = child_at(f.children@, k)->Some_0;
                let b = child_at(f2.children@, k)->Some_0;
                let j = choose|j: int|
                    0 <= j < f.children@.len() && #[trigger] f.children@[j] == a && f2.children@[j]
                        == b;
                lemma_no_lost_notification_from_above(a.node, b.node, path.drop_first(), dd, index);
            },
            (NodeKind::Opt(f), NodeKind::Opt(f2)) => {
                lemma_child_at_aligned(f.children@, f2.children@, 0);
                lemma_child_at_key(f.children@, 0);
                let a = child_at(f.children@, 0)->Some_0;
                let b = child_at(f2.children@, 0)->Some_0;
                let j = choose|j: int|
                    0 <= j < f.children@.len() && #[trigger] f.children@[j] == a && f2.children@[j]
                        == b;
                lemma_no_lost_notification_from_above(a.node, b.node, path.drop_first(), dd, index);
            },
            _ => {
                assert(false);
            },
        }
    }
}

} // verus!
