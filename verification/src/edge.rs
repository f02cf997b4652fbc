//! Edges: immutable compositions of a parent path with one mapper step,
//! carrying the local invalidation-signal mechanism for exactly that path.
//!
//! The signal is a version counter: anyone subscribed at a path polls the
//! counter, and a changed counter means the value here may have changed.

use vstd::prelude::*;

use crate::mapper::Mapper;

verus! {

/// The next value of a version counter. Always differs from the argument, so
/// every notification is observable to a subscriber that polls the counter.
pub open spec fn bump(v: u64) -> u64 {
    if v == u64::MAX {
        0
    } else {
        (v + 1) as u64
    }
}

/// A bumped counter never equals the counter it came from: no notification
/// is lost on a subscriber that compares versions.
pub proof fn lemma_bump_changes(v: u64)
    ensures
        bump(v) != v,
{
}

/// One path step's subscription point. Identity is structural: two edges
/// with equal paths address the same logical location in the data.
pub struct Edge {
    /// The mapper steps from the root store to here.
    pub path: Vec<Mapper>,
    /// The local invalidation signal: bumped whenever the value reachable
    /// at this path may have changed.
    pub version: u64,
}

/// Copy a path. Mapper steps are plain values, so the copy is exact.
pub fn clone_path(p: &Vec<Mapper>) -> (r: Vec<Mapper>)
    ensures
        r@ == p@,
{
    let mut r: Vec<Mapper> = Vec::new();
    let mut i: usize = 0;
    while i < p.len()
        invariant
            i <= p@.len(),
            r@ == p@.take(i as int),
        decreases p@.len() - i,
    {
        r.push(p[i]);
        proof {
            assert(r@ =~= p@.take(i as int + 1));
        }
        i = i + 1;
    }
    proof {
        assert(p@.take(p@.len() as int) =~= p@);
    }
    r
}

impl Edge {
    /// The edge of the root store: the empty path, no notification yet.
    pub fn new_root() -> (e: Edge)
        ensures
            e.path@ == Seq::<Mapper>::empty(),
            e.version == 0,
    {
        Edge { path: Vec::new(), version: 0 }
    }

    /// Compose a parent edge with one mapper step: the immutable identity
    /// of the child path. A fresh edge carries no notification yet.
    pub fn new(parent: &Edge, mapper: Mapper) -> (e: Edge)
        ensures
            e.path@ == parent.path@.push(mapper),
            e.version == 0,
    {
        let mut path = clone_path(&parent.path);
        path.push(mapper);
        Edge { path, version: 0 }
    }

    /// Fire this path's direct-subscription signal: anyone registered
    /// exactly here is told the value here may have changed.
    pub fn notify_self(&mut self)
        ensures
            final(self).path == old(self).path,
            final(self).version == bump(old(self).version),
    {
        if self.version == u64::MAX {
            self.version = 0;
        } else {
            self.version = self.version + 1;
        }
    }
}

} // verus!
