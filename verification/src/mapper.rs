//! Mappers: pure, stateless projections between a container value and one
//! addressed sub-value. A projection that does not currently resolve (wrong
//! tag, absent optional, index past the sequence length) reports absence
//! rather than failing.

use vstd::prelude::*;

use crate::value::Value;

verus! {

/// The sequence-index mapper: projects an ordered sequence onto the element
/// at a fixed index. Bounds-checked on every call; out-of-range is absent.
#[derive(Clone, Copy, PartialEq, Eq, Structural)]
pub struct MapperVec {
    pub index: usize,
}

/// One path step: a projection from a container value onto one sub-value.
///
/// `Field` addresses a product field (static: always resolves when the outer
/// value exists), the rest are dynamic and may be absent at any time.
#[derive(Clone, Copy, PartialEq, Eq, Structural)]
pub enum Mapper {
    /// A fixed field of a product.
    Field(usize),
    /// The payload of one variant of a sum; resolves only when the live tag
    /// matches.
    Variant(usize),
    /// The content of an optional; resolves only when present.
    Inner,
    /// An element of an ordered dynamic sequence.
    Index(MapperVec),
}

/// What one mapper step projects `v` onto, or `None` when absent.
pub open spec fn project_step(m: Mapper, v: Value) -> Option<Value> {
    match m {
        Mapper::Field(i) => match v {
            Value::Product(fields) => if i < fields@.len() {
                Some(fields@[i as int])
            } else {
                None
            },
            _ => None,
        },
        Mapper::Variant(t) => match v {
            Value::Sum(tag, payload) => if tag == t {
                Some(*payload)
            } else {
                None
            },
            _ => None,
        },
        Mapper::Inner => match v {
            Value::Opt(inner) => match inner {
                Some(b) => Some(*b),
                None => None,
            },
            _ => None,
        },
        Mapper::Index(mv) => match v {
            Value::Sequence(items) => if mv.index < items@.len() {
                Some(items@[mv.index as int])
            } else {
                None
            },
            _ => None,
        },
    }
}

/// What a whole path (steps applied left to right) projects `v` onto.
pub open spec fn project_path(path: Seq<Mapper>, v: Value) -> Option<Value>
    decreases path.len(),
{
    if path.len() == 0 {
        Some(v)
    } else {
        match project_step(path[0], v) {
            Some(sub) => project_path(path.drop_first(), sub),
            None => None,
        }
    }
}

/// Whether the borrowed result `r` stands for the spec-level outcome `s`.
pub open spec fn borrows_opt(r: Option<&Value>, s: Option<Value>) -> bool {
    match r {
        Some(sub) => s == Some(*sub),
        None => s is None,
    }
}

impl MapperVec {
    /// Build the mapper for one sequence index.
    pub fn new(index: usize) -> (r: Self)
        ensures
            r.index == index,
    {
        MapperVec { index }
    }

    /// Project a sequence onto the element at this mapper's index, or absent
    /// when the index is past the current length.
    pub fn map<'a>(&self, input: &'a Vec<Value>) -> (r: Option<&'a Value>)
        ensures
            borrows_opt(r, project_step(Mapper::Index(*self), Value::Sequence(*input))),
    {
        if self.index < input.len() {
            Some(&input[self.index])
        } else {
            None
        }
    }

    /// Project a sequence onto the element at this mapper's index, mutably.
    /// The sequence after the call differs from the old one only at that
    /// index, and only through the returned reference.
    pub fn map_mut<'a>(&self, input: &'a mut Vec<Value>) -> (r: Option<&'a mut Value>)
        ensures
            match r {
                Some(elem) => {
                    &&& self.index < old(input)@.len()
                    &&& *elem == old(input)@[self.index as int]
                    &&& final(input)@ == old(input)@.update(self.index as int, *final(elem))
                },
                None => {
                    &&& self.index >= old(input)@.len()
                    &&& *final(input) == *old(input)
                },
            },
    {
        if self.index < input.len() {
            Some(&mut input[self.index])
        } else {
            None
        }
    }
}

/// Apply one mapper step to a borrowed value.
pub fn apply_step<'a>(m: &Mapper, v: &'a Value) -> (r: Option<&'a Value>)
    ensures
        borrows_opt(r, project_step(*m, *v)),
{
    match (m, v) {
        (Mapper::Field(i), Value::Product(fields)) => if *i < fields.len() {
            Some(&fields[*i])
        } else {
            None
        },
        (Mapper::Variant(t), Value::Sum(tag, payload)) => if *tag == *t {
            Some(&**payload)
        } else {
            None
        },
        (Mapper::Inner, Value::Opt(inner)) => match inner {
            Some(b) => Some(&**b),
            None => None,
        },
        (Mapper::Index(mv), Value::Sequence(items)) => if mv.index < items.len() {
            Some(&items[mv.index])
        } else {
            None
        },
        _ => None,
    }
}

/// Resolve a whole path against a borrowed value, step by step.
pub fn apply_path<'a>(path: &Vec<Mapper>, v: &'a Value) -> (r: Option<&'a Value>)
    ensures
        borrows_opt(r, project_path(path@, *v)),
{
    let mut cur: &'a Value = v;
    let mut i: usize = 0;
    while i < path.len()
        invariant
            i <= path@.len(),
            borrows_opt(Some(cur), project_path(path@.take(i as int), *v)),
        decreases path@.len() - i,
    {
        proof {
            lemma_project_path_snoc(path@.take(i as int + 1), *v);
            assert(path@.take(i as int + 1).drop_last() =~= path@.take(i as int));
            assert(path@.take(i as int + 1).last() == path@[i as int]);
        }
        match apply_step(&path[i], cur) {
            Some(sub) => {
                cur = sub;
                i = i + 1;
            },
            None => {
                proof {
                    lemma_project_path_extend_absent(path@, *v, i as int);
                }
                return None;
            },
        }
    }
    proof {
        assert(path@.take(path@.len() as int) =~= path@);
    }
    Some(cur)
}

/// Splitting a nonempty path before its last step: resolving the whole path
/// is resolving the prefix, then applying the last step.
pub proof fn lemma_project_path_snoc(path: Seq<Mapper>, v: Value)
    requires
        path.len() > 0,
    ensures
        project_path(path, v) == (match project_path(path.drop_last(), v) {
            Some(sub) => project_step(path.last(), sub),
            None => None,
        }),
{
    let p = path.drop_last();
    let q = seq![path.last()];
    lemma_project_path_split(p, q, v);
    assert(p + q =~= path);
    match project_path(p, v) {
        Some(sub) => {
            assert(q.len() == 1);
            assert(q[0] == path.last());
            assert(q.drop_first() =~= Seq::<Mapper>::empty());
            match project_step(path.last(), sub) {
                Some(y) => {
                    assert(project_path(q.drop_first(), y) == Some(y));
                    assert(project_path(q, sub) == Some(y));
                },
                None => {
                    assert(project_path(q, sub) is None);
                },
            }
        },
        None => {},
    }
}

/// Once a path prefix fails to resolve, the whole path fails to resolve.
pub proof fn lemma_project_path_extend_absent(path: Seq<Mapper>, v: Value, i: int)
    requires
        0 <= i < path.len(),
        project_path(path.take(i), v) matches Some(sub) && project_step(
            path[i],
            sub,
        ) is None,
    ensures
        project_path(path, v) is None,
    decreases path.len() - i,
{
    lemma_project_path_split(path.take(i), path.skip(i), v);
    assert(path.take(i) + path.skip(i) =~= path);
    let sub = project_path(path.take(i), v)->Some_0;
    assert(path.skip(i).len() > 0);
    assert(path.skip(i)[0] == path[i]);
}

/// Mapper composition is associative: resolving a concatenated path is
/// resolving the first part, then resolving the second against its result.
pub proof fn lemma_project_path_split(p: Seq<Mapper>, q: Seq<Mapper>, v: Value)
    ensures
        project_path(p + q, v) == (match project_path(p, v) {
            Some(mid) => project_path(q, mid),
            None => None,
        }),
    decreases p.len(),
{
    if p.len() == 0 {
        assert(p + q =~= q);
    } else {
        assert((p + q)[0] == p[0]);
        match project_step(p[0], v) {
            Some(sub) => {
                lemma_project_path_split(p.drop_first(), q, sub);
                assert((p + q).drop_first() =~= p.drop_first() + q);
            },
            None => {
                assert((p + q).len() > 0);
            },
        }
    }
}

} // verus!
