//! The closed model of trackable data: nested values and their shapes.
//!
//! A `Value` is the backing data a store owns; a `Shape` is the static
//! description consulted by the trackable registry to pick the node kind
//! that tracks a path.

use vstd::prelude::*;

verus! {

/// A trackable value: a primitive leaf, an aggregate with fixed fields,
/// a tagged union, an optional, or an ordered dynamic sequence.
#[verifier::ext_equal]
pub enum Value {
    Leaf(u64),
    Product(Vec<Value>),
    Sum(usize, Box<Value>),
    Opt(Option<Box<Value>>),
    Sequence(Vec<Value>),
}

/// The static description of a trackable type: the registry maps each
/// shape constructor to the node kind that tracks values of that shape.
#[verifier::ext_equal]
pub enum Shape {
    Leaf,
    Product(Vec<Shape>),
    Sum(Vec<Shape>),
    Opt(Box<Shape>),
    Sequence(Box<Shape>),
}

/// Whether `v` is a value of shape `s`.
pub open spec fn conforms(v: Value, s: Shape) -> bool
    decreases v,
{
    match v {
        Value::Leaf(_) => s is Leaf,
        Value::Product(fields) => match s {
            Shape::Product(fs) => {
                &&& fields@.len() == fs@.len()
                &&& forall|i: int| 0 <= i < fields@.len() ==> conforms(#[trigger] fields@[i], fs@[i])
            },
            _ => false,
        },
        Value::Sum(tag, payload) => match s {
            Shape::Sum(vs) => tag < vs@.len() && conforms(*payload, vs@[tag as int]),
            _ => false,
        },
        Value::Opt(inner) => match s {
            Shape::Opt(es) => match inner {
                Some(b) => conforms(*b, *es),
                None => true,
            },
            _ => false,
        },
        Value::Sequence(items) => match s {
            Shape::Sequence(es) => forall|i: int|
                0 <= i < items@.len() ==> conforms(#[trigger] items@[i], *es),
            _ => false,
        },
    }
}

/// The first-class outcome of resolving a path: the value found there, or
/// absence — which is a success outcome, never a failure (wrong tag, empty
/// optional and out-of-range index all land here).
#[derive(Debug, PartialEq, Eq, Structural)]
pub enum ImitateOption<T> {
    /// The path currently resolves to this value.
    Present(T),
    /// The path currently resolves to nothing.
    Absent,
}

impl<T> ImitateOption<T> {
    /// Whether the path resolved.
    pub fn is_present(&self) -> (r: bool)
        ensures
            r == (self is Present),
    {
        match self {
            ImitateOption::Present(_) => true,
            ImitateOption::Absent => false,
        }
    }
}

/// The leaf payload of `v`, if `v` is a leaf.
pub open spec fn spec_leaf(v: Value) -> Option<u64> {
    match v {
        Value::Leaf(n) => Some(n),
        _ => None,
    }
}

/// The leaf payload of `v`, if `v` is a leaf.
pub fn leaf_of(v: &Value) -> (r: Option<u64>)
    ensures
        r == spec_leaf(*v),
{
    match v {
        Value::Leaf(n) => Some(*n),
        _ => None,
    }
}

/// Decide whether `v` is a value of shape `s`: the executable face of the
/// registry's typing judgment.
pub fn conforms_check(v: &Value, s: &Shape) -> (r: bool)
    ensures
        r == conforms(*v, *s),
    decreases v,
{
    match (v, s) {
        (Value::Leaf(_), Shape::Leaf) => true,
        (Value::Product(fields), Shape::Product(fs)) => {
            if fields.len() != fs.len() {
                return false;
            }
            let mut i: usize = 0;
            while i < fields.len()
                invariant
                    i <= fields@.len(),
                    fields@.len() == fs@.len(),
                    v matches Value::Product(fx) && fx == fields,
                    s matches Shape::Product(sx) && sx == fs,
                    forall|k: int| 0 <= k < i ==> conforms(#[trigger] fields@[k], fs@[k]),
                decreases fields@.len() - i,
            {
                if !conforms_check(&fields[i], &fs[i]) {
                    return false;
                }
                i = i + 1;
            }
            true
        },
        (Value::Sum(tag, payload), Shape::Sum(vs)) => *tag < vs.len() && conforms_check(
            &**payload,
            &vs[*tag],
        ),
        (Value::Opt(inner), Shape::Opt(es)) => match inner {
            Some(b) => conforms_check(&**b, &**es),
            None => true,
        },
        (Value::Sequence(items), Shape::Sequence(es)) => {
            let mut i: usize = 0;
            while i < items.len()
                invariant
                    i <= items@.len(),
                    v matches Value::Sequence(ix) && ix == items,
                    s matches Shape::Sequence(sx) && sx == es,
                    forall|k: int| 0 <= k < i ==> conforms(#[trigger] items@[k], **es),
                decreases items@.len() - i,
            {
                if !conforms_check(&items[i], &**es) {
                    return false;
                }
                i = i + 1;
            }
            true
        },
        _ => false,
    }
}

} // verus!
