use x_bow::mapper::Mapper;
use x_bow::mapper::MapperVec;
use x_bow::store::Store;
use x_bow::value::conforms_check;
use x_bow::value::Shape;
use x_bow::value::Value;

fn leaves(ns: &[u64]) -> Value {
    Value::Sequence(ns.iter().map(|n| Value::Leaf(*n)).collect())
}

fn index(i: usize) -> Mapper {
    Mapper::Index(MapperVec::new(i))
}

#[test]
fn conformance_judgment() {
    assert!(conforms_check(&Value::Leaf(1), &Shape::Leaf));
    assert!(!conforms_check(&Value::Leaf(1), &Shape::Opt(Box::new(Shape::Leaf))));
    let pair = Shape::Product(vec![Shape::Leaf, Shape::Sequence(Box::new(Shape::Leaf))]);
    assert!(conforms_check(
        &Value::Product(vec![Value::Leaf(1), leaves(&[2, 3])]),
        &pair
    ));
    // Wrong arity, wrong field kind.
    assert!(!conforms_check(&Value::Product(vec![Value::Leaf(1)]), &pair));
    assert!(!conforms_check(
        &Value::Product(vec![Value::Leaf(1), Value::Leaf(2)]),
        &pair
    ));
    // A sum's tag must name a declared variant.
    let either = Shape::Sum(vec![Shape::Leaf, Shape::Leaf]);
    assert!(conforms_check(&Value::Sum(1, Box::new(Value::Leaf(5))), &either));
    assert!(!conforms_check(&Value::Sum(2, Box::new(Value::Leaf(5))), &either));
    // An empty optional conforms to any optional shape.
    assert!(conforms_check(&Value::Opt(None), &Shape::Opt(Box::new(Shape::Leaf))));
    // An empty sequence conforms to any sequence shape.
    assert!(conforms_check(&leaves(&[]), &Shape::Sequence(Box::new(Shape::Leaf))));
}

#[test]
fn store_tracks_conformance_across_writes() {
    let mut store = Store::new(Shape::Sequence(Box::new(Shape::Leaf)), leaves(&[1, 2]));
    assert!(store.data_conforms());
    store.set_data(Value::Leaf(9));
    assert!(!store.data_conforms());
}

#[test]
fn targeted_invalidation_stays_downward() {
    let shape = Shape::Sequence(Box::new(Shape::Sequence(Box::new(Shape::Leaf))));
    let data = Value::Sequence(vec![leaves(&[1, 2]), leaves(&[3])]);
    let mut store = Store::new(shape, data);
    let root = store.root_handle();
    let outer0 = store.child_handle(&root, index(0)).unwrap();
    let outer1 = store.child_handle(&root, index(1)).unwrap();
    let inner = store.child_handle(&outer0, index(1)).unwrap();
    let work = store.invalidate_at(&outer0.path).unwrap();
    assert!(work >= 1);
    // The named node and its live descendants hear the signal...
    assert_eq!(store.version_of(&outer0), Some(1));
    assert_eq!(store.version_of(&inner), Some(1));
    // ...but propagation never reaches upward or sideways.
    assert_eq!(store.version_of(&root), Some(0));
    assert_eq!(store.version_of(&outer1), Some(0));
}

#[test]
fn targeted_invalidation_needs_a_materialized_node() {
    let mut store = Store::new(Shape::Sequence(Box::new(Shape::Leaf)), leaves(&[1, 2]));
    // Nothing is cached at index 1, so nothing can be subscribed below it
    // and no notification is owed.
    assert!(store.invalidate_at(&vec![index(1)]).is_none());
    let root = store.root_handle();
    let h = store.child_handle(&root, index(1)).unwrap();
    assert_eq!(store.invalidate_at(&h.path), Some(1));
    assert_eq!(store.version_of(&h), Some(1));
}
