use x_bow::mapper::Mapper;
use x_bow::mapper::MapperVec;
use x_bow::store::Store;
use x_bow::value::ImitateOption;
use x_bow::value::Shape;
use x_bow::value::Value;

fn leaves(ns: &[u64]) -> Value {
    Value::Sequence(ns.iter().map(|n| Value::Leaf(*n)).collect())
}

fn index(i: usize) -> Mapper {
    Mapper::Index(MapperVec::new(i))
}

fn seq_of_leaves_store(ns: &[u64]) -> Store {
    Store::new(Shape::Sequence(Box::new(Shape::Leaf)), leaves(ns))
}

#[test]
fn identity_stability() {
    let mut store = seq_of_leaves_store(&[10, 20, 30]);
    let root = store.root_handle();
    let h1 = store.child_handle(&root, index(1)).unwrap();
    let h2 = store.child_handle(&root, index(1)).unwrap();
    assert_eq!(h1.node_id, h2.node_id);
    let h3 = store.child_handle(&root, index(2)).unwrap();
    assert_ne!(h1.node_id, h3.node_id);
}

#[test]
fn reclaim_after_drop() {
    let mut store = seq_of_leaves_store(&[10, 20, 30]);
    let root = store.root_handle();
    let h1 = store.child_handle(&root, index(1)).unwrap();
    let id1 = h1.node_id;
    assert!(store.drop_handle(h1));
    // The sweep over the sequence prunes the unclaimed slot...
    store.invalidate_root();
    // ...so the next handle refers to a newly constructed node.
    let h2 = store.child_handle(&root, index(1)).unwrap();
    assert_ne!(h2.node_id, id1);
}

#[test]
fn no_reclaim_while_retained() {
    let mut store = seq_of_leaves_store(&[10, 20, 30]);
    let root = store.root_handle();
    let h1 = store.child_handle(&root, index(1)).unwrap();
    let h2 = store.child_handle(&root, index(1)).unwrap();
    // Two claims; releasing one must not let the sweep reclaim the slot.
    assert!(store.drop_handle(h2));
    store.invalidate_root();
    let h3 = store.child_handle(&root, index(1)).unwrap();
    assert_eq!(h3.node_id, h1.node_id);
}

#[test]
fn notification_reaches_live_handles() {
    let mut store = seq_of_leaves_store(&[10, 20, 30]);
    let root = store.root_handle();
    let h = store.child_handle(&root, index(0)).unwrap();
    let before = store.version_of(&h).unwrap();
    store.set_data(leaves(&[11, 20, 30]));
    store.invalidate_root();
    let after = store.version_of(&h).unwrap();
    assert_ne!(before, after);
    assert_eq!(before, 0);
    assert_eq!(after, 1);
}

#[test]
fn positional_tracking_not_identity_tracking() {
    let mut store = seq_of_leaves_store(&[10, 20, 30]);
    let root = store.root_handle();
    let h = store.child_handle(&root, index(1)).unwrap();
    assert_eq!(store.read_leaf(&h.path), ImitateOption::Present(20));
    let v0 = store.version_of(&h).unwrap();
    // Remove index 0 from the underlying sequence and invalidate at the root.
    store.set_data(leaves(&[20, 30]));
    store.invalidate_root();
    // The handle was notified, and it tracks position 1, not the value 20.
    assert_ne!(store.version_of(&h).unwrap(), v0);
    assert_eq!(store.read_leaf(&h.path), ImitateOption::Present(30));
}

#[test]
fn optional_presence() {
    let mut store = Store::new(Shape::Opt(Box::new(Shape::Leaf)), Value::Opt(None));
    let root = store.root_handle();
    // Constructing the child handle succeeds although the optional is empty.
    let h = store.child_handle(&root, Mapper::Inner).unwrap();
    assert!(!store.read_leaf(&h.path).is_present());
    assert_eq!(store.read_leaf(&h.path), ImitateOption::Absent);
    let v0 = store.version_of(&h).unwrap();
    store.set_data(Value::Opt(Some(Box::new(Value::Leaf(5)))));
    store.invalidate_root();
    assert_ne!(store.version_of(&h).unwrap(), v0);
    assert!(store.read_leaf(&h.path).is_present());
    assert_eq!(store.read_leaf(&h.path), ImitateOption::Present(5));
}

#[test]
fn bounded_sweep_cost() {
    let data: Vec<u64> = (0..1000u64).collect();
    let mut store = seq_of_leaves_store(&data);
    let root = store.root_handle();
    let _h1 = store.child_handle(&root, index(10)).unwrap();
    let _h2 = store.child_handle(&root, index(500)).unwrap();
    let _h3 = store.child_handle(&root, index(999)).unwrap();
    let work = store.invalidate_root();
    // One unit for the sequence node, then one per cached slot plus one per
    // live leaf child: proportional to the 3 cached slots, not the 1,000
    // elements.
    assert_eq!(work, 7);
    assert!(work < 1000);
}

#[test]
fn sweep_without_observers_is_constant() {
    let data: Vec<u64> = (0..1000u64).collect();
    let mut store = seq_of_leaves_store(&data);
    let work = store.invalidate_root();
    assert_eq!(work, 1);
}

#[test]
fn handle_past_current_length() {
    let mut store = seq_of_leaves_store(&[10]);
    let root = store.root_handle();
    // A handle for index 7 of a 1-element sequence is constructible; its
    // projection stays absent until the sequence grows to cover it.
    let h = store.child_handle(&root, index(7)).unwrap();
    assert_eq!(store.read_leaf(&h.path), ImitateOption::Absent);
    assert_eq!(store.version_of(&h), Some(0));
    store.set_data(leaves(&[0, 1, 2, 3, 4, 5, 6, 70]));
    store.invalidate_root();
    assert_eq!(store.read_leaf(&h.path), ImitateOption::Present(70));
}

#[test]
fn sum_forwards_only_into_live_tag() {
    let shape = Shape::Sum(vec![Shape::Leaf, Shape::Leaf]);
    let data = Value::Sum(0, Box::new(Value::Leaf(42)));
    let mut store = Store::new(shape, data);
    let root = store.root_handle();
    let h0 = store.child_handle(&root, Mapper::Variant(0)).unwrap();
    let h1 = store.child_handle(&root, Mapper::Variant(1)).unwrap();
    assert_eq!(store.read_leaf(&h0.path), ImitateOption::Present(42));
    assert_eq!(store.read_leaf(&h1.path), ImitateOption::Absent);
    store.invalidate_root();
    // Only the live tag's payload is notified.
    assert_eq!(store.version_of(&h0), Some(1));
    assert_eq!(store.version_of(&h1), Some(0));
    // Switch the tag: the other child resolves now, and gets the signal.
    store.set_data(Value::Sum(1, Box::new(Value::Leaf(7))));
    store.invalidate_root();
    assert_eq!(store.read_leaf(&h0.path), ImitateOption::Absent);
    assert_eq!(store.read_leaf(&h1.path), ImitateOption::Present(7));
    assert_eq!(store.version_of(&h0), Some(1));
    assert_eq!(store.version_of(&h1), Some(1));
}

#[test]
fn product_fields_all_notified() {
    let shape = Shape::Product(vec![Shape::Leaf, Shape::Leaf]);
    let data = Value::Product(vec![Value::Leaf(1), Value::Leaf(2)]);
    let mut store = Store::new(shape, data);
    let root = store.root_handle();
    let ha = store.child_handle(&root, Mapper::Field(0)).unwrap();
    let hb = store.child_handle(&root, Mapper::Field(1)).unwrap();
    assert_eq!(store.read_leaf(&ha.path), ImitateOption::Present(1));
    assert_eq!(store.read_leaf(&hb.path), ImitateOption::Present(2));
    store.invalidate_root();
    assert_eq!(store.version_of(&ha), Some(1));
    assert_eq!(store.version_of(&hb), Some(1));
}

#[test]
fn registry_refuses_mismatched_steps() {
    let mut store = seq_of_leaves_store(&[10, 20]);
    let root = store.root_handle();
    assert!(store.child_handle(&root, Mapper::Field(0)).is_none());
    assert!(store.child_handle(&root, Mapper::Variant(0)).is_none());
    assert!(store.child_handle(&root, Mapper::Inner).is_none());
    let shape = Shape::Product(vec![Shape::Leaf]);
    let mut pstore = Store::new(shape, Value::Product(vec![Value::Leaf(1)]));
    let proot = pstore.root_handle();
    // A field the declared shape does not have.
    assert!(pstore.child_handle(&proot, Mapper::Field(3)).is_none());
}

#[test]
fn stale_handle_is_told_apart() {
    let mut store = seq_of_leaves_store(&[10, 20]);
    let root = store.root_handle();
    let h = store.child_handle(&root, index(0)).unwrap();
    let stale = x_bow::node::Handle {
        path: h.path.clone(),
        node_id: h.node_id + 1,
    };
    assert_eq!(store.version_of(&h), Some(0));
    assert_eq!(store.version_of(&stale), None);
    // A path whose chain was never materialized is stale too.
    let unmade = x_bow::node::Handle {
        path: vec![index(1)],
        node_id: 0,
    };
    assert_eq!(store.version_of(&unmade), None);
}

#[test]
fn drop_on_root_or_fixed_child_releases_nothing() {
    let mut store = Store::new(Shape::Opt(Box::new(Shape::Leaf)), Value::Opt(None));
    let root = store.root_handle();
    let h = store.child_handle(&root, Mapper::Inner).unwrap();
    let root2 = store.root_handle();
    assert!(!store.drop_handle(root2));
    // Fixed children are strongly held: dropping releases no claim, and the
    // child node stays.
    assert!(!store.drop_handle(h));
    let h2 = store.child_handle(&root, Mapper::Inner).unwrap();
    assert_eq!(store.version_of(&h2), Some(0));
}

#[test]
fn nested_sequences_notify_through_levels() {
    let shape = Shape::Sequence(Box::new(Shape::Sequence(Box::new(Shape::Leaf))));
    let data = Value::Sequence(vec![leaves(&[1, 2]), leaves(&[3])]);
    let mut store = Store::new(shape, data);
    let root = store.root_handle();
    let outer = store.child_handle(&root, index(0)).unwrap();
    let inner = store.child_handle(&outer, index(1)).unwrap();
    assert_eq!(store.read_leaf(&inner.path), ImitateOption::Present(2));
    store.invalidate_root();
    assert_eq!(store.version_of(&outer), Some(1));
    assert_eq!(store.version_of(&inner), Some(1));
}

#[test]
fn pruned_subtree_orphans_inner_handles() {
    let shape = Shape::Sequence(Box::new(Shape::Sequence(Box::new(Shape::Leaf))));
    let data = Value::Sequence(vec![leaves(&[1, 2])]);
    let mut store = Store::new(shape, data);
    let root = store.root_handle();
    let outer = store.child_handle(&root, index(0)).unwrap();
    let inner = store.child_handle(&outer, index(1)).unwrap();
    assert!(store.drop_handle(outer));
    store.invalidate_root();
    // The outer slot was reclaimed, so the inner handle's chain is gone;
    // reading by path still works, straight off the data.
    assert_eq!(store.version_of(&inner), None);
    assert_eq!(store.read_leaf(&inner.path), ImitateOption::Present(2));
}

#[test]
fn stale_parent_yields_no_child() {
    let mut store = seq_of_leaves_store(&[10, 20]);
    let root = store.root_handle();
    let h = store.child_handle(&root, index(0)).unwrap();
    let stale = x_bow::node::Handle {
        path: h.path.clone(),
        node_id: h.node_id + 1,
    };
    assert!(store.child_handle(&stale, index(0)).is_none());
    // A mismatched root generation is refused too.
    let stale_root = x_bow::node::Handle {
        path: vec![],
        node_id: 7,
    };
    assert!(store.child_handle(&stale_root, index(0)).is_none());
}
