use x_bow::edge::Edge;
use x_bow::mapper::Mapper;
use x_bow::mapper::MapperVec;
use x_bow::node::NodeKind;
use x_bow::node::XBowTracked_Vec;
use x_bow::value::Shape;
use x_bow::value::Value;

fn leaves(ns: &[u64]) -> Value {
    Value::Sequence(ns.iter().map(|n| Value::Leaf(*n)).collect())
}

#[test]
fn new_node_has_nothing_materialized() {
    let x = XBowTracked_Vec::new(Edge::new_root());
    assert_eq!(x.items.len(), 0);
    assert_eq!(x.edge().version, 0);
    assert_eq!(x.edge().path.len(), 0);
}

#[test]
fn create_item_composes_the_edge() {
    let x = XBowTracked_Vec::new(Edge::new_root());
    let child = x.create_item(4, &Shape::Leaf, 9);
    assert_eq!(child.id, 9);
    match &child.kind {
        NodeKind::Leaf(e) => {
            assert_eq!(e.path.len(), 1);
            assert!(matches!(e.path[0], Mapper::Index(MapperVec { index: 4 })));
            assert_eq!(e.version, 0);
        },
        _ => panic!("the registry tracks a leaf shape with a leaf node"),
    }
}

#[test]
fn handle_at_caches_weakly_by_index() {
    let mut x = XBowTracked_Vec::new(Edge::new_root());
    let h1 = x.handle_at(2, &Shape::Leaf);
    assert_eq!(x.items.len(), 1);
    assert_eq!(x.items[0].index, 2);
    assert_eq!(x.items[0].strong, 1);
    // A second handle claims the same cached node.
    let h2 = x.handle_at(2, &Shape::Leaf);
    assert_eq!(h2.node_id, h1.node_id);
    assert_eq!(x.items.len(), 1);
    assert_eq!(x.items[0].strong, 2);
    // The ordered mapping keyed by index stays sorted on insertion.
    let _h0 = x.handle_at(0, &Shape::Leaf);
    let _h5 = x.handle_at(5, &Shape::Leaf);
    let indices: Vec<usize> = x.items.iter().map(|e| e.index).collect();
    assert_eq!(indices, vec![0, 2, 5]);
}

#[test]
fn sweep_notifies_keeps_and_prunes() {
    let mut x = XBowTracked_Vec::new(Edge::new_root());
    let _h0 = x.handle_at(0, &Shape::Leaf);
    let _h1 = x.handle_at(1, &Shape::Leaf);
    let h1b = x.handle_at(1, &Shape::Leaf);
    // Pretend both handles at index 1 were dropped: no claims remain there.
    x.items[1].strong = 0;
    let data = leaves(&[10, 20, 30]);
    let before = x.edge().version;
    let work = x.invalidate_down_outside(Some(&data));
    // The node's own path was notified...
    assert_eq!(x.edge().version, before + 1);
    // ...the claimed slot was kept and its child notified...
    assert_eq!(x.items.len(), 1);
    assert_eq!(x.items[0].index, 0);
    assert_eq!(x.items[0].node.edge().version, 1);
    // ...and the unclaimed slot was reclaimed in the same pass: a later
    // handle for its index is a new node generation.
    let h1c = x.handle_at(1, &Shape::Leaf);
    assert_ne!(h1c.node_id, h1b.node_id);
    // Two slots examined, one live leaf swept.
    assert_eq!(work, 4);
}
