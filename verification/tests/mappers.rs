use x_bow::mapper::apply_path;
use x_bow::mapper::apply_step;
use x_bow::mapper::Mapper;
use x_bow::mapper::MapperVec;
use x_bow::value::leaf_of;
use x_bow::value::Value;

fn leaves(ns: &[u64]) -> Value {
    Value::Sequence(ns.iter().map(|n| Value::Leaf(*n)).collect())
}

fn index(i: usize) -> Mapper {
    Mapper::Index(MapperVec::new(i))
}

#[test]
fn mapper_vec_bounds_checks() {
    let m = MapperVec::new(1);
    let items = vec![Value::Leaf(10), Value::Leaf(20)];
    assert_eq!(m.map(&items).and_then(leaf_of), Some(20));
    let far = MapperVec::new(5);
    assert!(far.map(&items).is_none());
    let empty: Vec<Value> = Vec::new();
    assert!(MapperVec::new(0).map(&empty).is_none());
}

#[test]
fn mapper_vec_map_mut_writes_in_place() {
    let m = MapperVec::new(0);
    let mut items = vec![Value::Leaf(10), Value::Leaf(20)];
    if let Some(slot) = m.map_mut(&mut items) {
        *slot = Value::Leaf(11);
    } else {
        panic!("index 0 must resolve");
    }
    assert_eq!(m.map(&items).and_then(leaf_of), Some(11));
    assert!(MapperVec::new(9).map_mut(&mut items).is_none());
}

#[test]
fn composition_associativity() {
    // root -> field 0 -> index 3, resolved by one combined path...
    let root = Value::Product(vec![leaves(&[0, 1, 2, 3, 4]), Value::Leaf(99)]);
    let combined = vec![Mapper::Field(0), index(3)];
    let one_shot = apply_path(&combined, &root).and_then(leaf_of);
    // ...and by resolving the field first, then applying the index mapper.
    let field_first = apply_step(&Mapper::Field(0), &root);
    let two_step = field_first
        .and_then(|mid| apply_step(&index(3), mid))
        .and_then(leaf_of);
    assert_eq!(one_shot, Some(3));
    assert_eq!(one_shot, two_step);
    // The same holds when the path does not resolve.
    let far = vec![Mapper::Field(0), index(9)];
    let one_shot_absent = apply_path(&far, &root);
    let two_step_absent = apply_step(&Mapper::Field(0), &root)
        .and_then(|mid| apply_step(&index(9), mid));
    assert!(one_shot_absent.is_none());
    assert!(two_step_absent.is_none());
}

#[test]
fn projection_is_total_over_shapes() {
    // Wrong tag, absent optional, out-of-range index: all absent, no panic.
    let sum = Value::Sum(1, Box::new(Value::Leaf(5)));
    assert!(apply_step(&Mapper::Variant(0), &sum).is_none());
    assert_eq!(
        apply_step(&Mapper::Variant(1), &sum).and_then(leaf_of),
        Some(5)
    );
    let empty = Value::Opt(None);
    assert!(apply_step(&Mapper::Inner, &empty).is_none());
    let full = Value::Opt(Some(Box::new(Value::Leaf(8))));
    assert_eq!(apply_step(&Mapper::Inner, &full).and_then(leaf_of), Some(8));
    assert!(apply_step(&index(3), &leaves(&[1])).is_none());
    // A step against the wrong container kind is absent, not an error.
    assert!(apply_step(&Mapper::Field(0), &leaves(&[1])).is_none());
}

#[test]
fn repeated_projection_is_stable() {
    let root = Value::Product(vec![leaves(&[7, 8]), Value::Leaf(1)]);
    let path = vec![Mapper::Field(0), index(1)];
    let a = apply_path(&path, &root).and_then(leaf_of);
    let b = apply_path(&path, &root).and_then(leaf_of);
    assert_eq!(a, Some(8));
    assert_eq!(a, b);
}

#[test]
fn empty_path_resolves_to_the_value_itself() {
    let v = Value::Leaf(3);
    let path: Vec<Mapper> = Vec::new();
    assert_eq!(apply_path(&path, &v).and_then(leaf_of), Some(3));
}
