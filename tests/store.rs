use verlet_ecs::error::EcsError;
use verlet_ecs::store::ComponentStore;

fn store_abc() -> (ComponentStore<i64>, usize, usize, usize) {
    let mut s = ComponentStore::new();
    let a = s.register_component();
    let b = s.register_component();
    let c = s.register_component();
    (s, a, b, c)
}

#[test]
fn inserted_entity_matches_its_own_types_only() {
    let (mut s, a, b, c) = store_abc();
    assert_eq!(s.insert(7, vec![(a, 1), (b, 2)]), Ok(()));
    let ab = s.entities_matching(&vec![a, b]).unwrap();
    assert!(ab.contains(&7));
    let abc = s.entities_matching(&vec![a, b, c]).unwrap();
    assert!(!abc.contains(&7));
}

#[test]
fn matching_follows_insertion_order_of_first_column() {
    let (mut s, a, b, _c) = store_abc();
    s.insert(5, vec![(a, 50), (b, 51)]).unwrap();
    s.insert(3, vec![(a, 30)]).unwrap();
    s.insert(9, vec![(b, 91), (a, 90)]).unwrap();
    s.insert(1, vec![(b, 11)]).unwrap();
    assert_eq!(s.entities_matching(&vec![a]).unwrap(), vec![5, 3, 9]);
    assert_eq!(s.entities_matching(&vec![a, b]).unwrap(), vec![5, 9]);
    assert_eq!(s.entities_matching(&vec![b, a]).unwrap(), vec![5, 9]);
    assert_eq!(s.entities_matching(&vec![b]).unwrap(), vec![5, 9, 1]);
}

#[test]
fn empty_access_set_matches_nothing() {
    let (mut s, a, _b, _c) = store_abc();
    s.insert(1, vec![(a, 1)]).unwrap();
    assert_eq!(s.entities_matching(&vec![]).unwrap(), Vec::<u64>::new());
}

#[test]
fn duplicate_component_is_rejected_and_store_kept() {
    let (mut s, a, b, _c) = store_abc();
    s.insert(4, vec![(a, 1)]).unwrap();
    assert_eq!(s.insert(4, vec![(b, 2), (a, 3)]), Err(EcsError::DuplicateComponent));
    assert!(!s.contains(4, b));
    assert_eq!(*s.value(a, 0), 1);
    assert_eq!(s.insert(8, vec![(b, 2), (b, 3)]), Err(EcsError::DuplicateComponent));
    assert!(!s.contains(8, b));
}

#[test]
fn unknown_component_type_is_rejected() {
    let (mut s, a, _b, _c) = store_abc();
    assert_eq!(s.insert(4, vec![(a, 1), (17, 2)]), Err(EcsError::UnknownComponentType));
    assert!(!s.contains(4, a));
    assert_eq!(s.entities_matching(&vec![a, 3]), Err(EcsError::UnknownComponentType));
    assert!(s.query_rows(&vec![99]).is_err());
    // An unknown type wins over a duplicate one.
    assert_eq!(s.insert(4, vec![(a, 1), (a, 2), (17, 2)]), Err(EcsError::UnknownComponentType));
}

#[test]
fn insert_then_remove_round_trips() {
    let (mut s, a, b, c) = store_abc();
    s.insert(1, vec![(a, 10), (b, 11)]).unwrap();
    s.insert(2, vec![(a, 20), (c, 22)]).unwrap();
    let before: Vec<Vec<u64>> = [vec![a], vec![a, b], vec![c, a], vec![b]]
        .iter()
        .map(|q| s.entities_matching(q).unwrap())
        .collect();
    s.insert(3, vec![(a, 30), (b, 31), (c, 32)]).unwrap();
    assert_eq!(s.entities_matching(&vec![a, b]).unwrap(), vec![1, 3]);
    s.remove(3);
    let after: Vec<Vec<u64>> = [vec![a], vec![a, b], vec![c, a], vec![b]]
        .iter()
        .map(|q| s.entities_matching(q).unwrap())
        .collect();
    assert_eq!(before, after);
    assert_eq!(*s.value(a, 1), 20);
}

#[test]
fn remove_keeps_order_and_values_of_others() {
    let (mut s, a, _b, _c) = store_abc();
    s.insert(1, vec![(a, 10)]).unwrap();
    s.insert(2, vec![(a, 20)]).unwrap();
    s.insert(3, vec![(a, 30)]).unwrap();
    s.remove(2);
    assert_eq!(s.entities_matching(&vec![a]).unwrap(), vec![1, 3]);
    assert_eq!(*s.value(a, 0), 10);
    assert_eq!(*s.value(a, 1), 30);
}

#[test]
fn remove_of_entity_without_rows_is_a_no_op() {
    let (mut s, a, _b, _c) = store_abc();
    s.insert(1, vec![(a, 10)]).unwrap();
    s.remove(42);
    assert_eq!(s.entities_matching(&vec![a]).unwrap(), vec![1]);
    assert_eq!(*s.value(a, 0), 10);
}

#[test]
fn query_rows_are_aligned_by_entity() {
    let (mut s, a, b, _c) = store_abc();
    s.insert(1, vec![(b, 100)]).unwrap();
    s.insert(2, vec![(a, 2), (b, 200)]).unwrap();
    s.insert(3, vec![(a, 3)]).unwrap();
    s.insert(4, vec![(b, 400), (a, 4)]).unwrap();
    let rows = s.query_rows(&vec![a, b]).unwrap();
    assert_eq!(rows, vec![vec![0, 2], vec![1, 2]]);
    for k in 0..2 {
        assert_eq!(*s.value(a, rows[0][k]) * 100, *s.value(b, rows[1][k]));
    }
}

#[test]
fn row_lookup_and_set_value() {
    let (mut s, a, b, _c) = store_abc();
    s.insert(1, vec![(a, 1)]).unwrap();
    s.insert(2, vec![(a, 2), (b, 5)]).unwrap();
    assert_eq!(s.row_of(2, a), Some(1));
    assert_eq!(s.row_of(1, b), None);
    assert!(s.has_all_of(2, &vec![a, b]));
    assert!(!s.has_all_of(1, &vec![a, b]));
    assert!(s.check_registered(&vec![a, b]));
    assert!(!s.check_registered(&vec![a, 3]));
    s.set_value(a, 1, 22);
    assert_eq!(*s.value(a, 1), 22);
    assert_eq!(*s.value(a, 0), 1);
    assert_eq!(s.num_component_types(), 3);
}

#[test]
fn column_views_follow_row_order() {
    let (mut s, a, b, _c) = store_abc();
    s.insert(4, vec![(a, 40)]).unwrap();
    s.insert(2, vec![(b, 21), (a, 20)]).unwrap();
    assert_eq!(s.column_values(a), &vec![40, 20]);
    assert_eq!(s.column_entities(a), &vec![4, 2]);
    assert_eq!(s.column_entities(b), &vec![2]);
    s.remove(4);
    assert_eq!(s.column_values(a), &vec![20]);
    assert_eq!(s.row_of(2, a), Some(0));
}
