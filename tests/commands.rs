use verlet_ecs::commands::CommandBuffer;
use verlet_ecs::error::EcsError;
use verlet_ecs::store::ComponentStore;

#[test]
fn queued_changes_wait_for_apply() {
    let mut s: ComponentStore<i32> = ComponentStore::new();
    let a = s.register_component();
    let b = s.register_component();
    s.insert(1, vec![(a, 10)]).unwrap();
    let mut buf = CommandBuffer::new();
    buf.spawn(2, vec![(a, 20), (b, 21)]);
    buf.despawn(1);
    assert_eq!(s.entities_matching(&vec![a]).unwrap(), vec![1]);
    let results = buf.apply(&mut s);
    assert_eq!(results, vec![Ok(()), Ok(())]);
    assert_eq!(s.entities_matching(&vec![a]).unwrap(), vec![2]);
    assert_eq!(*s.value(b, 0), 21);
}

#[test]
fn failed_spawn_reports_and_changes_nothing() {
    let mut s: ComponentStore<i32> = ComponentStore::new();
    let a = s.register_component();
    let mut buf = CommandBuffer::new();
    buf.spawn(5, vec![(a, 1)]);
    buf.spawn(5, vec![(a, 2)]);
    buf.spawn(6, vec![(9, 2)]);
    buf.despawn(5);
    buf.spawn(5, vec![(a, 3)]);
    let results = buf.apply(&mut s);
    assert_eq!(
        results,
        vec![
            Ok(()),
            Err(EcsError::DuplicateComponent),
            Err(EcsError::UnknownComponentType),
            Ok(()),
            Ok(()),
        ]
    );
    assert_eq!(s.entities_matching(&vec![a]).unwrap(), vec![5]);
    assert_eq!(*s.value(a, 0), 3);
}
