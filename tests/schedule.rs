use verlet_ecs::access::{Access, SystemAccess};
use verlet_ecs::error::EcsError;
use verlet_ecs::schedule::{build_order, build_schedule, tick_steps, Step};

fn sys(components: Vec<(usize, Access)>, resources: Vec<(usize, Access)>) -> SystemAccess {
    SystemAccess { components, resources }
}

#[test]
fn order_respects_edges() {
    // 0 runs after 2, 2 runs after 1.
    let order = build_order(3, &vec![(0, 2), (2, 1)]).unwrap();
    assert_eq!(order, vec![1, 2, 0]);
}

#[test]
fn unconstrained_systems_keep_declaration_order() {
    assert_eq!(build_order(4, &vec![]).unwrap(), vec![0, 1, 2, 3]);
    // Only 1 after 3: 0 and 2 keep their places, 3 goes as soon as it may.
    assert_eq!(build_order(4, &vec![(1, 3)]).unwrap(), vec![0, 2, 3, 1]);
    assert_eq!(build_order(0, &vec![]).unwrap(), Vec::<usize>::new());
}

#[test]
fn cycle_is_rejected() {
    assert_eq!(build_order(3, &vec![(0, 1), (1, 2), (2, 0)]), Err(EcsError::CyclicDependency));
    assert_eq!(build_order(2, &vec![(1, 1)]), Err(EcsError::CyclicDependency));
    let systems = vec![sys(vec![], vec![]), sys(vec![], vec![])];
    assert_eq!(build_schedule(&systems, &vec![(0, 1), (1, 0)]), Err(EcsError::CyclicDependency));
}

#[test]
fn unordered_writers_conflict() {
    let systems = vec![
        sys(vec![(0, Access::Write)], vec![]),
        sys(vec![(0, Access::Read), (1, Access::Write)], vec![]),
    ];
    assert_eq!(build_schedule(&systems, &vec![]), Err(EcsError::AccessConflict));
    assert_eq!(build_schedule(&systems, &vec![(1, 0)]).unwrap(), vec![0, 1]);
}

#[test]
fn readers_and_disjoint_writers_do_not_conflict() {
    let systems = vec![
        sys(vec![(0, Access::Read), (1, Access::Write)], vec![(0, Access::Read)]),
        sys(vec![(0, Access::Read), (2, Access::Write)], vec![(0, Access::Read)]),
    ];
    assert_eq!(build_schedule(&systems, &vec![]).unwrap(), vec![0, 1]);
}

#[test]
fn resource_writer_conflicts() {
    let systems = vec![
        sys(vec![], vec![(3, Access::Write)]),
        sys(vec![], vec![(3, Access::Read)]),
        sys(vec![], vec![]),
    ];
    assert_eq!(build_schedule(&systems, &vec![]), Err(EcsError::AccessConflict));
    assert!(systems[0].conflicts(&systems[1]));
    assert!(!systems[1].conflicts(&systems[2]));
}

#[test]
fn transitive_order_removes_conflict() {
    // 2 after 1 after 0: 0 and 2 both write component 5 but are ordered through 1.
    let systems = vec![
        sys(vec![(5, Access::Write)], vec![]),
        sys(vec![], vec![]),
        sys(vec![(5, Access::Write)], vec![]),
    ];
    assert_eq!(build_schedule(&systems, &vec![(2, 1), (1, 0)]).unwrap(), vec![0, 1, 2]);
    assert_eq!(build_schedule(&systems, &vec![(2, 1)]), Err(EcsError::AccessConflict));
}

#[test]
fn tick_steps_cover_each_batch_in_order() {
    let steps = tick_steps(&vec![2, 0, 1]);
    assert_eq!(
        steps,
        vec![Step { pos: 0, batch: 0 }, Step { pos: 0, batch: 1 }, Step { pos: 2, batch: 0 }]
    );
    assert!(tick_steps(&vec![]).is_empty());
}

#[test]
fn predecessor_batches_all_come_first() {
    // System 0 runs after system 2.
    let order = build_order(3, &vec![(0, 2)]).unwrap();
    let counts: Vec<usize> = order.iter().map(|s| [3, 2, 4][*s]).collect();
    let steps = tick_steps(&counts);
    let last_of_2 = steps.iter().rposition(|st| order[st.pos] == 2).unwrap();
    let first_of_0 = steps.iter().position(|st| order[st.pos] == 0).unwrap();
    assert!(last_of_2 < first_of_0);
    assert_eq!(steps.len(), 9);
}
