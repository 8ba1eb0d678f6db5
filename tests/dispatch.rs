use std::cell::Cell;
use verlet_ecs::access::{Access, SystemAccess};
use verlet_ecs::dispatch::{dispatch, plan_batches, Batch};
use verlet_ecs::error::EcsError;
use verlet_ecs::schedule::{build_schedule, tick_steps};
use verlet_ecs::store::ComponentStore;

#[test]
fn plan_splits_into_consecutive_batches() {
    let plan = plan_batches(10, 3).unwrap();
    assert_eq!(
        plan,
        vec![
            Batch { start: 0, end: 3 },
            Batch { start: 3, end: 6 },
            Batch { start: 6, end: 9 },
            Batch { start: 9, end: 10 },
        ]
    );
    assert_eq!(plan_batches(6, 2).unwrap().len(), 3);
}

#[test]
fn plan_with_large_batch_is_one_batch() {
    assert_eq!(plan_batches(5, 5).unwrap(), vec![Batch { start: 0, end: 5 }]);
    assert_eq!(plan_batches(5, 100).unwrap(), vec![Batch { start: 0, end: 5 }]);
}

#[test]
fn zero_batch_size_is_invalid() {
    assert_eq!(plan_batches(10, 0), Err(EcsError::InvalidBatchSize));
    assert_eq!(plan_batches(0, 0), Err(EcsError::InvalidBatchSize));
    let mut s: ComponentStore<i64> = ComponentStore::new();
    let a = s.register_component();
    s.insert(1, vec![(a, 5)]).unwrap();
    let rows = s.query_rows(&vec![a]).unwrap();
    assert_eq!(dispatch(&mut s, a, &rows[0], 0, &|v: i64| v + 1), Err(EcsError::InvalidBatchSize));
    assert_eq!(*s.value(a, 0), 5);
}

#[test]
fn no_rows_means_no_batch_and_no_call() {
    assert_eq!(plan_batches(0, 4).unwrap(), Vec::<Batch>::new());
    let mut s: ComponentStore<i64> = ComponentStore::new();
    let a = s.register_component();
    let b = s.register_component();
    s.insert(1, vec![(a, 5)]).unwrap();
    let rows = s.query_rows(&vec![a, b]).unwrap();
    assert!(rows[0].is_empty());
    let calls = Cell::new(0u32);
    let body = |v: i64| {
        calls.set(calls.get() + 1);
        v * 2
    };
    assert_eq!(dispatch(&mut s, a, &rows[0], 3, &body), Ok(()));
    assert_eq!(calls.get(), 0);
    assert_eq!(*s.value(a, 0), 5);
}

fn doubled_with(batch: usize) -> Vec<i64> {
    let mut s: ComponentStore<i64> = ComponentStore::new();
    let x = s.register_component();
    let y = s.register_component();
    for e in 0..20u64 {
        if e % 3 == 0 {
            s.insert(e, vec![(x, e as i64)]).unwrap();
        } else {
            s.insert(e, vec![(x, e as i64), (y, 0)]).unwrap();
        }
    }
    let rows = s.query_rows(&vec![x, y]).unwrap();
    let calls = Cell::new(0usize);
    let body = |v: i64| {
        calls.set(calls.get() + 1);
        2 * v + 1
    };
    dispatch(&mut s, x, &rows[0], batch, &body).unwrap();
    assert_eq!(calls.get(), rows[0].len());
    (0..20).map(|r| *s.value(x, r)).collect()
}

#[test]
fn result_does_not_depend_on_batch_size() {
    let one = doubled_with(1);
    assert_eq!(one, doubled_with(3));
    assert_eq!(one, doubled_with(7));
    assert_eq!(one, doubled_with(1000));
    // Rows of entities without `y` are left alone.
    assert_eq!(one[0], 0);
    assert_eq!(one[3], 3);
    assert_eq!(one[1], 3);
    assert_eq!(one[2], 5);
}

type V3 = [f64; 3];

const POS: usize = 0;
const VEL: usize = 1;
const FORCE: usize = 2;
const OLD_FORCE: usize = 3;
const MASS: usize = 4;

fn vadd(a: V3, b: V3) -> V3 {
    [a[0] + b[0], a[1] + b[1], a[2] + b[2]]
}

fn vscale(a: V3, k: f64) -> V3 {
    [a[0] * k, a[1] * k, a[2] * k]
}

/// Runs one system: the body gets the aligned values of `reads` for one entity and
/// returns the new values of `writes`.
fn run_system(
    s: &mut ComponentStore<V3>,
    types: &Vec<usize>,
    writes: &[usize],
    batch: usize,
    body: &dyn Fn(&[V3]) -> Vec<V3>,
) {
    let rows = s.query_rows(types).unwrap();
    let n = rows.first().map(|r| r.len()).unwrap_or(0);
    for b in plan_batches(n, batch).unwrap() {
        for k in b.start..b.end {
            let input: Vec<V3> = (0..types.len()).map(|j| *s.value(types[j], rows[j][k])).collect();
            let out = body(&input);
            for (w, v) in writes.iter().zip(out) {
                s.set_value(types[*w], rows[*w][k], v);
            }
        }
    }
}

fn close(a: V3, b: V3) -> bool {
    (0..3).all(|i| (a[i] - b[i]).abs() < 1e-12)
}

#[test]
fn verlet_trace_over_two_ticks() {
    let dt = 1.0;
    let mut s: ComponentStore<V3> = ComponentStore::new();
    for _ in 0..5 {
        s.register_component();
    }
    for e in 0..6u64 {
        s.insert(
            e,
            vec![
                (POS, [0.0, 0.0, 0.0]),
                (VEL, [0.2, 0.5, 1.0]),
                (MASS, [1.0, 0.0, 0.0]),
                (FORCE, [0.0, 0.0, 0.0]),
                (OLD_FORCE, [0.0, 0.0, 0.0]),
            ],
        )
        .unwrap();
    }
    let systems = vec![
        // integrate position
        SystemAccess {
            components: vec![
                (VEL, Access::Read),
                (MASS, Access::Read),
                (FORCE, Access::Read),
                (POS, Access::Write),
                (OLD_FORCE, Access::Write),
            ],
            resources: vec![(0, Access::Read)],
        },
        // harmonic trap
        SystemAccess { components: vec![(FORCE, Access::Write), (POS, Access::Read)], resources: vec![] },
        // integrate velocity
        SystemAccess {
            components: vec![(VEL, Access::Write), (FORCE, Access::Read), (OLD_FORCE, Access::Read), (MASS, Access::Read)],
            resources: vec![(0, Access::Read)],
        },
    ];
    let order = build_schedule(&systems, &vec![(1, 0), (2, 1)]).unwrap();
    assert_eq!(order, vec![0, 1, 2]);
    assert_eq!(tick_steps(&vec![1, 1, 1]).len(), 3);
    let tick = |s: &mut ComponentStore<V3>| {
        for sys in &order {
            match sys {
                0 => run_system(s, &vec![VEL, MASS, FORCE, POS, OLD_FORCE], &[3, 4], 2, &|r: &[V3]| {
                    let m = r[1][0];
                    vec![vadd(vadd(r[3], vscale(r[0], dt)), vscale(r[2], 1.0 / m / 2.0 * dt * dt)), r[2]]
                }),
                1 => run_system(s, &vec![FORCE, POS], &[0], 2, &|r: &[V3]| vec![vscale(r[1], -1.0)]),
                _ => run_system(s, &vec![VEL, FORCE, OLD_FORCE, MASS], &[0], 2, &|r: &[V3]| {
                    vec![vadd(r[0], vscale(vadd(r[1], r[2]), 1.0 / r[3][0] / 2.0 * dt))]
                }),
            }
        }
    };
    tick(&mut s);
    for row in 0..6 {
        assert!(close(*s.value(POS, row), [0.2, 0.5, 1.0]));
        assert!(close(*s.value(OLD_FORCE, row), [0.0, 0.0, 0.0]));
        assert!(close(*s.value(FORCE, row), [-0.2, -0.5, -1.0]));
        assert!(close(*s.value(VEL, row), [0.1, 0.25, 0.5]));
    }
    tick(&mut s);
    for row in 0..6 {
        assert!(close(*s.value(POS, row), [0.2, 0.5, 1.0]));
        assert!(close(*s.value(OLD_FORCE, row), [-0.2, -0.5, -1.0]));
        assert!(close(*s.value(FORCE, row), [-0.2, -0.5, -1.0]));
        assert!(close(*s.value(VEL, row), [-0.1, -0.25, -0.5]));
    }
}
