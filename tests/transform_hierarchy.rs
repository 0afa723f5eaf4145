use hotham::hierarchy::build_hierarchy;
use hotham::propagate::{
    propagate, real_main, update_parent_transform_matrix_system, Fault, FaultKind, Step,
};
use hotham::store::Record;
use nalgebra::{Matrix4, Vector3};
use std::collections::HashMap;

fn translation(x: f32, y: f32, z: f32) -> Matrix4<f32> {
    Matrix4::new_translation(&Vector3::new(x, y, z))
}

fn with_matrix(entity: u64, parent: Option<u64>) -> Record {
    Record { entity, has_matrix: true, parent }
}

/// Carries out the compositions of a plan on real matrices.
fn apply(
    steps: &[Step],
    local: &HashMap<u64, Matrix4<f32>>,
    world: &mut HashMap<u64, Matrix4<f32>>,
) {
    for st in steps {
        let m = match st.parent {
            None => local[&st.entity],
            Some(p) => world[&p] * local[&st.entity],
        };
        world.insert(st.entity, m);
    }
}

fn run(store: &Vec<Record>, local: &HashMap<u64, Matrix4<f32>>) -> HashMap<u64, Matrix4<f32>> {
    let res = update_parent_transform_matrix_system(store);
    assert!(res.faults.is_empty());
    let mut world = HashMap::new();
    apply(&res.steps, local, &mut world);
    world
}

#[test]
fn test_transform_system() {
    let t = translation(1.0, 1.0, 100.0);
    let (parent, child, grandchild) = (1u64, 2u64, 3u64);
    let store = vec![
        with_matrix(parent, None),
        with_matrix(child, Some(parent)),
        with_matrix(grandchild, Some(child)),
    ];
    let local: HashMap<u64, Matrix4<f32>> = [(parent, t), (child, t), (grandchild, t)].into_iter().collect();
    let world = run(&store, &local);
    assert_eq!(world[&grandchild], translation(3.0, 3.0, 300.0));
    assert_eq!(world[&child], translation(2.0, 2.0, 200.0));
}

fn extensive_hierarchy() -> Vec<(u64, Vec<u64>)> {
    vec![
        (0, vec![1, 2, 3, 4]),
        (1, vec![5, 6, 7, 8]),
        (2, vec![9, 10, 11, 12]),
        (3, vec![13, 14, 15, 16]),
        (5, vec![17, 18, 19, 20]),
        (14, vec![21, 22, 23, 24]),
        (22, vec![25, 26, 27, 28]),
        (17, vec![29, 30, 31, 32]),
    ]
}

fn expected_matrix(depth: usize) -> Matrix4<f32> {
    let mut transform = translation(100.0, 100.0, 100.0);
    for _ in 0..depth {
        transform *= translation(1.0, 1.0, 1.0);
    }
    transform
}

#[test]
fn test_transform_system_extensive() {
    let mut parents: HashMap<u64, u64> = HashMap::new();
    for (parent, children) in extensive_hierarchy() {
        for c in children {
            parents.insert(c, parent);
        }
    }
    let store: Vec<Record> = (0..=32u64).map(|n| with_matrix(n, parents.get(&n).copied())).collect();
    let mut local: HashMap<u64, Matrix4<f32>> =
        (0..=32u64).map(|n| (n, translation(1.0, 1.0, 1.0))).collect();
    local.insert(0, translation(100.0, 100.0, 100.0));
    let world = run(&store, &local);
    assert_eq!(world.len(), 33);
    for n in 1..=32u64 {
        let mut depth = 1;
        let mut p = parents[&n];
        while let Some(gp) = parents.get(&p) {
            depth += 1;
            p = *gp;
        }
        let expected = expected_matrix(depth);
        if expected != world[&n] {
            panic!("[Node {}] - {:?} did not equal {:?} at depth {}", n, world[&n], expected, depth);
        }
    }
}

#[test]
fn test_entities_without_transforms() {
    let store = vec![Record { entity: 7, has_matrix: false, parent: None }];
    let res = update_parent_transform_matrix_system(&store);
    assert!(res.steps.is_empty());
    assert!(res.faults.is_empty());
}

#[test]
fn root_world_is_its_local_matrix() {
    let store = vec![with_matrix(4, None), with_matrix(9, None)];
    let local: HashMap<u64, Matrix4<f32>> =
        [(4, translation(1.0, 2.0, 3.0)), (9, translation(-5.0, 0.5, 8.0))].into_iter().collect();
    let world = run(&store, &local);
    assert_eq!(world[&4], local[&4]);
    assert_eq!(world[&9], local[&9]);
    let res = update_parent_transform_matrix_system(&store);
    assert!(res.steps.iter().all(|s| s.parent.is_none()));
}

#[test]
fn untouched_entity_is_left_alone() {
    let store = vec![
        with_matrix(1, None),
        Record { entity: 2, has_matrix: false, parent: None },
        with_matrix(3, Some(1)),
    ];
    let res = update_parent_transform_matrix_system(&store);
    assert_eq!(res.steps.len(), 2);
    assert!(res.steps.iter().all(|s| s.entity != 2));
    assert!(res.faults.is_empty());
}

#[test]
fn second_pass_is_bit_identical() {
    let store = vec![with_matrix(1, None), with_matrix(2, Some(1)), with_matrix(3, Some(2))];
    let local: HashMap<u64, Matrix4<f32>> = [
        (1, translation(0.1, 0.2, 0.3)),
        (2, Matrix4::new_rotation(Vector3::new(0.3, 0.1, 0.7))),
        (3, translation(1.5, -2.5, 0.25)),
    ]
    .into_iter()
    .collect();
    let mut world = run(&store, &local);
    let first = world.clone();
    apply(&update_parent_transform_matrix_system(&store).steps, &local, &mut world);
    assert_eq!(world, first);
}

#[test]
fn reparenting_leaves_no_trace_of_the_old_parent() {
    let local: HashMap<u64, Matrix4<f32>> = [
        (1, translation(10.0, 0.0, 0.0)),
        (2, translation(0.0, 20.0, 0.0)),
        (3, translation(0.0, 0.0, 1.0)),
    ]
    .into_iter()
    .collect();
    let before = vec![with_matrix(1, None), with_matrix(2, None), with_matrix(3, Some(1))];
    let mut world = run(&before, &local);
    assert_eq!(world[&3], translation(10.0, 0.0, 1.0));

    let moved = vec![with_matrix(1, None), with_matrix(2, None), with_matrix(3, Some(2))];
    apply(&update_parent_transform_matrix_system(&moved).steps, &local, &mut world);
    assert_eq!(world[&3], translation(0.0, 20.0, 1.0));

    let detached = vec![with_matrix(1, None), with_matrix(2, None), with_matrix(3, None)];
    apply(&update_parent_transform_matrix_system(&detached).steps, &local, &mut world);
    assert_eq!(world[&3], translation(0.0, 0.0, 1.0));
}

#[test]
fn two_entity_cycle_is_reported() {
    let store = vec![with_matrix(1, Some(2)), with_matrix(2, Some(1))];
    let res = update_parent_transform_matrix_system(&store);
    assert!(res.steps.is_empty());
    assert_eq!(
        res.faults,
        vec![
            Fault { entity: 1, kind: FaultKind::Cycle },
            Fault { entity: 2, kind: FaultKind::Cycle }
        ]
    );
    assert_eq!(real_main(&store), Err(Fault { entity: 1, kind: FaultKind::Cycle }));
}

#[test]
fn self_parent_is_a_cycle() {
    let store = vec![with_matrix(5, Some(5))];
    assert_eq!(update_parent_transform_matrix_system(&store).faults, vec![Fault { entity: 5, kind: FaultKind::Cycle }]);
}

#[test]
fn dangling_parent_is_reported() {
    let store = vec![with_matrix(1, None), with_matrix(2, Some(99)), with_matrix(3, Some(2))];
    let res = update_parent_transform_matrix_system(&store);
    assert_eq!(res.steps, vec![Step { entity: 1, parent: None }]);
    assert_eq!(
        res.faults,
        vec![
            Fault { entity: 2, kind: FaultKind::DanglingParent },
            Fault { entity: 3, kind: FaultKind::DetachedAncestor }
        ]
    );
}

#[test]
fn missing_local_matrix_is_reported() {
    let store = vec![
        with_matrix(1, None),
        Record { entity: 2, has_matrix: false, parent: Some(1) },
        with_matrix(3, Some(2)),
    ];
    let res = update_parent_transform_matrix_system(&store);
    assert_eq!(res.steps, vec![Step { entity: 1, parent: None }]);
    assert_eq!(
        res.faults,
        vec![
            Fault { entity: 2, kind: FaultKind::MissingLocalMatrix },
            Fault { entity: 3, kind: FaultKind::DetachedAncestor }
        ]
    );
}

#[test]
fn child_below_a_cycle_is_detached() {
    let store = vec![with_matrix(1, Some(2)), with_matrix(2, Some(1)), with_matrix(3, Some(1))];
    let res = update_parent_transform_matrix_system(&store);
    assert_eq!(res.faults[2], Fault { entity: 3, kind: FaultKind::DetachedAncestor });
}

#[test]
fn real_main_returns_the_plan_when_nothing_is_faulty() {
    let store = vec![with_matrix(1, None), with_matrix(2, Some(1))];
    assert_eq!(
        real_main(&store),
        Ok(vec![Step { entity: 1, parent: None }, Step { entity: 2, parent: Some(1) }])
    );
}

#[test]
fn parents_come_before_children() {
    let store = vec![
        with_matrix(3, Some(2)),
        with_matrix(2, Some(1)),
        with_matrix(4, Some(1)),
        with_matrix(1, None),
    ];
    let res = update_parent_transform_matrix_system(&store);
    assert_eq!(res.steps.len(), 4);
    for (i, st) in res.steps.iter().enumerate() {
        if let Some(p) = st.parent {
            assert!(res.steps[..i].iter().any(|e| e.entity == p));
        }
    }
}

#[test]
fn hierarchy_lists_children_in_store_order() {
    let store = vec![
        with_matrix(1, None),
        with_matrix(7, Some(1)),
        with_matrix(3, Some(1)),
        with_matrix(5, Some(7)),
    ];
    let h = build_hierarchy(&store);
    assert_eq!(h.children(1), Some(&vec![7, 3]));
    assert_eq!(h.children(7), Some(&vec![5]));
    assert_eq!(h.children(3), None);
    let res = propagate(&store, &h);
    assert_eq!(res.steps.len(), 4);
}

#[test]
fn empty_store_resolves_to_nothing() {
    let store: Vec<Record> = Vec::new();
    let res = update_parent_transform_matrix_system(&store);
    assert!(res.steps.is_empty() && res.faults.is_empty());
    assert_eq!(real_main(&store), Ok(vec![]));
}

#[test]
fn dangling_parent_without_matrix_reports_both() {
    let store = vec![Record { entity: 1, has_matrix: false, parent: Some(99) }];
    assert_eq!(
        update_parent_transform_matrix_system(&store).faults,
        vec![
            Fault { entity: 1, kind: FaultKind::DanglingParent },
            Fault { entity: 1, kind: FaultKind::MissingLocalMatrix }
        ]
    );
}

#[test]
fn cycle_without_matrices_reports_the_cycle() {
    let store = vec![
        Record { entity: 1, has_matrix: false, parent: Some(2) },
        Record { entity: 2, has_matrix: false, parent: Some(1) },
    ];
    assert_eq!(
        update_parent_transform_matrix_system(&store).faults,
        vec![
            Fault { entity: 1, kind: FaultKind::Cycle },
            Fault { entity: 1, kind: FaultKind::MissingLocalMatrix },
            Fault { entity: 2, kind: FaultKind::Cycle },
            Fault { entity: 2, kind: FaultKind::MissingLocalMatrix }
        ]
    );
}

#[test]
fn parent_present_without_matrix_detaches_child() {
    let store = vec![
        Record { entity: 1, has_matrix: false, parent: None },
        with_matrix(2, Some(1)),
    ];
    assert_eq!(
        update_parent_transform_matrix_system(&store).faults,
        vec![Fault { entity: 2, kind: FaultKind::DetachedAncestor }]
    );
}
