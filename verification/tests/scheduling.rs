use dispatcher::{BuildError, CompletionTracker, Dependencies, DispatcherBuilder, ResourceId, TaskDispatch};

fn builder_with(
    specs: &[(&str, Vec<ResourceId>, Vec<ResourceId>, Vec<&'static str>)],
) -> DispatcherBuilder {
    let mut b = DispatcherBuilder::new();
    for (name, reads, writes, deps) in specs {
        let deps: Vec<&str> = deps.clone();
        b.add_task(name, reads.clone(), writes.clone(), &deps)
            .expect("registration failed");
    }
    b
}

#[test]
fn empty_graph_pass_completes_immediately() {
    let b = DispatcherBuilder::new();
    let mut d = b.finish();
    assert!(d.pass_complete());
    assert!(d.running.all_clear());
    let order = d.run_schedule();
    assert_eq!(order, Vec::<usize>::new());
    assert!(d.pass_complete());
}

#[test]
fn unknown_dependency_fails_at_build_time() {
    let mut b = DispatcherBuilder::new();
    let r = b.add_task("x", vec![], vec![], &vec!["missing"]);
    assert!(matches!(r, Err(BuildError::UnknownDependency)));
    // the failed registration leaves the builder usable
    let id = b.add_task("x", vec![], vec![], &vec![]).unwrap();
    assert_eq!(id, 0);
    let mut d = b.finish();
    let order = d.run_schedule();
    assert_eq!(order, vec![0]);
}

#[test]
fn explicit_dependencies_order_the_pass() {
    let b = builder_with(&[
        ("a", vec![ResourceId(1)], vec![], vec![]),
        ("b", vec![], vec![ResourceId(2)], vec![]),
        ("c", vec![], vec![], vec!["a", "b"]),
    ]);
    let mut d = b.finish();
    let order = d.run_schedule();
    assert_eq!(order.len(), 3);
    let pos = |id: usize| order.iter().position(|&x| x == id).unwrap();
    assert!(pos(0) < pos(2));
    assert!(pos(1) < pos(2));
    assert!(d.pass_complete());
    assert!(d.running.all_clear());
}

#[test]
fn dependent_not_ready_until_dependencies_finish() {
    let b = builder_with(&[
        ("a", vec![], vec![], vec![]),
        ("b", vec![], vec![], vec![]),
        ("c", vec![], vec![], vec!["a", "b"]),
    ]);
    let mut d = b.finish();
    let first = d.start_next().unwrap();
    let second = d.start_next().unwrap();
    assert!(first == 0 || first == 1);
    assert!(second == 0 || second == 1);
    assert_ne!(first, second);
    // both independent tasks hold their tracker bits at the same time
    assert!(d.running.get(first) && d.running.get(second));
    assert_eq!(d.start_next(), None);
    d.complete(first);
    assert_eq!(d.start_next(), None);
    d.complete(second);
    assert_eq!(d.start_next(), Some(2));
    d.complete(2);
    assert!(d.pass_complete());
}

#[test]
fn conflicting_footprints_are_serialized_without_explicit_edges() {
    // a writes R, b reads R: the closure makes a a predecessor of b
    let b = builder_with(&[
        ("a", vec![], vec![ResourceId(7)], vec![]),
        ("b", vec![ResourceId(7)], vec![], vec![]),
    ]);
    let mut d = b.finish();
    assert!(d.preds[1].contains(&0));
    let first = d.start_next().unwrap();
    assert_eq!(first, 0);
    assert_eq!(d.start_next(), None);
    d.complete(0);
    assert_eq!(d.start_next(), Some(1));
    d.complete(1);
    assert!(d.pass_complete());
}

#[test]
fn write_write_conflicts_are_serialized() {
    let b = builder_with(&[
        ("a", vec![], vec![ResourceId(3)], vec![]),
        ("b", vec![], vec![ResourceId(3)], vec![]),
    ]);
    let mut d = b.finish();
    assert!(d.preds[1].contains(&0));
    let order = d.run_schedule();
    assert_eq!(order, vec![0, 1]);
}

#[test]
fn read_read_is_not_a_conflict() {
    let b = builder_with(&[
        ("a", vec![ResourceId(3)], vec![], vec![]),
        ("b", vec![ResourceId(3)], vec![], vec![]),
    ]);
    let mut d = b.finish();
    assert!(d.preds[1].is_empty());
    // both become ready at once
    let first = d.start_next().unwrap();
    let second = d.start_next().unwrap();
    assert_ne!(first, second);
    assert!(d.running.get(first) && d.running.get(second));
    d.complete(first);
    d.complete(second);
    assert!(d.pass_complete());
}

#[test]
fn conflict_predicate_exact_cases() {
    let mut deps = Dependencies::new();
    deps.add(0, vec![ResourceId(1)], vec![ResourceId(2)], vec![]);
    deps.add(1, vec![ResourceId(2)], vec![], vec![]);
    deps.add(2, vec![ResourceId(1)], vec![], vec![]);
    deps.add(3, vec![], vec![ResourceId(1)], vec![]);
    deps.add(4, vec![ResourceId(9)], vec![ResourceId(8)], vec![]);
    assert!(deps.conflict(0, 1)); // 0 writes 2, 1 reads 2
    assert!(!deps.conflict(1, 2)); // disjoint
    assert!(!deps.conflict(0, 2)); // both read 1 only
    assert!(deps.conflict(0, 3)); // 3 writes 1, 0 reads 1
    assert!(deps.conflict(3, 0)); // symmetric
    assert!(!deps.conflict(0, 4)); // disjoint footprints
}

#[test]
fn reverse_indices_list_accessors_in_registration_order() {
    let mut deps = Dependencies::new();
    deps.add(0, vec![ResourceId(1)], vec![ResourceId(2)], vec![]);
    deps.add(1, vec![ResourceId(1), ResourceId(2)], vec![], vec![]);
    deps.add(2, vec![], vec![ResourceId(2)], vec![]);
    assert_eq!(deps.tasks_reading(ResourceId(1)), vec![0, 1]);
    assert_eq!(deps.tasks_reading(ResourceId(2)), vec![1]);
    assert_eq!(deps.tasks_writing(ResourceId(2)), vec![0, 2]);
    assert_eq!(deps.tasks_writing(ResourceId(9)), Vec::<usize>::new());
    assert_eq!(deps.count(), 3);
}

#[test]
fn duplicate_name_resolves_to_latest_registration() {
    let mut b = DispatcherBuilder::new();
    b.add_task("a", vec![], vec![], &vec![]).unwrap();
    b.add_task("a", vec![], vec![], &vec![]).unwrap();
    let c = b.add_task("c", vec![], vec![], &vec!["a"]).unwrap();
    assert_eq!(c, 2);
    let d = b.finish();
    assert!(d.preds[2].contains(&1));
    assert!(!d.preds[2].contains(&0));
}

#[test]
fn duplicate_footprint_entries_collapse() {
    let b = builder_with(&[
        ("a", vec![], vec![ResourceId(5), ResourceId(5)], vec![]),
        ("b", vec![ResourceId(5)], vec![], vec![]),
    ]);
    let mut d = b.finish();
    // one implicit edge, not two
    assert_eq!(d.preds[1], vec![0]);
    assert_eq!(d.unmet[1], 1);
    let order = d.run_schedule();
    assert_eq!(order, vec![0, 1]);
}

#[test]
fn chain_runs_in_registration_order() {
    let b = builder_with(&[
        ("a", vec![], vec![], vec![]),
        ("b", vec![], vec![], vec!["a"]),
        ("c", vec![], vec![], vec!["b"]),
    ]);
    let mut d = b.finish();
    let order = d.run_schedule();
    assert_eq!(order, vec![0, 1, 2]);
}

#[test]
fn completion_tracker_slots_are_independent() {
    let mut t = CompletionTracker::with_size(3);
    assert!(t.all_clear());
    t.set(1, true);
    assert!(!t.all_clear());
    assert!(!t.get(0));
    assert!(t.get(1));
    assert!(!t.get(2));
    t.set(1, false);
    assert!(t.all_clear());
}

#[test]
fn task_dispatch_binds_id_and_work_unit() {
    let td = TaskDispatch::new(4, "payload");
    assert_eq!(td.id, 4);
    assert_eq!(td.task, "payload");
}

#[test]
fn tracker_clear_before_and_after_pass() {
    let b = builder_with(&[
        ("a", vec![], vec![ResourceId(1)], vec![]),
        ("b", vec![ResourceId(1)], vec![], vec!["a"]),
    ]);
    let mut d = b.finish();
    assert!(d.running.all_clear());
    let order = d.run_schedule();
    assert_eq!(order, vec![0, 1]);
    assert!(d.running.all_clear());
    assert!(d.pass_complete());
}
