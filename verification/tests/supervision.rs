use slotcore::supervisor::{TaskClass, TaskOutcome, TaskStatus, TaskSupervisor};

#[test]
fn essential_failure_halts_the_node() {
    let mut sup = TaskSupervisor::new();
    let voter = sup.register(TaskClass::Essential);
    let discovery = sup.register(TaskClass::Auxiliary);
    assert_ne!(voter, discovery);
    // An auxiliary failure is tolerated.
    assert!(!sup.report(discovery, TaskOutcome::Failed));
    assert!(!sup.shutdown);
    // An essential failure raises the shutdown signal, exactly once, for
    // everyone.
    assert!(sup.report(voter, TaskOutcome::Failed));
    assert!(sup.shutdown);
}

#[test]
fn completions_and_cancellations_never_escalate() {
    let mut sup = TaskSupervisor::new();
    let engine = sup.register(TaskClass::Essential);
    let telemetry = sup.register(TaskClass::Auxiliary);
    assert!(!sup.report(engine, TaskOutcome::Completed));
    assert!(!sup.report(telemetry, TaskOutcome::Cancelled));
    assert!(!sup.shutdown);
    assert!(sup.all_stopped());
}

#[test]
fn shutdown_is_observed_at_suspension_points() {
    let mut sup = TaskSupervisor::new();
    let engine = sup.register(TaskClass::Essential);
    let pump = sup.register(TaskClass::Essential);
    sup.begin_shutdown();
    assert!(sup.shutdown);
    assert!(!sup.all_stopped());
    // Each task observes the signal and reports back; a cancellation is not
    // a failure.
    assert!(!sup.report(engine, TaskOutcome::Cancelled));
    assert!(!sup.report(pump, TaskOutcome::Cancelled));
    assert!(sup.all_stopped());
    assert_eq!(sup.tasks[0].status, TaskStatus::Stopped);
}

#[test]
fn unknown_task_reports_are_ignored() {
    let mut sup = TaskSupervisor::new();
    let only = sup.register(TaskClass::Essential);
    assert!(!sup.report(only + 1, TaskOutcome::Failed));
    assert!(!sup.shutdown);
    assert_eq!(sup.tasks.len(), 1);
}
