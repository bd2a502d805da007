//! The engine's behaviour on its table model: locking, retirement, retry
//! bookkeeping, and the dispatcher.
use job_runner::BackgroundJob;
use job_runner::HandlerOutcome;
use job_runner::JobTable;
use job_runner::PanicPayload;
use job_runner::Registry;
use job_runner::StepReport;
use job_runner::job_result;
use job_runner::run_all_pending_jobs;
use job_runner::run_single_job;

fn registry_with_foo() -> Registry {
    let mut registry = Registry::new();
    registry.register("Foo".to_string(), 0);
    registry
}

fn create_dummy_job(table: &mut JobTable) -> i64 {
    table.insert_job("Foo".to_string(), "null".to_string(), 0)
}

#[test]
fn jobs_are_locked_when_fetched() {
    let mut table = JobTable::new();
    let first_job_id = create_dummy_job(&mut table);
    let second_job_id = create_dummy_job(&mut table);

    // Worker 1 locks its job; while it is still inside its handler,
    // worker 2 locks its own. Each must see a different row.
    let job1 = table.find_next_unlocked_job(0).unwrap();
    assert_eq!(first_job_id, job1.id);

    let job2 = table.find_next_unlocked_job(0).unwrap();
    assert_eq!(second_job_id, job2.id);

    // Both handlers return Ok: both rows are deleted under their locks.
    table.delete_successful_job(job1.id);
    table.commit(job1.id);
    table.delete_successful_job(job2.id);
    table.commit(job2.id);
    assert_eq!(0, table.job_count());
}

#[test]
fn jobs_are_deleted_when_successfully_run() {
    let mut table = JobTable::new();
    let registry = registry_with_foo();
    create_dummy_job(&mut table);

    let report = run_single_job(&mut table, &registry, 0, &HandlerOutcome::Completed);

    assert!(matches!(report, StepReport::Deleted(_)));
    assert_eq!(0, table.job_count());
}

#[test]
fn failed_jobs_do_not_release_lock_before_updating_retry_time() {
    let mut table = JobTable::new();
    let registry = registry_with_foo();
    let job_id = create_dummy_job(&mut table);

    // The worker locks the job; its handler is now running.
    let job = table.find_next_unlocked_job(0).unwrap();
    assert_eq!(job_id, job.id);

    // While the lock is held, a competing select sees no available row with
    // retries = 0 ...
    assert_eq!(0, table.available_job_count(0));
    // ... though the row itself is still there.
    assert_eq!(1, table.job_count());

    // The handler errors out, so the job goes back into the queue.
    let outcome = HandlerOutcome::Failed("nope".to_string());
    let result = job_result(&registry, &job, &outcome);
    assert_eq!("nope", result.unwrap_err());

    // The failure is recorded while the lock is still held; only the commit
    // republishes the row, already carrying the new retry count.
    table.update_failed_job(job.id, 0);
    table.commit(job.id);
    assert_eq!(Some(1), table.retries_of(job_id));
}

#[test]
fn panicking_in_jobs_updates_retry_counter() {
    let mut table = JobTable::new();
    let registry = registry_with_foo();
    let job_id = create_dummy_job(&mut table);

    let outcome = HandlerOutcome::Panicked(PanicPayload::Opaque);
    let report = run_single_job(&mut table, &registry, 0, &outcome);

    assert_eq!(StepReport::Failed(job_id), report);
    assert_eq!(Some(1), table.retries_of(job_id));
}

#[test]
fn unknown_job_type_is_retried_not_deleted() {
    let mut table = JobTable::new();
    let registry = registry_with_foo();
    let job_id = table.insert_job("Nonexistent".to_string(), "null".to_string(), 0);

    let report = run_single_job(&mut table, &registry, 0, &HandlerOutcome::Completed);

    assert_eq!(StepReport::Failed(job_id), report);
    assert!(table.contains_job(job_id));
    assert_eq!(Some(1), table.retries_of(job_id));
    assert_eq!(1, table.failed_job_count());
}

#[test]
fn unknown_job_type_error_message() {
    let job = BackgroundJob {
        id: 1,
        job_type: "Nonexistent".to_string(),
        data: "null".to_string(),
    };
    let registry = registry_with_foo();
    let err = job_result(&registry, &job, &HandlerOutcome::Completed).unwrap_err();
    assert_eq!("Unknown job type Nonexistent", err);
    assert_eq!(
        "Unknown job type Nonexistent",
        job_runner::unknown_job_type_error(&"Nonexistent".to_string())
    );
}

#[test]
fn panic_messages_are_synthesized() {
    assert_eq!(
        "job panicked: boom",
        job_runner::panic_error_message(&PanicPayload::Text("boom".to_string()))
    );
    assert_eq!(
        "job panicked",
        job_runner::panic_error_message(&PanicPayload::Opaque)
    );

    let registry = registry_with_foo();
    let job = BackgroundJob {
        id: 1,
        job_type: "Foo".to_string(),
        data: "null".to_string(),
    };
    let outcome = HandlerOutcome::Panicked(PanicPayload::Text("boom".to_string()));
    assert_eq!("job panicked: boom", job_result(&registry, &job, &outcome).unwrap_err());
}

#[test]
fn registering_a_tag_again_overrides_the_handler() {
    let mut registry = Registry::new();
    registry.register("Foo".to_string(), 0);
    registry.register("Bar".to_string(), 1);
    registry.register("Foo".to_string(), 7);
    assert_eq!(Some(7), registry.get(&"Foo".to_string()));
    assert_eq!(Some(1), registry.get(&"Bar".to_string()));
    assert_eq!(None, registry.get(&"Baz".to_string()));
}

#[test]
fn failed_job_waits_out_its_backoff_window() {
    let mut table = JobTable::new();
    let registry = registry_with_foo();
    let job_id = create_dummy_job(&mut table);

    let outcome = HandlerOutcome::Failed("nope".to_string());
    run_single_job(&mut table, &registry, 10, &outcome);
    assert_eq!(Some(1), table.retries_of(job_id));

    // With one failure on record the backoff window is one time unit: the
    // row is unavailable at the instant of the failure and available after.
    assert_eq!(0, table.available_job_count(10));
    assert_eq!(1, table.available_job_count(11));
}

#[test]
fn empty_queue_leaves_workers_idle() {
    let mut table = JobTable::new();
    let registry = registry_with_foo();
    let report = run_single_job(&mut table, &registry, 0, &HandlerOutcome::Completed);
    assert_eq!(StepReport::NoJob, report);
    assert_eq!(0, table.job_count());
}

#[test]
fn dispatcher_runs_one_task_per_available_job() {
    let mut table = JobTable::new();
    let registry = registry_with_foo();
    let first = create_dummy_job(&mut table);
    let second = create_dummy_job(&mut table);
    let third = create_dummy_job(&mut table);

    let outcomes = vec![
        HandlerOutcome::Completed,
        HandlerOutcome::Failed("nope".to_string()),
        HandlerOutcome::Completed,
    ];
    let started = run_all_pending_jobs(&mut table, &registry, 0, &outcomes, true);

    assert_eq!(3, started);
    assert!(!table.contains_job(first));
    assert!(table.contains_job(second));
    assert!(!table.contains_job(third));
    assert_eq!(Some(1), table.retries_of(second));
    assert_eq!(1, table.failed_job_count());
}

#[test]
fn dispatcher_without_a_connection_does_nothing() {
    let mut table = JobTable::new();
    let registry = registry_with_foo();
    let job_id = create_dummy_job(&mut table);

    let outcomes: Vec<HandlerOutcome> = vec![HandlerOutcome::Completed];
    let started = run_all_pending_jobs(&mut table, &registry, 0, &outcomes, false);

    assert_eq!(0, started);
    assert!(table.contains_job(job_id));
    assert_eq!(Some(0), table.retries_of(job_id));
}

#[test]
fn fresh_jobs_are_available_and_unfailed() {
    let mut table = JobTable::new();
    let first = create_dummy_job(&mut table);
    let second = create_dummy_job(&mut table);
    assert_ne!(first, second);
    assert_eq!(2, table.available_job_count(0));
    assert_eq!(0, table.failed_job_count());
    assert_eq!(2, table.job_count());
}
