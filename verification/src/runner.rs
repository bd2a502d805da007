//! The dispatch engine: one worker task's fetch-lock-execute-retire
//! transaction, and the dispatcher that starts one task per available job.
//!
//! A handler is arbitrary host code and may fail or abort; what it did
//! arrives here as a `HandlerOutcome` value, decoded by the host's panic
//! firewall. Every function below is verified, so in particular none of them
//! can itself abort: a panicking handler reaches the retry bookkeeping as an
//! ordinary error and never tears a worker down.
use vstd::prelude::*;
use vstd::string::StringExecFns;

use crate::registry::Registry;
use crate::table::BackgroundJob;
use crate::table::JobTable;
use crate::table::JobView;
use crate::table::count_eligible;
use crate::table::eligible;
use crate::table::find_next;
use crate::table::index_of_id;
use crate::table::lemma_count_eligible_remove;
use crate::table::lemma_count_eligible_update;
use crate::table::lemma_find_next_from;
use crate::table::lemma_id_absent_after_remove;
use crate::table::lemma_index_of_id_unique;
use crate::table::retries_headroom;
use crate::table::sorted_ids;
use crate::table::with_failure;
use crate::table::with_locked;

verus! {

/// What the host could read out of an abort payload: a textual message (an
/// abort-info value rendered by its canonical display, a string literal, or
/// an owned string), or nothing recognisable.
pub enum PanicPayload {
    Text(String),
    Opaque,
}

/// What a handler invocation came to, as the panic firewall reports it.
pub enum HandlerOutcome {
    Completed,
    Failed(String),
    Panicked(PanicPayload),
}

/// The message synthesized for an abnormal termination.
pub open spec fn panic_message(p: PanicPayload) -> Seq<char> {
    match p {
        PanicPayload::Text(s) => "job panicked: "@ + s@,
        PanicPayload::Opaque => "job panicked"@,
    }
}

/// Panic firewall, message side: the error text standing in for an abort.
/// A decodable payload is included verbatim behind the `"job panicked: "`
/// prefix; anything else falls back to the bare message.
pub fn panic_error_message(payload: &PanicPayload) -> (r: String)
    ensures
        r@ == panic_message(*payload),
{
    match payload {
        PanicPayload::Text(s) => {
            let mut m = "job panicked: ".to_owned();
            m.append(s.as_str());
            m
        },
        PanicPayload::Opaque => "job panicked".to_owned(),
    }
}

/// The error text for a tag no handler was registered for.
pub open spec fn unknown_type_message(job_type: Seq<char>) -> Seq<char> {
    "Unknown job type "@ + job_type
}

/// The error a job is failed with when its tag is not in the registry.
pub fn unknown_job_type_error(job_type: &String) -> (r: String)
    ensures
        r@ == unknown_type_message(job_type@),
{
    let mut m = "Unknown job type ".to_owned();
    m.append(job_type.as_str());
    m
}

/// The result the retire step acts on, for a job of the given tag whose
/// handler (if any was registered) came to `outcome`: an unregistered tag is
/// an error, a panic is the firewall's error, and a handler error passes
/// through.
pub open spec fn handler_result(
    reg: Map<Seq<char>, usize>,
    job_type: Seq<char>,
    outcome: HandlerOutcome,
) -> Result<(), Seq<char>> {
    if !reg.contains_key(job_type) {
        Err(unknown_type_message(job_type))
    } else {
        match outcome {
            HandlerOutcome::Completed => Ok(()),
            HandlerOutcome::Failed(m) => Err(m@),
            HandlerOutcome::Panicked(p) => Err(panic_message(p)),
        }
    }
}

/// Look the job's handler up and fold the firewall's report into an ordinary
/// result: `Err` for a missing registration, a handler error, or a converted
/// panic.
pub fn job_result(registry: &Registry, job: &BackgroundJob, outcome: &HandlerOutcome) -> (r:
    Result<(), String>)
    ensures
        handler_result(registry@, job.job_type@, *outcome) is Ok <==> r is Ok,
        r matches Err(e) ==> e@ == handler_result(registry@, job.job_type@, *outcome)->Err_0,
{
    match registry.get(&job.job_type) {
        None => Err(unknown_job_type_error(&job.job_type)),
        Some(_) => match outcome {
            HandlerOutcome::Completed => Ok(()),
            HandlerOutcome::Failed(m) => Err(m.clone()),
            HandlerOutcome::Panicked(p) => Err(panic_error_message(p)),
        },
    }
}

/// One worker task's transaction, as a function of the table it found: lock
/// the first available row, retire it by the handler's result, and let the
/// commit release the lock. With no available row the table is unchanged.
pub open spec fn run_single_job_spec(
    rows: Seq<JobView>,
    reg: Map<Seq<char>, usize>,
    now: u64,
    outcome: HandlerOutcome,
) -> Seq<JobView> {
    match find_next(rows, now) {
        None => rows,
        Some(i) => {
            let locked = rows.update(i, with_locked(rows[i], true));
            if handler_result(reg, rows[i].job_type, outcome) is Ok {
                locked.remove(i)
            } else {
                let updated = locked.update(i, with_failure(locked[i], now));
                updated.update(i, with_locked(updated[i], false))
            }
        },
    }
}

/// What one worker task reports: no row was available, or the named job's
/// row was deleted after success, or it was kept with one more failure on
/// record.
#[derive(Clone, Copy, Debug, PartialEq, Eq, Structural)]
pub enum StepReport {
    NoJob,
    Deleted(i64),
    Failed(i64),
}

/// One worker task. Opens a transaction, locks the next available job,
/// retires it by what its handler did (`outcome`, as decoded by the host's
/// firewall), and commits. The retry update happens strictly before the
/// commit that releases the lock, so no state in which the row is unlocked
/// but still carries its old retry count is ever reachable.
pub fn run_single_job(
    table: &mut JobTable,
    registry: &Registry,
    now: u64,
    outcome: &HandlerOutcome,
) -> (r: StepReport)
    requires
        old(table).wf(),
        retries_headroom(old(table)@, now),
    ensures
        final(table).wf(),
        final(table).next_id == old(table).next_id,
        final(table)@ == run_single_job_spec(old(table)@, registry@, now, *outcome),
        match r {
            StepReport::NoJob => find_next(old(table)@, now) is None,
            StepReport::Deleted(id) => {
                &&& find_next(old(table)@, now) is Some
                &&& id == old(table)@[find_next(old(table)@, now)->Some_0].id
                &&& handler_result(
                    registry@,
                    old(table)@[find_next(old(table)@, now)->Some_0].job_type,
                    *outcome,
                ) is Ok
            },
            StepReport::Failed(id) => {
                &&& find_next(old(table)@, now) is Some
                &&& id == old(table)@[find_next(old(table)@, now)->Some_0].id
                &&& handler_result(
                    registry@,
                    old(table)@[find_next(old(table)@, now)->Some_0].job_type,
                    *outcome,
                ) is Err
            },
        },
{
    let job = match table.find_next_unlocked_job(now) {
        None => {
            return StepReport::NoJob;
        },
        Some(j) => j,
    };
    let job_id = job.id;
    let ghost i = find_next(old(table)@, now)->Some_0;
    let ghost locked = old(table)@.update(i, with_locked(old(table)@[i], true));
    proof {
        lemma_find_next_from(old(table)@, now, 0);
        assert(table@ == locked);
        assert(locked[i] == with_locked(old(table)@[i], true));
        assert(locked[i].id == job_id);
        lemma_index_of_id_unique(locked, i);
    }
    let result = job_result(registry, &job, outcome);
    match &result {
        Ok(_) => {
            table.delete_successful_job(job_id);
            proof {
                lemma_id_absent_after_remove(locked, i);
            }
        },
        Err(_) => {
            proof {
                assert(eligible(old(table)@[i], now));
                assert(locked[i].retries == old(table)@[i].retries);
            }
            table.update_failed_job(job_id, now);
            proof {
                let updated = locked.update(i, with_failure(locked[i], now));
                assert(table@ == updated);
                assert(updated[i].id == job_id);
                lemma_index_of_id_unique(updated, i);
            }
        },
    }
    table.commit(job_id);
    match result {
        Ok(_) => StepReport::Deleted(job_id),
        Err(_) => StepReport::Failed(job_id),
    }
}

/// Lock exclusion: a fetch only returns a row no transaction held, it
/// leaves that row locked, and while the lock is held a second fetch can
/// only pick a different row — two concurrent workers never observe the
/// same job id.
pub proof fn lemma_locks_are_exclusive(rows: Seq<JobView>, now1: u64, now2: u64)
    requires
        sorted_ids(rows),
        find_next(rows, now1) is Some,
    ensures
        ({
            let i = find_next(rows, now1)->Some_0;
            let locked = rows.update(i, with_locked(rows[i], true));
            &&& !rows[i].locked
            &&& locked[i].locked
            &&& match find_next(locked, now2) {
                None => true,
                Some(k) => k != i && locked[k].id != rows[i].id,
            }
        }),
{
    let i = find_next(rows, now1)->Some_0;
    lemma_find_next_from(rows, now1, 0);
    assert(eligible(rows[i], now1));
    let locked = rows.update(i, with_locked(rows[i], true));
    lemma_find_next_from(locked, now2, 0);
    if find_next(locked, now2) is Some {
        let k = find_next(locked, now2)->Some_0;
        assert(eligible(locked[k], now2));
        assert(k != i);
        if k < i {
            assert(rows[k].id < rows[i].id);
        } else {
            assert(rows[i].id < rows[k].id);
        }
    }
}

/// Success retires by deletion: when the handler of the locked job
/// completes, the worker's transaction removes the row, and once it commits
/// no row carries that id. Every other row is untouched.
pub proof fn lemma_success_deletes_row(
    rows: Seq<JobView>,
    reg: Map<Seq<char>, usize>,
    now: u64,
    outcome: HandlerOutcome,
)
    requires
        sorted_ids(rows),
        find_next(rows, now) is Some,
        handler_result(reg, rows[find_next(rows, now)->Some_0].job_type, outcome) is Ok,
    ensures
        ({
            let i = find_next(rows, now)->Some_0;
            let result = run_single_job_spec(rows, reg, now, outcome);
            &&& result.len() == rows.len() - 1
            &&& index_of_id(result, rows[i].id) is None
            &&& forall|m: int| 0 <= m < i ==> result[m] == rows[m]
            &&& forall|m: int| i <= m < result.len() ==> result[m] == rows[m + 1]
        }),
{
    let i = find_next(rows, now)->Some_0;
    lemma_find_next_from(rows, now, 0);
    let locked = rows.update(i, with_locked(rows[i], true));
    assert forall|a: int, b: int|
        #![trigger locked[a].id, locked[b].id]
        0 <= a < b < locked.len() implies locked[a].id < locked[b].id by {
        assert(rows[a].id < rows[b].id);
    }
    locked.remove_ensures(i);
    lemma_id_absent_after_remove(locked, i);
}

/// A failure's bookkeeping happens under the lock: the worker's transaction
/// raises the row's retry count by exactly one and restarts its backoff
/// clock while the row is still locked, and only the commit that releases
/// the lock publishes the row again — already carrying the new count. No
/// other row changes.
pub proof fn lemma_failure_updates_before_unlock(
    rows: Seq<JobView>,
    reg: Map<Seq<char>, usize>,
    now: u64,
    outcome: HandlerOutcome,
)
    requires
        sorted_ids(rows),
        retries_headroom(rows, now),
        find_next(rows, now) is Some,
        handler_result(reg, rows[find_next(rows, now)->Some_0].job_type, outcome) is Err,
    ensures
        ({
            let i = find_next(rows, now)->Some_0;
            let locked = rows.update(i, with_locked(rows[i], true));
            let updated = locked.update(i, with_failure(locked[i], now));
            let result = run_single_job_spec(rows, reg, now, outcome);
            &&& updated[i].locked
            &&& updated[i].retries == rows[i].retries + 1
            &&& result == updated.update(i, with_locked(updated[i], false))
            &&& result.len() == rows.len()
            &&& result[i].id == rows[i].id
            &&& !result[i].locked
            &&& result[i].retries == rows[i].retries + 1
            &&& result[i].last_retry == now
            &&& forall|m: int| 0 <= m < rows.len() && m != i ==> result[m] == rows[m]
        }),
{
    let i = find_next(rows, now)->Some_0;
    lemma_find_next_from(rows, now, 0);
    assert(eligible(rows[i], now));
    assert(rows[i].retries < u32::MAX);
}

/// The firewall absorbs a panic: a panicking handler is retired exactly as
/// an ordinary error whose message is the synthesized panic text, so its
/// row survives with one more retry on record. The worker itself never
/// aborts — every function of the engine is verified free of panics — so
/// the pool's panic count is untouched.
pub proof fn lemma_panic_retires_like_failure(
    rows: Seq<JobView>,
    reg: Map<Seq<char>, usize>,
    now: u64,
    p: PanicPayload,
)
    requires
        sorted_ids(rows),
        retries_headroom(rows, now),
        find_next(rows, now) is Some,
    ensures
        ({
            let i = find_next(rows, now)->Some_0;
            let hr = handler_result(reg, rows[i].job_type, HandlerOutcome::Panicked(p));
            let result = run_single_job_spec(rows, reg, now, HandlerOutcome::Panicked(p));
            &&& hr is Err
            &&& reg.contains_key(rows[i].job_type) ==> hr->Err_0 == panic_message(p)
            &&& result.len() == rows.len()
            &&& result[i].id == rows[i].id
            &&& !result[i].locked
            &&& result[i].retries == rows[i].retries + 1
            &&& result[i].last_retry == now
            &&& forall|m: int| 0 <= m < rows.len() && m != i ==> result[m] == rows[m]
        }),
{
    lemma_failure_updates_before_unlock(rows, reg, now, HandlerOutcome::Panicked(p));
}

/// An unregistered job type counts as a failure, not a success and not a
/// skip: the job's row survives with its retry counter raised by one,
/// whatever the (never invoked) handler would have done — so a
/// misconfigured deployment shows up in the failed-job count.
pub proof fn lemma_unknown_type_fails(
    rows: Seq<JobView>,
    reg: Map<Seq<char>, usize>,
    now: u64,
    outcome: HandlerOutcome,
)
    requires
        sorted_ids(rows),
        retries_headroom(rows, now),
        find_next(rows, now) is Some,
        !reg.contains_key(rows[find_next(rows, now)->Some_0].job_type),
    ensures
        ({
            let i = find_next(rows, now)->Some_0;
            let hr = handler_result(reg, rows[i].job_type, outcome);
            let result = run_single_job_spec(rows, reg, now, outcome);
            &&& hr is Err
            &&& hr->Err_0 == unknown_type_message(rows[i].job_type)
            &&& result.len() == rows.len()
            &&& result[i].id == rows[i].id
            &&& result[i].retries == rows[i].retries + 1
            &&& forall|m: int| 0 <= m < rows.len() && m != i ==> result[m] == rows[m]
        }),
{
    lemma_failure_updates_before_unlock(rows, reg, now, outcome);
}

/// The retire step keeps the retry headroom: a row it fails leaves the
/// available pool (its backoff clock restarts), and every other row keeps
/// its eligibility and counter.
pub proof fn lemma_step_keeps_headroom(
    rows: Seq<JobView>,
    reg: Map<Seq<char>, usize>,
    now: u64,
    outcome: HandlerOutcome,
)
    requires
        retries_headroom(rows, now),
    ensures
        retries_headroom(run_single_job_spec(rows, reg, now, outcome), now),
{
    let result = run_single_job_spec(rows, reg, now, outcome);
    if find_next(rows, now) is Some {
        let i = find_next(rows, now)->Some_0;
        lemma_find_next_from(rows, now, 0);
        assert(eligible(rows[i], now));
        let locked = rows.update(i, with_locked(rows[i], true));
        if handler_result(reg, rows[i].job_type, outcome) is Ok {
            locked.remove_ensures(i);
            assert forall|m: int|
                0 <= m < result.len() && eligible(#[trigger] result[m], now) implies result[m].retries
                < u32::MAX by {
                let om = if m < i {
                    m
                } else {
                    m + 1
                };
                assert(result[m] == locked[om]);
                assert(locked[om] == rows[om]);
                assert(eligible(rows[om], now));
            }
        } else {
            assert forall|m: int|
                0 <= m < result.len() && eligible(#[trigger] result[m], now) implies result[m].retries
                < u32::MAX by {
                if m != i {
                    assert(result[m] == rows[m]);
                    assert(eligible(rows[m], now));
                } else {
                    assert(result[i].last_retry == now);
                    assert(result[i].retries >= 1);
                    assert(!eligible(result[i], now));
                }
            }
        }
    }
}

/// Each worker task drains exactly one available row, however its job ends:
/// a completed job's row is deleted, and a failed one enters its backoff
/// window. A task that found nothing drains nothing.
pub proof fn lemma_step_drains_one(
    rows: Seq<JobView>,
    reg: Map<Seq<char>, usize>,
    now: u64,
    outcome: HandlerOutcome,
)
    requires
        retries_headroom(rows, now),
    ensures
        count_eligible(run_single_job_spec(rows, reg, now, outcome), now) == count_eligible(
            rows,
            now,
        ) - (if find_next(rows, now) is Some {
            1int
        } else {
            0int
        }),
{
    if find_next(rows, now) is Some {
        let i = find_next(rows, now)->Some_0;
        lemma_find_next_from(rows, now, 0);
        assert(eligible(rows[i], now));
        assert(rows[i].retries < u32::MAX);
        let locked = rows.update(i, with_locked(rows[i], true));
        lemma_count_eligible_update(rows, now, i, with_locked(rows[i], true));
        assert(!eligible(locked[i], now));
        if handler_result(reg, rows[i].job_type, outcome) is Ok {
            lemma_count_eligible_remove(locked, now, i);
        } else {
            let updated = locked.update(i, with_failure(locked[i], now));
            lemma_count_eligible_update(locked, now, i, with_failure(locked[i], now));
            assert(!eligible(updated[i], now));
            lemma_count_eligible_update(updated, now, i, with_locked(updated[i], false));
            assert(!eligible(with_locked(updated[i], false), now));
        }
    }
}

/// The table after the dispatcher's tasks have each run one job, the first
/// task consuming the first outcome.
pub open spec fn run_jobs_spec(
    rows: Seq<JobView>,
    reg: Map<Seq<char>, usize>,
    now: u64,
    outcomes: Seq<HandlerOutcome>,
) -> Seq<JobView>
    decreases outcomes.len(),
{
    if outcomes.len() == 0 {
        rows
    } else {
        run_jobs_spec(
            run_single_job_spec(rows, reg, now, outcomes[0]),
            reg,
            now,
            outcomes.drop_first(),
        )
    }
}

proof fn lemma_run_jobs_snoc(
    rows: Seq<JobView>,
    reg: Map<Seq<char>, usize>,
    now: u64,
    outcomes: Seq<HandlerOutcome>,
    o: HandlerOutcome,
)
    ensures
        run_jobs_spec(rows, reg, now, outcomes.push(o)) == run_single_job_spec(
            run_jobs_spec(rows, reg, now, outcomes),
            reg,
            now,
            o,
        ),
    decreases outcomes.len(),
{
    reveal_with_fuel(run_jobs_spec, 3);
    let all = outcomes.push(o);
    if outcomes.len() == 0 {
        assert(all[0] == o);
        assert(all.drop_first() =~= Seq::<HandlerOutcome>::empty());
    } else {
        assert(all[0] == outcomes[0]);
        assert(all.drop_first() =~= outcomes.drop_first().push(o));
        lemma_run_jobs_snoc(
            run_single_job_spec(rows, reg, now, outcomes[0]),
            reg,
            now,
            outcomes.drop_first(),
            o,
        );
    }
}

/// The dispatcher. With a connection in hand it queries how many jobs are
/// available and starts one worker task per available job; the count is
/// only a hint, each task locks its own job inside its own transaction.
/// `conn_available` reports whether the connection pool could supply the
/// dispatcher at all: if not, nothing is dispatched and the call succeeds —
/// the next tick will retry. The k-th task's handler doings arrive as
/// `outcomes[k]`; the number of tasks started is returned.
#[verifier::loop_isolation(false)]
pub fn run_all_pending_jobs(
    table: &mut JobTable,
    registry: &Registry,
    now: u64,
    outcomes: &Vec<HandlerOutcome>,
    conn_available: bool,
) -> (n: usize)
    requires
        old(table).wf(),
        retries_headroom(old(table)@, now),
        conn_available ==> outcomes@.len() >= count_eligible(old(table)@, now),
    ensures
        final(table).wf(),
        retries_headroom(final(table)@, now),
        !conn_available ==> n == 0 && final(table)@ == old(table)@,
        conn_available ==> n == count_eligible(old(table)@, now) && final(table)@
            == run_jobs_spec(old(table)@, registry@, now, outcomes@.take(n as int)),
        conn_available ==> count_eligible(final(table)@, now) == 0,
{
    if !conn_available {
        return 0;
    }
    let n = table.available_job_count(now);
    let mut k: usize = 0;
    proof {
        assert(outcomes@.take(0) =~= Seq::<HandlerOutcome>::empty());
    }
    while k < n
        invariant
            k <= n,
            table.wf(),
            retries_headroom(table@, now),
            table@ == run_jobs_spec(old(table)@, registry@, now, outcomes@.take(k as int)),
            count_eligible(table@, now) == n - k,
        decreases n - k,
    {
        proof {
            assert(outcomes@.take(k + 1) =~= outcomes@.take(k as int).push(outcomes@[k as int]));
        }
        let ghost pre = table@;
        proof {
            crate::table::lemma_count_eligible_pos(pre, now);
        }
        run_single_job(table, registry, now, &outcomes[k]);
        proof {
            lemma_step_drains_one(pre, registry@, now, outcomes@[k as int]);
            lemma_run_jobs_snoc(
                old(table)@,
                registry@,
                now,
                outcomes@.take(k as int),
                outcomes@[k as int],
            );
            lemma_step_keeps_headroom(pre, registry@, now, outcomes@[k as int]);
        }
        k = k + 1;
    }
    n
}

} // verus!
