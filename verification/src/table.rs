//! Model of the backing `background_jobs` table, including the row-level lock
//! state that a real database keeps implicitly. The five operations the
//! engine requires from storage (count available, find-and-lock next, delete
//! on success, mark failure, count failed) are verified against this model.
use vstd::prelude::*;

verus! {

/// Mathematical value of one row of the job table.
pub ghost struct JobView {
    pub id: i64,
    pub job_type: Seq<char>,
    pub data: Seq<char>,
    pub retries: u32,
    pub last_retry: u64,
    pub locked: bool,
}

/// One row of the job table: the stored columns plus the row-level lock bit
/// that a transaction holds from `find_next_unlocked_job` until `commit`.
pub struct JobRow {
    pub id: i64,
    pub job_type: String,
    pub data: String,
    pub retries: u32,
    pub last_retry: u64,
    pub locked: bool,
}

impl View for JobRow {
    type V = JobView;

    open spec fn view(&self) -> JobView {
        JobView {
            id: self.id,
            job_type: self.job_type@,
            data: self.data@,
            retries: self.retries,
            last_retry: self.last_retry,
            locked: self.locked,
        }
    }
}

/// What a worker hands to the handler: the locked row without the retry
/// bookkeeping.
pub struct BackgroundJob {
    pub id: i64,
    pub job_type: String,
    pub data: String,
}

/// Backoff window before a failed job becomes eligible again: one time unit
/// per recorded failure. The storage contract only asks that this be a
/// non-decreasing function of `retries`; this choice is the simplest one that
/// keeps a job that failed at instant `now` out of the available pool at that
/// same instant.
pub open spec fn backoff(retries: u32) -> int {
    retries as int
}

/// A row is available for locking iff no transaction holds its lock and its
/// backoff window has elapsed.
pub open spec fn eligible(job: JobView, now: u64) -> bool {
    &&& !job.locked
    &&& job.last_retry + backoff(job.retries) <= now
}

/// The given row with its lock bit set or cleared.
pub open spec fn with_locked(j: JobView, locked: bool) -> JobView {
    JobView {
        id: j.id,
        job_type: j.job_type,
        data: j.data,
        retries: j.retries,
        last_retry: j.last_retry,
        locked: locked,
    }
}

/// The given row after one more failed attempt: the retry counter rises by
/// one and the backoff clock restarts at `now`. The lock bit is untouched.
pub open spec fn with_failure(j: JobView, now: u64) -> JobView {
    JobView {
        id: j.id,
        job_type: j.job_type,
        data: j.data,
        retries: (j.retries + 1) as u32,
        last_retry: now,
        locked: j.locked,
    }
}

/// Index of the first eligible row at or after `i`.
pub open spec fn find_next_from(rows: Seq<JobView>, now: u64, i: int) -> Option<int>
    decreases rows.len() - i,
{
    if i < 0 || i >= rows.len() {
        None
    } else if eligible(rows[i], now) {
        Some(i)
    } else {
        find_next_from(rows, now, i + 1)
    }
}

/// Index of the first eligible row, in stored (id-ascending) order.
pub open spec fn find_next(rows: Seq<JobView>, now: u64) -> Option<int> {
    find_next_from(rows, now, 0)
}

/// What `find_next_from` returns: an in-range index of an eligible row,
/// before which no row at or after `i` is eligible; or nothing, when no row
/// at or after `i` is.
pub proof fn lemma_find_next_from(rows: Seq<JobView>, now: u64, i: int)
    requires
        0 <= i <= rows.len(),
    ensures
        match find_next_from(rows, now, i) {
            Some(k) => i <= k < rows.len() && eligible(rows[k], now) && (forall|m: int|
                i <= m < k ==> !eligible(rows[m], now)),
            None => forall|m: int| i <= m < rows.len() ==> !eligible(rows[m], now),
        },
    decreases rows.len() - i,
{
    if i < rows.len() && !eligible(rows[i], now) {
        lemma_find_next_from(rows, now, i + 1);
    }
}

/// Index of the first row at or after `i` carrying the given id.
pub open spec fn id_index_from(rows: Seq<JobView>, id: i64, i: int) -> Option<int>
    decreases rows.len() - i,
{
    if i < 0 || i >= rows.len() {
        None
    } else if rows[i].id == id {
        Some(i)
    } else {
        id_index_from(rows, id, i + 1)
    }
}

/// Index of the first row carrying the given id; under unique ids, of the
/// only one.
pub open spec fn index_of_id(rows: Seq<JobView>, id: i64) -> Option<int> {
    id_index_from(rows, id, 0)
}

/// What `id_index_from` returns: an in-range index of a row with the id,
/// before which no row at or after `i` carries it; or nothing.
pub proof fn lemma_id_index_from(rows: Seq<JobView>, id: i64, i: int)
    requires
        0 <= i <= rows.len(),
    ensures
        match id_index_from(rows, id, i) {
            Some(k) => i <= k < rows.len() && rows[k].id == id && (forall|m: int|
                i <= m < k ==> rows[m].id != id),
            None => forall|m: int| i <= m < rows.len() ==> rows[m].id != id,
        },
    decreases rows.len() - i,
{
    if i < rows.len() && rows[i].id != id {
        lemma_id_index_from(rows, id, i + 1);
    }
}

/// Number of rows available for locking.
pub open spec fn count_eligible(rows: Seq<JobView>, now: u64) -> int
    decreases rows.len(),
{
    if rows.len() == 0 {
        0
    } else {
        count_eligible(rows.drop_last(), now) + if eligible(rows.last(), now) {
            1int
        } else {
            0int
        }
    }
}

/// Number of rows that have failed at least once.
pub open spec fn count_failed(rows: Seq<JobView>) -> int
    decreases rows.len(),
{
    if rows.len() == 0 {
        0
    } else {
        count_failed(rows.drop_last()) + if rows.last().retries > 0 {
            1int
        } else {
            0int
        }
    }
}

proof fn lemma_count_eligible_bounds(rows: Seq<JobView>, now: u64)
    ensures
        0 <= count_eligible(rows, now) <= rows.len(),
    decreases rows.len(),
{
    if rows.len() > 0 {
        lemma_count_eligible_bounds(rows.drop_last(), now);
    }
}

proof fn lemma_count_failed_bounds(rows: Seq<JobView>)
    ensures
        0 <= count_failed(rows) <= rows.len(),
    decreases rows.len(),
{
    if rows.len() > 0 {
        lemma_count_failed_bounds(rows.drop_last());
    }
}

/// How replacing one row changes the number of available rows.
pub proof fn lemma_count_eligible_update(rows: Seq<JobView>, now: u64, i: int, v: JobView)
    requires
        0 <= i < rows.len(),
    ensures
        count_eligible(rows.update(i, v), now) == count_eligible(rows, now) - (if eligible(
            rows[i],
            now,
        ) {
            1int
        } else {
            0int
        }) + (if eligible(v, now) {
            1int
        } else {
            0int
        }),
    decreases rows.len(),
{
    let r2 = rows.update(i, v);
    let n = rows.len() - 1;
    if i == n {
        assert(r2.drop_last() =~= rows.drop_last());
        assert(r2.last() == v);
    } else {
        assert(r2.drop_last() =~= rows.drop_last().update(i, v));
        assert(r2.last() == rows.last());
        assert(rows.drop_last()[i] == rows[i]);
        lemma_count_eligible_update(rows.drop_last(), now, i, v);
    }
}

/// How removing one row changes the number of available rows.
pub proof fn lemma_count_eligible_remove(rows: Seq<JobView>, now: u64, i: int)
    requires
        0 <= i < rows.len(),
    ensures
        count_eligible(rows.remove(i), now) == count_eligible(rows, now) - (if eligible(
            rows[i],
            now,
        ) {
            1int
        } else {
            0int
        }),
    decreases rows.len(),
{
    rows.remove_ensures(i);
    let r2 = rows.remove(i);
    let n = rows.len() - 1;
    if i == n {
        assert(r2 =~= rows.drop_last());
    } else {
        rows.drop_last().remove_ensures(i);
        assert(r2.last() == rows[n]);
        assert(rows.last() == rows[n]);
        assert(r2.drop_last() =~= rows.drop_last().remove(i));
        assert(rows.drop_last()[i] == rows[i]);
        lemma_count_eligible_remove(rows.drop_last(), now, i);
    }
}

proof fn lemma_count_eligible_zero(rows: Seq<JobView>, now: u64)
    requires
        forall|m: int| 0 <= m < rows.len() ==> !eligible(#[trigger] rows[m], now),
    ensures
        count_eligible(rows, now) == 0,
    decreases rows.len(),
{
    if rows.len() > 0 {
        assert(rows.last() == rows[rows.len() - 1]);
        assert forall|m: int| 0 <= m < rows.drop_last().len() implies !eligible(
            #[trigger] rows.drop_last()[m],
            now,
        ) by {
            assert(rows.drop_last()[m] == rows[m]);
        }
        lemma_count_eligible_zero(rows.drop_last(), now);
    }
}

/// While any row is available, a fetch finds one.
pub proof fn lemma_count_eligible_pos(rows: Seq<JobView>, now: u64)
    requires
        count_eligible(rows, now) > 0,
    ensures
        find_next(rows, now) is Some,
{
    lemma_find_next_from(rows, now, 0);
    if find_next(rows, now) is None {
        lemma_count_eligible_zero(rows, now);
    }
}

/// Ids strictly increase along the stored order; in particular they are
/// unique.
pub open spec fn sorted_ids(rows: Seq<JobView>) -> bool {
    forall|i: int, j: int|
        #![trigger rows[i].id, rows[j].id]
        0 <= i < j < rows.len() ==> rows[i].id < rows[j].id
}

/// Every stored id lies below `bound`.
pub open spec fn ids_below(rows: Seq<JobView>, bound: i64) -> bool {
    forall|i: int| 0 <= i < rows.len() ==> (#[trigger] rows[i].id) < bound
}

/// Replacing a row with one carrying the same id disturbs neither the id
/// order nor an id bound.
proof fn lemma_order_update_same_id(rows: Seq<JobView>, bound: i64, i: int, v: JobView)
    requires
        sorted_ids(rows),
        ids_below(rows, bound),
        0 <= i < rows.len(),
        v.id == rows[i].id,
    ensures
        sorted_ids(rows.update(i, v)),
        ids_below(rows.update(i, v), bound),
{
    let r2 = rows.update(i, v);
    assert forall|a: int, b: int|
        #![trigger r2[a].id, r2[b].id]
        0 <= a < b < r2.len() implies r2[a].id < r2[b].id by {
        assert(rows[a].id < rows[b].id);
    }
    assert forall|a: int| 0 <= a < r2.len() implies (#[trigger] r2[a].id) < bound by {
        assert(rows[a].id < bound);
    }
}

/// Removing a row disturbs neither the id order nor an id bound.
proof fn lemma_order_remove(rows: Seq<JobView>, bound: i64, i: int)
    requires
        sorted_ids(rows),
        ids_below(rows, bound),
        0 <= i < rows.len(),
    ensures
        sorted_ids(rows.remove(i)),
        ids_below(rows.remove(i), bound),
{
    rows.remove_ensures(i);
    let r2 = rows.remove(i);
    assert forall|a: int, b: int|
        #![trigger r2[a].id, r2[b].id]
        0 <= a < b < r2.len() implies r2[a].id < r2[b].id by {
        let oa = if a < i {
            a
        } else {
            a + 1
        };
        let ob = if b < i {
            b
        } else {
            b + 1
        };
        assert(r2[a] == rows[oa]);
        assert(r2[b] == rows[ob]);
        assert(rows[oa].id < rows[ob].id);
    }
    assert forall|a: int| 0 <= a < r2.len() implies (#[trigger] r2[a].id) < bound by {
        let oa = if a < i {
            a
        } else {
            a + 1
        };
        assert(r2[a] == rows[oa]);
        assert(rows[oa].id < bound);
    }
}

/// Under strictly increasing ids the row carrying an id is unique, and
/// `index_of_id` finds exactly it.
pub proof fn lemma_index_of_id_unique(rows: Seq<JobView>, i: int)
    requires
        sorted_ids(rows),
        0 <= i < rows.len(),
    ensures
        index_of_id(rows, rows[i].id) == Some(i),
{
    lemma_id_index_from(rows, rows[i].id, 0);
    if index_of_id(rows, rows[i].id) is Some {
        let k = index_of_id(rows, rows[i].id)->Some_0;
        if k < i {
            assert(rows[k].id < rows[i].id);
        }
        if k > i {
            assert(rows[i].id != rows[i].id);
        }
    } else {
        assert(rows[i].id != rows[i].id);
    }
}

/// After removing the one row carrying an id, no row carries it.
pub proof fn lemma_id_absent_after_remove(rows: Seq<JobView>, i: int)
    requires
        sorted_ids(rows),
        0 <= i < rows.len(),
    ensures
        index_of_id(rows.remove(i), rows[i].id) is None,
{
    rows.remove_ensures(i);
    let r2 = rows.remove(i);
    lemma_id_index_from(r2, rows[i].id, 0);
    if index_of_id(r2, rows[i].id) is Some {
        let k = index_of_id(r2, rows[i].id)->Some_0;
        let ok = if k < i {
            k
        } else {
            k + 1
        };
        assert(r2[k] == rows[ok]);
        if ok < i {
            assert(rows[ok].id < rows[i].id);
        } else {
            assert(rows[i].id < rows[ok].id);
        }
        assert(false);
    }
}

/// Every row that is still available can record one more failure without its
/// 32-bit retry counter overflowing. The retire step asks for this, and
/// preserves it: a row it fails leaves the available pool until its backoff
/// elapses.
pub open spec fn retries_headroom(rows: Seq<JobView>, now: u64) -> bool {
    forall|i: int|
        0 <= i < rows.len() && eligible(#[trigger] rows[i], now) ==> rows[i].retries < u32::MAX
}

/// The job table, with the next id the backing store would assign.
pub struct JobTable {
    pub jobs: Vec<JobRow>,
    pub next_id: i64,
}

impl View for JobTable {
    type V = Seq<JobView>;

    open spec fn view(&self) -> Seq<JobView> {
        self.jobs@.map(|i: int, r: JobRow| r@)
    }
}

impl JobTable {
    /// Rows are kept in id-ascending order, ids are unique, and every id is
    /// below the next one to be assigned.
    pub open spec fn wf(self) -> bool {
        &&& sorted_ids(self@)
        &&& ids_below(self@, self.next_id)
    }

    pub fn new() -> (t: JobTable)
        ensures
            t@ == Seq::<JobView>::empty(),
            t.wf(),
            t.next_id == 1,
    {
        let t = JobTable { jobs: Vec::new(), next_id: 1 };
        proof {
            assert(t@ =~= Seq::<JobView>::empty());
        }
        t
    }

    /// Enqueue one job. Insertion itself is the producers' side of the
    /// system; the model needs it so that every reachable table state comes
    /// from the operations stated here. A fresh row carries zero retries and
    /// is unlocked, so it is eligible immediately.
    pub fn insert_job(&mut self, job_type: String, data: String, now: u64) -> (id: i64)
        requires
            old(self).wf(),
            old(self).next_id < i64::MAX,
        ensures
            id == old(self).next_id,
            final(self)@ == old(self)@.push(
                (JobView {
                    id: id,
                    job_type: job_type@,
                    data: data@,
                    retries: 0,
                    last_retry: now,
                    locked: false,
                }),
            ),
            final(self).wf(),
            final(self).next_id == old(self).next_id + 1,
    {
        let id = self.next_id;
        self.next_id = self.next_id + 1;
        let row = JobRow { id, job_type, data, retries: 0, last_retry: now, locked: false };
        let ghost rv = row@;
        self.jobs.push(row);
        proof {
            assert(self@ =~= old(self)@.push(rv));
            assert forall|a: int, b: int|
                #![trigger self@[a].id, self@[b].id]
                0 <= a < b < self@.len() implies self@[a].id < self@[b].id by {
                if b < self@.len() - 1 {
                    assert(old(self)@[a].id < old(self)@[b].id);
                } else {
                    assert(old(self)@[a].id < old(self).next_id);
                }
            }
            assert forall|a: int| 0 <= a < self@.len() implies (#[trigger] self@[a].id)
                < self.next_id by {
                if a < self@.len() - 1 {
                    assert(old(self)@[a].id < old(self).next_id);
                }
            }
        }
        id
    }

    /// Storage operation: how many rows are currently available. The engine
    /// uses this only as a hint for how many worker tasks to start.
    #[verifier::loop_isolation(false)]
    pub fn available_job_count(&self, now: u64) -> (n: usize)
        ensures
            n == count_eligible(self@, now),
    {
        proof {
            lemma_count_eligible_bounds(self@, now);
        }
        let mut n: usize = 0;
        let mut i: usize = 0;
        while i < self.jobs.len()
            invariant
                i <= self.jobs.len(),
                self@.len() == self.jobs.len(),
                n == count_eligible(self@.take(i as int), now),
                n <= i,
            decreases self.jobs.len() - i,
        {
            let row = &self.jobs[i];
            proof {
                assert(self@[i as int] == self.jobs@[i as int]@);
                assert(self@.take(i + 1).drop_last() =~= self@.take(i as int));
                assert(self@.take(i + 1).last() == self@[i as int]);
            }
            if !row.locked && row.last_retry <= now && now - row.last_retry >= row.retries as u64 {
                n = n + 1;
            }
            i = i + 1;
        }
        proof {
            assert(self@.take(self.jobs.len() as int) =~= self@);
        }
        n
    }

    /// Storage operation: how many rows record at least one failure.
    #[verifier::loop_isolation(false)]
    pub fn failed_job_count(&self) -> (n: usize)
        ensures
            n == count_failed(self@),
    {
        proof {
            lemma_count_failed_bounds(self@);
        }
        let mut n: usize = 0;
        let mut i: usize = 0;
        while i < self.jobs.len()
            invariant
                i <= self.jobs.len(),
                self@.len() == self.jobs.len(),
                n == count_failed(self@.take(i as int)),
                n <= i,
            decreases self.jobs.len() - i,
        {
            let row = &self.jobs[i];
            proof {
                assert(self@[i as int] == self.jobs@[i as int]@);
                assert(self@.take(i + 1).drop_last() =~= self@.take(i as int));
                assert(self@.take(i + 1).last() == self@[i as int]);
            }
            if row.retries > 0 {
                n = n + 1;
            }
            i = i + 1;
        }
        proof {
            assert(self@.take(self.jobs.len() as int) =~= self@);
        }
        n
    }

    /// Storage operation: select the first available row and acquire its
    /// row-level lock for the life of the calling transaction. Rows locked by
    /// other transactions are skipped, never waited on; rows are considered
    /// in id-ascending order.
    #[verifier::loop_isolation(false)]
    pub fn find_next_unlocked_job(&mut self, now: u64) -> (r: Option<BackgroundJob>)
        requires
            old(self).wf(),
        ensures
            final(self).wf(),
            final(self).next_id == old(self).next_id,
            match r {
                None => {
                    &&& find_next(old(self)@, now) is None
                    &&& final(self)@ == old(self)@
                },
                Some(job) => {
                    &&& find_next(old(self)@, now) is Some
                    &&& {
                        let i = find_next(old(self)@, now)->Some_0;
                        &&& job.id == old(self)@[i].id
                        &&& job.job_type@ == old(self)@[i].job_type
                        &&& job.data@ == old(self)@[i].data
                        &&& eligible(old(self)@[i], now)
                        &&& final(self)@ == old(self)@.update(i, with_locked(old(self)@[i], true))
                    }
                },
            },
    {
        let mut i: usize = 0;
        while i < self.jobs.len()
            invariant
                i <= self.jobs.len(),
                self@.len() == self.jobs.len(),
                *self == *old(self),
                forall|m: int| 0 <= m < i ==> !eligible(#[trigger] self@[m], now),
            decreases self.jobs.len() - i,
        {
            proof {
                assert(self@[i as int] == self.jobs@[i as int]@);
            }
            let row = &self.jobs[i];
            if !row.locked && row.last_retry <= now && now - row.last_retry >= row.retries as u64 {
                proof {
                    assert(eligible(self@[i as int], now));
                    lemma_find_next_from(self@, now, 0);
                    assert(find_next(self@, now) == Some(i as int));
                }
                let job = BackgroundJob {
                    id: row.id,
                    job_type: row.job_type.clone(),
                    data: row.data.clone(),
                };
                self.jobs[i].locked = true;
                proof {
                    assert(self.jobs@[i as int]@ == with_locked(old(self)@[i as int], true));
                    assert(self@ =~= old(self)@.update(
                        i as int,
                        with_locked(old(self)@[i as int], true),
                    ));
                    lemma_order_update_same_id(
                        old(self)@,
                        old(self).next_id,
                        i as int,
                        with_locked(old(self)@[i as int], true),
                    );
                }
                return Some(job);
            }
            i = i + 1;
        }
        proof {
            lemma_find_next_from(self@, now, 0);
            if find_next(self@, now) is Some {
                let k = find_next(self@, now)->Some_0;
                assert(eligible(self@[k], now));
            }
        }
        None
    }

    /// Storage operation: remove a successfully completed row. The engine
    /// calls this inside the transaction that holds the row's lock, so the
    /// row never exists unlocked in a completed state.
    #[verifier::loop_isolation(false)]
    pub fn delete_successful_job(&mut self, id: i64)
        requires
            old(self).wf(),
            index_of_id(old(self)@, id) is Some,
            old(self)@[index_of_id(old(self)@, id)->Some_0].locked,
        ensures
            final(self).wf(),
            final(self).next_id == old(self).next_id,
            final(self)@ == old(self)@.remove(index_of_id(old(self)@, id)->Some_0),
    {
        proof {
            lemma_id_index_from(old(self)@, id, 0);
        }
        let ghost target = index_of_id(old(self)@, id)->Some_0;
        let mut i: usize = 0;
        while i < self.jobs.len()
            invariant
                i <= self.jobs.len(),
                self@.len() == self.jobs.len(),
                *self == *old(self),
                0 <= target < self@.len(),
                self@[target].id == id,
                forall|m: int| 0 <= m < target ==> (#[trigger] self@[m].id) != id,
                i <= target,
            decreases self.jobs.len() - i,
        {
            proof {
                assert(self@[i as int] == self.jobs@[i as int]@);
                assert(self@[i as int].id == self.jobs@[i as int].id);
            }
            if self.jobs[i].id == id {
                proof {
                    assert(i as int == target);
                }
                self.jobs.remove(i);
                proof {
                    assert(self@ =~= old(self)@.remove(i as int));
                    lemma_order_remove(old(self)@, old(self).next_id, i as int);
                }
                return ;
            }
            i = i + 1;
        }
        proof {
            assert(self@[target].id == id);
            assert(false);
        }
    }

    /// Storage operation: record one more failed attempt. The retry counter
    /// rises by exactly one and the backoff clock restarts at `now`; the
    /// row's lock is untouched, so the new counter is in place before any
    /// commit can release the lock.
    #[verifier::loop_isolation(false)]
    pub fn update_failed_job(&mut self, id: i64, now: u64)
        requires
            old(self).wf(),
            index_of_id(old(self)@, id) is Some,
            old(self)@[index_of_id(old(self)@, id)->Some_0].locked,
            old(self)@[index_of_id(old(self)@, id)->Some_0].retries < u32::MAX,
        ensures
            final(self).wf(),
            final(self).next_id == old(self).next_id,
            final(self)@ == old(self)@.update(
                index_of_id(old(self)@, id)->Some_0,
                with_failure(old(self)@[index_of_id(old(self)@, id)->Some_0], now),
            ),
    {
        proof {
            lemma_id_index_from(old(self)@, id, 0);
        }
        let ghost target = index_of_id(old(self)@, id)->Some_0;
        let mut i: usize = 0;
        while i < self.jobs.len()
            invariant
                i <= self.jobs.len(),
                self@.len() == self.jobs.len(),
                *self == *old(self),
                0 <= target < self@.len(),
                self@[target].id == id,
                self@[target].retries < u32::MAX,
                forall|m: int| 0 <= m < target ==> (#[trigger] self@[m].id) != id,
                i <= target,
            decreases self.jobs.len() - i,
        {
            proof {
                assert(self@[i as int] == self.jobs@[i as int]@);
                assert(self@[i as int].id == self.jobs@[i as int].id);
            }
            if self.jobs[i].id == id {
                proof {
                    assert(i as int == target);
                }
                self.jobs[i].retries = self.jobs[i].retries + 1;
                self.jobs[i].last_retry = now;
                proof {
                    assert(self.jobs@[i as int]@ == with_failure(old(self)@[i as int], now));
                    assert(self@ =~= old(self)@.update(
                        i as int,
                        with_failure(old(self)@[i as int], now),
                    ));
                    lemma_order_update_same_id(
                        old(self)@,
                        old(self).next_id,
                        i as int,
                        with_failure(old(self)@[i as int], now),
                    );
                }
                return ;
            }
            i = i + 1;
        }
        proof {
            assert(self@[target].id == id);
            assert(false);
        }
    }

    /// Number of rows in the table.
    pub fn job_count(&self) -> (n: usize)
        ensures
            n == self@.len(),
    {
        self.jobs.len()
    }

    /// Whether a row with the given id is present.
    #[verifier::loop_isolation(false)]
    pub fn contains_job(&self, id: i64) -> (r: bool)
        ensures
            r == (index_of_id(self@, id) is Some),
    {
        proof {
            lemma_id_index_from(self@, id, 0);
        }
        let mut i: usize = 0;
        while i < self.jobs.len()
            invariant
                i <= self.jobs.len(),
                self@.len() == self.jobs.len(),
                forall|m: int| 0 <= m < i ==> (#[trigger] self@[m].id) != id,
            decreases self.jobs.len() - i,
        {
            proof {
                assert(self@[i as int] == self.jobs@[i as int]@);
                assert(self@[i as int].id == self.jobs@[i as int].id);
            }
            if self.jobs[i].id == id {
                return true;
            }
            i = i + 1;
        }
        false
    }

    /// The retry counter of the row with the given id, if present.
    #[verifier::loop_isolation(false)]
    pub fn retries_of(&self, id: i64) -> (r: Option<u32>)
        ensures
            match index_of_id(self@, id) {
                None => r is None,
                Some(i) => r == Some(self@[i].retries),
            },
    {
        proof {
            lemma_id_index_from(self@, id, 0);
        }
        let mut i: usize = 0;
        while i < self.jobs.len()
            invariant
                i <= self.jobs.len(),
                self@.len() == self.jobs.len(),
                forall|m: int| 0 <= m < i ==> (#[trigger] self@[m].id) != id,
            decreases self.jobs.len() - i,
        {
            proof {
                assert(self@[i as int] == self.jobs@[i as int]@);
                assert(self@[i as int].id == self.jobs@[i as int].id);
            }
            if self.jobs[i].id == id {
                proof {
                    assert(index_of_id(self@, id) == Some(i as int));
                }
                return Some(self.jobs[i].retries);
            }
            i = i + 1;
        }
        None
    }

    /// Transaction commit: release the row-level lock. Deleting a row
    /// releases its lock with it, so committing after a delete finds no row
    /// and changes nothing.
    #[verifier::loop_isolation(false)]
    pub fn commit(&mut self, id: i64)
        requires
            old(self).wf(),
        ensures
            final(self).wf(),
            final(self).next_id == old(self).next_id,
            match index_of_id(old(self)@, id) {
                None => final(self)@ == old(self)@,
                Some(i) => final(self)@ == old(self)@.update(
                    i,
                    with_locked(old(self)@[i], false),
                ),
            },
    {
        proof {
            lemma_id_index_from(old(self)@, id, 0);
        }
        let mut i: usize = 0;
        while i < self.jobs.len()
            invariant
                i <= self.jobs.len(),
                self@.len() == self.jobs.len(),
                *self == *old(self),
                forall|m: int| 0 <= m < i ==> (#[trigger] self@[m].id) != id,
            decreases self.jobs.len() - i,
        {
            proof {
                assert(self@[i as int] == self.jobs@[i as int]@);
                assert(self@[i as int].id == self.jobs@[i as int].id);
            }
            if self.jobs[i].id == id {
                proof {
                    assert(index_of_id(old(self)@, id) == Some(i as int));
                }
                self.jobs[i].locked = false;
                proof {
                    assert(self.jobs@[i as int]@ == with_locked(old(self)@[i as int], false));
                    assert(self@ =~= old(self)@.update(
                        i as int,
                        with_locked(old(self)@[i as int], false),
                    ));
                    lemma_order_update_same_id(
                        old(self)@,
                        old(self).next_id,
                        i as int,
                        with_locked(old(self)@[i as int], false),
                    );
                }
                return ;
            }
            i = i + 1;
        }
        proof {
            if index_of_id(old(self)@, id) is Some {
                let k = index_of_id(old(self)@, id)->Some_0;
                assert(self@[k].id == id);
            }
        }
    }
}

} // verus!
