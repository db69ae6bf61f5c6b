//! The synchronous task executor: a facade over the worker pool that keeps
//! a running-task index keyed by task identifier, detects timeouts against
//! a fixed limit, and supports bookkeeping-only cancellation.

use vstd::prelude::*;
use vstd::seq_lib::*;

use crate::clock::now_millis;
use crate::error::TaskMasterError;
use crate::instants::{has_id, instant_of, spec_timed_out, InstantMap};
use crate::task::Task;
use crate::worker_pool::{JobResult, PoolView, TaskJob, WorkerPool};

verus! {

/// The relation between the running index before and after one timeout
/// sweep at instant `now`: overdue records are reported, in record order,
/// and exactly the others survive.
pub open spec fn timeouts_checked(
    pre: Seq<(u32, u64)>,
    post: Seq<(u32, u64)>,
    expired: Seq<u32>,
    timeout: u64,
    now: u64,
) -> bool {
    &&& expired == pre.filter(|e: (u32, u64)| spec_timed_out(e.1, now, timeout)).map_values(
        |e: (u32, u64)| e.0,
    )
    &&& post == pre.filter(|e: (u32, u64)| !spec_timed_out(e.1, now, timeout))
}

/// Timeout law: a task that has been running for more than the timeout
/// when a sweep happens is named in the sweep's report exactly once — the
/// report holds no duplicate identifiers — and is no longer counted as
/// running immediately after.
pub proof fn lemma_overdue_task_reported_once(
    running: Seq<(u32, u64)>,
    id: u32,
    now: u64,
    timeout: u64,
)
    requires
        forall|k1: int, k2: int|
            0 <= k1 < k2 < running.len() ==> (#[trigger] running[k1]).0 != (
            #[trigger] running[k2]).0,
        has_id(running, id),
        spec_timed_out(instant_of(running, id), now, timeout),
    ensures
        ({
            let report = running.filter(|e: (u32, u64)| spec_timed_out(e.1, now, timeout)).map_values(
                |e: (u32, u64)| e.0,
            );
            &&& report.contains(id)
            &&& report.no_duplicates()
            &&& !has_id(running.filter(|e: (u32, u64)| !spec_timed_out(e.1, now, timeout)), id)
        }),
{
    let p = |e: (u32, u64)| spec_timed_out(e.1, now, timeout);
    let q = |e: (u32, u64)| !spec_timed_out(e.1, now, timeout);
    let expired = running.filter(p);
    let report = expired.map_values(|e: (u32, u64)| e.0);
    let k = choose|k: int| 0 <= k < running.len() && (#[trigger] running[k]).0 == id;
    assert(instant_of(running, id) == running[k].1) by {
        let k2 = choose|k2: int| 0 <= k2 < running.len() && (#[trigger] running[k2]).0 == id;
        if k2 != k {
            assert(running[k2].0 == id && running[k].0 == id);
            assert(false);
        }
    }
    assert(p(running[k]));
    running.lemma_filter_contains(p, k);
    assert(expired.contains(running[k]));
    let j = choose|j: int| 0 <= j < expired.len() && expired[j] == running[k];
    assert(report[j] == id);
    assert(report.contains(id));
    crate::instants::lemma_filter_keeps_unique_keys(running, p);
    assert forall|j1: int, j2: int|
        0 <= j1 < report.len() && 0 <= j2 < report.len() && j1 != j2 implies report[j1]
        != report[j2] by {
        assert(report[j1] == expired[j1].0 && report[j2] == expired[j2].0);
        if j1 < j2 {
            assert(expired[j1].0 != expired[j2].0);
        } else {
            assert(expired[j2].0 != expired[j1].0);
        }
    }
    assert(!has_id(running.filter(q), id)) by {
        if has_id(running.filter(q), id) {
            let jq = choose|jq: int|
                0 <= jq < running.filter(q).len() && (#[trigger] running.filter(q)[jq]).0 == id;
            crate::instants::lemma_filter_element_of(running, q, jq);
            let kq = choose|kq: int|
                0 <= kq < running.len() && running[kq] == running.filter(q)[jq];
            assert(running[kq].0 == id && running[k].0 == id);
            assert(kq == k);
            running.lemma_filter_pred(q, jq);
            assert(q(running[k]));
            assert(p(running[k]));
        }
    }
}

/// A well-formed executor keeps the pool's conservation invariant — every
/// accepted, uncollected job is pending exactly once, as a queued job or a
/// result — and at most one running record per task identifier.
pub proof fn lemma_executor_invariants(e: TaskExecutor)
    requires
        e.wf(),
    ensures
        e@.pool.submitted == crate::worker_pool::result_ids(e@.pool) + crate::worker_pool::queued_ids(
            e@.pool,
        ),
        forall|k1: int, k2: int|
            0 <= k1 < k2 < e@.running.len() ==> (#[trigger] e@.running[k1]).0 != (
            #[trigger] e@.running[k2]).0,
{
}

/// Mathematical image of a [`TaskExecutor`].
#[verifier::ext_equal]
pub struct ExecutorView {
    pub pool: PoolView,
    /// Running-task records: identifier and start instant in milliseconds.
    pub running: Seq<(u32, u64)>,
    /// The execution time limit, in milliseconds.
    pub timeout: u64,
}

/// Dispatches tasks to a worker pool and tracks which are running.
pub struct TaskExecutor {
    worker_pool: WorkerPool,
    running_tasks: InstantMap,
    timeout: u64,
}

impl View for TaskExecutor {
    type V = ExecutorView;

    closed spec fn view(&self) -> ExecutorView {
        ExecutorView {
            pool: self.worker_pool@,
            running: self.running_tasks@,
            timeout: self.timeout,
        }
    }
}

impl TaskExecutor {
    /// Validity: the pool's conservation invariant and the uniqueness of
    /// running-task records.
    pub closed spec fn wf(&self) -> bool {
        &&& self.worker_pool.wf()
        &&& self.running_tasks.wf()
    }

    /// A fresh executor over a pool of `thread_count` workers, with an
    /// execution limit of `timeout_seconds` whole seconds.
    pub fn new(thread_count: usize, timeout_seconds: u64) -> (e: TaskExecutor)
        requires
            timeout_seconds <= u64::MAX / 1000,
        ensures
            e.wf(),
            e@.pool.size == thread_count,
            e@.pool.accepting,
            e@.pool.queue == Seq::<TaskJob>::empty(),
            e@.pool.results == Seq::<JobResult>::empty(),
            e@.running == Seq::<(u32, u64)>::empty(),
            e@.timeout == timeout_seconds * 1000,
    {
        TaskExecutor {
            worker_pool: WorkerPool::new(thread_count),
            running_tasks: InstantMap::new(),
            timeout: timeout_seconds * 1000,
        }
    }

    /// Record the task as running since `now`, then hand it to the pool.
    /// The record is made before dispatch, and is kept even when the pool,
    /// already shut down, refuses the job with an invalid-operation error.
    pub fn execute_task_at(&mut self, task: Task, now: u64) -> (r: Result<(), TaskMasterError>)
        requires
            old(self).wf(),
        ensures
            final(self).wf(),
            final(self)@.timeout == old(self)@.timeout,
            has_id(final(self)@.running, task.id),
            instant_of(final(self)@.running, task.id) == now,
            forall|x: u32|
                x != task.id ==> (has_id(final(self)@.running, x) <==> has_id(
                    old(self)@.running,
                    x,
                )),
            forall|x: u32|
                x != task.id && has_id(old(self)@.running, x) ==> instant_of(final(self)@.running, x)
                    == instant_of(old(self)@.running, x),
            r is Ok <==> old(self)@.pool.accepting,
            r matches Err(e) ==> e is InvalidOperation && final(self)@.pool == old(self)@.pool,
            r is Ok ==> final(self)@.pool == (PoolView {
                queue: old(self)@.pool.queue.push(TaskJob { id: task.id, task: task }),
                submitted: old(self)@.pool.submitted.push(task.id),
                ..old(self)@.pool
            }),
    {
        let task_id = task.id;
        self.running_tasks.insert(task_id, now);
        self.worker_pool.execute(TaskJob { id: task_id, task })
    }

    /// Record the task as running at the current instant, then hand it to
    /// the pool; see [`Self::execute_task_at`].
    pub fn execute_task(&mut self, task: Task) -> (r: Result<(), TaskMasterError>)
        requires
            old(self).wf(),
        ensures
            final(self).wf(),
            final(self)@.timeout == old(self)@.timeout,
            has_id(final(self)@.running, task.id),
            forall|x: u32|
                x != task.id ==> (has_id(final(self)@.running, x) <==> has_id(
                    old(self)@.running,
                    x,
                )),
            forall|x: u32|
                x != task.id && has_id(old(self)@.running, x) ==> instant_of(final(self)@.running, x)
                    == instant_of(old(self)@.running, x),
            r is Ok <==> old(self)@.pool.accepting,
            r matches Err(e) ==> e is InvalidOperation && final(self)@.pool == old(self)@.pool,
            r is Ok ==> final(self)@.pool == (PoolView {
                queue: old(self)@.pool.queue.push(TaskJob { id: task.id, task: task }),
                submitted: old(self)@.pool.submitted.push(task.id),
                ..old(self)@.pool
            }),
    {
        let now = now_millis();
        self.execute_task_at(task, now)
    }

    /// One worker finishing the oldest queued job: as part of the job
    /// handler itself — not by an external poller — the task's record
    /// leaves the running index, and exactly one result for it joins the
    /// result stream, successful or not. Returns the finished task's
    /// identifier, or nothing when the queue is idle.
    pub fn complete_next_job(&mut self, success: bool, error_message: Option<String>) -> (r:
        Option<u32>)
        requires
            old(self).wf(),
        ensures
            final(self).wf(),
            final(self)@.timeout == old(self)@.timeout,
            old(self)@.pool.queue.len() == 0 ==> r is None && final(self)@ == old(self)@,
            old(self)@.pool.queue.len() > 0 ==> {
                &&& r == Some(old(self)@.pool.queue[0].id)
                &&& !has_id(final(self)@.running, old(self)@.pool.queue[0].id)
                &&& forall|x: u32|
                    x != old(self)@.pool.queue[0].id ==> (has_id(final(self)@.running, x) <==> has_id(
                        old(self)@.running,
                        x,
                    ))
                &&& forall|x: u32|
                    x != old(self)@.pool.queue[0].id && has_id(old(self)@.running, x) ==> instant_of(
                        final(self)@.running,
                        x,
                    ) == instant_of(old(self)@.running, x)
                &&& final(self)@.pool.queue == old(self)@.pool.queue.drop_first()
                &&& final(self)@.pool.results == old(self)@.pool.results.push(
                    JobResult {
                        task_id: old(self)@.pool.queue[0].id,
                        success: success,
                        error_message: error_message,
                    },
                )
                &&& final(self)@.pool.accepting == old(self)@.pool.accepting
                &&& final(self)@.pool.size == old(self)@.pool.size
                &&& final(self)@.pool.submitted == old(self)@.pool.submitted
            },
    {
        let finished = self.worker_pool.run_next_job(success, error_message);
        match finished {
            Some(task_id) => {
                self.running_tasks.remove(task_id);
                proof {
                    assert(final(self)@.pool =~= self@.pool);
                }
                Some(task_id)
            },
            None => {
                proof {
                    assert(self@ =~= old(self)@);
                }
                None
            },
        }
    }

    /// Drop the task's running record. Cancellation is bookkeeping only:
    /// an already-dispatched unit of work is not interrupted and will still
    /// deliver its result; the task merely stops being counted as running.
    /// Fails with a task-not-found error when no record exists.
    pub fn cancel_task(&mut self, task_id: u32) -> (r: Result<(), TaskMasterError>)
        requires
            old(self).wf(),
        ensures
            final(self).wf(),
            final(self)@.timeout == old(self)@.timeout,
            final(self)@.pool == old(self)@.pool,
            r is Ok <==> has_id(old(self)@.running, task_id),
            r matches Err(e) ==> e == TaskMasterError::TaskNotFound(task_id) && final(self)@
                == old(self)@,
            !has_id(final(self)@.running, task_id),
            forall|x: u32|
                x != task_id ==> (has_id(final(self)@.running, x) <==> has_id(
                    old(self)@.running,
                    x,
                )),
            forall|x: u32|
                x != task_id && has_id(old(self)@.running, x) ==> instant_of(final(self)@.running, x)
                    == instant_of(old(self)@.running, x),
    {
        let found = self.running_tasks.remove(task_id);
        if found {
            Ok(())
        } else {
            proof {
                assert(self@ =~= old(self)@);
            }
            Err(TaskMasterError::TaskNotFound(task_id))
        }
    }

    /// Evict, and report in record order, every task that has been running
    /// for more than the configured timeout as of instant `now`. The read
    /// is destructive: reported tasks are no longer counted as running.
    pub fn check_timeouts_at(&mut self, now: u64) -> (expired: Vec<u32>)
        requires
            old(self).wf(),
        ensures
            final(self).wf(),
            final(self)@.timeout == old(self)@.timeout,
            final(self)@.pool == old(self)@.pool,
            expired@ == old(self)@.running.filter(
                |e: (u32, u64)| spec_timed_out(e.1, now, old(self)@.timeout),
            ).map_values(|e: (u32, u64)| e.0),
            final(self)@.running == old(self)@.running.filter(
                |e: (u32, u64)| !spec_timed_out(e.1, now, old(self)@.timeout),
            ),
    {
        self.running_tasks.evict_timed_out(now, self.timeout)
    }

    /// Evict and report every task running longer than the configured
    /// timeout, measured against the current instant; see
    /// [`Self::check_timeouts_at`].
    pub fn check_timeouts(&mut self) -> (expired: Vec<u32>)
        requires
            old(self).wf(),
        ensures
            final(self).wf(),
            final(self)@.timeout == old(self)@.timeout,
            final(self)@.pool == old(self)@.pool,
            exists|now: u64|
                #[trigger] timeouts_checked(
                    old(self)@.running,
                    final(self)@.running,
                    expired@,
                    old(self)@.timeout,
                    now,
                ),
    {
        let now = now_millis();
        let expired = self.check_timeouts_at(now);
        proof {
            assert(timeouts_checked(
                old(self)@.running,
                final(self)@.running,
                expired@,
                old(self)@.timeout,
                now,
            ));
        }
        expired
    }

    /// Drain every result currently available, without blocking, oldest
    /// first.
    pub fn collect_results(&mut self) -> (results: Vec<JobResult>)
        requires
            old(self).wf(),
        ensures
            final(self).wf(),
            final(self)@.timeout == old(self)@.timeout,
            final(self)@.running == old(self)@.running,
            results@ == old(self)@.pool.results,
            final(self)@.pool.results == Seq::<JobResult>::empty(),
            final(self)@.pool.queue == old(self)@.pool.queue,
            final(self)@.pool.accepting == old(self)@.pool.accepting,
            final(self)@.pool.size == old(self)@.pool.size,
    {
        let mut results: Vec<JobResult> = Vec::new();
        loop
            invariant
                self.wf(),
                self@.timeout == old(self)@.timeout,
                self@.running == old(self)@.running,
                self@.pool.queue == old(self)@.pool.queue,
                self@.pool.accepting == old(self)@.pool.accepting,
                self@.pool.size == old(self)@.pool.size,
                results@ + self@.pool.results == old(self)@.pool.results,
            ensures
                self@.pool.results.len() == 0,
                results@ == old(self)@.pool.results,
            decreases self@.pool.results.len(),
        {
            let ghost pre = self@.pool.results;
            match self.worker_pool.try_get_result() {
                Some(jr) => {
                    results.push(jr);
                    proof {
                        assert(results@ + self@.pool.results =~= old(self)@.pool.results);
                    }
                },
                None => {
                    proof {
                        assert(results@ =~= old(self)@.pool.results);
                    }
                    break ;
                },
            }
        }
        results
    }

    /// Whether the task is currently counted as running.
    pub fn is_task_running(&self, task_id: u32) -> (r: bool)
        ensures
            r == has_id(self@.running, task_id),
    {
        self.running_tasks.contains(task_id)
    }
}

} // verus!
