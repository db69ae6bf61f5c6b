//! The worker pool: a fixed-size set of workers consuming jobs from one
//! shared first-in-first-out queue and publishing exactly one result per
//! job to a shared result stream.
//!
//! This is the pool's coordination state, verified for every interleaving
//! of steps: accepting a job, a worker finishing the next job, a caller
//! consuming a result, and shutdown. The surrounding program supplies the
//! operating-system threads that drive these steps; the state itself makes
//! the pool's promises — first-in-first-out dispatch, exactly one result
//! per accepted job, no submission after shutdown — checkable.

use vstd::prelude::*;

use crate::error::TaskMasterError;
use crate::task::Task;

verus! {

/// An execution unit submitted to the pool: the task identifier and the
/// task payload the handler will receive.
pub struct TaskJob {
    pub id: u32,
    pub task: Task,
}

/// The outcome of one completed job, delivered through the result stream.
#[derive(Debug)]
pub struct JobResult {
    pub task_id: u32,
    pub success: bool,
    pub error_message: Option<String>,
}

/// Mathematical image of a [`WorkerPool`].
#[verifier::ext_equal]
pub struct PoolView {
    /// Number of workers the pool was created with.
    pub size: usize,
    /// Whether the pool still accepts submissions (shutdown not begun).
    pub accepting: bool,
    /// Jobs accepted and not yet executed, oldest first.
    pub queue: Seq<TaskJob>,
    /// Results produced and not yet consumed, oldest first.
    pub results: Seq<JobResult>,
    /// Identifiers of the jobs accepted and not yet consumed as results.
    pub submitted: Seq<u32>,
}

/// The task identifiers of queued jobs, oldest first.
pub open spec fn queued_ids(v: PoolView) -> Seq<u32> {
    v.queue.map_values(|j: TaskJob| j.id)
}

/// The task identifiers of pending results, oldest first.
pub open spec fn result_ids(v: PoolView) -> Seq<u32> {
    v.results.map_values(|r: JobResult| r.task_id)
}

/// A bounded set of workers pulling jobs from a shared queue.
pub struct WorkerPool {
    size: usize,
    accepting: bool,
    queue: Vec<TaskJob>,
    results: Vec<JobResult>,
    submitted: Ghost<Seq<u32>>,
}

impl View for WorkerPool {
    type V = PoolView;

    closed spec fn view(&self) -> PoolView {
        PoolView {
            size: self.size,
            accepting: self.accepting,
            queue: self.queue@,
            results: self.results@,
            submitted: self.submitted@,
        }
    }
}

impl WorkerPool {
    /// Conservation: every accepted and unconsumed job is accounted for,
    /// either as a pending result or as a queued job, in acceptance order.
    pub open spec fn wf(&self) -> bool {
        self@.submitted == result_ids(self@) + queued_ids(self@)
    }

    /// A fresh pool of `size` workers, accepting jobs, with nothing queued
    /// and nothing produced.
    pub fn new(size: usize) -> (p: WorkerPool)
        ensures
            p.wf(),
            p@.size == size,
            p@.accepting,
            p@.queue == Seq::<TaskJob>::empty(),
            p@.results == Seq::<JobResult>::empty(),
            p@.submitted == Seq::<u32>::empty(),
    {
        let p = WorkerPool {
            size,
            accepting: true,
            queue: Vec::new(),
            results: Vec::new(),
            submitted: Ghost(Seq::empty()),
        };
        proof {
            assert(p@.submitted =~= result_ids(p@) + queued_ids(p@));
        }
        p
    }

    /// Enqueue a job. Fails with an invalid-operation error, changing
    /// nothing, once the pool has begun shutdown.
    pub fn execute(&mut self, job: TaskJob) -> (r: Result<(), TaskMasterError>)
        requires
            old(self).wf(),
        ensures
            final(self).wf(),
            r is Ok <==> old(self)@.accepting,
            r matches Err(e) ==> e is InvalidOperation && final(self)@ == old(self)@,
            r matches Err(e) ==> e->InvalidOperation_0@ == "Worker pool is disconnected"@,
            r is Ok ==> final(self)@ == (PoolView {
                queue: old(self)@.queue.push(job),
                submitted: old(self)@.submitted.push(job.id),
                ..old(self)@
            }),
    {
        if !self.accepting {
            return Err(
                TaskMasterError::InvalidOperation("Worker pool is disconnected".to_owned()),
            );
        }
        let ghost old_v = self@;
        proof {
            self.submitted@ = self.submitted@.push(job.id);
        }
        let ghost jid = job.id;
        self.queue.push(job);
        proof {
            assert(queued_ids(self@) =~= queued_ids(old_v).push(jid));
            assert(self@.submitted =~= result_ids(self@) + queued_ids(self@));
            assert(self@ =~= (PoolView {
                queue: old_v.queue.push(job),
                submitted: old_v.submitted.push(jid),
                ..old_v
            }));
        }
        Ok(())
    }

    /// The job a worker would execute next, if any: the oldest queued job.
    pub fn peek_next_job(&self) -> (r: Option<&TaskJob>)
        ensures
            match r {
                Some(j) => self@.queue.len() > 0 && *j == self@.queue[0],
                None => self@.queue.len() == 0,
            },
    {
        if self.queue.len() > 0 {
            Some(&self.queue[0])
        } else {
            None
        }
    }

    /// One worker step: dequeue the oldest job and publish exactly one
    /// result for it, carrying the job's task identifier and the handler
    /// outcome the worker observed. Returns the finished task identifier,
    /// or nothing when the queue is idle.
    pub fn run_next_job(&mut self, success: bool, error_message: Option<String>) -> (r: Option<
        u32,
    >)
        requires
            old(self).wf(),
        ensures
            final(self).wf(),
            old(self)@.queue.len() == 0 ==> r is None && final(self)@ == old(self)@,
            old(self)@.queue.len() > 0 ==> {
                &&& r == Some(old(self)@.queue[0].id)
                &&& final(self)@.queue == old(self)@.queue.drop_first()
                &&& final(self)@.results == old(self)@.results.push(
                    JobResult {
                        task_id: old(self)@.queue[0].id,
                        success: success,
                        error_message: error_message,
                    },
                )
                &&& final(self)@.accepting == old(self)@.accepting
                &&& final(self)@.size == old(self)@.size
                &&& final(self)@.submitted == old(self)@.submitted
            },
    {
        if self.queue.len() == 0 {
            return None;
        }
        let ghost old_v = self@;
        let job = self.queue.remove(0);
        let task_id = job.id;
        self.results.push(JobResult { task_id, success, error_message });
        proof {
            assert(self@.queue =~= old_v.queue.drop_first());
            assert(queued_ids(self@) =~= queued_ids(old_v).drop_first());
            assert(result_ids(self@) =~= result_ids(old_v).push(task_id));
            assert(queued_ids(old_v)[0] == task_id);
            assert(self@.submitted =~= result_ids(self@) + queued_ids(self@));
        }
        Some(task_id)
    }

    /// Consume the oldest pending result. In the threaded runtime this
    /// call blocks until a result arrives; the coordination state, which
    /// cannot wait, reports an invalid-operation error when none is
    /// pending yet.
    pub fn get_result(&mut self) -> (r: Result<JobResult, TaskMasterError>)
        requires
            old(self).wf(),
        ensures
            final(self).wf(),
            r is Ok <==> old(self)@.results.len() > 0,
            r matches Err(e) ==> e is InvalidOperation && final(self)@ == old(self)@,
            r matches Err(e) ==> e->InvalidOperation_0@ == "Result channel is disconnected"@,
            r matches Ok(jr) ==> jr == old(self)@.results[0] && final(self)@ == (PoolView {
                results: old(self)@.results.drop_first(),
                submitted: old(self)@.submitted.drop_first(),
                ..old(self)@
            }),
    {
        match self.try_get_result() {
            Some(jr) => Ok(jr),
            None => Err(
                TaskMasterError::InvalidOperation("Result channel is disconnected".to_owned()),
            ),
        }
    }

    /// Consume the oldest pending result without waiting, if one is there.
    pub fn try_get_result(&mut self) -> (r: Option<JobResult>)
        requires
            old(self).wf(),
        ensures
            final(self).wf(),
            old(self)@.results.len() == 0 ==> r is None && final(self)@ == old(self)@,
            old(self)@.results.len() > 0 ==> r == Some(old(self)@.results[0]) && final(self)@
                == (PoolView {
                results: old(self)@.results.drop_first(),
                submitted: old(self)@.submitted.drop_first(),
                ..old(self)@
            }),
    {
        if self.results.len() == 0 {
            return None;
        }
        let ghost old_v = self@;
        let jr = self.results.remove(0);
        proof {
            self.submitted@ = self.submitted@.drop_first();
            assert(self@.results =~= old_v.results.drop_first());
            assert(result_ids(self@) =~= result_ids(old_v).drop_first());
            assert(result_ids(old_v)[0] == old_v.submitted[0]);
            assert(self@.submitted =~= result_ids(self@) + queued_ids(self@));
            assert(self@ =~= (PoolView {
                results: old_v.results.drop_first(),
                submitted: old_v.submitted.drop_first(),
                ..old_v
            }));
        }
        Some(jr)
    }

    /// Begin shutdown: refuse further submissions. Jobs already accepted
    /// stay queued and still run to completion — a terminate signal is
    /// queued behind them, never pre-empting active work.
    pub fn shutdown(&mut self)
        requires
            old(self).wf(),
        ensures
            final(self).wf(),
            final(self)@ == (PoolView { accepting: false, ..old(self)@ }),
    {
        self.accepting = false;
        proof {
            assert(self@ =~= (PoolView { accepting: false, ..old(self)@ }));
        }
    }
}

/// Law of conservation for the pool: once the queue has been drained,
/// the consumable results carry exactly the identifiers of the accepted
/// jobs, one result per job, in acceptance order — however many workers
/// raced to produce them.
pub proof fn lemma_drained_pool_delivers_every_job(p: WorkerPool)
    requires
        p.wf(),
        p@.queue.len() == 0,
    ensures
        result_ids(p@) == p@.submitted,
        result_ids(p@).to_multiset() == p@.submitted.to_multiset(),
{
    assert(queued_ids(p@) =~= Seq::<u32>::empty());
    assert(result_ids(p@) =~= p@.submitted);
}

} // verus!
