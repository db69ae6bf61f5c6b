//! The asynchronous task executor: the same running-task and timeout
//! contract as the synchronous executor, but built for cooperative
//! scheduling. Submitting a task records it as running and emits a
//! `Started` event onto a bounded event channel; the task's body then
//! makes independent progress and, when it finishes, leaves the running
//! index and emits a `Completed` event whose delivery failure, if any, is
//! swallowed.
//!
//! This is the executor's coordination state, verified for every
//! interleaving of its steps. The cooperative runtime around it supplies
//! what the state cannot: the actual channel, whose bounded capacity
//! (recorded here) makes producers suspend rather than fail when the
//! consumer falls behind, and the simulated work delay before a spawned
//! body reaches [`AsyncTaskExecutor::finish_task`].

use vstd::prelude::*;

use crate::clock::now_millis;
use crate::error::TaskMasterError;
use crate::instants::{has_id, instant_of, InstantMap};
use crate::task::Task;
use crate::task_executor::timeouts_checked;

verus! {

/// A lifecycle event of one task. Within a task's history, `Started`
/// comes before the single terminal event (`Completed`, `Failed`,
/// `Timeout` or `Terminated`).
#[derive(Debug)]
pub enum TaskEvent {
    Started { task_id: u32 },
    Completed { task_id: u32 },
    Failed { task_id: u32, error_message: String },
    Timeout { task_id: u32 },
    Terminated { task_id: u32 },
}

/// Mathematical image of a [`TaskEvent`], with the failure message as a
/// character sequence.
#[verifier::ext_equal]
pub enum TaskEventView {
    Started { task_id: u32 },
    Completed { task_id: u32 },
    Failed { task_id: u32, error_message: Seq<char> },
    Timeout { task_id: u32 },
    Terminated { task_id: u32 },
}

impl View for TaskEvent {
    type V = TaskEventView;

    open spec fn view(&self) -> TaskEventView {
        match self {
            TaskEvent::Started { task_id } => TaskEventView::Started { task_id: *task_id },
            TaskEvent::Completed { task_id } => TaskEventView::Completed { task_id: *task_id },
            TaskEvent::Failed { task_id, error_message } => TaskEventView::Failed {
                task_id: *task_id,
                error_message: error_message@,
            },
            TaskEvent::Timeout { task_id } => TaskEventView::Timeout { task_id: *task_id },
            TaskEvent::Terminated { task_id } => TaskEventView::Terminated { task_id: *task_id },
        }
    }
}

impl TaskEvent {
    /// The identifier of the task the event concerns.
    pub open spec fn spec_task_id(self) -> u32 {
        match self {
            TaskEvent::Started { task_id } => task_id,
            TaskEvent::Completed { task_id } => task_id,
            TaskEvent::Failed { task_id, .. } => task_id,
            TaskEvent::Timeout { task_id } => task_id,
            TaskEvent::Terminated { task_id } => task_id,
        }
    }

    /// The identifier of the task the event concerns.
    pub fn task_id(&self) -> (id: u32)
        ensures
            id == self.spec_task_id(),
    {
        match self {
            TaskEvent::Started { task_id } => *task_id,
            TaskEvent::Completed { task_id } => *task_id,
            TaskEvent::Failed { task_id, .. } => *task_id,
            TaskEvent::Timeout { task_id } => *task_id,
            TaskEvent::Terminated { task_id } => *task_id,
        }
    }
}

impl Clone for TaskEvent {
    fn clone(&self) -> (r: Self)
        ensures
            r@ == self@,
    {
        match self {
            TaskEvent::Started { task_id } => TaskEvent::Started { task_id: *task_id },
            TaskEvent::Completed { task_id } => TaskEvent::Completed { task_id: *task_id },
            TaskEvent::Failed { task_id, error_message } => TaskEvent::Failed {
                task_id: *task_id,
                error_message: error_message.clone(),
            },
            TaskEvent::Timeout { task_id } => TaskEvent::Timeout { task_id: *task_id },
            TaskEvent::Terminated { task_id } => TaskEvent::Terminated { task_id: *task_id },
        }
    }
}

/// Whether an event ends a task's lifecycle (everything but `Started`).
pub open spec fn is_terminal_event(ev: TaskEvent) -> bool {
    match ev {
        TaskEvent::Started { .. } => false,
        _ => true,
    }
}

/// Whether the emission history holds a `Started` event for `id`.
pub open spec fn spec_started(h: Seq<TaskEvent>, id: u32) -> bool {
    exists|j: int| 0 <= j < h.len() && #[trigger] h[j] == (TaskEvent::Started { task_id: id })
}

/// Every terminal event in the emission history is preceded by a
/// `Started` event for the same task.
pub open spec fn events_well_ordered(h: Seq<TaskEvent>) -> bool {
    forall|j: int|
        0 <= j < h.len() && is_terminal_event(#[trigger] h[j]) ==> spec_started(
            h.subrange(0, j),
            h[j].spec_task_id(),
        )
}

/// Emitting one more event keeps the history well ordered, provided a
/// terminal event's task was already started.
proof fn lemma_emit_keeps_order(h: Seq<TaskEvent>, ev: TaskEvent)
    requires
        events_well_ordered(h),
        is_terminal_event(ev) ==> spec_started(h, ev.spec_task_id()),
    ensures
        events_well_ordered(h.push(ev)),
{
    let h2 = h.push(ev);
    assert forall|j: int|
        0 <= j < h2.len() && is_terminal_event(#[trigger] h2[j]) implies spec_started(
        h2.subrange(0, j),
        h2[j].spec_task_id(),
    ) by {
        if j < h.len() {
            assert(h2[j] == h[j]);
            assert(h2.subrange(0, j) =~= h.subrange(0, j));
            assert(spec_started(h.subrange(0, j), h[j].spec_task_id()));
        } else {
            assert(h2[j] == ev);
            assert(h2.subrange(0, j) =~= h);
        }
    }
}

/// Emitting one more event onto both the pending queue and the history
/// keeps the queue the history's tail.
proof fn lemma_emit_keeps_suffix(h: Seq<TaskEvent>, e: Seq<TaskEvent>, ev: TaskEvent)
    requires
        e.len() <= h.len(),
        e == h.subrange(h.len() - e.len(), h.len() as int),
    ensures
        e.push(ev) == h.push(ev).subrange(
            h.push(ev).len() - e.push(ev).len(),
            h.push(ev).len() as int,
        ),
{
    let h2 = h.push(ev);
    let e2 = e.push(ev);
    let base = h.len() - e.len();
    let s2 = h2.subrange(h2.len() - e2.len(), h2.len() as int);
    assert forall|i: int| 0 <= i < e2.len() implies e2[i] == s2[i] by {
        if i < e.len() {
            assert(e2[i] == e[i]);
            assert(e[i] == h.subrange(base, h.len() as int)[i]);
            assert(h.subrange(base, h.len() as int)[i] == h[base + i]);
            assert(h2[base + i] == h[base + i]);
            assert(s2[i] == h2[base + i]);
        } else {
            assert(e2[i] == ev);
            assert(s2[i] == h2[h.len() as int]);
            assert(h2[h.len() as int] == ev);
        }
    }
    assert(e2 =~= s2);
}

/// Consuming the oldest pending event keeps the queue the history's tail.
proof fn lemma_consume_keeps_suffix(h: Seq<TaskEvent>, e: Seq<TaskEvent>)
    requires
        0 < e.len() <= h.len(),
        e == h.subrange(h.len() - e.len(), h.len() as int),
    ensures
        e.drop_first() == h.subrange(h.len() - (e.len() - 1), h.len() as int),
{
    let base = h.len() - e.len();
    let e2 = e.drop_first();
    let s2 = h.subrange(h.len() - (e.len() - 1), h.len() as int);
    assert forall|i: int| 0 <= i < e2.len() implies e2[i] == s2[i] by {
        assert(e2[i] == e[i + 1]);
        assert(e[i + 1] == h.subrange(base, h.len() as int)[i + 1]);
        assert(h.subrange(base, h.len() as int)[i + 1] == h[base + i + 1]);
        assert(s2[i] == h[base + 1 + i]);
    }
    assert(e2 =~= s2);
}

/// Mathematical image of an [`AsyncTaskExecutor`].
#[verifier::ext_equal]
pub struct AsyncExecutorView {
    /// Running-task records: identifier and start instant in milliseconds.
    pub running: Seq<(u32, u64)>,
    /// The execution time limit, in milliseconds.
    pub timeout: u64,
    /// The bound of the event channel the runtime enforces.
    pub capacity: usize,
    /// Events emitted and not yet consumed, oldest first.
    pub events: Seq<TaskEvent>,
    /// Whether the event stream has been closed.
    pub closed: bool,
    /// Every event ever emitted onto the stream, oldest first.
    pub history: Seq<TaskEvent>,
}

/// Cooperative-scheduling executor publishing lifecycle events.
pub struct AsyncTaskExecutor {
    running_tasks: InstantMap,
    timeout: u64,
    capacity: usize,
    events: Vec<TaskEvent>,
    closed: bool,
    history: Ghost<Seq<TaskEvent>>,
}

impl View for AsyncTaskExecutor {
    type V = AsyncExecutorView;

    closed spec fn view(&self) -> AsyncExecutorView {
        AsyncExecutorView {
            running: self.running_tasks@,
            timeout: self.timeout,
            capacity: self.capacity,
            events: self.events@,
            closed: self.closed,
            history: self.history@,
        }
    }
}

impl AsyncTaskExecutor {
    /// At most one running record per task identifier; the pending events
    /// are exactly the not-yet-consumed tail of the emission history, and
    /// that history is well ordered: within one task's lifecycle the
    /// `Started` event comes before any terminal event.
    pub closed spec fn wf(&self) -> bool {
        &&& self.running_tasks.wf()
        &&& self@.events.len() <= self@.history.len()
        &&& self@.events == self@.history.subrange(
            self@.history.len() - self@.events.len(),
            self@.history.len() as int,
        )
        &&& events_well_ordered(self@.history)
    }

    /// A fresh executor with an execution limit of `timeout_seconds` whole
    /// seconds and an event channel bounded at `channel_capacity`.
    pub fn new(timeout_seconds: u64, channel_capacity: usize) -> (e: AsyncTaskExecutor)
        requires
            timeout_seconds <= u64::MAX / 1000,
        ensures
            e.wf(),
            e@.running == Seq::<(u32, u64)>::empty(),
            e@.timeout == timeout_seconds * 1000,
            e@.capacity == channel_capacity,
            e@.events == Seq::<TaskEvent>::empty(),
            !e@.closed,
            e@.history == Seq::<TaskEvent>::empty(),
    {
        let e = AsyncTaskExecutor {
            running_tasks: InstantMap::new(),
            timeout: timeout_seconds * 1000,
            capacity: channel_capacity,
            events: Vec::new(),
            closed: false,
            history: Ghost(Seq::empty()),
        };
        proof {
            assert(e@.events =~= e@.history.subrange(
                e@.history.len() - e@.events.len(),
                e@.history.len() as int,
            ));
        }
        e
    }

    /// Record the task as running since `now` and emit its `Started`
    /// event. The record is made before the emission, and is kept even
    /// when the event stream, already closed, refuses the event with a
    /// channel error. The task's body then progresses independently of
    /// this call and eventually reaches [`Self::finish_task`].
    pub fn execute_task_at(&mut self, task: Task, now: u64) -> (r: Result<(), TaskMasterError>)
        requires
            old(self).wf(),
        ensures
            final(self).wf(),
            final(self)@.timeout == old(self)@.timeout,
            final(self)@.capacity == old(self)@.capacity,
            final(self)@.closed == old(self)@.closed,
            has_id(final(self)@.running, task.id),
            instant_of(final(self)@.running, task.id) == now,
            forall|x: u32|
                x != task.id ==> (has_id(final(self)@.running, x) <==> has_id(
                    old(self)@.running,
                    x,
                )),
            forall|x: u32|
                x != task.id && has_id(old(self)@.running, x) ==> instant_of(
                    final(self)@.running,
                    x,
                ) == instant_of(old(self)@.running, x),
            r is Ok <==> !old(self)@.closed,
            r matches Err(e) ==> e is ChannelError && final(self)@.events == old(self)@.events
                && final(self)@.history == old(self)@.history,
            r matches Err(e) ==> e->ChannelError_0@ == "Failed to send task started event"@,
            r is Ok ==> final(self)@.events == old(self)@.events.push(
                TaskEvent::Started { task_id: task.id },
            ),
            r is Ok ==> final(self)@.history == old(self)@.history.push(
                TaskEvent::Started { task_id: task.id },
            ),
    {
        let task_id = task.id;
        self.running_tasks.insert(task_id, now);
        if self.closed {
            return Err(
                TaskMasterError::ChannelError("Failed to send task started event".to_owned()),
            );
        }
        let ghost h = self.history@;
        let ghost e = self.events@;
        self.events.push(TaskEvent::Started { task_id });
        proof {
            self.history@ = h.push(TaskEvent::Started { task_id });
            lemma_emit_keeps_order(h, TaskEvent::Started { task_id });
            lemma_emit_keeps_suffix(h, e, TaskEvent::Started { task_id });
        }
        Ok(())
    }

    /// Record the task as running at the current instant and emit its
    /// `Started` event; see [`Self::execute_task_at`].
    pub fn execute_task(&mut self, task: Task) -> (r: Result<(), TaskMasterError>)
        requires
            old(self).wf(),
        ensures
            final(self).wf(),
            final(self)@.timeout == old(self)@.timeout,
            final(self)@.capacity == old(self)@.capacity,
            final(self)@.closed == old(self)@.closed,
            has_id(final(self)@.running, task.id),
            forall|x: u32|
                x != task.id ==> (has_id(final(self)@.running, x) <==> has_id(
                    old(self)@.running,
                    x,
                )),
            forall|x: u32|
                x != task.id && has_id(old(self)@.running, x) ==> instant_of(
                    final(self)@.running,
                    x,
                ) == instant_of(old(self)@.running, x),
            r is Ok <==> !old(self)@.closed,
            r matches Err(e) ==> e is ChannelError && final(self)@.events == old(self)@.events
                && final(self)@.history == old(self)@.history,
            r matches Err(e) ==> e->ChannelError_0@ == "Failed to send task started event"@,
            r is Ok ==> final(self)@.events == old(self)@.events.push(
                TaskEvent::Started { task_id: task.id },
            ),
            r is Ok ==> final(self)@.history == old(self)@.history.push(
                TaskEvent::Started { task_id: task.id },
            ),
    {
        let now = now_millis();
        self.execute_task_at(task, now)
    }

    /// The end of a spawned task body: the task leaves the running index
    /// (if still counted — cancellation may have removed it first), and a
    /// `Completed` event is emitted. The body is fire-and-forget, so a
    /// closed event stream swallows the event instead of reporting an
    /// error. A body only exists once its submission succeeded — that is,
    /// once the task's `Started` event went onto the stream — which is
    /// what keeps every task's history ordered.
    pub fn finish_task(&mut self, task_id: u32)
        requires
            old(self).wf(),
            spec_started(old(self)@.history, task_id),
        ensures
            final(self).wf(),
            final(self)@.timeout == old(self)@.timeout,
            final(self)@.capacity == old(self)@.capacity,
            final(self)@.closed == old(self)@.closed,
            !has_id(final(self)@.running, task_id),
            forall|x: u32|
                x != task_id ==> (has_id(final(self)@.running, x) <==> has_id(
                    old(self)@.running,
                    x,
                )),
            forall|x: u32|
                x != task_id && has_id(old(self)@.running, x) ==> instant_of(
                    final(self)@.running,
                    x,
                ) == instant_of(old(self)@.running, x),
            final(self)@.events == if old(self)@.closed {
                old(self)@.events
            } else {
                old(self)@.events.push(TaskEvent::Completed { task_id })
            },
            final(self)@.history == if old(self)@.closed {
                old(self)@.history
            } else {
                old(self)@.history.push(TaskEvent::Completed { task_id })
            },
    {
        self.running_tasks.remove(task_id);
        if !self.closed {
            let ghost h = self.history@;
            let ghost e = self.events@;
            self.events.push(TaskEvent::Completed { task_id });
            proof {
                self.history@ = h.push(TaskEvent::Completed { task_id });
                lemma_emit_keeps_order(h, TaskEvent::Completed { task_id });
                lemma_emit_keeps_suffix(h, e, TaskEvent::Completed { task_id });
            }
        }
    }

    /// Drop the task's running record; bookkeeping only, as for the
    /// synchronous executor — the task's spawned body is not interrupted.
    /// Fails with a task-not-found error when no record exists.
    pub fn cancel_task(&mut self, task_id: u32) -> (r: Result<(), TaskMasterError>)
        requires
            old(self).wf(),
        ensures
            final(self).wf(),
            final(self)@.timeout == old(self)@.timeout,
            final(self)@.capacity == old(self)@.capacity,
            final(self)@.closed == old(self)@.closed,
            final(self)@.events == old(self)@.events,
            final(self)@.history == old(self)@.history,
            r is Ok <==> has_id(old(self)@.running, task_id),
            r matches Err(e) ==> e == TaskMasterError::TaskNotFound(task_id) && final(self)@
                == old(self)@,
            !has_id(final(self)@.running, task_id),
            forall|x: u32|
                x != task_id ==> (has_id(final(self)@.running, x) <==> has_id(
                    old(self)@.running,
                    x,
                )),
            forall|x: u32|
                x != task_id && has_id(old(self)@.running, x) ==> instant_of(
                    final(self)@.running,
                    x,
                ) == instant_of(old(self)@.running, x),
    {
        let found = self.running_tasks.remove(task_id);
        if found {
            Ok(())
        } else {
            proof {
                assert(self@ =~= old(self)@);
            }
            Err(TaskMasterError::TaskNotFound(task_id))
        }
    }

    /// Evict, and report in record order, every task running for more than
    /// the configured timeout as of instant `now`; a destructive read, as
    /// for the synchronous executor.
    pub fn check_timeouts_at(&mut self, now: u64) -> (expired: Vec<u32>)
        requires
            old(self).wf(),
        ensures
            final(self).wf(),
            final(self)@.timeout == old(self)@.timeout,
            final(self)@.capacity == old(self)@.capacity,
            final(self)@.closed == old(self)@.closed,
            final(self)@.events == old(self)@.events,
            final(self)@.history == old(self)@.history,
            timeouts_checked(
                old(self)@.running,
                final(self)@.running,
                expired@,
                old(self)@.timeout,
                now,
            ),
    {
        self.running_tasks.evict_timed_out(now, self.timeout)
    }

    /// Evict and report every overdue task, measured against the current
    /// instant; see [`Self::check_timeouts_at`].
    pub fn check_timeouts(&mut self) -> (expired: Vec<u32>)
        requires
            old(self).wf(),
        ensures
            final(self).wf(),
            final(self)@.timeout == old(self)@.timeout,
            final(self)@.capacity == old(self)@.capacity,
            final(self)@.closed == old(self)@.closed,
            final(self)@.events == old(self)@.events,
            final(self)@.history == old(self)@.history,
            exists|now: u64|
                #[trigger] timeouts_checked(
                    old(self)@.running,
                    final(self)@.running,
                    expired@,
                    old(self)@.timeout,
                    now,
                ),
    {
        let now = now_millis();
        let expired = self.check_timeouts_at(now);
        proof {
            assert(timeouts_checked(
                old(self)@.running,
                final(self)@.running,
                expired@,
                old(self)@.timeout,
                now,
            ));
        }
        expired
    }

    /// The next pending lifecycle event, oldest first, or nothing when
    /// none is pending. In the cooperative runtime this call suspends
    /// while the stream is open and empty; an exhausted return with the
    /// stream closed is the stream's end.
    pub fn next_event(&mut self) -> (r: Option<TaskEvent>)
        requires
            old(self).wf(),
        ensures
            final(self).wf(),
            old(self)@.events.len() == 0 ==> r is None && final(self)@ == old(self)@,
            old(self)@.events.len() > 0 ==> r == Some(old(self)@.events[0]) && final(self)@
                == (AsyncExecutorView { events: old(self)@.events.drop_first(), ..old(self)@ }),
    {
        if self.events.len() == 0 {
            proof {
                assert(self@ =~= old(self)@);
            }
            return None;
        }
        let ev = self.events.remove(0);
        proof {
            assert(self@.events =~= old(self)@.events.drop_first());
            assert(self@ =~= (AsyncExecutorView {
                events: old(self)@.events.drop_first(),
                ..old(self)@
            }));
            lemma_consume_keeps_suffix(old(self)@.history, old(self)@.events);
        }
        Some(ev)
    }

    /// Close the event stream: later emissions are refused (submissions)
    /// or swallowed (spawned bodies), and once drained the stream ends.
    pub fn close_events(&mut self)
        requires
            old(self).wf(),
        ensures
            final(self).wf(),
            final(self)@ == (AsyncExecutorView { closed: true, ..old(self)@ }),
    {
        self.closed = true;
        proof {
            assert(self@ =~= (AsyncExecutorView { closed: true, ..old(self)@ }));
        }
    }

    /// Whether the event stream has been closed. Together with an empty
    /// pending queue this is the stream's end: closed and fully drained,
    /// nothing can arrive anymore.
    pub fn is_closed(&self) -> (r: bool)
        ensures
            r == self@.closed,
    {
        self.closed
    }

    /// Whether the task is currently counted as running.
    pub fn is_task_running(&self, task_id: u32) -> (r: bool)
        ensures
            r == has_id(self@.running, task_id),
    {
        self.running_tasks.contains(task_id)
    }
}

/// Event-stream law: in a well-formed executor the emission history is
/// ordered — within one task's lifecycle, its `Started` event precedes
/// any terminal event for the same identifier — and the pending events
/// are exactly the not-yet-consumed tail of that history, so events are
/// yielded in emission order and a task's `Started` is yielded before
/// its terminal event.
pub proof fn lemma_event_stream_ordered(e: AsyncTaskExecutor)
    requires
        e.wf(),
    ensures
        events_well_ordered(e@.history),
        e@.events == e@.history.subrange(e@.history.len() - e@.events.len(), e@.history.len() as int),
{
}

} // verus!
