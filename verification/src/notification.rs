//! The notification hub: the single consumer of an executor's event
//! stream. It keeps named observers in registration order, fans each
//! event out to all of them, and separately tracks per-task deadlines,
//! synthesizing a `Timeout` event — at most once per task — when a
//! deadline elapses with no `Completed` event.
//!
//! This is the hub's decision core, verified for every event and tick.
//! The event loop itself — waiting on the stream, racing it against a
//! periodic tick, and invoking the observers' callbacks — lives in the
//! surrounding program: callbacks are arbitrary code, which no contract
//! could describe, so the core hands back, for each event, the names of
//! the observers to invoke, in order.

use vstd::prelude::*;

use crate::async_executor::TaskEvent;
use crate::instants::{has_id, instant_of, spec_due, InstantMap};

verus! {

/// Mathematical image of a [`NotificationSystem`]: observer names in
/// registration order, and the tracked (task, deadline) records.
#[verifier::ext_equal]
pub struct HubView {
    pub callbacks: Seq<Seq<char>>,
    pub deadlines: Seq<(u32, u64)>,
}

/// The deadline tracked for `id` (meaningful only when present).
pub open spec fn deadline_of(s: Seq<(u32, u64)>, id: u32) -> u64 {
    instant_of(s, id)
}

/// The synthetic events one deadline sweep at `now` produces: a `Timeout`
/// for every tracked task whose deadline is at or before `now`, in
/// tracking order.
pub open spec fn due_timeouts(deadlines: Seq<(u32, u64)>, now: u64) -> Seq<TaskEvent> {
    deadlines.filter(|e: (u32, u64)| spec_due(e.1, now)).map_values(
        |e: (u32, u64)| TaskEvent::Timeout { task_id: e.0 },
    )
}

/// Single-consumer event loop state: named observers and tracked deadlines.
pub struct NotificationSystem {
    callbacks: Vec<String>,
    deadlines: InstantMap,
}

impl View for NotificationSystem {
    type V = HubView;

    closed spec fn view(&self) -> HubView {
        HubView {
            callbacks: self.callbacks@.map_values(|s: String| s@),
            deadlines: self.deadlines@,
        }
    }
}

impl NotificationSystem {
    /// Observer names are unique; deadlines hold one record per task.
    pub closed spec fn wf(&self) -> bool {
        &&& self@.callbacks.no_duplicates()
        &&& self.deadlines.wf()
    }

    /// A fresh hub with no observers and no tracked deadlines.
    pub fn new() -> (h: NotificationSystem)
        ensures
            h.wf(),
            h@.callbacks == Seq::<Seq<char>>::empty(),
            h@.deadlines == Seq::<(u32, u64)>::empty(),
    {
        let h = NotificationSystem { callbacks: Vec::new(), deadlines: InstantMap::new() };
        proof {
            assert(h@.callbacks =~= Seq::<Seq<char>>::empty());
        }
        h
    }

    /// Register an observer under `name`. The last registration under a
    /// given name wins: the name keeps its original position in the
    /// invocation order, and the surrounding program replaces the callback
    /// it maps the name to.
    pub fn register_callback(&mut self, name: &str)
        requires
            old(self).wf(),
        ensures
            final(self).wf(),
            final(self)@.deadlines == old(self)@.deadlines,
            old(self)@.callbacks.contains(name@) ==> final(self)@.callbacks
                == old(self)@.callbacks,
            !old(self)@.callbacks.contains(name@) ==> final(self)@.callbacks
                == old(self)@.callbacks.push(name@),
    {
        let ghost cbs = self@.callbacks;
        let n = self.callbacks.len();
        let mut i: usize = 0;
        while i < n
            invariant
                i <= n,
                n == self.callbacks@.len(),
                self@ == old(self)@,
                old(self).wf(),
                cbs == self.callbacks@.map_values(|s: String| s@),
                forall|j: int| 0 <= j < i ==> cbs[j] != name@,
            decreases n - i,
        {
            let existing: &str = self.callbacks[i].as_str();
            if str_eq(existing, name) {
                proof {
                    assert(cbs[i as int] == self.callbacks@[i as int]@);
                    assert(self@.callbacks.contains(name@));
                }
                return ;
            }
            proof {
                assert(cbs[i as int] == self.callbacks@[i as int]@);
            }
            i += 1;
        }
        proof {
            if cbs.contains(name@) {
                let k = choose|k: int| 0 <= k < cbs.len() && cbs[k] == name@;
            }
            assert(!cbs.contains(name@));
        }
        let ghost before = self.callbacks@;
        self.callbacks.push(name.to_owned());
        proof {
            assert(self@.callbacks =~= cbs.push(name@));
            lemma_push_name_no_dup(cbs, name@);
        }
    }

    /// Remove the observer registered under `name`; reports whether one
    /// was registered. The others keep their order.
    pub fn unregister_callback(&mut self, name: &str) -> (found: bool)
        requires
            old(self).wf(),
        ensures
            final(self).wf(),
            final(self)@.deadlines == old(self)@.deadlines,
            found == old(self)@.callbacks.contains(name@),
            !found ==> final(self)@.callbacks == old(self)@.callbacks,
            found ==> final(self)@.callbacks == old(self)@.callbacks.remove_value(name@),
            !final(self)@.callbacks.contains(name@),
    {
        let ghost cbs = self@.callbacks;
        let n = self.callbacks.len();
        let mut i: usize = 0;
        while i < n
            invariant
                i <= n,
                n == self.callbacks@.len(),
                cbs == self.callbacks@.map_values(|s: String| s@),
                cbs == old(self)@.callbacks,
                self@.deadlines == old(self)@.deadlines,
                old(self).wf(),
                forall|j: int| 0 <= j < i ==> cbs[j] != name@,
            decreases n - i,
        {
            let existing: &str = self.callbacks[i].as_str();
            proof {
                assert(cbs[i as int] == self.callbacks@[i as int]@);
            }
            if str_eq(existing, name) {
                let ghost k = i as int;
                self.callbacks.remove(i);
                proof {
                    assert(self@.callbacks =~= cbs.remove(k));
                    cbs.index_of_first_ensures(name@);
                    assert(cbs.index_of_first(name@) == Some(k));
                    assert(cbs.remove_value(name@) == cbs.remove(k));
                    assert forall|k1: int, k2: int|
                        0 <= k1 < self@.callbacks.len() && 0 <= k2 < self@.callbacks.len() && k1
                            != k2 implies self@.callbacks[k1] != self@.callbacks[k2] by {
                        let l1: int = if k1 < k {
                            k1
                        } else {
                            k1 + 1
                        };
                        let l2: int = if k2 < k {
                            k2
                        } else {
                            k2 + 1
                        };
                        assert(self@.callbacks[k1] == cbs[l1] && self@.callbacks[k2] == cbs[l2]);
                    }
                    assert(!self@.callbacks.contains(name@)) by {
                        if self@.callbacks.contains(name@) {
                            let j = choose|j: int|
                                0 <= j < self@.callbacks.len() && self@.callbacks[j] == name@;
                            let l: int = if j < k {
                                j
                            } else {
                                j + 1
                            };
                            assert(self@.callbacks[j] == cbs[l]);
                            assert(cbs[l] == name@ && cbs[k] == name@ && l != k);
                        }
                    }
                }
                return true;
            }
            i += 1;
        }
        proof {
            if cbs.contains(name@) {
                let k = choose|k: int| 0 <= k < cbs.len() && cbs[k] == name@;
            }
            assert(!cbs.contains(name@));
        }
        false
    }

    /// The registered observer names, in invocation order.
    pub fn callback_names(&self) -> (names: Vec<String>)
        ensures
            names@.map_values(|s: String| s@) == self@.callbacks,
    {
        let n = self.callbacks.len();
        let mut names: Vec<String> = Vec::new();
        let mut i: usize = 0;
        while i < n
            invariant
                i <= n,
                n == self.callbacks@.len(),
                names@.len() == i,
                forall|j: int| 0 <= j < i ==> (#[trigger] names@[j])@ == self.callbacks@[j]@,
            decreases n - i,
        {
            names.push(self.callbacks[i].clone());
            i += 1;
        }
        proof {
            assert(names@.map_values(|s: String| s@) =~= self@.callbacks);
        }
        names
    }

    /// Track (or move) the deadline for a task; a later `Completed` event
    /// for the task, or one synthetic `Timeout`, removes it again.
    pub fn track_deadline(&mut self, task_id: u32, deadline: u64)
        requires
            old(self).wf(),
        ensures
            final(self).wf(),
            final(self)@.callbacks == old(self)@.callbacks,
            has_id(final(self)@.deadlines, task_id),
            deadline_of(final(self)@.deadlines, task_id) == deadline,
            forall|x: u32|
                x != task_id ==> (has_id(final(self)@.deadlines, x) <==> has_id(
                    old(self)@.deadlines,
                    x,
                )),
            forall|x: u32|
                x != task_id && has_id(old(self)@.deadlines, x) ==> deadline_of(
                    final(self)@.deadlines,
                    x,
                ) == deadline_of(old(self)@.deadlines, x),
    {
        self.deadlines.insert(task_id, deadline);
    }

    /// React to one lifecycle event: a `Completed` event stops tracking
    /// its task's deadline, pre-empting any later synthetic `Timeout`;
    /// every event is then to be delivered to all observers, whose names
    /// are returned in invocation order.
    pub fn handle_event(&mut self, event: &TaskEvent) -> (deliveries: Vec<String>)
        requires
            old(self).wf(),
        ensures
            final(self).wf(),
            final(self)@.callbacks == old(self)@.callbacks,
            deliveries@.map_values(|s: String| s@) == old(self)@.callbacks,
            match event {
                TaskEvent::Completed { task_id } => {
                    &&& !has_id(final(self)@.deadlines, *task_id)
                    &&& forall|x: u32|
                        x != *task_id ==> (has_id(final(self)@.deadlines, x) <==> has_id(
                            old(self)@.deadlines,
                            x,
                        ))
                    &&& forall|x: u32|
                        x != *task_id && has_id(old(self)@.deadlines, x) ==> deadline_of(
                            final(self)@.deadlines,
                            x,
                        ) == deadline_of(old(self)@.deadlines, x)
                },
                _ => final(self)@.deadlines == old(self)@.deadlines,
            },
    {
        if let TaskEvent::Completed { task_id } = event {
            self.deadlines.remove(*task_id);
        }
        self.callback_names()
    }

    /// One periodic tick at instant `now`: every tracked deadline at or
    /// before `now` is dropped — so each produces its `Timeout` at most
    /// once — and the synthetic `Timeout` events to deliver to all
    /// observers are returned, in tracking order.
    pub fn handle_tick(&mut self, now: u64) -> (timeouts: Vec<TaskEvent>)
        requires
            old(self).wf(),
        ensures
            final(self).wf(),
            final(self)@.callbacks == old(self)@.callbacks,
            timeouts@ == due_timeouts(old(self)@.deadlines, now),
            final(self)@.deadlines == old(self)@.deadlines.filter(
                |e: (u32, u64)| !spec_due(e.1, now),
            ),
    {
        let due = self.deadlines.evict_due(now);
        let mut timeouts: Vec<TaskEvent> = Vec::new();
        let n = due.len();
        let mut i: usize = 0;
        while i < n
            invariant
                i <= n,
                n == due@.len(),
                timeouts@.len() == i,
                forall|j: int|
                    0 <= j < i ==> #[trigger] timeouts@[j] == (TaskEvent::Timeout {
                        task_id: due@[j],
                    }),
            decreases n - i,
        {
            timeouts.push(TaskEvent::Timeout { task_id: due[i] });
            i += 1;
        }
        proof {
            let p = |e: (u32, u64)| spec_due(e.1, now);
            let expired = old(self)@.deadlines.filter(p);
            assert(due@ == expired.map_values(|e: (u32, u64)| e.0));
            assert(timeouts@ =~= due_timeouts(old(self)@.deadlines, now));
        }
        timeouts
    }
}

/// A well-formed hub keeps its observer names unique and at most one
/// tracked deadline per task identifier; callers get these facts here,
/// in the form the hub's own laws expect.
pub proof fn lemma_hub_invariants(h: NotificationSystem)
    requires
        h.wf(),
    ensures
        h@.callbacks.no_duplicates(),
        forall|k1: int, k2: int|
            0 <= k1 < k2 < h@.deadlines.len() ==> (#[trigger] h@.deadlines[k1]).0 != (
            #[trigger] h@.deadlines[k2]).0,
{
}

/// Appending a fresh name keeps the list of observer names unique.
proof fn lemma_push_name_no_dup(s: Seq<Seq<char>>, x: Seq<char>)
    requires
        s.no_duplicates(),
        !s.contains(x),
    ensures
        s.push(x).no_duplicates(),
{
    let q = s.push(x);
    assert forall|i: int, j: int|
        0 <= i < q.len() && 0 <= j < q.len() && i != j implies q[i] != q[j] by {
        if i < s.len() && j < s.len() {
            assert(q[i] == s[i] && q[j] == s[j]);
        } else if i < s.len() {
            assert(q[j] == x && q[i] == s[i]);
            assert(s.contains(s[i]));
        } else {
            assert(q[i] == x && q[j] == s[j]);
            assert(s.contains(s[j]));
        }
    }
}

/// Whether two strings hold the same characters.
fn str_eq(a: &str, b: &str) -> (r: bool)
    ensures
        r == (a@ == b@),
{
    let sa = a.to_owned();
    let sb = b.to_owned();
    sa.eq(&sb)
}

/// Once a task's deadline is no longer tracked — because a `Completed`
/// event arrived before it, or a synthetic `Timeout` was already produced
/// — no later tick produces a `Timeout` for that task.
pub proof fn lemma_untracked_task_never_times_out(deadlines: Seq<(u32, u64)>, id: u32, now: u64)
    requires
        !has_id(deadlines, id),
    ensures
        forall|j: int|
            0 <= j < due_timeouts(deadlines, now).len() ==> (#[trigger] due_timeouts(
                deadlines,
                now,
            )[j]).spec_task_id() != id,
{
    let p = |e: (u32, u64)| spec_due(e.1, now);
    let expired = deadlines.filter(p);
    let evs = due_timeouts(deadlines, now);
    assert forall|j: int| 0 <= j < evs.len() implies (#[trigger] evs[j]).spec_task_id() != id by {
        assert(evs[j] == (TaskEvent::Timeout { task_id: expired[j].0 }));
        crate::instants::lemma_filter_element_of(deadlines, p, j);
        let k = choose|k: int| 0 <= k < deadlines.len() && deadlines[k] == expired[j];
        assert(deadlines[k].0 == expired[j].0);
        if expired[j].0 == id {
            assert(has_id(deadlines, id));
        }
    }
}

/// A task tracked with a deadline at or before `now`, and not completed
/// before the tick, gets exactly one synthetic `Timeout` at that tick:
/// the tick's output names it exactly once, and afterwards the task is no
/// longer tracked, so no later tick can name it again.
pub proof fn lemma_due_task_times_out_once(deadlines: Seq<(u32, u64)>, id: u32, now: u64)
    requires
        forall|k1: int, k2: int|
            0 <= k1 < k2 < deadlines.len() ==> (#[trigger] deadlines[k1]).0 != (
            #[trigger] deadlines[k2]).0,
        has_id(deadlines, id),
        spec_due(instant_of(deadlines, id), now),
    ensures
        exists|j: int|
            0 <= j < due_timeouts(deadlines, now).len() && (#[trigger] due_timeouts(
                deadlines,
                now,
            )[j]).spec_task_id() == id,
        forall|j1: int, j2: int|
            0 <= j1 < j2 < due_timeouts(deadlines, now).len() ==> (#[trigger] due_timeouts(
                deadlines,
                now,
            )[j1]).spec_task_id() != (#[trigger] due_timeouts(deadlines, now)[j2]).spec_task_id(),
        !has_id(deadlines.filter(|e: (u32, u64)| !spec_due(e.1, now)), id),
{
    let p = |e: (u32, u64)| spec_due(e.1, now);
    let q = |e: (u32, u64)| !spec_due(e.1, now);
    let expired = deadlines.filter(p);
    let evs = due_timeouts(deadlines, now);
    let k = choose|k: int| 0 <= k < deadlines.len() && (#[trigger] deadlines[k]).0 == id;
    assert(instant_of(deadlines, id) == deadlines[k].1) by {
        let k2 = choose|k2: int| 0 <= k2 < deadlines.len() && (#[trigger] deadlines[k2]).0 == id;
        assert(deadlines[k2].0 == id && deadlines[k].0 == id);
        if k2 != k {
            assert(false);
        }
    }
    assert(p(deadlines[k]));
    deadlines.lemma_filter_contains(p, k);
    assert(expired.contains(deadlines[k]));
    let j = choose|j: int| 0 <= j < expired.len() && expired[j] == deadlines[k];
    assert(evs[j] == (TaskEvent::Timeout { task_id: deadlines[k].0 }));
    assert((evs[j]).spec_task_id() == id);
    crate::instants::lemma_filter_keeps_unique_keys(deadlines, p);
    assert forall|j1: int, j2: int|
        0 <= j1 < j2 < evs.len() implies (#[trigger] evs[j1]).spec_task_id() != (
    #[trigger] evs[j2]).spec_task_id() by {
        assert(evs[j1] == (TaskEvent::Timeout { task_id: expired[j1].0 }));
        assert(evs[j2] == (TaskEvent::Timeout { task_id: expired[j2].0 }));
        assert(expired[j1].0 != expired[j2].0);
    }
    assert(!has_id(deadlines.filter(q), id)) by {
        if has_id(deadlines.filter(q), id) {
            let jq = choose|jq: int|
                0 <= jq < deadlines.filter(q).len() && (#[trigger] deadlines.filter(q)[jq]).0 == id;
            crate::instants::lemma_filter_element_of(deadlines, q, jq);
            let kq = choose|kq: int|
                0 <= kq < deadlines.len() && deadlines[kq] == deadlines.filter(q)[jq];
            assert(deadlines[kq].0 == id && deadlines[k].0 == id);
            assert(kq == k);
            deadlines.lemma_filter_pred(q, jq);
            assert(q(deadlines[k]));
            assert(p(deadlines[k]));
        }
    }
}

} // verus!
