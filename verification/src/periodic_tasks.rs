//! The recurrence engine: periodic task templates with a recurrence
//! pattern, materialized into concrete tasks when due. All instants are
//! plain milliseconds; the monthly pattern is a calendar-naive thirty-day
//! approximation, kept deliberately.

use vstd::prelude::*;
use vstd::string::StringExecFns;

use crate::clock::{local_date_of, now_millis};
use crate::task::{Task, TaskView};
use crate::text::{decimal_of, u32_to_string};

verus! {

/// How often a periodic task recurs. The custom variant carries a period
/// in milliseconds.
#[derive(Debug, Clone, Copy, PartialEq, Eq, Structural)]
pub enum RecurrencePattern {
    Daily,
    Weekly,
    Monthly,
    Custom(u64),
}

/// The period of a pattern, in milliseconds: a day, a week, thirty days
/// (a calendar-naive approximation of a month), or the custom period.
pub open spec fn pattern_millis(p: RecurrencePattern) -> u64 {
    match p {
        RecurrencePattern::Daily => 86400000u64,
        RecurrencePattern::Weekly => 604800000u64,
        RecurrencePattern::Monthly => 2592000000u64,
        RecurrencePattern::Custom(ms) => ms,
    }
}

/// Saturating addition of instants: a sum past the largest representable
/// instant clamps there.
pub open spec fn sat_add(a: u64, b: u64) -> u64 {
    if a + b > u64::MAX {
        u64::MAX
    } else {
        (a + b) as u64
    }
}

/// The title of a generated occurrence: the template title, the occurrence
/// number and the generation date.
pub open spec fn occurrence_title(base: Seq<char>, occurrence: int, date: Seq<char>) -> Seq<char> {
    base + " (#"@ + decimal_of(occurrence as nat) + " on "@ + date + ")"@
}

impl RecurrencePattern {
    /// The period of this pattern, in milliseconds.
    pub fn period_millis(&self) -> (ms: u64)
        ensures
            ms == pattern_millis(*self),
    {
        match self {
            RecurrencePattern::Daily => 86400000,
            RecurrencePattern::Weekly => 604800000,
            RecurrencePattern::Monthly => 2592000000,
            RecurrencePattern::Custom(ms) => *ms,
        }
    }

    /// The next occurrence after the instant `current`: one period later
    /// (clamped at the largest representable instant).
    pub fn get_next_occurrence(&self, current: u64) -> (next: u64)
        ensures
            next == sat_add(current, pattern_millis(*self)),
    {
        let ms = self.period_millis();
        if current > u64::MAX - ms {
            u64::MAX
        } else {
            current + ms
        }
    }
}

/// Mathematical image of a [`PeriodicTask`].
#[verifier::ext_equal]
pub struct PeriodicTaskView {
    pub id: u32,
    pub template: TaskView,
    pub pattern: RecurrencePattern,
    pub created_at: u64,
    pub last_run: Option<u64>,
    pub next_run: u64,
    pub occurrences: u32,
}

/// A recurring task template with its schedule state.
#[derive(Debug)]
pub struct PeriodicTask {
    pub id: u32,
    pub template: Task,
    pub pattern: RecurrencePattern,
    /// Instant the periodic task was created, in milliseconds.
    pub created_at: u64,
    /// Instant an occurrence was last generated, if ever.
    pub last_run: Option<u64>,
    /// Instant the next occurrence falls due.
    pub next_run: u64,
    /// How many occurrences have been generated.
    pub occurrences: u32,
}

impl View for PeriodicTask {
    type V = PeriodicTaskView;

    open spec fn view(&self) -> PeriodicTaskView {
        PeriodicTaskView {
            id: self.id,
            template: self.template@,
            pattern: self.pattern,
            created_at: self.created_at,
            last_run: self.last_run,
            next_run: self.next_run,
            occurrences: self.occurrences,
        }
    }
}

impl Clone for PeriodicTask {
    fn clone(&self) -> (r: Self)
        ensures
            r@ == self@,
    {
        PeriodicTask {
            id: self.id,
            template: self.template.clone(),
            pattern: self.pattern,
            created_at: self.created_at,
            last_run: self.last_run,
            next_run: self.next_run,
            occurrences: self.occurrences,
        }
    }
}

impl PeriodicTask {
    /// A fresh periodic task created at instant `now`: never run, first
    /// due one period after `now`.
    pub fn new_at(id: u32, template: Task, pattern: RecurrencePattern, now: u64) -> (p:
        PeriodicTask)
        ensures
            p.id == id,
            p.template == template,
            p.pattern == pattern,
            p.created_at == now,
            p.last_run is None,
            p.next_run == sat_add(now, pattern_millis(pattern)),
            p.occurrences == 0,
    {
        let next_run = pattern.get_next_occurrence(now);
        PeriodicTask {
            id,
            template,
            pattern,
            created_at: now,
            last_run: None,
            next_run,
            occurrences: 0,
        }
    }

    /// A fresh periodic task created at the current instant; see
    /// [`Self::new_at`].
    pub fn new(id: u32, template: Task, pattern: RecurrencePattern) -> (p: PeriodicTask)
        ensures
            p.id == id,
            p.template == template,
            p.pattern == pattern,
            p.last_run is None,
            p.next_run == sat_add(p.created_at, pattern_millis(pattern)),
            p.occurrences == 0,
    {
        let now = now_millis();
        Self::new_at(id, template, pattern, now)
    }

    /// Whether the next occurrence has fallen due by instant `now`.
    pub fn is_due_at(&self, now: u64) -> (r: bool)
        ensures
            r == (now >= self.next_run),
    {
        now >= self.next_run
    }

    /// Whether the next occurrence has fallen due at the current instant:
    /// for some clock reading, exactly whether that reading has reached
    /// the scheduled next run.
    pub fn is_due(&self) -> (r: bool)
        ensures
            exists|now: u64| r == #[trigger] crate::instants::spec_due(self.next_run, now),
    {
        let now = now_millis();
        let r = self.is_due_at(now);
        proof {
            assert(r == crate::instants::spec_due(self.next_run, now));
        }
        r
    }

    /// Generate the due occurrence at instant `now`, dated `date`, in one
    /// step: the last run becomes `now`, the next run moves one period
    /// past `now`, the occurrence counter advances, and the returned
    /// concrete task derives its identifier from the template identifier
    /// and the new occurrence count, its title from the template title,
    /// the occurrence number and the date, and copies the template's
    /// status and priority.
    pub fn generate_task_at(&mut self, now: u64, date: &str) -> (t: Task)
        requires
            old(self).occurrences < u32::MAX,
            old(self).template.id * 1000 + old(self).occurrences + 1 <= u32::MAX,
        ensures
            *final(self) == (PeriodicTask {
                last_run: Some(now),
                next_run: sat_add(now, pattern_millis(old(self).pattern)),
                occurrences: (old(self).occurrences + 1) as u32,
                ..*old(self)
            }),
            t.id == old(self).template.id * 1000 + old(self).occurrences + 1,
            t.title@ == occurrence_title(
                old(self).template.title@,
                old(self).occurrences + 1,
                date@,
            ),
            t.status == old(self).template.status,
            t.priority == old(self).template.priority,
            t.dependencies is None,
    {
        self.last_run = Some(now);
        self.next_run = self.pattern.get_next_occurrence(now);
        self.occurrences = self.occurrences + 1;

        let occurrence_id = self.template.id * 1000 + self.occurrences;
        let mut title = self.template.title.clone();
        title.append(" (#");
        title.append(u32_to_string(self.occurrences).as_str());
        title.append(" on ");
        title.append(date);
        title.append(")");
        let t = Task::new(occurrence_id, title, self.template.status, self.template.priority);
        proof {
            assert(t.title@ == occurrence_title(
                old(self).template.title@,
                old(self).occurrences + 1,
                date@,
            ));
        }
        t
    }

    /// Generate the due occurrence at the current instant, dated by the
    /// local calendar; see [`Self::generate_task_at`] for the exact
    /// per-instant contract.
    pub fn generate_task(&mut self) -> (t: Task)
        requires
            old(self).occurrences < u32::MAX,
            old(self).template.id * 1000 + old(self).occurrences + 1 <= u32::MAX,
        ensures
            exists|now: u64, date: Seq<char>|
                #[trigger] generated_at(*old(self), *final(self), t, now, date),
    {
        let now = now_millis();
        let date = local_date_of(now / 1000);
        let t = self.generate_task_at(now, date.as_str());
        proof {
            assert(generated_at(*old(self), *final(self), t, now, date@));
        }
        t
    }
}

/// The relation [`PeriodicTask::generate_task_at`] establishes between the
/// schedule state before and after generating at instant `now` dated
/// `date`, and the generated task.
pub open spec fn generated_at(
    pre: PeriodicTask,
    post: PeriodicTask,
    t: Task,
    now: u64,
    date: Seq<char>,
) -> bool {
    &&& post == (PeriodicTask {
        last_run: Some(now),
        next_run: sat_add(now, pattern_millis(pre.pattern)),
        occurrences: (pre.occurrences + 1) as u32,
        ..pre
    })
    &&& t.id == pre.template.id * 1000 + pre.occurrences + 1
    &&& t.title@ == occurrence_title(pre.template.title@, pre.occurrences + 1, date)
    &&& t.status == pre.template.status
    &&& t.priority == pre.template.priority
    &&& t.dependencies is None
}

/// Recurrence law: a periodic task on a daily pattern, generated at
/// instant `now`, schedules its next run exactly one day later and counts
/// one occurrence; a second generation at the scheduled instant counts a
/// second occurrence, schedules a further day, and the two generated
/// tasks carry distinct derived identifiers.
pub proof fn lemma_daily_generation(
    p0: PeriodicTask,
    p1: PeriodicTask,
    p2: PeriodicTask,
    t1: Task,
    t2: Task,
    start: u64,
    d1: Seq<char>,
    d2: Seq<char>,
)
    requires
        p0.pattern == RecurrencePattern::Daily,
        p0.occurrences == 0,
        p0.template.id * 1000 + 2 <= u32::MAX,
        start + 2 * 86400000 <= u64::MAX,
        generated_at(p0, p1, t1, start, d1),
        generated_at(p1, p2, t2, p1.next_run, d2),
    ensures
        p1.next_run == start + 86400000,
        p1.occurrences == 1,
        t1.id == p0.template.id * 1000 + 1,
        p2.next_run == start + 2 * 86400000,
        p2.occurrences == 2,
        t2.id == p0.template.id * 1000 + 2,
        t1.id != t2.id,
{
}

/// The predicate selecting the periodic tasks due by instant `now`.
pub open spec fn due_pred(now: u64) -> spec_fn(PeriodicTask) -> bool {
    |p: PeriodicTask| now >= p.next_run
}

/// Whether some periodic task in `s` carries the identifier `id`.
pub open spec fn sched_has(s: Seq<PeriodicTask>, id: u32) -> bool {
    exists|k: int| 0 <= k < s.len() && (#[trigger] s[k]).id == id
}

/// Whether position `i` holds the first periodic task carrying `id`.
pub open spec fn is_first_periodic(s: Seq<PeriodicTask>, id: u32, i: int) -> bool {
    &&& 0 <= i < s.len()
    &&& s[i].id == id
    &&& forall|j: int| 0 <= j < i ==> (#[trigger] s[j]).id != id
}

/// The generated concrete task for one due periodic task.
pub open spec fn gen_matches(pre: PeriodicTask, t: Task, now: u64, date: Seq<char>) -> bool {
    &&& t.id == pre.template.id * 1000 + pre.occurrences + 1
    &&& t.title@ == occurrence_title(pre.template.title@, pre.occurrences + 1, date)
    &&& t.status == pre.template.status
    &&& t.priority == pre.template.priority
    &&& t.dependencies is None
}

/// The advanced schedule state of one due periodic task.
pub open spec fn advanced_at(pre: PeriodicTask, now: u64) -> PeriodicTask {
    PeriodicTask {
        last_run: Some(now),
        next_run: sat_add(now, pattern_millis(pre.pattern)),
        occurrences: (pre.occurrences + 1) as u32,
        ..pre
    }
}

/// The relation one sweep of [`PeriodicTaskScheduler::generate_due_tasks_at`]
/// establishes: due tasks advance, the others are untouched, and the batch
/// holds one generated task per due task, in visiting (insertion) order.
pub open spec fn sweep_generated(
    pre: Seq<PeriodicTask>,
    post: Seq<PeriodicTask>,
    batch: Seq<Task>,
    now: u64,
    date: Seq<char>,
) -> bool {
    &&& post.len() == pre.len()
    &&& forall|i: int|
        0 <= i < pre.len() && !due_pred(now)(#[trigger] pre[i]) ==> post[i] == pre[i]
    &&& forall|i: int|
        0 <= i < pre.len() && due_pred(now)(#[trigger] pre[i]) ==> post[i] == advanced_at(
            pre[i],
            now,
        )
    &&& batch.len() == pre.filter(due_pred(now)).len()
    &&& forall|j: int|
        0 <= j < batch.len() ==> gen_matches(
            pre.filter(due_pred(now))[j],
            #[trigger] batch[j],
            now,
            date,
        )
}

/// An ordered collection of periodic tasks, visited in insertion order.
pub struct PeriodicTaskScheduler {
    tasks: Vec<PeriodicTask>,
}

impl View for PeriodicTaskScheduler {
    type V = Seq<PeriodicTask>;

    closed spec fn view(&self) -> Seq<PeriodicTask> {
        self.tasks@
    }
}

impl PeriodicTaskScheduler {
    /// A fresh, empty scheduler.
    pub fn new() -> (s: PeriodicTaskScheduler)
        ensures
            s@ == Seq::<PeriodicTask>::empty(),
    {
        PeriodicTaskScheduler { tasks: Vec::new() }
    }

    /// Append a periodic task; it will be visited after the existing ones.
    pub fn add_task(&mut self, task: PeriodicTask)
        ensures
            final(self)@ == old(self)@.push(task),
    {
        self.tasks.push(task);
    }

    /// Remove and return the first periodic task carrying `id`, if any.
    pub fn remove_task(&mut self, id: u32) -> (r: Option<PeriodicTask>)
        ensures
            r is Some <==> sched_has(old(self)@, id),
            r is None ==> final(self)@ == old(self)@,
            r matches Some(t) ==> exists|i: int|
                {
                    &&& #[trigger] is_first_periodic(old(self)@, id, i)
                    &&& t == old(self)@[i]
                    &&& final(self)@ == old(self)@.remove(i)
                },
    {
        let ghost s = self@;
        let n = self.tasks.len();
        let mut i: usize = 0;
        while i < n
            invariant
                i <= n,
                n == self@.len(),
                self@ == s,
                s == old(self)@,
                forall|j: int| 0 <= j < i ==> (#[trigger] s[j]).id != id,
            decreases n - i,
        {
            if self.tasks[i].id == id {
                let t = self.tasks.remove(i);
                proof {
                    assert(is_first_periodic(s, id, i as int));
                }
                return Some(t);
            }
            i += 1;
        }
        proof {
            if sched_has(s, id) {
                let k = choose|k: int| 0 <= k < s.len() && (#[trigger] s[k]).id == id;
            }
        }
        None
    }

    /// All periodic tasks, in insertion order.
    pub fn get_all_tasks(&self) -> (r: &[PeriodicTask])
        ensures
            r@ == self@,
    {
        self.tasks.as_slice()
    }

    /// The first periodic task carrying `id`, if any.
    pub fn get_task(&self, id: u32) -> (r: Option<&PeriodicTask>)
        ensures
            r is Some <==> sched_has(self@, id),
            r matches Some(t) ==> exists|i: int|
                #[trigger] is_first_periodic(self@, id, i) && *t == self@[i],
    {
        let n = self.tasks.len();
        let mut i: usize = 0;
        while i < n
            invariant
                i <= n,
                n == self@.len(),
                self@ == self.tasks@,
                forall|j: int| 0 <= j < i ==> (#[trigger] self@[j]).id != id,
            decreases n - i,
        {
            if self.tasks[i].id == id {
                proof {
                    assert(is_first_periodic(self@, id, i as int));
                }
                return Some(&self.tasks[i]);
            }
            i += 1;
        }
        proof {
            if sched_has(self@, id) {
                let k = choose|k: int| 0 <= k < self@.len() && (#[trigger] self@[k]).id == id;
            }
        }
        None
    }

    /// Move the scheduled next run of the first periodic task carrying
    /// `id`; reports whether one was found.
    pub fn set_next_run(&mut self, id: u32, next_run: u64) -> (found: bool)
        ensures
            found == sched_has(old(self)@, id),
            !found ==> final(self)@ == old(self)@,
            found ==> exists|i: int|
                {
                    &&& #[trigger] is_first_periodic(old(self)@, id, i)
                    &&& final(self)@ == old(self)@.update(
                        i,
                        (PeriodicTask { next_run: next_run, ..old(self)@[i] }),
                    )
                },
    {
        let ghost s = self@;
        let n = self.tasks.len();
        let mut i: usize = 0;
        while i < n
            invariant
                i <= n,
                n == self@.len(),
                self@ == s,
                s == old(self)@,
                forall|j: int| 0 <= j < i ==> (#[trigger] s[j]).id != id,
            decreases n - i,
        {
            if self.tasks[i].id == id {
                let mut t = self.tasks.remove(i);
                t.next_run = next_run;
                self.tasks.insert(i, t);
                proof {
                    assert(is_first_periodic(s, id, i as int));
                    assert(self@ =~= s.update(
                        i as int,
                        (PeriodicTask { next_run: next_run, ..s[i as int] }),
                    ));
                }
                return true;
            }
            i += 1;
        }
        proof {
            if sched_has(s, id) {
                let k = choose|k: int| 0 <= k < s.len() && (#[trigger] s[k]).id == id;
            }
        }
        false
    }

    /// Copies of the periodic tasks due by instant `now`, in insertion
    /// order.
    pub fn get_due_tasks_at(&self, now: u64) -> (r: Vec<PeriodicTask>)
        ensures
            r@.len() == self@.filter(due_pred(now)).len(),
            forall|j: int|
                0 <= j < r@.len() ==> (#[trigger] r@[j])@ == self@.filter(due_pred(now))[j]@,
    {
        let ghost s = self@;
        let ghost p = due_pred(now);
        let mut r: Vec<PeriodicTask> = Vec::new();
        let n = self.tasks.len();
        let mut i: usize = 0;
        proof {
            assert(s.subrange(0, 0).filter(p) =~= Seq::<PeriodicTask>::empty());
        }
        while i < n
            invariant
                i <= n,
                n == self@.len(),
                self@ == s,
                p == due_pred(now),
                r@.len() == s.subrange(0, i as int).filter(p).len(),
                forall|j: int|
                    0 <= j < r@.len() ==> (#[trigger] r@[j])@ == s.subrange(0, i as int).filter(
                        p,
                    )[j]@,
            decreases n - i,
        {
            proof {
                let pre = s.subrange(0, i as int);
                let one = s.subrange(i as int, i + 1);
                assert(one =~= seq![s[i as int]]);
                assert(pre + one =~= s.subrange(0, i + 1));
                Seq::filter_distributes_over_add(pre, one, p);
                crate::instants::lemma_filter_singleton(s[i as int], p);
            }
            if now >= self.tasks[i].next_run {
                proof {
                    assert(p(s[i as int]));
                }
                r.push(self.tasks[i].clone());
                proof {
                    let f1 = s.subrange(0, i + 1).filter(p);
                    assert(f1 =~= s.subrange(0, i as int).filter(p).push(s[i as int]));
                    assert(r@[r@.len() - 1]@ == f1[f1.len() - 1]@);
                }
            } else {
                proof {
                    assert(!p(s[i as int]));
                    assert(s.subrange(0, i + 1).filter(p) =~= s.subrange(0, i as int).filter(p));
                }
            }
            i += 1;
        }
        proof {
            assert(s.subrange(0, n as int) =~= s);
        }
        r
    }

    /// Copies of the periodic tasks due at the current instant; see
    /// [`Self::get_due_tasks_at`] for the exact per-instant contract.
    pub fn get_due_tasks(&self) -> (r: Vec<PeriodicTask>)
        ensures
            exists|now: u64| #[trigger] due_snapshot(self@, r@, now),
    {
        let now = now_millis();
        let r = self.get_due_tasks_at(now);
        proof {
            assert(due_snapshot(self@, r@, now));
        }
        r
    }

    /// Visit every periodic task in insertion order and, for each one due
    /// by instant `now`, perform its generation step (advancing its
    /// schedule) and collect the generated concrete task; the batch is
    /// returned in visiting order.
    pub fn generate_due_tasks_at(&mut self, now: u64, date: &str) -> (batch: Vec<Task>)
        requires
            forall|i: int|
                0 <= i < old(self)@.len() ==> (#[trigger] old(self)@[i]).occurrences < u32::MAX,
            forall|i: int|
                0 <= i < old(self)@.len() ==> (#[trigger] old(self)@[i]).template.id * 1000 + old(
                    self,
                )@[i].occurrences + 1 <= u32::MAX,
        ensures
            sweep_generated(old(self)@, final(self)@, batch@, now, date@),
    {
        let ghost s = self@;
        let ghost p = due_pred(now);
        let mut batch: Vec<Task> = Vec::new();
        let n = self.tasks.len();
        let mut i: usize = 0;
        proof {
            assert(s.subrange(0, 0).filter(p) =~= Seq::<PeriodicTask>::empty());
        }
        while i < n
            invariant
                i <= n,
                n == self@.len(),
                self@.len() == s.len(),
                s == old(self)@,
                p == due_pred(now),
                forall|j: int| 0 <= j < s.len() ==> (#[trigger] s[j]).occurrences < u32::MAX,
                forall|j: int|
                    0 <= j < s.len() ==> (#[trigger] s[j]).template.id * 1000 + s[j].occurrences
                        + 1 <= u32::MAX,
                forall|j: int| i <= j < s.len() ==> #[trigger] self@[j] == s[j],
                forall|j: int| 0 <= j < i && !p(#[trigger] s[j]) ==> self@[j] == s[j],
                forall|j: int|
                    0 <= j < i && p(#[trigger] s[j]) ==> self@[j] == advanced_at(s[j], now),
                batch@.len() == s.subrange(0, i as int).filter(p).len(),
                forall|j: int|
                    0 <= j < batch@.len() ==> gen_matches(
                        s.subrange(0, i as int).filter(p)[j],
                        #[trigger] batch@[j],
                        now,
                        date@,
                    ),
            decreases n - i,
        {
            proof {
                let pre = s.subrange(0, i as int);
                let one = s.subrange(i as int, i + 1);
                assert(one =~= seq![s[i as int]]);
                assert(pre + one =~= s.subrange(0, i + 1));
                Seq::filter_distributes_over_add(pre, one, p);
                crate::instants::lemma_filter_singleton(s[i as int], p);
            }
            let due_now = now >= self.tasks[i].next_run;
            if due_now {
                let mut t = self.tasks.remove(i);
                proof {
                    assert(t == s[i as int]);
                    assert(p(s[i as int]));
                }
                let generated = t.generate_task_at(now, date);
                self.tasks.insert(i, t);
                batch.push(generated);
                proof {
                    assert(self@[i as int] == advanced_at(s[i as int], now));
                    let f1 = s.subrange(0, i + 1).filter(p);
                    assert(f1 =~= s.subrange(0, i as int).filter(p).push(s[i as int]));
                    assert(gen_matches(f1[f1.len() - 1], batch@[batch@.len() - 1], now, date@));
                }
            } else {
                proof {
                    assert(!p(s[i as int]));
                    assert(s.subrange(0, i + 1).filter(p) =~= s.subrange(0, i as int).filter(p));
                }
            }
            i += 1;
        }
        proof {
            assert(s.subrange(0, n as int) =~= s);
        }
        batch
    }

    /// Visit every periodic task and generate each due occurrence at the
    /// current instant, dated by the local calendar; see
    /// [`Self::generate_due_tasks_at`] for the exact per-instant contract.
    pub fn generate_due_tasks(&mut self) -> (batch: Vec<Task>)
        requires
            forall|i: int|
                0 <= i < old(self)@.len() ==> (#[trigger] old(self)@[i]).occurrences < u32::MAX,
            forall|i: int|
                0 <= i < old(self)@.len() ==> (#[trigger] old(self)@[i]).template.id * 1000 + old(
                    self,
                )@[i].occurrences + 1 <= u32::MAX,
        ensures
            exists|now: u64, date: Seq<char>|
                #[trigger] sweep_generated(old(self)@, final(self)@, batch@, now, date),
    {
        let now = now_millis();
        let date = local_date_of(now / 1000);
        let batch = self.generate_due_tasks_at(now, date.as_str());
        proof {
            assert(sweep_generated(old(self)@, final(self)@, batch@, now, date@));
        }
        batch
    }
}

/// One snapshot of the due tasks at instant `now`: copies, in insertion
/// order, of exactly the periodic tasks whose next run is at or before
/// `now`.
pub open spec fn due_snapshot(s: Seq<PeriodicTask>, r: Seq<PeriodicTask>, now: u64) -> bool {
    &&& r.len() == s.filter(due_pred(now)).len()
    &&& forall|j: int| 0 <= j < r.len() ==> (#[trigger] r[j])@ == s.filter(due_pred(now))[j]@
}

} // verus!
