//! Tasks: the unit of declared work, with a status, a priority and an
//! optional list of the task identifiers it depends on.

use vstd::prelude::*;

verus! {

/// Lifecycle state of a task.
#[derive(Debug, Clone, Copy, PartialEq, Eq, Structural)]
pub enum TaskStatus {
    ToDo,
    InProgress,
    Done,
}

/// Scheduling priority of a task.
#[derive(Debug, Clone, Copy, PartialEq, Eq, Structural)]
pub enum TaskPriority {
    Low,
    Medium,
    High,
}

/// A unit of declared work.
#[derive(Debug)]
pub struct Task {
    pub id: u32,
    pub title: String,
    pub status: TaskStatus,
    pub priority: TaskPriority,
    /// Identifiers of the tasks this one depends on, when any exist.
    pub dependencies: Option<Vec<u32>>,
}

/// Mathematical image of a [`Task`]: the same fields with the heap-backed
/// ones replaced by their sequences.
#[verifier::ext_equal]
pub struct TaskView {
    pub id: u32,
    pub title: Seq<char>,
    pub status: TaskStatus,
    pub priority: TaskPriority,
    pub dependencies: Option<Seq<u32>>,
}

impl View for Task {
    type V = TaskView;

    open spec fn view(&self) -> TaskView {
        TaskView {
            id: self.id,
            title: self.title@,
            status: self.status,
            priority: self.priority,
            dependencies: match self.dependencies {
                Option::None => Option::None,
                Option::Some(v) => Option::Some(v@),
            },
        }
    }
}

impl TaskView {
    /// The declared dependencies as a sequence (`None` counts as empty).
    pub open spec fn deps(self) -> Seq<u32> {
        match self.dependencies {
            Option::None => Seq::empty(),
            Option::Some(s) => s,
        }
    }
}

impl Task {
    /// The declared dependencies as a sequence (`None` counts as empty).
    pub open spec fn deps(self) -> Seq<u32> {
        match self.dependencies {
            Option::None => Seq::empty(),
            Option::Some(v) => v@,
        }
    }

    pub fn new(id: u32, title: String, status: TaskStatus, priority: TaskPriority) -> (t: Task)
        ensures
            t.id == id,
            t.title == title,
            t.status == status,
            t.priority == priority,
            t.dependencies is None,
    {
        Task { id, title, status, priority, dependencies: None }
    }

    pub fn update(&mut self, new_title: String, new_status: TaskStatus, new_priority: TaskPriority)
        ensures
            final(self).id == old(self).id,
            final(self).title == new_title,
            final(self).status == new_status,
            final(self).priority == new_priority,
            final(self).dependencies == old(self).dependencies,
    {
        self.title = new_title;
        self.status = new_status;
        self.priority = new_priority;
    }

    /// A task can start when every declared dependency resolves, by its
    /// first occurrence in `tasks`, to a task whose status is `Done`.
    pub fn can_start(&self, tasks: &[Task]) -> (r: bool)
        ensures
            r == spec_deps_met(self.deps(), tasks@),
    {
        match &self.dependencies {
            None => {
                assert(self.deps() =~= Seq::<u32>::empty());
                true
            },
            Some(deps) => {
                let n = deps.len();
                let mut i: usize = 0;
                while i < n
                    invariant
                        i <= n,
                        n == deps.len(),
                        deps@ == self.deps(),
                        forall|j: int| 0 <= j < i ==> spec_dep_done(tasks@, deps@[j]),
                    decreases n - i,
                {
                    if !dep_done(deps[i], tasks) {
                        return false;
                    }
                    i += 1;
                }
                true
            },
        }
    }
}

impl Clone for Task {
    fn clone(&self) -> (r: Self)
        ensures
            r@ == self@,
    {
        let dependencies = match &self.dependencies {
            None => None,
            Some(v) => Some(clone_id_vec(v)),
        };
        let r = Task {
            id: self.id,
            title: self.title.clone(),
            status: self.status,
            priority: self.priority,
            dependencies,
        };
        assert(r@ =~= self@);
        r
    }
}

/// An element-exact copy of a list of task identifiers.
pub fn clone_id_vec(v: &Vec<u32>) -> (r: Vec<u32>)
    ensures
        r@ == v@,
{
    let mut r: Vec<u32> = Vec::new();
    let n = v.len();
    let mut i: usize = 0;
    while i < n
        invariant
            i <= n,
            n == v@.len(),
            r@ == v@.subrange(0, i as int),
        decreases n - i,
    {
        r.push(v[i]);
        proof {
            assert(r@ =~= v@.subrange(0, i + 1));
        }
        i += 1;
    }
    proof {
        assert(r@ =~= v@);
    }
    r
}

/// The first task in `tasks` carrying the identifier `id`, if any.
pub open spec fn find_task(tasks: Seq<Task>, id: u32) -> Option<Task>
    decreases tasks.len(),
{
    if tasks.len() == 0 {
        None
    } else if tasks[0].id == id {
        Some(tasks[0])
    } else {
        find_task(tasks.drop_first(), id)
    }
}

/// A dependency on `id` is met when `tasks` holds a task with that
/// identifier and its first occurrence has status `Done`.
pub open spec fn spec_dep_done(tasks: Seq<Task>, id: u32) -> bool {
    match find_task(tasks, id) {
        Option::None => false,
        Option::Some(t) => t.status is Done,
    }
}

/// All dependencies in `deps` are met in `tasks`.
pub open spec fn spec_deps_met(deps: Seq<u32>, tasks: Seq<Task>) -> bool {
    forall|j: int| 0 <= j < deps.len() ==> spec_dep_done(tasks, #[trigger] deps[j])
}

/// `find_task` over a concatenation looks in the front part first.
pub proof fn lemma_find_task_add(a: Seq<Task>, b: Seq<Task>, id: u32)
    ensures
        find_task(a + b, id) == if find_task(a, id) is Some {
            find_task(a, id)
        } else {
            find_task(b, id)
        },
    decreases a.len(),
{
    if a.len() == 0 {
        assert(a + b =~= b);
    } else {
        assert((a + b).drop_first() =~= a.drop_first() + b);
        lemma_find_task_add(a.drop_first(), b, id);
    }
}

/// Whether the first task in `tasks` with identifier `id` has status `Done`;
/// absence counts as not met.
pub fn dep_done(id: u32, tasks: &[Task]) -> (r: bool)
    ensures
        r == spec_dep_done(tasks@, id),
{
    let n = tasks.len();
    let mut i: usize = 0;
    while i < n
        invariant
            i <= n,
            n == tasks@.len(),
            find_task(tasks@.subrange(0, i as int), id) is None,
        decreases n - i,
    {
        proof {
            assert(tasks@.subrange(0, i + 1).drop_first() =~= tasks@.subrange(1, i + 1));
            lemma_find_task_add(tasks@.subrange(0, i as int), tasks@.subrange(i as int, i + 1), id);
            assert(tasks@.subrange(0, i as int) + tasks@.subrange(i as int, i + 1) =~= tasks@.subrange(0, i + 1));
        }
        if tasks[i].id == id {
            proof {
                lemma_find_task_add(tasks@.subrange(0, i + 1), tasks@.subrange(i + 1, n as int), id);
                assert(tasks@.subrange(0, i + 1) + tasks@.subrange(i + 1, n as int) =~= tasks@);
                assert(tasks@.subrange(i as int, i + 1)[0] == tasks@[i as int]);
            }
            return matches!(tasks[i].status, TaskStatus::Done);
        }
        proof {
            let s1 = tasks@.subrange(i as int, i + 1);
            assert(s1[0] == tasks@[i as int]);
            assert(s1.drop_first() =~= Seq::<Task>::empty());
            assert(find_task(s1.drop_first(), id) is None);
            assert(find_task(s1, id) is None);
        }
        i += 1;
    }
    proof {
        assert(tasks@.subrange(0, n as int) =~= tasks@);
    }
    false
}

/// Step-by-step constructor for a `Task`, supplying defaults for fields
/// that are not set: status `ToDo`, priority `Medium`, no dependencies.
pub struct TaskBuilder {
    id: u32,
    title: String,
    status: Option<TaskStatus>,
    priority: Option<TaskPriority>,
    dependencies: Option<Vec<u32>>,
}

impl TaskBuilder {
    pub closed spec fn deps(self) -> Seq<u32> {
        match self.dependencies {
            Option::None => Seq::empty(),
            Option::Some(v) => v@,
        }
    }

    pub closed spec fn spec_id(self) -> u32 {
        self.id
    }

    pub closed spec fn spec_title(self) -> String {
        self.title
    }

    pub closed spec fn spec_status(self) -> Option<TaskStatus> {
        self.status
    }

    pub closed spec fn spec_priority(self) -> Option<TaskPriority> {
        self.priority
    }

    pub fn new(id: u32, title: String) -> (b: TaskBuilder)
        ensures
            b.spec_id() == id,
            b.spec_title() == title,
            b.spec_status() is None,
            b.spec_priority() is None,
            b.deps() == Seq::<u32>::empty(),
    {
        TaskBuilder { id, title, status: None, priority: None, dependencies: None }
    }

    pub fn status(self, status: TaskStatus) -> (b: TaskBuilder)
        ensures
            b.spec_id() == self.spec_id(),
            b.spec_title() == self.spec_title(),
            b.spec_status() == Some(status),
            b.spec_priority() == self.spec_priority(),
            b.deps() == self.deps(),
    {
        TaskBuilder { status: Some(status), ..self }
    }

    pub fn priority(self, priority: TaskPriority) -> (b: TaskBuilder)
        ensures
            b.spec_id() == self.spec_id(),
            b.spec_title() == self.spec_title(),
            b.spec_status() == self.spec_status(),
            b.spec_priority() == Some(priority),
            b.deps() == self.deps(),
    {
        TaskBuilder { priority: Some(priority), ..self }
    }

    pub fn dependency(self, dependency_id: u32) -> (b: TaskBuilder)
        ensures
            b.spec_id() == self.spec_id(),
            b.spec_title() == self.spec_title(),
            b.spec_status() == self.spec_status(),
            b.spec_priority() == self.spec_priority(),
            b.deps() == self.deps().push(dependency_id),
    {
        let mut deps = match self.dependencies {
            None => Vec::new(),
            Some(v) => v,
        };
        deps.push(dependency_id);
        let b = TaskBuilder { dependencies: Some(deps), ..self };
        assert(b.deps() =~= self.deps().push(dependency_id));
        b
    }

    /// Finish the construction; an empty dependency list is normalized
    /// to `None`.
    pub fn build(self) -> (t: Task)
        ensures
            t.id == self.spec_id(),
            t.title == self.spec_title(),
            t.status == if self.spec_status() is Some {
                self.spec_status()->0
            } else {
                TaskStatus::ToDo
            },
            t.priority == if self.spec_priority() is Some {
                self.spec_priority()->0
            } else {
                TaskPriority::Medium
            },
            t.deps() == self.deps(),
            t.dependencies is Some ==> t.deps().len() > 0,
    {
        let status = match self.status {
            Some(s) => s,
            None => TaskStatus::ToDo,
        };
        let priority = match self.priority {
            Some(p) => p,
            None => TaskPriority::Medium,
        };
        let dependencies = match self.dependencies {
            Some(deps) => if deps.len() == 0 {
                None
            } else {
                Some(deps)
            },
            None => None,
        };
        let t = Task { id: self.id, title: self.title, status, priority, dependencies };
        assert(t.deps() =~= self.deps());
        t
    }
}

} // verus!
