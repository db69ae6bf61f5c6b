//! Projects: a named collection of tasks, with dependency editing and a
//! dependency-respecting execution order. The dependency operations build
//! a [`DependencyGraph`] from the tasks' declared dependencies and go
//! through its cycle-checked operations.

use vstd::prelude::*;

use crate::error::TaskMasterError;
use crate::task::{clone_id_vec, find_task, Task, TaskPriority, TaskStatus, TaskView};
use crate::task_dependencies::{
    dep_edge, input_has, reaches, DependencyGraph, GraphView,
};

verus! {

/// Mathematical image of a [`Project`].
#[verifier::ext_equal]
pub struct ProjectView {
    pub id: u32,
    pub name: Seq<char>,
    pub tasks: Seq<TaskView>,
}

/// The predicate keeping every identifier but `x`.
pub open spec fn not_id(x: u32) -> spec_fn(u32) -> bool {
    |d: u32| d != x
}

/// Whether some task in `tasks` carries the identifier `id`.
pub open spec fn has_task(tasks: Seq<Task>, id: u32) -> bool {
    exists|k: int| 0 <= k < tasks.len() && (#[trigger] tasks[k]).id == id
}

/// The dependency edges one task declares: (its identifier, each declared
/// dependency), in declaration order.
pub open spec fn edges_of(t: Task) -> Seq<(u32, u32)> {
    t.deps().map_values(|d: u32| (t.id, d))
}

/// The dependency edges a task list declares, task by task in list order.
pub open spec fn declared_edges(tasks: Seq<Task>) -> Seq<(u32, u32)>
    decreases tasks.len(),
{
    if tasks.len() == 0 {
        Seq::empty()
    } else {
        declared_edges(tasks.drop_last()) + edges_of(tasks.last())
    }
}

/// One step of building a graph: record the edge unless it relates a task
/// to itself or would close a cycle, exactly as
/// [`DependencyGraph::add_dependency`] decides.
pub open spec fn graph_step(g: GraphView, e: (u32, u32)) -> Option<GraphView> {
    if e.0 == e.1 || reaches(g, e.1, e.0) {
        None
    } else {
        Some(
            GraphView {
                dependencies: if g.dependencies.contains(e) {
                    g.dependencies
                } else {
                    g.dependencies.push(e)
                },
                dependents: if g.dependents.contains((e.1, e.0)) {
                    g.dependents
                } else {
                    g.dependents.push((e.1, e.0))
                },
            },
        )
    }
}

/// The graph obtained by recording the edges in order into an empty
/// graph, or nothing as soon as one edge is refused.
pub open spec fn graph_after(edges: Seq<(u32, u32)>) -> Option<GraphView>
    decreases edges.len(),
{
    if edges.len() == 0 {
        Some(GraphView { dependencies: Seq::empty(), dependents: Seq::empty() })
    } else {
        match graph_after(edges.drop_last()) {
            Option::None => Option::None,
            Option::Some(g) => graph_step(g, edges.last()),
        }
    }
}

/// A named collection of tasks.
#[derive(Debug)]
pub struct Project {
    pub id: u32,
    pub name: String,
    pub tasks: Vec<Task>,
}

impl View for Project {
    type V = ProjectView;

    open spec fn view(&self) -> ProjectView {
        ProjectView {
            id: self.id,
            name: self.name@,
            tasks: self.tasks@.map_values(|t: Task| t@),
        }
    }
}

impl Clone for Project {
    fn clone(&self) -> (r: Self)
        ensures
            r@ == self@,
    {
        let n = self.tasks.len();
        let mut tasks: Vec<Task> = Vec::new();
        let mut i: usize = 0;
        while i < n
            invariant
                i <= n,
                n == self.tasks@.len(),
                tasks@.len() == i,
                forall|j: int| 0 <= j < i ==> (#[trigger] tasks@[j])@ == self.tasks@[j]@,
            decreases n - i,
        {
            tasks.push(self.tasks[i].clone());
            i += 1;
        }
        let r = Project { id: self.id, name: self.name.clone(), tasks };
        proof {
            assert(r@.tasks =~= self@.tasks);
            assert(r@ =~= self@);
        }
        r
    }
}

impl Project {
    /// A fresh project with no tasks.
    pub fn new(id: u32, name: String) -> (p: Project)
        ensures
            p.id == id,
            p.name == name,
            p.tasks@ == Seq::<Task>::empty(),
    {
        Project { id, name, tasks: Vec::new() }
    }

    /// Append a task.
    pub fn add_task(&mut self, task: Task)
        ensures
            final(self).id == old(self).id,
            final(self).name == old(self).name,
            final(self).tasks@ == old(self).tasks@.push(task),
    {
        self.tasks.push(task);
    }

    /// Drop every task carrying `task_id`; the others keep their order.
    pub fn remove_task(&mut self, task_id: u32)
        ensures
            final(self).id == old(self).id,
            final(self).name == old(self).name,
            final(self).tasks@ == old(self).tasks@.filter(|t: Task| t.id != task_id),
    {
        let ghost s = self.tasks@;
        let ghost p = |t: Task| t.id != task_id;
        let mut kept: Vec<Task> = Vec::new();
        proof {
            assert(s.subrange(0, 0).filter(p) =~= Seq::<Task>::empty());
            assert(self.tasks@ =~= s.subrange(0, s.len() as int));
        }
        while self.tasks.len() > 0
            invariant
                self.id == old(self).id,
                self.name == old(self).name,
                s == old(self).tasks@,
                self.tasks@.len() <= s.len(),
                self.tasks@ == s.subrange(s.len() - self.tasks@.len(), s.len() as int),
                kept@ == s.subrange(0, s.len() - self.tasks@.len()).filter(p),
                p == |t: Task| t.id != task_id,
            decreases self.tasks@.len(),
        {
            let ghost done = s.len() - self.tasks@.len();
            let t = self.tasks.remove(0);
            proof {
                assert(t == s[done]);
                assert(self.tasks@ =~= s.subrange(done + 1, s.len() as int));
                let pre = s.subrange(0, done);
                let one = s.subrange(done, done + 1);
                assert(one =~= seq![s[done]]);
                assert(pre + one =~= s.subrange(0, done + 1));
                Seq::filter_distributes_over_add(pre, one, p);
                crate::instants::lemma_filter_singleton(s[done], p);
            }
            if t.id != task_id {
                kept.push(t);
                proof {
                    assert(kept@ =~= s.subrange(0, done + 1).filter(p));
                }
            } else {
                proof {
                    assert(kept@ =~= s.subrange(0, done + 1).filter(p));
                }
            }
        }
        proof {
            assert(s.subrange(0, s.len() as int) =~= s);
        }
        self.tasks = kept;
    }

    /// Replace the title, status and priority of the first task carrying
    /// `task_id`; fails with a task-not-found error, changing nothing,
    /// when no task carries it.
    pub fn update_task(
        &mut self,
        task_id: u32,
        new_title: String,
        new_status: TaskStatus,
        new_priority: TaskPriority,
    ) -> (r: Result<(), TaskMasterError>)
        ensures
            final(self).id == old(self).id,
            final(self).name == old(self).name,
            r is Ok <==> has_task(old(self).tasks@, task_id),
            r matches Err(e) ==> e == TaskMasterError::TaskNotFound(task_id) && final(self).tasks@
                == old(self).tasks@,
            r is Ok ==> exists|i: int|
                {
                    &&& #[trigger] is_first_with_id(old(self).tasks@, task_id, i)
                    &&& final(self).tasks@ == old(self).tasks@.update(
                        i,
                        (Task {
                            id: old(self).tasks@[i].id,
                            title: new_title,
                            status: new_status,
                            priority: new_priority,
                            dependencies: old(self).tasks@[i].dependencies,
                        }),
                    )
                },
    {
        let ghost s = self.tasks@;
        let n = self.tasks.len();
        let mut i: usize = 0;
        while i < n
            invariant
                i <= n,
                n == self.tasks@.len(),
                self.tasks@ == s,
                s == old(self).tasks@,
                self.id == old(self).id,
                self.name == old(self).name,
                forall|j: int| 0 <= j < i ==> (#[trigger] s[j]).id != task_id,
            decreases n - i,
        {
            if self.tasks[i].id == task_id {
                let mut t = self.tasks.remove(i);
                t.update(new_title, new_status, new_priority);
                self.tasks.insert(i, t);
                proof {
                    assert(is_first_with_id(s, task_id, i as int));
                    assert(self.tasks@ =~= s.update(
                        i as int,
                        (Task {
                            id: s[i as int].id,
                            title: new_title,
                            status: new_status,
                            priority: new_priority,
                            dependencies: s[i as int].dependencies,
                        }),
                    ));
                }
                return Ok(());
            }
            i += 1;
        }
        proof {
            if has_task(s, task_id) {
                let k = choose|k: int| 0 <= k < s.len() && (#[trigger] s[k]).id == task_id;
            }
            assert(!has_task(s, task_id));
        }
        Err(TaskMasterError::TaskNotFound(task_id))
    }

    /// The first task carrying `task_id`, or a task-not-found error.
    pub fn get_task(&self, task_id: u32) -> (r: Result<&Task, TaskMasterError>)
        ensures
            r is Ok <==> has_task(self.tasks@, task_id),
            r matches Ok(t) ==> find_task(self.tasks@, task_id) == Some(*t) && t.id == task_id,
            r matches Err(e) ==> e == TaskMasterError::TaskNotFound(task_id),
    {
        let n = self.tasks.len();
        let mut i: usize = 0;
        while i < n
            invariant
                i <= n,
                n == self.tasks@.len(),
                forall|j: int| 0 <= j < i ==> (#[trigger] self.tasks@[j]).id != task_id,
                find_task(self.tasks@.subrange(0, i as int), task_id) is None,
            decreases n - i,
        {
            proof {
                crate::task::lemma_find_task_add(
                    self.tasks@.subrange(0, i as int),
                    self.tasks@.subrange(i as int, i + 1),
                    task_id,
                );
                assert(self.tasks@.subrange(0, i as int) + self.tasks@.subrange(i as int, i + 1)
                    =~= self.tasks@.subrange(0, i + 1));
            }
            if self.tasks[i].id == task_id {
                proof {
                    let one = self.tasks@.subrange(i as int, i + 1);
                    assert(one[0] == self.tasks@[i as int]);
                    crate::task::lemma_find_task_add(
                        self.tasks@.subrange(0, i + 1),
                        self.tasks@.subrange(i + 1, n as int),
                        task_id,
                    );
                    assert(self.tasks@.subrange(0, i + 1) + self.tasks@.subrange(i + 1, n as int)
                        =~= self.tasks@);
                }
                return Ok(&self.tasks[i]);
            }
            proof {
                let one = self.tasks@.subrange(i as int, i + 1);
                assert(one[0] == self.tasks@[i as int]);
                assert(one.drop_first() =~= Seq::<Task>::empty());
                assert(find_task(one.drop_first(), task_id) is None);
                assert(find_task(one, task_id) is None);
            }
            i += 1;
        }
        proof {
            if has_task(self.tasks@, task_id) {
                let k = choose|k: int|
                    0 <= k < self.tasks@.len() && (#[trigger] self.tasks@[k]).id == task_id;
            }
            assert(!has_task(self.tasks@, task_id));
        }
        Err(TaskMasterError::TaskNotFound(task_id))
    }

    /// Whether some task carries `task_id`.
    fn has_task_id(&self, task_id: u32) -> (r: bool)
        ensures
            r == has_task(self.tasks@, task_id),
    {
        let n = self.tasks.len();
        let mut i: usize = 0;
        while i < n
            invariant
                i <= n,
                n == self.tasks@.len(),
                forall|j: int| 0 <= j < i ==> (#[trigger] self.tasks@[j]).id != task_id,
            decreases n - i,
        {
            if self.tasks[i].id == task_id {
                return true;
            }
            i += 1;
        }
        proof {
            if has_task(self.tasks@, task_id) {
                let k = choose|k: int|
                    0 <= k < self.tasks@.len() && (#[trigger] self.tasks@[k]).id == task_id;
            }
        }
        false
    }

    /// Declare that `task_id` depends on `dependency_id`.
    ///
    /// Both tasks must exist; the declared dependencies of all tasks plus
    /// the new edge must build into an acyclic graph (each edge accepted
    /// by [`DependencyGraph::add_dependency`] in declaration order). On
    /// success, every task carrying `task_id` holds exactly the graph's
    /// dependencies for it; on any failure nothing changes.
    pub fn add_task_dependency(&mut self, task_id: u32, dependency_id: u32) -> (r: Result<
        (),
        TaskMasterError,
    >)
        ensures
            final(self).id == old(self).id,
            final(self).name == old(self).name,
            r is Ok <==> has_task(old(self).tasks@, task_id) && has_task(
                old(self).tasks@,
                dependency_id,
            ) && graph_after(
                declared_edges(old(self).tasks@).push((task_id, dependency_id)),
            ) is Some,
            r is Err ==> final(self).tasks@ == old(self).tasks@,
            !has_task(old(self).tasks@, task_id) ==> r == Err::<(), TaskMasterError>(
                TaskMasterError::TaskNotFound(task_id),
            ),
            has_task(old(self).tasks@, task_id) && !has_task(old(self).tasks@, dependency_id)
                ==> r == Err::<(), TaskMasterError>(TaskMasterError::TaskNotFound(dependency_id)),
            r matches Err(e) ==> e is TaskNotFound || e is InvalidOperation,
            has_task(old(self).tasks@, task_id) && has_task(old(self).tasks@, dependency_id) && r
                is Err ==> (r->Err_0 is InvalidOperation),
            r is Ok ==> {
                let g = graph_after(
                    declared_edges(old(self).tasks@).push((task_id, dependency_id)),
                )->0;
                &&& final(self).tasks@.len() == old(self).tasks@.len()
                &&& forall|i: int|
                    0 <= i < old(self).tasks@.len() && (#[trigger] old(self).tasks@[i]).id
                        != task_id ==> final(self).tasks@[i] == old(self).tasks@[i]
                &&& forall|i: int|
                    0 <= i < old(self).tasks@.len() && (#[trigger] old(self).tasks@[i]).id
                        == task_id ==> deps_replaced(old(self).tasks@[i], final(self).tasks@[i], g)
            },
    {
        if !self.has_task_id(task_id) {
            return Err(TaskMasterError::TaskNotFound(task_id));
        }
        if !self.has_task_id(dependency_id) {
            return Err(TaskMasterError::TaskNotFound(dependency_id));
        }
        let mut edges = collect_declared_edges(&self.tasks);
        edges.push((task_id, dependency_id));
        proof {
            assert(edges@ =~= declared_edges(self.tasks@).push((task_id, dependency_id)));
        }
        let graph = match build_graph(&edges) {
            Ok(g) => g,
            Err(e) => {
                return Err(e);
            },
        };
        let new_deps = graph.get_dependencies(task_id);
        let ghost g = graph@;
        let ghost s = self.tasks@;
        let n = self.tasks.len();
        let mut i: usize = 0;
        while i < n
            invariant
                i <= n,
                n == self.tasks@.len(),
                self.tasks@.len() == s.len(),
                s == old(self).tasks@,
                self.id == old(self).id,
                self.name == old(self).name,
                new_deps@.no_duplicates(),
                forall|b: u32| #[trigger] new_deps@.contains(b) <==> dep_edge(g, task_id, b),
                forall|j: int|
                    i <= j < s.len() ==> #[trigger] self.tasks@[j] == s[j],
                forall|j: int|
                    0 <= j < i && (#[trigger] s[j]).id != task_id ==> self.tasks@[j] == s[j],
                forall|j: int|
                    0 <= j < i && (#[trigger] s[j]).id == task_id ==> deps_replaced(
                        s[j],
                        self.tasks@[j],
                        g,
                    ),
            decreases n - i,
        {
            if self.tasks[i].id == task_id {
                let mut t = self.tasks.remove(i);
                if new_deps.len() == 0 {
                    t.dependencies = None;
                } else {
                    t.dependencies = Some(clone_id_vec(&new_deps));
                }
                self.tasks.insert(i, t);
                proof {
                    assert(self.tasks@[i as int].deps() =~= new_deps@);
                    assert(deps_replaced(s[i as int], self.tasks@[i as int], g));
                }
            }
            i += 1;
        }
        Ok(())
    }

    /// Forget that tasks carrying `task_id` depend on `dependency_id`:
    /// the identifier leaves their declared dependency lists (an emptied
    /// list becomes no list). Fails with a task-not-found error, changing
    /// nothing, when no task carries `task_id`.
    pub fn remove_task_dependency(&mut self, task_id: u32, dependency_id: u32) -> (r: Result<
        (),
        TaskMasterError,
    >)
        ensures
            final(self).id == old(self).id,
            final(self).name == old(self).name,
            r is Ok <==> has_task(old(self).tasks@, task_id),
            r matches Err(e) ==> e == TaskMasterError::TaskNotFound(task_id) && final(self).tasks@
                == old(self).tasks@,
            r is Ok ==> final(self).tasks@.len() == old(self).tasks@.len(),
            r is Ok ==> forall|i: int|
                0 <= i < old(self).tasks@.len() && (#[trigger] old(self).tasks@[i]).id != task_id
                    ==> final(self).tasks@[i] == old(self).tasks@[i],
            r is Ok ==> forall|i: int|
                0 <= i < old(self).tasks@.len() && (#[trigger] old(self).tasks@[i]).id == task_id
                    ==> dep_removed(old(self).tasks@[i], final(self).tasks@[i], dependency_id),
    {
        if !self.has_task_id(task_id) {
            return Err(TaskMasterError::TaskNotFound(task_id));
        }
        let ghost s = self.tasks@;
        let n = self.tasks.len();
        let mut i: usize = 0;
        while i < n
            invariant
                i <= n,
                n == self.tasks@.len(),
                self.tasks@.len() == s.len(),
                s == old(self).tasks@,
                self.id == old(self).id,
                self.name == old(self).name,
                forall|j: int|
                    i <= j < s.len() ==> #[trigger] self.tasks@[j] == s[j],
                forall|j: int|
                    0 <= j < i && (#[trigger] s[j]).id != task_id ==> self.tasks@[j] == s[j],
                forall|j: int|
                    0 <= j < i && (#[trigger] s[j]).id == task_id ==> dep_removed(
                        s[j],
                        self.tasks@[j],
                        dependency_id,
                    ),
            decreases n - i,
        {
            if self.tasks[i].id == task_id {
                let mut t = self.tasks.remove(i);
                proof {
                    assert(t == s[i as int]);
                }
                let ghost pd = not_id(dependency_id);
                let new_deps = match &t.dependencies {
                    None => {
                        proof {
                            assert(t.deps() =~= Seq::<u32>::empty());
                            assert(t.deps().filter(pd) =~= Seq::<u32>::empty());
                        }
                        None
                    },
                    Some(deps) => {
                        let filtered = filter_out_id(deps, dependency_id);
                        proof {
                            assert(filtered@ == deps@.filter(pd));
                            assert(deps@ == t.deps());
                        }
                        if filtered.len() == 0 {
                            proof {
                                assert(deps@.filter(pd) =~= Seq::<u32>::empty());
                            }
                            None
                        } else {
                            Some(filtered)
                        }
                    },
                };
                t.dependencies = new_deps;
                self.tasks.insert(i, t);
                proof {
                    assert(self.tasks@[i as int] == t);
                    assert(t.deps() == s[i as int].deps().filter(pd));
                    assert(dep_removed(s[i as int], self.tasks@[i as int], dependency_id));
                }
            }
            i += 1;
        }
        Ok(())
    }

    /// A dependency-respecting execution order over this project's tasks:
    /// the declared dependencies must build into an acyclic graph (else an
    /// invalid-operation error); the returned tasks are copies of the
    /// project's tasks — each identifier once, resolved to its first
    /// occurrence — ordered so that every ordered task's recorded
    /// dependency comes strictly earlier.
    pub fn get_task_execution_order(&self) -> (r: Result<Vec<Task>, TaskMasterError>)
        ensures
            r is Ok <==> graph_after(declared_edges(self.tasks@)) is Some,
            r matches Err(e) ==> e is InvalidOperation,
            r matches Ok(list) ==> {
                let g = graph_after(declared_edges(self.tasks@))->0;
                &&& list@.map_values(|t: Task| t.id).no_duplicates()
                &&& forall|id: u32| #[trigger] has_task(list@, id) <==> has_task(self.tasks@, id)
                &&& forall|i: int, j: int|
                    0 <= i < list@.len() && 0 <= j < list@.len() && #[trigger] dep_edge(
                        g,
                        list@[i].id,
                        list@[j].id,
                    ) ==> j < i
                &&& forall|k: int|
                    0 <= k < list@.len() ==> (#[trigger] list@[k])@ == (find_task(
                        self.tasks@,
                        list@[k].id,
                    )->0)@
            },
    {
        let edges = collect_declared_edges(&self.tasks);
        let graph = match build_graph(&edges) {
            Ok(g) => g,
            Err(e) => {
                return Err(e);
            },
        };
        let ghost g = graph@;
        let ids = match graph.get_execution_order(self.tasks.as_slice()) {
            Ok(ids) => ids,
            Err(e) => {
                return Err(e);
            },
        };
        let mut list: Vec<Task> = Vec::new();
        let n = ids.len();
        let mut i: usize = 0;
        while i < n
            invariant
                i <= n,
                n == ids@.len(),
                list@.len() == i,
                forall|id: u32| #[trigger] ids@.contains(id) <==> input_has(self.tasks@, id),
                forall|k: int| 0 <= k < i ==> (#[trigger] list@[k]).id == ids@[k],
                forall|k: int|
                    0 <= k < i ==> (#[trigger] list@[k])@ == (find_task(self.tasks@, ids@[k])->0)@,
            decreases n - i,
        {
            proof {
                assert(ids@.contains(ids@[i as int]));
                assert(input_has(self.tasks@, ids@[i as int]));
            }
            let t = match self.get_task(ids[i]) {
                Ok(t) => t.clone(),
                Err(_) => {
                    proof {
                        let k = choose|k: int|
                            0 <= k < self.tasks@.len() && (#[trigger] self.tasks@[k]).id
                                == ids@[i as int];
                        assert(has_task(self.tasks@, ids@[i as int]));
                        assert(false);
                    }
                    return Err(TaskMasterError::TaskNotFound(ids[i]));
                },
            };
            list.push(t);
            i += 1;
        }
        proof {
            let idseq = list@.map_values(|t: Task| t.id);
            assert(idseq =~= ids@);
            assert forall|id: u32| #[trigger] has_task(list@, id) <==> has_task(self.tasks@, id) by {
                if has_task(list@, id) {
                    let k = choose|k: int| 0 <= k < list@.len() && (#[trigger] list@[k]).id == id;
                    assert(ids@[k] == id);
                    assert(ids@.contains(id));
                    assert(input_has(self.tasks@, id));
                    let k2 = choose|k2: int|
                        0 <= k2 < self.tasks@.len() && self.tasks@[k2].id == id;
                    assert(has_task(self.tasks@, id));
                }
                if has_task(self.tasks@, id) {
                    let k = choose|k: int|
                        0 <= k < self.tasks@.len() && (#[trigger] self.tasks@[k]).id == id;
                    assert(input_has(self.tasks@, id));
                    assert(ids@.contains(id));
                    let k2 = choose|k2: int| 0 <= k2 < ids@.len() && ids@[k2] == id;
                    assert(list@[k2].id == id);
                    assert(has_task(list@, id));
                }
            }
        }
        Ok(list)
    }
}

/// After a dependency edit, a task's declared list holds exactly the
/// graph's recorded dependencies for it, duplicate-free (an empty set is
/// normalized to no list); its other fields are untouched.
pub open spec fn deps_replaced(t_old: Task, t_new: Task, g: GraphView) -> bool {
    &&& t_new.id == t_old.id
    &&& t_new.title == t_old.title
    &&& t_new.status == t_old.status
    &&& t_new.priority == t_old.priority
    &&& t_new.deps().no_duplicates()
    &&& forall|b: u32| #[trigger] t_new.deps().contains(b) <==> dep_edge(g, t_old.id, b)
    &&& (t_new.dependencies is None <==> t_new.deps().len() == 0)
}

/// After removing one declared dependency, a task's list keeps exactly
/// its other entries in order (an emptied list becomes no list); its
/// other fields are untouched.
pub open spec fn dep_removed(t_old: Task, t_new: Task, dependency_id: u32) -> bool {
    &&& t_new.id == t_old.id
    &&& t_new.title == t_old.title
    &&& t_new.status == t_old.status
    &&& t_new.priority == t_old.priority
    &&& t_new.deps() == t_old.deps().filter(not_id(dependency_id))
    &&& (t_new.dependencies is None <==> t_new.deps().len() == 0)
}

/// Whether the first task carrying `id` — there must be one — is `t`.
pub open spec fn is_first_with_id(tasks: Seq<Task>, id: u32, i: int) -> bool {
    &&& 0 <= i < tasks.len()
    &&& tasks[i].id == id
    &&& forall|j: int| 0 <= j < i ==> (#[trigger] tasks[j]).id != id
}

/// The identifiers in `v` other than `x`, in order.
fn filter_out_id(v: &Vec<u32>, x: u32) -> (r: Vec<u32>)
    ensures
        r@ == v@.filter(not_id(x)),
{
    let ghost p = not_id(x);
    let mut r: Vec<u32> = Vec::new();
    let n = v.len();
    let mut i: usize = 0;
    proof {
        assert(v@.subrange(0, 0).filter(p) =~= Seq::<u32>::empty());
    }
    while i < n
        invariant
            i <= n,
            n == v@.len(),
            r@ == v@.subrange(0, i as int).filter(p),
            p == not_id(x),
        decreases n - i,
    {
        proof {
            let pre = v@.subrange(0, i as int);
            let one = v@.subrange(i as int, i + 1);
            assert(one =~= seq![v@[i as int]]);
            assert(pre + one =~= v@.subrange(0, i + 1));
            Seq::filter_distributes_over_add(pre, one, p);
            crate::instants::lemma_filter_singleton(v@[i as int], p);
        }
        if v[i] != x {
            r.push(v[i]);
            proof {
                assert(r@ =~= v@.subrange(0, i + 1).filter(p));
            }
        } else {
            proof {
                assert(r@ =~= v@.subrange(0, i + 1).filter(p));
            }
        }
        i += 1;
    }
    proof {
        assert(v@.subrange(0, n as int) =~= v@);
    }
    r
}

/// Collect the dependency edges the task list declares, task by task.
fn collect_declared_edges(tasks: &Vec<Task>) -> (edges: Vec<(u32, u32)>)
    ensures
        edges@ == declared_edges(tasks@),
{
    let mut edges: Vec<(u32, u32)> = Vec::new();
    let n = tasks.len();
    let mut i: usize = 0;
    proof {
        assert(declared_edges(tasks@.subrange(0, 0)) =~= Seq::<(u32, u32)>::empty());
    }
    while i < n
        invariant
            i <= n,
            n == tasks@.len(),
            edges@ == declared_edges(tasks@.subrange(0, i as int)),
        decreases n - i,
    {
        let tid = tasks[i].id;
        let ghost pre = edges@;
        match &tasks[i].dependencies {
            None => {
                proof {
                    assert(edges_of(tasks@[i as int]) =~= Seq::<(u32, u32)>::empty());
                }
            },
            Some(deps) => {
                let m = deps.len();
                let mut j: usize = 0;
                while j < m
                    invariant
                        j <= m,
                        i < n,
                        n == tasks@.len(),
                        m == tasks@[i as int].deps().len(),
                        deps@ == tasks@[i as int].deps(),
                        tid == tasks@[i as int].id,
                        edges@ == pre + edges_of(tasks@[i as int]).subrange(0, j as int),
                    decreases m - j,
                {
                    edges.push((tid, deps[j]));
                    proof {
                        assert(edges_of(tasks@[i as int])[j as int] == (tid, deps@[j as int]));
                        assert(edges@ =~= pre + edges_of(tasks@[i as int]).subrange(0, j + 1));
                    }
                    j += 1;
                }
                proof {
                    assert(edges_of(tasks@[i as int]).subrange(
                        0,
                        edges_of(tasks@[i as int]).len() as int,
                    ) =~= edges_of(tasks@[i as int]));
                }
            },
        }
        proof {
            let prefix1 = tasks@.subrange(0, i + 1);
            assert(prefix1.drop_last() =~= tasks@.subrange(0, i as int));
            assert(prefix1.last() == tasks@[i as int]);
            assert(edges@ =~= declared_edges(tasks@.subrange(0, i as int)) + edges_of(
                tasks@[i as int],
            ));
            assert(edges@ =~= declared_edges(prefix1));
        }
        i += 1;
    }
    proof {
        assert(tasks@.subrange(0, n as int) =~= tasks@);
    }
    edges
}

/// Build a graph by recording the edges in order; the first refused edge
/// — a self-dependency or a cycle — aborts with its invalid-operation
/// error.
fn build_graph(edges: &Vec<(u32, u32)>) -> (r: Result<DependencyGraph, TaskMasterError>)
    ensures
        r is Ok <==> graph_after(edges@) is Some,
        r matches Ok(g) ==> g.wf() && Some(g@) == graph_after(edges@),
        r matches Err(e) ==> e is InvalidOperation,
{
    let mut graph = DependencyGraph::new();
    let n = edges.len();
    let mut i: usize = 0;
    proof {
        assert(graph_after(edges@.subrange(0, 0)) == Some(graph@)) by {
            assert(edges@.subrange(0, 0).len() == 0);
            assert(graph@ =~= (GraphView {
                dependencies: Seq::<(u32, u32)>::empty(),
                dependents: Seq::<(u32, u32)>::empty(),
            }));
        }
    }
    while i < n
        invariant
            i <= n,
            n == edges@.len(),
            graph.wf(),
            graph_after(edges@.subrange(0, i as int)) == Some(graph@),
        decreases n - i,
    {
        let e = edges[i];
        let ghost pre = graph@;
        match graph.add_dependency(e.0, e.1) {
            Ok(()) => {
                proof {
                    let prefix1 = edges@.subrange(0, i + 1);
                    assert(prefix1.drop_last() =~= edges@.subrange(0, i as int));
                    assert(prefix1.last() == e);
                    assert(graph_step(pre, e) == Some(graph@)) by {
                        assert(graph@ =~= (graph_step(pre, e)->0));
                    }
                }
            },
            Err(err) => {
                proof {
                    let prefix1 = edges@.subrange(0, i + 1);
                    assert(prefix1.drop_last() =~= edges@.subrange(0, i as int));
                    assert(prefix1.last() == e);
                    assert(graph_step(pre, e) is None);
                    assert(graph_after(prefix1) is None);
                    lemma_graph_after_none_extends(edges@, i + 1);
                }
                return Err(err);
            },
        }
        i += 1;
    }
    proof {
        assert(edges@.subrange(0, n as int) =~= edges@);
    }
    Ok(graph)
}

/// Once a prefix of the edge list is refused, the whole list is refused.
proof fn lemma_graph_after_none_extends(edges: Seq<(u32, u32)>, k: int)
    requires
        0 <= k <= edges.len(),
        graph_after(edges.subrange(0, k)) is None,
    ensures
        graph_after(edges) is None,
    decreases edges.len() - k,
{
    if k == edges.len() {
        assert(edges.subrange(0, k) =~= edges);
    } else {
        let prefix1 = edges.subrange(0, k + 1);
        assert(prefix1.drop_last() =~= edges.subrange(0, k));
        assert(graph_after(prefix1) is None);
        lemma_graph_after_none_extends(edges, k + 1);
    }
}

} // verus!
