//! The bounded cache: time-to-live keyed lookups for project and task
//! records, to avoid redundant reloads. Entries are invalidated lazily on
//! read once their age reaches the time-to-live — an expired value is
//! never returned — and a sweep evicts every stale entry at once. There
//! is no eviction policy beyond the time-to-live.

use vstd::prelude::*;
use vstd::rwlock::RwLock;

use crate::clock::now_millis;
use crate::error::TaskMasterError;
use crate::project::Project;
use crate::task::Task;

verus! {

/// An entry inserted at `inserted` is still fresh at `now` when its age
/// is below the time-to-live.
pub open spec fn spec_fresh(inserted: u64, now: u64, ttl: u64) -> bool {
    now < inserted + ttl
}

/// Whether the project entries hold `id`.
pub open spec fn has_project(s: Seq<(u32, Project, u64)>, id: u32) -> bool {
    exists|k: int| 0 <= k < s.len() && (#[trigger] s[k]).0 == id
}

/// The project entry for `id` (meaningful only when present).
pub open spec fn project_entry(s: Seq<(u32, Project, u64)>, id: u32) -> (u32, Project, u64) {
    let k = choose|k: int| 0 <= k < s.len() && (#[trigger] s[k]).0 == id;
    s[k]
}

/// Whether the task entries hold (project, task).
pub open spec fn has_task_key(s: Seq<(u32, u32, Task, u64)>, pid: u32, tid: u32) -> bool {
    exists|k: int|
        0 <= k < s.len() && (#[trigger] s[k]).0 == pid && s[k].1 == tid
}

/// The task entry for (project, task) (meaningful only when present).
pub open spec fn task_entry(s: Seq<(u32, u32, Task, u64)>, pid: u32, tid: u32) -> (
    u32,
    u32,
    Task,
    u64,
) {
    let k = choose|k: int|
        0 <= k < s.len() && (#[trigger] s[k]).0 == pid && s[k].1 == tid;
    s[k]
}

/// The project entries hold at most one entry per project identifier.
pub open spec fn projects_unique(s: Seq<(u32, Project, u64)>) -> bool {
    forall|k1: int, k2: int|
        0 <= k1 < k2 < s.len() ==> (#[trigger] s[k1]).0 != (#[trigger] s[k2]).0
}

/// The task entries hold at most one entry per (project, task) key.
pub open spec fn tasks_unique(s: Seq<(u32, u32, Task, u64)>) -> bool {
    forall|k1: int, k2: int|
        0 <= k1 < k2 < s.len() ==> ((#[trigger] s[k1]).0, s[k1].1) != ((#[trigger] s[k2]).0, s[k2].1)
}

/// Mathematical image of a [`TaskCache`].
#[verifier::ext_equal]
pub struct CacheView {
    pub projects: Seq<(u32, Project, u64)>,
    pub tasks: Seq<(u32, u32, Task, u64)>,
    /// The time-to-live, in milliseconds.
    pub ttl: u64,
}

/// The relation one [`TaskCache::add_project_at`] call establishes at
/// instant `now`: the given project is cached under its identifier with
/// that timestamp, and every other entry is untouched.
pub open spec fn project_cached(pre: CacheView, post: CacheView, project: Project, now: u64) -> bool {
    &&& post.ttl == pre.ttl
    &&& post.tasks == pre.tasks
    &&& has_project(post.projects, project.id)
    &&& project_entry(post.projects, project.id) == (project.id, project, now)
    &&& forall|x: u32|
        x != project.id ==> (has_project(post.projects, x) <==> has_project(pre.projects, x))
    &&& forall|x: u32|
        x != project.id && has_project(pre.projects, x) ==> project_entry(post.projects, x)
            == project_entry(pre.projects, x)
}

/// The relation one [`TaskCache::get_project_at`] call establishes at
/// instant `now`: a fresh entry is returned unchanged, a stale entry is
/// evicted (and only it), an absent key changes nothing.
pub open spec fn project_looked_up(
    pre: CacheView,
    post: CacheView,
    id: u32,
    r: Option<Project>,
    now: u64,
) -> bool {
    &&& (!has_project(pre.projects, id) ==> r is None && post == pre)
    &&& (has_project(pre.projects, id) && spec_fresh(
        project_entry(pre.projects, id).2,
        now,
        pre.ttl,
    ) ==> ({
        &&& post == pre
        &&& r is Some
        &&& (r->0)@ == project_entry(pre.projects, id).1@
    }))
    &&& (has_project(pre.projects, id) && !spec_fresh(
        project_entry(pre.projects, id).2,
        now,
        pre.ttl,
    ) ==> ({
        &&& r is None
        &&& post.ttl == pre.ttl
        &&& post.tasks == pre.tasks
        &&& !has_project(post.projects, id)
        &&& forall|x: u32|
            x != id ==> (has_project(post.projects, x) <==> has_project(pre.projects, x))
        &&& forall|x: u32|
            x != id && has_project(pre.projects, x) ==> project_entry(post.projects, x)
                == project_entry(pre.projects, x)
    }))
}

/// The relation one [`TaskCache::add_task_at`] call establishes at
/// instant `now`.
pub open spec fn task_cached(
    pre: CacheView,
    post: CacheView,
    project_id: u32,
    task: Task,
    now: u64,
) -> bool {
    &&& post.ttl == pre.ttl
    &&& post.projects == pre.projects
    &&& has_task_key(post.tasks, project_id, task.id)
    &&& task_entry(post.tasks, project_id, task.id) == (project_id, task.id, task, now)
    &&& forall|px: u32, tx: u32|
        !(px == project_id && tx == task.id) ==> (has_task_key(post.tasks, px, tx)
            <==> has_task_key(pre.tasks, px, tx))
    &&& forall|px: u32, tx: u32|
        !(px == project_id && tx == task.id) && has_task_key(pre.tasks, px, tx) ==> task_entry(
            post.tasks,
            px,
            tx,
        ) == task_entry(pre.tasks, px, tx)
}

/// The relation one [`TaskCache::get_task_at`] call establishes at
/// instant `now`.
pub open spec fn task_looked_up(
    pre: CacheView,
    post: CacheView,
    project_id: u32,
    task_id: u32,
    r: Option<Task>,
    now: u64,
) -> bool {
    &&& (!has_task_key(pre.tasks, project_id, task_id) ==> r is None && post == pre)
    &&& (has_task_key(pre.tasks, project_id, task_id) && spec_fresh(
        task_entry(pre.tasks, project_id, task_id).3,
        now,
        pre.ttl,
    ) ==> ({
        &&& post == pre
        &&& r is Some
        &&& (r->0)@ == task_entry(pre.tasks, project_id, task_id).2@
    }))
    &&& (has_task_key(pre.tasks, project_id, task_id) && !spec_fresh(
        task_entry(pre.tasks, project_id, task_id).3,
        now,
        pre.ttl,
    ) ==> ({
        &&& r is None
        &&& post.ttl == pre.ttl
        &&& post.projects == pre.projects
        &&& !has_task_key(post.tasks, project_id, task_id)
        &&& forall|px: u32, tx: u32|
            !(px == project_id && tx == task_id) ==> (has_task_key(post.tasks, px, tx)
                <==> has_task_key(pre.tasks, px, tx))
        &&& forall|px: u32, tx: u32|
            !(px == project_id && tx == task_id) && has_task_key(pre.tasks, px, tx)
                ==> task_entry(post.tasks, px, tx) == task_entry(pre.tasks, px, tx)
    }))
}

/// A time-to-live keyed cache of project and task records.
pub struct TaskCache {
    projects: Vec<(u32, Project, u64)>,
    tasks: Vec<(u32, u32, Task, u64)>,
    ttl: u64,
}

impl View for TaskCache {
    type V = CacheView;

    closed spec fn view(&self) -> CacheView {
        CacheView { projects: self.projects@, tasks: self.tasks@, ttl: self.ttl }
    }
}

impl TaskCache {
    /// At most one entry per key.
    pub open spec fn wf(&self) -> bool {
        &&& projects_unique(self@.projects)
        &&& tasks_unique(self@.tasks)
    }

    /// A fresh, empty cache with a time-to-live of `ttl_seconds` whole
    /// seconds.
    pub fn new(ttl_seconds: u64) -> (c: TaskCache)
        requires
            ttl_seconds <= u64::MAX / 1000,
        ensures
            c.wf(),
            c@.projects == Seq::<(u32, Project, u64)>::empty(),
            c@.tasks == Seq::<(u32, u32, Task, u64)>::empty(),
            c@.ttl == ttl_seconds * 1000,
    {
        TaskCache { projects: Vec::new(), tasks: Vec::new(), ttl: ttl_seconds * 1000 }
    }

    /// Cache a project under its identifier as of instant `now`,
    /// replacing any previous entry for it.
    pub fn add_project_at(&mut self, project: Project, now: u64)
        requires
            old(self).wf(),
        ensures
            final(self).wf(),
            project_cached(old(self)@, final(self)@, project, now),
    {
        let ghost s = self@.projects;
        let id = project.id;
        let n = self.projects.len();
        let mut i: usize = 0;
        while i < n
            invariant
                i <= n,
                n == self@.projects.len(),
                self@ == old(self)@,
                s == old(self)@.projects,
                old(self).wf(),
                id == project.id,
                forall|j: int| 0 <= j < i ==> (#[trigger] s[j]).0 != id,
            decreases n - i,
        {
            if self.projects[i].0 == id {
                let ghost k = i as int;
                self.projects.remove(i);
                self.projects.insert(i, (id, project, now));
                proof {
                    assert(self@.projects =~= s.update(k, (id, project, now)));
                    lemma_project_update(s, self@.projects, k, id, project, now);
                }
                return ;
            }
            i += 1;
        }
        self.projects.push((id, project, now));
        proof {
            assert(self@.projects =~= s.push((id, project, now)));
            assert(!has_project(s, id));
            lemma_project_push(s, self@.projects, id, project, now);
        }
    }

    /// Cache a project at the current instant; see
    /// [`Self::add_project_at`].
    pub fn add_project(&mut self, project: Project)
        requires
            old(self).wf(),
        ensures
            final(self).wf(),
            exists|now: u64| #[trigger] project_cached(old(self)@, final(self)@, project, now),
            has_project(final(self)@.projects, project.id),
            project_entry(final(self)@.projects, project.id).1 == project,
            forall|x: u32|
                x != project.id ==> (has_project(final(self)@.projects, x) <==> has_project(
                    old(self)@.projects,
                    x,
                )),
    {
        let ghost pre = self@;
        let now = now_millis();
        self.add_project_at(project, now);
        proof {
            assert(project_cached(pre, self@, project, now));
        }
    }

    /// Look up the cached project for `id` as of instant `now`: a fresh
    /// entry is returned as a copy; a stale entry is evicted in place and
    /// absence reported instead — an expired value is never returned.
    pub fn get_project_at(&mut self, id: u32, now: u64) -> (r: Option<Project>)
        requires
            old(self).wf(),
        ensures
            final(self).wf(),
            final(self)@.ttl == old(self)@.ttl,
            final(self)@.tasks == old(self)@.tasks,
            project_looked_up(old(self)@, final(self)@, id, r, now),
    {
        let ghost s = self@.projects;
        let n = self.projects.len();
        let mut i: usize = 0;
        while i < n
            invariant
                i <= n,
                n == self@.projects.len(),
                self@ == old(self)@,
                s == old(self)@.projects,
                old(self).wf(),
                forall|j: int| 0 <= j < i ==> (#[trigger] s[j]).0 != id,
            decreases n - i,
        {
            if self.projects[i].0 == id {
                proof {
                    let k = choose|k: int| 0 <= k < s.len() && (#[trigger] s[k]).0 == id;
                    assert(k == i as int);
                    assert(project_entry(s, id) == s[i as int]);
                }
                let inserted = self.projects[i].2;
                if now < inserted || now - inserted < self.ttl {
                    proof {
                        assert(spec_fresh(s[i as int].2, now, self@.ttl));
                    }
                    let p = self.projects[i].1.clone();
                    return Some(p);
                }
                proof {
                    assert(!spec_fresh(s[i as int].2, now, self@.ttl));
                }
                let ghost k = i as int;
                self.projects.remove(i);
                proof {
                    assert(self@.projects == s.remove(k));
                    lemma_project_remove(s, self@.projects, k, id);
                }
                return None;
            }
            i += 1;
        }
        proof {
            if has_project(s, id) {
                let k = choose|k: int| 0 <= k < s.len() && (#[trigger] s[k]).0 == id;
            }
            assert(!has_project(s, id));
            assert(self@ =~= old(self)@);
        }
        None
    }

    /// Look up the cached project for `id` at the current instant; see
    /// [`Self::get_project_at`] for the exact per-instant contract.
    pub fn get_project(&mut self, id: u32) -> (r: Option<Project>)
        requires
            old(self).wf(),
        ensures
            final(self).wf(),
            final(self)@.ttl == old(self)@.ttl,
            final(self)@.tasks == old(self)@.tasks,
            exists|now: u64| #[trigger] project_looked_up(old(self)@, final(self)@, id, r, now),
            !has_project(old(self)@.projects, id) ==> r is None && final(self)@ == old(self)@,
            r matches Some(p) ==> has_project(old(self)@.projects, id) && p@ == project_entry(
                old(self)@.projects,
                id,
            ).1@ && final(self)@ == old(self)@,
    {
        let ghost pre = self@;
        let now = now_millis();
        let r = self.get_project_at(id, now);
        proof {
            assert(project_looked_up(pre, self@, id, r, now));
        }
        r
    }

    /// Cache a task under (project, task identifier) as of instant `now`,
    /// replacing any previous entry for that key.
    pub fn add_task_at(&mut self, project_id: u32, task: Task, now: u64)
        requires
            old(self).wf(),
        ensures
            final(self).wf(),
            task_cached(old(self)@, final(self)@, project_id, task, now),
    {
        let ghost s = self@.tasks;
        let tid = task.id;
        let n = self.tasks.len();
        let mut i: usize = 0;
        while i < n
            invariant
                i <= n,
                n == self@.tasks.len(),
                self@ == old(self)@,
                s == old(self)@.tasks,
                old(self).wf(),
                tid == task.id,
                forall|j: int|
                    0 <= j < i ==> !((#[trigger] s[j]).0 == project_id && s[j].1 == tid),
            decreases n - i,
        {
            if self.tasks[i].0 == project_id && self.tasks[i].1 == tid {
                let ghost k = i as int;
                self.tasks.remove(i);
                self.tasks.insert(i, (project_id, tid, task, now));
                proof {
                    assert(self@.tasks =~= s.update(k, (project_id, tid, task, now)));
                    lemma_task_update(s, self@.tasks, k, project_id, tid, task, now);
                }
                return ;
            }
            i += 1;
        }
        self.tasks.push((project_id, tid, task, now));
        proof {
            assert(self@.tasks =~= s.push((project_id, tid, task, now)));
            assert(!has_task_key(s, project_id, tid));
            lemma_task_push(s, self@.tasks, project_id, tid, task, now);
        }
    }

    /// Cache a task at the current instant; see [`Self::add_task_at`].
    pub fn add_task(&mut self, project_id: u32, task: Task)
        requires
            old(self).wf(),
        ensures
            final(self).wf(),
            exists|now: u64|
                #[trigger] task_cached(old(self)@, final(self)@, project_id, task, now),
            has_task_key(final(self)@.tasks, project_id, task.id),
            task_entry(final(self)@.tasks, project_id, task.id).2 == task,
            forall|px: u32, tx: u32|
                !(px == project_id && tx == task.id) ==> (has_task_key(
                    final(self)@.tasks,
                    px,
                    tx,
                ) <==> has_task_key(old(self)@.tasks, px, tx)),
    {
        let ghost pre = self@;
        let now = now_millis();
        self.add_task_at(project_id, task, now);
        proof {
            assert(task_cached(pre, self@, project_id, task, now));
        }
    }

    /// Look up the cached task for (project, task identifier) as of
    /// instant `now`; freshness and in-place eviction behave as for
    /// [`Self::get_project_at`].
    pub fn get_task_at(&mut self, project_id: u32, task_id: u32, now: u64) -> (r: Option<Task>)
        requires
            old(self).wf(),
        ensures
            final(self).wf(),
            final(self)@.ttl == old(self)@.ttl,
            final(self)@.projects == old(self)@.projects,
            task_looked_up(old(self)@, final(self)@, project_id, task_id, r, now),
    {
        let ghost s = self@.tasks;
        let n = self.tasks.len();
        let mut i: usize = 0;
        while i < n
            invariant
                i <= n,
                n == self@.tasks.len(),
                self@ == old(self)@,
                s == old(self)@.tasks,
                old(self).wf(),
                forall|j: int|
                    0 <= j < i ==> !((#[trigger] s[j]).0 == project_id && s[j].1 == task_id),
            decreases n - i,
        {
            if self.tasks[i].0 == project_id && self.tasks[i].1 == task_id {
                proof {
                    let k = choose|k: int|
                        0 <= k < s.len() && (#[trigger] s[k]).0 == project_id && s[k].1 == task_id;
                    assert(k == i as int);
                    assert(task_entry(s, project_id, task_id) == s[i as int]);
                }
                let inserted = self.tasks[i].3;
                if now < inserted || now - inserted < self.ttl {
                    proof {
                        assert(spec_fresh(s[i as int].3, now, self@.ttl));
                    }
                    let t = self.tasks[i].2.clone();
                    return Some(t);
                }
                proof {
                    assert(!spec_fresh(s[i as int].3, now, self@.ttl));
                }
                let ghost k = i as int;
                self.tasks.remove(i);
                proof {
                    assert(self@.tasks == s.remove(k));
                    lemma_task_remove(s, self@.tasks, k, project_id, task_id);
                }
                return None;
            }
            i += 1;
        }
        proof {
            if has_task_key(s, project_id, task_id) {
                let k = choose|k: int|
                    0 <= k < s.len() && (#[trigger] s[k]).0 == project_id && s[k].1 == task_id;
            }
            assert(!has_task_key(s, project_id, task_id));
            assert(self@ =~= old(self)@);
        }
        None
    }

    /// Look up the cached task at the current instant; see
    /// [`Self::get_task_at`] for the exact per-instant contract.
    pub fn get_task(&mut self, project_id: u32, task_id: u32) -> (r: Option<Task>)
        requires
            old(self).wf(),
        ensures
            final(self).wf(),
            final(self)@.ttl == old(self)@.ttl,
            final(self)@.projects == old(self)@.projects,
            exists|now: u64|
                #[trigger] task_looked_up(old(self)@, final(self)@, project_id, task_id, r, now),
            !has_task_key(old(self)@.tasks, project_id, task_id) ==> r is None && final(self)@
                == old(self)@,
            r matches Some(t) ==> has_task_key(old(self)@.tasks, project_id, task_id) && t@
                == task_entry(old(self)@.tasks, project_id, task_id).2@ && final(self)@ == old(
                self,
            )@,
    {
        let ghost pre = self@;
        let now = now_millis();
        let r = self.get_task_at(project_id, task_id, now);
        proof {
            assert(task_looked_up(pre, self@, project_id, task_id, r, now));
        }
        r
    }

    /// Drop every cached entry.
    pub fn clear(&mut self)
        ensures
            final(self).wf(),
            final(self)@.ttl == old(self)@.ttl,
            final(self)@.projects == Seq::<(u32, Project, u64)>::empty(),
            final(self)@.tasks == Seq::<(u32, u32, Task, u64)>::empty(),
    {
        self.projects.clear();
        self.tasks.clear();
    }

    /// Proactively evict every entry whose age has reached the
    /// time-to-live as of instant `now`, independent of reads; the
    /// surviving entries keep their order.
    pub fn cleanup_expired_at(&mut self, now: u64)
        requires
            old(self).wf(),
        ensures
            final(self).wf(),
            final(self)@.ttl == old(self)@.ttl,
            final(self)@.projects == old(self)@.projects.filter(
                |e: (u32, Project, u64)| spec_fresh(e.2, now, old(self)@.ttl),
            ),
            final(self)@.tasks == old(self)@.tasks.filter(
                |e: (u32, u32, Task, u64)| spec_fresh(e.3, now, old(self)@.ttl),
            ),
    {
        let ghost sp = self@.projects;
        let ghost st = self@.tasks;
        let ghost ttl = self@.ttl;
        let ghost pp = |e: (u32, Project, u64)| spec_fresh(e.2, now, ttl);
        let ghost pt = |e: (u32, u32, Task, u64)| spec_fresh(e.3, now, ttl);
        let mut kept_p: Vec<(u32, Project, u64)> = Vec::new();
        proof {
            assert(sp.subrange(0, 0).filter(pp) =~= Seq::<(u32, Project, u64)>::empty());
            assert(self.projects@ =~= sp.subrange(0, sp.len() as int));
        }
        while self.projects.len() > 0
            invariant
                self@.ttl == ttl,
                self@.tasks == st,
                st == old(self)@.tasks,
                sp == old(self)@.projects,
                ttl == old(self)@.ttl,
                old(self).wf(),
                self.projects@.len() <= sp.len(),
                self.projects@ == sp.subrange(
                    sp.len() - self.projects@.len(),
                    sp.len() as int,
                ),
                kept_p@ == sp.subrange(0, sp.len() - self.projects@.len()).filter(pp),
                pp == |e: (u32, Project, u64)| spec_fresh(e.2, now, ttl),
            decreases self.projects@.len(),
        {
            let ghost done = sp.len() - self.projects@.len();
            let e = self.projects.remove(0);
            proof {
                assert(e == sp[done]);
                assert(self.projects@ =~= sp.subrange(done + 1, sp.len() as int));
                let pre = sp.subrange(0, done);
                let one = sp.subrange(done, done + 1);
                assert(one =~= seq![sp[done]]);
                assert(pre + one =~= sp.subrange(0, done + 1));
                Seq::filter_distributes_over_add(pre, one, pp);
                crate::instants::lemma_filter_singleton(sp[done], pp);
            }
            let inserted = e.2;
            let fresh_now = now < inserted || now - inserted < self.ttl;
            if fresh_now {
                proof {
                    assert(pp(sp[done]));
                }
                kept_p.push(e);
                proof {
                    assert(kept_p@ =~= sp.subrange(0, done + 1).filter(pp));
                }
            } else {
                proof {
                    assert(!pp(sp[done]));
                    assert(kept_p@ =~= sp.subrange(0, done + 1).filter(pp));
                }
            }
        }
        proof {
            assert(sp.subrange(0, sp.len() as int) =~= sp);
        }
        self.projects = kept_p;
        let mut kept_t: Vec<(u32, u32, Task, u64)> = Vec::new();
        proof {
            assert(st.subrange(0, 0).filter(pt) =~= Seq::<(u32, u32, Task, u64)>::empty());
            assert(self.tasks@ =~= st.subrange(0, st.len() as int));
        }
        while self.tasks.len() > 0
            invariant
                self@.ttl == ttl,
                self@.projects == sp.filter(pp),
                sp == old(self)@.projects,
                st == old(self)@.tasks,
                ttl == old(self)@.ttl,
                old(self).wf(),
                self.tasks@.len() <= st.len(),
                self.tasks@ == st.subrange(st.len() - self.tasks@.len(), st.len() as int),
                kept_t@ == st.subrange(0, st.len() - self.tasks@.len()).filter(pt),
                pp == |e: (u32, Project, u64)| spec_fresh(e.2, now, ttl),
                pt == |e: (u32, u32, Task, u64)| spec_fresh(e.3, now, ttl),
            decreases self.tasks@.len(),
        {
            let ghost done = st.len() - self.tasks@.len();
            let e = self.tasks.remove(0);
            proof {
                assert(e == st[done]);
                assert(self.tasks@ =~= st.subrange(done + 1, st.len() as int));
                let pre = st.subrange(0, done);
                let one = st.subrange(done, done + 1);
                assert(one =~= seq![st[done]]);
                assert(pre + one =~= st.subrange(0, done + 1));
                Seq::filter_distributes_over_add(pre, one, pt);
                crate::instants::lemma_filter_singleton(st[done], pt);
            }
            let inserted = e.3;
            let fresh_now = now < inserted || now - inserted < self.ttl;
            if fresh_now {
                proof {
                    assert(pt(st[done]));
                }
                kept_t.push(e);
                proof {
                    assert(kept_t@ =~= st.subrange(0, done + 1).filter(pt));
                }
            } else {
                proof {
                    assert(!pt(st[done]));
                    assert(kept_t@ =~= st.subrange(0, done + 1).filter(pt));
                }
            }
        }
        proof {
            assert(st.subrange(0, st.len() as int) =~= st);
        }
        self.tasks = kept_t;
        proof {
            lemma_project_filter_unique(sp, pp);
            lemma_task_filter_unique(st, pt);
        }
    }

    /// Proactively evict every stale entry at the current instant; see
    /// [`Self::cleanup_expired_at`] for the exact per-instant contract.
    pub fn cleanup_expired(&mut self)
        requires
            old(self).wf(),
        ensures
            final(self).wf(),
            final(self)@.ttl == old(self)@.ttl,
            exists|now: u64| #[trigger] cleaned_up(old(self)@, final(self)@, now),
    {
        let now = now_millis();
        self.cleanup_expired_at(now);
        proof {
            assert(cleaned_up(old(self)@, final(self)@, now));
        }
    }
}

/// The relation one sweep of [`TaskCache::cleanup_expired_at`] establishes
/// at instant `now`: exactly the still-fresh entries survive, in order.
pub open spec fn cleaned_up(pre: CacheView, post: CacheView, now: u64) -> bool {
    &&& post.projects == pre.projects.filter(
        |e: (u32, Project, u64)| spec_fresh(e.2, now, pre.ttl),
    )
    &&& post.tasks == pre.tasks.filter(|e: (u32, u32, Task, u64)| spec_fresh(e.3, now, pre.ttl))
}

/// Cache law: a value inserted at `at` and queried once its age has
/// reached the time-to-live is absent — the lookup reports nothing — and
/// a subsequent sweep finds nothing left for that key either.
pub proof fn lemma_expired_entry_is_gone(c: TaskCache, id: u32, now: u64)
    requires
        c.wf(),
        has_project(c@.projects, id),
        !spec_fresh(project_entry(c@.projects, id).2, now, c@.ttl),
    ensures
        !has_project(
            c@.projects.filter(|e: (u32, Project, u64)| spec_fresh(e.2, now, c@.ttl)),
            id,
        ),
{
    let p = |e: (u32, Project, u64)| spec_fresh(e.2, now, c@.ttl);
    let s = c@.projects;
    let k = choose|k: int| 0 <= k < s.len() && (#[trigger] s[k]).0 == id;
    if has_project(s.filter(p), id) {
        let j = choose|j: int| 0 <= j < s.filter(p).len() && (#[trigger] s.filter(p)[j]).0 == id;
        lemma_project_filter_element(s, p, j);
        let k2 = choose|k2: int| 0 <= k2 < s.len() && s[k2] == s.filter(p)[j];
        assert(s[k2].0 == id && s[k].0 == id);
        assert(k2 == k);
        s.lemma_filter_pred(p, j);
        assert(p(s[k]));
        assert(project_entry(s, id) == s[k]);
    }
}

/// Every element of a filtered project list occurs in the original.
proof fn lemma_project_filter_element(
    s: Seq<(u32, Project, u64)>,
    p: spec_fn((u32, Project, u64)) -> bool,
    k: int,
)
    requires
        0 <= k < s.filter(p).len(),
    ensures
        exists|j: int| 0 <= j < s.len() && s[j] == s.filter(p)[k],
    decreases s.len(),
{
    reveal(Seq::filter);
    if s.len() > 0 {
        let rest = s.drop_last();
        let fr = rest.filter(p);
        if p(s.last()) && k == s.filter(p).len() - 1 {
            assert(s[s.len() - 1] == s.filter(p)[k]);
        } else {
            assert(s.filter(p)[k] == fr[k]);
            lemma_project_filter_element(rest, p, k);
            let j = choose|j: int| 0 <= j < rest.len() && rest[j] == fr[k];
            assert(s[j] == s.filter(p)[k]);
        }
    }
}

/// A filtered project list keeps its keys unique.
proof fn lemma_project_filter_unique(
    s: Seq<(u32, Project, u64)>,
    p: spec_fn((u32, Project, u64)) -> bool,
)
    requires
        projects_unique(s),
    ensures
        projects_unique(s.filter(p)),
    decreases s.len(),
{
    reveal(Seq::filter);
    if s.len() > 0 {
        let rest = s.drop_last();
        lemma_project_filter_unique(rest, p);
        let f = s.filter(p);
        let fr = rest.filter(p);
        rest.lemma_filter_len(p);
        assert forall|k1: int, k2: int|
            0 <= k1 < k2 < f.len() implies (#[trigger] f[k1]).0 != (#[trigger] f[k2]).0 by {
            if p(s.last()) {
                assert(f == fr.push(s.last()));
                if k2 < fr.len() {
                    assert(f[k1] == fr[k1] && f[k2] == fr[k2]);
                } else {
                    assert(f[k2] == s.last());
                    assert(f[k1] == fr[k1]);
                    lemma_project_filter_element(rest, p, k1);
                    let j = choose|j: int| 0 <= j < rest.len() && rest[j] == fr[k1];
                    assert(s[j] == fr[k1]);
                    assert(s[s.len() - 1] == s.last());
                    assert(s[j].0 != s.last().0);
                }
            } else {
                assert(f == fr);
            }
        }
    }
}

/// Every element of a filtered task list occurs in the original.
proof fn lemma_task_filter_element(
    s: Seq<(u32, u32, Task, u64)>,
    p: spec_fn((u32, u32, Task, u64)) -> bool,
    k: int,
)
    requires
        0 <= k < s.filter(p).len(),
    ensures
        exists|j: int| 0 <= j < s.len() && s[j] == s.filter(p)[k],
    decreases s.len(),
{
    reveal(Seq::filter);
    if s.len() > 0 {
        let rest = s.drop_last();
        let fr = rest.filter(p);
        if p(s.last()) && k == s.filter(p).len() - 1 {
            assert(s[s.len() - 1] == s.filter(p)[k]);
        } else {
            assert(s.filter(p)[k] == fr[k]);
            lemma_task_filter_element(rest, p, k);
            let j = choose|j: int| 0 <= j < rest.len() && rest[j] == fr[k];
            assert(s[j] == s.filter(p)[k]);
        }
    }
}

/// A filtered task list keeps its keys unique.
proof fn lemma_task_filter_unique(
    s: Seq<(u32, u32, Task, u64)>,
    p: spec_fn((u32, u32, Task, u64)) -> bool,
)
    requires
        tasks_unique(s),
    ensures
        tasks_unique(s.filter(p)),
    decreases s.len(),
{
    reveal(Seq::filter);
    if s.len() > 0 {
        let rest = s.drop_last();
        lemma_task_filter_unique(rest, p);
        let f = s.filter(p);
        let fr = rest.filter(p);
        rest.lemma_filter_len(p);
        assert forall|k1: int, k2: int|
            0 <= k1 < k2 < f.len() implies ((#[trigger] f[k1]).0, f[k1].1) != ((
            #[trigger] f[k2]).0, f[k2].1) by {
            if p(s.last()) {
                assert(f == fr.push(s.last()));
                if k2 < fr.len() {
                    assert(f[k1] == fr[k1] && f[k2] == fr[k2]);
                } else {
                    assert(f[k2] == s.last());
                    assert(f[k1] == fr[k1]);
                    lemma_task_filter_element(rest, p, k1);
                    let j = choose|j: int| 0 <= j < rest.len() && rest[j] == fr[k1];
                    assert(s[j] == fr[k1]);
                    assert(s[s.len() - 1] == s.last());
                    assert((s[j].0, s[j].1) != (s.last().0, s.last().1));
                }
            } else {
                assert(f == fr);
            }
        }
    }
}

/// Replacing one project entry in place keeps every other key's entry.
proof fn lemma_project_update(
    s: Seq<(u32, Project, u64)>,
    t: Seq<(u32, Project, u64)>,
    k: int,
    id: u32,
    project: Project,
    now: u64,
)
    requires
        projects_unique(s),
        0 <= k < s.len(),
        s[k].0 == id,
        project.id == id,
        t == s.update(k, (id, project, now)),
    ensures
        projects_unique(t),
        has_project(t, id),
        project_entry(t, id) == (id, project, now),
        forall|x: u32| x != id ==> (has_project(t, x) <==> has_project(s, x)),
        forall|x: u32|
            x != id && has_project(s, x) ==> project_entry(t, x) == project_entry(s, x),
{
    assert forall|k1: int, k2: int|
        0 <= k1 < k2 < t.len() implies (#[trigger] t[k1]).0 != (#[trigger] t[k2]).0 by {
        assert(t[k1].0 == s[k1].0 && t[k2].0 == s[k2].0);
    }
    assert(t[k].0 == id);
    assert(project_entry(t, id) == (id, project, now)) by {
        let k1 = choose|k1: int| 0 <= k1 < t.len() && (#[trigger] t[k1]).0 == id;
        if k1 != k {
            assert(s[k1].0 == id && s[k].0 == id);
            assert(false);
        }
    }
    assert forall|x: u32| x != id implies (has_project(t, x) <==> has_project(s, x)) by {
        if has_project(t, x) {
            let k1 = choose|k1: int| 0 <= k1 < t.len() && (#[trigger] t[k1]).0 == x;
            assert(k1 != k);
            assert(s[k1].0 == x);
        }
        if has_project(s, x) {
            let k1 = choose|k1: int| 0 <= k1 < s.len() && (#[trigger] s[k1]).0 == x;
            assert(k1 != k);
            assert(t[k1].0 == x);
        }
    }
    assert forall|x: u32| x != id && has_project(s, x) implies project_entry(t, x)
        == project_entry(s, x) by {
        let k1 = choose|k1: int| 0 <= k1 < t.len() && (#[trigger] t[k1]).0 == x;
        let k2 = choose|k2: int| 0 <= k2 < s.len() && (#[trigger] s[k2]).0 == x;
        assert(k1 != k);
        assert(s[k1].0 == x);
        assert(k1 == k2);
    }
}

/// Appending a fresh project key keeps every other key's entry.
proof fn lemma_project_push(
    s: Seq<(u32, Project, u64)>,
    t: Seq<(u32, Project, u64)>,
    id: u32,
    project: Project,
    now: u64,
)
    requires
        projects_unique(s),
        !has_project(s, id),
        project.id == id,
        t == s.push((id, project, now)),
    ensures
        projects_unique(t),
        has_project(t, id),
        project_entry(t, id) == (id, project, now),
        forall|x: u32| x != id ==> (has_project(t, x) <==> has_project(s, x)),
        forall|x: u32|
            x != id && has_project(s, x) ==> project_entry(t, x) == project_entry(s, x),
{
    assert(t[s.len() as int] == (id, project, now));
    assert forall|k1: int, k2: int|
        0 <= k1 < k2 < t.len() implies (#[trigger] t[k1]).0 != (#[trigger] t[k2]).0 by {
        if k2 < s.len() {
            assert(t[k1].0 == s[k1].0 && t[k2].0 == s[k2].0);
        } else {
            assert(t[k2].0 == id);
            assert(t[k1] == s[k1]);
            if s[k1].0 == id {
                assert(has_project(s, id));
            }
        }
    }
    assert(has_project(t, id));
    assert(project_entry(t, id) == (id, project, now)) by {
        let k1 = choose|k1: int| 0 <= k1 < t.len() && (#[trigger] t[k1]).0 == id;
        if k1 < s.len() {
            assert(s[k1].0 == id);
            assert(has_project(s, id));
        }
    }
    assert forall|x: u32| x != id implies (has_project(t, x) <==> has_project(s, x)) by {
        if has_project(t, x) {
            let k1 = choose|k1: int| 0 <= k1 < t.len() && (#[trigger] t[k1]).0 == x;
            assert(k1 < s.len());
            assert(s[k1].0 == x);
        }
        if has_project(s, x) {
            let k1 = choose|k1: int| 0 <= k1 < s.len() && (#[trigger] s[k1]).0 == x;
            assert(t[k1].0 == x);
        }
    }
    assert forall|x: u32| x != id && has_project(s, x) implies project_entry(t, x)
        == project_entry(s, x) by {
        let k1 = choose|k1: int| 0 <= k1 < t.len() && (#[trigger] t[k1]).0 == x;
        let k2 = choose|k2: int| 0 <= k2 < s.len() && (#[trigger] s[k2]).0 == x;
        assert(k1 < s.len());
        assert(s[k1].0 == x);
        assert(k1 == k2);
    }
}

/// Removing one project entry keeps every other key's entry.
proof fn lemma_project_remove(
    s: Seq<(u32, Project, u64)>,
    t: Seq<(u32, Project, u64)>,
    k: int,
    id: u32,
)
    requires
        projects_unique(s),
        0 <= k < s.len(),
        s[k].0 == id,
        t == s.remove(k),
    ensures
        projects_unique(t),
        !has_project(t, id),
        forall|x: u32| x != id ==> (has_project(t, x) <==> has_project(s, x)),
        forall|x: u32|
            x != id && has_project(s, x) ==> project_entry(t, x) == project_entry(s, x),
{
    let lift = |k1: int| if k1 < k {
        k1
    } else {
        k1 + 1
    };
    assert forall|k1: int| 0 <= k1 < t.len() implies t[k1] == s[lift(k1)] by {}
    assert forall|k1: int, k2: int|
        0 <= k1 < k2 < t.len() implies (#[trigger] t[k1]).0 != (#[trigger] t[k2]).0 by {
        assert(t[k1] == s[lift(k1)] && t[k2] == s[lift(k2)]);
        assert(lift(k1) < lift(k2));
    }
    assert(!has_project(t, id)) by {
        if has_project(t, id) {
            let k1 = choose|k1: int| 0 <= k1 < t.len() && (#[trigger] t[k1]).0 == id;
            assert(t[k1] == s[lift(k1)]);
            assert(lift(k1) != k);
            assert(s[lift(k1)].0 == id && s[k].0 == id);
            assert(false);
        }
    }
    assert forall|x: u32| x != id implies (has_project(t, x) <==> has_project(s, x)) by {
        if has_project(t, x) {
            let k1 = choose|k1: int| 0 <= k1 < t.len() && (#[trigger] t[k1]).0 == x;
            assert(t[k1] == s[lift(k1)]);
            assert(s[lift(k1)].0 == x);
        }
        if has_project(s, x) {
            let k1 = choose|k1: int| 0 <= k1 < s.len() && (#[trigger] s[k1]).0 == x;
            assert(k1 != k);
            if k1 < k {
                assert(t[k1] == s[k1]);
            } else {
                assert(t[k1 - 1] == s[k1]);
            }
        }
    }
    assert forall|x: u32| x != id && has_project(s, x) implies project_entry(t, x)
        == project_entry(s, x) by {
        let k1 = choose|k1: int| 0 <= k1 < t.len() && (#[trigger] t[k1]).0 == x;
        let k2 = choose|k2: int| 0 <= k2 < s.len() && (#[trigger] s[k2]).0 == x;
        assert(t[k1] == s[lift(k1)]);
        assert(s[lift(k1)].0 == x);
        assert(lift(k1) == k2);
    }
}

/// Replacing one task entry in place keeps every other key's entry.
proof fn lemma_task_update(
    s: Seq<(u32, u32, Task, u64)>,
    t: Seq<(u32, u32, Task, u64)>,
    k: int,
    pid: u32,
    tid: u32,
    task: Task,
    now: u64,
)
    requires
        tasks_unique(s),
        0 <= k < s.len(),
        s[k].0 == pid && s[k].1 == tid,
        task.id == tid,
        t == s.update(k, (pid, tid, task, now)),
    ensures
        tasks_unique(t),
        has_task_key(t, pid, tid),
        task_entry(t, pid, tid) == (pid, tid, task, now),
        forall|px: u32, tx: u32|
            !(px == pid && tx == tid) ==> (has_task_key(t, px, tx) <==> has_task_key(s, px, tx)),
        forall|px: u32, tx: u32|
            !(px == pid && tx == tid) && has_task_key(s, px, tx) ==> task_entry(t, px, tx)
                == task_entry(s, px, tx),
{
    assert forall|k1: int, k2: int|
        0 <= k1 < k2 < t.len() implies ((#[trigger] t[k1]).0, t[k1].1) != ((#[trigger] t[k2]).0, t[k2].1) by {
        assert((t[k1].0, t[k1].1) == (s[k1].0, s[k1].1));
        assert((t[k2].0, t[k2].1) == (s[k2].0, s[k2].1));
    }
    assert(t[k].0 == pid && t[k].1 == tid);
    assert(task_entry(t, pid, tid) == (pid, tid, task, now)) by {
        let k1 = choose|k1: int|
            0 <= k1 < t.len() && (#[trigger] t[k1]).0 == pid && t[k1].1 == tid;
        if k1 != k {
            assert((s[k1].0, s[k1].1) == (pid, tid) && (s[k].0, s[k].1) == (pid, tid));
            assert(false);
        }
    }
    assert forall|px: u32, tx: u32|
        !(px == pid && tx == tid) implies (has_task_key(t, px, tx) <==> has_task_key(
        s,
        px,
        tx,
    )) by {
        if has_task_key(t, px, tx) {
            let k1 = choose|k1: int|
                0 <= k1 < t.len() && (#[trigger] t[k1]).0 == px && t[k1].1 == tx;
            assert(k1 != k);
            assert(s[k1].0 == px && s[k1].1 == tx);
        }
        if has_task_key(s, px, tx) {
            let k1 = choose|k1: int|
                0 <= k1 < s.len() && (#[trigger] s[k1]).0 == px && s[k1].1 == tx;
            assert(k1 != k);
            assert(t[k1].0 == px && t[k1].1 == tx);
        }
    }
    assert forall|px: u32, tx: u32|
        !(px == pid && tx == tid) && has_task_key(s, px, tx) implies task_entry(t, px, tx)
        == task_entry(s, px, tx) by {
        let k1 = choose|k1: int|
            0 <= k1 < t.len() && (#[trigger] t[k1]).0 == px && t[k1].1 == tx;
        let k2 = choose|k2: int|
            0 <= k2 < s.len() && (#[trigger] s[k2]).0 == px && s[k2].1 == tx;
        assert(k1 != k);
        assert(s[k1].0 == px && s[k1].1 == tx);
        assert(k1 == k2);
    }
}

/// Appending a fresh task key keeps every other key's entry.
proof fn lemma_task_push(
    s: Seq<(u32, u32, Task, u64)>,
    t: Seq<(u32, u32, Task, u64)>,
    pid: u32,
    tid: u32,
    task: Task,
    now: u64,
)
    requires
        tasks_unique(s),
        !has_task_key(s, pid, tid),
        task.id == tid,
        t == s.push((pid, tid, task, now)),
    ensures
        tasks_unique(t),
        has_task_key(t, pid, tid),
        task_entry(t, pid, tid) == (pid, tid, task, now),
        forall|px: u32, tx: u32|
            !(px == pid && tx == tid) ==> (has_task_key(t, px, tx) <==> has_task_key(s, px, tx)),
        forall|px: u32, tx: u32|
            !(px == pid && tx == tid) && has_task_key(s, px, tx) ==> task_entry(t, px, tx)
                == task_entry(s, px, tx),
{
    assert(t[s.len() as int] == (pid, tid, task, now));
    assert forall|k1: int, k2: int|
        0 <= k1 < k2 < t.len() implies ((#[trigger] t[k1]).0, t[k1].1) != ((#[trigger] t[k2]).0, t[k2].1) by {
        if k2 < s.len() {
            assert((t[k1].0, t[k1].1) == (s[k1].0, s[k1].1));
            assert((t[k2].0, t[k2].1) == (s[k2].0, s[k2].1));
        } else {
            assert(t[k2].0 == pid && t[k2].1 == tid);
            assert(t[k1] == s[k1]);
            if s[k1].0 == pid && s[k1].1 == tid {
                assert(has_task_key(s, pid, tid));
            }
        }
    }
    assert(has_task_key(t, pid, tid));
    assert(task_entry(t, pid, tid) == (pid, tid, task, now)) by {
        let k1 = choose|k1: int|
            0 <= k1 < t.len() && (#[trigger] t[k1]).0 == pid && t[k1].1 == tid;
        if k1 < s.len() {
            assert(s[k1].0 == pid && s[k1].1 == tid);
            assert(has_task_key(s, pid, tid));
        }
    }
    assert forall|px: u32, tx: u32|
        !(px == pid && tx == tid) implies (has_task_key(t, px, tx) <==> has_task_key(
        s,
        px,
        tx,
    )) by {
        if has_task_key(t, px, tx) {
            let k1 = choose|k1: int|
                0 <= k1 < t.len() && (#[trigger] t[k1]).0 == px && t[k1].1 == tx;
            assert(k1 < s.len());
            assert(s[k1].0 == px && s[k1].1 == tx);
        }
        if has_task_key(s, px, tx) {
            let k1 = choose|k1: int|
                0 <= k1 < s.len() && (#[trigger] s[k1]).0 == px && s[k1].1 == tx;
            assert(t[k1].0 == px && t[k1].1 == tx);
        }
    }
    assert forall|px: u32, tx: u32|
        !(px == pid && tx == tid) && has_task_key(s, px, tx) implies task_entry(t, px, tx)
        == task_entry(s, px, tx) by {
        let k1 = choose|k1: int|
            0 <= k1 < t.len() && (#[trigger] t[k1]).0 == px && t[k1].1 == tx;
        let k2 = choose|k2: int|
            0 <= k2 < s.len() && (#[trigger] s[k2]).0 == px && s[k2].1 == tx;
        assert(k1 < s.len());
        assert(s[k1].0 == px && s[k1].1 == tx);
        assert(k1 == k2);
    }
}

/// Removing one task entry keeps every other key's entry.
proof fn lemma_task_remove(
    s: Seq<(u32, u32, Task, u64)>,
    t: Seq<(u32, u32, Task, u64)>,
    k: int,
    pid: u32,
    tid: u32,
)
    requires
        tasks_unique(s),
        0 <= k < s.len(),
        s[k].0 == pid && s[k].1 == tid,
        t == s.remove(k),
    ensures
        tasks_unique(t),
        !has_task_key(t, pid, tid),
        forall|px: u32, tx: u32|
            !(px == pid && tx == tid) ==> (has_task_key(t, px, tx) <==> has_task_key(s, px, tx)),
{
    let lift = |k1: int| if k1 < k {
        k1
    } else {
        k1 + 1
    };
    assert forall|k1: int| 0 <= k1 < t.len() implies t[k1] == s[lift(k1)] by {}
    assert forall|k1: int, k2: int|
        0 <= k1 < k2 < t.len() implies ((#[trigger] t[k1]).0, t[k1].1) != ((#[trigger] t[k2]).0, t[k2].1) by {
        assert(t[k1] == s[lift(k1)] && t[k2] == s[lift(k2)]);
        assert(lift(k1) < lift(k2));
    }
    assert(!has_task_key(t, pid, tid)) by {
        if has_task_key(t, pid, tid) {
            let k1 = choose|k1: int|
                0 <= k1 < t.len() && (#[trigger] t[k1]).0 == pid && t[k1].1 == tid;
            assert(t[k1] == s[lift(k1)]);
            assert(lift(k1) != k);
            assert((s[lift(k1)].0, s[lift(k1)].1) == (pid, tid));
            assert((s[k].0, s[k].1) == (pid, tid));
            assert(false);
        }
    }
    assert forall|px: u32, tx: u32|
        !(px == pid && tx == tid) implies (has_task_key(t, px, tx) <==> has_task_key(
        s,
        px,
        tx,
    )) by {
        if has_task_key(t, px, tx) {
            let k1 = choose|k1: int|
                0 <= k1 < t.len() && (#[trigger] t[k1]).0 == px && t[k1].1 == tx;
            assert(t[k1] == s[lift(k1)]);
            assert(s[lift(k1)].0 == px && s[lift(k1)].1 == tx);
        }
        if has_task_key(s, px, tx) {
            let k1 = choose|k1: int|
                0 <= k1 < s.len() && (#[trigger] s[k1]).0 == px && s[k1].1 == tx;
            assert(k1 != k);
            if k1 < k {
                assert(t[k1] == s[k1]);
            } else {
                assert(t[k1 - 1] == s[k1]);
            }
        }
    }
}

/// A thread-safe cache of project records: one [`TaskCache`] behind a
/// shared lock, so concurrent readers and writers serialize on it. The
/// lock's invariant keeps the cached state well-formed; the cached
/// contents themselves are shared mutable state and so are not observable
/// through a shared reference's contract.
pub struct GlobalCache {
    inner: RwLock<TaskCache, spec_fn(TaskCache) -> bool>,
}

impl GlobalCache {
    /// The lock holds a well-formed cache.
    pub closed spec fn wf(&self) -> bool {
        self.inner.pred() == (|c: TaskCache| c.wf())
    }

    /// A fresh shared cache with a time-to-live of `ttl_seconds` whole
    /// seconds.
    pub fn new(ttl_seconds: u64) -> (g: GlobalCache)
        requires
            ttl_seconds <= u64::MAX / 1000,
        ensures
            g.wf(),
    {
        let cache = TaskCache::new(ttl_seconds);
        GlobalCache { inner: RwLock::new(cache, Ghost(|c: TaskCache| c.wf())) }
    }

    /// Cache a project under its identifier, replacing any previous
    /// entry. The lock cannot fail, so the call always succeeds.
    pub fn add_project(&self, project: Project) -> (r: Result<(), TaskMasterError>)
        requires
            self.wf(),
        ensures
            r is Ok,
    {
        let (mut cache, handle) = self.inner.acquire_write();
        cache.add_project(project);
        handle.release_write(cache);
        Ok(())
    }

    /// Look up the cached project for `id`; a stale or absent entry is
    /// reported as absence, and an expired value is never returned. The
    /// lock cannot fail, so the call always succeeds.
    pub fn get_project(&self, id: u32) -> (r: Result<Option<Project>, TaskMasterError>)
        requires
            self.wf(),
        ensures
            r is Ok,
    {
        let (mut cache, handle) = self.inner.acquire_write();
        let found = cache.get_project(id);
        handle.release_write(cache);
        Ok(found)
    }

    /// Drop every cached entry. The lock cannot fail, so the call always
    /// succeeds.
    pub fn clear(&self) -> (r: Result<(), TaskMasterError>)
        requires
            self.wf(),
        ensures
            r is Ok,
    {
        let (mut cache, handle) = self.inner.acquire_write();
        cache.clear();
        handle.release_write(cache);
        Ok(())
    }
}

} // verus!
