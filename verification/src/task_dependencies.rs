//! The dependency graph: directed "depends-on" edges between task
//! identifiers, kept acyclic at all times, with a deterministic
//! topological execution order.

use vstd::prelude::*;
use vstd::seq_lib::*;
use vstd::set_lib::lemma_len_subset;

use crate::error::TaskMasterError;
use crate::task::{spec_dep_done, dep_done, Task};
use crate::text::u32_to_string;
use vstd::string::StringExecFns;

verus! {

/// Mathematical image of a [`DependencyGraph`]: the forward index as the
/// sequence of recorded (task, depends-on) edges, and the reverse index as
/// the sequence of mirrored (depended-on, dependent) edges.
#[verifier::ext_equal]
pub struct GraphView {
    pub dependencies: Seq<(u32, u32)>,
    pub dependents: Seq<(u32, u32)>,
}

/// `a` depends directly on `b`.
pub open spec fn dep_edge(v: GraphView, a: u32, b: u32) -> bool {
    v.dependencies.contains((a, b))
}

/// The two indices record exactly the mirrored edge sets.
pub open spec fn mirror(v: GraphView) -> bool {
    forall|a: u32, b: u32|
        #![trigger v.dependencies.contains((a, b))]
        #![trigger v.dependents.contains((b, a))]
        v.dependencies.contains((a, b)) <==> v.dependents.contains((b, a))
}

/// A walk of one or more dependency edges.
pub open spec fn is_path(v: GraphView, p: Seq<u32>) -> bool {
    p.len() >= 2 && forall|i: int| 0 <= i < p.len() - 1 ==> dep_edge(v, #[trigger] p[i], p[i + 1])
}

/// `b` is reachable from `a` by one or more dependency edges.
pub open spec fn reaches(v: GraphView, a: u32, b: u32) -> bool {
    exists|p: Seq<u32>| is_path(v, p) && p.first() == a && p.last() == b
}

/// Reachable by zero or more dependency edges.
pub open spec fn reaches_or_eq(v: GraphView, a: u32, b: u32) -> bool {
    a == b || reaches(v, a, b)
}

/// No task transitively depends on itself.
pub open spec fn acyclic(v: GraphView) -> bool {
    forall|n: u32| !#[trigger] reaches(v, n, n)
}

impl GraphView {
    /// Well-formedness: duplicate-free indices that mirror each other,
    /// and an edge set free of cycles.
    pub open spec fn wf(self) -> bool {
        &&& self.dependencies.no_duplicates()
        &&& self.dependents.no_duplicates()
        &&& mirror(self)
        &&& acyclic(self)
    }
}

/// A single edge is a path.
pub proof fn lemma_edge_is_path(v: GraphView, a: u32, b: u32)
    requires
        dep_edge(v, a, b),
    ensures
        reaches(v, a, b),
{
    let p = seq![a, b];
    assert(p.first() == a && p.last() == b);
    assert forall|i: int| 0 <= i < p.len() - 1 implies dep_edge(v, #[trigger] p[i], p[i + 1]) by {
        assert(p[0] == a && p[1] == b);
    }
    assert(is_path(v, p));
}

/// A path extended by one edge from its last node is again a path.
pub proof fn lemma_path_extend(v: GraphView, p: Seq<u32>, y: u32)
    requires
        is_path(v, p),
        dep_edge(v, p.last(), y),
    ensures
        is_path(v, p.push(y)),
        p.push(y).first() == p.first(),
        p.push(y).last() == y,
{
    let q = p.push(y);
    assert forall|i: int| 0 <= i < q.len() - 1 implies dep_edge(v, #[trigger] q[i], q[i + 1]) by {
        if i < p.len() - 1 {
            assert(q[i] == p[i] && q[i + 1] == p[i + 1]);
        } else {
            assert(q[i] == p.last() && q[i + 1] == y);
        }
    }
}

/// Zero-or-more-step reachability followed by one edge reaches the edge's head.
pub proof fn lemma_reach_step(v: GraphView, a: u32, b: u32, c: u32)
    requires
        reaches_or_eq(v, a, b),
        dep_edge(v, b, c),
    ensures
        reaches(v, a, c),
{
    if a == b {
        lemma_edge_is_path(v, a, c);
    } else {
        let p = choose|p: Seq<u32>| is_path(v, p) && p.first() == a && p.last() == b;
        lemma_path_extend(v, p, c);
        let q = p.push(c);
        assert(is_path(v, q) && q.first() == a && q.last() == c);
    }
}

/// Reachability composes.
pub proof fn lemma_reaches_trans(v: GraphView, a: u32, b: u32, c: u32)
    requires
        reaches_or_eq(v, a, b),
        reaches_or_eq(v, b, c),
    ensures
        reaches_or_eq(v, a, c),
{
    if a != b && b != c {
        let q = choose|q: Seq<u32>| is_path(v, q) && q.first() == b && q.last() == c;
        assert(is_path(v, q));
        lemma_reach_prefix(v, a, q, q.len() - 1);
        assert(reaches_or_eq(v, a, q[q.len() - 1]));
    }
}

/// Helper: from `a` with zero-or-more steps to `q.first()`, every node of a
/// path `q` is reachable from `a` by zero or more steps.
proof fn lemma_reach_prefix(v: GraphView, a: u32, q: Seq<u32>, j: int)
    requires
        is_path(v, q),
        reaches_or_eq(v, a, q.first()),
        0 <= j < q.len(),
    ensures
        reaches_or_eq(v, a, q[j]),
    decreases j,
{
    if j > 0 {
        lemma_reach_prefix(v, a, q, j - 1);
        assert(dep_edge(v, q[j - 1], q[j]));
        lemma_reach_step(v, a, q[j - 1], q[j]);
    }
}

/// Every node of a path whose first node lies in a set closed under the
/// edge relation lies in that set.
proof fn lemma_path_stays_in_closed(v: GraphView, p: Seq<u32>, s: Seq<u32>)
    requires
        is_path(v, p),
        s.contains(p.first()),
        forall|x: u32, y: u32| s.contains(x) && #[trigger] dep_edge(v, x, y) ==> s.contains(y),
    ensures
        s.contains(p.last()),
    decreases p.len(),
{
    assert(dep_edge(v, p[0], p[1]));
    assert(s.contains(p[1]));
    if p.len() > 2 {
        let q = p.drop_first();
        assert forall|i: int| 0 <= i < q.len() - 1 implies dep_edge(v, #[trigger] q[i], q[i + 1]) by {
            assert(q[i] == p[i + 1] && q[i + 1] == p[i + 2]);
        }
        assert(is_path(v, q));
        lemma_path_stays_in_closed(v, q, s);
    }
}

/// A path of a graph whose edge set shrank is a path of the larger graph.
proof fn lemma_path_in_subgraph(small: GraphView, large: GraphView, p: Seq<u32>)
    requires
        is_path(small, p),
        forall|a: u32, b: u32| #[trigger] dep_edge(small, a, b) ==> dep_edge(large, a, b),
    ensures
        is_path(large, p),
{
    assert forall|i: int| 0 <= i < p.len() - 1 implies dep_edge(large, #[trigger] p[i], p[i + 1]) by {
        assert(dep_edge(small, p[i], p[i + 1]));
    }
}

/// Removing edges keeps the graph acyclic.
proof fn lemma_acyclic_in_subgraph(small: GraphView, large: GraphView)
    requires
        acyclic(large),
        forall|a: u32, b: u32| #[trigger] dep_edge(small, a, b) ==> dep_edge(large, a, b),
    ensures
        acyclic(small),
{
    assert forall|n: u32| !#[trigger] reaches(small, n, n) by {
        if reaches(small, n, n) {
            let p = choose|p: Seq<u32>| is_path(small, p) && p.first() == n && p.last() == n;
            lemma_path_in_subgraph(small, large, p);
            assert(reaches(large, n, n));
        }
    }
}

/// A path of the graph extended by the edge (t, d) either avoids the new
/// edge entirely, or can be split into an old walk into `t` and an old walk
/// out of `d`.
proof fn lemma_path_after_add(old_v: GraphView, new_v: GraphView, t: u32, d: u32, p: Seq<u32>)
    requires
        is_path(new_v, p),
        forall|a: u32, b: u32|
            #[trigger] dep_edge(new_v, a, b) <==> dep_edge(old_v, a, b) || (a == t && b == d),
    ensures
        is_path(old_v, p) || (reaches_or_eq(old_v, p.first(), t) && reaches_or_eq(
            old_v,
            d,
            p.last(),
        )),
    decreases p.len(),
{
    if p.len() == 2 {
        assert(dep_edge(new_v, p[0], p[1]));
        if dep_edge(old_v, p[0], p[1]) {
            assert(is_path(old_v, p));
        } else {
            assert(p[0] == t && p[1] == d);
        }
    } else {
        let q = p.drop_last();
        assert forall|i: int| 0 <= i < q.len() - 1 implies dep_edge(new_v, #[trigger] q[i], q[i + 1]) by {
            assert(q[i] == p[i] && q[i + 1] == p[i + 1]);
        }
        assert(is_path(new_v, q));
        lemma_path_after_add(old_v, new_v, t, d, q);
        let x = p[p.len() - 2];
        let y = p[p.len() - 1];
        assert(dep_edge(new_v, x, y));
        assert(q.last() == x && q.first() == p.first() && p.last() == y);
        if is_path(old_v, q) {
            if dep_edge(old_v, x, y) {
                assert forall|i: int| 0 <= i < p.len() - 1 implies dep_edge(
                    old_v,
                    #[trigger] p[i],
                    p[i + 1],
                ) by {
                    if i < p.len() - 2 {
                        assert(p[i] == q[i] && p[i + 1] == q[i + 1]);
                        assert(dep_edge(old_v, q[i], q[i + 1]));
                    }
                }
                assert(is_path(old_v, p));
            } else {
                assert(x == t && y == d);
                assert(reaches(old_v, p.first(), t));
            }
        } else {
            assert(reaches_or_eq(old_v, q.first(), t) && reaches_or_eq(old_v, d, x));
            if dep_edge(old_v, x, y) {
                lemma_reach_step(old_v, d, x, y);
            } else {
                assert(x == t && y == d);
            }
        }
    }
}

/// Adding the edge (t, d) to an acyclic graph keeps it acyclic, provided
/// `t` differs from `d` and `d` does not already transitively depend on `t`.
proof fn lemma_acyclic_after_add(old_v: GraphView, new_v: GraphView, t: u32, d: u32)
    requires
        acyclic(old_v),
        t != d,
        !reaches(old_v, d, t),
        forall|a: u32, b: u32|
            #[trigger] dep_edge(new_v, a, b) <==> dep_edge(old_v, a, b) || (a == t && b == d),
    ensures
        acyclic(new_v),
{
    assert forall|n: u32| !#[trigger] reaches(new_v, n, n) by {
        if reaches(new_v, n, n) {
            let p = choose|p: Seq<u32>| is_path(new_v, p) && p.first() == n && p.last() == n;
            lemma_path_after_add(old_v, new_v, t, d, p);
            if is_path(old_v, p) {
                assert(reaches(old_v, n, n));
            } else {
                assert(reaches_or_eq(old_v, n, t) && reaches_or_eq(old_v, d, n));
                lemma_reaches_trans(old_v, d, n, t);
                assert(reaches_or_eq(old_v, d, t));
                assert(reaches(old_v, d, t));
            }
        }
    }
}

/// The nodes a search over the dependency edges can ever enqueue, starting
/// from `source`: the source and the head of every recorded edge.
pub open spec fn reach_pool(v: GraphView, source: u32) -> Seq<u32> {
    seq![source] + v.dependencies.map_values(|e: (u32, u32)| e.1)
}

/// Whether `y` occurs in `q` at or after position `head`.
pub open spec fn in_suffix(q: Seq<u32>, head: int, y: u32) -> bool {
    exists|k: int| head <= k < q.len() && q[k] == y
}

/// Directed graph of "depends-on" edges between task identifiers.
///
/// Edges are recorded twice, as a forward index (task, its dependency) and
/// a reverse index (dependency, its dependent); the two always mirror each
/// other, and the recorded edge set is acyclic at all times.
pub struct DependencyGraph {
    dependencies: Vec<(u32, u32)>,
    dependents: Vec<(u32, u32)>,
}

impl View for DependencyGraph {
    type V = GraphView;

    closed spec fn view(&self) -> GraphView {
        GraphView { dependencies: self.dependencies@, dependents: self.dependents@ }
    }
}

/// `true` iff the pair list holds exactly the pair (a, b).
fn contains_pair(v: &Vec<(u32, u32)>, a: u32, b: u32) -> (r: bool)
    ensures
        r == v@.contains((a, b)),
{
    let n = v.len();
    let mut i: usize = 0;
    while i < n
        invariant
            i <= n,
            n == v@.len(),
            forall|j: int| 0 <= j < i ==> v@[j] != (a, b),
        decreases n - i,
    {
        let e = v[i];
        if e.0 == a && e.1 == b {
            assert(v@[i as int] == (a, b));
            return true;
        }
        i += 1;
    }
    false
}

/// `true` iff `x` occurs in the identifier list.
fn contains_id(v: &Vec<u32>, x: u32) -> (r: bool)
    ensures
        r == v@.contains(x),
{
    let n = v.len();
    let mut i: usize = 0;
    while i < n
        invariant
            i <= n,
            n == v@.len(),
            forall|j: int| 0 <= j < i ==> v@[j] != x,
        decreases n - i,
    {
        if v[i] == x {
            return true;
        }
        i += 1;
    }
    false
}

impl DependencyGraph {
    /// Well-formedness of the two indices and acyclicity of the edge set.
    pub open spec fn wf(&self) -> bool {
        self@.wf()
    }

    /// An empty graph.
    pub fn new() -> (g: DependencyGraph)
        ensures
            g.wf(),
            g@.dependencies == Seq::<(u32, u32)>::empty(),
            g@.dependents == Seq::<(u32, u32)>::empty(),
    {
        let g = DependencyGraph { dependencies: Vec::new(), dependents: Vec::new() };
        proof {
            assert forall|n: u32| !#[trigger] reaches(g@, n, n) by {
                if reaches(g@, n, n) {
                    let p = choose|p: Seq<u32>|
                        is_path(g@, p) && p.first() == n && p.last() == n;
                    assert(dep_edge(g@, p[0], p[1]));
                }
            }
        }
        g
    }

    /// Whether `target` can be reached from `source` by following zero or
    /// more dependency edges: a breadth-first walk of the recorded edges
    /// outward from `source`.
    fn reachable_from(&self, source: u32, target: u32) -> (r: bool)
        ensures
            r == reaches_or_eq(self@, source, target),
    {
        let ghost v = self@;
        let ghost pool = reach_pool(v, source);
        let mut queue: Vec<u32> = Vec::new();
        queue.push(source);
        let mut visited: Vec<u32> = Vec::new();
        let mut head: usize = 0;
        proof {
            assert(pool[0] == source);
        }
        while head < queue.len()
            invariant
                head <= queue@.len(),
                v == self@,
                pool == reach_pool(v, source),
                forall|k: int| 0 <= k < queue@.len() ==> reaches_or_eq(v, source, #[trigger] queue@[k]),
                forall|k: int| 0 <= k < queue@.len() ==> pool.contains(#[trigger] queue@[k]),
                forall|k: int| 0 <= k < visited@.len() ==> reaches_or_eq(
                    v,
                    source,
                    #[trigger] visited@[k],
                ),
                forall|k: int| 0 <= k < visited@.len() ==> pool.contains(#[trigger] visited@[k]),
                forall|k: int| 0 <= k < visited@.len() ==> #[trigger] visited@[k] != target,
                visited@.no_duplicates(),
                visited@.len() <= pool.len(),
                forall|x: u32, y: u32|
                    visited@.contains(x) && #[trigger] dep_edge(v, x, y) ==> visited@.contains(y)
                        || in_suffix(queue@, head as int, y),
                visited@.contains(source) || in_suffix(queue@, head as int, source),
            decreases pool.len() - visited@.len(), queue@.len() - head,
        {
            let current = queue[head];
            let ghost old_head = head as int;
            head += 1;
            if current == target {
                return true;
            }
            if !contains_id(&visited, current) {
                let ghost old_visited = visited@;
                visited.push(current);
                proof {
                    assert(visited@.drop_last() =~= old_visited);
                    assert(visited@.last() == current);
                    visited@.unique_seq_to_set();
                    assert(visited@.to_set().subset_of(pool.to_set())) by {
                        assert forall|x: u32| visited@.to_set().contains(x) implies pool.to_set()
                            .contains(x) by {
                            assert(visited@.contains(x));
                            assert(pool.contains(x));
                        }
                    }
                    broadcast use seq_to_set_is_finite;

                    lemma_len_subset(visited@.to_set(), pool.to_set());
                    pool.lemma_cardinality_of_set();
                    // closure for the previously visited nodes, at the new head
                    assert forall|x: u32, y: u32|
                        visited@.contains(x) && x != current && #[trigger] dep_edge(v, x, y)
                            implies visited@.contains(y) || in_suffix(queue@, head as int, y) by {
                        assert(old_visited.contains(x)) by {
                            let k = choose|k: int| 0 <= k < visited@.len() && visited@[k] == x;
                            assert(k < old_visited.len());
                            assert(old_visited[k] == x);
                        }
                        if old_visited.contains(y) {
                            let k = choose|k: int|
                                0 <= k < old_visited.len() && old_visited[k] == y;
                            assert(visited@[k] == y);
                        } else if in_suffix(queue@, old_head, y) {
                            let k = choose|k: int| old_head <= k < queue@.len() && queue@[k] == y;
                            if k == old_head {
                                assert(y == current);
                                assert(visited@.contains(y)) by {
                                    assert(visited@[visited@.len() - 1] == current);
                                }
                            } else {
                                assert(in_suffix(queue@, head as int, y));
                            }
                        }
                    }
                    // the source stays covered
                    if !old_visited.contains(source) {
                        let k = choose|k: int| old_head <= k < queue@.len() && queue@[k] == source;
                        if k == old_head {
                            assert(source == current);
                            assert(visited@[visited@.len() - 1] == current);
                            assert(visited@.contains(source));
                        } else {
                            assert(in_suffix(queue@, head as int, source));
                        }
                    } else {
                        let k = choose|k: int|
                            0 <= k < old_visited.len() && old_visited[k] == source;
                        assert(visited@[k] == source);
                    }
                }
                let edges_len = self.dependencies.len();
                let mut i: usize = 0;
                while i < edges_len
                    invariant
                        i <= edges_len,
                        edges_len == v.dependencies.len(),
                        v == self@,
                        pool == reach_pool(v, source),
                        head <= queue@.len(),
                        visited@.len() > 0,
                        visited@.last() == current,
                        reaches_or_eq(v, source, current),
                        forall|k: int| 0 <= k < queue@.len() ==> reaches_or_eq(
                            v,
                            source,
                            #[trigger] queue@[k],
                        ),
                        forall|k: int| 0 <= k < queue@.len() ==> pool.contains(#[trigger] queue@[k]),
                        forall|k: int| 0 <= k < visited@.len() ==> reaches_or_eq(
                            v,
                            source,
                            #[trigger] visited@[k],
                        ),
                        forall|k: int| 0 <= k < visited@.len() ==> pool.contains(
                            #[trigger] visited@[k],
                        ),
                        forall|k: int| 0 <= k < visited@.len() ==> #[trigger] visited@[k] != target,
                        visited@.no_duplicates(),
                        visited@.len() <= pool.len(),
                        forall|x: u32, y: u32|
                            visited@.contains(x) && x != current && #[trigger] dep_edge(v, x, y)
                                ==> visited@.contains(y) || in_suffix(queue@, head as int, y),
                        forall|j: int|
                            0 <= j < i && v.dependencies[j].0 == current ==> in_suffix(
                                queue@,
                                head as int,
                                #[trigger] v.dependencies[j].1,
                            ),
                        visited@.contains(source) || in_suffix(queue@, head as int, source),
                    decreases edges_len - i,
                {
                    let e = self.dependencies[i];
                    if e.0 == current {
                        let ghost old_queue = queue@;
                        queue.push(e.1);
                        proof {
                            assert(queue@[queue@.len() - 1] == e.1);
                            assert(pool.contains(e.1)) by {
                                assert(pool[1 + i] == v.dependencies.map_values(
                                    |ed: (u32, u32)| ed.1,
                                )[i as int]);
                            }
                            assert(dep_edge(v, current, e.1)) by {
                                assert(v.dependencies[i as int] == (current, e.1));
                            }
                            lemma_reach_step(v, source, current, e.1);
                            assert forall|y: u32| in_suffix(old_queue, head as int, y) implies in_suffix(
                                queue@,
                                head as int,
                                y,
                            ) by {
                                let k = choose|k: int|
                                    head <= k < old_queue.len() && old_queue[k] == y;
                                assert(queue@[k] == y);
                            }
                        }
                    }
                    i += 1;
                }
                proof {
                    // the closure invariant now covers `current` as well
                    assert forall|x: u32, y: u32|
                        visited@.contains(x) && #[trigger] dep_edge(v, x, y) implies visited@.contains(
                        y,
                    ) || in_suffix(queue@, head as int, y) by {
                        if x == current {
                            let j = choose|j: int|
                                0 <= j < v.dependencies.len() && v.dependencies[j] == (x, y);
                            assert(v.dependencies[j].1 == y);
                        }
                    }
                }
            } else {
                proof {
                    assert forall|x: u32, y: u32|
                        visited@.contains(x) && #[trigger] dep_edge(v, x, y) implies visited@.contains(
                        y,
                    ) || in_suffix(queue@, head as int, y) by {
                        if !visited@.contains(y) && in_suffix(queue@, old_head, y) {
                            let k = choose|k: int|
                                old_head <= k < queue@.len() && queue@[k] == y;
                            if k == old_head {
                                assert(y == current);
                            } else {
                                assert(in_suffix(queue@, head as int, y));
                            }
                        }
                    }
                    if !visited@.contains(source) {
                        let k = choose|k: int|
                            old_head <= k < queue@.len() && queue@[k] == source;
                        if k == old_head {
                            assert(source == current);
                            assert(visited@.contains(source));
                        } else {
                            assert(in_suffix(queue@, head as int, source));
                        }
                    }
                }
            }
        }
        proof {
            assert(visited@.contains(source));
            if reaches(v, source, target) {
                let p = choose|p: Seq<u32>|
                    is_path(v, p) && p.first() == source && p.last() == target;
                lemma_path_stays_in_closed(v, p, visited@);
                assert(visited@.contains(target));
            }
            assert(source != target);
        }
        false
    }

    /// Whether recording that `task_id` depends on `dependency_id` would
    /// close a cycle: true when the two are the same task, or when
    /// `dependency_id` already depends, directly or transitively, on
    /// `task_id`.
    pub fn would_create_cycle(&self, task_id: u32, dependency_id: u32) -> (r: bool)
        ensures
            r == (task_id == dependency_id || reaches(self@, dependency_id, task_id)),
    {
        self.reachable_from(dependency_id, task_id)
    }

    /// Record that `task_id` depends on `dependency_id`.
    ///
    /// The edge is refused with an invalid-operation error when it would
    /// relate a task to itself, or when `dependency_id` already depends,
    /// directly or transitively, on `task_id` (the edge would close a
    /// cycle); a refused call leaves both indices exactly as they were.
    /// Recording an edge twice leaves the indices unchanged.
    pub fn add_dependency(&mut self, task_id: u32, dependency_id: u32) -> (r: Result<
        (),
        TaskMasterError,
    >)
        requires
            old(self).wf(),
        ensures
            final(self).wf(),
            r is Ok <==> (task_id != dependency_id && !reaches(
                old(self)@,
                dependency_id,
                task_id,
            )),
            r matches Err(e) ==> e is InvalidOperation && final(self)@ == old(self)@,
            r matches Err(e) ==> e->InvalidOperation_0@ == (if task_id == dependency_id {
                "A task cannot depend on itself"@
            } else {
                "Adding this dependency would create a cycle"@
            }),
            r is Ok ==> forall|a: u32, b: u32|
                #[trigger] dep_edge(final(self)@, a, b) <==> dep_edge(old(self)@, a, b) || (a
                    == task_id && b == dependency_id),
            r is Ok ==> final(self)@.dependencies == (if old(self)@.dependencies.contains(
                (task_id, dependency_id),
            ) {
                old(self)@.dependencies
            } else {
                old(self)@.dependencies.push((task_id, dependency_id))
            }),
            r is Ok ==> final(self)@.dependents == (if old(self)@.dependents.contains(
                (dependency_id, task_id),
            ) {
                old(self)@.dependents
            } else {
                old(self)@.dependents.push((dependency_id, task_id))
            }),
    {
        if task_id == dependency_id {
            return Err(
                TaskMasterError::InvalidOperation("A task cannot depend on itself".to_owned()),
            );
        }
        if self.would_create_cycle(task_id, dependency_id) {
            return Err(
                TaskMasterError::InvalidOperation(
                    "Adding this dependency would create a cycle".to_owned(),
                ),
            );
        }
        let ghost old_v = self@;
        if !contains_pair(&self.dependencies, task_id, dependency_id) {
            self.dependencies.push((task_id, dependency_id));
            self.dependents.push((dependency_id, task_id));
            proof {
                let new_v = self@;
                assert(new_v.dependencies == old_v.dependencies.push((task_id, dependency_id)));
                assert(new_v.dependents == old_v.dependents.push((dependency_id, task_id)));
                lemma_push_contains(old_v.dependencies, (task_id, dependency_id));
                lemma_push_contains(old_v.dependents, (dependency_id, task_id));
                assert(!old_v.dependents.contains((dependency_id, task_id)));
                assert(new_v.dependencies.no_duplicates()) by {
                    lemma_push_no_duplicates(old_v.dependencies, (task_id, dependency_id));
                }
                assert(new_v.dependents.no_duplicates()) by {
                    lemma_push_no_duplicates(old_v.dependents, (dependency_id, task_id));
                }
                assert(mirror(new_v)) by {
                    assert forall|a: u32, b: u32|
                        #![trigger new_v.dependencies.contains((a, b))]
                        #![trigger new_v.dependents.contains((b, a))]
                        new_v.dependencies.contains((a, b)) <==> new_v.dependents.contains(
                            (b, a),
                        ) by {
                        assert(new_v.dependencies.contains((a, b)) <==> old_v.dependencies.contains(
                            (a, b),
                        ) || (a, b) == (task_id, dependency_id));
                        assert(new_v.dependents.contains((b, a)) <==> old_v.dependents.contains(
                            (b, a),
                        ) || (b, a) == (dependency_id, task_id));
                    }
                }
                assert forall|a: u32, b: u32|
                    #[trigger] dep_edge(new_v, a, b) <==> dep_edge(old_v, a, b) || (a == task_id
                        && b == dependency_id) by {
                    assert(new_v.dependencies.contains((a, b)) <==> old_v.dependencies.contains(
                        (a, b),
                    ) || (a, b) == (task_id, dependency_id));
                }
                lemma_acyclic_after_add(old_v, new_v, task_id, dependency_id);
            }
        } else {
            proof {
                assert(self@ =~= old_v);
            }
        }
        Ok(())
    }

    /// Forget the edge stating that `task_id` depends on `dependency_id`;
    /// both indices lose the edge, and nothing else changes. Removing an
    /// absent edge is a no-op.
    pub fn remove_dependency(&mut self, task_id: u32, dependency_id: u32)
        requires
            old(self).wf(),
        ensures
            final(self).wf(),
            forall|a: u32, b: u32|
                #[trigger] dep_edge(final(self)@, a, b) <==> dep_edge(old(self)@, a, b) && !(a
                    == task_id && b == dependency_id),
            final(self)@.dependencies == old(self)@.dependencies.remove_value(
                (task_id, dependency_id),
            ),
            final(self)@.dependents == old(self)@.dependents.remove_value(
                (dependency_id, task_id),
            ),
    {
        let ghost old_v = self@;
        remove_pair(&mut self.dependencies, task_id, dependency_id);
        remove_pair(&mut self.dependents, dependency_id, task_id);
        proof {
            let new_v = self@;
            assert forall|a: u32, b: u32|
                #[trigger] dep_edge(new_v, a, b) <==> dep_edge(old_v, a, b) && !(a == task_id && b
                    == dependency_id) by {}
            assert(mirror(new_v)) by {
                assert forall|a: u32, b: u32|
                    #![trigger new_v.dependencies.contains((a, b))]
                    #![trigger new_v.dependents.contains((b, a))]
                    new_v.dependencies.contains((a, b)) <==> new_v.dependents.contains((b, a)) by {
                    assert(new_v.dependencies.contains((a, b)) <==> old_v.dependencies.contains(
                        (a, b),
                    ) && (a, b) != (task_id, dependency_id));
                    assert(new_v.dependents.contains((b, a)) <==> old_v.dependents.contains((b, a))
                        && (b, a) != (dependency_id, task_id));
                }
            }
            assert forall|a: u32, b: u32| #[trigger] dep_edge(new_v, a, b) implies dep_edge(
                old_v,
                a,
                b,
            ) by {}
            lemma_acyclic_in_subgraph(new_v, old_v);
        }
    }

    /// The identifiers of the tasks that `task_id` directly depends on, in
    /// the order the edges were recorded, without duplicates.
    pub fn get_dependencies(&self, task_id: u32) -> (r: Vec<u32>)
        requires
            self.wf(),
        ensures
            r@.no_duplicates(),
            forall|b: u32| #[trigger] r@.contains(b) <==> dep_edge(self@, task_id, b),
    {
        collect_second(&self.dependencies, task_id)
    }

    /// The identifiers of the tasks that directly depend on `task_id`, in
    /// the order the edges were recorded, without duplicates.
    pub fn get_dependents(&self, task_id: u32) -> (r: Vec<u32>)
        requires
            self.wf(),
        ensures
            r@.no_duplicates(),
            forall|b: u32| #[trigger] r@.contains(b) <==> dep_edge(self@, b, task_id),
    {
        let r = collect_second(&self.dependents, task_id);
        proof {
            assert forall|b: u32| #[trigger] r@.contains(b) <==> dep_edge(self@, b, task_id) by {
                assert(r@.contains(b) <==> self@.dependents.contains((task_id, b)));
                assert(self@.dependents.contains((task_id, b)) <==> self@.dependencies.contains(
                    (b, task_id),
                ));
            }
        }
        r
    }

    /// Whether every recorded dependency of `task_id` resolves, by its
    /// first occurrence in `tasks`, to a task whose status is `Done`; a
    /// dependency absent from `tasks` counts as unmet.
    pub fn are_dependencies_met(&self, task_id: u32, tasks: &[Task]) -> (r: bool)
        requires
            self.wf(),
        ensures
            r == graph_deps_met(self@, task_id, tasks@),
    {
        let deps = self.get_dependencies(task_id);
        let n = deps.len();
        let mut i: usize = 0;
        while i < n
            invariant
                i <= n,
                n == deps@.len(),
                deps@.no_duplicates(),
                forall|b: u32| #[trigger] deps@.contains(b) <==> dep_edge(self@, task_id, b),
                forall|j: int| 0 <= j < i ==> spec_dep_done(tasks@, #[trigger] deps@[j]),
            decreases n - i,
        {
            if !dep_done(deps[i], tasks) {
                proof {
                    assert(deps@.contains(deps@[i as int]));
                    assert(dep_edge(self@, task_id, deps@[i as int]));
                }
                return false;
            }
            i += 1;
        }
        proof {
            assert forall|b: u32| #[trigger] dep_edge(self@, task_id, b) implies spec_dep_done(
                tasks@,
                b,
            ) by {
                assert(deps@.contains(b));
                let j = choose|j: int| 0 <= j < deps@.len() && deps@[j] == b;
                assert(spec_dep_done(tasks@, deps@[j]));
            }
        }
        true
    }
}

/// Whether some task in `tasks` carries the identifier `id`.
pub open spec fn input_has(tasks: Seq<Task>, id: u32) -> bool {
    exists|k: int| 0 <= k < tasks.len() && tasks[k].id == id
}

/// The nodes a depth-first traversal of the graph, rooted at the given
/// tasks, can ever color: every input task identifier and the head of
/// every recorded edge.
pub open spec fn order_pool(v: GraphView, tasks: Seq<Task>) -> Seq<u32> {
    tasks.map_values(|t: Task| t.id) + v.dependencies.map_values(|e: (u32, u32)| e.1)
}

/// The finish order of one depth-first visit of `node` over the finish
/// list `black`: an already-finished node adds nothing; otherwise the
/// node's recorded dependency edges are descended in recorded order and
/// the node itself finishes last. `fuel` bounds the descent depth; a
/// budget past the graph's node count never runs out on an acyclic graph.
pub open spec fn spec_visit(v: GraphView, node: u32, black: Seq<u32>, fuel: nat) -> Seq<u32>
    decreases fuel, 0int, 0int,
{
    if black.contains(node) {
        black
    } else if fuel == 0 {
        black
    } else {
        spec_visit_deps(v, node, 0, black, (fuel - 1) as nat).push(node)
    }
}

/// Descend the recorded dependency edges of `node`, from edge index `i`
/// on, in recorded order.
pub open spec fn spec_visit_deps(
    v: GraphView,
    node: u32,
    i: int,
    black: Seq<u32>,
    fuel: nat,
) -> Seq<u32>
    decreases fuel, 1int, v.dependencies.len() - i,
{
    if i < 0 || i >= v.dependencies.len() {
        black
    } else {
        let next = if v.dependencies[i].0 == node {
            spec_visit(v, v.dependencies[i].1, black, fuel)
        } else {
            black
        };
        spec_visit_deps(v, node, i + 1, next, fuel)
    }
}

/// The finish order after visiting each root in order.
pub open spec fn spec_visit_all(v: GraphView, roots: Seq<u32>, black: Seq<u32>, fuel: nat) -> Seq<
    u32,
>
    decreases roots.len(),
{
    if roots.len() == 0 {
        black
    } else {
        spec_visit_all(v, roots.drop_first(), spec_visit(v, roots.first(), black, fuel), fuel)
    }
}

/// The predicate keeping the identifiers some input task carries.
pub open spec fn input_filter(tasks: Seq<Task>) -> spec_fn(u32) -> bool {
    |id: u32| input_has(tasks, id)
}

/// The one execution order [`DependencyGraph::get_execution_order`]
/// returns for `tasks`: the depth-first finish order over the input
/// identifiers, visited in input order, restricted to the input
/// identifiers. Equal graphs and equal inputs give equal orders.
pub open spec fn spec_execution_order(v: GraphView, tasks: Seq<Task>) -> Seq<u32> {
    spec_visit_all(
        v,
        tasks.map_values(|t: Task| t.id),
        Seq::empty(),
        (order_pool(v, tasks).len() + 1) as nat,
    ).filter(input_filter(tasks))
}

/// Visiting one more root after a batch is the batch followed by that
/// visit.
proof fn lemma_visit_all_push(v: GraphView, roots: Seq<u32>, black: Seq<u32>, r: u32, fuel: nat)
    ensures
        spec_visit_all(v, roots.push(r), black, fuel) == spec_visit(
            v,
            r,
            spec_visit_all(v, roots, black, fuel),
            fuel,
        ),
    decreases roots.len(),
{
    if roots.len() == 0 {
        assert(roots.push(r).drop_first() =~= Seq::<u32>::empty());
        assert(roots.push(r).first() == r);
        assert(spec_visit_all(v, roots.push(r), black, fuel) == spec_visit_all(
            v,
            Seq::<u32>::empty(),
            spec_visit(v, r, black, fuel),
            fuel,
        ));
        assert(spec_visit_all(v, Seq::<u32>::empty(), spec_visit(v, r, black, fuel), fuel)
            == spec_visit(v, r, black, fuel));
        assert(spec_visit_all(v, roots, black, fuel) == black);
    } else {
        assert(roots.push(r).first() == roots.first());
        assert(roots.push(r).drop_first() =~= roots.drop_first().push(r));
        let b1 = spec_visit(v, roots.first(), black, fuel);
        lemma_visit_all_push(v, roots.drop_first(), b1, r, fuel);
        assert(spec_visit_all(v, roots.push(r), black, fuel) == spec_visit_all(
            v,
            roots.drop_first().push(r),
            b1,
            fuel,
        ));
        assert(spec_visit_all(v, roots, black, fuel) == spec_visit_all(
            v,
            roots.drop_first(),
            b1,
            fuel,
        ));
    }
}

/// What the finish list becomes once the whole traversal stack unwinds.
spec fn spec_unwind(v: GraphView, stack: Seq<(u32, usize)>, black: Seq<u32>, budget: nat) -> Seq<
    u32,
>
    decreases stack.len(),
{
    if stack.len() == 0 {
        black
    } else {
        let frame = stack.last();
        let fl = (budget - stack.len()) as nat;
        spec_unwind(
            v,
            stack.drop_last(),
            spec_visit_deps(v, frame.0, frame.1 as int, black, fl).push(frame.0),
            budget,
        )
    }
}

/// Unwinding after finishing the top node: the node joins the finish list
/// and its frame leaves the stack.
proof fn lemma_unwind_pop(v: GraphView, stack: Seq<(u32, usize)>, black: Seq<u32>, budget: nat)
    requires
        stack.len() > 0,
        stack.last().1 >= v.dependencies.len(),
    ensures
        spec_unwind(v, stack, black, budget) == spec_unwind(
            v,
            stack.drop_last(),
            black.push(stack.last().0),
            budget,
        ),
{
    let fl = (budget - stack.len()) as nat;
    assert(spec_visit_deps(v, stack.last().0, stack.last().1 as int, black, fl) == black);
}

/// Unwinding past an edge that is not the top node's, or whose dependency
/// is already finished: the frame merely advances.
proof fn lemma_unwind_advance(
    v: GraphView,
    stack: Seq<(u32, usize)>,
    black: Seq<u32>,
    budget: nat,
    node: u32,
    i: usize,
)
    requires
        stack.len() > 0,
        stack.last() == (node, i),
        i < usize::MAX,
        i < v.dependencies.len(),
        v.dependencies[i as int].0 != node || black.contains(v.dependencies[i as int].1),
    ensures
        spec_unwind(v, stack, black, budget) == spec_unwind(
            v,
            stack.update(stack.len() - 1, (node, (i + 1) as usize)),
            black,
            budget,
        ),
{
    let stack2 = stack.update(stack.len() - 1, (node, (i + 1) as usize));
    let fl = (budget - stack.len()) as nat;
    assert(((i + 1) as usize) as int == i + 1);
    assert(stack2.last() == (node, (i + 1) as usize));
    assert(stack2.len() == stack.len());
    assert(stack2.drop_last() =~= stack.drop_last());
    assert(spec_visit_deps(v, node, i as int, black, fl) == spec_visit_deps(
        v,
        node,
        i + 1,
        black,
        fl,
    )) by {
        if v.dependencies[i as int].0 == node {
            assert(spec_visit(v, v.dependencies[i as int].1, black, fl) == black);
        }
    }
    assert(spec_unwind(v, stack, black, budget) == spec_unwind(
        v,
        stack.drop_last(),
        spec_visit_deps(v, node, i as int, black, fl).push(node),
        budget,
    ));
    assert(spec_unwind(v, stack2, black, budget) == spec_unwind(
        v,
        stack2.drop_last(),
        spec_visit_deps(v, node, i + 1, black, fl).push(node),
        budget,
    ));
}

/// Unwinding into a fresh dependency: descending pushes its frame, and
/// the unwound result is unchanged.
proof fn lemma_unwind_push(
    v: GraphView,
    stack: Seq<(u32, usize)>,
    black: Seq<u32>,
    budget: nat,
    node: u32,
    i: usize,
    dep: u32,
)
    requires
        stack.len() > 0,
        stack.last() == (node, i),
        i < v.dependencies.len(),
        v.dependencies[i as int] == (node, dep),
        !black.contains(dep),
        budget > stack.len(),
    ensures
        spec_unwind(v, stack, black, budget) == spec_unwind(
            v,
            stack.push((dep, 0usize)),
            black,
            budget,
        ),
{
    let stack2 = stack.push((dep, 0usize));
    let fl = (budget - stack.len()) as nat;
    let flc = (budget - stack2.len()) as nat;
    assert(flc == fl - 1);
    let b2 = spec_visit_deps(v, dep, 0, black, flc).push(dep);
    assert(stack2.last() == (dep, 0usize));
    assert(stack2.drop_last() =~= stack);
    // the descent's result is the child's full visit
    assert(spec_visit(v, dep, black, fl) == b2);
    assert(spec_unwind(v, stack2, black, budget) == spec_unwind(v, stack, b2, budget));
    // at the parent, the child now reads as finished
    assert(b2.contains(dep)) by {
        assert(b2[b2.len() - 1] == dep);
    }
    assert(spec_visit_deps(v, node, i as int, black, fl) == spec_visit_deps(
        v,
        node,
        i + 1,
        spec_visit(v, dep, black, fl),
        fl,
    ));
    assert(spec_visit_deps(v, node, i as int, b2, fl) == spec_visit_deps(v, node, i + 1, b2, fl))
        by {
        assert(spec_visit(v, dep, b2, fl) == b2);
    }
    assert(spec_unwind(v, stack, black, budget) == spec_unwind(v, stack, b2, budget)) by {
        assert(spec_visit_deps(v, node, i as int, black, fl).push(node) == spec_visit_deps(
            v,
            node,
            i as int,
            b2,
            fl,
        ).push(node));
    }
}

/// Whether `id` occurs among the nodes of the traversal stack.
fn stack_has(stack: &Vec<(u32, usize)>, id: u32) -> (r: bool)
    ensures
        r == exists|k: int| 0 <= k < stack@.len() && (#[trigger] stack@[k]).0 == id,
{
    let n = stack.len();
    let mut i: usize = 0;
    while i < n
        invariant
            i <= n,
            n == stack@.len(),
            forall|j: int| 0 <= j < i ==> (#[trigger] stack@[j]).0 != id,
        decreases n - i,
    {
        if stack[i].0 == id {
            return true;
        }
        i += 1;
    }
    false
}

/// Whether some task in `tasks` carries the identifier `id`.
fn id_in_tasks(tasks: &[Task], id: u32) -> (r: bool)
    ensures
        r == input_has(tasks@, id),
{
    let n = tasks.len();
    let mut i: usize = 0;
    while i < n
        invariant
            i <= n,
            n == tasks@.len(),
            forall|j: int| 0 <= j < i ==> (#[trigger] tasks@[j]).id != id,
        decreases n - i,
    {
        if tasks[i].id == id {
            return true;
        }
        i += 1;
    }
    false
}

/// Pop the top frame of a nonempty traversal stack.
fn pop_frame(stack: &mut Vec<(u32, usize)>) -> (f: (u32, usize))
    requires
        old(stack)@.len() > 0,
    ensures
        f == old(stack)@.last(),
        final(stack)@ == old(stack)@.drop_last(),
{
    let r = stack.pop();
    match r {
        Some(f) => {
            proof {
                assert(final(stack)@ =~= old(stack)@.drop_last());
            }
            f
        },
        None => {
            proof {
                assert(false);
            }
            (0, 0)
        },
    }
}

/// A duplicate-free sequence drawn from a pool is no longer than the pool.
proof fn lemma_distinct_bound(c: Seq<u32>, pool: Seq<u32>)
    requires
        c.no_duplicates(),
        forall|k: int| 0 <= k < c.len() ==> pool.contains(#[trigger] c[k]),
    ensures
        c.len() <= pool.len(),
{
    c.unique_seq_to_set();
    assert(c.to_set().subset_of(pool.to_set())) by {
        assert forall|x: u32| c.to_set().contains(x) implies pool.to_set().contains(x) by {
            assert(c.contains(x));
            let k = choose|k: int| 0 <= k < c.len() && c[k] == x;
            assert(pool.contains(c[k]));
        }
    }
    broadcast use seq_to_set_is_finite;

    lemma_len_subset(c.to_set(), pool.to_set());
    pool.lemma_cardinality_of_set();
}

/// Appending a node whose dependencies are all already finished keeps the
/// finish order topologically sorted.
proof fn lemma_finish_node(v: GraphView, black: Seq<u32>, node: u32)
    requires
        black.no_duplicates(),
        !black.contains(node),
        forall|bi: int, y: u32|
            0 <= bi < black.len() && #[trigger] dep_edge(v, black[bi], y) ==> exists|bj: int|
                0 <= bj < bi && black[bj] == y,
        forall|y: u32| #[trigger] dep_edge(v, node, y) ==> black.contains(y),
    ensures
        black.push(node).no_duplicates(),
        forall|x: u32| #[trigger] black.push(node).contains(x) <==> black.contains(x) || x == node,
        forall|bi: int, y: u32|
            0 <= bi < black.push(node).len() && #[trigger] dep_edge(v, black.push(node)[bi], y)
                ==> exists|bj: int| 0 <= bj < bi && black.push(node)[bj] == y,
{
    lemma_push_contains(black, node);
    lemma_push_no_duplicates(black, node);
    let nb = black.push(node);
    assert forall|bi: int, y: u32|
        0 <= bi < nb.len() && #[trigger] dep_edge(v, nb[bi], y) implies exists|bj: int|
        0 <= bj < bi && nb[bj] == y by {
        if bi < black.len() {
            assert(nb[bi] == black[bi]);
            let bj = choose|bj: int| 0 <= bj < bi && black[bj] == y;
            assert(nb[bj] == y);
        } else {
            assert(nb[bi] == node);
            assert(black.contains(y));
            let bj = choose|bj: int| 0 <= bj < black.len() && black[bj] == y;
            assert(nb[bj] == y);
        }
    }
}

/// Emitting a finished input node at the end of the execution order keeps
/// the order's bookkeeping intact: it stays duplicate-free, drawn from the
/// finished nodes, restricted to input identifiers, complete for finished
/// input identifiers, and topologically sorted.
proof fn lemma_emit_node(
    v: GraphView,
    tasks: Seq<Task>,
    black: Seq<u32>,
    result: Seq<u32>,
    node: u32,
)
    requires
        result.no_duplicates(),
        forall|k: int| 0 <= k < result.len() ==> black.contains(#[trigger] result[k]),
        forall|k: int| 0 <= k < result.len() ==> input_has(tasks, #[trigger] result[k]),
        forall|k: int|
            0 <= k < black.len() && input_has(tasks, #[trigger] black[k]) ==> result.contains(
                black[k],
            ),
        forall|ri: int, y: u32|
            0 <= ri < result.len() && #[trigger] dep_edge(v, result[ri], y) && input_has(tasks, y)
                ==> exists|rj: int| 0 <= rj < ri && result[rj] == y,
        !black.contains(node),
        forall|y: u32| #[trigger] dep_edge(v, node, y) ==> black.contains(y),
        input_has(tasks, node),
    ensures
        result.push(node).no_duplicates(),
        forall|k: int|
            0 <= k < result.push(node).len() ==> black.push(node).contains(
                #[trigger] result.push(node)[k],
            ),
        forall|k: int|
            0 <= k < result.push(node).len() ==> input_has(tasks, #[trigger] result.push(node)[k]),
        forall|k: int|
            0 <= k < black.push(node).len() && input_has(tasks, #[trigger] black.push(node)[k])
                ==> result.push(node).contains(black.push(node)[k]),
        forall|ri: int, y: u32|
            0 <= ri < result.push(node).len() && #[trigger] dep_edge(v, result.push(node)[ri], y)
                && input_has(tasks, y) ==> exists|rj: int|
                0 <= rj < ri && result.push(node)[rj] == y,
{
    lemma_push_contains(black, node);
    lemma_push_contains(result, node);
    let nb = black.push(node);
    let nr = result.push(node);
    assert(!result.contains(node)) by {
        if result.contains(node) {
            let k = choose|k: int| 0 <= k < result.len() && result[k] == node;
            assert(black.contains(result[k]));
        }
    }
    lemma_push_no_duplicates(result, node);
    assert forall|k: int| 0 <= k < nr.len() implies nb.contains(#[trigger] nr[k]) by {
        if k < result.len() {
            assert(black.contains(result[k]));
        } else {
            assert(nr[k] == node);
        }
    }
    assert forall|k: int|
        0 <= k < nb.len() && input_has(tasks, #[trigger] nb[k]) implies nr.contains(nb[k]) by {
        if k < black.len() {
            assert(result.contains(black[k]));
            let rj = choose|rj: int| 0 <= rj < result.len() && result[rj] == black[k];
            assert(nr[rj] == nb[k]);
        } else {
            assert(nb[k] == node);
            assert(nr[nr.len() - 1] == node);
        }
    }
    assert forall|ri: int, y: u32|
        0 <= ri < nr.len() && #[trigger] dep_edge(v, nr[ri], y) && input_has(tasks, y) implies exists|
            rj: int,
        | 0 <= rj < ri && nr[rj] == y by {
        if ri < result.len() {
            assert(nr[ri] == result[ri]);
            let rj = choose|rj: int| 0 <= rj < ri && result[rj] == y;
            assert(nr[rj] == y);
        } else {
            assert(nr[ri] == node);
            assert(black.contains(y));
            assert(result.contains(y)) by {
                let bk = choose|bk: int| 0 <= bk < black.len() && black[bk] == y;
                assert(input_has(tasks, black[bk]));
            }
            let rj = choose|rj: int| 0 <= rj < result.len() && result[rj] == y;
            assert(nr[rj] == y);
        }
    }
}

/// Hitting a node that is already on the traversal stack closes a cycle.
proof fn lemma_gray_hit_is_cycle(
    v: GraphView,
    stack: Seq<(u32, usize)>,
    node: u32,
    i: int,
    dep: u32,
)
    requires
        stack.len() > 0,
        stack[stack.len() - 1].0 == node,
        0 <= i < v.dependencies.len(),
        v.dependencies[i] == (node, dep),
        forall|k: int|
            0 <= k < stack.len() - 1 ==> dep_edge(v, (#[trigger] stack[k]).0, stack[k + 1].0),
        exists|k: int| 0 <= k < stack.len() && (#[trigger] stack[k]).0 == dep,
    ensures
        reaches(v, dep, dep),
{
    let k = choose|k: int| 0 <= k < stack.len() && (#[trigger] stack[k]).0 == dep;
    let last = stack.len() - 1;
    let gray = stack.map_values(|fr: (u32, usize)| fr.0);
    let p = gray.subrange(k, last + 1).push(dep);
    assert(p.len() >= 2);
    assert(p.first() == gray[k]);
    assert(gray[k] == dep);
    assert(p.last() == dep);
    assert forall|m: int| 0 <= m < p.len() - 1 implies dep_edge(v, #[trigger] p[m], p[m + 1]) by {
        if m < p.len() - 2 {
            assert(p[m] == gray[k + m] && p[m + 1] == gray[k + m + 1]);
            assert(gray[k + m] == stack[k + m].0);
            assert(gray[k + m + 1] == stack[k + m + 1].0);
            assert(dep_edge(v, stack[k + m].0, stack[k + m + 1].0));
        } else {
            assert(p[m] == gray[last]);
            assert(gray[last] == stack[last].0);
            assert(stack[last].0 == node);
            assert(p[m + 1] == dep);
            assert(dep_edge(v, node, dep));
        }
    }
    assert(is_path(v, p));
    assert(reaches(v, dep, dep));
}

/// The finished nodes and the stacked nodes together stay within the pool.
proof fn lemma_colored_bound(pool: Seq<u32>, black: Seq<u32>, stack: Seq<(u32, usize)>)
    requires
        black.no_duplicates(),
        forall|k: int| 0 <= k < black.len() ==> pool.contains(#[trigger] black[k]),
        forall|k1: int, k2: int|
            0 <= k1 < k2 < stack.len() ==> (#[trigger] stack[k1]).0 != (#[trigger] stack[k2]).0,
        forall|k: int| 0 <= k < stack.len() ==> !black.contains((#[trigger] stack[k]).0),
        forall|k: int| 0 <= k < stack.len() ==> pool.contains((#[trigger] stack[k]).0),
    ensures
        black.len() + stack.len() <= pool.len(),
{
    let gray = stack.map_values(|fr: (u32, usize)| fr.0);
    let c = black + gray;
    assert(c.no_duplicates()) by {
        assert forall|x1: int, x2: int| 0 <= x1 < x2 < c.len() implies c[x1] != c[x2] by {
            if x1 < black.len() && x2 < black.len() {
                assert(c[x1] == black[x1] && c[x2] == black[x2]);
            } else if x1 < black.len() {
                assert(c[x1] == black[x1]);
                assert(c[x2] == gray[x2 - black.len()]);
                assert(gray[x2 - black.len()] == stack[x2 - black.len()].0);
                assert(!black.contains(stack[x2 - black.len()].0));
                assert(black.contains(black[x1]));
            } else {
                assert(c[x1] == stack[x1 - black.len()].0);
                assert(c[x2] == stack[x2 - black.len()].0);
            }
        }
    }
    assert forall|k: int| 0 <= k < c.len() implies pool.contains(#[trigger] c[k]) by {
        if k < black.len() {
            assert(c[k] == black[k]);
        } else {
            assert(c[k] == stack[k - black.len()].0);
        }
    }
    lemma_distinct_bound(c, pool);
}

impl DependencyGraph {
    /// A deterministic topological ordering of the identifiers of `tasks`:
    /// each input identifier appears exactly once, and wherever the graph
    /// records that one ordered task depends on another, the dependency
    /// comes strictly earlier. Tasks are visited in input order by a
    /// depth-first descent with three-way coloring, each node's recorded
    /// edges in recorded order, so the result is reproducible: it is
    /// exactly [`spec_execution_order`], a function of the graph and the
    /// input alone. Identifiers the graph mentions but the input lacks
    /// are traversed yet not emitted. A detected cycle would be reported
    /// as an invalid-operation error naming the offending task, but a
    /// well-formed graph is acyclic, so the ordering always succeeds.
    #[verifier::rlimit(100)]
    pub fn get_execution_order(&self, tasks: &[Task]) -> (r: Result<Vec<u32>, TaskMasterError>)
        requires
            self.wf(),
        ensures
            r is Ok,
            r matches Ok(order) ==> order@.no_duplicates(),
            r matches Ok(order) ==> forall|id: u32|
                #[trigger] order@.contains(id) <==> input_has(tasks@, id),
            r matches Ok(order) ==> forall|i: int, j: int|
                0 <= i < order@.len() && 0 <= j < order@.len() && #[trigger] dep_edge(
                    self@,
                    order@[i],
                    order@[j],
                ) ==> j < i,
            r matches Ok(order) ==> order@ == spec_execution_order(self@, tasks@),
    {
        let ghost v = self@;
        let ghost pool = order_pool(v, tasks@);
        let ghost budget = (pool.len() + 1) as nat;
        let ghost ids = tasks@.map_values(|tk: Task| tk.id);
        let ghost p_in = input_filter(tasks@);
        let edges_len = self.dependencies.len();
        let mut black: Vec<u32> = Vec::new();
        let mut result: Vec<u32> = Vec::new();
        proof {
            assert(ids.subrange(0, 0) =~= Seq::<u32>::empty());
            assert(black@ == spec_visit_all(v, ids.subrange(0, 0), Seq::<u32>::empty(), budget));
            assert(result@ =~= black@.filter(p_in)) by {
                assert(Seq::<u32>::empty().filter(p_in) =~= Seq::<u32>::empty());
            }
        }
        let input_len = tasks.len();
        let mut t: usize = 0;
        while t < input_len
            invariant
                t <= input_len,
                input_len == tasks@.len(),
                edges_len == v.dependencies.len(),
                v == self@,
                self.wf(),
                pool == order_pool(v, tasks@),
                black@.no_duplicates(),
                forall|k: int| 0 <= k < black@.len() ==> pool.contains(#[trigger] black@[k]),
                black@.len() <= pool.len(),
                forall|bi: int, y: u32|
                    0 <= bi < black@.len() && #[trigger] dep_edge(v, black@[bi], y) ==> exists|
                        bj: int,
                    | 0 <= bj < bi && black@[bj] == y,
                result@.no_duplicates(),
                forall|k: int| 0 <= k < result@.len() ==> black@.contains(#[trigger] result@[k]),
                forall|k: int| 0 <= k < result@.len() ==> input_has(tasks@, #[trigger] result@[k]),
                forall|k: int|
                    0 <= k < black@.len() && input_has(tasks@, #[trigger] black@[k])
                        ==> result@.contains(black@[k]),
                forall|ri: int, y: u32|
                    0 <= ri < result@.len() && #[trigger] dep_edge(v, result@[ri], y) && input_has(
                        tasks@,
                        y,
                    ) ==> exists|rj: int| 0 <= rj < ri && result@[rj] == y,
                forall|s: int| 0 <= s < t ==> black@.contains((#[trigger] tasks@[s]).id),
                budget == (pool.len() + 1) as nat,
                ids == tasks@.map_values(|tk: Task| tk.id),
                p_in == input_filter(tasks@),
                black@ == spec_visit_all(v, ids.subrange(0, t as int), Seq::<u32>::empty(), budget),
                result@ == black@.filter(p_in),
            decreases input_len - t,
        {
            let root = tasks[t].id;
            let ghost pre_black = black@;
            if !contains_id(&black, root) {
                proof {
                    assert(pool.contains(root)) by {
                        assert(pool[t as int] == tasks@.map_values(|tk: Task| tk.id)[t as int]);
                    }
                }
                match self.visit_from(tasks, root, Ghost(pool), &mut black, &mut result) {
                    Ok(()) => {},
                    Err(e) => {
                        return Err(e);
                    },
                }
            }
            proof {
                assert(ids[t as int] == root);
                assert(black@ == spec_visit(v, root, pre_black, budget));
                assert(ids.subrange(0, t + 1) =~= ids.subrange(0, t as int).push(root));
                lemma_visit_all_push(v, ids.subrange(0, t as int), Seq::<u32>::empty(), root, budget);
            }
            t += 1;
        }
        proof {
            assert forall|id: u32| #[trigger] result@.contains(id) <==> input_has(tasks@, id) by {
                if result@.contains(id) {
                    let k = choose|k: int| 0 <= k < result@.len() && result@[k] == id;
                    assert(input_has(tasks@, result@[k]));
                }
                if input_has(tasks@, id) {
                    let s = choose|s: int| 0 <= s < tasks@.len() && tasks@[s].id == id;
                    assert(black@.contains(tasks@[s].id));
                    let bk = choose|bk: int| 0 <= bk < black@.len() && black@[bk] == id;
                    assert(input_has(tasks@, black@[bk]));
                    assert(result@.contains(id));
                }
            }
            assert forall|i: int, j: int|
                0 <= i < result@.len() && 0 <= j < result@.len() && #[trigger] dep_edge(
                    self@,
                    result@[i],
                    result@[j],
                ) implies j < i by {
                assert(input_has(tasks@, result@[j]));
                let rj = choose|rj: int| 0 <= rj < i && result@[rj] == result@[j];
                assert(rj == j);
            }
            assert(ids.subrange(0, input_len as int) =~= ids);
            assert(result@ == spec_execution_order(self@, tasks@));
        }
        Ok(result)
    }

    /// One depth-first descent of the ordering traversal, rooted at `root`:
    /// color every task reachable from `root` finished, extending the
    /// finish order and the emitted execution order.
    #[verifier::rlimit(100)]
    fn visit_from(
        &self,
        tasks: &[Task],
        root: u32,
        Ghost(pool): Ghost<Seq<u32>>,
        black: &mut Vec<u32>,
        result: &mut Vec<u32>,
    ) -> (r: Result<(), TaskMasterError>)
        requires
            self.wf(),
            pool == order_pool(self@, tasks@),
            pool.contains(root),
            !old(black)@.contains(root),
            old(black)@.no_duplicates(),
            forall|k: int| 0 <= k < old(black)@.len() ==> pool.contains(#[trigger] old(black)@[k]),
            old(black)@.len() <= pool.len(),
            forall|bi: int, y: u32|
                0 <= bi < old(black)@.len() && #[trigger] dep_edge(self@, old(black)@[bi], y)
                    ==> exists|bj: int| 0 <= bj < bi && old(black)@[bj] == y,
            old(result)@.no_duplicates(),
            forall|k: int| 0 <= k < old(result)@.len() ==> old(black)@.contains(
                #[trigger] old(result)@[k],
            ),
            forall|k: int| 0 <= k < old(result)@.len() ==> input_has(
                tasks@,
                #[trigger] old(result)@[k],
            ),
            forall|k: int|
                0 <= k < old(black)@.len() && input_has(tasks@, #[trigger] old(black)@[k])
                    ==> old(result)@.contains(old(black)@[k]),
            forall|ri: int, y: u32|
                0 <= ri < old(result)@.len() && #[trigger] dep_edge(self@, old(result)@[ri], y)
                    && input_has(tasks@, y) ==> exists|rj: int|
                    0 <= rj < ri && old(result)@[rj] == y,
            old(result)@ == old(black)@.filter(input_filter(tasks@)),
        ensures
            r is Ok,
            final(black)@ == spec_visit(self@, root, old(black)@, (pool.len() + 1) as nat),
            final(result)@ == final(black)@.filter(input_filter(tasks@)),
            final(black)@.contains(root),
            forall|x: u32| old(black)@.contains(x) ==> #[trigger] final(black)@.contains(x),
            final(black)@.no_duplicates(),
            forall|k: int| 0 <= k < final(black)@.len() ==> pool.contains(
                #[trigger] final(black)@[k],
            ),
            final(black)@.len() <= pool.len(),
            forall|bi: int, y: u32|
                0 <= bi < final(black)@.len() && #[trigger] dep_edge(self@, final(black)@[bi], y)
                    ==> exists|bj: int| 0 <= bj < bi && final(black)@[bj] == y,
            final(result)@.no_duplicates(),
            forall|k: int| 0 <= k < final(result)@.len() ==> final(black)@.contains(
                #[trigger] final(result)@[k],
            ),
            forall|k: int| 0 <= k < final(result)@.len() ==> input_has(
                tasks@,
                #[trigger] final(result)@[k],
            ),
            forall|k: int|
                0 <= k < final(black)@.len() && input_has(tasks@, #[trigger] final(black)@[k])
                    ==> final(result)@.contains(final(black)@[k]),
            forall|ri: int, y: u32|
                0 <= ri < final(result)@.len() && #[trigger] dep_edge(self@, final(result)@[ri], y)
                    && input_has(tasks@, y) ==> exists|rj: int|
                    0 <= rj < ri && final(result)@[rj] == y,
    {
        let ghost v = self@;
        let ghost budget = (pool.len() + 1) as nat;
        let ghost target = spec_visit(v, root, black@, budget);
        let ghost p_in = input_filter(tasks@);
        let edges_len = self.dependencies.len();
        let mut stack: Vec<(u32, usize)> = Vec::new();
        stack.push((root, 0));
        proof {
            assert(stack@ =~= seq![(root, 0usize)]);
            assert(spec_unwind(v, stack@, black@, budget) == target) by {
                assert(stack@.last() == (root, 0usize));
                assert(stack@.drop_last() =~= Seq::<(u32, usize)>::empty());
                assert((budget - stack@.len()) as nat == (budget - 1) as nat);
                let b1 = spec_visit_deps(v, root, 0, black@, (budget - 1) as nat).push(root);
                assert(spec_unwind(v, stack@, black@, budget) == spec_unwind(
                    v,
                    Seq::<(u32, usize)>::empty(),
                    b1,
                    budget,
                ));
                assert(spec_unwind(v, Seq::<(u32, usize)>::empty(), b1, budget) == b1);
                assert(!black@.contains(root));
                assert(target == b1);
            }
            let c = black@ + seq![root];
            assert(c.no_duplicates()) by {
                assert(forall|k: int| 0 <= k < black@.len() ==> c[k] == black@[k]);
                assert(c[black@.len() as int] == root);
            }
            assert forall|k: int| 0 <= k < c.len() implies pool.contains(#[trigger] c[k]) by {
                if k < black@.len() {
                    assert(c[k] == black@[k]);
                } else {
                    assert(c[k] == root);
                }
            }
            lemma_distinct_bound(c, pool);
        }
        while stack.len() > 0
            invariant
                edges_len == v.dependencies.len(),
                v == self@,
                self.wf(),
                pool == order_pool(v, tasks@),
                black@.no_duplicates(),
                forall|x: u32| old(black)@.contains(x) ==> #[trigger] black@.contains(x),
                forall|k: int| 0 <= k < black@.len() ==> pool.contains(#[trigger] black@[k]),
                forall|bi: int, y: u32|
                    0 <= bi < black@.len() && #[trigger] dep_edge(v, black@[bi], y) ==> exists|
                        bj: int,
                    | 0 <= bj < bi && black@[bj] == y,
                result@.no_duplicates(),
                forall|k: int| 0 <= k < result@.len() ==> black@.contains(#[trigger] result@[k]),
                forall|k: int| 0 <= k < result@.len() ==> input_has(tasks@, #[trigger] result@[k]),
                forall|k: int|
                    0 <= k < black@.len() && input_has(tasks@, #[trigger] black@[k])
                        ==> result@.contains(black@[k]),
                forall|ri: int, y: u32|
                    0 <= ri < result@.len() && #[trigger] dep_edge(v, result@[ri], y) && input_has(
                        tasks@,
                        y,
                    ) ==> exists|rj: int| 0 <= rj < ri && result@[rj] == y,
                forall|k: int|
                    0 <= k < stack@.len() - 1 ==> dep_edge(
                        v,
                        (#[trigger] stack@[k]).0,
                        stack@[k + 1].0,
                    ),
                forall|k1: int, k2: int|
                    0 <= k1 < k2 < stack@.len() ==> (#[trigger] stack@[k1]).0 != (
                    #[trigger] stack@[k2]).0,
                forall|k: int| 0 <= k < stack@.len() ==> !black@.contains((#[trigger] stack@[k]).0),
                forall|k: int| 0 <= k < stack@.len() ==> pool.contains((#[trigger] stack@[k]).0),
                forall|k: int| 0 <= k < stack@.len() ==> (#[trigger] stack@[k]).1 <= edges_len,
                forall|k: int, j: int|
                    #![trigger stack@[k], v.dependencies[j]]
                    0 <= k < stack@.len() && 0 <= j < stack@[k].1 && v.dependencies[j].0
                        == stack@[k].0 ==> black@.contains(v.dependencies[j].1),
                stack@.len() > 0 ==> stack@[0].0 == root,
                black@.contains(root) || stack@.len() > 0,
                black@.len() + stack@.len() <= pool.len(),
                budget == (pool.len() + 1) as nat,
                p_in == input_filter(tasks@),
                result@ == black@.filter(p_in),
                target == spec_visit(v, root, old(black)@, budget),
                spec_unwind(v, stack@, black@, budget) == target,
            decreases
                    pool.len() - black@.len() - stack@.len(),
                    stack@.len(),
                    edges_len - stack@.last().1,
        {
            let node = stack[stack.len() - 1].0;
            let i = stack[stack.len() - 1].1;
            if i == edges_len {
                let ghost old_stack = stack@;
                let ghost prev_black = black@;
                let ghost prev_result = result@;
                let f = pop_frame(&mut stack);
                proof {
                    assert forall|y: u32| #[trigger] dep_edge(v, node, y) implies prev_black.contains(
                        y,
                    ) by {
                        let j = choose|j: int|
                            0 <= j < v.dependencies.len() && v.dependencies[j] == (node, y);
                        assert(old_stack[old_stack.len() - 1] == (node, i));
                        assert(v.dependencies[j].0 == old_stack[old_stack.len() - 1].0);
                        assert(prev_black.contains(v.dependencies[j].1));
                    }
                    lemma_finish_node(v, prev_black, node);
                    lemma_unwind_pop(v, old_stack, prev_black, budget);
                    assert(old_stack.last() == (node, i));
                    assert(prev_black.push(node) =~= prev_black + seq![node]);
                    Seq::filter_distributes_over_add(prev_black, seq![node], p_in);
                    crate::instants::lemma_filter_singleton(node, p_in);
                }
                black.push(node);
                if id_in_tasks(tasks, node) {
                    proof {
                        lemma_emit_node(v, tasks@, prev_black, prev_result, node);
                    }
                    result.push(node);
                } else {
                    proof {
                        assert forall|k: int|
                            0 <= k < black@.len() && input_has(
                                tasks@,
                                #[trigger] black@[k],
                            ) implies result@.contains(black@[k]) by {
                            if k < prev_black.len() {
                                assert(black@[k] == prev_black[k]);
                                assert(result@.contains(prev_black[k]));
                            } else {
                                assert(black@[k] == node);
                                assert(!input_has(tasks@, node));
                            }
                        }
                    }
                }
                proof {
                    assert forall|k: int|
                        0 <= k < stack@.len() implies !black@.contains((#[trigger] stack@[k]).0) by {
                        assert(stack@[k] == old_stack[k]);
                        assert(old_stack[k].0 != node);
                        assert(!prev_black.contains(old_stack[k].0));
                    }
                    assert(black@ == prev_black.push(node));
                    assert(result@ =~= black@.filter(p_in));
                    assert(spec_unwind(v, stack@, black@, budget) == target);
                }
            } else {
                let e = self.dependencies[i];
                if e.0 == node {
                    let dep = e.1;
                    if contains_id(&black, dep) {
                        let ghost old_stack = stack@;
                        let f = pop_frame(&mut stack);
                        stack.push((f.0, f.1 + 1));
                        proof {
                            assert(stack@ =~= old_stack.update(
                                old_stack.len() - 1,
                                (node, (i + 1) as usize),
                            ));
                            assert forall|k: int, j: int|
                                #![trigger stack@[k], v.dependencies[j]]
                                0 <= k < stack@.len() && 0 <= j < stack@[k].1 && v.dependencies[j].0
                                    == stack@[k].0 implies black@.contains(v.dependencies[j].1) by {
                                if k == stack@.len() - 1 && j == i {
                                    assert(v.dependencies[j] == (node, dep));
                                } else {
                                    assert(old_stack[k].0 == stack@[k].0);
                                    assert(j < old_stack[k].1);
                                }
                            }
                            assert(old_stack.last() == (node, i));
                            assert(v.dependencies[i as int].1 == dep);
                            lemma_unwind_advance(v, old_stack, black@, budget, node, i);
                            assert(spec_unwind(v, stack@, black@, budget) == target);
                        }
                    } else if stack_has(&stack, dep) {
                        proof {
                            assert(v.dependencies[i as int] == (node, dep));
                            lemma_gray_hit_is_cycle(v, stack@, node, i as int, dep);
                            assert(false);
                        }
                        let mut msg = "Circular dependency detected involving task ".to_owned();
                        msg.append(u32_to_string(dep).as_str());
                        return Err(TaskMasterError::InvalidOperation(msg));
                    } else {
                        let ghost old_stack = stack@;
                        stack.push((dep, 0));
                        proof {
                            assert(stack@.last() == (dep, 0usize));
                            assert(pool.contains(dep)) by {
                                assert(pool[tasks@.len() + i] == v.dependencies.map_values(
                                    |ed: (u32, u32)| ed.1,
                                )[i as int]);
                            }
                            assert(v.dependencies[i as int] == (node, dep));
                            assert forall|k: int|
                                0 <= k < stack@.len() - 1 implies dep_edge(
                                v,
                                (#[trigger] stack@[k]).0,
                                stack@[k + 1].0,
                            ) by {
                                if k < old_stack.len() - 1 {
                                    assert(stack@[k] == old_stack[k]);
                                    assert(stack@[k + 1] == old_stack[k + 1]);
                                } else {
                                    assert(stack@[k] == old_stack[old_stack.len() - 1]);
                                    assert(stack@[k].0 == node);
                                    assert(stack@[k + 1].0 == dep);
                                }
                            }
                            lemma_colored_bound(pool, black@, stack@);
                            assert(old_stack.last() == (node, i));
                            assert(budget > old_stack.len());
                            lemma_unwind_push(v, old_stack, black@, budget, node, i, dep);
                            assert(spec_unwind(v, stack@, black@, budget) == target);
                        }
                    }
                } else {
                    let ghost old_stack = stack@;
                    let f = pop_frame(&mut stack);
                    stack.push((f.0, f.1 + 1));
                    proof {
                        assert(stack@ =~= old_stack.update(
                            old_stack.len() - 1,
                            (node, (i + 1) as usize),
                        ));
                        assert forall|k: int, j: int|
                            #![trigger stack@[k], v.dependencies[j]]
                            0 <= k < stack@.len() && 0 <= j < stack@[k].1 && v.dependencies[j].0
                                == stack@[k].0 implies black@.contains(v.dependencies[j].1) by {
                            if k == stack@.len() - 1 && j == i {
                                assert(v.dependencies[j].0 != node);
                                assert(false);
                            } else {
                                assert(old_stack[k].0 == stack@[k].0);
                                assert(j < old_stack[k].1);
                            }
                        }
                        assert(old_stack.last() == (node, i));
                        lemma_unwind_advance(v, old_stack, black@, budget, node, i);
                        assert(spec_unwind(v, stack@, black@, budget) == target);
                    }
                }
            }
        }
        proof {
            assert(spec_unwind(v, stack@, black@, budget) == black@);
            assert(black@ == target);
        }
        Ok(())
    }
}

/// Acyclicity law: every dependency graph reachable through the graph's
/// operations — built edge by edge through `add_dependency`, which
/// refuses any edge that would close a cycle and leaves both indices
/// untouched when it refuses — is acyclic.
pub proof fn lemma_graph_stays_acyclic(g: DependencyGraph)
    requires
        g.wf(),
    ensures
        acyclic(g@),
{
}

/// Whether every recorded dependency of `task_id` in the graph resolves,
/// by its first occurrence in `tasks`, to a task whose status is `Done`.
pub open spec fn graph_deps_met(v: GraphView, task_id: u32, tasks: Seq<Task>) -> bool {
    forall|b: u32| #[trigger] dep_edge(v, task_id, b) ==> spec_dep_done(tasks, b)
}

/// Membership in a pushed sequence.
proof fn lemma_push_contains<A>(s: Seq<A>, x: A)
    ensures
        forall|y: A| #[trigger] s.push(x).contains(y) <==> s.contains(y) || y == x,
{
    assert forall|y: A| #[trigger] s.push(x).contains(y) <==> s.contains(y) || y == x by {
        if s.push(x).contains(y) {
            let k = choose|k: int| 0 <= k < s.push(x).len() && s.push(x)[k] == y;
            if k < s.len() {
                assert(s[k] == y);
            }
        }
        if s.contains(y) {
            let k = choose|k: int| 0 <= k < s.len() && s[k] == y;
            assert(s.push(x)[k] == y);
        }
        assert(s.push(x)[s.len() as int] == x);
    }
}

/// Pushing a fresh element keeps a sequence duplicate-free.
proof fn lemma_push_no_duplicates<A>(s: Seq<A>, x: A)
    requires
        s.no_duplicates(),
        !s.contains(x),
    ensures
        s.push(x).no_duplicates(),
{
    let q = s.push(x);
    assert forall|i: int, j: int|
        0 <= i < q.len() && 0 <= j < q.len() && i != j implies q[i] != q[j] by {
        if i < s.len() && j < s.len() {
            assert(s[i] != s[j]);
        } else if i < s.len() {
            assert(q[j] == x);
            assert(q[i] == s[i]);
        } else {
            assert(q[i] == x);
            assert(q[j] == s[j]);
        }
    }
}

/// Remove the pair (a, b) from the list, if present; the list order is
/// otherwise preserved.
fn remove_pair(v: &mut Vec<(u32, u32)>, a: u32, b: u32)
    requires
        old(v)@.no_duplicates(),
    ensures
        final(v)@ == old(v)@.remove_value((a, b)),
        final(v)@.no_duplicates(),
        forall|x: u32, y: u32|
            #[trigger] final(v)@.contains((x, y)) <==> old(v)@.contains((x, y)) && !(x == a && y
                == b),
{
    let ghost s = v@;
    let n = v.len();
    let mut i: usize = 0;
    while i < n
        invariant
            i <= n,
            n == v@.len(),
            v@ == s,
            s == old(v)@,
            s.no_duplicates(),
            forall|j: int| 0 <= j < i ==> v@[j] != (a, b),
        decreases n - i,
    {
        let e = v[i];
        if e.0 == a && e.1 == b {
            assert(v@[i as int] == (a, b));
            v.remove(i);
            proof {
                s.index_of_first_ensures((a, b));
                assert(s.index_of_first((a, b)) == Some(i as int));
                assert(v@ == s.remove(i as int));
                lemma_remove_contains(s, i as int);
                assert forall|x: u32, y: u32|
                    #[trigger] v@.contains((x, y)) <==> s.contains((x, y)) && !(x == a && y == b) by {
                    if s.contains((x, y)) && !(x == a && y == b) {
                        let k = choose|k: int| 0 <= k < s.len() && s[k] == (x, y);
                        if k < i {
                            assert(v@[k] == (x, y));
                        } else {
                            assert(k > i);
                            assert(v@[k - 1] == (x, y));
                        }
                    }
                }
            }
            return ;
        }
        i += 1;
    }
    proof {
        s.index_of_first_ensures((a, b));
        if s.contains((a, b)) {
            let k = choose|k: int| 0 <= k < s.len() && s[k] == (a, b);
        }
        assert(!s.contains((a, b)));
        assert(v@ == s.remove_value((a, b)));
    }
}

/// A removed sequence keeps exactly the other elements and stays
/// duplicate-free.
proof fn lemma_remove_contains<A>(s: Seq<A>, i: int)
    requires
        0 <= i < s.len(),
        s.no_duplicates(),
    ensures
        s.remove(i).no_duplicates(),
        forall|y: A| #[trigger] s.remove(i).contains(y) ==> s.contains(y) && y != s[i],
    decreases s.len(),
{
    let q = s.remove(i);
    assert forall|y: A| #[trigger] q.contains(y) implies s.contains(y) && y != s[i] by {
        let k = choose|k: int| 0 <= k < q.len() && q[k] == y;
        if k < i {
            assert(s[k] == y);
        } else {
            assert(s[k + 1] == y);
        }
    }
    assert forall|x: int, y: int|
        0 <= x < q.len() && 0 <= y < q.len() && x != y implies q[x] != q[y] by {
        let sx: int = if x < i { x } else { x + 1 };
        let sy: int = if y < i { y } else { y + 1 };
        assert(q[x] == s[sx] && q[y] == s[sy]);
        assert(s[sx] != s[sy]);
    }
}

/// Collect, in recorded order, the second components of the pairs whose
/// first component is `key`.
fn collect_second(v: &Vec<(u32, u32)>, key: u32) -> (r: Vec<u32>)
    requires
        v@.no_duplicates(),
    ensures
        r@.no_duplicates(),
        forall|b: u32| #[trigger] r@.contains(b) <==> v@.contains((key, b)),
{
    let mut r: Vec<u32> = Vec::new();
    let n = v.len();
    let mut i: usize = 0;
    while i < n
        invariant
            i <= n,
            n == v@.len(),
            v@.no_duplicates(),
            r@.no_duplicates(),
            forall|k: int| 0 <= k < r@.len() ==> (exists|j: int|
                0 <= j < i && v@[j] == (key, #[trigger] r@[k])),
            forall|j: int|
                0 <= j < i && (#[trigger] v@[j]).0 == key ==> r@.contains(v@[j].1),
        decreases n - i,
    {
        let e = v[i];
        if e.0 == key {
            proof {
                if r@.contains(e.1) {
                    let k = choose|k: int| 0 <= k < r@.len() && r@[k] == e.1;
                    let j = choose|j: int| 0 <= j < i && v@[j] == (key, r@[k]);
                    assert(v@[j] == v@[i as int]);
                    assert(false);
                }
                lemma_push_contains(r@, e.1);
                lemma_push_no_duplicates(r@, e.1);
            }
            let ghost old_r = r@;
            r.push(e.1);
            proof {
                assert(v@[i as int] == (key, e.1));
                assert forall|k: int| 0 <= k < r@.len() implies (exists|j: int|
                    0 <= j < i + 1 && v@[j] == (key, #[trigger] r@[k])) by {
                    if k < old_r.len() {
                        assert(r@[k] == old_r[k]);
                        let j = choose|j: int| 0 <= j < i && v@[j] == (key, old_r[k]);
                        assert(v@[j] == (key, r@[k]));
                    } else {
                        assert(r@[k] == e.1);
                        assert(v@[i as int] == (key, r@[k]));
                    }
                }
            }
        }
        i += 1;
    }
    proof {
        assert forall|b: u32| #[trigger] r@.contains(b) <==> v@.contains((key, b)) by {
            if r@.contains(b) {
                let k = choose|k: int| 0 <= k < r@.len() && r@[k] == b;
                let j = choose|j: int| 0 <= j < n && v@[j] == (key, r@[k]);
                assert(v@.contains((key, b)));
            }
            if v@.contains((key, b)) {
                let j = choose|j: int| 0 <= j < v@.len() && v@[j] == (key, b);
                assert(v@[j].0 == key);
                assert(r@.contains(v@[j].1));
            }
        }
    }
    r
}

} // verus!
