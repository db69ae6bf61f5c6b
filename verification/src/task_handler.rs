//! Task handlers: pluggable task-type-specific execution logic. Handlers
//! are kept as an ordered registry evaluated in registration order, first
//! match wins. The registry is a closed set of handler shapes, so every
//! dispatch is checked against the matched handler's own contract.

use vstd::prelude::*;
use vstd::string::StrSliceExecFns;

use crate::error::TaskMasterError;
use crate::task::{Task, TaskPriority};
use crate::text::u32_to_string;
use vstd::string::StringExecFns;

verus! {

/// Whether `needle` occurs contiguously within `hay`.
pub open spec fn contains_seq(hay: Seq<char>, needle: Seq<char>) -> bool {
    exists|i: int|
        0 <= i && i + needle.len() <= hay.len() && #[trigger] hay.subrange(i, i + needle.len())
            == needle
}

/// Whether `needle` occurs contiguously within `hay`: a character-wise
/// scan of every window of `hay` of the needle's length.
pub fn str_contains(hay: &str, needle: &str) -> (r: bool)
    ensures
        r == contains_seq(hay@, needle@),
{
    let hay_len = hay.unicode_len();
    let needle_len = needle.unicode_len();
    if needle_len == 0 {
        proof {
            let z: int = 0;
            assert(hay@.subrange(z, z + needle@.len()) =~= needle@);
            assert(contains_seq(hay@, needle@));
        }
        return true;
    }
    if needle_len > hay_len {
        proof {
            if contains_seq(hay@, needle@) {
                let i = choose|i: int|
                    0 <= i && i + needle@.len() <= hay@.len() && #[trigger] hay@.subrange(
                        i,
                        i + needle@.len(),
                    ) == needle@;
            }
        }
        return false;
    }
    let mut i: usize = 0;
    while i <= hay_len - needle_len
        invariant
            0 < needle_len <= hay_len,
            hay_len == hay@.len(),
            needle_len == needle@.len(),
            i <= hay_len - needle_len + 1,
            forall|k: int|
                0 <= k < i ==> #[trigger] hay@.subrange(k, k + needle@.len()) != needle@,
        decreases hay_len - needle_len - i + 1,
    {
        let mut j: usize = 0;
        let mut window_matches = true;
        while window_matches && j < needle_len
            invariant
                i + needle_len <= hay_len,
                hay_len == hay@.len(),
                needle_len == needle@.len(),
                j <= needle_len,
                window_matches ==> forall|m: int| 0 <= m < j ==> hay@[i + m] == needle@[m],
                !window_matches ==> hay@.subrange(i as int, i + needle@.len()) != needle@,
            decreases needle_len - j,
        {
            if hay.get_char(i + j) != needle.get_char(j) {
                proof {
                    assert(hay@.subrange(i as int, i + needle@.len())[j as int] == hay@[i + j]);
                }
                window_matches = false;
                j = needle_len;
            } else {
                j += 1;
            }
        }
        if window_matches {
            proof {
                assert(hay@.subrange(i as int, i + needle@.len()) =~= needle@);
            }
            return true;
        }
        i += 1;
    }
    proof {
        if contains_seq(hay@, needle@) {
            let k = choose|k: int|
                0 <= k && k + needle@.len() <= hay@.len() && #[trigger] hay@.subrange(
                    k,
                    k + needle@.len(),
                ) == needle@;
            assert(k < i);
        }
    }
    false
}

/// Task-type-specific execution logic. An implementation says, as a
/// specification, which tasks it takes (`spec_can_handle`) and must answer
/// membership questions accordingly.
pub trait TaskHandler: Sized {
    /// Which tasks this handler takes.
    spec fn spec_can_handle(&self, t: Task) -> bool;

    /// Run the handler on a task.
    fn execute(&self, task: &Task) -> Result<(), TaskMasterError>;

    /// The handler's registered name.
    fn name(&self) -> &str;

    /// Whether this handler can process the given task.
    fn can_handle(&self, task: &Task) -> (r: bool)
        ensures
            r == self.spec_can_handle(*task),
    ;
}

/// A handler matching tasks whose title mentions one of its task types.
#[derive(Debug)]
pub struct BasicTaskHandler {
    name: String,
    task_types: Vec<String>,
}

impl BasicTaskHandler {
    /// The registered name.
    pub closed spec fn spec_name(&self) -> Seq<char> {
        self.name@
    }

    /// The task types this handler matches against titles.
    pub closed spec fn spec_task_types(&self) -> Seq<Seq<char>> {
        self.task_types@.map_values(|s: String| s@)
    }

    pub fn new(name: &str, task_types: Vec<String>) -> (h: BasicTaskHandler)
        ensures
            h.spec_name() == name@,
            h.spec_task_types() == task_types@.map_values(|s: String| s@),
    {
        BasicTaskHandler { name: name.to_owned(), task_types }
    }
}

impl TaskHandler for BasicTaskHandler {
    /// Takes a task whose title mentions one of the handler's task types.
    open spec fn spec_can_handle(&self, t: Task) -> bool {
        exists|j: int|
            0 <= j < self.spec_task_types().len() && contains_seq(
                t.title@,
                #[trigger] self.spec_task_types()[j],
            )
    }

    /// Basic handling has no further effect.
    fn execute(&self, task: &Task) -> Result<(), TaskMasterError> {
        Ok(())
    }

    fn name(&self) -> (r: &str)
        ensures
            r@ == self.spec_name(),
    {
        self.name.as_str()
    }

    fn can_handle(&self, task: &Task) -> (r: bool)
        ensures
            r == self.spec_can_handle(*task),
    {
        let n = self.task_types.len();
        let mut j: usize = 0;
        while j < n
            invariant
                n == self.task_types@.len(),
                j <= n,
                forall|k: int|
                    0 <= k < j ==> !contains_seq(task.title@, #[trigger] self.spec_task_types()[k]),
            decreases n - j,
        {
            proof {
                assert(self.spec_task_types()[j as int] == self.task_types@[j as int]@);
            }
            if str_contains(task.title.as_str(), self.task_types[j].as_str()) {
                return true;
            }
            j += 1;
        }
        false
    }
}

/// A handler matching tasks of one of its priority levels.
#[derive(Debug)]
pub struct PriorityTaskHandler {
    name: String,
    priority_levels: Vec<TaskPriority>,
}

impl PriorityTaskHandler {
    /// The registered name.
    pub closed spec fn spec_name(&self) -> Seq<char> {
        self.name@
    }

    /// The priority levels this handler takes.
    pub closed spec fn spec_levels(&self) -> Seq<TaskPriority> {
        self.priority_levels@
    }

    pub fn new(name: &str, priority_levels: Vec<TaskPriority>) -> (h: PriorityTaskHandler)
        ensures
            h.spec_name() == name@,
            h.spec_levels() == priority_levels@,
    {
        PriorityTaskHandler { name: name.to_owned(), priority_levels }
    }
}

impl TaskHandler for PriorityTaskHandler {
    /// Takes a task whose priority is one of the handler's levels.
    open spec fn spec_can_handle(&self, t: Task) -> bool {
        self.spec_levels().contains(t.priority)
    }

    /// Prioritized handling has no further effect.
    fn execute(&self, task: &Task) -> Result<(), TaskMasterError> {
        Ok(())
    }

    fn name(&self) -> (r: &str)
        ensures
            r@ == self.spec_name(),
    {
        self.name.as_str()
    }

    fn can_handle(&self, task: &Task) -> (r: bool)
        ensures
            r == self.spec_can_handle(*task),
    {
        let n = self.priority_levels.len();
        let mut j: usize = 0;
        while j < n
            invariant
                n == self.priority_levels@.len(),
                j <= n,
                forall|k: int| 0 <= k < j ==> self.spec_levels()[k] != task.priority,
            decreases n - j,
        {
            if self.priority_levels[j] == task.priority {
                proof {
                    assert(self.spec_levels().contains(task.priority)) by {
                        assert(self.spec_levels()[j as int] == task.priority);
                    }
                }
                return true;
            }
            j += 1;
        }
        proof {
            if self.spec_levels().contains(task.priority) {
                let k = choose|k: int|
                    0 <= k < self.spec_levels().len() && self.spec_levels()[k] == task.priority;
            }
        }
        false
    }
}

/// One registered handler: the closed set of handler shapes the registry
/// dispatches over.
#[derive(Debug)]
pub enum RegisteredHandler {
    Basic(BasicTaskHandler),
    Priority(PriorityTaskHandler),
}

impl RegisteredHandler {
    /// Which tasks this handler takes.
    pub open spec fn spec_takes(&self, t: Task) -> bool {
        match self {
            RegisteredHandler::Basic(h) => h.spec_can_handle(t),
            RegisteredHandler::Priority(h) => h.spec_can_handle(t),
        }
    }

    /// Whether this handler can process the given task.
    pub fn can_handle(&self, task: &Task) -> (r: bool)
        ensures
            r == self.spec_takes(*task),
    {
        match self {
            RegisteredHandler::Basic(h) => h.can_handle(task),
            RegisteredHandler::Priority(h) => h.can_handle(task),
        }
    }

    /// Run the handler; the built-in handler shapes always succeed.
    pub fn execute(&self, task: &Task) -> (r: Result<(), TaskMasterError>)
        ensures
            r is Ok,
    {
        match self {
            RegisteredHandler::Basic(_) => Ok(()),
            RegisteredHandler::Priority(_) => Ok(()),
        }
    }

    /// The handler's registered name.
    pub fn name(&self) -> (r: &str)
        ensures
            r@ == self.spec_name(),
    {
        match self {
            RegisteredHandler::Basic(h) => h.name(),
            RegisteredHandler::Priority(h) => h.name(),
        }
    }

    /// The registered name.
    pub open spec fn spec_name(&self) -> Seq<char> {
        match self {
            RegisteredHandler::Basic(h) => h.spec_name(),
            RegisteredHandler::Priority(h) => h.spec_name(),
        }
    }
}

/// An ordered registry of handlers, evaluated in registration order;
/// the first handler that takes a task wins.
pub struct TaskHandlerRegistry {
    handlers: Vec<RegisteredHandler>,
}

impl View for TaskHandlerRegistry {
    type V = Seq<RegisteredHandler>;

    closed spec fn view(&self) -> Seq<RegisteredHandler> {
        self.handlers@
    }
}

/// Whether some registered handler takes the task.
pub open spec fn some_handler_takes(handlers: Seq<RegisteredHandler>, t: Task) -> bool {
    exists|k: int| 0 <= k < handlers.len() && (#[trigger] handlers[k]).spec_takes(t)
}

impl TaskHandlerRegistry {
    /// A fresh, empty registry.
    pub fn new() -> (r: TaskHandlerRegistry)
        ensures
            r@ == Seq::<RegisteredHandler>::empty(),
    {
        TaskHandlerRegistry { handlers: Vec::new() }
    }

    /// Register a handler behind the existing ones.
    pub fn register_handler(&mut self, handler: RegisteredHandler)
        ensures
            final(self)@ == old(self)@.push(handler),
    {
        self.handlers.push(handler);
    }

    /// The first registered handler that takes the task, if any.
    pub fn get_handler_for_task(&self, task: &Task) -> (r: Option<&RegisteredHandler>)
        ensures
            r is Some <==> some_handler_takes(self@, *task),
            r matches Some(h) ==> exists|k: int|
                {
                    &&& 0 <= k < self@.len()
                    &&& *h == self@[k]
                    &&& (#[trigger] self@[k]).spec_takes(*task)
                    &&& forall|j: int| 0 <= j < k ==> !(#[trigger] self@[j]).spec_takes(*task)
                },
    {
        let n = self.handlers.len();
        let mut i: usize = 0;
        while i < n
            invariant
                i <= n,
                n == self@.len(),
                self@ == self.handlers@,
                forall|j: int| 0 <= j < i ==> !(#[trigger] self@[j]).spec_takes(*task),
            decreases n - i,
        {
            if self.handlers[i].can_handle(task) {
                return Some(&self.handlers[i]);
            }
            i += 1;
        }
        proof {
            if some_handler_takes(self@, *task) {
                let k = choose|k: int|
                    0 <= k < self@.len() && (#[trigger] self@[k]).spec_takes(*task);
            }
        }
        None
    }

    /// Run the first handler that takes the task; with no handler for it,
    /// fail with an invalid-operation error naming the task.
    pub fn execute_task(&self, task: &Task) -> (r: Result<(), TaskMasterError>)
        ensures
            r is Ok <==> some_handler_takes(self@, *task),
            r matches Err(e) ==> e is InvalidOperation,
    {
        match self.get_handler_for_task(task) {
            Some(handler) => handler.execute(task),
            None => {
                let mut msg = "No handler available for task: ".to_owned();
                msg.append(u32_to_string(task.id).as_str());
                Err(TaskMasterError::InvalidOperation(msg))
            },
        }
    }

    /// The registered handler names, in registration order.
    pub fn list_handlers(&self) -> (names: Vec<String>)
        ensures
            names@.len() == self@.len(),
            forall|k: int| 0 <= k < self@.len() ==> (#[trigger] names@[k])@ == self@[k].spec_name(),
    {
        let n = self.handlers.len();
        let mut names: Vec<String> = Vec::new();
        let mut i: usize = 0;
        while i < n
            invariant
                i <= n,
                n == self@.len(),
                self@ == self.handlers@,
                names@.len() == i,
                forall|k: int| 0 <= k < i ==> (#[trigger] names@[k])@ == self@[k].spec_name(),
            decreases n - i,
        {
            names.push(self.handlers[i].name().to_owned());
            i += 1;
        }
        names
    }
}

} // verus!
