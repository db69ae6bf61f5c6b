//! A task-execution and scheduling engine: a dependency graph with cycle
//! rejection and deterministic topological ordering, a worker-pool and
//! executor pair with running-task bookkeeping and timeout detection, an
//! event-driven notification hub with per-task deadlines, a recurrence
//! engine for periodic tasks, and a TTL cache for task and project lookups.

pub mod async_executor;
pub mod clock;
pub mod error;
pub mod instants;
pub mod notification;
pub mod optimizations;
pub mod periodic_tasks;
pub mod project;
pub mod storage;
pub mod task;
pub mod task_dependencies;
pub mod task_executor;
pub mod task_handler;
pub mod text;
pub mod worker_pool;
