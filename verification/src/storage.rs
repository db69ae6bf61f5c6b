//! The persistence collaborator's boundary: the engine requires a store
//! for project and task records, keyed by numeric identifiers, failing
//! with a distinguishable not-found condition when a record is absent.
//! Implementations live with the surrounding program, next to whatever
//! medium they persist to; the engine itself holds no storage logic.

use vstd::prelude::*;

use crate::error::TaskMasterError;
use crate::project::Project;
use crate::task::Task;

verus! {

/// Durable load and save of project and task records.
pub trait Storage {
    fn save_project(&mut self, project: &Project) -> Result<(), TaskMasterError>;

    fn load_project(&self, id: u32) -> Result<Project, TaskMasterError>;

    fn list_projects(&self) -> Result<Vec<Project>, TaskMasterError>;

    fn delete_project(&mut self, id: u32) -> Result<(), TaskMasterError>;

    fn save_task(&self, project_id: u32, task: &Task) -> Result<(), TaskMasterError>;

    fn load_task(&self, project_id: u32, task_id: u32) -> Result<Task, TaskMasterError>;

    fn delete_task(&self, project_id: u32, task_id: u32) -> Result<(), TaskMasterError>;
}

} // verus!
