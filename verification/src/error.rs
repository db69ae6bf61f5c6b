//! The error taxonomy of the engine: absent records, illegal state
//! transitions, storage and serialization faults, and closed channels.

use vstd::prelude::*;
use vstd::string::StringExecFns;

use crate::text::{decimal_of, u32_to_string};

verus! {

/// Everything the engine can report to a caller.
#[derive(Debug)]
pub enum TaskMasterError {
    /// The referenced task identifier is absent from the relevant collection.
    TaskNotFound(u32),
    /// The referenced project identifier is absent.
    ProjectNotFound(u32),
    /// An illegal state transition: a self-dependency, a dependency cycle,
    /// or a submission to a pool that has already begun shutdown.
    InvalidOperation(String),
    /// The persistence collaborator failed.
    StorageError(String),
    /// An input or output fault reported by the surrounding program.
    IoError(String),
    /// A record could not be encoded or decoded.
    SerializationError(String),
    /// An event or result stream was closed when a write was attempted.
    ChannelError(String),
}

/// The one-line rendering of an error.
pub open spec fn spec_message(e: TaskMasterError) -> Seq<char> {
    match e {
        TaskMasterError::TaskNotFound(id) => "Task with ID "@ + decimal_of(id as nat)
            + " not found"@,
        TaskMasterError::ProjectNotFound(id) => "Project with ID "@ + decimal_of(id as nat)
            + " not found"@,
        TaskMasterError::InvalidOperation(msg) => "Invalid operation: "@ + msg@,
        TaskMasterError::StorageError(msg) => "Storage error: "@ + msg@,
        TaskMasterError::IoError(msg) => "I/O error: "@ + msg@,
        TaskMasterError::SerializationError(msg) => "Serialization error: "@ + msg@,
        TaskMasterError::ChannelError(msg) => "Channel error: "@ + msg@,
    }
}

impl TaskMasterError {
    /// Render the error as one line of text.
    pub fn message(&self) -> (r: String)
        ensures
            r@ == spec_message(*self),
    {
        match self {
            TaskMasterError::TaskNotFound(id) => {
                let mut s = "Task with ID ".to_owned();
                s.append(u32_to_string(*id).as_str());
                s.append(" not found");
                s
            },
            TaskMasterError::ProjectNotFound(id) => {
                let mut s = "Project with ID ".to_owned();
                s.append(u32_to_string(*id).as_str());
                s.append(" not found");
                s
            },
            TaskMasterError::InvalidOperation(msg) => {
                let mut s = "Invalid operation: ".to_owned();
                s.append(msg.as_str());
                s
            },
            TaskMasterError::StorageError(msg) => {
                let mut s = "Storage error: ".to_owned();
                s.append(msg.as_str());
                s
            },
            TaskMasterError::IoError(msg) => {
                let mut s = "I/O error: ".to_owned();
                s.append(msg.as_str());
                s
            },
            TaskMasterError::SerializationError(msg) => {
                let mut s = "Serialization error: ".to_owned();
                s.append(msg.as_str());
                s
            },
            TaskMasterError::ChannelError(msg) => {
                let mut s = "Channel error: ".to_owned();
                s.append(msg.as_str());
                s
            },
        }
    }
}

} // verus!
