pub mod dag;
pub mod project;
pub mod task;

pub use project::ProjectGraph;
pub use task::{TaskGraph, TaskId, TaskState};
