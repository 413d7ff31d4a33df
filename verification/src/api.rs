//! Plain data shells of the remote service's wire format that the engine's
//! callers pass around.
use vstd::prelude::*;

verus! {

/// Paginated response wrapper of the list endpoints.
#[derive(Debug)]
pub struct PaginatedResponse<T> {
    /// The list of results.
    pub results: Vec<T>,
    /// Cursor for fetching the next page, if any.
    pub next_cursor: Option<String>,
}

/// The place a comment is attached to: a project or a task.
#[derive(Debug, Clone)]
pub enum ThreadID {
    /// The comment hangs off the project with this identifier.
    Project {
        /// Identifier of the project.
        project_id: String,
    },
    /// The comment hangs off the task with this identifier.
    Task {
        /// Identifier of the task.
        task_id: String,
    },
}

/// An optional attachment file attached to a comment; empty for now, so it
/// acts as a marker.
#[derive(Debug, Clone)]
pub struct Attachment {}

/// Command data for creating a new comment.
#[derive(Debug, Clone)]
pub struct CreateComment {
    /// The thread to attach the comment to.
    pub thread: ThreadID,
    /// The text of the comment.
    pub content: String,
}

} // verus!
