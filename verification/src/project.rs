//! Projects: the view style and creation command the service accepts.
use vstd::prelude::*;

verus! {

/// How a project is shown in the service's clients.
#[derive(Debug, Clone, Copy, PartialEq, Eq, Structural)]
pub enum ViewStyle {
    /// Project as list view (the default).
    List,
    /// Project as board view.
    Board,
    /// Project as calendar view.
    Calendar,
}

impl Default for ViewStyle {
    /// The view style used when none was chosen.
    fn default() -> (v: ViewStyle)
        ensures
            v == ViewStyle::List,
    {
        ViewStyle::List
    }
}

/// Command data for creating a new project.
#[derive(Debug, Clone)]
pub struct CreateProject {
    /// Name of the project to create.
    pub name: String,
    /// Makes the newly created project a child of this parent project.
    pub parent_id: Option<String>,
    /// Color of the project icon.
    pub color: Option<String>,
    /// Mark as favorite or not.
    pub favorite: Option<bool>,
    /// Sets the view style of the project.
    pub view_style: Option<ViewStyle>,
}

} // verus!
