//! Sections: subsections of a project.
use vstd::prelude::*;

use crate::sort::lex_le;
use crate::sort::str_bytes;
use crate::sort::str_le;

verus! {

/// A subsection of a project, as the remote service describes it.
#[derive(Debug, Clone)]
pub struct Section {
    /// The unique identifier of this section.
    pub id: String,
    /// Identifier of the project this section belongs to.
    pub project_id: String,
    /// Position of the section among the sections of the same project.
    pub order: i64,
    /// The name of the section.
    pub name: String,
    /// Identifier of the user who created the section.
    pub user_id: Option<String>,
    /// When the section was created.
    pub added_at: Option<String>,
    /// When the section was last updated.
    pub updated_at: Option<String>,
    /// When the section was archived.
    pub archived_at: Option<String>,
    /// Whether the section is archived.
    pub is_archived: bool,
    /// Whether the section is deleted.
    pub is_deleted: bool,
    /// Whether the section is collapsed.
    pub is_collapsed: bool,
}

impl Section {
    /// A fresh section with the given identity and name and every other
    /// field at its blank default.
    pub fn new(id: &str, project_id: &str, name: &str) -> (s: Section)
        ensures
            s.id@ == id@,
            s.project_id@ == project_id@,
            s.name@ == name@,
            s.order == 0,
            s.user_id is None,
            s.added_at is None,
            s.updated_at is None,
            s.archived_at is None,
            !s.is_archived,
            !s.is_deleted,
            !s.is_collapsed,
    {
        Section {
            id: id.to_owned(),
            project_id: project_id.to_owned(),
            name: name.to_owned(),
            order: 0,
            user_id: None,
            added_at: None,
            updated_at: None,
            archived_at: None,
            is_archived: false,
            is_deleted: false,
            is_collapsed: false,
        }
    }
}

impl Section {
    /// Whether this section comes before (or ties with) another in the
    /// order section lists use: by position first, then by identifier.
    pub fn precedes(&self, other: &Section) -> (r: bool)
        ensures
            r == (if self.order != other.order {
                self.order < other.order
            } else {
                lex_le(str_bytes(self.id@), str_bytes(other.id@))
            }),
    {
        if self.order != other.order {
            self.order < other.order
        } else {
            str_le(self.id.as_str(), other.id.as_str())
        }
    }
}

/// Command data for creating a new section.
#[derive(Debug, Clone)]
pub struct CreateSection {
    /// Name of the section to create.
    pub name: String,
    /// The project of which this section is part of.
    pub project_id: String,
    /// Order of the section in lists.
    pub order: Option<i64>,
}

} // verus!
