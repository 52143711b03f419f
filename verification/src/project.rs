//! Projects, which own datasets, specifications, runs and cache entries.

use vstd::prelude::*;

verus! {

/// A project: an identifier that a store issued.
#[derive(Clone, Copy, Debug, PartialEq, Eq, Structural)]
pub struct Project {
    project_id: i64,
}

impl View for Project {
    type V = int;

    closed spec fn view(&self) -> int {
        self.project_id as int
    }
}

impl DeepView for Project {
    type V = int;

    open spec fn deep_view(&self) -> int {
        self@
    }
}

impl Project {
    /// The project with the given identifier.
    pub fn new_from_id(project_id: i64) -> (p: Project)
        ensures
            p@ == project_id,
    {
        Project { project_id }
    }

    /// The identifier of the project.
    pub fn project_id(&self) -> (id: i64)
        ensures
            id == self@,
    {
        self.project_id
    }
}

} // verus!
