//! The errors of the project operations.
use vstd::prelude::*;

verus! {

#[verifier::external_type_specification]
#[verifier::external_body]
pub struct ExAnyhowError(anyhow::Error);

/// Why a project operation failed.
#[derive(Debug)]
pub enum ProjectsError {
    NoProjects,
    NotEnoughItems,
    ProjectExists,
    Other(anyhow::Error),
}

impl ProjectsError {
    /// The text the error is shown with.
    pub fn message(&self) -> (text: String)
        ensures
            self is NoProjects ==> text@ == "No projects were loaded or no projects found!"@,
            self is NotEnoughItems ==> text@ == "Selected project has less than two items"@,
            self is ProjectExists ==> text@ == "Project already exists"@,
    {
        match self {
            ProjectsError::NoProjects => String::from_str(
                "No projects were loaded or no projects found!",
            ),
            ProjectsError::NotEnoughItems => String::from_str(
                "Selected project has less than two items",
            ),
            ProjectsError::ProjectExists => String::from_str("Project already exists"),
            ProjectsError::Other(err) => error_text(err),
        }
    }
}

/// Formats an `anyhow::Error` with its `Display` impl (`format!("{err}")`).
/// Nothing is claimed of the text.
#[verifier::external_body]
fn error_text(err: &anyhow::Error) -> String {
    format!("{err}")
}

impl From<anyhow::Error> for ProjectsError {
    fn from(err: anyhow::Error) -> (e: Self)
        ensures
            e == ProjectsError::Other(err),
    {
        ProjectsError::Other(err)
    }
}

impl vstd::std_specs::convert::FromSpecImpl<anyhow::Error> for ProjectsError {
    open spec fn obeys_from_spec() -> bool {
        true
    }

    open spec fn from_spec(v: anyhow::Error) -> Self {
        ProjectsError::Other(v)
    }
}

} // verus!
