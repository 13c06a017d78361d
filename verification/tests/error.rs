use ranker::error::ProjectsError;

#[test]
fn messages_of_the_errors() {
    assert_eq!(ProjectsError::NoProjects.message(), "No projects were loaded or no projects found!");
    assert_eq!(ProjectsError::NotEnoughItems.message(), "Selected project has less than two items");
    assert_eq!(ProjectsError::ProjectExists.message(), "Project already exists");
}

#[test]
fn an_outside_error_keeps_its_text() {
    let e: ProjectsError = anyhow::Error::msg("disk is full").into();
    assert!(matches!(e, ProjectsError::Other(_)));
    assert_eq!(e.message(), "disk is full");
}
