use tdo_export::errors::ExportError;
use tdo_export::github::{create_issue_url, github_issue, issue_url, update_github_issue, IssueFields};
use tdo_export::tasks::{GitHub, Todo};

fn linked_task(name: &str, done: bool) -> Todo {
    Todo {
        id: 4,
        name: name.to_string(),
        done,
        github: Some(GitHub { repo: "jane/tasks".to_string(), issue_number: 11 }),
    }
}

fn fields(title: &str, state: &str) -> IssueFields {
    IssueFields { title: title.to_string(), state: state.to_string() }
}

#[test]
fn create_issue_url_names_repo_and_token() {
    assert_eq!(
        create_issue_url("jane/tasks", "TOKEN"),
        "https://api.github.com/repos/jane/tasks/issues?access_token=TOKEN"
    );
}

#[test]
fn issue_url_names_repo_number_and_token() {
    assert_eq!(
        issue_url("jane/tasks", 42, "TOKEN"),
        "https://api.github.com/repos/jane/tasks/issues/42?access_token=TOKEN"
    );
}

#[test]
fn created_issue_links_repo_and_number() {
    let g = github_issue("jane/tasks", 201, Some(42)).unwrap();
    assert_eq!(g.repo, "jane/tasks");
    assert_eq!(g.issue_number, 42);
}

#[test]
fn unauthorized_creation_is_bad_credentials() {
    assert!(matches!(
        github_issue("jane/tasks", 401, None),
        Err(ExportError::BadCredentials)
    ));
    assert!(matches!(
        github_issue("jane/tasks", 401, Some(42)),
        Err(ExportError::BadCredentials)
    ));
}

#[test]
fn other_creation_outcomes_are_unknown_errors() {
    assert!(matches!(github_issue("jane/tasks", 500, None), Err(ExportError::UnknownError)));
    assert!(matches!(github_issue("jane/tasks", 404, None), Err(ExportError::UnknownError)));
    // A created answer whose body held no issue number is malformed.
    assert!(matches!(github_issue("jane/tasks", 201, None), Err(ExportError::UnknownError)));
}

#[test]
fn reconcile_takes_remote_title_and_closed_state() {
    let local = linked_task("Buy", false);
    let updated = update_github_issue(&local, 200, Some(&fields("Buy milk", "closed"))).unwrap();
    assert_eq!(updated.name, "Buy milk");
    assert!(updated.done);
    assert_eq!(updated.id, 4);
    let link = updated.github.unwrap();
    assert_eq!(link.repo, "jane/tasks");
    assert_eq!(link.issue_number, 11);
}

#[test]
fn reconcile_open_state_marks_undone() {
    let local = linked_task("Buy milk", true);
    let updated = update_github_issue(&local, 200, Some(&fields("Buy milk", "open"))).unwrap();
    assert_eq!(updated.name, "Buy milk");
    assert!(!updated.done);
}

#[test]
fn reconcile_unrecognized_state_is_unknown_error() {
    let local = linked_task("Buy", false);
    assert!(matches!(
        update_github_issue(&local, 200, Some(&fields("Buy milk", "in_progress"))),
        Err(ExportError::UnknownError)
    ));
}

#[test]
fn reconcile_missing_issue_is_does_not_exist() {
    let local = linked_task("Buy", false);
    assert!(matches!(
        update_github_issue(&local, 404, None),
        Err(ExportError::DoesNotExist)
    ));
}

#[test]
fn reconcile_other_failures_are_unknown_errors() {
    let local = linked_task("Buy", false);
    assert!(matches!(
        update_github_issue(&local, 500, None),
        Err(ExportError::UnknownError)
    ));
    // A success status with an unparsable body is malformed, not success.
    assert!(matches!(
        update_github_issue(&local, 200, None),
        Err(ExportError::UnknownError)
    ));
}
