//! GitHub issue synchronization: the request URLs sent to the remote
//! tracker and the mapping of its responses onto typed outcomes.
//!
//! The network round-trip itself is the caller's: it performs one POST or
//! GET against the URL built here, parses the JSON body, and hands the
//! status code and the parsed fields to the functions of this module. The
//! functions are pure: the outcome is a function of the local task and the
//! remote response alone.

use vstd::prelude::*;
use vstd::string::StringExecFns;
use crate::errors::ExportError;
use crate::tasks::{GitHub, Todo};
use crate::text::{dec_chars, push_u32};

verus! {

/// The status code the tracker answers with when an issue was created.
pub const HTTP_CREATED: u16 = 201;

/// The status code of a successful issue fetch.
pub const HTTP_OK: u16 = 200;

/// The status code of a rejected credential.
pub const HTTP_UNAUTHORIZED: u16 = 401;

/// The status code of a missing issue.
pub const HTTP_NOT_FOUND: u16 = 404;

/// The fields of a remote issue as parsed from the tracker's response
/// body: its title and its state (recognized states are `"open"` and
/// `"closed"`).
pub struct IssueFields {
    /// The remote issue title; authoritative for the task name.
    pub title: String,
    /// The remote issue state.
    pub state: String,
}

/// The URL of the issue-creation endpoint of a repository, with the token
/// passed as a query credential.
pub fn create_issue_url(repo: &str, token: &str) -> (r: String)
    ensures
        r@ == "https://api.github.com/repos/"@ + repo@ + "/issues?access_token="@ + token@,
{
    let mut url = String::from_str("https://api.github.com/repos/");
    url.append(repo);
    url.append("/issues?access_token=");
    url.append(token);
    url
}

/// The URL of one issue of a repository, with the token passed as a query
/// credential.
pub fn issue_url(repo: &str, number: u32, token: &str) -> (r: String)
    ensures
        r@ == "https://api.github.com/repos/"@ + repo@ + "/issues/"@ + dec_chars(number as nat)
            + "?access_token="@ + token@,
{
    let mut url = String::from_str("https://api.github.com/repos/");
    url.append(repo);
    url.append("/issues/");
    push_u32(&mut url, number);
    url.append("?access_token=");
    url.append(token);
    url
}

/// Maps the tracker's answer to an issue-creation POST onto the typed
/// outcome.
///
/// A `201 Created` answer with a parsed issue number links the task to the
/// new remote issue; `401 Unauthorized` is `BadCredentials`; every other
/// status, a transport failure (no status at all is the caller's to
/// report as a status outside the recognized set), or a `201` whose body
/// held no issue number is `UnknownError`. No retries happen here.
pub fn github_issue(repo: &str, status: u16, issue_number: Option<u32>) -> (r: Result<
    GitHub,
    ExportError,
>)
    ensures
        (status == 201 && issue_number is Some) <==> r is Ok,
        r matches Ok(g) ==> (g.repo@ == repo@ && (issue_number matches Some(n) && g.issue_number
            == n)),
        status == 201 && issue_number is None ==> r == Err::<GitHub, ExportError>(
            ExportError::UnknownError,
        ),
        status == 401 ==> r == Err::<GitHub, ExportError>(ExportError::BadCredentials),
        status != 201 && status != 401 ==> r == Err::<GitHub, ExportError>(
            ExportError::UnknownError,
        ),
{
    if status == HTTP_CREATED {
        match issue_number {
            Some(n) => Ok(GitHub { repo: String::from_str(repo), issue_number: n }),
            None => Err(ExportError::UnknownError),
        }
    } else if status == HTTP_UNAUTHORIZED {
        Err(ExportError::BadCredentials)
    } else {
        Err(ExportError::UnknownError)
    }
}

/// Reconciles a task with the tracker's answer to fetching its linked
/// issue.
///
/// On `200 OK` with a parsed body, the remote title replaces the local
/// name (the remote is authoritative for naming) and the remote state is
/// mapped: `"closed"` marks the task done, `"open"` marks it undone, and
/// any other state is a protocol violation answered with `UnknownError`.
/// `404 Not Found` is `DoesNotExist`; every other status or an unparsable
/// body is `UnknownError`. Nothing is mutated: the updated task is
/// returned and persisting it is the caller's responsibility.
pub fn update_github_issue(old_todo: &Todo, status: u16, fields: Option<&IssueFields>) -> (r:
    Result<Todo, ExportError>)
    requires
        old_todo.github is Some,
    ensures
        (status == 200 && (fields matches Some(f) && (f.state@ == "closed"@ || f.state@
            == "open"@))) <==> r is Ok,
        r matches Ok(t) ==> (fields matches Some(f) && (t.id == old_todo.id && t.github
            == old_todo.github && t.name@ == f.title@ && t.done == (f.state@ == "closed"@))),
        status == 200 && fields is None ==> r == Err::<Todo, ExportError>(
            ExportError::UnknownError,
        ),
        status == 200 && (fields matches Some(f) && f.state@ != "closed"@ && f.state@ != "open"@)
            ==> r == Err::<Todo, ExportError>(ExportError::UnknownError),
        status == 404 ==> r == Err::<Todo, ExportError>(ExportError::DoesNotExist),
        status != 200 && status != 404 ==> r == Err::<Todo, ExportError>(
            ExportError::UnknownError,
        ),
{
    if status == HTTP_OK {
        match fields {
            Some(f) => {
                let is_closed = f.state == String::from_str("closed");
                let is_open = f.state == String::from_str("open");
                if is_closed || is_open {
                    let mut todo = old_todo.dup();
                    todo.name = f.title.clone();
                    todo.done = is_closed;
                    Ok(todo)
                } else {
                    Err(ExportError::UnknownError)
                }
            },
            None => Err(ExportError::UnknownError),
        }
    } else if status == HTTP_NOT_FOUND {
        Err(ExportError::DoesNotExist)
    } else {
        Err(ExportError::UnknownError)
    }
}

} // verus!
