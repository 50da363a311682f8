use vstd::prelude::*;

verus! {

/// Every way a render or sync operation can fail.
///
/// `InvalidWidth` and `TerminalUnavailable` belong to the terminal render
/// path; the remaining variants are the typed outcomes of a GitHub sync
/// attempt. Absence of content is never an error: exporters that find no
/// qualifying content return an explicit empty result instead.
#[derive(Clone, Copy, Debug, PartialEq, Eq, Structural)]
pub enum ExportError {
    /// The wrap budget left for task text is not positive: the terminal is
    /// too narrow for the id column, status brackets and separators.
    InvalidWidth,
    /// The terminal geometry could not be fetched.
    TerminalUnavailable,
    /// The remote tracker rejected the credentials.
    BadCredentials,
    /// The remote issue does not exist.
    DoesNotExist,
    /// Catch-all: unexpected status code, transport failure, or a malformed
    /// response body.
    UnknownError,
}

} // verus!
