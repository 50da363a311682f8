//! Renders a user's task lists into three output forms — a plaintext mail
//! digest, a Markdown export, and a set of fixed-width terminal rows — and
//! maps remote GitHub issue state onto local task state.
//!
//! The rendering core is pure: it takes a snapshot of the task lists and
//! returns text, never touching the network or the terminal itself. The
//! line wrapper splits task names on whitespace boundaries and hard-splits
//! only words wider than the available budget.

pub mod errors;
pub mod export;
pub mod github;
pub mod identity;
pub mod render;
pub mod tasks;
pub mod text;
pub mod wrap;
pub mod wrap_laws;
