//! Validation of version-control commit messages against a configurable set
//! of rules, with a typed key/value configuration store and an author
//! registry keyed by initials.

pub mod author;
pub mod commit_message;
pub mod lints;
pub mod numbers;
pub mod report;
pub mod resolve;
pub mod text;
pub mod vcs;
pub mod yaml;

pub use commit_message::CommitMessage;
pub use lints::{lint, Lint, LintCode, LintProblem, Lints};
