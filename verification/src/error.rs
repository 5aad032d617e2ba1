//! The failures that the library reports, as values.

use vstd::prelude::*;
use vstd::string::StringExecFns;

verus! {

/// Why an operation was refused or failed. Every payload is a message for a
/// human reader.
#[derive(Debug, Clone, PartialEq, Eq)]
pub enum Error {
    /// The recurrence expression is empty or malformed.
    InvalidExpression(String),
    /// The recurrence expression is plausible, but of a form that is not evaluated.
    UnsupportedExpression(String),
    /// The command is empty or looks destructive.
    InvalidCommand(String),
    /// Reading, writing or reloading the external schedule failed.
    SyncError(String),
    /// No stored job has the id that was asked for.
    JobNotFound,
    /// The job store failed.
    StoreError(String),
    /// The caller lacks a privilege.
    PermissionError(String),
    /// The runtime that executes job commands failed.
    PythonError(String),
}

/// An error as plain values.
pub enum ErrorView {
    InvalidExpression(Seq<char>),
    UnsupportedExpression(Seq<char>),
    InvalidCommand(Seq<char>),
    SyncError(Seq<char>),
    JobNotFound,
    StoreError(Seq<char>),
    PermissionError(Seq<char>),
    PythonError(Seq<char>),
}

impl View for Error {
    type V = ErrorView;

    open spec fn view(&self) -> ErrorView {
        match self {
            Error::InvalidExpression(m) => ErrorView::InvalidExpression(m@),
            Error::UnsupportedExpression(m) => ErrorView::UnsupportedExpression(m@),
            Error::InvalidCommand(m) => ErrorView::InvalidCommand(m@),
            Error::SyncError(m) => ErrorView::SyncError(m@),
            Error::JobNotFound => ErrorView::JobNotFound,
            Error::StoreError(m) => ErrorView::StoreError(m@),
            Error::PermissionError(m) => ErrorView::PermissionError(m@),
            Error::PythonError(m) => ErrorView::PythonError(m@),
        }
    }
}

impl ErrorView {
    /// The error as one line of text.
    pub open spec fn message_text(self) -> Seq<char> {
        match self {
            ErrorView::InvalidExpression(m) => "Invalid cron expression: "@ + m,
            ErrorView::UnsupportedExpression(m) => "Unsupported cron expression: "@ + m,
            ErrorView::InvalidCommand(m) => "Invalid command: "@ + m,
            ErrorView::SyncError(m) => "Failed to update crontab: "@ + m,
            ErrorView::JobNotFound => "Job not found"@,
            ErrorView::StoreError(m) => "Database error: "@ + m,
            ErrorView::PermissionError(m) => "Permission error: "@ + m,
            ErrorView::PythonError(m) => "Python error: "@ + m,
        }
    }
}

/// `a` followed by `b`.
pub fn concat(a: &str, b: &str) -> (r: String)
    ensures
        r@ == a@ + b@,
{
    let mut r = String::from_str(a);
    r.append(b);
    r
}

impl Error {
    /// The error as one line of text.
    pub fn message(&self) -> (r: String)
        ensures
            r@ == self@.message_text(),
    {
        match self {
            Error::InvalidExpression(m) => concat("Invalid cron expression: ", m.as_str()),
            Error::UnsupportedExpression(m) => concat("Unsupported cron expression: ", m.as_str()),
            Error::InvalidCommand(m) => concat("Invalid command: ", m.as_str()),
            Error::SyncError(m) => concat("Failed to update crontab: ", m.as_str()),
            Error::JobNotFound => String::from_str("Job not found"),
            Error::StoreError(m) => concat("Database error: ", m.as_str()),
            Error::PermissionError(m) => concat("Permission error: ", m.as_str()),
            Error::PythonError(m) => concat("Python error: ", m.as_str()),
        }
    }
}

} // verus!
