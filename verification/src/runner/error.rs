//! Why a run could not be carried out.

use crate::text::{ends, ends_of_a_text};
use vstd::prelude::*;

verus! {

/// Why a run could not be carried out. Sources are kept as they report
/// themselves.
#[derive(Debug)]
pub enum RunnerError {
    Run(String),
    Session(String),
    StateIo { path: String, source: String },
    StateJson { path: String, source: String },
    TraceIo { path: String, source: String },
    TraceJson { path: String, source: String },
    TaskWorkspace(String),
}

/// How an error is reported.
pub open spec fn reported(error: RunnerError) -> Seq<char> {
    match error {
        RunnerError::Run(source) => "run loop failed: "@ + source@,
        RunnerError::Session(source) => "session failed: "@ + source@,
        RunnerError::StateIo { path, source } => "paused run state I/O failed for "@ + path@ + ": "@
            + source@,
        RunnerError::StateJson { path, source } => "paused run state JSON failed for "@ + path@
            + ": "@ + source@,
        RunnerError::TraceIo { path, source } => "trace record I/O failed for "@ + path@ + ": "@
            + source@,
        RunnerError::TraceJson { path, source } => "trace record JSON failed for "@ + path@ + ": "@
            + source@,
        RunnerError::TaskWorkspace(source) => "task workspace failed: "@ + source@,
    }
}

fn about(what: &str, source: &str) -> (out: String)
    ensures
        out@ == what@ + source@,
{
    let mut out = what.to_owned();
    out.push_str(source);
    out
}

fn about_path(what: &str, path: &str, source: &str) -> (out: String)
    ensures
        out@ == what@ + path@ + ": "@ + source@,
{
    let mut out = what.to_owned();
    out.push_str(path);
    out.push_str(": ");
    out.push_str(source);
    out
}

impl RunnerError {
    /// How this error is reported.
    pub fn message(&self) -> (out: String)
        ensures
            out@ == reported(*self),
    {
        match self {
            RunnerError::Run(source) => about("run loop failed: ", source.as_str()),
            RunnerError::Session(source) => about("session failed: ", source.as_str()),
            RunnerError::StateIo { path, source } => about_path(
                "paused run state I/O failed for ",
                path.as_str(),
                source.as_str(),
            ),
            RunnerError::StateJson { path, source } => about_path(
                "paused run state JSON failed for ",
                path.as_str(),
                source.as_str(),
            ),
            RunnerError::TraceIo { path, source } => about_path(
                "trace record I/O failed for ",
                path.as_str(),
                source.as_str(),
            ),
            RunnerError::TraceJson { path, source } => about_path(
                "trace record JSON failed for ",
                path.as_str(),
                source.as_str(),
            ),
            RunnerError::TaskWorkspace(source) => about("task workspace failed: ", source.as_str()),
        }
    }
}

/// A report ends with what went wrong, and names the file it went wrong with.
pub proof fn a_report_ends_with_its_source(error: RunnerError)
    ensures
        (match error {
            RunnerError::Run(source)
            | RunnerError::Session(source)
            | RunnerError::TaskWorkspace(source) => ends(reported(error), source@),
            RunnerError::StateIo { path, source }
            | RunnerError::StateJson { path, source }
            | RunnerError::TraceIo { path, source }
            | RunnerError::TraceJson { path, source } => ends(
                reported(error),
                path@ + ": "@ + source@,
            ),
        }),
{
    match error {
        RunnerError::Run(source) => {
            ends_of_a_text(source@, source@, "run loop failed: "@);
        },
        RunnerError::Session(source) => {
            ends_of_a_text(source@, source@, "session failed: "@);
        },
        RunnerError::TaskWorkspace(source) => {
            ends_of_a_text(source@, source@, "task workspace failed: "@);
        },
        RunnerError::StateIo { path, source } => {
            lemma_ends(reported(error), "paused run state I/O failed for "@, path@, source@);
        },
        RunnerError::StateJson { path, source } => {
            lemma_ends(reported(error), "paused run state JSON failed for "@, path@, source@);
        },
        RunnerError::TraceIo { path, source } => {
            lemma_ends(reported(error), "trace record I/O failed for "@, path@, source@);
        },
        RunnerError::TraceJson { path, source } => {
            lemma_ends(reported(error), "trace record JSON failed for "@, path@, source@);
        },
    }
}

proof fn lemma_ends(all: Seq<char>, what: Seq<char>, path: Seq<char>, source: Seq<char>)
    requires
        all == what + path + ": "@ + source,
    ensures
        ends(all, path + ": "@ + source),
{
    let tail = path + ": "@ + source;
    assert(all =~= what + tail);
    ends_of_a_text(tail, tail, what);
}

} // verus!
