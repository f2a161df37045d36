//! Replacing a state file without a window in which it is missing, truncated,
//! or readable by everyone.
//!
//! The order of the steps, and what each failure owes, is decided here; the
//! steps themselves touch the filesystem and are performed by the caller.

use vstd::prelude::*;

verus! {

/// An I/O failure, carried through as it came.
#[verifier::external_type_specification]
#[verifier::external_body]
pub struct ExIoError(std::io::Error);

/// Mode for a directory holding state files: the owner's alone.
pub const PRIVATE_DIR_MODE: u32 = 448;

/// Mode for a state file: readable and writable by the owner only.
pub const PRIVATE_FILE_MODE: u32 = 384;

/// Which part of a durable write failed, on which path.
#[derive(Debug)]
pub enum DurableWriteError {
    Prepare { path: String, source: std::io::Error },
    Write { path: String, source: std::io::Error },
    Replace { path: String, source: std::io::Error },
}

/// The path a failure was about.
pub open spec fn failed_path(error: DurableWriteError) -> Seq<char> {
    match error {
        DurableWriteError::Prepare { path, .. } => path@,
        DurableWriteError::Write { path, .. } => path@,
        DurableWriteError::Replace { path, .. } => path@,
    }
}

/// The I/O failure underneath.
pub open spec fn failure_source(error: DurableWriteError) -> std::io::Error {
    match error {
        DurableWriteError::Prepare { source, .. } => source,
        DurableWriteError::Write { source, .. } => source,
        DurableWriteError::Replace { source, .. } => source,
    }
}

impl DurableWriteError {
    /// The path the failure was about.
    pub fn path(&self) -> (out: &str)
        ensures
            out@ == failed_path(*self),
    {
        match self {
            DurableWriteError::Prepare { path, .. } => path.as_str(),
            DurableWriteError::Write { path, .. } => path.as_str(),
            DurableWriteError::Replace { path, .. } => path.as_str(),
        }
    }

    /// The underlying I/O failure.
    pub fn into_io(self) -> (out: std::io::Error)
        ensures
            out == failure_source(self),
    {
        match self {
            DurableWriteError::Prepare { source, .. } => source,
            DurableWriteError::Write { source, .. } => source,
            DurableWriteError::Replace { source, .. } => source,
        }
    }
}

/// The steps of a durable write, in order.
#[derive(Clone, Copy, Debug, PartialEq, Eq, Structural)]
pub enum WriteStep {
    /// Create the parent directory, private.
    MakeParent,
    /// Create a fresh temporary file beside the destination.
    OpenTemporary,
    /// Write the bytes to it and flush them to the disk.
    WriteTemporary,
    /// Rename it onto the destination.
    Rename,
    /// Flush the directory entry to the disk.
    SyncParent,
}

/// Which failure a step's error is reported as.
#[derive(Clone, Copy, Debug, PartialEq, Eq, Structural)]
pub enum FailureKind {
    Prepare,
    Write,
    Replace,
}

/// Which path a failure names.
#[derive(Clone, Copy, Debug, PartialEq, Eq, Structural)]
pub enum FailurePath {
    Parent,
    Temporary,
    Destination,
}

/// What to do once a step was performed.
#[derive(Clone, Copy, Debug, PartialEq, Eq, Structural)]
pub enum WriteNext {
    Perform(WriteStep),
    /// The bytes are at the destination and so is its directory entry.
    Done,
    /// Report the failure; first remove the temporary when asked to.
    Fail { kind: FailureKind, path: FailurePath, remove_temporary: bool },
}

/// How far along a step is.
pub open spec fn step_rank(step: WriteStep) -> int {
    match step {
        WriteStep::MakeParent => 0,
        WriteStep::OpenTemporary => 1,
        WriteStep::WriteTemporary => 2,
        WriteStep::Rename => 3,
        WriteStep::SyncParent => 4,
    }
}

/// What follows a step, by whether it succeeded.
pub open spec fn follows(step: WriteStep, succeeded: bool) -> WriteNext {
    match (step, succeeded) {
        (WriteStep::MakeParent, true) => WriteNext::Perform(WriteStep::OpenTemporary),
        (WriteStep::OpenTemporary, true) => WriteNext::Perform(WriteStep::WriteTemporary),
        (WriteStep::WriteTemporary, true) => WriteNext::Perform(WriteStep::Rename),
        (WriteStep::Rename, true) => WriteNext::Perform(WriteStep::SyncParent),
        (WriteStep::SyncParent, true) => WriteNext::Done,
        (WriteStep::MakeParent, false) => WriteNext::Fail {
            kind: FailureKind::Prepare,
            path: FailurePath::Parent,
            remove_temporary: false,
        },
        (WriteStep::OpenTemporary, false) => WriteNext::Fail {
            kind: FailureKind::Prepare,
            path: FailurePath::Temporary,
            remove_temporary: false,
        },
        (WriteStep::WriteTemporary, false) => WriteNext::Fail {
            kind: FailureKind::Write,
            path: FailurePath::Temporary,
            remove_temporary: true,
        },
        (WriteStep::Rename, false) => WriteNext::Fail {
            kind: FailureKind::Replace,
            path: FailurePath::Destination,
            remove_temporary: true,
        },
        (WriteStep::SyncParent, false) => WriteNext::Fail {
            kind: FailureKind::Replace,
            path: FailurePath::Destination,
            remove_temporary: false,
        },
    }
}

/// Decides what follows a step of a durable write.
pub fn after_step(step: WriteStep, succeeded: bool) -> (next: WriteNext)
    ensures
        next == follows(step, succeeded),
{
    if succeeded {
        match step {
            WriteStep::MakeParent => WriteNext::Perform(WriteStep::OpenTemporary),
            WriteStep::OpenTemporary => WriteNext::Perform(WriteStep::WriteTemporary),
            WriteStep::WriteTemporary => WriteNext::Perform(WriteStep::Rename),
            WriteStep::Rename => WriteNext::Perform(WriteStep::SyncParent),
            WriteStep::SyncParent => WriteNext::Done,
        }
    } else {
        match step {
            WriteStep::MakeParent => WriteNext::Fail {
                kind: FailureKind::Prepare,
                path: FailurePath::Parent,
                remove_temporary: false,
            },
            WriteStep::OpenTemporary => WriteNext::Fail {
                kind: FailureKind::Prepare,
                path: FailurePath::Temporary,
                remove_temporary: false,
            },
            WriteStep::WriteTemporary => WriteNext::Fail {
                kind: FailureKind::Write,
                path: FailurePath::Temporary,
                remove_temporary: true,
            },
            WriteStep::Rename => WriteNext::Fail {
                kind: FailureKind::Replace,
                path: FailurePath::Destination,
                remove_temporary: true,
            },
            WriteStep::SyncParent => WriteNext::Fail {
                kind: FailureKind::Replace,
                path: FailurePath::Destination,
                remove_temporary: false,
            },
        }
    }
}

/// What a write leaves behind once `done` of its steps succeeded in order and
/// the next, if any, failed.
pub open spec fn outcome(done: nat) -> WriteNext
    recommends
        done <= 5,
{
    if done == 0 {
        follows(WriteStep::MakeParent, false)
    } else if done == 1 {
        follows(WriteStep::OpenTemporary, false)
    } else if done == 2 {
        follows(WriteStep::WriteTemporary, false)
    } else if done == 3 {
        follows(WriteStep::Rename, false)
    } else if done == 4 {
        follows(WriteStep::SyncParent, false)
    } else {
        WriteNext::Done
    }
}

/// Success is reported only once all five steps succeeded; a temporary that
/// was created and not renamed is always removed, and nothing else ever is.
pub proof fn success_is_never_claimed_early(done: nat)
    requires
        done <= 5,
    ensures
        outcome(done) is Done <==> done == 5,
        outcome(done) matches WriteNext::Fail { remove_temporary, .. } ==> (remove_temporary <==> 2
            <= done <= 3),
{
}

/// Every step leads to the one after it, so the steps run once each in order.
pub proof fn steps_advance(step: WriteStep)
    ensures
        follows(step, true) matches WriteNext::Perform(next) ==> step_rank(next) == step_rank(step)
            + 1,
        follows(step, true) is Done <==> step == WriteStep::SyncParent,
        follows(step, false) is Fail,
{
}

/// A failure is told by how far the write had come: before anything was written
/// it is of the preparation, then of the writing, and once everything was
/// written of the replacement.
pub proof fn a_failure_is_told_by_how_far_it_came(step: WriteStep)
    ensures
        follows(step, false) matches WriteNext::Fail { kind, path, .. } && {
            &&& kind == FailureKind::Prepare <==> step == WriteStep::MakeParent || step
                == WriteStep::OpenTemporary
            &&& kind == FailureKind::Write <==> step == WriteStep::WriteTemporary
            &&& kind == FailureKind::Replace <==> step == WriteStep::Rename || step
                == WriteStep::SyncParent
            &&& path == FailurePath::Parent <==> step == WriteStep::MakeParent
            &&& path == FailurePath::Temporary <==> step == WriteStep::OpenTemporary || step
                == WriteStep::WriteTemporary
            &&& path == FailurePath::Destination <==> step == WriteStep::Rename || step
                == WriteStep::SyncParent
        },
{
}

} // verus!
