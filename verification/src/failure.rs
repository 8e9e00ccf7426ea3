//! Typed failures of a run.
//!
//! A run fails in one of three ways: it must not begin, an operation on the
//! file system failed while the tree was replicated, or a big file found no
//! memory for a single chunk. None is retried; the first one ends the run.

use crate::chunk::ChunkError;
use crate::config::StartupError;
use vstd::prelude::*;

verus! {

/// The operation on the file system that failed.
#[derive(Clone, Copy, Debug, PartialEq, Eq, Structural)]
pub enum Stage {
    /// Enumerating the entries of the source tree.
    Enumerate,
    /// Reading the metadata of a file.
    Metadata,
    /// Reading a file whole.
    ReadFile,
    /// Creating a directory at the destination.
    CreateDirectory,
    /// Writing a buffered file to the destination.
    WriteFile,
    /// Opening a big file for reading.
    OpenSource,
    /// Creating the destination of a big file.
    CreateDestination,
    /// Reading a chunk of a big file.
    ReadChunk,
    /// Writing a chunk of a big file.
    WriteChunk,
}

/// The three classes of failure.
#[derive(Clone, Copy, Debug, PartialEq, Eq, Structural)]
pub enum FailureClass {
    /// The run must not begin.
    StartupFatal,
    /// The run is aborted where it stands.
    TraversalFatal,
    /// A big file cannot make progress.
    NoProgress,
}

/// Why a run ended before its end.
#[derive(Debug, PartialEq, Eq)]
pub enum Failure {
    Startup(StartupError),
    Traversal { stage: Stage, relative_path: String },
    NoProgress { relative_path: String },
}

/// What is said of a failed operation, before the path is named.
pub open spec fn stage_text(stage: Stage) -> Seq<char> {
    match stage {
        Stage::Enumerate => "Could not get entry: "@,
        Stage::Metadata => "Could not get file metadata: "@,
        Stage::ReadFile => "Could not read file: "@,
        Stage::CreateDirectory => "Could not create directory path: "@,
        Stage::WriteFile => "Could not write to new file: "@,
        Stage::OpenSource => "Could not open file: "@,
        Stage::CreateDestination => "Could not create new file: "@,
        Stage::ReadChunk => "Failed to read from stream: "@,
        Stage::WriteChunk => "Failed to write to stream: "@,
    }
}

/// What is said of a run that must not begin.
pub open spec fn startup_text(error: StartupError) -> Seq<char> {
    match error {
        StartupError::InsufficientMemory => "Not enough memory! 104 MBs minimum required!"@,
        StartupError::InvalidPercent => "Memory to leave must be a percentage! (from 1 to 100)"@,
    }
}

/// What is said of a big file that cannot make progress, before the path is
/// named.
pub open spec fn no_progress_text() -> Seq<char> {
    "No memory is free beyond the margin, no progress possible: "@
}

impl Failure {
    /// The class of the failure.
    pub open spec fn class_of(self) -> FailureClass {
        match self {
            Failure::Startup(_) => FailureClass::StartupFatal,
            Failure::Traversal { .. } => FailureClass::TraversalFatal,
            Failure::NoProgress { .. } => FailureClass::NoProgress,
        }
    }

    /// The message of the failure: what went wrong, followed by the relative
    /// path at which it went wrong.
    pub open spec fn text(self) -> Seq<char> {
        match self {
            Failure::Startup(error) => startup_text(error),
            Failure::Traversal { stage, relative_path } => stage_text(stage) + relative_path@,
            Failure::NoProgress { relative_path } => no_progress_text() + relative_path@,
        }
    }

    /// The failure of an operation on the file system at a relative path.
    pub fn traversal(stage: Stage, relative_path: String) -> (failure: Failure)
        ensures
            failure == (Failure::Traversal { stage, relative_path }),
            failure.class_of() == FailureClass::TraversalFatal,
    {
        Failure::Traversal { stage, relative_path }
    }

    /// The failure of a chunked replication, for the file at a relative path.
    pub fn from_chunk_error(error: ChunkError, relative_path: String) -> (failure: Failure)
        ensures
            failure == (Failure::NoProgress { relative_path }),
            failure.class_of() == FailureClass::NoProgress,
    {
        match error {
            ChunkError::NoProgress => Failure::NoProgress { relative_path },
        }
    }

    /// The failure of a run that must not begin.
    pub fn from_startup_error(error: StartupError) -> (failure: Failure)
        ensures
            failure == Failure::Startup(error),
            failure.class_of() == FailureClass::StartupFatal,
    {
        Failure::Startup(error)
    }

    /// The class of the failure.
    pub fn class(&self) -> (class: FailureClass)
        ensures
            class == self.class_of(),
    {
        match self {
            Failure::Startup(_) => FailureClass::StartupFatal,
            Failure::Traversal { .. } => FailureClass::TraversalFatal,
            Failure::NoProgress { .. } => FailureClass::NoProgress,
        }
    }

    /// A message that says what failed and names the relative path.
    pub fn message(&self) -> (message: String)
        ensures
            message@ == self.text(),
    {
        match self {
            Failure::Startup(error) => {
                let text: &str = match error {
                    StartupError::InsufficientMemory => {
                        "Not enough memory! 104 MBs minimum required!"
                    },
                    StartupError::InvalidPercent => {
                        "Memory to leave must be a percentage! (from 1 to 100)"
                    },
                };
                text.to_owned()
            },
            Failure::Traversal { stage, relative_path } => {
                let text: &str = match stage {
                    Stage::Enumerate => "Could not get entry: ",
                    Stage::Metadata => "Could not get file metadata: ",
                    Stage::ReadFile => "Could not read file: ",
                    Stage::CreateDirectory => "Could not create directory path: ",
                    Stage::WriteFile => "Could not write to new file: ",
                    Stage::OpenSource => "Could not open file: ",
                    Stage::CreateDestination => "Could not create new file: ",
                    Stage::ReadChunk => "Failed to read from stream: ",
                    Stage::WriteChunk => "Failed to write to stream: ",
                };
                let mut message = text.to_owned();
                message.append(relative_path.as_str());
                message
            },
            Failure::NoProgress { relative_path } => {
                let mut message =
                    "No memory is free beyond the margin, no progress possible: ".to_owned();
                message.append(relative_path.as_str());
                message
            },
        }
    }
}

} // verus!
