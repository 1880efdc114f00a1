//! A build action: an opaque command together with its declared input and
//! output paths, and the fatal configuration errors of the engine.

use vstd::prelude::*;

verus! {

/// One declared build action.  The executor never interprets the command;
/// it only compares the declared paths.
pub struct Task {
    /// The subprocess invocation that performs the action.
    pub command: String,
    /// The paths the action reads.  A directory stands for all files under it.
    pub inputs: Vec<String>,
    /// The paths the action writes.  Each may be owned by at most one task.
    pub outputs: Vec<String>,
}

/// The mathematical content of a [`Task`]: its command and paths as
/// character sequences.
#[verifier::ext_equal]
pub ghost struct TaskView {
    pub command: Seq<char>,
    pub inputs: Seq<Seq<char>>,
    pub outputs: Seq<Seq<char>>,
}

impl View for Task {
    type V = TaskView;

    open spec fn view(&self) -> TaskView {
        TaskView {
            command: self.command@,
            inputs: self.inputs.deep_view(),
            outputs: self.outputs.deep_view(),
        }
    }
}

impl DeepView for Task {
    type V = TaskView;

    open spec fn deep_view(&self) -> TaskView {
        self.view()
    }
}

/// A fatal configuration error: reported before or instead of any
/// execution, and never retried.
#[derive(Debug)]
pub enum ConfigError {
    /// Two tasks declare the held path as an output.
    DuplicateOutput(String),
    /// The derived task dependency relation has a cycle.
    CycleDetected,
    /// The held source file lies under no recognized source root.
    SourceOutsideRoot(String),
    /// No program entry point was declared or found.
    MainClassNotFound,
}

} // verus!
