//! The life cycle of a task.
use vstd::prelude::*;

verus! {

/// Where a task stands in its life cycle.
#[derive(Clone, Copy, Debug, PartialEq, Eq, Structural)]
pub enum TaskStatus {
    /// Created, not yet ready to run.
    UnInit,
    /// Waiting for the processor.
    Ready,
    /// On the processor.
    Running,
    /// Finished; a task never leaves this state.
    Exited,
}

impl TaskStatus {
    /// Whether a task in state `self` may next be found in state `next`:
    /// it stays as it is, becomes ready once set up, is put on the
    /// processor when ready, and leaves the processor by yielding or by
    /// exiting.
    pub open spec fn may_become(self, next: TaskStatus) -> bool {
        ||| self == next
        ||| self == TaskStatus::UnInit && next == TaskStatus::Ready
        ||| self == TaskStatus::Ready && next == TaskStatus::Running
        ||| self == TaskStatus::Running && next == TaskStatus::Ready
        ||| self == TaskStatus::Running && next == TaskStatus::Exited
    }

    /// The number that stands for the state in user memory.
    pub open spec fn spec_code(self) -> u8 {
        match self {
            TaskStatus::UnInit => 0,
            TaskStatus::Ready => 1,
            TaskStatus::Running => 2,
            TaskStatus::Exited => 3,
        }
    }

    /// The number that stands for the state in user memory.
    pub fn code(self) -> (code: u8)
        ensures
            code == self.spec_code(),
    {
        match self {
            TaskStatus::UnInit => 0,
            TaskStatus::Ready => 1,
            TaskStatus::Running => 2,
            TaskStatus::Exited => 3,
        }
    }
}

} // verus!
