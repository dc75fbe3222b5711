//! Job states.
use vstd::prelude::*;

verus! {

/// The id of a job.
pub type JobId = u32;

/// The state of a job, or of one task of a job array.
#[derive(Debug, Clone, Copy, PartialEq, Eq, Structural)]
pub enum JobState {
    Pending,
    Running,
    Completing,
    Completed,
    Failed,
    Cancelled,
    Timeout,
    NodeFail,
    Preempted,
    Suspended,
    Deadline,
}

impl JobState {
    /// The job has finished and will not change state again.
    pub open spec fn spec_is_terminal(&self) -> bool {
        match self {
            JobState::Completed | JobState::Failed | JobState::Cancelled | JobState::Timeout
            | JobState::NodeFail | JobState::Deadline => true,
            JobState::Pending | JobState::Running | JobState::Completing | JobState::Preempted
            | JobState::Suspended => false,
        }
    }

    /// Whether the job has finished and will not change state again.
    #[verifier::when_used_as_spec(spec_is_terminal)]
    pub fn is_terminal(&self) -> (b: bool)
        ensures
            b == self.spec_is_terminal(),
    {
        match self {
            JobState::Completed | JobState::Failed | JobState::Cancelled | JobState::Timeout
            | JobState::NodeFail | JobState::Deadline => true,
            JobState::Pending | JobState::Running | JobState::Completing | JobState::Preempted
            | JobState::Suspended => false,
        }
    }
}

} // verus!
