use vstd::prelude::*;

use crate::job::JobStatus;

verus! {

/// The small integer that stores a status in the job table.
pub open spec fn status_code(s: JobStatus) -> i32 {
    match s {
        JobStatus::Queued => 0,
        JobStatus::Running => 1,
        JobStatus::Failed => 2,
    }
}

impl JobStatus {
    /// The stored form of this status.
    pub fn code(&self) -> (r: i32)
        ensures
            r == status_code(*self),
    {
        match self {
            JobStatus::Queued => 0,
            JobStatus::Running => 1,
            JobStatus::Failed => 2,
        }
    }

    /// The status stored as `code`; codes outside `0..=2` name none.
    pub fn from_code(code: i32) -> (r: Option<JobStatus>)
        ensures
            match r {
                Some(s) => status_code(s) == code,
                None => code < 0 || code > 2,
            },
    {
        if code == 0 {
            Some(JobStatus::Queued)
        } else if code == 1 {
            Some(JobStatus::Running)
        } else if code == 2 {
            Some(JobStatus::Failed)
        } else {
            None
        }
    }
}

/// The row limit of a claim statement for a batch of `number_of_jobs`: the
/// store takes a 32-bit signed limit, and a larger batch asks for every row
/// the store can return.
pub fn claim_limit(number_of_jobs: u32) -> (r: i32)
    ensures
        r as int == if number_of_jobs <= i32::MAX { number_of_jobs as int } else { i32::MAX as int },
{
    if number_of_jobs <= i32::MAX as u32 {
        number_of_jobs as i32
    } else {
        i32::MAX
    }
}

} // verus!
