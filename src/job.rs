use vstd::prelude::*;

verus! {

/// The payload of a job: a closed set of job kinds, each with its own fields.
#[derive(Debug, PartialEq, Eq)]
pub enum Message {
    SendSignInEmail { email: String, name: String, code: String },
    DeleteOldUserData,
    /// `message_id` is a 128-bit identifier (a UUID).
    SendNewsletterMessage { message_id: u128 },
}

impl Clone for Message {
    fn clone(&self) -> (r: Self)
        ensures
            r == *self,
    {
        match self {
            Message::SendSignInEmail { email, name, code } => Message::SendSignInEmail {
                email: email.clone(),
                name: name.clone(),
                code: code.clone(),
            },
            Message::DeleteOldUserData => Message::DeleteOldUserData,
            Message::SendNewsletterMessage { message_id } => Message::SendNewsletterMessage {
                message_id: *message_id,
            },
        }
    }
}

/// What a consumer receives when it claims a job: its id and its payload.
#[derive(Debug, PartialEq, Eq)]
pub struct Job {
    pub id: u128,
    pub message: Message,
}

impl Clone for Job {
    fn clone(&self) -> (r: Self)
        ensures
            r == *self,
    {
        Job { id: self.id, message: self.message.clone() }
    }
}

/// The state of a job row. `Failed` is part of the stored schema but no
/// operation of the queue engine assigns it.
#[derive(Debug, Clone, Copy, PartialEq, Eq, Structural)]
pub enum JobStatus {
    Queued,
    Running,
    Failed,
}

/// A stored job row. Timestamps are microseconds since the Unix epoch.
#[derive(Debug, PartialEq, Eq)]
pub struct JobRecord {
    pub id: u128,
    pub created_at: i64,
    pub updated_at: i64,
    pub scheduled_for: i64,
    pub failed_attempts: i32,
    pub status: JobStatus,
    pub message: Message,
}

impl Clone for JobRecord {
    fn clone(&self) -> (r: Self)
        ensures
            r == *self,
    {
        JobRecord {
            id: self.id,
            created_at: self.created_at,
            updated_at: self.updated_at,
            scheduled_for: self.scheduled_for,
            failed_attempts: self.failed_attempts,
            status: self.status,
            message: self.message.clone(),
        }
    }
}

/// The consumer's view of a row: its id and its payload.
pub open spec fn job_of(r: JobRecord) -> Job {
    Job { id: r.id, message: r.message }
}

/// The row that enqueueing `message` at time `now` creates under `id`.
pub open spec fn queued_record(id: u128, message: Message, date: Option<i64>, now: i64) -> JobRecord {
    JobRecord {
        id,
        created_at: now,
        updated_at: now,
        scheduled_for: match date {
            Some(d) => d,
            None => now,
        },
        failed_attempts: 0,
        status: JobStatus::Queued,
        message,
    }
}

impl JobRecord {
    /// Builds the row of a freshly enqueued job: queued, never failed, created
    /// and updated at `now`, due at `date` or else at `now`.
    pub fn new_queued(id: u128, message: Message, date: Option<i64>, now: i64) -> (r: JobRecord)
        ensures
            r == queued_record(id, message, date, now),
    {
        let scheduled_for = match date {
            Some(d) => d,
            None => now,
        };
        JobRecord {
            id,
            created_at: now,
            updated_at: now,
            scheduled_for,
            failed_attempts: 0,
            status: JobStatus::Queued,
            message,
        }
    }

    /// Whether this row may be claimed at `now` under the failure threshold.
    pub fn is_claimable(&self, now: i64, threshold: i32) -> (r: bool)
        ensures
            r == crate::claim::claimable(*self, now, threshold),
    {
        matches!(self.status, JobStatus::Queued) && self.scheduled_for <= now
            && self.failed_attempts < threshold
    }

    /// The consumer's view of this row.
    pub fn to_job(&self) -> (r: Job)
        ensures
            r == job_of(*self),
    {
        Job { id: self.id, message: self.message.clone() }
    }
}

impl From<JobRecord> for Job {
    fn from(item: JobRecord) -> (r: Job) {
        Job { id: item.id, message: item.message }
    }
}

impl vstd::std_specs::convert::FromSpecImpl<JobRecord> for Job {
    open spec fn obeys_from_spec() -> bool {
        true
    }

    open spec fn from_spec(v: JobRecord) -> Job {
        job_of(v)
    }
}

} // verus!
