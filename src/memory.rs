use vstd::prelude::*;

use crate::claim::{
    claim_spec, claimable, due_before, from_claimable, has_claimable, ids_unique, is_next_due,
    lemma_claim_shape, lemma_next_due_is, lemma_same_ids_unique, mark_failed, mark_running,
    same_ids,
};
use crate::ids::fresh_ulid;
use crate::job::{Job, JobRecord, JobStatus, Message, job_of, queued_record};

verus! {

/// The failure threshold of a queue built with [`QueueConfig::new`].
pub const MAX_FAILED_ATTEMPTS: i32 = 3;

/// The `max_attempts` of a queue built with [`QueueConfig::new`].
pub const DEFAULT_MAX_ATTEMPTS: u32 = 5;

/// The two tuning knobs of a queue. Only `max_failed_attempts` takes part in
/// claiming: a job whose failure count has reached it is never claimed again.
/// `max_attempts` is carried as configuration and not enforced.
#[derive(Debug, Clone, Copy, PartialEq, Eq, Structural)]
pub struct QueueConfig {
    pub max_attempts: u32,
    pub max_failed_attempts: i32,
}

impl QueueConfig {
    pub fn new() -> (r: QueueConfig)
        ensures
            r.max_attempts == DEFAULT_MAX_ATTEMPTS,
            r.max_failed_attempts == MAX_FAILED_ATTEMPTS,
    {
        QueueConfig { max_attempts: DEFAULT_MAX_ATTEMPTS, max_failed_attempts: MAX_FAILED_ATTEMPTS }
    }

    pub fn with_threshold(max_failed_attempts: i32) -> (r: QueueConfig)
        ensures
            r.max_attempts == DEFAULT_MAX_ATTEMPTS,
            r.max_failed_attempts == max_failed_attempts,
    {
        QueueConfig { max_attempts: DEFAULT_MAX_ATTEMPTS, max_failed_attempts }
    }
}

/// The single error kind of the queue: the store refused the operation.
#[derive(Debug, PartialEq, Eq)]
pub enum Error {
    Storage(String),
}

pub open spec fn contains_id(rows: Seq<JobRecord>, id: u128) -> bool {
    exists|i: int| 0 <= i < rows.len() && #[trigger] rows[i].id == id
}

/// The position of the row with `id`, when there is one.
pub open spec fn index_of(rows: Seq<JobRecord>, id: u128) -> int {
    choose|i: int| 0 <= i < rows.len() && #[trigger] rows[i].id == id
}

/// The table after deleting `id`: without that row, or unchanged.
pub open spec fn delete_spec(rows: Seq<JobRecord>, id: u128) -> Seq<JobRecord> {
    if contains_id(rows, id) {
        rows.remove(index_of(rows, id))
    } else {
        rows
    }
}

/// Recording a failure of `id` would take its counter past `i32::MAX`.
pub open spec fn fail_overflows(rows: Seq<JobRecord>, id: u128) -> bool {
    contains_id(rows, id) && rows[index_of(rows, id)].failed_attempts == i32::MAX
}

/// The table after recording a failure of `id` at `now`.
pub open spec fn fail_spec(rows: Seq<JobRecord>, id: u128, now: i64) -> Seq<JobRecord> {
    if contains_id(rows, id) {
        let i = index_of(rows, id);
        rows.update(i, mark_failed(rows[i], now))
    } else {
        rows
    }
}

/// A job table held in memory, rows in the order they were stored. Ids are
/// unique over the table.
#[derive(Debug)]
pub struct MemoryQueue {
    rows: Vec<JobRecord>,
    config: QueueConfig,
}

impl View for MemoryQueue {
    type V = Seq<JobRecord>;

    closed spec fn view(&self) -> Seq<JobRecord> {
        self.rows@
    }
}

proof fn lemma_index_of(rows: Seq<JobRecord>, i: int)
    requires
        ids_unique(rows),
        0 <= i < rows.len(),
    ensures
        contains_id(rows, rows[i].id),
        index_of(rows, rows[i].id) == i,
{
    assert(contains_id(rows, rows[i].id));
}

impl MemoryQueue {
    pub open spec fn wf(&self) -> bool {
        ids_unique(self@)
    }

    pub closed spec fn spec_config(&self) -> QueueConfig {
        self.config
    }

    pub open spec fn threshold(&self) -> i32 {
        self.spec_config().max_failed_attempts
    }

    /// An empty table.
    pub fn new(config: QueueConfig) -> (r: MemoryQueue)
        ensures
            r.wf(),
            r@ == Seq::<JobRecord>::empty(),
            r.spec_config() == config,
    {
        MemoryQueue { rows: Vec::new(), config }
    }

    pub fn config(&self) -> (r: QueueConfig)
        ensures
            r == self.spec_config(),
    {
        self.config
    }

    pub fn len(&self) -> (r: usize)
        ensures
            r == self@.len(),
    {
        self.rows.len()
    }

    fn find(&self, id: u128) -> (r: Option<usize>)
        requires
            self.wf(),
        ensures
            match r {
                Some(i) => i < self@.len() && self@[i as int].id == id && index_of(self@, id) == i,
                None => !contains_id(self@, id),
            },
    {
        let mut k: usize = 0;
        while k < self.rows.len()
            invariant
                k <= self@.len(),
                self.wf(),
                forall|j: int| 0 <= j < k ==> #[trigger] self@[j].id != id,
            decreases self@.len() - k,
        {
            if self.rows[k].id == id {
                proof {
                    lemma_index_of(self@, k as int);
                }
                return Some(k);
            }
            k += 1;
        }
        None
    }

    /// The stored row with `id`, if any.
    pub fn record(&self, id: u128) -> (r: Option<JobRecord>)
        requires
            self.wf(),
        ensures
            match r {
                Some(rec) => contains_id(self@, id) && rec == self@[index_of(self@, id)],
                None => !contains_id(self@, id),
            },
    {
        match self.find(id) {
            Some(i) => Some(self.rows[i].clone()),
            None => None,
        }
    }

    /// Stores `message` as a new queued job under `id`, due at `date` or else
    /// at `now`. An id that is already stored is refused, as a primary key
    /// would refuse it, and the table is left as it was.
    pub fn push_with_id(&mut self, message: Message, date: Option<i64>, now: i64, id: u128) -> (r:
        Result<(), Error>)
        requires
            old(self).wf(),
        ensures
            final(self).wf(),
            final(self).spec_config() == old(self).spec_config(),
            r is Ok <==> !contains_id(old(self)@, id),
            r is Ok ==> final(self)@ == old(self)@.push(queued_record(id, message, date, now)),
            r is Err ==> final(self)@ == old(self)@,
    {
        match self.find(id) {
            Some(_) => Err(Error::Storage(String::from_str("duplicate job id"))),
            None => {
                let rec = JobRecord::new_queued(id, message, date, now);
                self.rows.push(rec);
                proof {
                    let rows = self@;
                    assert forall|i: int, j: int|
                        0 <= i < rows.len() && 0 <= j < rows.len() && i != j implies #[trigger] rows[i].id
                            != #[trigger] rows[j].id by {
                        if i == rows.len() - 1 {
                            assert(old(self)@[j].id != id);
                        } else if j == rows.len() - 1 {
                            assert(old(self)@[i].id != id);
                        }
                    }
                }
                Ok(())
            },
        }
    }

    /// Enqueues `message` under a fresh time-sortable id, due at `date` or
    /// else at `now`.
    pub fn push(&mut self, message: Message, date: Option<i64>, now: i64) -> (r: Result<(), Error>)
        requires
            old(self).wf(),
        ensures
            final(self).wf(),
            final(self).spec_config() == old(self).spec_config(),
            exists|id: u128|
                (r is Ok <==> !contains_id(old(self)@, id)) && (r is Ok ==> final(self)@
                    == old(self)@.push(#[trigger] queued_record(id, message, date, now))),
            r is Err ==> old(self)@.len() > 0,
            r is Err ==> final(self)@ == old(self)@,
    {
        let id = fresh_ulid();
        let r = self.push_with_id(message, date, now, id);
        assert(r is Ok ==> final(self)@ == old(self)@.push(queued_record(id, message, date, now)));
        r
    }

    fn next_due_index(&self, now: i64) -> (r: Option<usize>)
        ensures
            match r {
                Some(i) => is_next_due(self@, i as int, now, self.threshold()),
                None => !has_claimable(self@, now, self.threshold()),
            },
    {
        let threshold = self.config.max_failed_attempts;
        let mut best: Option<usize> = None;
        let mut k: usize = 0;
        while k < self.rows.len()
            invariant
                k <= self@.len(),
                threshold == self.threshold(),
                match best {
                    None => forall|j: int| 0 <= j < k ==> !#[trigger] claimable(self@[j], now, threshold),
                    Some(b) => b < k && claimable(self@[b as int], now, threshold) && forall|j: int|
                        0 <= j < k && j != b && #[trigger] claimable(self@[j], now, threshold)
                            ==> !due_before(self@, j, b as int),
                },
            decreases self@.len() - k,
        {
            if self.rows[k].is_claimable(now, threshold) {
                match best {
                    None => {
                        best = Some(k);
                    },
                    Some(b) => {
                        if self.rows[k].scheduled_for < self.rows[b].scheduled_for {
                            best = Some(k);
                        }
                    },
                }
            }
            k += 1;
        }
        best
    }

    /// Claims up to `number_of_jobs` jobs at `now`: repeatedly the first
    /// claimable row in claim order (earliest due, then first stored), which
    /// is marked running and handed out.
    pub fn pull(&mut self, number_of_jobs: u32, now: i64) -> (r: Vec<Job>)
        requires
            old(self).wf(),
        ensures
            final(self).wf(),
            final(self).spec_config() == old(self).spec_config(),
            (r@, final(self)@) == claim_spec(
                old(self)@,
                number_of_jobs as nat,
                now,
                old(self).threshold(),
            ),
            r@.len() <= number_of_jobs,
            forall|k: int|
                0 <= k < r@.len() ==> from_claimable(
                    old(self)@,
                    #[trigger] r@[k],
                    now,
                    old(self).threshold(),
                ),
    {
        let ghost start = self@;
        let ghost threshold = self.threshold();
        let ghost n = number_of_jobs as nat;
        let mut out: Vec<Job> = Vec::new();
        let mut k: u32 = 0;
        let mut done = false;
        while k < number_of_jobs && !done
            invariant
                k <= number_of_jobs,
                n == number_of_jobs as nat,
                start == old(self)@,
                self.wf(),
                self.spec_config() == old(self).spec_config(),
                threshold == self.threshold(),
                done ==> !has_claimable(self@, now, threshold),
                claim_spec(start, n, now, threshold) == (
                    out@.add(claim_spec(self@, (n - k) as nat, now, threshold).0),
                    claim_spec(self@, (n - k) as nat, now, threshold).1,
                ),
            decreases (number_of_jobs - k) as int + if done { 0int } else { 1int },
        {
            match self.next_due_index(now) {
                None => {
                    done = true;
                },
                Some(i) => {
                    let ghost before = self@;
                    let ghost m = (n - k) as nat;
                    proof {
                        lemma_next_due_is(before, i as int, now, threshold);
                    }
                    let job = self.rows[i].to_job();
                    out.push(job);
                    self.rows[i].status = JobStatus::Running;
                    self.rows[i].updated_at = now;
                    proof {
                        let after = before.update(i as int, mark_running(before[i as int], now));
                        assert(self@ =~= after);
                        let rest = claim_spec(after, (m - 1) as nat, now, threshold);
                        assert(claim_spec(before, m, now, threshold) == (
                            seq![job_of(before[i as int])].add(rest.0),
                            rest.1,
                        ));
                        assert((n - (k + 1)) as nat == (m - 1) as nat);
                        assert(out@ =~= out@.drop_last().push(job_of(before[i as int])));
                        assert(out@.drop_last().add(seq![job_of(before[i as int])].add(rest.0))
                            =~= out@.add(rest.0));
                        assert(same_ids(before, self@));
                        lemma_same_ids_unique(before, self@);
                    }
                    k += 1;
                },
            }
        }
        proof {
            let m = (n - k) as nat;
            assert(claim_spec(self@, m, now, threshold).0 =~= Seq::<Job>::empty());
            assert(out@.add(Seq::<Job>::empty()) =~= out@);
            lemma_claim_shape(start, n, now, threshold);
        }
        out
    }

    /// Removes the row with `id`; a missing id leaves the table as it is.
    pub fn delete_job(&mut self, id: u128)
        requires
            old(self).wf(),
        ensures
            final(self).wf(),
            final(self).spec_config() == old(self).spec_config(),
            final(self)@ == delete_spec(old(self)@, id),
    {
        match self.find(id) {
            Some(i) => {
                let ghost before = self@;
                let _ = self.rows.remove(i);
                proof {
                    assert(self@ =~= before.remove(i as int));
                    assert forall|a: int, b: int|
                        0 <= a < self@.len() && 0 <= b < self@.len() && a != b implies #[trigger] self@[a].id
                            != #[trigger] self@[b].id by {
                        let a0 = if a < i { a } else { a + 1 };
                        let b0 = if b < i { b } else { b + 1 };
                        assert(self@[a] == before[a0]);
                        assert(self@[b] == before[b0]);
                    }
                }
            },
            None => {},
        }
    }

    /// Records a failure of the job with `id` at `now`: it is queued again
    /// with one more failure counted. A missing id leaves the table as it is.
    /// A counter already at `i32::MAX` cannot be raised: the store refuses and
    /// the table is left as it was.
    pub fn fail_job(&mut self, id: u128, now: i64) -> (r: Result<(), Error>)
        requires
            old(self).wf(),
        ensures
            final(self).wf(),
            final(self).spec_config() == old(self).spec_config(),
            r is Err <==> fail_overflows(old(self)@, id),
            r is Ok ==> final(self)@ == fail_spec(old(self)@, id, now),
            r is Err ==> final(self)@ == old(self)@,
    {
        match self.find(id) {
            Some(i) => {
                if self.rows[i].failed_attempts == i32::MAX {
                    return Err(Error::Storage(String::from_str("failed_attempts out of range")));
                }
                let ghost before = self@;
                self.rows[i].status = JobStatus::Queued;
                self.rows[i].updated_at = now;
                self.rows[i].failed_attempts = self.rows[i].failed_attempts + 1;
                proof {
                    assert(self@ =~= before.update(i as int, mark_failed(before[i as int], now)));
                    assert(same_ids(before, self@));
                    lemma_same_ids_unique(before, self@);
                }
                Ok(())
            },
            None => Ok(()),
        }
    }

    /// Removes every row.
    pub fn clear(&mut self)
        ensures
            final(self).wf(),
            final(self).spec_config() == old(self).spec_config(),
            final(self)@ == Seq::<JobRecord>::empty(),
    {
        self.rows.clear();
    }
}

} // verus!
