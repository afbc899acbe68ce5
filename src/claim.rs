use vstd::prelude::*;

use crate::job::{Job, JobRecord, JobStatus, job_of};

verus! {

/// A row may be claimed at `now` when it is queued, already due, and has failed
/// fewer times than the failure threshold.
pub open spec fn claimable(r: JobRecord, now: i64, threshold: i32) -> bool {
    r.status == JobStatus::Queued && r.scheduled_for <= now && r.failed_attempts < threshold
}

/// Claim order between two rows of a table: earlier due first, and among rows
/// due at the same instant, the one stored first.
pub open spec fn due_before(rows: Seq<JobRecord>, i: int, j: int) -> bool {
    rows[i].scheduled_for < rows[j].scheduled_for || (rows[i].scheduled_for
        == rows[j].scheduled_for && i < j)
}

/// Row `i` is the first claimable row in claim order.
pub open spec fn is_next_due(rows: Seq<JobRecord>, i: int, now: i64, threshold: i32) -> bool {
    &&& 0 <= i < rows.len()
    &&& claimable(rows[i], now, threshold)
    &&& forall|j: int|
        0 <= j < rows.len() && j != i && #[trigger] claimable(rows[j], now, threshold)
            ==> !due_before(rows, j, i)
}

pub open spec fn has_claimable(rows: Seq<JobRecord>, now: i64, threshold: i32) -> bool {
    exists|i: int| 0 <= i < rows.len() && #[trigger] claimable(rows[i], now, threshold)
}

/// The index of the row that a claim takes next.
pub open spec fn next_due(rows: Seq<JobRecord>, now: i64, threshold: i32) -> int {
    choose|i: int| is_next_due(rows, i, now, threshold)
}

/// A row as a claim leaves it.
pub open spec fn mark_running(r: JobRecord, now: i64) -> JobRecord {
    JobRecord { status: JobStatus::Running, updated_at: now, ..r }
}

/// A row as a recorded failure leaves it.
pub open spec fn mark_failed(r: JobRecord, now: i64) -> JobRecord {
    JobRecord {
        status: JobStatus::Queued,
        updated_at: now,
        failed_attempts: (r.failed_attempts + 1) as i32,
        ..r
    }
}

/// Claiming up to `n` jobs at `now`: the jobs handed out, in order, and the
/// table afterwards. Each step takes the first claimable row in claim order
/// and marks it running.
pub open spec fn claim_spec(rows: Seq<JobRecord>, n: nat, now: i64, threshold: i32) -> (Seq<Job>, Seq<JobRecord>)
    decreases n,
{
    if n == 0 || !has_claimable(rows, now, threshold) {
        (Seq::empty(), rows)
    } else {
        let i = next_due(rows, now, threshold);
        let rest = claim_spec(
            rows.update(i, mark_running(rows[i], now)),
            (n - 1) as nat,
            now,
            threshold,
        );
        (seq![job_of(rows[i])].add(rest.0), rest.1)
    }
}

/// `job` is the consumer's view of a row that was claimable at `now`.
pub open spec fn from_claimable(rows: Seq<JobRecord>, job: Job, now: i64, threshold: i32) -> bool {
    exists|i: int|
        0 <= i < rows.len() && job_of(rows[i]) == job && #[trigger] claimable(rows[i], now, threshold)
}

pub open spec fn ids_unique(rows: Seq<JobRecord>) -> bool {
    forall|i: int, j: int|
        0 <= i < rows.len() && 0 <= j < rows.len() && i != j ==> #[trigger] rows[i].id
            != #[trigger] rows[j].id
}

pub open spec fn same_ids(a: Seq<JobRecord>, b: Seq<JobRecord>) -> bool {
    a.len() == b.len() && forall|i: int| 0 <= i < a.len() ==> #[trigger] a[i].id == b[i].id
}

/// A table with the ids of a table whose ids are unique has unique ids too.
pub proof fn lemma_same_ids_unique(a: Seq<JobRecord>, b: Seq<JobRecord>)
    requires
        ids_unique(a),
        same_ids(a, b),
    ensures
        ids_unique(b),
{
    assert forall|i: int, j: int|
        0 <= i < b.len() && 0 <= j < b.len() && i != j implies #[trigger] b[i].id
            != #[trigger] b[j].id by {
        assert(a[i].id == b[i].id);
        assert(a[j].id == b[j].id);
    }
}

/// The number of rows that may be claimed at `now`.
pub open spec fn claimable_count(rows: Seq<JobRecord>, now: i64, threshold: i32) -> nat
    decreases rows.len(),
{
    if rows.len() == 0 {
        0
    } else {
        claimable_count(rows.drop_last(), now, threshold) + if claimable(
            rows.last(),
            now,
            threshold,
        ) {
            1nat
        } else {
            0nat
        }
    }
}

proof fn lemma_min_in_prefix(rows: Seq<JobRecord>, k: int, now: i64, threshold: i32)
    requires
        0 < k <= rows.len(),
        exists|i: int| 0 <= i < k && #[trigger] claimable(rows[i], now, threshold),
    ensures
        exists|m: int|
            0 <= m < k && #[trigger] claimable(rows[m], now, threshold) && forall|j: int|
                0 <= j < k && j != m && #[trigger] claimable(rows[j], now, threshold)
                    ==> !due_before(rows, j, m),
    decreases k,
{
    if exists|i: int| 0 <= i < k - 1 && #[trigger] claimable(rows[i], now, threshold) {
        lemma_min_in_prefix(rows, k - 1, now, threshold);
        let m = choose|m: int|
            0 <= m < k - 1 && #[trigger] claimable(rows[m], now, threshold) && forall|j: int|
                0 <= j < k - 1 && j != m && #[trigger] claimable(rows[j], now, threshold)
                    ==> !due_before(rows, j, m);
        if claimable(rows[k - 1], now, threshold) && rows[k - 1].scheduled_for
            < rows[m].scheduled_for {
            assert forall|j: int|
                0 <= j < k && j != k - 1 && #[trigger] claimable(rows[j], now, threshold)
                    implies !due_before(rows, j, k - 1) by {
                if j != m {
                    assert(!due_before(rows, j, m));
                }
            }
        } else {
            assert forall|j: int|
                0 <= j < k && j != m && #[trigger] claimable(rows[j], now, threshold)
                    implies !due_before(rows, j, m) by {
                if j < k - 1 {
                    assert(!due_before(rows, j, m));
                }
            }
        }
    } else {
        let m = k - 1;
        assert(claimable(rows[m], now, threshold));
        assert forall|j: int|
            0 <= j < k && j != m && #[trigger] claimable(rows[j], now, threshold)
                implies !due_before(rows, j, m) by {
            assert(j < k - 1);
        }
    }
}

/// When a row is claimable, a first one in claim order exists, and
/// `next_due` names it.
pub proof fn lemma_next_due_exists(rows: Seq<JobRecord>, now: i64, threshold: i32)
    requires
        has_claimable(rows, now, threshold),
    ensures
        is_next_due(rows, next_due(rows, now, threshold), now, threshold),
{
    lemma_min_in_prefix(rows, rows.len() as int, now, threshold);
    let m = choose|m: int|
        0 <= m < rows.len() && #[trigger] claimable(rows[m], now, threshold) && forall|j: int|
            0 <= j < rows.len() && j != m && #[trigger] claimable(rows[j], now, threshold)
                ==> !due_before(rows, j, m);
    assert(is_next_due(rows, m, now, threshold));
}

/// Claim order is total, so the first claimable row is unique.
pub proof fn lemma_next_due_unique(rows: Seq<JobRecord>, i: int, j: int, now: i64, threshold: i32)
    requires
        is_next_due(rows, i, now, threshold),
        is_next_due(rows, j, now, threshold),
    ensures
        i == j,
{
    if i != j {
        assert(!due_before(rows, j, i));
        assert(!due_before(rows, i, j));
    }
}

/// A found first row is the one that `next_due` names.
pub proof fn lemma_next_due_is(rows: Seq<JobRecord>, i: int, now: i64, threshold: i32)
    requires
        is_next_due(rows, i, now, threshold),
    ensures
        has_claimable(rows, now, threshold),
        next_due(rows, now, threshold) == i,
{
    assert(claimable(rows[i], now, threshold));
    lemma_next_due_exists(rows, now, threshold);
    lemma_next_due_unique(rows, i, next_due(rows, now, threshold), now, threshold);
}

/// What a claim hands out has at most `n` jobs, each the view of a row that
/// was claimable; the table keeps its length and its ids.
pub proof fn lemma_claim_shape(rows: Seq<JobRecord>, n: nat, now: i64, threshold: i32)
    ensures
        claim_spec(rows, n, now, threshold).0.len() <= n,
        same_ids(rows, claim_spec(rows, n, now, threshold).1),
        forall|k: int|
            0 <= k < claim_spec(rows, n, now, threshold).0.len() ==> from_claimable(
                rows,
                #[trigger] claim_spec(rows, n, now, threshold).0[k],
                now,
                threshold,
            ),
    decreases n,
{
    if n == 0 || !has_claimable(rows, now, threshold) {
    } else {
        lemma_next_due_exists(rows, now, threshold);
        let i = next_due(rows, now, threshold);
        let rows2 = rows.update(i, mark_running(rows[i], now));
        lemma_claim_shape(rows2, (n - 1) as nat, now, threshold);
        let rest = claim_spec(rows2, (n - 1) as nat, now, threshold);
        let jobs = claim_spec(rows, n, now, threshold).0;
        assert(jobs == seq![job_of(rows[i])].add(rest.0));
        assert forall|k: int| 0 <= k < jobs.len() implies from_claimable(
            rows,
            #[trigger] jobs[k],
            now,
            threshold,
        ) by {
            if k == 0 {
                assert(claimable(rows[i], now, threshold));
            } else {
                assert(jobs[k] == rest.0[k - 1]);
                assert(from_claimable(rows2, rest.0[k - 1], now, threshold));
                let j = choose|j: int|
                    0 <= j < rows2.len() && job_of(rows2[j]) == rest.0[k - 1]
                        && #[trigger] claimable(rows2[j], now, threshold);
                assert(j != i);
                assert(rows2[j] == rows[j]);
                assert(claimable(rows[j], now, threshold));
            }
        }
        assert forall|k: int| 0 <= k < rows.len() implies #[trigger] rows[k].id
            == claim_spec(rows, n, now, threshold).1[k].id by {
            assert(rows2[k].id == rows[k].id);
        }
    }
}

} // verus!
