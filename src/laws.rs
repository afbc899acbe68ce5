use vstd::prelude::*;

use crate::claim::{
    claim_spec, claimable, claimable_count, from_claimable, has_claimable, ids_unique, is_next_due,
    lemma_claim_shape, lemma_next_due_exists, lemma_next_due_is, lemma_same_ids_unique, mark_running,
    next_due, same_ids,
};
use crate::job::{Job, JobRecord, Message, job_of, queued_record};
use crate::memory::{contains_id, delete_spec, fail_overflows, fail_spec, index_of};

verus! {

/// `k` claims of one job each, one after the other.
pub open spec fn single_claims(rows: Seq<JobRecord>, k: nat, now: i64, threshold: i32) -> (Seq<Job>, Seq<JobRecord>)
    decreases k,
{
    if k == 0 {
        (Seq::empty(), rows)
    } else {
        let first = claim_spec(rows, 1, now, threshold);
        let rest = single_claims(first.1, (k - 1) as nat, now, threshold);
        (first.0.add(rest.0), rest.1)
    }
}

/// A claim never hands out a job whose row is not yet due.
pub proof fn lemma_claim_never_returns_future_jobs(
    rows: Seq<JobRecord>,
    n: nat,
    now: i64,
    threshold: i32,
)
    requires
        ids_unique(rows),
    ensures
        forall|k: int, i: int|
            0 <= k < claim_spec(rows, n, now, threshold).0.len() && 0 <= i < rows.len()
                && #[trigger] rows[i].id == #[trigger] claim_spec(rows, n, now, threshold).0[k].id
                ==> rows[i].scheduled_for <= now,
{
    lemma_claim_shape(rows, n, now, threshold);
    let jobs = claim_spec(rows, n, now, threshold).0;
    assert forall|k: int, i: int|
        0 <= k < jobs.len() && 0 <= i < rows.len() && #[trigger] rows[i].id == #[trigger] jobs[k].id
            implies rows[i].scheduled_for <= now by {
        assert(from_claimable(rows, jobs[k], now, threshold));
        let j = choose|j: int|
            0 <= j < rows.len() && job_of(rows[j]) == jobs[k] && #[trigger] claimable(
                rows[j],
                now,
                threshold,
            );
        assert(rows[j].id == rows[i].id);
    }
}

/// A claim never hands out a job whose failure count has reached the threshold.
pub proof fn lemma_claim_skips_exhausted_jobs(
    rows: Seq<JobRecord>,
    n: nat,
    now: i64,
    threshold: i32,
)
    requires
        ids_unique(rows),
    ensures
        forall|k: int, i: int|
            0 <= k < claim_spec(rows, n, now, threshold).0.len() && 0 <= i < rows.len()
                && #[trigger] rows[i].id == #[trigger] claim_spec(rows, n, now, threshold).0[k].id
                ==> rows[i].failed_attempts < threshold,
{
    lemma_claim_shape(rows, n, now, threshold);
    let jobs = claim_spec(rows, n, now, threshold).0;
    assert forall|k: int, i: int|
        0 <= k < jobs.len() && 0 <= i < rows.len() && #[trigger] rows[i].id == #[trigger] jobs[k].id
            implies rows[i].failed_attempts < threshold by {
        assert(from_claimable(rows, jobs[k], now, threshold));
        let j = choose|j: int|
            0 <= j < rows.len() && job_of(rows[j]) == jobs[k] && #[trigger] claimable(
                rows[j],
                now,
                threshold,
            );
        assert(rows[j].id == rows[i].id);
    }
}

/// Claiming `a` jobs and then `b` more hands out the same jobs, in the same
/// order, and leaves the same table as claiming `a + b` at once.
pub proof fn lemma_claim_split(rows: Seq<JobRecord>, a: nat, b: nat, now: i64, threshold: i32)
    ensures
        claim_spec(rows, a + b, now, threshold) == (
            claim_spec(rows, a, now, threshold).0.add(
                claim_spec(claim_spec(rows, a, now, threshold).1, b, now, threshold).0,
            ),
            claim_spec(claim_spec(rows, a, now, threshold).1, b, now, threshold).1,
        ),
    decreases a,
{
    if a == 0 {
        assert(claim_spec(rows, 0, now, threshold).0.add(claim_spec(rows, b, now, threshold).0)
            =~= claim_spec(rows, b, now, threshold).0);
    } else if !has_claimable(rows, now, threshold) {
        assert(claim_spec(rows, b, now, threshold) == (Seq::<Job>::empty(), rows));
        assert(Seq::<Job>::empty().add(Seq::<Job>::empty()) =~= Seq::<Job>::empty());
    } else {
        let i = next_due(rows, now, threshold);
        let rows2 = rows.update(i, mark_running(rows[i], now));
        lemma_claim_split(rows2, (a - 1) as nat, b, now, threshold);
        assert((a + b - 1) as nat == (a - 1) as nat + b);
        let first = claim_spec(rows2, (a - 1) as nat, now, threshold);
        let second = claim_spec(first.1, b, now, threshold);
        assert(seq![job_of(rows[i])].add(first.0.add(second.0)) =~= seq![job_of(rows[i])].add(
            first.0,
        ).add(second.0));
    }
}

/// Claims of one job each, one after the other, hand out what one claim of
/// that many jobs would.
pub proof fn lemma_single_claims_batch(rows: Seq<JobRecord>, k: nat, now: i64, threshold: i32)
    ensures
        single_claims(rows, k, now, threshold) == claim_spec(rows, k, now, threshold),
    decreases k,
{
    if k > 0 {
        let first = claim_spec(rows, 1, now, threshold);
        lemma_single_claims_batch(first.1, (k - 1) as nat, now, threshold);
        lemma_claim_split(rows, 1, (k - 1) as nat, now, threshold);
        assert(1 + (k - 1) as nat == k);
    }
}

proof fn lemma_count_zero(rows: Seq<JobRecord>, now: i64, threshold: i32)
    ensures
        claimable_count(rows, now, threshold) == 0 <==> !has_claimable(rows, now, threshold),
    decreases rows.len(),
{
    if rows.len() > 0 {
        let init = rows.drop_last();
        lemma_count_zero(init, now, threshold);
        if has_claimable(init, now, threshold) {
            let i = choose|i: int| 0 <= i < init.len() && #[trigger] claimable(init[i], now, threshold);
            assert(claimable(rows[i], now, threshold));
        }
        if has_claimable(rows, now, threshold) {
            let i = choose|i: int| 0 <= i < rows.len() && #[trigger] claimable(rows[i], now, threshold);
            if i < rows.len() - 1 {
                assert(claimable(init[i], now, threshold));
            }
        }
        if claimable(rows.last(), now, threshold) {
            assert(claimable(rows[rows.len() - 1], now, threshold));
        }
    }
}

proof fn lemma_count_update(rows: Seq<JobRecord>, i: int, x: JobRecord, now: i64, threshold: i32)
    requires
        0 <= i < rows.len(),
        claimable(rows[i], now, threshold),
        !claimable(x, now, threshold),
    ensures
        claimable_count(rows.update(i, x), now, threshold) + 1 == claimable_count(rows, now, threshold),
    decreases rows.len(),
{
    let upd = rows.update(i, x);
    if i == rows.len() - 1 {
        assert(upd.drop_last() =~= rows.drop_last());
    } else {
        lemma_count_update(rows.drop_last(), i, x, now, threshold);
        assert(upd.drop_last() =~= rows.drop_last().update(i, x));
    }
}

proof fn lemma_claim_distinct(rows: Seq<JobRecord>, n: nat, now: i64, threshold: i32)
    requires
        ids_unique(rows),
    ensures
        forall|a: int, b: int|
            0 <= a < claim_spec(rows, n, now, threshold).0.len() && 0 <= b < claim_spec(
                rows,
                n,
                now,
                threshold,
            ).0.len() && a != b ==> #[trigger] claim_spec(rows, n, now, threshold).0[a].id
                != #[trigger] claim_spec(rows, n, now, threshold).0[b].id,
    decreases n,
{
    if n > 0 && has_claimable(rows, now, threshold) {
        lemma_next_due_exists(rows, now, threshold);
        let i = next_due(rows, now, threshold);
        let rows2 = rows.update(i, mark_running(rows[i], now));
        assert(same_ids(rows, rows2));
        lemma_same_ids_unique(rows, rows2);
        lemma_claim_distinct(rows2, (n - 1) as nat, now, threshold);
        lemma_claim_shape(rows2, (n - 1) as nat, now, threshold);
        let rest = claim_spec(rows2, (n - 1) as nat, now, threshold).0;
        let jobs = claim_spec(rows, n, now, threshold).0;
        assert forall|k: int| 0 <= k < rest.len() implies #[trigger] rest[k].id != rows[i].id by {
            assert(from_claimable(rows2, rest[k], now, threshold));
            let j = choose|j: int|
                0 <= j < rows2.len() && job_of(rows2[j]) == rest[k] && #[trigger] claimable(
                    rows2[j],
                    now,
                    threshold,
                );
            assert(j != i);
            assert(rows2[j].id == rows[j].id);
        }
        assert forall|a: int, b: int|
            0 <= a < jobs.len() && 0 <= b < jobs.len() && a != b implies #[trigger] jobs[a].id
                != #[trigger] jobs[b].id by {
            if a == 0 {
                assert(jobs[b] == rest[b - 1]);
            } else if b == 0 {
                assert(jobs[a] == rest[a - 1]);
            } else {
                assert(jobs[a] == rest[a - 1]);
                assert(jobs[b] == rest[b - 1]);
            }
        }
    }
}

proof fn lemma_claim_complete(rows: Seq<JobRecord>, n: nat, now: i64, threshold: i32)
    requires
        ids_unique(rows),
        n == claimable_count(rows, now, threshold),
    ensures
        claim_spec(rows, n, now, threshold).0.len() == n,
        forall|i: int|
            0 <= i < rows.len() && #[trigger] claimable(rows[i], now, threshold) ==> exists|k: int|
                0 <= k < claim_spec(rows, n, now, threshold).0.len() && #[trigger] claim_spec(
                    rows,
                    n,
                    now,
                    threshold,
                ).0[k] == job_of(rows[i]),
    decreases n,
{
    lemma_count_zero(rows, now, threshold);
    if n > 0 {
        lemma_next_due_exists(rows, now, threshold);
        let i0 = next_due(rows, now, threshold);
        let rows2 = rows.update(i0, mark_running(rows[i0], now));
        lemma_count_update(rows, i0, mark_running(rows[i0], now), now, threshold);
        assert(same_ids(rows, rows2));
        lemma_same_ids_unique(rows, rows2);
        lemma_claim_complete(rows2, (n - 1) as nat, now, threshold);
        let rest = claim_spec(rows2, (n - 1) as nat, now, threshold).0;
        let jobs = claim_spec(rows, n, now, threshold).0;
        assert(jobs == seq![job_of(rows[i0])].add(rest));
        assert forall|i: int|
            0 <= i < rows.len() && #[trigger] claimable(rows[i], now, threshold) implies exists|k: int|
                0 <= k < jobs.len() && #[trigger] jobs[k] == job_of(rows[i]) by {
            if i == i0 {
                assert(jobs[0] == job_of(rows[i]));
            } else {
                assert(rows2[i] == rows[i]);
                assert(claimable(rows2[i], now, threshold));
                let k = choose|k: int| 0 <= k < rest.len() && #[trigger] rest[k] == job_of(rows2[i]);
                assert(jobs[k + 1] == job_of(rows[i]));
            }
        }
    }
}

/// As many claims of one job each as there are claimable jobs hand out every
/// claimable job exactly once: as many jobs as calls, no id twice, none left
/// out.
pub proof fn lemma_single_claims_partition(rows: Seq<JobRecord>, now: i64, threshold: i32)
    requires
        ids_unique(rows),
    ensures
        ({
            let n = claimable_count(rows, now, threshold);
            let jobs = single_claims(rows, n, now, threshold).0;
            &&& jobs.len() == n
            &&& forall|a: int, b: int|
                0 <= a < jobs.len() && 0 <= b < jobs.len() && a != b ==> #[trigger] jobs[a].id
                    != #[trigger] jobs[b].id
            &&& forall|i: int|
                0 <= i < rows.len() && #[trigger] claimable(rows[i], now, threshold) ==> exists|k: int|
                    0 <= k < jobs.len() && #[trigger] jobs[k] == job_of(rows[i])
        }),
{
    let n = claimable_count(rows, now, threshold);
    lemma_single_claims_batch(rows, n, now, threshold);
    lemma_claim_distinct(rows, n, now, threshold);
    lemma_claim_complete(rows, n, now, threshold);
}

/// Deleting an id a second time changes nothing.
pub proof fn lemma_delete_idempotent(rows: Seq<JobRecord>, id: u128)
    requires
        ids_unique(rows),
    ensures
        !contains_id(delete_spec(rows, id), id),
        delete_spec(delete_spec(rows, id), id) == delete_spec(rows, id),
{
    if contains_id(rows, id) {
        let i = index_of(rows, id);
        let once = rows.remove(i);
        assert forall|j: int| 0 <= j < once.len() implies #[trigger] once[j].id != id by {
            let j0 = if j < i { j } else { j + 1 };
            assert(once[j] == rows[j0]);
            assert(rows[j0].id != rows[i].id);
        }
    }
}

/// Recording a failure of an id that is not stored, such as one just deleted,
/// succeeds and changes nothing.
pub proof fn lemma_fail_missing_is_noop(rows: Seq<JobRecord>, id: u128, now: i64)
    requires
        !contains_id(rows, id),
    ensures
        !fail_overflows(rows, id),
        fail_spec(rows, id, now) == rows,
{
}

/// A job enqueued into a table where nothing else is claimable is what the
/// next claim of one job hands out, with its id and its message, once it is
/// due.
pub proof fn lemma_enqueue_then_claim(
    rows: Seq<JobRecord>,
    id: u128,
    message: Message,
    now: i64,
    later: i64,
    threshold: i32,
)
    requires
        now <= later,
        0 < threshold,
        !has_claimable(rows, later, threshold),
    ensures
        claim_spec(rows.push(queued_record(id, message, None, now)), 1, later, threshold).0
            == seq![Job { id, message }],
{
    let rows2 = rows.push(queued_record(id, message, None, now));
    let last = rows.len() as int;
    assert(claimable(rows2[last], later, threshold));
    assert forall|j: int|
        0 <= j < rows2.len() && j != last && #[trigger] claimable(rows2[j], later, threshold)
            implies !crate::claim::due_before(rows2, j, last) by {
        assert(rows2[j] == rows[j]);
        assert(claimable(rows[j], later, threshold));
    }
    assert(is_next_due(rows2, last, later, threshold));
    lemma_next_due_is(rows2, last, later, threshold);
    let rows3 = rows2.update(last, mark_running(rows2[last], later));
    assert(claim_spec(rows3, 0, later, threshold).0 == Seq::<Job>::empty());
    assert(seq![job_of(rows2[last])].add(Seq::<Job>::empty()) =~= seq![Job { id, message }]);
}

} // verus!
