use queue::job::{Job, JobRecord, JobStatus, Message};
use queue::memory::{Error, MemoryQueue, QueueConfig, DEFAULT_MAX_ATTEMPTS, MAX_FAILED_ATTEMPTS};
use queue::storage::claim_limit;

fn newsletter(n: u128) -> Message {
    Message::SendNewsletterMessage { message_id: n }
}

fn sign_in() -> Message {
    Message::SendSignInEmail {
        email: "ada@example.com".to_string(),
        name: "Ada".to_string(),
        code: "123456".to_string(),
    }
}

fn default_queue() -> MemoryQueue {
    MemoryQueue::new(QueueConfig::new())
}

#[test]
fn config_defaults() {
    let c = QueueConfig::new();
    assert_eq!(c.max_attempts, 5);
    assert_eq!(c.max_failed_attempts, 3);
    assert_eq!(DEFAULT_MAX_ATTEMPTS, 5);
    assert_eq!(MAX_FAILED_ATTEMPTS, 3);
    let t = QueueConfig::with_threshold(7);
    assert_eq!(t.max_failed_attempts, 7);
    assert_eq!(t.max_attempts, 5);
    assert_eq!(MemoryQueue::new(t).config(), t);
}

#[test]
fn push_stores_queued_row() {
    let mut q = default_queue();
    assert_eq!(q.push_with_id(sign_in(), None, 1_000, 42), Ok(()));
    let r = q.record(42).unwrap();
    assert_eq!(r.id, 42);
    assert_eq!(r.created_at, 1_000);
    assert_eq!(r.updated_at, 1_000);
    assert_eq!(r.scheduled_for, 1_000);
    assert_eq!(r.failed_attempts, 0);
    assert_eq!(r.status, JobStatus::Queued);
    assert_eq!(r.message, sign_in());
    assert_eq!(q.push_with_id(newsletter(1), Some(5_000), 2_000, 43), Ok(()));
    assert_eq!(q.record(43).unwrap().scheduled_for, 5_000);
    assert_eq!(q.len(), 2);
}

#[test]
fn duplicate_id_is_a_storage_failure() {
    let mut q = default_queue();
    assert_eq!(q.push_with_id(newsletter(1), None, 10, 7), Ok(()));
    let r = q.push_with_id(newsletter(2), None, 20, 7);
    assert!(matches!(r, Err(Error::Storage(_))));
    assert_eq!(q.len(), 1);
    assert_eq!(q.record(7).unwrap().message, newsletter(1));
}

#[test]
fn fresh_ids_differ() {
    let mut q = default_queue();
    q.push(newsletter(1), None, 10).unwrap();
    q.push(newsletter(2), None, 10).unwrap();
    let jobs = q.pull(2, 10);
    assert_eq!(jobs.len(), 2);
    assert_ne!(jobs[0].id, jobs[1].id);
    assert_ne!(jobs[0].id, 0);
}

#[test]
fn round_trip_enqueue_then_claim() {
    let mut q = default_queue();
    q.push(sign_in(), None, 100).unwrap();
    let jobs = q.pull(1, 100);
    assert_eq!(jobs.len(), 1);
    assert_eq!(jobs[0].message, sign_in());
    let stored = q.record(jobs[0].id).unwrap();
    assert_eq!(stored.created_at, 100);
    assert_eq!(stored.status, JobStatus::Running);
}

#[test]
fn round_trip_with_known_id() {
    let mut q = default_queue();
    q.push_with_id(newsletter(9), None, 100, 555).unwrap();
    let jobs = q.pull(1, 150);
    assert_eq!(jobs, vec![Job { id: 555, message: newsletter(9) }]);
}

#[test]
fn claim_in_enqueue_order_then_rest() {
    let mut q = default_queue();
    for i in 0..5u128 {
        q.push(newsletter(i), None, 1_000).unwrap();
    }
    let first = q.pull(3, 1_000);
    let msgs: Vec<Message> = first.iter().map(|j| j.message.clone()).collect();
    assert_eq!(msgs, vec![newsletter(0), newsletter(1), newsletter(2)]);
    let second = q.pull(3, 1_000);
    let msgs: Vec<Message> = second.iter().map(|j| j.message.clone()).collect();
    assert_eq!(msgs, vec![newsletter(3), newsletter(4)]);
    assert!(q.pull(3, 1_000).is_empty());
}

#[test]
fn claim_orders_by_due_time() {
    let mut q = default_queue();
    q.push_with_id(newsletter(1), Some(300), 0, 1).unwrap();
    q.push_with_id(newsletter(2), Some(100), 0, 2).unwrap();
    q.push_with_id(newsletter(3), Some(200), 0, 3).unwrap();
    let ids: Vec<u128> = q.pull(10, 1_000).iter().map(|j| j.id).collect();
    assert_eq!(ids, vec![2, 3, 1]);
}

#[test]
fn future_jobs_are_not_claimed() {
    let mut q = default_queue();
    q.push_with_id(newsletter(1), Some(2_000), 1_000, 1).unwrap();
    assert!(q.pull(10, 1_999).is_empty());
    assert_eq!(q.record(1).unwrap().status, JobStatus::Queued);
    let jobs = q.pull(10, 2_000);
    assert_eq!(jobs.len(), 1);
    assert_eq!(jobs[0].id, 1);
}

#[test]
fn exhausted_jobs_are_not_claimed() {
    let mut q = default_queue();
    q.push_with_id(newsletter(1), None, 0, 1).unwrap();
    q.push_with_id(newsletter(2), None, 0, 2).unwrap();
    for _ in 0..3 {
        q.fail_job(1, 10).unwrap();
    }
    assert_eq!(q.record(1).unwrap().failed_attempts, 3);
    let jobs = q.pull(10, 10);
    assert_eq!(jobs, vec![Job { id: 2, message: newsletter(2) }]);
}

#[test]
fn claim_zero_returns_nothing() {
    let mut q = default_queue();
    q.push_with_id(newsletter(1), None, 0, 1).unwrap();
    assert!(q.pull(0, 10).is_empty());
    assert_eq!(q.record(1).unwrap().status, JobStatus::Queued);
}

#[test]
fn single_claims_partition_the_due_jobs() {
    let mut q = default_queue();
    for i in 0..4u128 {
        q.push(newsletter(i), None, 50).unwrap();
    }
    let mut ids: Vec<u128> = Vec::new();
    let mut msgs: Vec<Message> = Vec::new();
    for _ in 0..4 {
        let jobs = q.pull(1, 60);
        assert_eq!(jobs.len(), 1);
        ids.push(jobs[0].id);
        msgs.push(jobs[0].message.clone());
    }
    for a in 0..4 {
        for b in 0..4 {
            if a != b {
                assert_ne!(ids[a], ids[b]);
            }
        }
    }
    assert_eq!(msgs, vec![newsletter(0), newsletter(1), newsletter(2), newsletter(3)]);
    assert!(q.pull(1, 60).is_empty());
}

#[test]
fn running_job_is_not_claimed_twice() {
    let mut q = default_queue();
    q.push_with_id(newsletter(1), None, 0, 1).unwrap();
    let r = q.pull(5, 10);
    assert_eq!(r.len(), 1);
    let rec = q.record(1).unwrap();
    assert_eq!(rec.status, JobStatus::Running);
    assert_eq!(rec.updated_at, 10);
    assert!(q.pull(5, 20).is_empty());
}

#[test]
fn fail_job_requeues_with_one_more_failure() {
    let mut q = default_queue();
    q.push_with_id(newsletter(1), Some(5), 0, 1).unwrap();
    q.pull(1, 10);
    assert_eq!(q.fail_job(1, 30), Ok(()));
    let rec = q.record(1).unwrap();
    assert_eq!(rec.status, JobStatus::Queued);
    assert_eq!(rec.failed_attempts, 1);
    assert_eq!(rec.updated_at, 30);
    assert_eq!(rec.scheduled_for, 5);
    assert_eq!(q.pull(1, 30).len(), 1);
}

#[test]
fn delete_twice_is_delete_once() {
    let mut q = default_queue();
    q.push_with_id(newsletter(1), None, 0, 1).unwrap();
    q.push_with_id(newsletter(2), None, 0, 2).unwrap();
    q.delete_job(1);
    assert_eq!(q.len(), 1);
    assert!(q.record(1).is_none());
    q.delete_job(1);
    assert_eq!(q.len(), 1);
    assert_eq!(q.record(2).unwrap().message, newsletter(2));
}

#[test]
fn fail_missing_id_is_noop() {
    let mut q = default_queue();
    q.push_with_id(newsletter(1), None, 0, 1).unwrap();
    q.delete_job(1);
    assert_eq!(q.fail_job(1, 10), Ok(()));
    assert_eq!(q.fail_job(1, 20), Ok(()));
    assert_eq!(q.len(), 0);
}

#[test]
fn exhausted_job_stays_until_deleted() {
    let mut q = default_queue();
    q.push_with_id(sign_in(), None, 0, 11).unwrap();
    for _ in 0..MAX_FAILED_ATTEMPTS {
        q.fail_job(11, 1).unwrap();
    }
    assert!(q.pull(10, 100).is_empty());
    assert_eq!(q.len(), 1);
    assert!(q.record(11).is_some());
    q.delete_job(11);
    assert_eq!(q.len(), 0);
}

#[test]
fn configured_threshold_applies() {
    let mut q = MemoryQueue::new(QueueConfig::with_threshold(1));
    q.push_with_id(newsletter(1), None, 0, 1).unwrap();
    q.fail_job(1, 1).unwrap();
    assert!(q.pull(10, 100).is_empty());
    let mut z = MemoryQueue::new(QueueConfig::with_threshold(0));
    z.push_with_id(newsletter(1), None, 0, 1).unwrap();
    assert!(z.pull(10, 100).is_empty());
}

#[test]
fn clear_removes_every_row() {
    let mut q = default_queue();
    for i in 0..10u128 {
        q.push_with_id(newsletter(i), Some(i as i64 * 10), 0, i + 1).unwrap();
    }
    q.pull(3, 50);
    q.fail_job(1, 60).unwrap();
    q.fail_job(2, 60).unwrap();
    assert_eq!(q.len(), 10);
    q.clear();
    assert_eq!(q.len(), 0);
    assert!(q.pull(10, 1_000).is_empty());
}

#[test]
fn status_codes() {
    assert_eq!(JobStatus::Queued.code(), 0);
    assert_eq!(JobStatus::Running.code(), 1);
    assert_eq!(JobStatus::Failed.code(), 2);
    assert_eq!(JobStatus::from_code(0), Some(JobStatus::Queued));
    assert_eq!(JobStatus::from_code(1), Some(JobStatus::Running));
    assert_eq!(JobStatus::from_code(2), Some(JobStatus::Failed));
    assert_eq!(JobStatus::from_code(3), None);
    assert_eq!(JobStatus::from_code(-1), None);
}

#[test]
fn claim_limit_clamps() {
    assert_eq!(claim_limit(0), 0);
    assert_eq!(claim_limit(7), 7);
    assert_eq!(claim_limit(2_147_483_647), i32::MAX);
    assert_eq!(claim_limit(u32::MAX), i32::MAX);
}

#[test]
fn record_to_job() {
    let rec = JobRecord::new_queued(3, sign_in(), Some(9), 4);
    assert!(rec.is_claimable(9, 3));
    assert!(!rec.is_claimable(8, 3));
    assert!(!rec.is_claimable(9, 0));
    assert_eq!(rec.to_job(), Job { id: 3, message: sign_in() });
    assert_eq!(Job::from(rec), Job { id: 3, message: sign_in() });
}

#[test]
fn claim_three_of_five_by_enqueue_time() {
    let mut q = default_queue();
    q.clear();
    for i in 1..=5u128 {
        q.push_with_id(newsletter(i), None, 100 + i as i64, i).unwrap();
    }
    let first = q.pull(3, 200);
    assert_eq!(
        first,
        vec![
            Job { id: 1, message: newsletter(1) },
            Job { id: 2, message: newsletter(2) },
            Job { id: 3, message: newsletter(3) },
        ]
    );
    for i in 1..=3u128 {
        assert_eq!(q.record(i).unwrap().status, JobStatus::Running);
    }
    for i in 4..=5u128 {
        assert_eq!(q.record(i).unwrap().status, JobStatus::Queued);
    }
    let second = q.pull(3, 200);
    assert_eq!(
        second,
        vec![Job { id: 4, message: newsletter(4) }, Job { id: 5, message: newsletter(5) }]
    );
    for i in 1..=5u128 {
        assert_eq!(q.record(i).unwrap().status, JobStatus::Running);
    }
}

#[test]
fn push_into_empty_table_succeeds() {
    let mut q = default_queue();
    assert_eq!(q.push(sign_in(), Some(7), 3), Ok(()));
    assert_eq!(q.len(), 1);
}
