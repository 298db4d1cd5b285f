use transcription_queue::job::outcome_fields;
use transcription_queue::store::{check_limit, check_priority};
use transcription_queue::{JobStatus, JobStore, StoreError, TranscriptionJob, DEFAULT_MAX_ATTEMPTS};

fn ids(jobs: &Vec<TranscriptionJob>) -> Vec<u128> {
    jobs.iter().map(|j| j.id).collect()
}

fn store_with(priorities: &[i32]) -> JobStore {
    let mut store = JobStore::new();
    let mut n: u128 = 0;
    for p in priorities {
        n += 1;
        let t: i64 = 1_000 * (n as i64);
        assert_eq!(store.enqueue_transcription_at(n, t, None, "http://x", *p), Ok(n));
    }
    store
}

#[test]
fn enqueue_creates_waiting_job() {
    let mut store = JobStore::new();
    let id: u128 = 0xa1a2;
    assert_eq!(store.enqueue_transcription_at(id, 77, Some(9), "http://a", 4), Ok(id));
    assert_eq!(store.len(), 1);
    let job = store.get_transcription_job(id).unwrap();
    assert_eq!(job.id, id);
    assert_eq!(job.user_id, Some(9));
    assert_eq!(job.source_url, "http://a");
    assert_eq!(job.status, JobStatus::Enqueued);
    assert_eq!(job.priority, 4);
    assert_eq!(job.attempts, 0);
    assert_eq!(job.max_attempts, DEFAULT_MAX_ATTEMPTS);
    assert_eq!(job.worker_id, None);
    assert_eq!(job.started_at, None);
    assert_eq!(job.finished_at, None);
    assert_eq!(job.last_error, None);
    assert_eq!(job.transcript, None);
    assert_eq!(job.transcript_format, None);
    assert_eq!(job.duration_seconds, None);
    assert_eq!(job.size_bytes, None);
    assert_eq!(job.created_at, 77);
    assert_eq!(job.updated_at, 77);
}

#[test]
fn enqueue_rejects_non_positive_priority() {
    let mut store = JobStore::new();
    assert_eq!(
        store.enqueue_transcription_at(1, 1, None, "http://a", 0),
        Err(StoreError::InvalidArgument)
    );
    assert_eq!(
        store.enqueue_transcription_at(1, 1, None, "http://a", -3),
        Err(StoreError::InvalidArgument)
    );
    assert_eq!(
        store.enqueue_transcription(None, "http://a", 0),
        Err(StoreError::InvalidArgument)
    );
    assert_eq!(store.len(), 0);
}

#[test]
fn enqueue_refuses_id_in_use() {
    let mut store = JobStore::new();
    assert_eq!(store.enqueue_transcription_at(5, 1, None, "http://a", 1), Ok(5));
    assert_eq!(
        store.enqueue_transcription_at(5, 2, None, "http://b", 2),
        Err(StoreError::StoreUnavailable)
    );
    assert_eq!(store.len(), 1);
    assert_eq!(store.get_transcription_job(5).unwrap().source_url, "http://a");
    assert!(StoreError::StoreUnavailable.is_retryable());
    assert!(!StoreError::InvalidArgument.is_retryable());
    assert!(!StoreError::NotFound.is_retryable());
    assert!(!StoreError::StoreCorruption.is_retryable());
}

#[test]
fn enqueue_draws_random_uuid_and_reads_clock() {
    let before: i64 = chrono::Utc::now().timestamp_micros();
    let mut store = JobStore::new();
    let a = store.enqueue_transcription(None, "http://a", 1).unwrap();
    let b = store.enqueue_transcription(None, "http://b", 1).unwrap();
    let after: i64 = chrono::Utc::now().timestamp_micros();
    assert_ne!(a, b);
    assert_eq!(uuid::Uuid::from_u128(a).get_version_num(), 4);
    assert_eq!(uuid::Uuid::from_u128(b).get_version_num(), 4);
    assert_eq!((a >> 76) & 0xf, 4);
    assert_eq!((a >> 62) & 0x3, 2);
    let job = store.get_transcription_job(a).unwrap();
    assert!(before <= job.created_at && job.created_at <= after);
    assert_eq!(job.created_at, job.updated_at);
}

#[test]
fn claim_orders_by_priority() {
    let mut store = store_with(&[1, 5, 3]);
    let jobs = store.claim_transcription_jobs_at("w", 3, 9_000).unwrap();
    let priorities: Vec<i32> = jobs.iter().map(|j| j.priority).collect();
    assert_eq!(priorities, vec![5, 3, 1]);
    assert_eq!(ids(&jobs), vec![2, 3, 1]);
}

#[test]
fn claim_breaks_ties_oldest_first() {
    let mut store = JobStore::new();
    assert_eq!(store.enqueue_transcription_at(10, 200, None, "http://late", 2), Ok(10));
    assert_eq!(store.enqueue_transcription_at(11, 100, None, "http://early", 2), Ok(11));
    let first = store.claim_transcription_jobs_at("w", 1, 300).unwrap();
    assert_eq!(ids(&first), vec![11]);
    let second = store.claim_transcription_jobs_at("w", 1, 301).unwrap();
    assert_eq!(ids(&second), vec![10]);
}

#[test]
fn claim_breaks_equal_instants_by_insertion() {
    let mut store = JobStore::new();
    assert_eq!(store.enqueue_transcription_at(30, 100, None, "http://a", 2), Ok(30));
    assert_eq!(store.enqueue_transcription_at(20, 100, None, "http://b", 2), Ok(20));
    assert_eq!(store.enqueue_transcription_at(10, 100, None, "http://c", 2), Ok(10));
    let jobs = store.claim_transcription_jobs_at("w", 5, 300).unwrap();
    assert_eq!(ids(&jobs), vec![30, 20, 10]);
}

#[test]
fn claim_stamps_the_rows() {
    let mut store = store_with(&[2, 2]);
    let jobs = store.claim_transcription_jobs_at("worker-7", 1, 5_555).unwrap();
    assert_eq!(jobs.len(), 1);
    let job = &jobs[0];
    assert_eq!(job.id, 1);
    assert_eq!(job.status, JobStatus::Processing);
    assert_eq!(job.worker_id.as_deref(), Some("worker-7"));
    assert_eq!(job.started_at, Some(5_555));
    assert_eq!(job.updated_at, 5_555);
    assert_eq!(job.created_at, 1_000);
    assert_eq!(job.attempts, 1);
    assert_eq!(job.finished_at, None);
    let stored = store.get_transcription_job(1).unwrap();
    assert_eq!(stored.status, JobStatus::Processing);
    assert_eq!(stored.worker_id.as_deref(), Some("worker-7"));
    assert_eq!(stored.started_at, Some(5_555));
    assert_eq!(stored.attempts, 1);
    let other = store.get_transcription_job(2).unwrap();
    assert_eq!(other.status, JobStatus::Enqueued);
    assert_eq!(other.attempts, 0);
    assert_eq!(other.worker_id, None);
    assert_eq!(other.updated_at, 2_000);
}

#[test]
fn claim_returns_what_is_there() {
    let mut store = store_with(&[1, 2]);
    let jobs = store.claim_transcription_jobs_at("w", 10, 9_000).unwrap();
    assert_eq!(ids(&jobs), vec![2, 1]);
    let none = store.claim_transcription_jobs_at("w", 10, 9_001).unwrap();
    assert!(none.is_empty());
}

#[test]
fn claim_on_empty_queue_is_empty() {
    let mut store = JobStore::new();
    let jobs = store.claim_transcription_jobs_at("w", 10, 1).unwrap();
    assert!(jobs.is_empty());
    let jobs = store.claim_transcription_jobs("w", 10).unwrap();
    assert!(jobs.is_empty());
    assert_eq!(store.len(), 0);
}

#[test]
fn claim_rejects_bad_limit() {
    let mut store = store_with(&[1]);
    assert!(matches!(
        store.claim_transcription_jobs_at("w", 0, 1),
        Err(StoreError::InvalidArgument)
    ));
    assert!(matches!(
        store.claim_transcription_jobs_at("w", -1, 1),
        Err(StoreError::InvalidArgument)
    ));
    assert!(matches!(
        store.claim_transcription_jobs("w", i64::MIN),
        Err(StoreError::InvalidArgument)
    ));
    assert_eq!(store.get_transcription_job(1).unwrap().status, JobStatus::Enqueued);
    let jobs = store.claim_transcription_jobs_at("w", i64::MAX, 1).unwrap();
    assert_eq!(ids(&jobs), vec![1]);
}

#[test]
fn claims_never_overlap() {
    let mut store = store_with(&[3, 1, 4, 1, 5, 9, 2, 6]);
    let mut seen: Vec<u128> = Vec::new();
    let workers = ["a", "b", "c", "d", "e"];
    let mut turn: usize = 0;
    loop {
        let worker = workers[turn % workers.len()];
        let limit: i64 = 1 + (turn % 3) as i64;
        let jobs = store.claim_transcription_jobs_at(worker, limit, 10_000 + turn as i64).unwrap();
        if jobs.is_empty() {
            break;
        }
        for job in &jobs {
            assert!(!seen.contains(&job.id));
            assert_eq!(job.worker_id.as_deref(), Some(worker));
            seen.push(job.id);
        }
        turn += 1;
    }
    assert_eq!(seen, vec![6, 8, 5, 3, 1, 7, 2, 4]);
}

#[test]
fn attempts_count_each_claim() {
    let mut store = JobStore::new();
    assert_eq!(store.enqueue_transcription_at(1, 10, None, "http://a", 1), Ok(1));
    let first = store.claim_transcription_jobs_at("w1", 1, 20).unwrap();
    assert_eq!(first[0].attempts, 1);
    let mut rows = store.into_rows();
    rows[0].status = JobStatus::Enqueued;
    let mut store = JobStore::from_rows(rows).unwrap();
    let second = store.claim_transcription_jobs_at("w2", 1, 30).unwrap();
    assert_eq!(second.len(), 1);
    assert_eq!(second[0].id, 1);
    assert_eq!(second[0].attempts, 2);
    assert_eq!(second[0].worker_id.as_deref(), Some("w2"));
    assert_eq!(store.get_transcription_job(1).unwrap().attempts, 2);
}

#[test]
fn claim_is_all_or_nothing_when_attempts_are_exhausted() {
    let mut healthy = TranscriptionJob::new(1, None, "http://a", 9, 10);
    healthy.attempts = 4;
    let mut worn = TranscriptionJob::new(2, None, "http://b", 5, 20);
    worn.attempts = i32::MAX;
    let mut store = JobStore::from_rows(vec![healthy, worn]).unwrap();
    assert!(matches!(
        store.claim_transcription_jobs_at("w", 2, 30),
        Err(StoreError::StoreCorruption)
    ));
    let untouched = store.get_transcription_job(1).unwrap();
    assert_eq!(untouched.status, JobStatus::Enqueued);
    assert_eq!(untouched.attempts, 4);
    assert_eq!(untouched.worker_id, None);
    let jobs = store.claim_transcription_jobs_at("w", 1, 31).unwrap();
    assert_eq!(ids(&jobs), vec![1]);
    assert_eq!(jobs[0].attempts, 5);
}

#[test]
fn from_rows_refuses_duplicate_ids() {
    let a = TranscriptionJob::new(1, None, "http://a", 1, 10);
    let b = TranscriptionJob::new(2, None, "http://b", 1, 20);
    let c = TranscriptionJob::new(1, None, "http://c", 1, 30);
    assert!(matches!(JobStore::from_rows(vec![a, b, c]), Err(StoreError::StoreCorruption)));
    let a = TranscriptionJob::new(1, None, "http://a", 1, 10);
    let b = TranscriptionJob::new(2, None, "http://b", 1, 20);
    let store = JobStore::from_rows(vec![a, b]).unwrap();
    assert_eq!(store.len(), 2);
    let rows = store.into_rows();
    assert_eq!(ids(&rows), vec![1, 2]);
    assert_eq!(JobStore::from_rows(Vec::new()).unwrap().len(), 0);
}

#[test]
fn get_finds_by_id_only() {
    let store = store_with(&[1, 2, 3]);
    assert!(store.get_transcription_job(4).is_none());
    assert!(store.get_transcription_job(0).is_none());
    assert_eq!(store.get_transcription_job(2).unwrap().priority, 2);
    assert_eq!(store.get_transcription_job(2).unwrap().status, JobStatus::Enqueued);
    assert_eq!(store.len(), 3);
}

#[test]
fn finalize_success_leaves_error_unset() {
    let mut store = store_with(&[1]);
    let _ = store.claim_transcription_jobs_at("w", 1, 2_000).unwrap();
    assert_eq!(
        store.finalize_transcription_job_at(
            1,
            "succeeded",
            Some("X"),
            Some("srt"),
            Some("ignored"),
            Some(12),
            Some(3_400),
            3_000
        ),
        Ok(())
    );
    let job = store.get_transcription_job(1).unwrap();
    assert_eq!(job.status, JobStatus::Succeeded);
    assert_eq!(job.transcript.as_deref(), Some("X"));
    assert_eq!(job.transcript_format.as_deref(), Some("srt"));
    assert_eq!(job.last_error, None);
    assert_eq!(job.duration_seconds, Some(12));
    assert_eq!(job.size_bytes, Some(3_400));
    assert_eq!(job.finished_at, Some(3_000));
    assert_eq!(job.updated_at, 3_000);
    assert_eq!(job.started_at, Some(2_000));
    assert_eq!(job.worker_id.as_deref(), Some("w"));
    assert_eq!(job.attempts, 1);
    assert_eq!(job.created_at, 1_000);
}

#[test]
fn finalize_failure_leaves_transcript_unset() {
    let mut store = store_with(&[1]);
    let _ = store.claim_transcription_jobs_at("w", 1, 2_000).unwrap();
    assert_eq!(
        store.finalize_transcription_job_at(
            1,
            "failed",
            Some("ignored"),
            Some("txt"),
            Some("E"),
            None,
            None,
            3_000
        ),
        Ok(())
    );
    let job = store.get_transcription_job(1).unwrap();
    assert_eq!(job.status, JobStatus::Failed);
    assert_eq!(job.transcript, None);
    assert_eq!(job.transcript_format, None);
    assert_eq!(job.last_error.as_deref(), Some("E"));
    assert_eq!(job.finished_at, Some(3_000));
    assert_eq!(job.worker_id.as_deref(), Some("w"));
}

#[test]
fn finalize_twice_is_the_same() {
    let mut store = store_with(&[1, 2]);
    let _ = store.claim_transcription_jobs_at("w", 2, 2_000).unwrap();
    assert_eq!(
        store.finalize_transcription_job_at(2, "succeeded", Some("X"), None, None, None, None, 3_000),
        Ok(())
    );
    let once = format!("{:?}", store.get_transcription_job(2).unwrap());
    assert_eq!(
        store.finalize_transcription_job_at(2, "succeeded", Some("X"), None, None, None, None, 3_000),
        Ok(())
    );
    let twice = format!("{:?}", store.get_transcription_job(2).unwrap());
    assert_eq!(once, twice);
    assert_eq!(store.get_transcription_job(1).unwrap().status, JobStatus::Processing);
}

#[test]
fn finalize_rejects_other_statuses() {
    let mut store = store_with(&[1]);
    for word in ["enqueued", "processing", "", "Succeeded", "done", "failed "] {
        assert_eq!(
            store.finalize_transcription_job_at(1, word, None, None, None, None, None, 5),
            Err(StoreError::InvalidArgument)
        );
        assert_eq!(
            store.finalize_transcription_job(1, word, None, None, None, None, None),
            Err(StoreError::InvalidArgument)
        );
    }
    assert_eq!(
        store.finalize_transcription_job_at(99, "nonsense", None, None, None, None, None, 5),
        Err(StoreError::InvalidArgument)
    );
    let job = store.get_transcription_job(1).unwrap();
    assert_eq!(job.status, JobStatus::Enqueued);
    assert_eq!(job.finished_at, None);
}

#[test]
fn finalize_unknown_id_is_not_found() {
    let mut store = store_with(&[1]);
    assert_eq!(
        store.finalize_transcription_job_at(2, "failed", None, None, Some("E"), None, None, 5),
        Err(StoreError::NotFound)
    );
    assert_eq!(
        store.finalize_transcription_job(2, "succeeded", None, None, None, None, None),
        Err(StoreError::NotFound)
    );
    assert_eq!(store.get_transcription_job(1).unwrap().status, JobStatus::Enqueued);
}

#[test]
fn finalized_jobs_are_not_claimed_again() {
    let mut store = store_with(&[1, 2]);
    assert_eq!(
        store.finalize_transcription_job_at(2, "failed", None, None, Some("E"), None, None, 5_000),
        Ok(())
    );
    let jobs = store.claim_transcription_jobs_at("w", 5, 6_000).unwrap();
    assert_eq!(ids(&jobs), vec![1]);
    assert_eq!(store.get_transcription_job(2).unwrap().status, JobStatus::Failed);
    assert_eq!(store.get_transcription_job(2).unwrap().attempts, 0);
}

#[test]
fn end_to_end() {
    let mut store = JobStore::new();
    let a = store.enqueue_transcription(None, "http://a", 1).unwrap();
    let b = store.enqueue_transcription(None, "http://b", 5).unwrap();
    let first = store.claim_transcription_jobs("w1", 1).unwrap();
    assert_eq!(ids(&first), vec![b]);
    assert_eq!(first[0].status, JobStatus::Processing);
    assert_eq!(first[0].attempts, 1);
    assert_eq!(first[0].source_url, "http://b");
    assert_eq!(
        store.finalize_transcription_job(b, "succeeded", Some("hello"), None, None, None, None),
        Ok(())
    );
    let done = store.get_transcription_job(b).unwrap();
    assert_eq!(done.status, JobStatus::Succeeded);
    assert_eq!(done.transcript.as_deref(), Some("hello"));
    assert!(done.finished_at.is_some());
    let rest = store.claim_transcription_jobs("w1", 5).unwrap();
    assert_eq!(ids(&rest), vec![a]);
    assert_eq!(rest[0].worker_id.as_deref(), Some("w1"));
    assert!(rest[0].started_at.is_some());
}

#[test]
fn status_words_round_trip() {
    let all = [
        (JobStatus::Enqueued, "enqueued", false),
        (JobStatus::Processing, "processing", false),
        (JobStatus::Succeeded, "succeeded", true),
        (JobStatus::Failed, "failed", true),
    ];
    for (status, word, terminal) in all {
        assert_eq!(status.as_str(), word);
        assert_eq!(JobStatus::parse(word), Some(status));
        assert_eq!(status.is_terminal(), terminal);
        assert_eq!(JobStatus::parse_outcome(word), if terminal { Some(status) } else { None });
    }
    assert_eq!(JobStatus::parse("FAILED"), None);
    assert_eq!(JobStatus::parse(""), None);
    assert_eq!(JobStatus::parse_outcome("success"), None);
}

#[test]
fn job_clone_keeps_every_field() {
    let mut store = store_with(&[3]);
    let _ = store.claim_transcription_jobs_at("w", 1, 2_000).unwrap();
    let _ = store.finalize_transcription_job_at(1, "succeeded", Some("T"), Some("vtt"), None, Some(1), Some(2), 3_000);
    let job = store.get_transcription_job(1).unwrap();
    let copy = job.clone();
    assert_eq!(format!("{:?}", job), format!("{:?}", copy));
}

#[test]
fn enqueue_takes_any_address() {
    let mut store = JobStore::new();
    let id = store.enqueue_transcription(None, "not a url", 1).unwrap();
    let job = store.get_transcription_job(id).unwrap();
    assert_eq!(job.source_url, "not a url");
    assert_eq!(job.status, JobStatus::Enqueued);
    let again = store.enqueue_transcription(Some(3), "not a url", 1).unwrap();
    assert_ne!(id, again);
    assert_eq!(store.enqueue_transcription_at(1, 5, None, "", 1), Ok(1));
    assert_eq!(store.get_transcription_job(1).unwrap().source_url, "");
    assert_eq!(store.len(), 3);
}

#[test]
fn argument_checks() {
    assert_eq!(check_priority(1), Ok(()));
    assert_eq!(check_priority(i32::MAX), Ok(()));
    assert_eq!(check_priority(0), Err(StoreError::InvalidArgument));
    assert_eq!(check_priority(i32::MIN), Err(StoreError::InvalidArgument));
    assert_eq!(check_limit(1), Ok(()));
    assert_eq!(check_limit(i64::MAX), Ok(()));
    assert_eq!(check_limit(0), Err(StoreError::InvalidArgument));
    assert_eq!(check_limit(-7), Err(StoreError::InvalidArgument));
}

#[test]
fn outcome_decides_what_is_kept() {
    assert_eq!(
        outcome_fields(JobStatus::Succeeded, Some("T"), Some("srt"), Some("E")),
        (Some("T"), Some("srt"), None)
    );
    assert_eq!(
        outcome_fields(JobStatus::Failed, Some("T"), Some("srt"), Some("E")),
        (None, None, Some("E"))
    );
    assert_eq!(outcome_fields(JobStatus::Succeeded, None, None, None), (None, None, None));
    assert_eq!(outcome_fields(JobStatus::Failed, None, None, None), (None, None, None));
    assert_eq!(
        outcome_fields(JobStatus::Processing, Some("T"), Some("srt"), Some("E")),
        (None, None, None)
    );
}

#[test]
fn many_claims_in_turn_share_nothing() {
    let mut store = JobStore::new();
    let mut n: u128 = 0;
    while n < 20 {
        n += 1;
        let priority: i32 = 1 + (n % 4) as i32;
        assert_eq!(store.enqueue_transcription_at(n, 50 - n as i64, None, "http://x", priority), Ok(n));
    }
    assert_eq!(store.finalize_transcription_job_at(7, "failed", None, None, None, None, None, 60), Ok(()));
    let mut seen: Vec<(u128, String)> = Vec::new();
    let mut turn: i64 = 0;
    while turn < 9 {
        let worker = format!("w{}", turn);
        let jobs = store.claim_transcription_jobs_at(&worker, 1 + turn % 4, 100 + turn).unwrap();
        for job in jobs {
            assert!(seen.iter().all(|(id, _)| *id != job.id));
            assert!(job.id >= 1 && job.id <= 20 && job.id != 7);
            seen.push((job.id, worker.clone()));
        }
        turn += 1;
    }
    assert_eq!(seen.len(), 19);
    for (id, worker) in &seen {
        let job = store.get_transcription_job(*id).unwrap();
        assert_eq!(job.worker_id.as_deref(), Some(worker.as_str()));
        assert_eq!(job.status, JobStatus::Processing);
        assert_eq!(job.attempts, 1);
    }
}
