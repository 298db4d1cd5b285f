use crate::status::JobStatus;
use vstd::prelude::*;

verus! {

/// The attempt ceiling that a new job is created with. The queue records it
/// and leaves enforcing it to the workers. Three is this library's own
/// choice: nothing the queue does depends on the number.
pub const DEFAULT_MAX_ATTEMPTS: i32 = 3;

/// One transcription job as the store holds it. Identifiers are the 128 bits
/// of a UUID; instants are microseconds since the Unix epoch, UTC.
#[derive(Debug)]
pub struct TranscriptionJob {
    pub id: u128,
    pub user_id: Option<u128>,
    pub source_url: String,
    pub status: JobStatus,
    pub priority: i32,
    pub attempts: i32,
    pub max_attempts: i32,
    pub worker_id: Option<String>,
    pub started_at: Option<i64>,
    pub finished_at: Option<i64>,
    pub last_error: Option<String>,
    pub transcript: Option<String>,
    pub transcript_format: Option<String>,
    pub duration_seconds: Option<i32>,
    pub size_bytes: Option<i64>,
    pub created_at: i64,
    pub updated_at: i64,
}

/// A job as a mathematical value: texts are sequences of characters and the
/// attempt count is unbounded.
pub struct JobView {
    pub id: u128,
    pub user_id: Option<u128>,
    pub source_url: Seq<char>,
    pub status: JobStatus,
    pub priority: i32,
    pub attempts: int,
    pub max_attempts: i32,
    pub worker_id: Option<Seq<char>>,
    pub started_at: Option<i64>,
    pub finished_at: Option<i64>,
    pub last_error: Option<Seq<char>>,
    pub transcript: Option<Seq<char>>,
    pub transcript_format: Option<Seq<char>>,
    pub duration_seconds: Option<i32>,
    pub size_bytes: Option<i64>,
    pub created_at: i64,
    pub updated_at: i64,
}

/// The characters of an optional text.
pub open spec fn text_of(t: Option<String>) -> Option<Seq<char>> {
    match t {
        Some(s) => Some(s@),
        None => None,
    }
}

/// The characters of an optional borrowed text.
pub open spec fn str_text_of(t: Option<&str>) -> Option<Seq<char>> {
    match t {
        Some(s) => Some(s@),
        None => None,
    }
}

impl View for TranscriptionJob {
    type V = JobView;

    open spec fn view(&self) -> JobView {
        JobView {
            id: self.id,
            user_id: self.user_id,
            source_url: self.source_url@,
            status: self.status,
            priority: self.priority,
            attempts: self.attempts as int,
            max_attempts: self.max_attempts,
            worker_id: text_of(self.worker_id),
            started_at: self.started_at,
            finished_at: self.finished_at,
            last_error: text_of(self.last_error),
            transcript: text_of(self.transcript),
            transcript_format: text_of(self.transcript_format),
            duration_seconds: self.duration_seconds,
            size_bytes: self.size_bytes,
            created_at: self.created_at,
            updated_at: self.updated_at,
        }
    }
}

impl JobView {
    /// The job that enqueueing creates: it waits, nobody has tried it, and
    /// nothing of a claim or an outcome is set.
    pub open spec fn fresh(
        id: u128,
        user_id: Option<u128>,
        source_url: Seq<char>,
        priority: i32,
        now: i64,
    ) -> JobView {
        JobView {
            id,
            user_id,
            source_url,
            status: JobStatus::Enqueued,
            priority,
            attempts: 0,
            max_attempts: DEFAULT_MAX_ATTEMPTS,
            worker_id: None,
            started_at: None,
            finished_at: None,
            last_error: None,
            transcript: None,
            transcript_format: None,
            duration_seconds: None,
            size_bytes: None,
            created_at: now,
            updated_at: now,
        }
    }

    /// The job after `worker` has claimed it at `now`: it is in work, one
    /// more attempt is counted, and the claimer and the instant are recorded.
    pub open spec fn claimed(self, worker: Seq<char>, now: i64) -> JobView {
        JobView {
            status: JobStatus::Processing,
            worker_id: Some(worker),
            started_at: Some(now),
            attempts: self.attempts + 1,
            updated_at: now,
            ..self
        }
    }

    /// The job after its outcome was recorded at `now`. A success keeps the
    /// transcript and its format and clears the error; a failure keeps the
    /// error and clears the transcript and its format. The claimer stays.
    pub open spec fn finalized(
        self,
        outcome: JobStatus,
        transcript: Option<Seq<char>>,
        transcript_format: Option<Seq<char>>,
        error: Option<Seq<char>>,
        duration_seconds: Option<i32>,
        size_bytes: Option<i64>,
        now: i64,
    ) -> JobView {
        let kept = kept_with(outcome, transcript, transcript_format, error);
        JobView {
            status: outcome,
            transcript: kept.0,
            transcript_format: kept.1,
            last_error: kept.2,
            finished_at: Some(now),
            duration_seconds,
            size_bytes,
            updated_at: now,
            ..self
        }
    }

    /// What never changes of a job once it exists.
    pub open spec fn same_identity(self, other: JobView) -> bool {
        &&& self.id == other.id
        &&& self.source_url == other.source_url
        &&& self.user_id == other.user_id
        &&& self.created_at == other.created_at
        &&& self.max_attempts == other.max_attempts
    }
}

/// Which of the texts a worker reports are kept with an outcome: the
/// transcript and its format with a success, the error with a failure. The
/// result holds the transcript, the format and the error to store.
pub open spec fn kept_with(
    outcome: JobStatus,
    transcript: Option<Seq<char>>,
    transcript_format: Option<Seq<char>>,
    error: Option<Seq<char>>,
) -> (Option<Seq<char>>, Option<Seq<char>>, Option<Seq<char>>) {
    (
        if outcome == JobStatus::Succeeded {
            transcript
        } else {
            None
        },
        if outcome == JobStatus::Succeeded {
            transcript_format
        } else {
            None
        },
        if outcome == JobStatus::Failed {
            error
        } else {
            None
        },
    )
}

/// Picks what is stored with an outcome out of what the worker reported.
pub fn outcome_fields<'a>(
    outcome: JobStatus,
    transcript: Option<&'a str>,
    transcript_format: Option<&'a str>,
    error: Option<&'a str>,
) -> (kept: (Option<&'a str>, Option<&'a str>, Option<&'a str>))
    ensures
        (str_text_of(kept.0), str_text_of(kept.1), str_text_of(kept.2)) == kept_with(
            outcome,
            str_text_of(transcript),
            str_text_of(transcript_format),
            str_text_of(error),
        ),
{
    match outcome {
        JobStatus::Succeeded => (transcript, transcript_format, None),
        JobStatus::Failed => (None, None, error),
        _ => (None, None, None),
    }
}

fn clone_text(t: &Option<String>) -> (r: Option<String>)
    ensures
        text_of(r) == text_of(*t),
{
    match t {
        Some(s) => Some(s.clone()),
        None => None,
    }
}

fn own_text(t: Option<&str>) -> (r: Option<String>)
    ensures
        text_of(r) == str_text_of(t),
{
    match t {
        Some(s) => Some(s.to_owned()),
        None => None,
    }
}

impl Clone for TranscriptionJob {
    fn clone(&self) -> (r: Self)
        ensures
            r@ == self@,
    {
        TranscriptionJob {
            id: self.id,
            user_id: self.user_id,
            source_url: self.source_url.clone(),
            status: self.status,
            priority: self.priority,
            attempts: self.attempts,
            max_attempts: self.max_attempts,
            worker_id: clone_text(&self.worker_id),
            started_at: self.started_at,
            finished_at: self.finished_at,
            last_error: clone_text(&self.last_error),
            transcript: clone_text(&self.transcript),
            transcript_format: clone_text(&self.transcript_format),
            duration_seconds: self.duration_seconds,
            size_bytes: self.size_bytes,
            created_at: self.created_at,
            updated_at: self.updated_at,
        }
    }
}

impl TranscriptionJob {
    /// A new waiting job.
    pub fn new(id: u128, user_id: Option<u128>, source_url: &str, priority: i32, now: i64) -> (job:
        Self)
        ensures
            job@ == JobView::fresh(id, user_id, source_url@, priority, now),
    {
        TranscriptionJob {
            id,
            user_id,
            source_url: source_url.to_owned(),
            status: JobStatus::Enqueued,
            priority,
            attempts: 0,
            max_attempts: DEFAULT_MAX_ATTEMPTS,
            worker_id: None,
            started_at: None,
            finished_at: None,
            last_error: None,
            transcript: None,
            transcript_format: None,
            duration_seconds: None,
            size_bytes: None,
            created_at: now,
            updated_at: now,
        }
    }

    /// Hands the job to `worker`. The attempt count has to have room for one
    /// more.
    pub(crate) fn claim(&mut self, worker: &str, now: i64)
        requires
            old(self).attempts < i32::MAX,
        ensures
            final(self)@ == old(self)@.claimed(worker@, now),
    {
        self.status = JobStatus::Processing;
        self.worker_id = Some(worker.to_owned());
        self.started_at = Some(now);
        self.attempts = self.attempts + 1;
        self.updated_at = now;
    }

    /// Records the outcome of the job, which is `Succeeded` or `Failed`.
    pub(crate) fn finalize(
        &mut self,
        outcome: JobStatus,
        transcript: Option<&str>,
        transcript_format: Option<&str>,
        error: Option<&str>,
        duration_seconds: Option<i32>,
        size_bytes: Option<i64>,
        now: i64,
    )
        requires
            outcome.terminal(),
        ensures
            final(self)@ == old(self)@.finalized(
                outcome,
                str_text_of(transcript),
                str_text_of(transcript_format),
                str_text_of(error),
                duration_seconds,
                size_bytes,
                now,
            ),
    {
        let kept = outcome_fields(outcome, transcript, transcript_format, error);
        self.status = outcome;
        self.transcript = own_text(kept.0);
        self.transcript_format = own_text(kept.1);
        self.last_error = own_text(kept.2);
        self.finished_at = Some(now);
        self.duration_seconds = duration_seconds;
        self.size_bytes = size_bytes;
        self.updated_at = now;
    }
}

} // verus!
