//! The table of jobs and the operations on it: enqueue, claim, get, finalize.

use crate::clock::{is_random_uuid, now_micros, random_job_id};
use crate::error::StoreError;
use crate::job::{str_text_of, JobView, TranscriptionJob};
use crate::queue::{
    claim_selection, in_claim_order, is_claim_selection, lemma_selection_distinct,
    lemma_selection_extends, lemma_selection_unique, next_in_line, served_before, waiting,
};
use crate::status::JobStatus;
use vstd::prelude::*;

verus! {

/// The jobs of a list as mathematical values, in the same order.
pub open spec fn job_views(jobs: Seq<TranscriptionJob>) -> Seq<JobView> {
    Seq::new(jobs.len(), |i: int| jobs[i]@)
}

/// No two rows carry the same id.
pub open spec fn unique_ids(rows: Seq<JobView>) -> bool {
    forall|i: int, j: int| 0 <= i < j < rows.len() ==> rows[i].id != rows[j].id
}

/// Some row carries `id`.
pub open spec fn has_id(rows: Seq<JobView>, id: u128) -> bool {
    exists|i: int| 0 <= i < rows.len() && #[trigger] rows[i].id == id
}

/// The position of the row that carries `id`, where there is one.
pub open spec fn position_of(rows: Seq<JobView>, id: u128) -> int {
    choose|i: int| 0 <= i < rows.len() && #[trigger] rows[i].id == id
}

/// The table after `worker` has claimed the rows listed in `sel` at `now`.
pub open spec fn after_claim(rows: Seq<JobView>, sel: Seq<int>, worker: Seq<char>, now: i64) -> Seq<
    JobView,
> {
    Seq::new(
        rows.len(),
        |i: int|
            if sel.contains(i) {
                rows[i].claimed(worker, now)
            } else {
                rows[i]
            },
    )
}

/// What a claim of the rows listed in `sel` returns: each row as it stands
/// after the claim, in the order of `sel`.
pub open spec fn claimed_batch(
    rows: Seq<JobView>,
    sel: Seq<int>,
    worker: Seq<char>,
    now: i64,
) -> Seq<JobView> {
    Seq::new(sel.len(), |k: int| rows[sel[k]].claimed(worker, now))
}

/// The table after the outcome of the job `id` was recorded at `now`.
pub open spec fn after_finalize(
    rows: Seq<JobView>,
    id: u128,
    outcome: JobStatus,
    transcript: Option<Seq<char>>,
    transcript_format: Option<Seq<char>>,
    error: Option<Seq<char>>,
    duration_seconds: Option<i32>,
    size_bytes: Option<i64>,
    now: i64,
) -> Seq<JobView> {
    let i = position_of(rows, id);
    rows.update(
        i,
        rows[i].finalized(
            outcome,
            transcript,
            transcript_format,
            error,
            duration_seconds,
            size_bytes,
            now,
        ),
    )
}

/// A list of positions in a table as mathematical integers.
pub open spec fn positions(sel: Seq<usize>) -> Seq<int> {
    Seq::new(sel.len(), |k: int| sel[k] as int)
}

/// One of the rows listed in `sel` has no room for another attempt.
pub open spec fn attempts_exhausted(rows: Seq<JobView>, sel: Seq<int>) -> bool {
    exists|k: int| 0 <= k < sel.len() && (#[trigger] rows[sel[k]]).attempts >= i32::MAX
}

/// A job is enqueued only with a positive priority.
pub fn check_priority(priority: i32) -> (r: Result<(), StoreError>)
    ensures
        r == if priority > 0 {
            Ok::<(), StoreError>(())
        } else {
            Err::<(), StoreError>(StoreError::InvalidArgument)
        },
{
    if priority > 0 {
        Ok(())
    } else {
        Err(StoreError::InvalidArgument)
    }
}

/// A claim asks for one job at least.
pub fn check_limit(limit: i64) -> (r: Result<(), StoreError>)
    ensures
        r == if limit > 0 {
            Ok::<(), StoreError>(())
        } else {
            Err::<(), StoreError>(StoreError::InvalidArgument)
        },
{
    if limit > 0 {
        Ok(())
    } else {
        Err(StoreError::InvalidArgument)
    }
}

/// The table of jobs. Rows are kept in the order in which they were
/// inserted and are never removed.
pub struct JobStore {
    rows: Vec<TranscriptionJob>,
}

impl View for JobStore {
    type V = Seq<JobView>;

    closed spec fn view(&self) -> Seq<JobView> {
        job_views(self.rows@)
    }
}

impl JobStore {
    /// Every job is found by its id.
    pub open spec fn wf(&self) -> bool {
        unique_ids(self@)
    }

    /// An empty table.
    pub fn new() -> (store: JobStore)
        ensures
            store.wf(),
            store@ == Seq::<JobView>::empty(),
    {
        JobStore { rows: Vec::new() }
    }

    /// The number of jobs, whatever their state.
    pub fn len(&self) -> (n: usize)
        ensures
            n == self@.len(),
    {
        self.rows.len()
    }

    fn find(&self, id: u128) -> (r: Option<usize>)
        requires
            self.wf(),
        ensures
            match r {
                Some(i) => i < self@.len() && self@[i as int].id == id && i == position_of(
                    self@,
                    id,
                ),
                None => !has_id(self@, id),
            },
    {
        let mut i: usize = 0;
        while i < self.rows.len()
            invariant
                self.wf(),
                i <= self.rows.len(),
                forall|j: int| 0 <= j < i ==> (#[trigger] self@[j]).id != id,
            decreases self.rows.len() - i,
        {
            if self.rows[i].id == id {
                proof {
                    let p = position_of(self@, id);
                    assert(self@[i as int].id == id);
                    assert(0 <= p < self@.len() && self@[p].id == id);
                    assert(p == i);
                }
                return Some(i);
            }
            i = i + 1;
        }
        None
    }

    /// Inserts a waiting job under the id and the instant given. A priority
    /// has to be positive, and the id must not be in use.
    pub fn enqueue_transcription_at(
        &mut self,
        id: u128,
        now: i64,
        user_id: Option<u128>,
        source_url: &str,
        priority: i32,
    ) -> (r: Result<u128, StoreError>)
        requires
            old(self).wf(),
        ensures
            final(self).wf(),
            match r {
                Ok(given) => {
                    &&& given == id
                    &&& priority > 0
                    &&& !has_id(old(self)@, id)
                    &&& final(self)@ == old(self)@.push(
                        JobView::fresh(id, user_id, source_url@, priority, now),
                    )
                },
                Err(e) => {
                    &&& final(self)@ == old(self)@
                    &&& priority <= 0 ==> e == StoreError::InvalidArgument
                    &&& priority > 0 ==> has_id(old(self)@, id) && e == StoreError::StoreUnavailable
                },
            },
    {
        if let Err(e) = check_priority(priority) {
            return Err(e);
        }
        if self.find(id).is_some() {
            return Err(StoreError::StoreUnavailable);
        }
        let job = TranscriptionJob::new(id, user_id, source_url, priority, now);
        self.rows.push(job);
        assert(self@ =~= old(self)@.push(JobView::fresh(id, user_id, source_url@, priority, now)));
        Ok(id)
    }

    /// The waiting row outside `taken` that is served before all the others,
    /// if any row waits outside `taken`.
    fn head(&self, taken: &Vec<bool>) -> (r: Option<usize>)
        requires
            taken.len() == self@.len(),
        ensures
            match r {
                Some(b) => {
                    &&& waiting(self@, b as int)
                    &&& !taken[b as int]
                    &&& forall|j: int|
                        #[trigger] waiting(self@, j) && !taken[j] && j != b ==> served_before(
                            self@,
                            b as int,
                            j,
                        )
                },
                None => forall|j: int| #[trigger] waiting(self@, j) ==> taken[j],
            },
    {
        let n = self.rows.len();
        let mut best: Option<usize> = None;
        let mut i: usize = 0;
        while i < n
            invariant
                n == self.rows.len(),
                taken.len() == n,
                i <= n,
                match best {
                    Some(b) => {
                        &&& b < i
                        &&& waiting(self@, b as int)
                        &&& !taken[b as int]
                        &&& forall|j: int|
                            0 <= j < i && #[trigger] waiting(self@, j) && !taken[j] && j != b
                                ==> served_before(self@, b as int, j)
                    },
                    None => forall|j: int| 0 <= j < i && #[trigger] waiting(self@, j) ==> taken[j],
                },
            decreases n - i,
        {
            if !taken[i] && self.rows[i].status == JobStatus::Enqueued {
                assert(waiting(self@, i as int));
                match best {
                    Some(b) => {
                        let ahead = self.rows[i].priority > self.rows[b].priority || (
                        self.rows[i].priority == self.rows[b].priority && self.rows[i].created_at
                            < self.rows[b].created_at);
                        assert(ahead == served_before(self@, i as int, b as int));
                        if ahead {
                            best = Some(i);
                        }
                    },
                    None => {
                        best = Some(i);
                    },
                }
            }
            i = i + 1;
        }
        best
    }

    /// The rows that a claim of at most `limit` jobs takes, in claim order.
    fn select(&self, limit: i64) -> (sel: Vec<usize>)
        requires
            limit > 0,
        ensures
            positions(sel@) == claim_selection(self@, limit as int),
            is_claim_selection(self@, limit as int, positions(sel@)),
    {
        let n = self.rows.len();
        let mut taken: Vec<bool> = Vec::new();
        let mut i: usize = 0;
        while i < n
            invariant
                i <= n,
                taken.len() == i,
                forall|j: int| 0 <= j < i ==> !taken[j],
            decreases n - i,
        {
            taken.push(false);
            i = i + 1;
        }
        let mut sel: Vec<usize> = Vec::new();
        assert(positions(sel@) =~= Seq::<int>::empty());
        loop
            invariant
                n == self.rows.len(),
                taken.len() == n,
                limit > 0,
                sel.len() <= limit,
                in_claim_order(self@, positions(sel@)),
                forall|j: int| 0 <= j < n ==> (taken[j] <==> positions(sel@).contains(j)),
            ensures
                is_claim_selection(self@, limit as int, positions(sel@)),
            decreases limit - sel.len(),
        {
            if sel.len() as u64 >= limit as u64 {
                break ;
            }
            match self.head(&taken) {
                None => {
                    break ;
                },
                Some(b) => {
                    let ghost before = positions(sel@);
                    proof {
                        assert(next_in_line(self@, before, b as int));
                        lemma_selection_extends(self@, before, b as int);
                    }
                    taken.set(b, true);
                    sel.push(b);
                    proof {
                        let after = positions(sel@);
                        assert(after =~= before.push(b as int));
                        assert forall|j: int| 0 <= j < n implies (taken[j] <==> after.contains(
                            j,
                        )) by {
                            if j == b {
                                assert(after[before.len() as int] == j);
                            } else if before.contains(j) {
                                let m = choose|m: int| 0 <= m < before.len() && before[m] == j;
                                assert(after[m] == j);
                            }
                        }
                    }
                },
            }
        }
        proof {
            lemma_selection_unique(
                self@,
                limit as int,
                positions(sel@),
                claim_selection(self@, limit as int),
            );
        }
        sel
    }

    /// Hands out up to `limit` waiting jobs to `worker_id` at the instant
    /// `now`: highest priority first, oldest first among equals. The jobs
    /// come back as they stand after the claim. A claim is all or nothing:
    /// if it fails, the table is as it was.
    pub fn claim_transcription_jobs_at(&mut self, worker_id: &str, limit: i64, now: i64) -> (r:
        Result<Vec<TranscriptionJob>, StoreError>)
        requires
            old(self).wf(),
        ensures
            final(self).wf(),
            match r {
                Ok(jobs) => {
                    let sel = claim_selection(old(self)@, limit as int);
                    &&& limit > 0
                    &&& !attempts_exhausted(old(self)@, sel)
                    &&& job_views(jobs@) == claimed_batch(old(self)@, sel, worker_id@, now)
                    &&& final(self)@ == after_claim(old(self)@, sel, worker_id@, now)
                },
                Err(e) => {
                    &&& final(self)@ == old(self)@
                    &&& limit <= 0 ==> e == StoreError::InvalidArgument
                    &&& limit > 0 ==> e == StoreError::StoreCorruption && attempts_exhausted(
                        old(self)@,
                        claim_selection(old(self)@, limit as int),
                    )
                },
            },
    {
        if let Err(e) = check_limit(limit) {
            return Err(e);
        }
        let sel = self.select(limit);
        let ghost rows = self@;
        let ghost picked = positions(sel@);
        let mut k: usize = 0;
        while k < sel.len()
            invariant
                k <= sel.len(),
                self.wf(),
                limit > 0,
                rows == self@,
                rows == old(self)@,
                picked == positions(sel@),
                picked == claim_selection(rows, limit as int),
                in_claim_order(rows, picked),
                forall|m: int| 0 <= m < k ==> (#[trigger] rows[picked[m]]).attempts < i32::MAX,
            decreases sel.len() - k,
        {
            assert(waiting(rows, picked[k as int]));
            if self.rows[sel[k]].attempts == i32::MAX {
                assert(rows[picked[k as int]].attempts >= i32::MAX);
                return Err(StoreError::StoreCorruption);
            }
            k = k + 1;
        }
        let mut jobs: Vec<TranscriptionJob> = Vec::new();
        let mut k: usize = 0;
        proof {
            lemma_selection_distinct(rows, picked);
            assert(self@ =~= after_claim(rows, picked.take(0), worker_id@, now));
            assert(job_views(jobs@) =~= claimed_batch(rows, picked.take(0), worker_id@, now));
        }
        while k < sel.len()
            invariant
                k <= sel.len(),
                picked == positions(sel@),
                in_claim_order(rows, picked),
                rows.len() == self.rows.len(),
                forall|m: int, l: int|
                    0 <= m < picked.len() && 0 <= l < picked.len() && m != l
                        ==> #[trigger] picked[m] != #[trigger] picked[l],
                forall|m: int| 0 <= m < picked.len() ==> (#[trigger] rows[picked[m]]).attempts < i32::MAX,
                jobs.len() == k,
                self@ == after_claim(rows, picked.take(k as int), worker_id@, now),
                job_views(jobs@) == claimed_batch(rows, picked.take(k as int), worker_id@, now),
            decreases sel.len() - k,
        {
            let i = sel[k];
            let ghost mid = self@;
            proof {
                assert(picked[k as int] == i);
                assert(waiting(rows, i as int));
                assert(!picked.take(k as int).contains(i as int));
                assert(mid[i as int] == rows[i as int]);
            }
            let ghost handed = job_views(jobs@);
            self.rows[i].claim(worker_id, now);
            let job = self.rows[i].clone();
            jobs.push(job);
            proof {
                let done = picked.take(k as int);
                let more = picked.take(k as int + 1);
                assert(more =~= done.push(i as int));
                assert forall|m: int| 0 <= m < more.len() implies job_views(jobs@)[m]
                    == claimed_batch(rows, more, worker_id@, now)[m] by {
                    if m < k {
                        assert(job_views(jobs@)[m] == handed[m]);
                        assert(more[m] == done[m]);
                    }
                }
                assert forall|j: int| 0 <= j < rows.len() implies self@[j] == after_claim(
                    rows,
                    more,
                    worker_id@,
                    now,
                )[j] by {
                    if j == i {
                        assert(more[k as int] == j);
                    } else {
                        assert(self@[j] == mid[j]);
                        if done.contains(j) {
                            let m = choose|m: int| 0 <= m < done.len() && done[m] == j;
                            assert(more[m] == j);
                        }
                    }
                }
                assert(self@ =~= after_claim(rows, more, worker_id@, now));
                assert(job_views(jobs@) =~= claimed_batch(rows, more, worker_id@, now));
            }
            k = k + 1;
        }
        proof {
            assert(picked.take(sel.len() as int) =~= picked);
            assert(unique_ids(self@)) by {
                assert forall|a: int, b: int| 0 <= a < b < self@.len() implies self@[a].id
                    != self@[b].id by {
                    assert(rows[a].id != rows[b].id);
                }
            }
        }
        Ok(jobs)
    }

    /// Records the outcome of a job at the instant `now`. `status` is
    /// `succeeded` or `failed`; the job may be in any state. A success
    /// stores the transcript and its format, a failure the error; what
    /// belongs to the other outcome is cleared.
    pub fn finalize_transcription_job_at(
        &mut self,
        job_id: u128,
        status: &str,
        transcript: Option<&str>,
        transcript_format: Option<&str>,
        last_error: Option<&str>,
        duration_seconds: Option<i32>,
        size_bytes: Option<i64>,
        now: i64,
    ) -> (r: Result<(), StoreError>)
        requires
            old(self).wf(),
        ensures
            final(self).wf(),
            match r {
                Ok(_) => {
                    &&& JobStatus::named_outcome(status@) is Some
                    &&& has_id(old(self)@, job_id)
                    &&& final(self)@ == after_finalize(
                        old(self)@,
                        job_id,
                        JobStatus::named_outcome(status@).unwrap(),
                        str_text_of(transcript),
                        str_text_of(transcript_format),
                        str_text_of(last_error),
                        duration_seconds,
                        size_bytes,
                        now,
                    )
                },
                Err(e) => {
                    &&& final(self)@ == old(self)@
                    &&& JobStatus::named_outcome(status@) is None ==> e
                        == StoreError::InvalidArgument
                    &&& JobStatus::named_outcome(status@) is Some ==> e == StoreError::NotFound
                        && !has_id(old(self)@, job_id)
                },
            },
    {
        let outcome = match JobStatus::parse_outcome(status) {
            Some(outcome) => outcome,
            None => {
                return Err(StoreError::InvalidArgument);
            },
        };
        let i = match self.find(job_id) {
            Some(i) => i,
            None => {
                return Err(StoreError::NotFound);
            },
        };
        self.rows[i].finalize(
            outcome,
            transcript,
            transcript_format,
            last_error,
            duration_seconds,
            size_bytes,
            now,
        );
        proof {
            assert(self@ =~= after_finalize(
                old(self)@,
                job_id,
                outcome,
                str_text_of(transcript),
                str_text_of(transcript_format),
                str_text_of(last_error),
                duration_seconds,
                size_bytes,
                now,
            ));
            assert forall|a: int, b: int| 0 <= a < b < self@.len() implies self@[a].id
                != self@[b].id by {
                assert(old(self)@[a].id != old(self)@[b].id);
            }
        }
        Ok(())
    }

    /// Enqueues a job for `source_url` under a freshly drawn random id and
    /// stamps it with the present instant. The priority has to be positive;
    /// the address is stored as it is given and is not looked at. The call
    /// fails for a positive priority only when the id drawn is in use
    /// already, which takes a random id in the table: then nothing is
    /// inserted and the call may be made again.
    pub fn enqueue_transcription(
        &mut self,
        user_id: Option<u128>,
        source_url: &str,
        priority: i32,
    ) -> (r: Result<u128, StoreError>)
        requires
            old(self).wf(),
        ensures
            final(self).wf(),
            match r {
                Ok(id) => {
                    &&& priority > 0
                    &&& is_random_uuid(id)
                    &&& !has_id(old(self)@, id)
                    &&& exists|now: i64|
                        final(self)@ == old(self)@.push(
                            #[trigger] JobView::fresh(id, user_id, source_url@, priority, now),
                        )
                },
                Err(e) => {
                    &&& final(self)@ == old(self)@
                    &&& priority <= 0 ==> e == StoreError::InvalidArgument
                    &&& priority > 0 ==> e == StoreError::StoreUnavailable && exists|id: u128|
                        is_random_uuid(id) && #[trigger] has_id(old(self)@, id)
                },
            },
            priority <= 0 ==> r is Err,
            priority > 0 && (forall|id: u128|
                is_random_uuid(id) ==> !#[trigger] has_id(old(self)@, id)) ==> r is Ok,
    {
        if let Err(e) = check_priority(priority) {
            return Err(e);
        }
        let id = random_job_id();
        let now = now_micros();
        self.enqueue_transcription_at(id, now, user_id, source_url, priority)
    }

    /// Hands out up to `limit` waiting jobs to `worker_id`, stamped with the
    /// present instant; see `claim_transcription_jobs_at`.
    pub fn claim_transcription_jobs(&mut self, worker_id: &str, limit: i64) -> (r: Result<
        Vec<TranscriptionJob>,
        StoreError,
    >)
        requires
            old(self).wf(),
        ensures
            final(self).wf(),
            match r {
                Ok(jobs) => {
                    let sel = claim_selection(old(self)@, limit as int);
                    &&& limit > 0
                    &&& !attempts_exhausted(old(self)@, sel)
                    &&& exists|now: i64|
                        {
                            &&& job_views(jobs@) == #[trigger] claimed_batch(
                                old(self)@,
                                sel,
                                worker_id@,
                                now,
                            )
                            &&& final(self)@ == after_claim(old(self)@, sel, worker_id@, now)
                        }
                },
                Err(e) => {
                    &&& final(self)@ == old(self)@
                    &&& limit <= 0 ==> e == StoreError::InvalidArgument
                    &&& limit > 0 ==> e == StoreError::StoreCorruption && attempts_exhausted(
                        old(self)@,
                        claim_selection(old(self)@, limit as int),
                    )
                },
            },
    {
        let now = now_micros();
        self.claim_transcription_jobs_at(worker_id, limit, now)
    }

    /// Records the outcome of a job, stamped with the present instant; see
    /// `finalize_transcription_job_at`.
    pub fn finalize_transcription_job(
        &mut self,
        job_id: u128,
        status: &str,
        transcript: Option<&str>,
        transcript_format: Option<&str>,
        last_error: Option<&str>,
        duration_seconds: Option<i32>,
        size_bytes: Option<i64>,
    ) -> (r: Result<(), StoreError>)
        requires
            old(self).wf(),
        ensures
            final(self).wf(),
            match r {
                Ok(_) => {
                    &&& JobStatus::named_outcome(status@) is Some
                    &&& has_id(old(self)@, job_id)
                    &&& exists|now: i64|
                        final(self)@ == #[trigger] after_finalize(
                            old(self)@,
                            job_id,
                            JobStatus::named_outcome(status@).unwrap(),
                            str_text_of(transcript),
                            str_text_of(transcript_format),
                            str_text_of(last_error),
                            duration_seconds,
                            size_bytes,
                            now,
                        )
                },
                Err(e) => {
                    &&& final(self)@ == old(self)@
                    &&& JobStatus::named_outcome(status@) is None ==> e
                        == StoreError::InvalidArgument
                    &&& JobStatus::named_outcome(status@) is Some ==> e == StoreError::NotFound
                        && !has_id(old(self)@, job_id)
                },
            },
    {
        let now = now_micros();
        self.finalize_transcription_job_at(
            job_id,
            status,
            transcript,
            transcript_format,
            last_error,
            duration_seconds,
            size_bytes,
            now,
        )
    }

    /// Takes over a table of rows, such as one read back from durable
    /// storage. It is refused when two rows carry the same id.
    pub fn from_rows(rows: Vec<TranscriptionJob>) -> (r: Result<JobStore, StoreError>)
        ensures
            match r {
                Ok(store) => store.wf() && store@ == job_views(rows@),
                Err(e) => e == StoreError::StoreCorruption && !unique_ids(job_views(rows@)),
            },
    {
        let n = rows.len();
        let mut j: usize = 0;
        while j < n
            invariant
                n == rows.len(),
                j <= n,
                forall|a: int, b: int|
                    0 <= a < b < j ==> (#[trigger] rows[a]).id != (#[trigger] rows[b]).id,
            decreases n - j,
        {
            let mut i: usize = 0;
            while i < j
                invariant
                    n == rows.len(),
                    j < n,
                    i <= j,
                    forall|a: int| 0 <= a < i ==> (#[trigger] rows[a]).id != rows[j as int].id,
                decreases j - i,
            {
                if rows[i].id == rows[j].id {
                    proof {
                        let views = job_views(rows@);
                        assert(views[i as int].id == views[j as int].id);
                    }
                    return Err(StoreError::StoreCorruption);
                }
                i = i + 1;
            }
            j = j + 1;
        }
        let store = JobStore { rows };
        assert(unique_ids(store@)) by {
            assert forall|a: int, b: int| 0 <= a < b < store@.len() implies store@[a].id
                != store@[b].id by {
                assert(rows[a].id != rows[b].id);
            }
        }
        Ok(store)
    }

    /// Gives the rows up, in the order in which they were inserted.
    pub fn into_rows(self) -> (rows: Vec<TranscriptionJob>)
        ensures
            job_views(rows@) == self@,
    {
        self.rows
    }

    /// Looks a job up by its id. Nothing is changed.
    pub fn get_transcription_job(&self, job_id: u128) -> (r: Option<TranscriptionJob>)
        requires
            self.wf(),
        ensures
            match r {
                Some(job) => has_id(self@, job_id) && job@ == self@[position_of(self@, job_id)],
                None => !has_id(self@, job_id),
            },
    {
        match self.find(job_id) {
            Some(i) => Some(self.rows[i].clone()),
            None => None,
        }
    }
}

} // verus!
