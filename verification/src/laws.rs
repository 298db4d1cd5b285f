//! What holds of the queue whatever is done with it, stated over the tables
//! and selections that the contracts of the store speak of.

use crate::job::JobView;
use crate::queue::{
    claim_selection, lemma_claim_selection, lemma_selection_distinct,
    lemma_served_before_total_order, served_before, waiting,
};
use crate::status::JobStatus;
use crate::store::{
    after_claim, after_finalize, attempts_exhausted, claimed_batch, has_id, position_of,
    unique_ids,
};
use vstd::prelude::*;

verus! {

/// A table has grown out of an earlier one: every row of the earlier table
/// is still in its place with its identity, its status has not moved
/// backward, and its attempt count has not gone down.
pub open spec fn evolves(before: Seq<JobView>, after: Seq<JobView>) -> bool {
    &&& before.len() <= after.len()
    &&& forall|i: int|
        0 <= i < before.len() ==> {
            &&& (#[trigger] after[i]).same_identity(before[i])
            &&& before[i].status.stage() <= after[i].status.stage()
            &&& before[i].attempts <= after[i].attempts
        }
}

/// A table has grown out of itself, and growing out of composes: whatever
/// number of operations lies between two tables, the later has grown out of
/// the earlier.
pub proof fn lemma_evolves_composes(a: Seq<JobView>, b: Seq<JobView>, c: Seq<JobView>)
    ensures
        evolves(a, a),
        evolves(a, b) && evolves(b, c) ==> evolves(a, c),
{
    if evolves(a, b) && evolves(b, c) {
        assert forall|i: int| 0 <= i < a.len() implies {
            &&& (#[trigger] c[i]).same_identity(a[i])
            &&& a[i].status.stage() <= c[i].status.stage()
            &&& a[i].attempts <= c[i].attempts
        } by {
            assert(b[i].same_identity(a[i]));
            assert(c[i].same_identity(b[i]));
        }
    }
}

/// Enqueueing appends a row and leaves every other row as it was.
pub proof fn lemma_enqueue_evolves(rows: Seq<JobView>, job: JobView)
    ensures
        evolves(rows, rows.push(job)),
        forall|i: int| 0 <= i < rows.len() ==> rows.push(job)[i] == rows[i],
{
}

/// A claim moves the rows it takes from waiting to in work, counts one
/// attempt on each, and changes neither their identity nor their outcome;
/// every other row stays as it was.
pub proof fn lemma_claim_evolves(rows: Seq<JobView>, limit: int, worker: Seq<char>, now: i64)
    requires
        0 <= limit,
    ensures
        ({
            let sel = claim_selection(rows, limit);
            let after = after_claim(rows, sel, worker, now);
            &&& evolves(rows, after)
            &&& after.len() == rows.len()
            &&& forall|i: int|
                0 <= i < rows.len() && !sel.contains(i) ==> #[trigger] after[i] == rows[i]
            &&& forall|i: int|
                sel.contains(i) ==> {
                    &&& rows[i].status == JobStatus::Enqueued
                    &&& (#[trigger] after[i]).status == JobStatus::Processing
                    &&& after[i].worker_id == Some(worker)
                    &&& after[i].started_at == Some(now)
                    &&& after[i].updated_at == now
                    &&& after[i].attempts == rows[i].attempts + 1
                    &&& after[i].finished_at == rows[i].finished_at
                    &&& after[i].last_error == rows[i].last_error
                    &&& after[i].transcript == rows[i].transcript
                    &&& after[i].transcript_format == rows[i].transcript_format
                    &&& after[i].duration_seconds == rows[i].duration_seconds
                    &&& after[i].size_bytes == rows[i].size_bytes
                }
        }),
{
    lemma_claim_selection(rows, limit);
    let sel = claim_selection(rows, limit);
    let after = after_claim(rows, sel, worker, now);
    assert forall|i: int| sel.contains(i) implies 0 <= i < rows.len() && rows[i].status
        == JobStatus::Enqueued by {
        let k = choose|k: int| 0 <= k < sel.len() && sel[k] == i;
        assert(waiting(rows, sel[k]));
    }
}

/// Recording an outcome changes the one row with that id: its status is the
/// outcome, and what the claim recorded (claimer, start, attempts) stays, as
/// does its identity. Every other row stays as it was.
pub proof fn lemma_finalize_evolves(
    rows: Seq<JobView>,
    id: u128,
    outcome: JobStatus,
    transcript: Option<Seq<char>>,
    transcript_format: Option<Seq<char>>,
    error: Option<Seq<char>>,
    duration_seconds: Option<i32>,
    size_bytes: Option<i64>,
    now: i64,
)
    requires
        has_id(rows, id),
        outcome.terminal(),
    ensures
        ({
            let p = position_of(rows, id);
            let after = after_finalize(
                rows,
                id,
                outcome,
                transcript,
                transcript_format,
                error,
                duration_seconds,
                size_bytes,
                now,
            );
            &&& evolves(rows, after)
            &&& after.len() == rows.len()
            &&& forall|i: int| 0 <= i < rows.len() && i != p ==> #[trigger] after[i] == rows[i]
            &&& 0 <= p < rows.len()
            &&& rows[p].id == id
            &&& after[p].status == outcome
            &&& after[p].finished_at == Some(now)
            &&& after[p].updated_at == now
            &&& after[p].worker_id == rows[p].worker_id
            &&& after[p].started_at == rows[p].started_at
            &&& after[p].attempts == rows[p].attempts
        }),
{
}

/// No job is handed out twice. Take a claim on a table, let the table grow
/// in any way (more enqueues, claims and outcomes, by any callers in any
/// order), and take a second claim: no job of the second batch has the id of
/// a job of the first. Within one batch no id occurs twice either.
pub proof fn lemma_claims_do_not_overlap(
    first: Seq<JobView>,
    limit1: int,
    worker1: Seq<char>,
    now1: i64,
    later: Seq<JobView>,
    limit2: int,
)
    requires
        0 <= limit1,
        0 <= limit2,
        unique_ids(first),
        unique_ids(later),
        evolves(after_claim(first, claim_selection(first, limit1), worker1, now1), later),
    ensures
        ({
            let sel1 = claim_selection(first, limit1);
            let sel2 = claim_selection(later, limit2);
            &&& forall|k: int, l: int|
                0 <= k < sel1.len() && 0 <= l < sel2.len() ==> (#[trigger] first[sel1[k]]).id != (
                #[trigger] later[sel2[l]]).id
            &&& forall|k: int, l: int|
                0 <= k < l < sel1.len() ==> (#[trigger] first[sel1[k]]).id != (
                #[trigger] first[sel1[l]]).id
        }),
{
    let sel1 = claim_selection(first, limit1);
    let sel2 = claim_selection(later, limit2);
    let mid = after_claim(first, sel1, worker1, now1);
    lemma_claim_selection(first, limit1);
    lemma_claim_selection(later, limit2);
    lemma_selection_distinct(first, sel1);
    assert forall|k: int, l: int| 0 <= k < sel1.len() && 0 <= l < sel2.len() implies (
    #[trigger] first[sel1[k]]).id != (#[trigger] later[sel2[l]]).id by {
        let i = sel1[k];
        let j = sel2[l];
        assert(waiting(first, i));
        assert(waiting(later, j));
        assert(sel1.contains(i));
        assert(mid[i].status == JobStatus::Processing);
        assert(later[i].same_identity(mid[i]));
        assert(later[i].status.stage() >= 1);
        assert(i != j);
        if i < j {
            assert(later[i].id != later[j].id);
        } else {
            assert(later[j].id != later[i].id);
        }
    }
    assert forall|k: int, l: int| 0 <= k < l < sel1.len() implies (#[trigger] first[sel1[k]]).id
        != (#[trigger] first[sel1[l]]).id by {
        let i = sel1[k];
        let j = sel1[l];
        assert(waiting(first, i));
        assert(waiting(first, j));
        assert(i != j);
        if i < j {
            assert(first[i].id != first[j].id);
        } else {
            assert(first[j].id != first[i].id);
        }
    }
}

/// One call of a claim: who asks, for how many jobs, and at what instant.
pub struct ClaimCall {
    pub worker: Seq<char>,
    pub limit: int,
    pub now: i64,
}

/// The table after the first `n` of `calls` were made on `start`, one after
/// the other.
pub open spec fn table_after(start: Seq<JobView>, calls: Seq<ClaimCall>, n: int) -> Seq<JobView>
    decreases n,
{
    if n <= 0 {
        start
    } else {
        let before = table_after(start, calls, n - 1);
        after_claim(
            before,
            claim_selection(before, calls[n - 1].limit),
            calls[n - 1].worker,
            calls[n - 1].now,
        )
    }
}

/// The rows that call `n` takes.
pub open spec fn selection_of(start: Seq<JobView>, calls: Seq<ClaimCall>, n: int) -> Seq<int> {
    claim_selection(table_after(start, calls, n), calls[n].limit)
}

/// The jobs that call `n` returns.
pub open spec fn batch_of(start: Seq<JobView>, calls: Seq<ClaimCall>, n: int) -> Seq<JobView> {
    claimed_batch(
        table_after(start, calls, n),
        selection_of(start, calls, n),
        calls[n].worker,
        calls[n].now,
    )
}

/// How many jobs the first `n` calls return together.
pub open spec fn claimed_total(start: Seq<JobView>, calls: Seq<ClaimCall>, n: int) -> int
    decreases n,
{
    if n <= 0 {
        0
    } else {
        claimed_total(start, calls, n - 1) + selection_of(start, calls, n - 1).len()
    }
}

/// How many rows of a table wait.
pub open spec fn waiting_count(rows: Seq<JobView>) -> int
    decreases rows.len(),
{
    if rows.len() == 0 {
        0
    } else {
        waiting_count(rows.drop_last()) + if rows.last().status == JobStatus::Enqueued {
            1int
        } else {
            0int
        }
    }
}

/// Some waiting row of the table carries `id`.
pub open spec fn waits_with_id(rows: Seq<JobView>, id: u128) -> bool {
    exists|p: int| #[trigger] waiting(rows, p) && rows[p].id == id
}

/// Taking one waiting row out of the wait leaves one fewer waiting.
proof fn lemma_count_after_update(rows: Seq<JobView>, b: int, taken: JobView)
    requires
        waiting(rows, b),
        taken.status != JobStatus::Enqueued,
    ensures
        waiting_count(rows.update(b, taken)) == waiting_count(rows) - 1,
    decreases rows.len(),
{
    let changed = rows.update(b, taken);
    if b == rows.len() - 1 {
        assert(changed.drop_last() =~= rows.drop_last());
    } else {
        assert(changed.drop_last() =~= rows.drop_last().update(b, taken));
        assert(changed.last() == rows.last());
        lemma_count_after_update(rows.drop_last(), b, taken);
    }
}

/// A claim leaves as many fewer waiting as it takes.
proof fn lemma_count_after_claim(rows: Seq<JobView>, sel: Seq<int>, worker: Seq<char>, now: i64)
    requires
        forall|k: int| 0 <= k < sel.len() ==> waiting(rows, #[trigger] sel[k]),
        forall|k: int, l: int|
            0 <= k < sel.len() && 0 <= l < sel.len() && k != l ==> #[trigger] sel[k]
                != #[trigger] sel[l],
    ensures
        waiting_count(after_claim(rows, sel, worker, now)) + sel.len() == waiting_count(rows),
    decreases sel.len(),
{
    if sel.len() == 0 {
        assert(after_claim(rows, sel, worker, now) =~= rows);
    } else {
        let rest = sel.drop_last();
        let b = sel.last();
        assert forall|k: int| 0 <= k < rest.len() implies waiting(rows, #[trigger] rest[k]) by {
            assert(rest[k] == sel[k]);
        }
        assert forall|k: int, l: int|
            0 <= k < rest.len() && 0 <= l < rest.len() && k != l implies #[trigger] rest[k]
            != #[trigger] rest[l] by {
            assert(rest[k] == sel[k] && rest[l] == sel[l]);
        }
        lemma_count_after_claim(rows, rest, worker, now);
        let mid = after_claim(rows, rest, worker, now);
        assert(!rest.contains(b)) by {
            if rest.contains(b) {
                let m = choose|m: int| 0 <= m < rest.len() && rest[m] == b;
                assert(sel[m] == sel[sel.len() - 1]);
            }
        }
        assert(waiting(rows, sel[sel.len() - 1]));
        assert(mid[b] == rows[b]);
        let taken = rows[b].claimed(worker, now);
        assert forall|i: int| 0 <= i < rows.len() implies after_claim(rows, sel, worker, now)[i]
            == mid.update(b, taken)[i] by {
            if i == b {
                assert(sel[sel.len() - 1] == i);
            } else if sel.contains(i) {
                let m = choose|m: int| 0 <= m < sel.len() && sel[m] == i;
                assert(rest[m] == i);
            } else if rest.contains(i) {
                let m = choose|m: int| 0 <= m < rest.len() && rest[m] == i;
                assert(sel[m] == i);
            }
        }
        assert(after_claim(rows, sel, worker, now) =~= mid.update(b, taken));
        lemma_count_after_update(mid, b, taken);
    }
}

/// What holds of the table after the first `n` calls: every row keeps its
/// place and its id; a row that still waits is as it was at the start; a row
/// that one of the calls took waited at the start, waits no longer and
/// carries that call's worker; and the rows taken so far are the ones
/// missing from the wait.
proof fn lemma_run(start: Seq<JobView>, calls: Seq<ClaimCall>, n: int)
    requires
        0 <= n <= calls.len(),
        forall|i: int| 0 <= i < calls.len() ==> (#[trigger] calls[i]).limit >= 0,
    ensures
        ({
            let t = table_after(start, calls, n);
            &&& t.len() == start.len()
            &&& forall|p: int| 0 <= p < t.len() ==> (#[trigger] t[p]).id == start[p].id
            &&& forall|p: int| #[trigger] waiting(t, p) ==> t[p] == start[p]
            &&& forall|i: int, p: int|
                0 <= i < n && #[trigger] selection_of(start, calls, i).contains(p) ==> {
                    &&& waiting(start, p)
                    &&& !waiting(t, p)
                    &&& t[p].worker_id == Some(calls[i].worker)
                }
            &&& waiting_count(t) + claimed_total(start, calls, n) == waiting_count(start)
        }),
    decreases n,
{
    if n > 0 {
        lemma_run(start, calls, n - 1);
        let before = table_after(start, calls, n - 1);
        let call = calls[n - 1];
        let sel = claim_selection(before, call.limit);
        let t = table_after(start, calls, n);
        assert(sel == selection_of(start, calls, n - 1));
        assert(t == after_claim(before, sel, call.worker, call.now));
        lemma_claim_selection(before, call.limit);
        lemma_selection_distinct(before, sel);
        lemma_count_after_claim(before, sel, call.worker, call.now);
        assert forall|p: int| #[trigger] waiting(t, p) implies t[p] == start[p] by {
            assert(!sel.contains(p));
            assert(waiting(before, p));
        }
        assert forall|i: int, p: int|
            0 <= i < n && #[trigger] selection_of(start, calls, i).contains(p) implies {
            &&& waiting(start, p)
            &&& !waiting(t, p)
            &&& t[p].worker_id == Some(calls[i].worker)
        } by {
            if i < n - 1 {
                assert(!waiting(before, p));
                if sel.contains(p) {
                    let m = choose|m: int| 0 <= m < sel.len() && sel[m] == p;
                    assert(waiting(before, sel[m]));
                }
                assert(0 <= p < before.len());
                assert(t[p] == before[p]);
            } else {
                let m = choose|m: int| 0 <= m < sel.len() && sel[m] == p;
                assert(waiting(before, sel[m]));
                assert(before[p] == start[p]);
            }
        }
    }
}

/// No job is handed out twice, however many claims are made. Let any number
/// of claims be made on a table, by any workers with any limits; each claim
/// has the table to itself while it runs, so calls made at the same time
/// take effect one after the other in some order, and this holds of every
/// order. The batches of two calls share no id; no id occurs twice in one
/// batch; every job returned waited at the start; the calls together return
/// no more jobs than waited at the start; and in the end each row taken
/// carries the worker of the one call that returned it.
pub proof fn lemma_serial_claims(start: Seq<JobView>, calls: Seq<ClaimCall>)
    requires
        unique_ids(start),
        forall|i: int| 0 <= i < calls.len() ==> (#[trigger] calls[i]).limit >= 0,
    ensures
        forall|i: int, k: int, a: int, b: int|
            0 <= i < k < calls.len() && 0 <= a < batch_of(start, calls, i).len() && 0 <= b
                < batch_of(start, calls, k).len() ==> (#[trigger] batch_of(start, calls, i)[a]).id
                != (#[trigger] batch_of(start, calls, k)[b]).id,
        forall|i: int, a: int, b: int|
            0 <= i < calls.len() && 0 <= a < b < batch_of(start, calls, i).len() ==> (
            #[trigger] batch_of(start, calls, i)[a]).id != (#[trigger] batch_of(
                start,
                calls,
                i,
            )[b]).id,
        forall|i: int, a: int|
            0 <= i < calls.len() && 0 <= a < batch_of(start, calls, i).len() ==> waits_with_id(
                start,
                (#[trigger] batch_of(start, calls, i)[a]).id,
            ),
        claimed_total(start, calls, calls.len() as int) <= waiting_count(start),
        forall|i: int, a: int|
            0 <= i < calls.len() && 0 <= a < batch_of(start, calls, i).len() ==> {
                let p = selection_of(start, calls, i)[a];
                let end = table_after(start, calls, calls.len() as int);
                &&& 0 <= p < end.len()
                &&& end[p].id == (#[trigger] batch_of(start, calls, i)[a]).id
                &&& end[p].worker_id == Some(calls[i].worker)
                &&& end[p].status == JobStatus::Processing
            },
{
    let total = calls.len() as int;
    lemma_run(start, calls, total);
    lemma_count_nonnegative(table_after(start, calls, total));
    assert forall|i: int, a: int|
        0 <= i < calls.len() && 0 <= a < batch_of(start, calls, i).len() implies ({
        let p = selection_of(start, calls, i)[a];
        let end = table_after(start, calls, total);
        &&& waiting(start, p)
        &&& start[p].id == (#[trigger] batch_of(start, calls, i)[a]).id
        &&& end[p].id == start[p].id
        &&& end[p].worker_id == Some(calls[i].worker)
        &&& end[p].status == JobStatus::Processing
    }) by {
        lemma_taken_row(start, calls, i, a);
        let p = selection_of(start, calls, i)[a];
        let end = table_after(start, calls, total);
        assert(selection_of(start, calls, i).contains(p));
        lemma_stays_in_work(start, calls, i, a, total);
    }
    assert forall|i: int, k: int, a: int, b: int|
        0 <= i < k < calls.len() && 0 <= a < batch_of(start, calls, i).len() && 0 <= b < batch_of(
            start,
            calls,
            k,
        ).len() implies (#[trigger] batch_of(start, calls, i)[a]).id != (#[trigger] batch_of(
        start,
        calls,
        k,
    )[b]).id by {
        lemma_taken_row(start, calls, i, a);
        lemma_taken_row(start, calls, k, b);
        lemma_run(start, calls, k);
        let p = selection_of(start, calls, i)[a];
        let q = selection_of(start, calls, k)[b];
        assert(selection_of(start, calls, i).contains(p));
        assert(!waiting(table_after(start, calls, k), p));
        assert(p != q);
        if p < q {
            assert(start[p].id != start[q].id);
        } else {
            assert(start[q].id != start[p].id);
        }
    }
    assert forall|i: int, a: int, b: int|
        0 <= i < calls.len() && 0 <= a < b < batch_of(start, calls, i).len() implies (
    #[trigger] batch_of(start, calls, i)[a]).id != (#[trigger] batch_of(start, calls, i)[b]).id by {
        lemma_taken_row(start, calls, i, a);
        lemma_taken_row(start, calls, i, b);
        lemma_claim_selection(table_after(start, calls, i), calls[i].limit);
        lemma_selection_distinct(table_after(start, calls, i), selection_of(start, calls, i));
        let p = selection_of(start, calls, i)[a];
        let q = selection_of(start, calls, i)[b];
        assert(p != q);
        if p < q {
            assert(start[p].id != start[q].id);
        } else {
            assert(start[q].id != start[p].id);
        }
    }
    assert forall|i: int, a: int|
        0 <= i < calls.len() && 0 <= a < batch_of(start, calls, i).len() implies waits_with_id(
        start,
        (#[trigger] batch_of(start, calls, i)[a]).id,
    ) by {
        lemma_taken_row(start, calls, i, a);
        let p = selection_of(start, calls, i)[a];
        assert(waiting(start, p) && start[p].id == batch_of(start, calls, i)[a].id);
    }
}

/// The row behind entry `a` of the batch of call `i`: it waited at the
/// start, when the call was made, and the job returned carries its id.
proof fn lemma_taken_row(start: Seq<JobView>, calls: Seq<ClaimCall>, i: int, a: int)
    requires
        forall|j: int| 0 <= j < calls.len() ==> (#[trigger] calls[j]).limit >= 0,
        0 <= i < calls.len(),
        0 <= a < batch_of(start, calls, i).len(),
    ensures
        ({
            let p = selection_of(start, calls, i)[a];
            &&& 0 <= a < selection_of(start, calls, i).len()
            &&& waiting(table_after(start, calls, i), p)
            &&& waiting(start, p)
            &&& batch_of(start, calls, i)[a].id == start[p].id
        }),
{
    lemma_run(start, calls, i);
    lemma_claim_selection(table_after(start, calls, i), calls[i].limit);
    let sel = selection_of(start, calls, i);
    assert(waiting(table_after(start, calls, i), sel[a]));
}

/// A row that call `i` took is in work, under that call's worker, after
/// any later number `n` of calls.
proof fn lemma_stays_in_work(start: Seq<JobView>, calls: Seq<ClaimCall>, i: int, a: int, n: int)
    requires
        forall|j: int| 0 <= j < calls.len() ==> (#[trigger] calls[j]).limit >= 0,
        0 <= i < n <= calls.len(),
        0 <= a < selection_of(start, calls, i).len(),
    ensures
        ({
            let p = selection_of(start, calls, i)[a];
            let t = table_after(start, calls, n);
            &&& 0 <= p < t.len()
            &&& t[p].id == start[p].id
            &&& t[p].worker_id == Some(calls[i].worker)
            &&& t[p].status == JobStatus::Processing
        }),
    decreases n,
{
    let p = selection_of(start, calls, i)[a];
    lemma_run(start, calls, i);
    lemma_claim_selection(table_after(start, calls, i), calls[i].limit);
    assert(waiting(table_after(start, calls, i), selection_of(start, calls, i)[a]));
    lemma_run(start, calls, n);
    assert(selection_of(start, calls, i).contains(p));
    if n == i + 1 {
        let before = table_after(start, calls, i);
        let t = table_after(start, calls, n);
        assert(t == after_claim(before, selection_of(start, calls, i), calls[i].worker, calls[i].now));
    } else {
        lemma_stays_in_work(start, calls, i, a, n - 1);
        lemma_run(start, calls, n - 1);
        let before = table_after(start, calls, n - 1);
        let sel = claim_selection(before, calls[n - 1].limit);
        lemma_claim_selection(before, calls[n - 1].limit);
        if sel.contains(p) {
            let m = choose|m: int| 0 <= m < sel.len() && sel[m] == p;
            assert(waiting(before, sel[m]));
        }
    }
}

/// A count of rows is not negative.
proof fn lemma_count_nonnegative(rows: Seq<JobView>)
    ensures
        0 <= waiting_count(rows),
    decreases rows.len(),
{
    if rows.len() > 0 {
        lemma_count_nonnegative(rows.drop_last());
    }
}

/// A claim hands jobs out by priority, highest first, and among jobs of one
/// priority by age, oldest first. If a waiting row is served before another
/// and the claim takes the other, it takes the first too, and earlier.
pub proof fn lemma_claim_follows_order(rows: Seq<JobView>, limit: int, i: int, j: int)
    requires
        0 <= limit,
        waiting(rows, i),
        waiting(rows, j),
        served_before(rows, i, j),
        claim_selection(rows, limit).contains(j),
    ensures
        claim_selection(rows, limit).contains(i),
        claim_selection(rows, limit).index_of(i) < claim_selection(rows, limit).index_of(j),
{
    let sel = claim_selection(rows, limit);
    lemma_claim_selection(rows, limit);
    lemma_selection_distinct(rows, sel);
    let l = sel.index_of(j);
    assert(0 <= l < sel.len() && sel[l] == j);
    lemma_served_before_total_order(rows, i, j, i);
    if !sel.contains(i) {
        assert(served_before(rows, sel[l], i));
    } else {
        let k = sel.index_of(i);
        assert(0 <= k < sel.len() && sel[k] == i);
        if l < k {
            assert(served_before(rows, sel[l], sel[k]));
        }
    }
}

/// First in, first out among equals: of two waiting jobs with the same
/// priority, the one enqueued at the earlier instant is handed out first. A
/// claim that takes the later one has taken the earlier one before it, so a
/// claim of a single job never returns the later one.
pub proof fn lemma_fifo_tie_break(rows: Seq<JobView>, limit: int, i: int, j: int)
    requires
        0 <= limit,
        waiting(rows, i),
        waiting(rows, j),
        rows[i].priority == rows[j].priority,
        rows[i].created_at < rows[j].created_at,
    ensures
        claim_selection(rows, limit).contains(j) ==> claim_selection(rows, limit).contains(i)
            && claim_selection(rows, limit).index_of(i) < claim_selection(rows, limit).index_of(
            j,
        ),
        limit == 1 ==> !claim_selection(rows, limit).contains(j),
{
    let sel = claim_selection(rows, limit);
    lemma_claim_selection(rows, limit);
    if sel.contains(j) {
        lemma_claim_follows_order(rows, limit, i, j);
        let k = sel.index_of(i);
        let l = sel.index_of(j);
        assert(0 <= k < sel.len() && 0 <= l < sel.len());
    }
}

/// The higher priority always wins: of two waiting jobs, a claim that takes
/// the one of lower priority has taken the other before it.
pub proof fn lemma_priority_wins(rows: Seq<JobView>, limit: int, i: int, j: int)
    requires
        0 <= limit,
        waiting(rows, i),
        waiting(rows, j),
        rows[i].priority > rows[j].priority,
    ensures
        claim_selection(rows, limit).contains(j) ==> claim_selection(rows, limit).contains(i)
            && claim_selection(rows, limit).index_of(i) < claim_selection(rows, limit).index_of(
            j,
        ),
{
    if claim_selection(rows, limit).contains(j) {
        lemma_claim_follows_order(rows, limit, i, j);
    }
}

/// Every claim counts exactly one attempt on each job it takes: the job
/// returned carries one attempt more than the row had, and so does the row
/// afterwards.
pub proof fn lemma_attempts_count_claims(
    rows: Seq<JobView>,
    limit: int,
    worker: Seq<char>,
    now: i64,
)
    requires
        0 <= limit,
    ensures
        ({
            let sel = claim_selection(rows, limit);
            let batch = claimed_batch(rows, sel, worker, now);
            let after = after_claim(rows, sel, worker, now);
            &&& batch.len() == sel.len()
            &&& forall|k: int|
                0 <= k < sel.len() ==> {
                    &&& (#[trigger] batch[k]).attempts == rows[sel[k]].attempts + 1
                    &&& batch[k] == after[sel[k]]
                }
        }),
{
    lemma_claim_selection(rows, limit);
    let sel = claim_selection(rows, limit);
    let batch = claimed_batch(rows, sel, worker, now);
    let after = after_claim(rows, sel, worker, now);
    assert forall|k: int| 0 <= k < sel.len() implies {
        &&& (#[trigger] batch[k]).attempts == rows[sel[k]].attempts + 1
        &&& batch[k] == after[sel[k]]
    } by {
        assert(waiting(rows, sel[k]));
        assert(sel.contains(sel[k]));
    }
}

/// A new job has no attempt, has one after its first claim, and, if
/// something outside the queue puts it back with its count, two after its
/// second.
pub proof fn lemma_second_claim_counts_two(
    job: JobView,
    worker1: Seq<char>,
    now1: i64,
    put_back: JobView,
    worker2: Seq<char>,
    now2: i64,
)
    requires
        job.attempts == 0,
        put_back.attempts == job.claimed(worker1, now1).attempts,
    ensures
        job.claimed(worker1, now1).attempts == 1,
        put_back.claimed(worker2, now2).attempts == 2,
{
}

/// A recorded success carries the transcript and its format and no error; a
/// recorded failure carries the error and neither transcript nor format.
/// Recording the same outcome again changes nothing.
pub proof fn lemma_finalize_fields(
    job: JobView,
    transcript: Option<Seq<char>>,
    transcript_format: Option<Seq<char>>,
    error: Option<Seq<char>>,
    duration_seconds: Option<i32>,
    size_bytes: Option<i64>,
    now: i64,
)
    ensures
        ({
            let done = job.finalized(
                JobStatus::Succeeded,
                transcript,
                transcript_format,
                error,
                duration_seconds,
                size_bytes,
                now,
            );
            &&& done.status == JobStatus::Succeeded
            &&& done.transcript == transcript
            &&& done.transcript_format == transcript_format
            &&& done.last_error is None
            &&& done.finished_at == Some(now)
            &&& done.finalized(
                JobStatus::Succeeded,
                transcript,
                transcript_format,
                error,
                duration_seconds,
                size_bytes,
                now,
            ) == done
        }),
        ({
            let done = job.finalized(
                JobStatus::Failed,
                transcript,
                transcript_format,
                error,
                duration_seconds,
                size_bytes,
                now,
            );
            &&& done.status == JobStatus::Failed
            &&& done.last_error == error
            &&& done.transcript is None
            &&& done.transcript_format is None
            &&& done.finished_at == Some(now)
            &&& done.finalized(
                JobStatus::Failed,
                transcript,
                transcript_format,
                error,
                duration_seconds,
                size_bytes,
                now,
            ) == done
        }),
{
}

/// Recording an outcome twice with the same arguments leaves the table as
/// the first recording left it.
pub proof fn lemma_finalize_twice(
    rows: Seq<JobView>,
    id: u128,
    outcome: JobStatus,
    transcript: Option<Seq<char>>,
    transcript_format: Option<Seq<char>>,
    error: Option<Seq<char>>,
    duration_seconds: Option<i32>,
    size_bytes: Option<i64>,
    now: i64,
)
    requires
        unique_ids(rows),
        has_id(rows, id),
    ensures
        ({
            let once = after_finalize(
                rows,
                id,
                outcome,
                transcript,
                transcript_format,
                error,
                duration_seconds,
                size_bytes,
                now,
            );
            after_finalize(
                once,
                id,
                outcome,
                transcript,
                transcript_format,
                error,
                duration_seconds,
                size_bytes,
                now,
            ) == once
        }),
{
    let once = after_finalize(
        rows,
        id,
        outcome,
        transcript,
        transcript_format,
        error,
        duration_seconds,
        size_bytes,
        now,
    );
    let p = position_of(rows, id);
    assert(once[p].id == id);
    let q = position_of(once, id);
    assert(0 <= q < once.len() && once[q].id == id);
    assert(rows[q].id == id);
    if p < q {
        assert(rows[p].id != rows[q].id);
    } else if q < p {
        assert(rows[q].id != rows[p].id);
    }
    let twice = after_finalize(
        once,
        id,
        outcome,
        transcript,
        transcript_format,
        error,
        duration_seconds,
        size_bytes,
        now,
    );
    assert(twice =~= once);
}

/// Where no job waits, a claim takes nothing: the selection is empty, the
/// batch is empty, the table stays as it is, and no attempt count stands in
/// the way, so the claim succeeds with an empty list.
pub proof fn lemma_empty_queue(rows: Seq<JobView>, limit: int, worker: Seq<char>, now: i64)
    requires
        0 <= limit,
        forall|i: int| !#[trigger] waiting(rows, i),
    ensures
        claim_selection(rows, limit).len() == 0,
        claimed_batch(rows, claim_selection(rows, limit), worker, now).len() == 0,
        after_claim(rows, claim_selection(rows, limit), worker, now) == rows,
        !attempts_exhausted(rows, claim_selection(rows, limit)),
{
    lemma_claim_selection(rows, limit);
    let sel = claim_selection(rows, limit);
    if sel.len() > 0 {
        assert(waiting(rows, sel[0]));
    }
    assert(after_claim(rows, sel, worker, now) =~= rows);
}

/// A claim takes as many jobs as it may: `limit` of them, or every waiting
/// job where fewer wait.
pub proof fn lemma_claim_takes_all_it_may(rows: Seq<JobView>, limit: int)
    requires
        0 <= limit,
    ensures
        claim_selection(rows, limit).len() <= limit,
        claim_selection(rows, limit).len() < limit ==> forall|j: int| #[trigger]
            waiting(rows, j) ==> claim_selection(rows, limit).contains(j),
        forall|k: int|
            0 <= k < claim_selection(rows, limit).len() ==> waiting(
                rows,
                #[trigger] claim_selection(rows, limit)[k],
            ),
{
    lemma_claim_selection(rows, limit);
}

} // verus!
