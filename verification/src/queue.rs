//! The order in which waiting jobs are handed out, stated over the table
//! of jobs: which rows a claim takes and in what order.

use crate::job::JobView;
use crate::status::JobStatus;
use vstd::prelude::*;

verus! {

/// Row `i` exists and waits to be claimed.
pub open spec fn waiting(rows: Seq<JobView>, i: int) -> bool {
    0 <= i < rows.len() && rows[i].status == JobStatus::Enqueued
}

/// Row `i` is handed out before row `j`: the higher priority goes first,
/// among equal priorities the older job, and among jobs of one instant the
/// one that was inserted first.
pub open spec fn served_before(rows: Seq<JobView>, i: int, j: int) -> bool {
    ||| rows[i].priority > rows[j].priority
    ||| rows[i].priority == rows[j].priority && rows[i].created_at < rows[j].created_at
    ||| rows[i].priority == rows[j].priority && rows[i].created_at == rows[j].created_at && i < j
}

/// `sel` lists waiting rows in the order in which they are handed out, and
/// every waiting row that it leaves out comes after all of them.
pub open spec fn in_claim_order(rows: Seq<JobView>, sel: Seq<int>) -> bool {
    &&& forall|k: int| 0 <= k < sel.len() ==> waiting(rows, #[trigger] sel[k])
    &&& forall|k: int, l: int|
        0 <= k < l < sel.len() ==> served_before(rows, #[trigger] sel[k], #[trigger] sel[l])
    &&& forall|k: int, j: int|
        0 <= k < sel.len() && waiting(rows, j) && !sel.contains(j) ==> #[trigger] served_before(
            rows,
            sel[k],
            j,
        )
}

/// `sel` is what a claim of at most `limit` jobs takes from `rows`: the
/// first `limit` waiting rows in claim order, or all of them if there are
/// fewer.
pub open spec fn is_claim_selection(rows: Seq<JobView>, limit: int, sel: Seq<int>) -> bool {
    &&& in_claim_order(rows, sel)
    &&& sel.len() <= limit
    &&& sel.len() < limit ==> forall|j: int| #[trigger] waiting(rows, j) ==> sel.contains(j)
}

/// The rows that a claim of at most `limit` jobs takes, in the order in which
/// it returns them. For a `limit` of zero or more there is exactly one such
/// list (`lemma_selection_exists`, `lemma_selection_unique`).
pub open spec fn claim_selection(rows: Seq<JobView>, limit: int) -> Seq<int> {
    choose|sel: Seq<int>| is_claim_selection(rows, limit, sel)
}

/// Row `b` is the next to be handed out after the rows in `sel`.
pub open spec fn next_in_line(rows: Seq<JobView>, sel: Seq<int>, b: int) -> bool {
    &&& waiting(rows, b)
    &&& !sel.contains(b)
    &&& forall|j: int|
        #[trigger] waiting(rows, j) && !sel.contains(j) && j != b ==> served_before(rows, b, j)
}

/// Being served before is a strict total order on the rows.
pub proof fn lemma_served_before_total_order(rows: Seq<JobView>, i: int, j: int, k: int)
    ensures
        !served_before(rows, i, i),
        served_before(rows, i, j) ==> !served_before(rows, j, i),
        served_before(rows, i, j) && served_before(rows, j, k) ==> served_before(rows, i, k),
        i != j ==> served_before(rows, i, j) || served_before(rows, j, i),
{
}

/// No row is selected twice.
pub proof fn lemma_selection_distinct(rows: Seq<JobView>, sel: Seq<int>)
    requires
        in_claim_order(rows, sel),
    ensures
        forall|k: int, l: int|
            0 <= k < sel.len() && 0 <= l < sel.len() && k != l ==> #[trigger] sel[k]
                != #[trigger] sel[l],
{
    assert forall|k: int, l: int|
        0 <= k < sel.len() && 0 <= l < sel.len() && k != l implies #[trigger] sel[k]
        != #[trigger] sel[l] by {
        if k < l {
            assert(served_before(rows, sel[k], sel[l]));
        } else {
            assert(served_before(rows, sel[l], sel[k]));
        }
    }
}

/// Appending the next row in line keeps a list in claim order.
pub proof fn lemma_selection_extends(rows: Seq<JobView>, sel: Seq<int>, b: int)
    requires
        in_claim_order(rows, sel),
        next_in_line(rows, sel, b),
    ensures
        in_claim_order(rows, sel.push(b)),
{
    let ext = sel.push(b);
    assert forall|k: int| 0 <= k < ext.len() implies waiting(rows, #[trigger] ext[k]) by {
        if k < sel.len() {
            assert(ext[k] == sel[k]);
        }
    }
    assert forall|k: int, l: int| 0 <= k < l < ext.len() implies served_before(
        rows,
        #[trigger] ext[k],
        #[trigger] ext[l],
    ) by {
        assert(ext[k] == sel[k]);
        if l < sel.len() {
            assert(ext[l] == sel[l]);
        } else {
            assert(served_before(rows, sel[k], b));
        }
    }
    assert forall|k: int, j: int|
        0 <= k < ext.len() && waiting(rows, j) && !ext.contains(j) implies #[trigger] served_before(
        rows,
        ext[k],
        j,
    ) by {
        assert(ext[sel.len() as int] == b);
        assert(j != b);
        if sel.contains(j) {
            let m = choose|m: int| 0 <= m < sel.len() && sel[m] == j;
            assert(ext[m] == j);
        }
        if k < sel.len() {
            assert(served_before(rows, sel[k], j));
        }
    }
}

/// Among the first `n` rows, if one waits outside `sel`, one of them is
/// served before all the others.
proof fn lemma_head_among(rows: Seq<JobView>, sel: Seq<int>, n: int) -> (b: int)
    requires
        0 <= n <= rows.len(),
        exists|j: int| 0 <= j < n && #[trigger] waiting(rows, j) && !sel.contains(j),
    ensures
        0 <= b < n,
        waiting(rows, b),
        !sel.contains(b),
        forall|j: int|
            0 <= j < n && #[trigger] waiting(rows, j) && !sel.contains(j) && j != b
                ==> served_before(rows, b, j),
    decreases n,
{
    let last = n - 1;
    if exists|j: int| 0 <= j < last && #[trigger] waiting(rows, j) && !sel.contains(j) {
        let b0 = lemma_head_among(rows, sel, last);
        if waiting(rows, last) && !sel.contains(last) && served_before(rows, last, b0) {
            last
        } else {
            b0
        }
    } else {
        last
    }
}

/// For every table and every limit from zero up there is a selection.
pub proof fn lemma_selection_exists(rows: Seq<JobView>, limit: int) -> (sel: Seq<int>)
    requires
        0 <= limit,
    ensures
        is_claim_selection(rows, limit, sel),
    decreases limit,
{
    if limit == 0 {
        Seq::<int>::empty()
    } else {
        let prev = lemma_selection_exists(rows, limit - 1);
        if exists|j: int| #[trigger] waiting(rows, j) && !prev.contains(j) {
            let w = choose|j: int| #[trigger] waiting(rows, j) && !prev.contains(j);
            assert(0 <= w < rows.len() && waiting(rows, w) && !prev.contains(w));
            let b = lemma_head_among(rows, prev, rows.len() as int);
            assert(next_in_line(rows, prev, b)) by {
                assert forall|j: int|
                    #[trigger] waiting(rows, j) && !prev.contains(j) && j != b implies served_before(
                    rows,
                    b,
                    j,
                ) by {
                    assert(0 <= j < rows.len());
                }
            }
            if prev.len() < limit - 1 {
                assert(prev.contains(w));
            }
            lemma_selection_extends(rows, prev, b);
            prev.push(b)
        } else {
            prev
        }
    }
}

/// Two selections from one table under one limit are the same list.
pub proof fn lemma_selection_unique(rows: Seq<JobView>, limit: int, a: Seq<int>, b: Seq<int>)
    requires
        is_claim_selection(rows, limit, a),
        is_claim_selection(rows, limit, b),
    ensures
        a == b,
{
    lemma_selection_distinct(rows, a);
    lemma_selection_distinct(rows, b);
    lemma_common_prefix(rows, a, b, if a.len() <= b.len() { a.len() as int } else { b.len() as int });
    if a.len() < b.len() {
        let extra = b[a.len() as int];
        assert(waiting(rows, extra));
        assert(a.contains(extra));
        let m = choose|m: int| 0 <= m < a.len() && a[m] == extra;
        assert(b[m] == a[m]);
    } else if b.len() < a.len() {
        let extra = a[b.len() as int];
        assert(waiting(rows, extra));
        assert(b.contains(extra));
        let m = choose|m: int| 0 <= m < b.len() && b[m] == extra;
        assert(a[m] == b[m]);
    }
    assert(a =~= b);
}

/// Two lists in claim order over one table agree wherever both have an entry.
proof fn lemma_common_prefix(rows: Seq<JobView>, a: Seq<int>, b: Seq<int>, n: int)
    requires
        in_claim_order(rows, a),
        in_claim_order(rows, b),
        0 <= n <= a.len(),
        n <= b.len(),
    ensures
        forall|k: int| 0 <= k < n ==> a[k] == b[k],
    decreases n,
{
    if n > 0 {
        let k = n - 1;
        lemma_common_prefix(rows, a, b, k);
        lemma_served_first_of_rest(rows, a, b, k);
        lemma_served_first_of_rest(rows, b, a, k);
        lemma_served_before_total_order(rows, a[k], b[k], a[k]);
    }
}

/// If two lists in claim order agree before position `k`, the entry of the
/// second at `k` is not served before that of the first.
proof fn lemma_served_first_of_rest(rows: Seq<JobView>, a: Seq<int>, b: Seq<int>, k: int)
    requires
        in_claim_order(rows, a),
        in_claim_order(rows, b),
        0 <= k < a.len(),
        k < b.len(),
        forall|m: int| 0 <= m < k ==> a[m] == b[m],
    ensures
        !served_before(rows, b[k], a[k]),
{
    let x = b[k];
    assert(waiting(rows, x));
    lemma_served_before_total_order(rows, a[k], x, a[k]);
    if a.contains(x) {
        let m = choose|m: int| 0 <= m < a.len() && a[m] == x;
        if m < k {
            assert(b[m] == a[m]);
            assert(served_before(rows, b[m], b[k]));
        } else if m > k {
            assert(served_before(rows, a[k], a[m]));
        }
    } else {
        assert(served_before(rows, a[k], x));
    }
}

/// The selection of a claim is a selection: it is in claim order, has at most
/// `limit` entries, and leaves a waiting row out only when it is full.
pub proof fn lemma_claim_selection(rows: Seq<JobView>, limit: int)
    requires
        0 <= limit,
    ensures
        is_claim_selection(rows, limit, claim_selection(rows, limit)),
{
    let sel = lemma_selection_exists(rows, limit);
}

} // verus!
