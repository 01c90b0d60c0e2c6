use vstd::prelude::*;

verus! {

/// The processing times as a matrix of plain values: one row per machine,
/// one column per job.
pub open spec fn matrix_view(pt: Seq<Vec<u64>>) -> Seq<Seq<u64>> {
    pt.map_values(|row: Vec<u64>| row@)
}

/// The larger of two instants.
pub open spec fn later(a: int, b: int) -> int {
    if a >= b {
        a
    } else {
        b
    }
}

/// Completion times on the first `m` machines of the job `job` when it is
/// scheduled right after the jobs whose completion times are `prev`: a job
/// starts on a machine once the machine is free and the job has left the
/// previous machine.
pub open spec fn job_row(pt: Seq<Seq<u64>>, prev: Seq<int>, job: usize, m: nat) -> Seq<int>
    decreases m,
{
    if m == 0 {
        Seq::empty()
    } else {
        let r = job_row(pt, prev, job, (m - 1) as nat);
        let ready = if m == 1 {
            prev[0]
        } else {
            r[m - 2]
        };
        r.push(later(prev[m - 1], ready) + pt[m - 1][job as int])
    }
}

/// Completion time of the last operation on each machine once the first `k`
/// jobs of `order` have been scheduled.
pub open spec fn clocks(pt: Seq<Seq<u64>>, order: Seq<usize>, k: nat) -> Seq<int>
    decreases k,
{
    if k == 0 {
        Seq::new(pt.len(), |i: int| 0int)
    } else {
        job_row(pt, clocks(pt, order, (k - 1) as nat), order[k - 1], pt.len())
    }
}

/// Sum of the completion times (on the last machine) of the first `k` jobs of `order`.
pub open spec fn flow_prefix(pt: Seq<Seq<u64>>, order: Seq<usize>, k: nat) -> int
    decreases k,
{
    if k == 0 {
        0
    } else {
        flow_prefix(pt, order, (k - 1) as nat) + clocks(pt, order, k)[pt.len() - 1]
    }
}

/// Total flow time of the schedule that processes the jobs in `order`.
pub open spec fn total_flow(pt: Seq<Seq<u64>>, order: Seq<usize>) -> int {
    flow_prefix(pt, order, order.len())
}

/// Every job of `order` has a processing time on every machine, and there is
/// a machine whenever there is a job.
pub open spec fn jobs_in_range(pt: Seq<Seq<u64>>, order: Seq<usize>) -> bool {
    &&& (order.len() > 0 ==> pt.len() > 0)
    &&& forall|m: int, k: int|
        0 <= m < pt.len() && 0 <= k < order.len() ==> #[trigger] order[k] < #[trigger] pt[m].len()
}

/// The schedule of `order` can be evaluated, and its total flow time fits a `u64`.
pub open spec fn schedule_fits(pt: Seq<Seq<u64>>, order: Seq<usize>) -> bool {
    jobs_in_range(pt, order) && total_flow(pt, order) <= u64::MAX
}

/// Every completion time of the schedule of `order`, on every machine, fits a `u64`.
pub open spec fn completions_fit(pt: Seq<Seq<u64>>, order: Seq<usize>) -> bool {
    forall|k: int, m: int|
        1 <= k <= order.len() && 0 <= m < pt.len() ==> #[trigger] clocks(pt, order, k as nat)[m] <= u64::MAX
}

/// The finishing times of a job on the first `m` machines are `m` times.
pub proof fn lemma_job_row_len(pt: Seq<Seq<u64>>, prev: Seq<int>, job: usize, m: nat)
    ensures
        job_row(pt, prev, job, m).len() == m,
    decreases m,
{
    if m > 0 {
        lemma_job_row_len(pt, prev, job, (m - 1) as nat);
    }
}

/// A shorter row is a prefix of a longer one.
pub proof fn lemma_job_row_prefix(pt: Seq<Seq<u64>>, prev: Seq<int>, job: usize, m1: nat, m2: nat)
    requires
        m1 <= m2,
    ensures
        forall|i: int|
            0 <= i < m1 ==> #[trigger] job_row(pt, prev, job, m1)[i] == job_row(
                pt,
                prev,
                job,
                m2,
            )[i],
    decreases m2,
{
    if m1 < m2 {
        lemma_job_row_prefix(pt, prev, job, m1, (m2 - 1) as nat);
        lemma_job_row_len(pt, prev, job, (m2 - 1) as nat);
    }
}

/// Completion times never come before the previous ones, grow along the
/// machines and stay non-negative.
pub proof fn lemma_job_row_bounds(pt: Seq<Seq<u64>>, prev: Seq<int>, job: usize, m: nat)
    requires
        m <= prev.len(),
        m >= 1,
        forall|i: int| 0 <= i < prev.len() ==> #[trigger] prev[i] >= 0,
    ensures
        ({
            let r = job_row(pt, prev, job, m);
            &&& r.len() == m
            &&& forall|i: int| 0 <= i < m ==> #[trigger] r[i] >= prev[i]
            &&& forall|i: int| 0 <= i < m ==> #[trigger] r[i] >= 0
            &&& forall|i: int, j: int| 0 <= i <= j < m ==> #[trigger] r[i] <= #[trigger] r[j]
            &&& r[0] >= prev[0]
        }),
    decreases m,
{
    lemma_job_row_len(pt, prev, job, m);
    if m > 1 {
        lemma_job_row_bounds(pt, prev, job, (m - 1) as nat);
    }
}

/// After the first `k` jobs there is one clock per machine, none negative,
/// and (once a job has passed) later machines finish no earlier.
pub proof fn lemma_clocks_bounds(pt: Seq<Seq<u64>>, order: Seq<usize>, k: nat)
    requires
        k <= order.len(),
    ensures
        clocks(pt, order, k).len() == pt.len(),
        forall|i: int| 0 <= i < pt.len() ==> #[trigger] clocks(pt, order, k)[i] >= 0,
        forall|i: int, j: int|
            0 <= i <= j < pt.len() && k > 0 ==> #[trigger] clocks(pt, order, k)[i] <= #[trigger] clocks(
                pt,
                order,
                k,
            )[j],
    decreases k,
{
    if k > 0 {
        lemma_clocks_bounds(pt, order, (k - 1) as nat);
        if pt.len() > 0 {
            lemma_job_row_bounds(pt, clocks(pt, order, (k - 1) as nat), order[k - 1], pt.len());
        } else {
            lemma_job_row_len(pt, clocks(pt, order, (k - 1) as nat), order[k - 1], pt.len());
        }
    }
}

/// The flow time of a prefix only grows with the prefix, and bounds the
/// completion times of the jobs in it.
pub proof fn lemma_flow_prefix_monotone(pt: Seq<Seq<u64>>, order: Seq<usize>, k1: nat, k2: nat)
    requires
        k1 <= k2 <= order.len(),
        pt.len() > 0,
    ensures
        0 <= flow_prefix(pt, order, k1) <= flow_prefix(pt, order, k2),
        k1 > 0 ==> clocks(pt, order, k1)[pt.len() - 1] <= flow_prefix(pt, order, k1),
    decreases k2,
{
    if k2 > 0 {
        lemma_clocks_bounds(pt, order, k2);
        if k1 < k2 {
            lemma_flow_prefix_monotone(pt, order, k1, (k2 - 1) as nat);
        } else {
            lemma_flow_prefix_monotone(pt, order, (k1 - 1) as nat, (k2 - 1) as nat);
        }
    }
}

/// Every completion time of a schedule is bounded by its total flow time.
pub proof fn lemma_clock_below_total(pt: Seq<Seq<u64>>, order: Seq<usize>, k: nat, m: int)
    requires
        1 <= k <= order.len(),
        0 <= m < pt.len(),
    ensures
        0 <= clocks(pt, order, k)[m] <= total_flow(pt, order),
{
    lemma_clocks_bounds(pt, order, k);
    lemma_flow_prefix_monotone(pt, order, k, order.len());
}

/// `later(a, b)` is the larger of the two instants: no earlier than either,
/// and one of them.
pub proof fn lemma_later_is_max(a: int, b: int)
    ensures
        later(a, b) >= a,
        later(a, b) >= b,
        later(a, b) == a || later(a, b) == b,
{
}

/// The schedule runs without idle time that nothing forces: before any job
/// every machine is free at 0; the `k`-th job of `order` starts on machine
/// `m` (its completion time minus its processing time there) no earlier than
/// the machine is free after the jobs before it and, past the first machine,
/// no earlier than the job leaves the previous machine, and exactly at the
/// later of these two instants (on the first machine, as soon as the machine
/// is free).
pub proof fn lemma_completion_times(pt: Seq<Seq<u64>>, order: Seq<usize>, k: nat, m: int)
    requires
        1 <= k <= order.len(),
        0 <= m < pt.len(),
    ensures
        clocks(pt, order, 0)[m] == 0,
        ({
            let start = clocks(pt, order, k)[m] - pt[m][order[k - 1] as int];
            let free = clocks(pt, order, (k - 1) as nat)[m];
            &&& start >= free
            &&& m > 0 ==> start >= clocks(pt, order, k)[m - 1]
            &&& m == 0 ==> start == free
            &&& m > 0 ==> (start == free || start == clocks(pt, order, k)[m - 1])
        }),
{
    let prev = clocks(pt, order, (k - 1) as nat);
    let job = order[k - 1];
    let n = pt.len() as nat;
    lemma_clocks_bounds(pt, order, (k - 1) as nat);
    assert(clocks(pt, order, k) == job_row(pt, prev, job, n));
    lemma_job_row_prefix(pt, prev, job, (m + 1) as nat, n);
    lemma_job_row_prefix(pt, prev, job, m as nat, n);
    lemma_job_row_len(pt, prev, job, m as nat);
    let r = job_row(pt, prev, job, m as nat);
    let ready = if m == 0 { prev[0] } else { r[m - 1] };
    assert(job_row(pt, prev, job, (m + 1) as nat) == r.push(later(prev[m], ready) + pt[m][job as int]));
    assert(job_row(pt, prev, job, (m + 1) as nat)[m] == job_row(pt, prev, job, n)[m]);
    assert(r.push(later(prev[m], ready) + pt[m][job as int])[m] == later(prev[m], ready) + pt[m][job as int]);
    assert(clocks(pt, order, k)[m] == later(prev[m], ready) + pt[m][job as int]);
    if m > 0 {
        assert(r[m - 1] == job_row(pt, prev, job, n)[m - 1]);
    }
    lemma_later_is_max(prev[m], ready);
}

/// When the total flow time fits a `u64`, so does every completion time.
pub proof fn lemma_fitting_flow_fits_completions(pt: Seq<Seq<u64>>, order: Seq<usize>)
    requires
        total_flow(pt, order) <= u64::MAX,
    ensures
        completions_fit(pt, order),
{
    assert forall|k: int, m: int| 1 <= k <= order.len() && 0 <= m < pt.len() implies #[trigger] clocks(
        pt,
        order,
        k as nat,
    )[m] <= u64::MAX by {
        lemma_clock_below_total(pt, order, k as nat, m);
    }
}

} // verus!
