use std::collections::HashSet;
use vstd::prelude::*;

use crate::solver::evaluator::copy_jobs;
use crate::solver::helpers::shuffle_values;
use crate::solver::problem::Time;
use crate::solver::text::{chars_of, parse_usize_word, split_words, usize_word, views, words_of};
use rand::rngs::StdRng;
use crate::solver::schedule::{
    clocks, completions_fit, flow_prefix, job_row, jobs_in_range, later, lemma_clock_below_total,
    lemma_clocks_bounds, lemma_flow_prefix_monotone, lemma_job_row_bounds, lemma_job_row_prefix,
    matrix_view, schedule_fits, total_flow,
};

verus! {

/// A candidate schedule: the order in which the jobs go through the machines.
pub struct Solution {
    pub data: Vec<usize>,
}

impl Clone for Solution {
    /// A schedule with the same jobs in the same order.
    fn clone(&self) -> (r: Self)
        ensures
            r@ == self@,
    {
        Solution { data: copy_jobs(&self.data) }
    }
}

impl View for Solution {
    type V = Seq<usize>;

    open spec fn view(&self) -> Seq<usize> {
        self.data@
    }
}

/// Every job of `order` is one of the first `jobs_amount` jobs, and none occurs twice.
pub open spec fn loosely_valid(order: Seq<usize>, jobs_amount: nat) -> bool {
    &&& forall|i: int| 0 <= i < order.len() ==> #[trigger] order[i] < jobs_amount
    &&& order.no_duplicates()
}

/// `order` is a permutation of the jobs `0..jobs_amount`.
pub open spec fn is_permutation(order: Seq<usize>, jobs_amount: nat) -> bool {
    order.len() == jobs_amount && loosely_valid(order, jobs_amount)
}

/// The schedule written as whitespace-separated job numbers, or `None` when
/// a word is not a `usize`.
pub open spec fn parse_order(text: Seq<char>) -> Option<Seq<usize>> {
    let ws = words_of(text);
    if exists|i: int| 0 <= i < ws.len() && #[trigger] usize_word(ws[i]) is None {
        None
    } else {
        Some(ws.map_values(|w: Seq<char>| usize_word(w)->0))
    }
}

/// The jobs `0..n` in increasing order.
pub open spec fn identity_order(n: nat) -> Seq<usize> {
    Seq::new(n, |i: int| i as usize)
}

/// Two sequences with the same elements, counted with multiplicity, are
/// permutations of the same jobs or neither is.
pub proof fn lemma_same_multiset_permutation(a: Seq<usize>, b: Seq<usize>, n: nat)
    requires
        a.to_multiset() == b.to_multiset(),
        is_permutation(a, n),
    ensures
        is_permutation(b, n),
{
    broadcast use vstd::seq_lib::group_to_multiset_ensures;

    a.to_multiset_ensures();
    b.to_multiset_ensures();
    assert forall|i: int| 0 <= i < b.len() implies #[trigger] b[i] < n by {
        assert(b.contains(b[i]));
        assert(a.to_multiset().count(b[i]) > 0);
        assert(a.contains(b[i]));
    }
    a.lemma_multiset_has_no_duplicates();
    b.lemma_multiset_has_no_duplicates_conv();
}

/// A sequence without duplicates whose elements all occur in another such
/// sequence is no longer than it.
pub proof fn lemma_no_duplicates_len_le(a: Seq<usize>, b: Seq<usize>)
    requires
        a.no_duplicates(),
        b.no_duplicates(),
        forall|x: usize| a.contains(x) ==> b.contains(x),
    ensures
        a.len() <= b.len(),
{
    a.unique_seq_to_set();
    b.unique_seq_to_set();
    assert(a.to_set().subset_of(b.to_set()));
    vstd::set_lib::lemma_len_subset(a.to_set(), b.to_set());
}

/// The jobs in increasing order form a permutation.
pub proof fn lemma_identity_is_permutation(n: nat)
    requires
        n <= usize::MAX,
    ensures
        is_permutation(identity_order(n), n),
{
    let id = identity_order(n);
    assert forall|i: int| 0 <= i < n implies #[trigger] id[i] == i by {}
}

/// The sequences without duplicates of jobs below `n` are at most `n` long,
/// and those that hold every job below `n` are permutations.
pub proof fn lemma_permutation_by_count(a: Seq<usize>, n: nat)
    requires
        loosely_valid(a, n),
        n <= usize::MAX,
    ensures
        a.len() <= n,
        (forall|x: usize| x < n ==> a.contains(x)) ==> is_permutation(a, n),
        is_permutation(a, n) ==> forall|x: usize| x < n ==> #[trigger] a.contains(x),
{
    let id = identity_order(n);
    lemma_identity_is_permutation(n);
    assert forall|x: usize| a.contains(x) implies id.contains(x) by {
        let i = choose|i: int| 0 <= i < a.len() && a[i] == x;
        assert(id[x as int] == x);
    }
    lemma_no_duplicates_len_le(a, id);
    if forall|x: usize| x < n ==> a.contains(x) {
        assert forall|x: usize| id.contains(x) implies a.contains(x) by {
            let i = choose|i: int| 0 <= i < id.len() && id[i] == x;
        }
        lemma_no_duplicates_len_le(id, a);
    }
    if a.len() == n {
        assert forall|x: usize| x < n implies #[trigger] a.contains(x) by {
            if !a.contains(x) {
                let b = a.push(x);
                assert forall|i: int, j: int| 0 <= i < j < b.len() implies b[i] != b[j] by {
                    if j == a.len() {
                        assert(a.contains(b[i]));
                    }
                }
                assert forall|y: usize| b.contains(y) implies id.contains(y) by {
                    let i = choose|i: int| 0 <= i < b.len() && b[i] == y;
                    assert(id[y as int] == y);
                }
                lemma_no_duplicates_len_le(b, id);
            }
        }
    }
}

/// The interval during which machine `m` processes the `k`-th job of `order`.
pub open spec fn gantt_interval(pt: Seq<Seq<u64>>, order: Seq<usize>, m: int, k: int) -> (int, int) {
    let end = clocks(pt, order, (k + 1) as nat)[m];
    (end - pt[m][order[k] as int], end)
}

/// The intervals of the Gantt chart form a feasible schedule: each operation
/// lasts its processing time and starts no earlier than zero, a machine
/// processes one job at a time in the order of the schedule, a job is on one
/// machine at a time and goes through the machines in order, and the total
/// flow time adds up the instants at which the jobs leave the last machine.
pub proof fn lemma_gantt_chart_is_feasible(pt: Seq<Seq<u64>>, order: Seq<usize>)
    requires
        jobs_in_range(pt, order),
    ensures
        forall|m: int, k: int|
            0 <= m < pt.len() && 0 <= k < order.len() ==> {
                let iv = #[trigger] gantt_interval(pt, order, m, k);
                &&& iv.0 >= 0
                &&& iv.1 - iv.0 == pt[m][order[k] as int]
            },
        forall|m: int, k: int|
            0 <= m < pt.len() && 0 <= k && k + 1 < order.len() ==> #[trigger] gantt_interval(
                pt,
                order,
                m,
                k,
            ).1 <= gantt_interval(pt, order, m, k + 1).0,
        forall|m: int, k: int|
            0 <= m && m + 1 < pt.len() && 0 <= k < order.len() ==> #[trigger] gantt_interval(
                pt,
                order,
                m,
                k,
            ).1 <= gantt_interval(pt, order, m + 1, k).0,
        forall|k: int|
            0 < k <= order.len() ==> #[trigger] flow_prefix(pt, order, k as nat) == flow_prefix(
                pt,
                order,
                (k - 1) as nat,
            ) + gantt_interval(pt, order, pt.len() - 1, k - 1).1,
{
    assert forall|m: int, k: int| 0 <= m < pt.len() && 0 <= k < order.len() implies {
        let iv = #[trigger] gantt_interval(pt, order, m, k);
        &&& iv.0 >= 0
        &&& iv.1 - iv.0 == pt[m][order[k] as int]
    } by {
        lemma_start_of_operation(pt, order, m, k);
    }
    assert forall|m: int, k: int| 0 <= m < pt.len() && 0 <= k && k + 1 < order.len() implies
        #[trigger] gantt_interval(pt, order, m, k).1 <= gantt_interval(pt, order, m, k + 1).0 by {
        lemma_start_of_operation(pt, order, m, k + 1);
    }
    assert forall|m: int, k: int| 0 <= m && m + 1 < pt.len() && 0 <= k < order.len() implies
        #[trigger] gantt_interval(pt, order, m, k).1 <= gantt_interval(pt, order, m + 1, k).0 by {
        lemma_start_of_operation(pt, order, m + 1, k);
    }
}

/// The start of an operation: the later of the instant at which its machine
/// becomes free and the instant at which the job leaves the previous machine.
proof fn lemma_start_of_operation(pt: Seq<Seq<u64>>, order: Seq<usize>, m: int, k: int)
    requires
        0 <= m < pt.len(),
        0 <= k < order.len(),
    ensures
        gantt_interval(pt, order, m, k).0 == later(
            clocks(pt, order, k as nat)[m],
            if m == 0 {
                clocks(pt, order, k as nat)[0]
            } else {
                clocks(pt, order, (k + 1) as nat)[m - 1]
            },
        ),
        gantt_interval(pt, order, m, k).0 >= 0,
{
    let prev = clocks(pt, order, k as nat);
    let job = order[k];
    let row = job_row(pt, prev, job, pt.len());
    lemma_clocks_bounds(pt, order, k as nat);
    assert(clocks(pt, order, (k + 1) as nat) == row);
    lemma_job_row_prefix(pt, prev, job, (m + 1) as nat, pt.len());
    lemma_job_row_prefix(pt, prev, job, m as nat, pt.len());
    crate::solver::schedule::lemma_job_row_len(pt, prev, job, m as nat);
    let r = job_row(pt, prev, job, m as nat);
    assert(job_row(pt, prev, job, (m + 1) as nat) == r.push(
        later(prev[m], if m == 0 { prev[0] } else { r[m - 1] }) + pt[m][job as int],
    ));
    assert(row[m] == job_row(pt, prev, job, (m + 1) as nat)[m]);
    if m > 0 {
        assert(r[m - 1] == row[m - 1]);
    }
    assert(gantt_interval(pt, order, m, k).0 == later(prev[m], if m == 0 { prev[0] } else { r[m - 1] }));
    assert(prev[m] >= 0);
}

impl Solution {
    /// A schedule of no jobs.
    pub fn empty() -> (s: Self)
        ensures
            s@ == Seq::<usize>::empty(),
    {
        Solution { data: Vec::new() }
    }

    /// The schedule of the given jobs, in order.
    pub fn new(value: Vec<usize>) -> (s: Self)
        ensures
            s.data == value,
    {
        Solution { data: value }
    }

    /// The number of jobs of the schedule.
    pub fn len(&self) -> (n: usize)
        ensures
            n == self@.len(),
    {
        self.data.len()
    }

    /// The total flow time of this schedule, or `None` when it does not fit a `u64`.
    pub fn checked_total_flow_time(&self, processing_times: &[Vec<Time>]) -> (r: Option<Time>)
        requires
            jobs_in_range(matrix_view(processing_times@), self@),
        ensures
            match r {
                Some(t) => t == total_flow(matrix_view(processing_times@), self@),
                None => total_flow(matrix_view(processing_times@), self@) > u64::MAX,
            },
    {
        let ghost pt = matrix_view(processing_times@);
        let machines = processing_times.len();
        if self.data.len() == 0 {
            return Some(0);
        }
        let mut clock: Vec<Time> = Vec::new();
        while clock.len() < machines
            invariant
                clock.len() <= machines,
                forall|i: int| 0 <= i < clock.len() ==> clock@[i] == 0,
            decreases machines - clock.len(),
        {
            clock.push(0);
        }
        let mut total: Time = 0;
        let mut k: usize = 0;
        while k < self.data.len()
            invariant
                pt == matrix_view(processing_times@),
                machines == pt.len(),
                machines > 0,
                k <= self@.len(),
                jobs_in_range(pt, self@),
                clock@.len() == machines,
                forall|i: int| 0 <= i < machines ==> clock@[i] as int == clocks(pt, self@, k as nat)[i],
                total as int == flow_prefix(pt, self@, k as nat),
            decreases self@.len() - k,
        {
            let job = self.data[k];
            let ghost prev = clocks(pt, self@, k as nat);
            let ghost row = job_row(pt, prev, job, machines as nat);
            proof {
                lemma_clocks_bounds(pt, self@, k as nat);
                lemma_job_row_bounds(pt, prev, job, machines as nat);
                assert(clocks(pt, self@, (k + 1) as nat) == row);
                lemma_clock_below_total(pt, self@, (k + 1) as nat, machines - 1);
            }
            let mut running = clock[0];
            let mut m: usize = 0;
            while m < machines
                invariant
                    pt == matrix_view(processing_times@),
                    machines == pt.len(),
                    machines > 0,
                    k < self@.len(),
                    job == self@[k as int],
                    jobs_in_range(pt, self@),
                    prev == clocks(pt, self@, k as nat),
                    row == job_row(pt, prev, job, machines as nat),
                    row.len() == machines,
                    prev.len() == machines,
                    forall|i: int, j: int| 0 <= i <= j < machines ==> #[trigger] row[i] <= #[trigger] row[j],
                    row[machines - 1] <= total_flow(pt, self@) || total_flow(pt, self@) > u64::MAX,
                    m <= machines,
                    clock@.len() == machines,
                    forall|i: int| 0 <= i < m ==> clock@[i] as int == row[i],
                    forall|i: int| m <= i < machines ==> clock@[i] as int == prev[i],
                    running as int == (if m == 0 {
                        prev[0]
                    } else {
                        row[m - 1]
                    }),
                decreases machines - m,
            {
                let start = if clock[m] >= running {
                    clock[m]
                } else {
                    running
                };
                proof {
                    lemma_job_row_prefix(pt, prev, job, (m + 1) as nat, machines as nat);
                    lemma_job_row_prefix(pt, prev, job, m as nat, machines as nat);
                    crate::solver::schedule::lemma_job_row_len(pt, prev, job, m as nat);
                    let r = job_row(pt, prev, job, m as nat);
                    assert(job_row(pt, prev, job, (m + 1) as nat) == r.push(
                        later(prev[m as int], if m == 0 { prev[0] } else { r[m - 1] }) + pt[m as int][job as int],
                    ));
                    assert(job_row(pt, prev, job, (m + 1) as nat)[m as int] == row[m as int]);
                    if m > 0 {
                        assert(r[m - 1] == row[m - 1]);
                    }
                    assert(job < pt[m as int].len());
                    assert(row[m as int] == later(prev[m as int], if m == 0 {
                        prev[0]
                    } else {
                        row[m - 1]
                    }) + pt[m as int][job as int]);
                }
                match start.checked_add(processing_times[m][job]) {
                    Some(v) => {
                        running = v;
                    },
                    None => {
                        return None;
                    },
                }
                clock.set(m, running);
                m += 1;
            }
            match total.checked_add(running) {
                Some(t) => {
                    total = t;
                },
                None => {
                    proof {
                        lemma_flow_prefix_monotone(pt, self@, (k + 1) as nat, self@.len());
                    }
                    return None;
                },
            }
            k += 1;
        }
        Some(total)
    }

    /// Total flow time: the sum, over the jobs, of the instant at which each
    /// job leaves the last machine.
    pub fn total_flow_time(&self, processing_times: &[Vec<Time>]) -> (t: Time)
        requires
            schedule_fits(matrix_view(processing_times@), self@),
        ensures
            t == total_flow(matrix_view(processing_times@), self@),
    {
        match self.checked_total_flow_time(processing_times) {
            Some(t) => t,
            None => 0,
        }
    }

    /// For each machine, the interval during which it processes each job of
    /// the schedule, in the order of the schedule.
    pub fn graph_data(&self, processing_times: &[Vec<Time>]) -> (data: Vec<Vec<(Time, Time)>>)
        requires
            jobs_in_range(matrix_view(processing_times@), self@),
            completions_fit(matrix_view(processing_times@), self@),
        ensures
            data.len() == processing_times@.len(),
            forall|m: int| 0 <= m < data.len() ==> #[trigger] data@[m].len() == self@.len(),
            forall|m: int, k: int|
                0 <= m < data.len() && 0 <= k < self@.len() ==> {
                    let iv = #[trigger] data@[m]@[k];
                    (iv.0 as int, iv.1 as int) == gantt_interval(
                        matrix_view(processing_times@),
                        self@,
                        m,
                        k,
                    )
                },
    {
        let ghost pt = matrix_view(processing_times@);
        let machines = processing_times.len();
        let jobs = self.data.len();
        let mut clock: Vec<Time> = Vec::new();
        while clock.len() < machines
            invariant
                clock.len() <= machines,
                forall|i: int| 0 <= i < clock.len() ==> clock@[i] == 0,
            decreases machines - clock.len(),
        {
            clock.push(0);
        }
        let mut per_job: Vec<Vec<(Time, Time)>> = Vec::new();
        let mut k: usize = 0;
        while k < jobs
            invariant
                pt == matrix_view(processing_times@),
                machines == pt.len(),
                jobs == self@.len(),
                k <= jobs,
                jobs_in_range(pt, self@),
                completions_fit(pt, self@),
                clock@.len() == machines,
                forall|i: int| 0 <= i < machines ==> clock@[i] as int == clocks(pt, self@, k as nat)[i],
                per_job.len() == k,
                forall|j: int| 0 <= j < k ==> #[trigger] per_job@[j].len() == machines,
                forall|j: int, i: int|
                    0 <= j < k && 0 <= i < machines ==> {
                        let iv = #[trigger] per_job@[j]@[i];
                        (iv.0 as int, iv.1 as int) == gantt_interval(pt, self@, i, j)
                    },
            decreases jobs - k,
        {
            let job = self.data[k];
            let ghost prev = clocks(pt, self@, k as nat);
            let ghost row = job_row(pt, prev, job, machines as nat);
            proof {
                lemma_clocks_bounds(pt, self@, k as nat);
                lemma_job_row_bounds(pt, prev, job, machines as nat);
                assert(clocks(pt, self@, (k + 1) as nat) == row);
                assert(clocks(pt, self@, (k + 1) as nat)[machines - 1] <= u64::MAX);
            }
            let mut intervals: Vec<(Time, Time)> = Vec::new();
            let mut running = clock[0];
            let mut m: usize = 0;
            while m < machines
                invariant
                    pt == matrix_view(processing_times@),
                    machines == pt.len(),
                    machines > 0,
                    k < self@.len(),
                    job == self@[k as int],
                    jobs_in_range(pt, self@),
                    prev == clocks(pt, self@, k as nat),
                    row == job_row(pt, prev, job, machines as nat),
                    row == clocks(pt, self@, (k + 1) as nat),
                    row.len() == machines,
                    prev.len() == machines,
                    forall|i: int, j: int| 0 <= i <= j < machines ==> #[trigger] row[i] <= #[trigger] row[j],
                    row[machines - 1] <= u64::MAX,
                    m <= machines,
                    clock@.len() == machines,
                    forall|i: int| 0 <= i < m ==> clock@[i] as int == row[i],
                    forall|i: int| m <= i < machines ==> clock@[i] as int == prev[i],
                    running as int == (if m == 0 {
                        prev[0]
                    } else {
                        row[m - 1]
                    }),
                    intervals.len() == m,
                    forall|i: int|
                        0 <= i < m ==> {
                            let iv = #[trigger] intervals@[i];
                            (iv.0 as int, iv.1 as int) == gantt_interval(pt, self@, i, k as int)
                        },
                decreases machines - m,
            {
                let start = if clock[m] >= running {
                    clock[m]
                } else {
                    running
                };
                proof {
                    lemma_job_row_prefix(pt, prev, job, (m + 1) as nat, machines as nat);
                    lemma_job_row_prefix(pt, prev, job, m as nat, machines as nat);
                    crate::solver::schedule::lemma_job_row_len(pt, prev, job, m as nat);
                    let r = job_row(pt, prev, job, m as nat);
                    assert(job_row(pt, prev, job, (m + 1) as nat) == r.push(
                        later(prev[m as int], if m == 0 { prev[0] } else { r[m - 1] }) + pt[m as int][job as int],
                    ));
                    assert(job_row(pt, prev, job, (m + 1) as nat)[m as int] == row[m as int]);
                    if m > 0 {
                        assert(r[m - 1] == row[m - 1]);
                    }
                    assert(job < pt[m as int].len());
                }
                running = start + processing_times[m][job];
                intervals.push((start, running));
                clock.set(m, running);
                m += 1;
            }
            per_job.push(intervals);
            k += 1;
        }
        let mut data: Vec<Vec<(Time, Time)>> = Vec::new();
        let mut m: usize = 0;
        while m < machines
            invariant
                machines == processing_times@.len(),
                jobs == self@.len(),
                per_job.len() == jobs,
                forall|j: int| 0 <= j < jobs ==> #[trigger] per_job@[j].len() == machines,
                forall|j: int, i: int|
                    0 <= j < jobs && 0 <= i < machines ==> {
                        let iv = #[trigger] per_job@[j]@[i];
                        (iv.0 as int, iv.1 as int) == gantt_interval(pt, self@, i, j)
                    },
                m <= machines,
                data.len() == m,
                forall|i: int| 0 <= i < m ==> #[trigger] data@[i].len() == jobs,
                forall|i: int, j: int|
                    0 <= i < m && 0 <= j < jobs ==> {
                        let iv = #[trigger] data@[i]@[j];
                        (iv.0 as int, iv.1 as int) == gantt_interval(pt, self@, i, j)
                    },
            decreases machines - m,
        {
            let mut column: Vec<(Time, Time)> = Vec::new();
            let mut j: usize = 0;
            while j < jobs
                invariant
                    machines == processing_times@.len(),
                    jobs == self@.len(),
                    m < machines,
                    per_job.len() == jobs,
                    forall|j: int| 0 <= j < jobs ==> #[trigger] per_job@[j].len() == machines,
                    forall|j: int, i: int|
                        0 <= j < jobs && 0 <= i < machines ==> {
                            let iv = #[trigger] per_job@[j]@[i];
                            (iv.0 as int, iv.1 as int) == gantt_interval(pt, self@, i, j)
                        },
                    j <= jobs,
                    column.len() == j,
                    forall|x: int|
                        0 <= x < j ==> {
                            let iv = #[trigger] column@[x];
                            (iv.0 as int, iv.1 as int) == gantt_interval(pt, self@, m as int, x)
                        },
                decreases jobs - j,
            {
                assert(per_job@[j as int].len() == machines);
                let iv = per_job[j][m];
                proof {
                    let _ = per_job@[j as int]@[m as int];
                }
                column.push(iv);
                j += 1;
            }
            data.push(column);
            m += 1;
        }
        data
    }

    /// Every job of the schedule is one of the first `jobs_amount` jobs and
    /// none occurs twice (the schedule may leave jobs out).
    pub fn is_loosely_valid(&self, jobs_amount: usize) -> (r: bool)
        ensures
            r == loosely_valid(self@, jobs_amount as nat),
    {
        broadcast use vstd::std_specs::hash::group_hash_axioms;

        let mut set: HashSet<usize> = HashSet::new();
        let mut k: usize = 0;
        while k < self.data.len()
            invariant
                k <= self@.len(),
                set@ == self@.take(k as int).to_set(),
                loosely_valid(self@.take(k as int), jobs_amount as nat),
            decreases self@.len() - k,
        {
            let nth = self.data[k];
            proof {
                assert(self@.take(k as int).to_set().contains(nth) <==> self@.take(k as int).contains(nth));
            }
            if nth >= jobs_amount || !set.insert(nth) {
                proof {
                    if nth < jobs_amount {
                        let i = choose|i: int| 0 <= i < k && self@.take(k as int)[i] == nth;
                        assert(self@[i] == self@[k as int]);
                    }
                }
                return false;
            }
            proof {
                let next = self@.take(k + 1);
                assert(next == self@.take(k as int).push(nth));
                assert forall|x: usize| next.contains(x) <==> self@.take(k as int).contains(x) || x == nth by {
                    if next.contains(x) {
                        let i = choose|i: int| 0 <= i < next.len() && next[i] == x;
                        if i < k {
                            assert(self@.take(k as int)[i] == x);
                        }
                    }
                    if self@.take(k as int).contains(x) {
                        let i = choose|i: int| 0 <= i < k && self@.take(k as int)[i] == x;
                        assert(next[i] == x);
                    }
                    if x == nth {
                        assert(next[k as int] == x);
                    }
                }
                assert(next.to_set() =~= self@.take(k as int).to_set().insert(nth));
                assert forall|i: int, j: int| 0 <= i < j < next.len() implies next[i] != next[j] by {
                    if j == k {
                        assert(self@.take(k as int).contains(next[i]));
                    }
                }
            }
            k += 1;
        }
        proof {
            assert(self@.take(k as int) == self@);
        }
        true
    }

    /// The schedule is a permutation of all `jobs_amount` jobs.
    pub fn is_valid(&self, jobs_amount: usize) -> (r: bool)
        ensures
            r == is_permutation(self@, jobs_amount as nat),
    {
        if self.data.len() != jobs_amount {
            return false;
        }
        self.is_loosely_valid(jobs_amount)
    }

    /// A permutation of the jobs `0..jobs_amount` chosen at random.
    pub fn random(rng: &mut StdRng, jobs_amount: usize) -> (s: Self)
        ensures
            is_permutation(s@, jobs_amount as nat),
    {
        let mut solution: Vec<usize> = Vec::new();
        let mut j: usize = 0;
        while j < jobs_amount
            invariant
                j <= jobs_amount,
                solution@ == identity_order(j as nat),
            decreases jobs_amount - j,
        {
            solution.push(j);
            j += 1;
        }
        let ghost before = solution@;
        proof {
            lemma_identity_is_permutation(jobs_amount as nat);
        }
        shuffle_values(rng, &mut solution);
        proof {
            lemma_same_multiset_permutation(before, solution@, jobs_amount as nat);
        }
        Solution { data: solution }
    }

    /// Reads a schedule written as whitespace-separated job numbers.
    pub fn parse(raw_solution: &str) -> (r: Option<Self>)
        ensures
            match r {
                Some(s) => parse_order(raw_solution@) == Some(s@),
                None => parse_order(raw_solution@) is None,
            },
    {
        let chars = chars_of(raw_solution);
        let words = split_words(&chars);
        let ghost ws = words_of(raw_solution@);
        let mut result: Vec<usize> = Vec::new();
        let mut i: usize = 0;
        while i < words.len()
            invariant
                views(words@) == ws,
                ws == words_of(raw_solution@),
                i <= ws.len(),
                result@.len() == i,
                forall|k: int| 0 <= k < i ==> usize_word(ws[k]) == Some(#[trigger] result@[k]),
            decreases ws.len() - i,
        {
            proof {
                assert(words@[i as int]@ == ws[i as int]);
            }
            match parse_usize_word(&words[i]) {
                Some(v) => {
                    result.push(v);
                },
                None => {
                    return None;
                },
            }
            i += 1;
        }
        proof {
            assert forall|k: int| 0 <= k < ws.len() implies !(#[trigger] usize_word(ws[k]) is None) by {
                assert(usize_word(ws[k]) == Some(result@[k]));
            }
            assert(result@ =~= ws.map_values(|w: Seq<char>| usize_word(w)->0));
        }
        Some(Solution { data: result })
    }
}

} // verus!
