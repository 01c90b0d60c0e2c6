use std::collections::HashMap;
use vstd::prelude::*;

use crate::solver::problem::Time;
use crate::solver::schedule::{jobs_in_range, matrix_view, schedule_fits, total_flow};
use crate::solver::solution::Solution;

verus! {

/// Assigns each schedule its cost.
pub trait Evaluator: Sized {
    /// The schedules that this evaluator can evaluate.
    spec fn evaluable(&self, order: Seq<usize>) -> bool;

    /// The cost of a schedule.
    spec fn evaluation(&self, order: Seq<usize>) -> int;

    /// How many evaluations were actually computed (not found again).
    spec fn evaluations_made(&self) -> nat;

    /// The evaluator has the cost of `order` at hand: evaluating it again
    /// computes nothing.
    spec fn remembered(&self, order: Seq<usize>) -> bool;

    /// The internal invariant of the evaluator.
    spec fn well_formed(&self) -> bool;

    fn eval_count(&self) -> (r: u64)
        requires
            self.well_formed(),
        ensures
            r == self.evaluations_made(),
    ;

    fn evaluate(&mut self, solution: &Solution) -> (t: Time)
        requires
            old(self).well_formed(),
            old(self).evaluable(solution@),
            old(self).evaluations_made() < u64::MAX || old(self).remembered(solution@),
        ensures
            final(self).well_formed(),
            t == old(self).evaluation(solution@),
            forall|o: Seq<usize>| #[trigger] final(self).evaluable(o) == old(self).evaluable(o),
            forall|o: Seq<usize>| #[trigger] final(self).evaluation(o) == old(self).evaluation(o),
            old(self).evaluations_made() <= final(self).evaluations_made() <= old(
                self,
            ).evaluations_made() + 1,
            final(self).evaluations_made() == old(self).evaluations_made() + (if old(self).remembered(
                solution@,
            ) {
                0int
            } else {
                1int
            }),
            forall|o: Seq<usize>| #[trigger] final(self).remembered(o) == (old(self).remembered(o) || o
                == solution@),
    ;

    /// The cost of a schedule where it can be evaluated, as `evaluate` gives
    /// it; `None`, with nothing changed, where it cannot.
    fn try_evaluate(&mut self, solution: &Solution) -> (t: Option<Time>)
        requires
            old(self).well_formed(),
            old(self).evaluations_made() < u64::MAX || old(self).remembered(solution@),
        ensures
            t is Some <==> old(self).evaluable(solution@),
            t is None ==> *final(self) == *old(self),
            t is Some ==> {
                &&& final(self).well_formed()
                &&& t->0 == old(self).evaluation(solution@)
                &&& forall|o: Seq<usize>| #[trigger] final(self).evaluable(o) == old(self).evaluable(o)
                &&& forall|o: Seq<usize>| #[trigger] final(self).evaluation(o) == old(self).evaluation(o)
                &&& final(self).evaluations_made() == old(self).evaluations_made() + (if old(
                    self,
                ).remembered(solution@) {
                    0int
                } else {
                    1int
                })
                &&& forall|o: Seq<usize>| #[trigger] final(self).remembered(o) == (old(self).remembered(o)
                    || o == solution@)
            },
    ;
}

/// The key under which the evaluation of a schedule is cached.
pub open spec fn order_key(order: Seq<usize>) -> u64
    decreases order.len(),
{
    if order.len() == 0 {
        0
    } else {
        order_key(order.drop_last()).wrapping_mul(1099511628211u64).wrapping_add(
            order.last() as u64,
        )
    }
}

/// Evaluates schedules by their total flow time, and remembers the
/// evaluations it has computed.
pub struct TFTEvaluator {
    unique_evaluations: u64,
    cache: HashMap<u64, Vec<(Vec<usize>, Time)>>,
    processing_times: Vec<Vec<Time>>,
}

/// A copy of a sequence of jobs.
pub(crate) fn copy_jobs(jobs: &Vec<usize>) -> (r: Vec<usize>)
    ensures
        r@ == jobs@,
{
    let mut r: Vec<usize> = Vec::new();
    let mut i: usize = 0;
    while i < jobs.len()
        invariant
            i <= jobs@.len(),
            r@ == jobs@.take(i as int),
        decreases jobs@.len() - i,
    {
        r.push(jobs[i]);
        proof {
            assert(jobs@.take(i + 1) =~= jobs@.take(i as int).push(jobs@[i as int]));
        }
        i += 1;
    }
    proof {
        assert(jobs@.take(i as int) =~= jobs@);
    }
    r
}

/// The key of a schedule.
fn key_of(jobs: &Vec<usize>) -> (k: u64)
    ensures
        k == order_key(jobs@),
{
    let mut k: u64 = 0;
    let mut i: usize = 0;
    while i < jobs.len()
        invariant
            i <= jobs@.len(),
            k == order_key(jobs@.take(i as int)),
        decreases jobs@.len() - i,
    {
        proof {
            assert(jobs@.take(i + 1).drop_last() =~= jobs@.take(i as int));
        }
        k = k.wrapping_mul(1099511628211u64).wrapping_add(jobs[i] as u64);
        i += 1;
    }
    proof {
        assert(jobs@.take(i as int) =~= jobs@);
    }
    k
}

/// Whether two schedules are the same.
fn same_jobs(a: &Vec<usize>, b: &Vec<usize>) -> (r: bool)
    ensures
        r == (a@ == b@),
{
    if a.len() != b.len() {
        return false;
    }
    let mut i: usize = 0;
    while i < a.len()
        invariant
            a@.len() == b@.len(),
            i <= a@.len(),
            forall|j: int| 0 <= j < i ==> a@[j] == b@[j],
        decreases a@.len() - i,
    {
        if a[i] != b[i] {
            return false;
        }
        i += 1;
    }
    proof {
        assert(a@ =~= b@);
    }
    true
}

/// Whether every job of `order` has a time on every machine, with a machine
/// whenever there is a job.
fn jobs_fit_rows(processing_times: &Vec<Vec<Time>>, order: &Vec<usize>) -> (r: bool)
    ensures
        r == jobs_in_range(matrix_view(processing_times@), order@),
{
    let ghost pt = matrix_view(processing_times@);
    let machines = processing_times.len();
    if order.len() > 0 && machines == 0 {
        return false;
    }
    let mut m: usize = 0;
    while m < machines
        invariant
            pt == matrix_view(processing_times@),
            machines == pt.len(),
            order@.len() > 0 ==> machines > 0,
            m <= machines,
            forall|i: int, k: int| 0 <= i < m && 0 <= k < order@.len() ==> #[trigger] order@[k] < #[trigger] pt[i].len(),
        decreases machines - m,
    {
        let row = &processing_times[m];
        proof {
            assert(pt[m as int] == row@);
        }
        let mut k: usize = 0;
        while k < order.len()
            invariant
                pt == matrix_view(processing_times@),
                machines == pt.len(),
                m < machines,
                *row == processing_times@[m as int],
                pt[m as int] == row@,
                k <= order@.len(),
                forall|j: int| 0 <= j < k ==> #[trigger] order@[j] < row@.len(),
            decreases order@.len() - k,
        {
            if order[k] >= row.len() {
                proof {
                    assert(!(order@[k as int] < pt[m as int].len()));
                }
                return false;
            }
            k += 1;
        }
        proof {
            assert forall|i: int, j: int| 0 <= i < m + 1 && 0 <= j < order@.len() implies #[trigger] order@[j] < #[trigger] pt[i].len() by {
                if i == m {
                    assert(order@[j] < row@.len());
                }
            }
        }
        m += 1;
    }
    true
}

/// The position in `bucket` of the entry for `jobs`, if there is one.
fn find_in_bucket(bucket: &Vec<(Vec<usize>, Time)>, jobs: &Vec<usize>) -> (r: Option<usize>)
    ensures
        match r {
            Some(i) => i < bucket@.len() && bucket@[i as int].0@ == jobs@,
            None => forall|j: int| 0 <= j < bucket@.len() ==> (#[trigger] bucket@[j]).0@ != jobs@,
        },
{
    let mut i: usize = 0;
    while i < bucket.len()
        invariant
            i <= bucket@.len(),
            forall|j: int| 0 <= j < i ==> (#[trigger] bucket@[j]).0@ != jobs@,
        decreases bucket@.len() - i,
    {
        if same_jobs(&bucket[i].0, jobs) {
            return Some(i);
        }
        i += 1;
    }
    None
}

impl TFTEvaluator {
    /// The processing times, one row per machine.
    pub closed spec fn processing(&self) -> Seq<Seq<u64>> {
        matrix_view(self.processing_times@)
    }

    /// The schedule `order` was evaluated since the cache was last cleared.
    pub closed spec fn is_cached(&self, order: Seq<usize>) -> bool {
        let k = order_key(order);
        &&& self.cache@.contains_key(k)
        &&& exists|i: int| 0 <= i < self.cache@[k]@.len() && (#[trigger] self.cache@[k]@[i]).0@ == order
    }

    spec fn bucket_ok(&self, k: u64) -> bool {
        forall|i: int|
            0 <= i < self.cache@[k]@.len() ==> {
                let entry = #[trigger] self.cache@[k]@[i];
                &&& order_key(entry.0@) == k
                &&& entry.1 == total_flow(self.processing(), entry.0@)
                &&& jobs_in_range(self.processing(), entry.0@)
            }
    }

    /// An evaluator for the given processing times, with nothing cached.
    pub fn new(processing_times: Vec<Vec<Time>>) -> (e: Self)
        ensures
            e.well_formed(),
            e.processing() == matrix_view(processing_times@),
            e.evaluations_made() == 0,
            forall|o: Seq<usize>| !#[trigger] e.is_cached(o),
    {
        let e = TFTEvaluator { unique_evaluations: 0, cache: HashMap::new(), processing_times };
        proof {
            broadcast use vstd::std_specs::hash::group_hash_axioms;

        }
        e
    }

    /// Forgets the cached evaluations; the count of evaluations is kept.
    pub fn reset_cache(&mut self)
        ensures
            final(self).well_formed(),
            final(self).processing() == old(self).processing(),
            final(self).evaluations_made() == old(self).evaluations_made(),
            forall|o: Seq<usize>| !#[trigger] final(self).is_cached(o),
    {
        self.cache.clear();
    }
}

/// `after` is `before` once `order` has been evaluated: the same processing
/// times, one more evaluation unless `order` was cached, and `order` cached.
pub open spec fn evaluated(before: TFTEvaluator, order: Seq<usize>, after: TFTEvaluator) -> bool {
    &&& after.processing() == before.processing()
    &&& after.evaluations_made() == before.evaluations_made() + (if before.is_cached(order) {
        0int
    } else {
        1int
    })
    &&& forall|o: Seq<usize>| #[trigger] after.is_cached(o) == (before.is_cached(o) || o == order)
}

/// Evaluating a schedule a second time costs no evaluation and gives the same
/// total flow time.
pub proof fn lemma_second_evaluation_is_free(
    e0: TFTEvaluator,
    e1: TFTEvaluator,
    e2: TFTEvaluator,
    order: Seq<usize>,
)
    requires
        evaluated(e0, order, e1),
        evaluated(e1, order, e2),
    ensures
        e2.evaluations_made() == e1.evaluations_made(),
        e2.evaluation(order) == e1.evaluation(order),
        e1.evaluation(order) == e0.evaluation(order),
{
    assert(e1.is_cached(order));
}

impl Evaluator for TFTEvaluator {
    open spec fn evaluable(&self, order: Seq<usize>) -> bool {
        schedule_fits(self.processing(), order)
    }

    open spec fn evaluation(&self, order: Seq<usize>) -> int {
        total_flow(self.processing(), order)
    }

    closed spec fn evaluations_made(&self) -> nat {
        self.unique_evaluations as nat
    }

    open spec fn remembered(&self, order: Seq<usize>) -> bool {
        self.is_cached(order)
    }

    closed spec fn well_formed(&self) -> bool {
        forall|k: u64| #[trigger] self.cache@.contains_key(k) ==> self.bucket_ok(k)
    }

    fn eval_count(&self) -> (r: u64) {
        self.unique_evaluations
    }

    /// The total flow time of the schedule; an evaluation counts only when
    /// the schedule was not cached already, and it is cached afterwards.
    fn evaluate(&mut self, solution: &Solution) -> (t: Time)
        ensures
            evaluated(*old(self), solution@, *final(self)),
    {
        match self.try_evaluate(solution) {
            Some(t) => t,
            None => 0,
        }
    }

    /// The total flow time of the schedule where every job has its times and
    /// the total fits a `u64`; `None` otherwise. An evaluation counts only when
    /// the schedule was not cached already, and it is cached afterwards.
    fn try_evaluate(&mut self, solution: &Solution) -> (t: Option<Time>)
        ensures
            t is Some ==> evaluated(*old(self), solution@, *final(self)),
    {
        broadcast use vstd::std_specs::hash::group_hash_axioms;

        let key = key_of(&solution.data);
        let ghost k = key;
        match self.cache.get(&key) {
            Some(bucket) => {
                match find_in_bucket(bucket, &solution.data) {
                    Some(i) => {
                        let t = bucket[i].1;
                        proof {
                            assert(self.bucket_ok(k));
                            assert(self.cache@[k]@[i as int].0@ == solution@);
                            assert(self.is_cached(solution@));
                        }
                        return Some(t);
                    },
                    None => {},
                }
            },
            None => {},
        }
        proof {
            assert(!old(self).is_cached(solution@));
        }
        if !jobs_fit_rows(&self.processing_times, &solution.data) {
            return None;
        }
        let t = match solution.checked_total_flow_time(&self.processing_times) {
            Some(t) => t,
            None => {
                return None;
            },
        };
        self.unique_evaluations = self.unique_evaluations + 1;
        let mut bucket = match self.cache.remove(&key) {
            Some(b) => b,
            None => Vec::new(),
        };
        let ghost old_bucket = bucket@;
        bucket.push((copy_jobs(&solution.data), t));
        self.cache.insert(key, bucket);
        proof {
            let new_bucket = self.cache@[k]@;
            assert(old(self).cache@.contains_key(k) ==> old_bucket == old(self).cache@[k]@);
            assert(!old(self).cache@.contains_key(k) ==> old_bucket.len() == 0);
            assert forall|kk: u64| #[trigger] self.cache@.contains_key(kk) implies self.bucket_ok(kk) by {
                if kk != k {
                    assert(old(self).bucket_ok(kk));
                } else {
                    assert forall|i: int| 0 <= i < self.cache@[k]@.len() implies {
                        let entry = #[trigger] self.cache@[k]@[i];
                        &&& order_key(entry.0@) == k
                        &&& entry.1 == total_flow(self.processing(), entry.0@)
                        &&& jobs_in_range(self.processing(), entry.0@)
                    } by {
                        if i < old_bucket.len() {
                            assert(old(self).bucket_ok(k));
                            assert(new_bucket[i] == old_bucket[i]);
                        }
                    }
                }
            }
            assert forall|o: Seq<usize>| #[trigger] self.is_cached(o) == (old(self).is_cached(o) || o == solution@) by {
                let ko = order_key(o);
                if ko == k {
                    if old(self).is_cached(o) {
                        let i = choose|i: int| 0 <= i < old(self).cache@[ko]@.len() && (#[trigger] old(self).cache@[ko]@[i]).0@ == o;
                        assert(new_bucket[i] == old_bucket[i]);
                    }
                    if o == solution@ {
                        assert(new_bucket[old_bucket.len() as int].0@ == o);
                    }
                    if self.is_cached(o) {
                        let i = choose|i: int| 0 <= i < self.cache@[ko]@.len() && (#[trigger] self.cache@[ko]@[i]).0@ == o;
                        if i < old_bucket.len() {
                            assert(new_bucket[i] == old_bucket[i]);
                            assert(old(self).cache@[ko]@[i].0@ == o);
                        }
                    }
                }
            }
        }
        Some(t)
    }
}

} // verus!
