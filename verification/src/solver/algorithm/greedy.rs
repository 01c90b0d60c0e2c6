use std::collections::HashSet;
use vstd::prelude::*;
use vstd::std_specs::iter::IteratorSpec;

use crate::solver::evaluator::Evaluator;
use crate::solver::problem::Time;
use crate::solver::solution::{is_permutation, lemma_permutation_by_count, loosely_valid, Solution};

verus! {

/// The jobs below `n` that `order` does not schedule yet.
pub open spec fn remaining_jobs(order: Seq<usize>, n: nat) -> Set<usize> {
    Set::new(|j: usize| j < n && !order.contains(j))
}

/// Each job of `order` was, when it was appended, one of the cheapest
/// extensions of the schedule built so far.
pub open spec fn greedy_choices<E: Evaluator>(e: E, order: Seq<usize>, n: nat) -> bool {
    forall|k: int, j: usize|
        0 <= k < order.len() && j < n && !order.take(k).contains(j) ==> e.evaluation(
            #[trigger] order.take(k).push(order[k]),
        ) <= e.evaluation(#[trigger] order.take(k).push(j))
}

/// `o` is one of the schedules that the greedy construction tries on its way
/// to `order`: a prefix of `order` extended by a job below `n` that the
/// prefix does not hold yet.
pub open spec fn greedy_candidate(order: Seq<usize>, n: nat, o: Seq<usize>) -> bool {
    exists|k: int, j: usize|
        0 <= k < order.len() && j < n && !order.take(k).contains(j) && o == #[trigger] order.take(k).push(j)
}

/// The schedules tried on the way to `order` that `e` did not have at hand:
/// each of them costs one evaluation.
pub open spec fn new_candidates<E: Evaluator>(e: E, order: Seq<usize>, n: nat) -> Set<Seq<usize>> {
    Set::new(|o: Seq<usize>| greedy_candidate(order, n, o) && !e.remembered(o))
}

/// Builds a schedule job by job, each time appending the job whose addition
/// gives the cheapest partial schedule (the first one tried among equals).
/// Every extension of each partial schedule by each job left is evaluated;
/// `None` as soon as one of them cannot be evaluated.
pub fn try_build_greedy_solution<E: Evaluator>(jobs_amount: usize, evaluator: &mut E) -> (r: Option<Solution>)
    requires
        old(evaluator).well_formed(),
        old(evaluator).evaluations_made() + greedy_evaluations(jobs_amount as nat, jobs_amount as nat)
            <= u64::MAX,
    ensures
        final(evaluator).well_formed(),
        forall|o: Seq<usize>| #[trigger] final(evaluator).evaluable(o) == old(evaluator).evaluable(o),
        forall|o: Seq<usize>| #[trigger] final(evaluator).evaluation(o) == old(evaluator).evaluation(o),
        match r {
            Some(solution) => {
                &&& is_permutation(solution@, jobs_amount as nat)
                &&& greedy_choices(*old(evaluator), solution@, jobs_amount as nat)
                &&& forall|o: Seq<usize>| #[trigger] greedy_candidate(solution@, jobs_amount as nat, o)
                    ==> old(evaluator).evaluable(o)
                &&& forall|o: Seq<usize>| #[trigger] final(evaluator).remembered(o) == (old(
                    evaluator,
                ).remembered(o) || greedy_candidate(solution@, jobs_amount as nat, o))
                &&& new_candidates(*old(evaluator), solution@, jobs_amount as nat).finite()
                &&& final(evaluator).evaluations_made() == old(evaluator).evaluations_made()
                    + new_candidates(*old(evaluator), solution@, jobs_amount as nat).len()
                &&& jobs_amount > 0 ==> final(evaluator).remembered(solution@) && old(
                    evaluator,
                ).evaluable(solution@)
                &&& (forall|o: Seq<usize>| !#[trigger] old(evaluator).remembered(o))
                    ==> final(evaluator).evaluations_made() == old(evaluator).evaluations_made()
                    + greedy_evaluations(jobs_amount as nat, jobs_amount as nat)
            },
            None => exists|p: Seq<usize>, j: usize|
                {
                    &&& loosely_valid(p, jobs_amount as nat)
                    &&& greedy_choices(*old(evaluator), p, jobs_amount as nat)
                    &&& j < jobs_amount
                    &&& !p.contains(j)
                    &&& !old(evaluator).evaluable(#[trigger] p.push(j))
                },
        },
        (forall|o: Seq<usize>| loosely_valid(o, jobs_amount as nat) ==> #[trigger] old(evaluator).evaluable(o))
            ==> r is Some,
{
    broadcast use vstd::std_specs::hash::group_hash_axioms;

    let ghost e0 = *evaluator;
    let ghost n = jobs_amount as nat;
    let ghost init = evaluator.evaluations_made();
    let ghost fresh = forall|o: Seq<usize>| !#[trigger] e0.remembered(o);
    let ghost all_fit = forall|o: Seq<usize>| loosely_valid(o, n) ==> #[trigger] e0.evaluable(o);
    let ghost mut newly: Set<Seq<usize>> = Set::empty();
    let mut solution = Solution::empty();
    let mut available: HashSet<usize> = HashSet::new();
    let mut j: usize = 0;
    while j < jobs_amount
        invariant
            j <= jobs_amount,
            available@ == Set::new(|x: usize| x < j),
        decreases jobs_amount - j,
    {
        available.insert(j);
        proof {
            assert(available@ =~= Set::new(|x: usize| x < j + 1));
        }
        j += 1;
    }
    proof {
        assert(available@ =~= remaining_jobs(solution@, n));
        lemma_usize_range_len(n);
        lemma_greedy_evaluations_monotone(n, 0, n);
        assert(newly =~= Set::new(|o: Seq<usize>| evaluator.remembered(o) && !e0.remembered(o)));
    }
    while !available.is_empty()
        invariant
            e0 == *old(evaluator),
            n == jobs_amount,
            evaluator.well_formed(),
            forall|o: Seq<usize>| #[trigger] evaluator.evaluable(o) == e0.evaluable(o),
            forall|o: Seq<usize>| #[trigger] evaluator.evaluation(o) == e0.evaluation(o),
            init + greedy_evaluations(n, n) <= u64::MAX,
            loosely_valid(solution@, n),
            available@ == remaining_jobs(solution@, n),
            available@.finite(),
            solution@.len() + available@.len() == n,
            greedy_choices(e0, solution@, n),
            evaluator.evaluations_made() <= init + greedy_evaluations(n, solution@.len()),
            solution@.len() > 0 ==> evaluator.remembered(solution@) && e0.evaluable(solution@),
            forall|o: Seq<usize>| #[trigger] evaluator.remembered(o) == (e0.remembered(o) || greedy_candidate(solution@, n, o)),
            forall|o: Seq<usize>| #[trigger] greedy_candidate(solution@, n, o) ==> e0.evaluable(o),
            newly == Set::new(|o: Seq<usize>| evaluator.remembered(o) && !e0.remembered(o)),
            newly.finite(),
            evaluator.evaluations_made() == init + newly.len(),
            fresh == forall|o: Seq<usize>| !#[trigger] e0.remembered(o),
            all_fit == forall|o: Seq<usize>| loosely_valid(o, n) ==> #[trigger] e0.evaluable(o),
            fresh ==> evaluator.evaluations_made() == init + greedy_evaluations(n, solution@.len()),
            fresh ==> forall|o: Seq<usize>| #[trigger] evaluator.remembered(o) ==> o.len() <= solution@.len(),
        decreases available@.len(),
    {
        let ghost base = solution@;
        let ghost round_start = evaluator.evaluations_made();
        let mut best_evaluation: Time = Time::MAX;
        let mut best_job: usize = 0;
        let mut have_best = false;
        let ghost candidates = vstd::std_specs::hash::spec_hash_keys_iter(&available).remaining();
        let ghost mut examined: int = 0;
        proof {
            assert(base.len() < n);
            lemma_greedy_evaluations_monotone(n, base.len() + 1, n);
            assert(greedy_evaluations(n, base.len() + 1) == greedy_evaluations(n, base.len()) + (n - base.len()));
        }
        for job in it: available.iter()
            invariant
                e0 == *old(evaluator),
                n == jobs_amount,
                evaluator.well_formed(),
                forall|o: Seq<usize>| #[trigger] evaluator.evaluable(o) == e0.evaluable(o),
                forall|o: Seq<usize>| #[trigger] evaluator.evaluation(o) == e0.evaluation(o),
                solution@ == base,
                loosely_valid(base, n),
                greedy_choices(e0, base, n),
                available@ == remaining_jobs(base, n),
                it.seq() == candidates,
                candidates.unref().to_set() == available@,
                candidates.unref().no_duplicates(),
                candidates.len() == available@.len(),
                examined == it.index(),
                round_start + (n - base.len()) <= init + greedy_evaluations(n, n),
                init + greedy_evaluations(n, n) <= u64::MAX,
                round_start <= init + greedy_evaluations(n, base.len()),
                base.len() + available@.len() == n,
                evaluator.evaluations_made() <= round_start + it.index(),
                have_best == (examined > 0),
                base.len() > 0 ==> evaluator.remembered(base) && e0.evaluable(base),
                forall|o: Seq<usize>| #[trigger] evaluator.remembered(o) == (e0.remembered(o) || greedy_candidate(base, n, o)
                    || exists|i: int| 0 <= i < examined && o == base.push(*candidates[i])),
                forall|o: Seq<usize>| #[trigger] greedy_candidate(base, n, o) ==> e0.evaluable(o),
                forall|i: int| 0 <= i < examined ==> #[trigger] e0.evaluable(base.push(*candidates[i])),
                newly == Set::new(|o: Seq<usize>| evaluator.remembered(o) && !e0.remembered(o)),
                newly.finite(),
                evaluator.evaluations_made() == init + newly.len(),
                all_fit == forall|o: Seq<usize>| loosely_valid(o, n) ==> #[trigger] e0.evaluable(o),
                examined > 0 ==> evaluator.remembered(base.push(best_job)) && e0.evaluable(base.push(best_job)),
                fresh == forall|o: Seq<usize>| !#[trigger] e0.remembered(o),
                fresh ==> evaluator.evaluations_made() == round_start + examined,
                fresh ==> round_start == init + greedy_evaluations(n, base.len()),
                fresh ==> forall|o: Seq<usize>|
                    #[trigger] evaluator.remembered(o) ==> o.len() <= base.len() || exists|i: int|
                        0 <= i < examined && o == base.push(*candidates[i]),
                examined > 0 ==> {
                    &&& available@.contains(best_job)
                    &&& best_evaluation == e0.evaluation(base.push(best_job))
                    &&& forall|i: int| 0 <= i < examined ==> best_evaluation <= e0.evaluation(
                        #[trigger] base.push(*candidates[i]),
                    )
                },
        {
            let candidate = *job;
            proof {
                assert(it.seq().unref()[it.index() as int] == candidate);
                assert(it.seq().unref().to_set().contains(candidate));
                assert(available@.contains(candidate));
                lemma_extend_loosely_valid(base, candidate, n);
                assert(it.index() < it.seq().len());
                assert(examined < n - base.len());
                assert(evaluator.evaluations_made() < u64::MAX);
            }
            solution.data.push(candidate);
            proof {
                if fresh && evaluator.remembered(solution@) {
                    assert(solution@.len() == base.len() + 1);
                    let i = choose|i: int| 0 <= i < examined && solution@ == base.push(*candidates[i]);
                    assert(solution@.last() == *candidates[i]);
                    assert(candidates.unref()[i] == candidates.unref()[examined]);
                    assert(false);
                }
            }
            let ghost evaluated_now = solution@;
            let ghost before = *evaluator;
            let outcome = evaluator.try_evaluate(&solution);
            solution.data.pop();
            proof {
                assert(solution@ =~= base);
            }
            let current_evaluation = match outcome {
                Some(t) => t,
                None => {
                    proof {
                        assert(*evaluator == before);
                        assert forall|o: Seq<usize>| #[trigger] evaluator.evaluable(o) == e0.evaluable(o) by {
                            assert(before.evaluable(o) == e0.evaluable(o));
                        }
                        assert forall|o: Seq<usize>| #[trigger] evaluator.evaluation(o) == e0.evaluation(o) by {
                            assert(before.evaluation(o) == e0.evaluation(o));
                        }
                        assert(evaluated_now == base.push(candidate));
                        assert(!e0.evaluable(base.push(candidate)));
                        if all_fit {
                            assert(loosely_valid(base.push(candidate), n));
                        }
                    }
                    return None;
                },
            };
            if !have_best || current_evaluation < best_evaluation {
                best_evaluation = current_evaluation;
                best_job = candidate;
                have_best = true;
            }
            proof {
                assert(evaluated_now == base.push(candidate));
                assert(*candidates[examined] == candidate);
                assert(evaluator.remembered(base.push(candidate)));
                let old_newly = newly;
                newly = Set::new(|o: Seq<usize>| evaluator.remembered(o) && !e0.remembered(o));
                if before.remembered(evaluated_now) {
                    assert(newly =~= old_newly);
                } else {
                    assert(newly =~= old_newly.insert(evaluated_now));
                    assert(!old_newly.contains(evaluated_now));
                }
                assert forall|o: Seq<usize>| #[trigger] evaluator.remembered(o) == (e0.remembered(o)
                    || greedy_candidate(base, n, o) || exists|i: int| 0 <= i < examined + 1 && o == base.push(
                    *candidates[i],
                )) by {
                    if o == evaluated_now {
                        assert(o == base.push(*candidates[examined]));
                    }
                    if exists|i: int| 0 <= i < examined + 1 && o == base.push(*candidates[i]) {
                        let i = choose|i: int| 0 <= i < examined + 1 && o == base.push(*candidates[i]);
                        if i < examined {
                            assert(exists|i2: int| 0 <= i2 < examined && o == base.push(*candidates[i2]));
                        }
                    }
                }
                if fresh {
                    assert forall|o: Seq<usize>| #[trigger] evaluator.remembered(o) implies o.len()
                        <= base.len() || exists|i: int|
                        0 <= i < examined + 1 && o == base.push(*candidates[i]) by {
                        if o == evaluated_now {
                            assert(*candidates[examined] == candidate);
                        }
                    }
                }
                examined = examined + 1;
            }
        }
        proof {
            assert(examined == candidates.len());
            assert(available@.len() > 0);
            assert(examined > 0) by {
                if candidates.len() == 0 {
                    assert(candidates.unref().to_set() =~= Set::empty());
                }
            }
            assert forall|x: usize| x < n && !base.contains(x) implies best_evaluation <= e0.evaluation(
                #[trigger] base.push(x),
            ) by {
                assert(available@.contains(x));
                assert(candidates.unref().to_set().contains(x));
                let i = choose|i: int| 0 <= i < candidates.unref().len() && candidates.unref()[i] == x;
                assert(*candidates[i] == x);
            }
        }
        let ghost round_jobs = available@;
        available.remove(&best_job);
        solution.data.push(best_job);
        proof {
            let s = solution@;
            assert(s.drop_last() =~= base);
            assert(s.take(base.len() as int) =~= base);
            lemma_extend_loosely_valid(base, best_job, n);
            assert(available@ =~= remaining_jobs(s, n)) by {
                assert forall|x: usize| s.contains(x) <==> base.contains(x) || x == best_job by {
                    if s.contains(x) {
                        let i = choose|i: int| 0 <= i < s.len() && s[i] == x;
                        if i < base.len() {
                            assert(base[i] == x);
                        }
                    }
                    if base.contains(x) {
                        let i = choose|i: int| 0 <= i < base.len() && base[i] == x;
                        assert(s[i] == x);
                    }
                    if x == best_job {
                        assert(s[base.len() as int] == x);
                    }
                }
            }
            assert forall|k: int, x: usize|
                0 <= k < s.len() && x < n && !s.take(k).contains(x) implies e0.evaluation(
                #[trigger] s.take(k).push(s[k]),
            ) <= e0.evaluation(#[trigger] s.take(k).push(x)) by {
                if k < base.len() {
                    assert(s.take(k) =~= base.take(k));
                    assert(s[k] == base[k]);
                } else {
                    assert(s.take(k) =~= base);
                }
            }
            assert forall|o: Seq<usize>| #[trigger] greedy_candidate(s, n, o) == (greedy_candidate(base, n, o)
                || exists|i: int| 0 <= i < examined && o == base.push(*candidates[i])) by {
                if greedy_candidate(s, n, o) {
                    let (k, x) = choose|k: int, x: usize|
                        0 <= k < s.len() && x < n && !s.take(k).contains(x) && o == #[trigger] s.take(k).push(x);
                    if k < base.len() {
                        assert(s.take(k) =~= base.take(k));
                        assert(greedy_candidate(base, n, o));
                    } else {
                        assert(s.take(k) =~= base);
                        assert(round_jobs.contains(x));
                        assert(candidates.unref().to_set().contains(x));
                        let i = choose|i: int| 0 <= i < candidates.unref().len() && candidates.unref()[i] == x;
                        assert(*candidates[i] == x);
                    }
                }
                if greedy_candidate(base, n, o) {
                    let (k, x) = choose|k: int, x: usize|
                        0 <= k < base.len() && x < n && !base.take(k).contains(x) && o == #[trigger] base.take(k).push(x);
                    assert(s.take(k) =~= base.take(k));
                    assert(o == s.take(k).push(x));
                }
                if exists|i: int| 0 <= i < examined && o == base.push(*candidates[i]) {
                    let i = choose|i: int| 0 <= i < examined && o == base.push(*candidates[i]);
                    let x = *candidates[i];
                    assert(candidates.unref()[i] == x);
                    assert(candidates.unref().to_set().contains(x));
                    assert(round_jobs.contains(x));
                    assert(o == s.take(base.len() as int).push(x));
                }
            }
            assert(greedy_candidate(s, n, s)) by {
                assert(s == s.take(base.len() as int).push(best_job));
            }
            if fresh {
                assert(greedy_evaluations(n, s.len()) == greedy_evaluations(n, base.len()) + (n
                    - base.len()));
                assert forall|o: Seq<usize>| #[trigger] evaluator.remembered(o) implies o.len() <= s.len() by {
                    if o.len() > base.len() {
                        let i = choose|i: int| 0 <= i < examined && o == base.push(*candidates[i]);
                    }
                }
            }
        }
    }
    proof {
        lemma_permutation_by_count(solution@, n);
        assert forall|x: usize| x < n implies solution@.contains(x) by {
            assert(!available@.contains(x));
        }
        lemma_permutation_by_count(solution@, n);
        assert(solution@.len() == n);
        assert(new_candidates(e0, solution@, n) =~= newly);
    }
    Some(solution)
}

/// Builds a schedule job by job, each time appending the job whose addition
/// gives the cheapest partial schedule (the first one tried among equals).
/// Every extension of each partial schedule by each job left is evaluated.
pub fn build_greedy_solution<E: Evaluator>(jobs_amount: usize, evaluator: &mut E) -> (solution: Solution)
    requires
        old(evaluator).well_formed(),
        forall|o: Seq<usize>| loosely_valid(o, jobs_amount as nat) ==> #[trigger] old(evaluator).evaluable(o),
        old(evaluator).evaluations_made() + greedy_evaluations(jobs_amount as nat, jobs_amount as nat)
            <= u64::MAX,
    ensures
        final(evaluator).well_formed(),
        forall|o: Seq<usize>| #[trigger] final(evaluator).evaluable(o) == old(evaluator).evaluable(o),
        forall|o: Seq<usize>| #[trigger] final(evaluator).evaluation(o) == old(evaluator).evaluation(o),
        is_permutation(solution@, jobs_amount as nat),
        greedy_choices(*old(evaluator), solution@, jobs_amount as nat),
        forall|o: Seq<usize>| #[trigger] final(evaluator).remembered(o) == (old(evaluator).remembered(o)
            || greedy_candidate(solution@, jobs_amount as nat, o)),
        new_candidates(*old(evaluator), solution@, jobs_amount as nat).finite(),
        final(evaluator).evaluations_made() == old(evaluator).evaluations_made() + new_candidates(
            *old(evaluator),
            solution@,
            jobs_amount as nat,
        ).len(),
        jobs_amount > 0 ==> final(evaluator).remembered(solution@),
        (forall|o: Seq<usize>| !#[trigger] old(evaluator).remembered(o))
            ==> final(evaluator).evaluations_made() == old(evaluator).evaluations_made()
            + greedy_evaluations(jobs_amount as nat, jobs_amount as nat),
{
    match try_build_greedy_solution(jobs_amount, evaluator) {
        Some(solution) => solution,
        None => Solution::empty(),
    }
}

/// How many schedules the greedy construction evaluates on `n` jobs in its
/// first `rounds` rounds: round `r` tries each of the `n - r` jobs left.
pub open spec fn greedy_evaluations(n: nat, rounds: nat) -> nat
    decreases rounds,
{
    if rounds == 0 {
        0
    } else {
        greedy_evaluations(n, (rounds - 1) as nat) + (n - (rounds - 1)) as nat
    }
}

/// Over all its rounds, the greedy construction evaluates `n (n + 1) / 2`
/// schedules.
pub proof fn lemma_greedy_evaluations(n: nat, rounds: nat)
    requires
        rounds <= n,
    ensures
        2 * greedy_evaluations(n, rounds) == rounds * (2 * n + 1 - rounds),
    decreases rounds,
{
    if rounds > 0 {
        let r: int = rounds - 1;
        lemma_greedy_evaluations(n, r as nat);
        let g: int = greedy_evaluations(n, r as nat) as int;
        assert(greedy_evaluations(n, rounds) == g + (n - r));
        assert(2 * g == r * (2 * n + 1 - r));
        assert(r * (2 * n + 1 - r) + 2 * (n - r) == rounds * (2 * n + 1 - rounds)) by (nonlinear_arith)
            requires
                r == rounds - 1,
        ;
        assert(2 * greedy_evaluations(n, rounds) == r * (2 * n + 1 - r) + 2 * (n - r));
    } else {
        assert(rounds * (2 * n + 1 - rounds) == 0) by (nonlinear_arith)
            requires
                rounds == 0,
        ;
    }
}

/// More rounds take at least as many evaluations.
pub proof fn lemma_greedy_evaluations_monotone(n: nat, a: nat, b: nat)
    requires
        a <= b <= n,
    ensures
        greedy_evaluations(n, a) <= greedy_evaluations(n, b),
    decreases b - a,
{
    if a < b {
        lemma_greedy_evaluations_monotone(n, a, (b - 1) as nat);
    }
}

/// Appending a job that is not scheduled yet keeps a schedule loosely valid.
pub proof fn lemma_extend_loosely_valid(base: Seq<usize>, job: usize, n: nat)
    requires
        loosely_valid(base, n),
        job < n,
        !base.contains(job),
    ensures
        loosely_valid(base.push(job), n),
{
    let s = base.push(job);
    assert forall|i: int, j: int| 0 <= i < j < s.len() implies s[i] != s[j] by {
        if j == base.len() {
            assert(base.contains(s[i]));
        }
    }
}

/// The jobs below `n` form a set of `n` elements.
proof fn lemma_usize_range_len(n: nat)
    requires
        n <= usize::MAX,
    ensures
        Set::new(|x: usize| x < n).finite(),
        Set::new(|x: usize| x < n).len() == n,
    decreases n,
{
    if n == 0 {
        assert(Set::new(|x: usize| x < n) =~= Set::<usize>::empty());
    } else {
        lemma_usize_range_len((n - 1) as nat);
        assert(Set::new(|x: usize| x < n) =~= Set::new(|x: usize| x < n - 1).insert((n - 1) as usize));
    }
}

} // verus!
