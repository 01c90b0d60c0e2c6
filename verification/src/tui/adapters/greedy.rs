use vstd::prelude::*;

use crate::solver::algorithm::greedy::{
    greedy_choices, lemma_greedy_evaluations, try_build_greedy_solution,
};
use crate::solver::evaluator::{Evaluator, TFTEvaluator};
use crate::solver::problem::Time;
use crate::solver::schedule::{matrix_view, schedule_fits, total_flow};
use crate::solver::solution::{is_permutation, loosely_valid, Solution};
use crate::tui::adapters::adapter::{Adapter, Settings};

verus! {

/// The greedy construction of a schedule, job by job.
pub struct AdapterGreedy {
    pub settings: Settings,
}

impl Adapter for AdapterGreedy {
    open spec fn settings_view(&self) -> Seq<char> {
        self.settings@
    }

    fn new(settings: Settings) -> (r: Self) {
        AdapterGreedy { settings }
    }

    fn name(&self) -> (r: &'static str)
        ensures
            r@ == "Greedy Algorithm"@,
    {
        "Greedy Algorithm"
    }

    fn short_name(&self) -> (r: &'static str)
        ensures
            r@ == "GR"@,
    {
        "GR"
    }

    fn get_settings(&self) -> (r: &Settings) {
        &self.settings
    }

    fn set_settings(&mut self, new_settings: Settings) {
        self.settings = new_settings;
    }
}

impl Default for AdapterGreedy {
    /// The settings that the interface starts with.
    fn default() -> (r: Self)
        ensures
            r.settings@ == Seq::<char>::empty(),
    {
        AdapterGreedy { settings: String::new() }
    }
}

/// Each job of `order` was, when it was appended, one of the extensions of
/// the schedule built so far with the lowest total flow time.
pub open spec fn cheapest_extensions(pt: Seq<Seq<u64>>, order: Seq<usize>, n: nat) -> bool {
    forall|k: int, j: usize|
        0 <= k < order.len() && j < n && !order.take(k).contains(j) ==> total_flow(
            pt,
            #[trigger] order.take(k).push(order[k]),
        ) <= total_flow(pt, #[trigger] order.take(k).push(j))
}

/// What a run of the greedy construction reports: the schedule, its total
/// flow time and how many evaluations it took (`n (n + 1) / 2` on `n > 0`
/// jobs, since each round tries every job left; 1 on no jobs, the empty
/// schedule itself).
pub struct GreedyOutcome {
    pub solution: Solution,
    pub fitness: Time,
    pub evaluations: u64,
}

/// Runs the greedy construction on an instance. `None` where the count of
/// evaluations, `n (n + 1) / 2`, does not fit a `u64`, or where the
/// construction reaches a schedule that cannot be evaluated: a job without a
/// time on some machine, or a total flow time beyond `u64::MAX`.
pub fn greedy_run(processing_times: Vec<Vec<Time>>, jobs_number: usize) -> (r: Option<
    GreedyOutcome,
>)
    ensures
        match r {
            Some(o) => {
                &&& is_permutation(o.solution@, jobs_number as nat)
                &&& cheapest_extensions(matrix_view(processing_times@), o.solution@, jobs_number as nat)
                &&& o.fitness == total_flow(matrix_view(processing_times@), o.solution@)
                &&& 2 * o.evaluations == jobs_number * (jobs_number + 1) + (if jobs_number == 0 {
                    2int
                } else {
                    0int
                })
            },
            None => jobs_number * (jobs_number + 1) > 2 * u64::MAX || exists|p: Seq<usize>, j: usize|
                {
                    &&& loosely_valid(p, jobs_number as nat)
                    &&& cheapest_extensions(matrix_view(processing_times@), p, jobs_number as nat)
                    &&& j < jobs_number
                    &&& !p.contains(j)
                    &&& !schedule_fits(matrix_view(processing_times@), #[trigger] p.push(j))
                },
        },
        jobs_number * (jobs_number + 1) <= 2 * u64::MAX && (forall|o: Seq<usize>|
            loosely_valid(o, jobs_number as nat) ==> #[trigger] schedule_fits(
                matrix_view(processing_times@),
                o,
            )) ==> r is Some,
{
    let ghost pt = matrix_view(processing_times@);
    let ghost n = jobs_number as nat;
    let wide = jobs_number as u128;
    proof {
        assert(wide * (wide + 1) <= 0xFFFF_FFFF_FFFF_FFFFu128 * 0x1_0000_0000_0000_0000u128) by (nonlinear_arith)
            requires wide <= 0xFFFF_FFFF_FFFF_FFFFu128;
        lemma_greedy_evaluations(n, n);
        assert(n * (2 * n + 1 - n) == n * (n + 1)) by (nonlinear_arith);
    }
    if wide * (wide + 1) > 2 * (u64::MAX as u128) {
        return None;
    }
    let mut evaluator = TFTEvaluator::new(processing_times);
    let ghost e0 = evaluator;
    let built = try_build_greedy_solution(jobs_number, &mut evaluator);
    let solution = match built {
        Some(s) => s,
        None => {
            proof {
                let (p, j) = choose|p: Seq<usize>, j: usize|
                    {
                        &&& loosely_valid(p, n)
                        &&& greedy_choices(e0, p, n)
                        &&& j < jobs_number
                        &&& !p.contains(j)
                        &&& !e0.evaluable(#[trigger] p.push(j))
                    };
                assert(cheapest_extensions(pt, p, n));
                assert(!schedule_fits(pt, p.push(j)));
            }
            return None;
        },
    };
    proof {
        assert(cheapest_extensions(pt, solution@, n)) by {
            assert forall|k: int, j: usize|
                0 <= k < solution@.len() && j < jobs_number && !solution@.take(k).contains(j) implies total_flow(
                pt,
                #[trigger] solution@.take(k).push(solution@[k]),
            ) <= total_flow(pt, #[trigger] solution@.take(k).push(j)) by {
                assert(e0.evaluation(solution@.take(k).push(solution@[k])) <= e0.evaluation(
                    solution@.take(k).push(j),
                ));
            }
        }
        if jobs_number == 0 {
            assert(solution@.len() == 0);
            assert(!evaluator.remembered(solution@));
            assert(total_flow(pt, solution@) == 0);
            assert(schedule_fits(pt, solution@));
        }
    }
    let fitness = evaluator.evaluate(&solution);
    let evaluations = evaluator.eval_count();
    Some(GreedyOutcome { solution, fitness, evaluations })
}

} // verus!
