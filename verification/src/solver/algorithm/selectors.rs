use rand::rngs::StdRng;
use vstd::prelude::*;

use crate::solver::evaluator::Evaluator;
use crate::solver::helpers::sample_indices;
use crate::solver::population::Population;
use crate::solver::problem::Time;
use crate::solver::solution::Solution;

verus! {

/// Every member of the population can be evaluated.
pub open spec fn population_evaluable<E: Evaluator>(e: E, members: Seq<Solution>) -> bool {
    forall|i: int| 0 <= i < members.len() ==> #[trigger] e.evaluable(members[i]@)
}

/// Picks a parent from a population.
pub trait Selector {
    /// The selector is able to pick from a non-empty population.
    spec fn ready(&self) -> bool;

    /// `r` is the jobs of a member that the selector can pick from `members`,
    /// whose evaluations are `costs`.
    spec fn picks(&self, members: Seq<Solution>, costs: Seq<int>, r: Seq<usize>) -> bool;

    fn name(&self) -> &'static str;

    fn select<'a, E: Evaluator>(
        &self,
        rng: &mut StdRng,
        population: &'a Population,
        evaluator: &mut E,
    ) -> (r: &'a Solution)
        requires
            self.ready(),
            population.data@.len() > 0,
            old(evaluator).well_formed(),
            population_evaluable(*old(evaluator), population.data@),
            old(evaluator).evaluations_made() + population.data@.len() <= u64::MAX,
        ensures
            population.data@.contains(*r),
            self.picks(population.data@, member_costs(*old(evaluator), population.data@), r@),
            final(evaluator).well_formed(),
            forall|o: Seq<usize>| #[trigger] final(evaluator).evaluable(o) == old(evaluator).evaluable(o),
            forall|o: Seq<usize>| #[trigger] final(evaluator).evaluation(o) == old(evaluator).evaluation(o),
            old(evaluator).evaluations_made() <= final(evaluator).evaluations_made() <= old(
                evaluator,
            ).evaluations_made() + population.data@.len(),
    ;
}

/// Draws a few members at random and keeps the best of them.
pub struct Tournament {
    pub size: usize,
}

impl Tournament {
    /// Tournaments of `size` members.
    pub fn new(size: usize) -> (t: Self)
        ensures
            t.size == size,
    {
        Self { size }
    }
}

/// The member of `pool` (positions in the population) with the lowest
/// evaluation; among equals, the first one in the order of `pool`.
pub fn tournament_winner<E: Evaluator>(population: &Population, evaluator: &mut E, pool: &Vec<usize>) -> (w: usize)
    requires
        pool@.len() > 0,
        forall|i: int| 0 <= i < pool@.len() ==> #[trigger] pool@[i] < population.data@.len(),
        old(evaluator).well_formed(),
        population_evaluable(*old(evaluator), population.data@),
        old(evaluator).evaluations_made() + pool@.len() <= u64::MAX,
    ensures
        final(evaluator).well_formed(),
        forall|o: Seq<usize>| #[trigger] final(evaluator).evaluable(o) == old(evaluator).evaluable(o),
        forall|o: Seq<usize>| #[trigger] final(evaluator).evaluation(o) == old(evaluator).evaluation(o),
        old(evaluator).evaluations_made() <= final(evaluator).evaluations_made() <= old(
            evaluator,
        ).evaluations_made() + pool@.len(),
        exists|b: int|
            0 <= b < pool@.len() && w == pool@[b] && (forall|i: int|
                0 <= i < pool@.len() ==> old(evaluator).evaluation(population.data@[w as int]@)
                    <= old(evaluator).evaluation(population.data@[#[trigger] pool@[i] as int]@)) && (
            forall|i: int|
                0 <= i < b ==> old(evaluator).evaluation(population.data@[w as int]@) < old(
                    evaluator,
                ).evaluation(population.data@[#[trigger] pool@[i] as int]@)),
{
    let ghost e0 = *evaluator;
    let ghost start = evaluator.evaluations_made();
    let mut best = pool[0];
    let mut best_time: Time = evaluator.evaluate(&population.data[best]);
    let ghost mut b: int = 0;
    let mut i: usize = 1;
    while i < pool.len()
        invariant
            1 <= i <= pool@.len(),
            forall|k: int| 0 <= k < pool@.len() ==> #[trigger] pool@[k] < population.data@.len(),
            evaluator.well_formed(),
            forall|o: Seq<usize>| #[trigger] evaluator.evaluable(o) == e0.evaluable(o),
            forall|o: Seq<usize>| #[trigger] evaluator.evaluation(o) == e0.evaluation(o),
            population_evaluable(e0, population.data@),
            start <= evaluator.evaluations_made() <= start + i,
            start + pool@.len() <= u64::MAX,
            0 <= b < i,
            best == pool@[b],
            best_time == e0.evaluation(population.data@[best as int]@),
            forall|k: int| 0 <= k < i ==> best_time <= e0.evaluation(population.data@[#[trigger] pool@[k] as int]@),
            forall|k: int| 0 <= k < b ==> best_time < e0.evaluation(population.data@[#[trigger] pool@[k] as int]@),
        decreases pool@.len() - i,
    {
        let candidate = pool[i];
        let time = evaluator.evaluate(&population.data[candidate]);
        if time < best_time {
            best = candidate;
            best_time = time;
            proof {
                b = i as int;
            }
        }
        i += 1;
    }
    best
}

/// The evaluations of the members, in population order.
pub open spec fn member_costs<E: Evaluator>(e: E, members: Seq<Solution>) -> Seq<int> {
    Seq::new(members.len(), |i: int| e.evaluation(members[i]@))
}

/// A tournament of `size` over `members`, whose evaluations are `costs`, can
/// end with `r`: `pool` holds `min(size, members.len())` distinct positions,
/// and `r` is the jobs of the member at its position `b`, which has the lowest
/// evaluation of the pool and comes first among the members of the pool with
/// that evaluation.
pub open spec fn tournament_outcome(
    members: Seq<Solution>,
    costs: Seq<int>,
    size: usize,
    pool: Seq<usize>,
    b: int,
    r: Seq<usize>,
) -> bool {
    &&& pool.len() == (if size < members.len() {
        size as int
    } else {
        members.len() as int
    })
    &&& pool.no_duplicates()
    &&& 0 <= b < pool.len()
    &&& forall|i: int| 0 <= i < pool.len() ==> #[trigger] pool[i] < members.len()
    &&& r == members[pool[b] as int]@
    &&& forall|i: int| 0 <= i < pool.len() ==> costs[pool[b] as int] <= costs[#[trigger] pool[i] as int]
    &&& forall|i: int| 0 <= i < b ==> costs[pool[b] as int] < costs[#[trigger] pool[i] as int]
}

impl Selector for Tournament {
    open spec fn ready(&self) -> bool {
        self.size >= 1
    }

    open spec fn picks(&self, members: Seq<Solution>, costs: Seq<int>, r: Seq<usize>) -> bool {
        exists|pool: Seq<usize>, b: int| tournament_outcome(members, costs, self.size, pool, b, r)
    }

    fn name(&self) -> (r: &'static str)
        ensures
            r@ == "Tournament"@,
    {
        "Tournament"
    }

    /// The winner of a tournament among `size` distinct members (all of them
    /// when the population is smaller) drawn at random.
    fn select<'a, E: Evaluator>(
        &self,
        rng: &mut StdRng,
        population: &'a Population,
        evaluator: &mut E,
    ) -> (r: &'a Solution) {
        let len = population.data.len();
        let amount = if self.size < len {
            self.size
        } else {
            len
        };
        let pool = sample_indices(rng, len, amount);
        let ghost e0 = *evaluator;
        let w = tournament_winner(population, evaluator, &pool);
        let r = &population.data[w];
        proof {
            assert(population.data@[w as int] == *r);
            assert(population.data@.contains(*r));
            let b = choose|b: int|
                0 <= b < pool@.len() && w == pool@[b] && (forall|i: int|
                    0 <= i < pool@.len() ==> e0.evaluation(population.data@[w as int]@)
                        <= e0.evaluation(population.data@[#[trigger] pool@[i] as int]@)) && (
                forall|i: int|
                    0 <= i < b ==> e0.evaluation(population.data@[w as int]@) < e0.evaluation(
                        population.data@[#[trigger] pool@[i] as int]@,
                    ));
            let costs = member_costs(e0, population.data@);
            assert forall|i: int| 0 <= i < pool@.len() implies costs[pool@[b] as int] <= #[trigger] costs[pool@[i] as int] by {
                assert(pool@[i] < population.data@.len());
            }
            assert forall|i: int| 0 <= i < b implies costs[pool@[b] as int] < #[trigger] costs[pool@[i] as int] by {
                assert(pool@[i] < population.data@.len());
            }
            assert(tournament_outcome(population.data@, costs, self.size, pool@, b, r@));
            assert(self.picks(population.data@, costs, r@));
        }
        r
    }
}

/// Picks a member with probability proportional to the inverse of its
/// evaluation.
pub struct Roulette;

impl Roulette {
    /// The roulette.
    pub fn new() -> Self {
        Self {  }
    }
}

} // verus!
