use rand::rngs::StdRng;
use vstd::prelude::*;

use crate::solver::algorithm::selectors::population_evaluable;
use crate::solver::evaluator::{copy_jobs, Evaluator};
use crate::solver::helpers::shuffle_values;
use crate::solver::problem::Time;
use crate::solver::solution::{
    identity_order, is_permutation, lemma_identity_is_permutation, lemma_same_multiset_permutation,
    Solution,
};

verus! {

/// A collection of candidate schedules.
pub struct Population {
    pub data: Vec<Solution>,
}

/// The smallest population the genetic algorithm works with.
pub const MIN_POPULATION_SIZE: usize = 4;

/// Every member of `members` is a permutation of the jobs `0..jobs_amount`.
pub open spec fn all_permutations(members: Seq<Solution>, jobs_amount: nat) -> bool {
    forall|i: int| 0 <= i < members.len() ==> is_permutation(#[trigger] members[i]@, jobs_amount)
}

impl Population {
    /// A population without members.
    pub fn empty() -> (p: Self)
        ensures
            p.data@ == Seq::<Solution>::empty(),
    {
        Population { data: Vec::new() }
    }

    /// A population of the given members.
    pub fn new(value: Vec<Solution>) -> (p: Self)
        ensures
            p.data == value,
    {
        Population { data: value }
    }

    /// `population_size` permutations of the jobs `0..jobs_amount`, each drawn
    /// by shuffling the previous one again.
    pub fn random(rng: &mut StdRng, population_size: usize, jobs_amount: usize) -> (p: Self)
        ensures
            p.data@.len() == population_size,
            all_permutations(p.data@, jobs_amount as nat),
    {
        let mut range: Vec<usize> = Vec::new();
        let mut j: usize = 0;
        while j < jobs_amount
            invariant
                j <= jobs_amount,
                range@ == identity_order(j as nat),
            decreases jobs_amount - j,
        {
            range.push(j);
            j += 1;
        }
        proof {
            lemma_identity_is_permutation(jobs_amount as nat);
        }
        let mut data: Vec<Solution> = Vec::new();
        let mut k: usize = 0;
        while k < population_size
            invariant
                k <= population_size,
                data@.len() == k,
                is_permutation(range@, jobs_amount as nat),
                all_permutations(data@, jobs_amount as nat),
            decreases population_size - k,
        {
            let ghost before = range@;
            shuffle_values(rng, &mut range);
            proof {
                lemma_same_multiset_permutation(before, range@, jobs_amount as nat);
            }
            data.push(Solution::new(copy_jobs(&range)));
            k += 1;
        }
        Population { data }
    }

    /// A population of `population_size` schedules that starts with `initial`;
    /// the others rearrange its jobs, each by shuffling the previous one
    /// again.
    pub fn from_initial(rng: &mut StdRng, population_size: usize, initial: &Solution) -> (p: Self)
        ensures
            p.data@.len() == population_size,
            population_size > 0 ==> p.data@[0]@ == initial@,
            forall|i: int| 0 <= i < p.data@.len() ==> (#[trigger] p.data@[i])@.to_multiset() == initial@.to_multiset(),
            forall|i: int| 0 <= i < p.data@.len() ==> (#[trigger] p.data@[i])@.len() == initial@.len(),
    {
        let mut data: Vec<Solution> = Vec::new();
        if population_size == 0 {
            return Population { data };
        }
        data.push(initial.clone());
        let mut range: Vec<usize> = copy_jobs(&initial.data);
        let mut k: usize = 1;
        while k < population_size
            invariant
                1 <= k <= population_size,
                data@.len() == k,
                data@[0]@ == initial@,
                range@.to_multiset() == initial@.to_multiset(),
                range@.len() == initial@.len(),
                forall|i: int| 0 <= i < data@.len() ==> (#[trigger] data@[i])@.to_multiset() == initial@.to_multiset(),
                forall|i: int| 0 <= i < data@.len() ==> (#[trigger] data@[i])@.len() == initial@.len(),
            decreases population_size - k,
        {
            shuffle_values(rng, &mut range);
            data.push(Solution::new(copy_jobs(&range)));
            k += 1;
        }
        Population { data }
    }

    /// The population is large enough for the genetic algorithm.
    pub fn is_valid(&self) -> (r: bool)
        ensures
            r == (self.data@.len() >= MIN_POPULATION_SIZE),
    {
        self.len() >= MIN_POPULATION_SIZE
    }

    /// The number of members.
    pub fn len(&self) -> (n: usize)
        ensures
            n == self.data@.len(),
    {
        self.data.len()
    }

    /// Adds a member at the end.
    pub fn push(&mut self, solution: Solution)
        ensures
            final(self).data@ == old(self).data@.push(solution),
    {
        self.data.push(solution);
    }

    /// Adds the members of `batch` at the end, in order.
    pub fn extend(&mut self, batch: Vec<Solution>)
        ensures
            final(self).data@ == old(self).data@ + batch@,
    {
        let mut batch = batch;
        self.data.append(&mut batch);
    }

    /// Removes every member.
    pub fn clear(&mut self)
        ensures
            final(self).data@ == Seq::<Solution>::empty(),
    {
        self.data.clear();
    }

    /// The lowest evaluation in the population.
    pub fn best_time<E: Evaluator>(&self, evaluator: &mut E) -> (t: Time)
        requires
            self.data@.len() > 0,
            old(evaluator).well_formed(),
            population_evaluable(*old(evaluator), self.data@),
            old(evaluator).evaluations_made() + self.data@.len() <= u64::MAX,
        ensures
            final(evaluator).well_formed(),
            forall|o: Seq<usize>| #[trigger] final(evaluator).evaluable(o) == old(evaluator).evaluable(o),
            forall|o: Seq<usize>| #[trigger] final(evaluator).evaluation(o) == old(evaluator).evaluation(o),
            final(evaluator).evaluations_made() <= old(evaluator).evaluations_made() + self.data@.len(),
            exists|i: int| 0 <= i < self.data@.len() && t == old(evaluator).evaluation(#[trigger] self.data@[i]@),
            forall|i: int| 0 <= i < self.data@.len() ==> t <= old(evaluator).evaluation(#[trigger] self.data@[i]@),
    {
        self.extreme_time(evaluator, false)
    }

    /// The highest evaluation in the population.
    pub fn worst_time<E: Evaluator>(&self, evaluator: &mut E) -> (t: Time)
        requires
            self.data@.len() > 0,
            old(evaluator).well_formed(),
            population_evaluable(*old(evaluator), self.data@),
            old(evaluator).evaluations_made() + self.data@.len() <= u64::MAX,
        ensures
            final(evaluator).well_formed(),
            forall|o: Seq<usize>| #[trigger] final(evaluator).evaluable(o) == old(evaluator).evaluable(o),
            forall|o: Seq<usize>| #[trigger] final(evaluator).evaluation(o) == old(evaluator).evaluation(o),
            final(evaluator).evaluations_made() <= old(evaluator).evaluations_made() + self.data@.len(),
            exists|i: int| 0 <= i < self.data@.len() && t == old(evaluator).evaluation(#[trigger] self.data@[i]@),
            forall|i: int| 0 <= i < self.data@.len() ==> t >= old(evaluator).evaluation(#[trigger] self.data@[i]@),
    {
        self.extreme_time(evaluator, true)
    }

    /// The highest (`highest`) or lowest evaluation in the population.
    fn extreme_time<E: Evaluator>(&self, evaluator: &mut E, highest: bool) -> (t: Time)
        requires
            self.data@.len() > 0,
            old(evaluator).well_formed(),
            population_evaluable(*old(evaluator), self.data@),
            old(evaluator).evaluations_made() + self.data@.len() <= u64::MAX,
        ensures
            final(evaluator).well_formed(),
            forall|o: Seq<usize>| #[trigger] final(evaluator).evaluable(o) == old(evaluator).evaluable(o),
            forall|o: Seq<usize>| #[trigger] final(evaluator).evaluation(o) == old(evaluator).evaluation(o),
            final(evaluator).evaluations_made() <= old(evaluator).evaluations_made() + self.data@.len(),
            exists|i: int| 0 <= i < self.data@.len() && t == old(evaluator).evaluation(#[trigger] self.data@[i]@),
            forall|i: int|
                0 <= i < self.data@.len() ==> if highest {
                    t >= old(evaluator).evaluation(#[trigger] self.data@[i]@)
                } else {
                    t <= old(evaluator).evaluation(#[trigger] self.data@[i]@)
                },
    {
        let ghost e0 = *evaluator;
        let ghost start = evaluator.evaluations_made();
        let mut t: Time = evaluator.evaluate(&self.data[0]);
        let ghost mut at: int = 0;
        let mut i: usize = 1;
        while i < self.data.len()
            invariant
                1 <= i <= self.data@.len(),
                evaluator.well_formed(),
                forall|o: Seq<usize>| #[trigger] evaluator.evaluable(o) == e0.evaluable(o),
                forall|o: Seq<usize>| #[trigger] evaluator.evaluation(o) == e0.evaluation(o),
                population_evaluable(e0, self.data@),
                start <= evaluator.evaluations_made() <= start + i,
                start + self.data@.len() <= u64::MAX,
                0 <= at < i,
                t == e0.evaluation(self.data@[at]@),
                forall|k: int|
                    0 <= k < i ==> if highest {
                        t >= e0.evaluation(#[trigger] self.data@[k]@)
                    } else {
                        t <= e0.evaluation(#[trigger] self.data@[k]@)
                    },
            decreases self.data@.len() - i,
        {
            let time = evaluator.evaluate(&self.data[i]);
            if (highest && time > t) || (!highest && time < t) {
                t = time;
                proof {
                    at = i as int;
                }
            }
            i += 1;
        }
        t
    }
}

} // verus!
