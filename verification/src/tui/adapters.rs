use vstd::prelude::*;

use crate::tui::adapters::adapter::{Adapter, Settings};
use crate::tui::adapters::annealing::AdapterAnnealing;
use crate::tui::adapters::genetic::AdapterGA;
use crate::tui::adapters::greedy::AdapterGreedy;
use crate::tui::adapters::random::AdapterRandom;

pub mod adapter;
pub mod annealing;
pub mod genetic;
pub mod greedy;
pub mod helpers;
pub mod random;

verus! {

/// How many algorithms the interface offers.
pub const ALGORITHMS_COUNT: usize = 4;

/// One of the algorithms that the interface offers, in the order of its list.
pub enum AlgorithmAdapter {
    Random(AdapterRandom),
    Greedy(AdapterGreedy),
    Annealing(AdapterAnnealing),
    Genetic(AdapterGA),
}

impl AlgorithmAdapter {
    /// The place of the algorithm in the list.
    pub open spec fn index(&self) -> nat {
        match self {
            AlgorithmAdapter::Random(_) => 0,
            AlgorithmAdapter::Greedy(_) => 1,
            AlgorithmAdapter::Annealing(_) => 2,
            AlgorithmAdapter::Genetic(_) => 3,
        }
    }

    /// The settings text of the algorithm.
    pub open spec fn settings_text(&self) -> Seq<char> {
        match self {
            AlgorithmAdapter::Random(a) => a.settings@,
            AlgorithmAdapter::Greedy(a) => a.settings@,
            AlgorithmAdapter::Annealing(a) => a.settings@,
            AlgorithmAdapter::Genetic(a) => a.settings@,
        }
    }
}

/// The name under which the algorithm at place `index` is listed.
pub open spec fn algorithm_name(index: nat) -> Seq<char> {
    if index == 0 {
        "Random Search"@
    } else if index == 1 {
        "Greedy Algorithm"@
    } else if index == 2 {
        "Simulated Annealing"@
    } else {
        "Genetic Algorithm"@
    }
}

impl AlgorithmAdapter {
    /// The name of the algorithm.
    pub fn name(&self) -> (r: &'static str)
        ensures
            r@ == algorithm_name(self.index()),
    {
        match self {
            AlgorithmAdapter::Random(a) => a.name(),
            AlgorithmAdapter::Greedy(a) => a.name(),
            AlgorithmAdapter::Annealing(a) => a.name(),
            AlgorithmAdapter::Genetic(a) => a.name(),
        }
    }

    /// The settings text of the algorithm.
    pub fn settings(&self) -> (r: &Settings)
        ensures
            r@ == self.settings_text(),
    {
        match self {
            AlgorithmAdapter::Random(a) => a.get_settings(),
            AlgorithmAdapter::Greedy(a) => a.get_settings(),
            AlgorithmAdapter::Annealing(a) => a.get_settings(),
            AlgorithmAdapter::Genetic(a) => a.get_settings(),
        }
    }

    /// Replaces the settings text of the algorithm.
    pub fn replace_settings(&mut self, new_settings: Settings)
        ensures
            final(self).index() == old(self).index(),
            final(self).settings_text() == new_settings@,
    {
        match self {
            AlgorithmAdapter::Random(a) => a.set_settings(new_settings),
            AlgorithmAdapter::Greedy(a) => a.set_settings(new_settings),
            AlgorithmAdapter::Annealing(a) => a.set_settings(new_settings),
            AlgorithmAdapter::Genetic(a) => a.set_settings(new_settings),
        }
    }
}

/// The list of algorithms that the interface starts with: each at its place,
/// with its default settings.
pub fn default_algorithms() -> (r: Vec<AlgorithmAdapter>)
    ensures
        r@.len() == ALGORITHMS_COUNT,
        forall|i: int| 0 <= i < r@.len() ==> (#[trigger] r@[i]).index() == i,
        r@[0].settings_text() == Seq::<char>::empty(),
        r@[1].settings_text() == Seq::<char>::empty(),
        r@[2].settings_text() == "swap-mutation: 0.8\ninversion-mutation: 0.2\ntemperature: 100\ndecay: 0.9\nthreshold: 0.1"@,
        r@[3].settings_text() == "population-size: 1000\nselector: roulette\nelitism: 0.05\nordered-crossover: 0.1\npartially-matched-crossover: 0.1\ncycle-crossover: 0.1\nswap-mutation: 0.05\ninversion-mutation: 0.05\nmax-ffe: 10000"@,
{
    let mut r: Vec<AlgorithmAdapter> = Vec::new();
    r.push(AlgorithmAdapter::Random(AdapterRandom::default()));
    r.push(AlgorithmAdapter::Greedy(AdapterGreedy::default()));
    r.push(AlgorithmAdapter::Annealing(AdapterAnnealing::default()));
    r.push(AlgorithmAdapter::Genetic(AdapterGA::default()));
    r
}

/// The algorithm at place `index` of the list, with the given settings.
pub fn build_adapter(index: usize, settings: Settings) -> (r: AlgorithmAdapter)
    requires
        index < ALGORITHMS_COUNT,
    ensures
        r.index() == index,
        r.settings_text() == settings@,
{
    if index == 0 {
        AlgorithmAdapter::Random(AdapterRandom::new(settings))
    } else if index == 1 {
        AlgorithmAdapter::Greedy(AdapterGreedy::new(settings))
    } else if index == 2 {
        AlgorithmAdapter::Annealing(AdapterAnnealing::new(settings))
    } else {
        AlgorithmAdapter::Genetic(AdapterGA::new(settings))
    }
}

} // verus!
