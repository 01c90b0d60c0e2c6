use vstd::prelude::*;

use crate::solver::population::MIN_POPULATION_SIZE;
use crate::tui::adapters::adapter::{entries_view, setting_of, Adapter, Settings};
use crate::tui::adapters::helpers::{
    find_setting, get_numeric_param, get_optional_numeric_param, NumericParam,
};

verus! {

/// A genetic algorithm over populations of schedules.
pub struct AdapterGA {
    pub settings: Settings,
}

impl Adapter for AdapterGA {
    open spec fn settings_view(&self) -> Seq<char> {
        self.settings@
    }

    fn new(settings: Settings) -> (r: Self) {
        AdapterGA { settings }
    }

    fn name(&self) -> (r: &'static str)
        ensures
            r@ == "Genetic Algorithm"@,
    {
        "Genetic Algorithm"
    }

    fn short_name(&self) -> (r: &'static str)
        ensures
            r@ == "GA"@,
    {
        "GA"
    }

    fn get_settings(&self) -> (r: &Settings) {
        &self.settings
    }

    fn set_settings(&mut self, new_settings: Settings) {
        self.settings = new_settings;
    }
}

impl Default for AdapterGA {
    /// The settings that the interface starts with.
    fn default() -> (r: Self)
        ensures
            r.settings@ == "population-size: 1000\nselector: roulette\nelitism: 0.05\nordered-crossover: 0.1\npartially-matched-crossover: 0.1\ncycle-crossover: 0.1\nswap-mutation: 0.05\ninversion-mutation: 0.05\nmax-ffe: 10000"@,
    {
        AdapterGA { settings: "population-size: 1000\nselector: roulette\nelitism: 0.05\nordered-crossover: 0.1\npartially-matched-crossover: 0.1\ncycle-crossover: 0.1\nswap-mutation: 0.05\ninversion-mutation: 0.05\nmax-ffe: 10000".to_owned() }
    }
}

/// The name of a setting.
pub const FIELD_SEED: &'static str = "seed";

/// The name of a setting.
pub const FIELD_POPULATION_SIZE: &'static str = "population-size";

/// The name of a setting.
pub const FIELD_SELECTOR: &'static str = "selector";

/// The name of a setting.
pub const FIELD_TOURNAMENT_SIZE: &'static str = "tournament-size";

/// The name of a setting.
pub const FIELD_ELITE_P: &'static str = "elitism";

/// The name of a setting.
pub const FIELD_ORDERED_CROSSOVER_P: &'static str = "ordered-crossover";

/// The name of a setting.
pub const FIELD_PARTIALLY_MATCHED_CROSSOVER_P: &'static str = "partially-matched-crossover";

/// The name of a setting.
pub const FIELD_CYCLE_CROSSOVER_P: &'static str = "cycle-crossover";

/// The name of a setting.
pub const FIELD_SWAP_MUTATION_P: &'static str = "swap-mutation";

/// The name of a setting.
pub const FIELD_INVERSION_MUTATION_P: &'static str = "inversion-mutation";

/// The name of a setting.
pub const FIELD_MAX_FFE: &'static str = "max-ffe";

/// The value of a setting where it is missing or is not a number.
pub const DEFAULT_POPULATION_SIZE: usize = 1000;

/// The value of a setting where it is missing or is not a number.
pub const DEFAULT_TOURNAMENT_SIZE: usize = 5;

/// The value of a setting where it is missing or is not a number.
pub const DEFAULT_MAX_FFE: u64 = 10000;

/// The selector setting that asks for tournaments.
pub const SELECTOR_TOURNAMENT: &'static str = "tournament";

/// The whole-number settings of a run of the genetic algorithm.
pub struct GeneticSetup {
    /// The seed of the random generator, if there is one.
    pub seed: Option<u64>,
    /// How many schedules each generation holds.
    pub population_size: usize,
    /// The size of the tournaments, where selection is by tournament (else
    /// it is by roulette).
    pub tournament_size: Option<usize>,
    /// How many evaluations the run may spend.
    pub max_ffe: u64,
}

/// The number that `name` holds among `entries`, or `default`.
pub open spec fn number_setting<T: NumericParam>(
    entries: Seq<(Seq<char>, Seq<char>)>,
    name: Seq<char>,
    default: T,
) -> T {
    match setting_of(entries, name) {
        Some(raw) => match T::parsed(raw) {
            Some(v) => v,
            None => default,
        },
        None => default,
    }
}

/// Reads the whole-number settings of the genetic algorithm: the seed falls
/// back on the instance's, the population holds at least
/// `MIN_POPULATION_SIZE` schedules, and selection is by tournament only where
/// the selector setting says so.
pub fn genetic_setup(settings: &Vec<(String, String)>, initial_seed: Option<u64>) -> (r:
    GeneticSetup)
    ensures
        r.seed == match setting_of(entries_view(settings@), FIELD_SEED@) {
            Some(raw) => match u64::parsed(raw) {
                Some(v) => Some(v),
                None => initial_seed,
            },
            None => initial_seed,
        },
        ({
            let n = number_setting(entries_view(settings@), FIELD_POPULATION_SIZE@, DEFAULT_POPULATION_SIZE);
            r.population_size == if n < MIN_POPULATION_SIZE { MIN_POPULATION_SIZE } else { n }
        }),
        r.tournament_size == if setting_of(entries_view(settings@), FIELD_SELECTOR@) == Some(
            SELECTOR_TOURNAMENT@,
        ) {
            Some(number_setting(entries_view(settings@), FIELD_TOURNAMENT_SIZE@, DEFAULT_TOURNAMENT_SIZE))
        } else {
            None::<usize>
        },
        r.max_ffe == number_setting(entries_view(settings@), FIELD_MAX_FFE@, DEFAULT_MAX_FFE),
{
    let seed = get_optional_numeric_param(settings, FIELD_SEED, initial_seed);
    let asked: usize = get_numeric_param(settings, FIELD_POPULATION_SIZE, DEFAULT_POPULATION_SIZE);
    let population_size: usize = if asked < MIN_POPULATION_SIZE {
        MIN_POPULATION_SIZE
    } else {
        asked
    };
    let tournament_size = match find_setting(settings, FIELD_SELECTOR) {
        Some(kind) => {
            if text_is(kind, SELECTOR_TOURNAMENT) {
                Some(get_numeric_param(settings, FIELD_TOURNAMENT_SIZE, DEFAULT_TOURNAMENT_SIZE))
            } else {
                None
            }
        },
        None => None,
    };
    let max_ffe: u64 = get_numeric_param(settings, FIELD_MAX_FFE, DEFAULT_MAX_FFE);
    GeneticSetup { seed, population_size, tournament_size, max_ffe }
}

/// Whether `text` reads `word`.
fn text_is(text: &String, word: &str) -> (r: bool)
    ensures
        r == (text@ == word@),
{
    let w = word.to_owned();
    *text == w
}

} // verus!
