use vstd::prelude::*;

use crate::tui::adapters::adapter::{Adapter, Settings};

verus! {

/// Simulated annealing over schedules.
pub struct AdapterAnnealing {
    pub settings: Settings,
}

impl Adapter for AdapterAnnealing {
    open spec fn settings_view(&self) -> Seq<char> {
        self.settings@
    }

    fn new(settings: Settings) -> (r: Self) {
        AdapterAnnealing { settings }
    }

    fn name(&self) -> (r: &'static str)
        ensures
            r@ == "Simulated Annealing"@,
    {
        "Simulated Annealing"
    }

    fn short_name(&self) -> (r: &'static str)
        ensures
            r@ == "SA"@,
    {
        "SA"
    }

    fn get_settings(&self) -> (r: &Settings) {
        &self.settings
    }

    fn set_settings(&mut self, new_settings: Settings) {
        self.settings = new_settings;
    }
}

impl Default for AdapterAnnealing {
    /// The settings that the interface starts with.
    fn default() -> (r: Self)
        ensures
            r.settings@ == "swap-mutation: 0.8\ninversion-mutation: 0.2\ntemperature: 100\ndecay: 0.9\nthreshold: 0.1"@,
    {
        AdapterAnnealing { settings: "swap-mutation: 0.8\ninversion-mutation: 0.2\ntemperature: 100\ndecay: 0.9\nthreshold: 0.1".to_owned() }
    }
}

/// The name of a setting.
pub const FIELD_SEED: &'static str = "seed";

/// The name of a setting.
pub const FIELD_SWAP_MUTATION_P: &'static str = "swap-mutation";

/// The name of a setting.
pub const FIELD_INVERSION_MUTATION_P: &'static str = "inversion-mutation";

/// The name of a setting.
pub const FIELD_TEMPERATURE: &'static str = "temperature";

/// The name of a setting.
pub const FIELD_DECAY: &'static str = "decay";

/// The name of a setting.
pub const FIELD_THRESHOLD: &'static str = "threshold";

} // verus!
