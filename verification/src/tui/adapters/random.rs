use vstd::prelude::*;

use crate::tui::adapters::adapter::{Adapter, Settings};

verus! {

/// Random search over schedules.
pub struct AdapterRandom {
    pub settings: Settings,
}

impl Adapter for AdapterRandom {
    open spec fn settings_view(&self) -> Seq<char> {
        self.settings@
    }

    fn new(settings: Settings) -> (r: Self) {
        AdapterRandom { settings }
    }

    fn name(&self) -> (r: &'static str)
        ensures
            r@ == "Random Search"@,
    {
        "Random Search"
    }

    fn short_name(&self) -> (r: &'static str)
        ensures
            r@ == "RS"@,
    {
        "RS"
    }

    fn get_settings(&self) -> (r: &Settings) {
        &self.settings
    }

    fn set_settings(&mut self, new_settings: Settings) {
        self.settings = new_settings;
    }
}

impl Default for AdapterRandom {
    /// The settings that the interface starts with.
    fn default() -> (r: Self)
        ensures
            r.settings@ == Seq::<char>::empty(),
    {
        AdapterRandom { settings: String::new() }
    }
}

} // verus!
