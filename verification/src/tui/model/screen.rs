use vstd::prelude::*;

verus! {

/// The panels of the interface, in the order in which they are visited.
#[derive(Clone, Copy, PartialEq, Eq, Structural, Debug)]
pub enum AppScreen {
    ProblemInstance,
    CurrentSolution,
    Algorithms,
    ControlPanel,
}

/// The panel after `s`, going round.
pub open spec fn screen_after(s: AppScreen) -> AppScreen {
    match s {
        AppScreen::ProblemInstance => AppScreen::CurrentSolution,
        AppScreen::CurrentSolution => AppScreen::Algorithms,
        AppScreen::Algorithms => AppScreen::ControlPanel,
        AppScreen::ControlPanel => AppScreen::ProblemInstance,
    }
}

/// The panel before `s`, going round.
pub open spec fn screen_before(s: AppScreen) -> AppScreen {
    match s {
        AppScreen::ProblemInstance => AppScreen::ControlPanel,
        AppScreen::CurrentSolution => AppScreen::ProblemInstance,
        AppScreen::Algorithms => AppScreen::CurrentSolution,
        AppScreen::ControlPanel => AppScreen::Algorithms,
    }
}

impl AppScreen {
    /// The next panel, going round.
    pub fn next_screen(&self) -> (r: Self)
        ensures
            r == screen_after(*self),
    {
        match self {
            AppScreen::ProblemInstance => AppScreen::CurrentSolution,
            AppScreen::CurrentSolution => AppScreen::Algorithms,
            AppScreen::Algorithms => AppScreen::ControlPanel,
            AppScreen::ControlPanel => AppScreen::ProblemInstance,
        }
    }

    /// The previous panel, going round.
    pub fn prev_screen(&self) -> (r: Self)
        ensures
            r == screen_before(*self),
    {
        match self {
            AppScreen::ProblemInstance => AppScreen::ControlPanel,
            AppScreen::CurrentSolution => AppScreen::ProblemInstance,
            AppScreen::Algorithms => AppScreen::CurrentSolution,
            AppScreen::ControlPanel => AppScreen::Algorithms,
        }
    }
}

/// Going to the previous panel undoes going to the next one, and the other
/// way round; four steps in the same direction come back to the start.
pub proof fn lemma_screen_cycle(s: AppScreen)
    ensures
        screen_before(screen_after(s)) == s,
        screen_after(screen_before(s)) == s,
        screen_after(screen_after(screen_after(screen_after(s)))) == s,
        screen_after(s) != s,
{
}

} // verus!
