use vstd::prelude::*;

use crate::solver::problem::Problem;
use crate::solver::solution::Solution;
use crate::tui::helpers::{order_text, solution_text};
use crate::tui::adapters::adapter::RunLog;
use crate::tui::adapters::{default_algorithms, AlgorithmAdapter, ALGORITHMS_COUNT};
use crate::tui::components::input::{can_delete, can_type, deleted_from, typed_into, InputState};
use crate::tui::components::matrix::MatrixState;
use crate::tui::model::event::AppEvent;
use crate::tui::model::screen::{screen_after, screen_before, AppScreen};

verus! {

/// What the interface has to do besides the change of state, with what the
/// library cannot hold (the settings editor, the chart of the logs).
#[derive(Clone, Copy, PartialEq, Eq, Structural, Debug)]
pub enum ModelAction {
    /// Nothing more.
    Nothing,
    /// Forget the logs of the runs.
    ResetLogs,
    /// Keep the edited settings for algorithm `from` and open those of `to`.
    SwitchAlgorithm { from: usize, to: usize },
}

/// Where a key press goes.
#[derive(Clone, Copy, PartialEq, Eq, Structural, Debug)]
pub enum EventRoute {
    /// To the settings editor.
    SettingsEditor,
    /// To `update_on_event`.
    Model(AppEvent),
    /// It starts a run of the chosen algorithm.
    StartAlgorithm,
    /// It stops the run.
    StopAlgorithm,
    /// Nowhere.
    Ignored,
}

/// The state of the interface: where the user is, the text field, the table
/// position, the list of algorithms and the chosen one, the logs of the runs
/// and the log view.
pub struct AppModel<'a> {
    pub is_running: bool,
    pub is_focused: bool,
    pub problem: &'a Problem,
    pub screen: AppScreen,
    pub solution_input: InputState,
    pub processing_times_matrix: MatrixState,
    /// The algorithms that the list offers, in its order.
    pub algorithms: Vec<AlgorithmAdapter>,
    pub selected_algorithm: usize,
    /// What the runs reported, oldest first.
    pub run_logs: Vec<RunLog>,
    pub log_scroll: usize,
    pub log_autoscroll: bool,
    pub algorithm_running: bool,
}

/// The number that a decimal digit stands for.
pub open spec fn digit_value(c: char) -> Option<nat> {
    if '0' <= c && c <= '9' {
        Some((c as u32 - '0' as u32) as nat)
    } else {
        None
    }
}

impl<'a> AppModel<'a> {
    /// `self` with the text field replaced by `input`.
    pub open spec fn with_input(&self, input: InputState) -> AppModel<'a> {
        AppModel { solution_input: input, ..*self }
    }

    /// The digit key `c` on the list of algorithms picks the algorithm it
    /// numbers, from 1.
    pub open spec fn picked_by(&self, c: char) -> Option<usize> {
        match digit_value(c) {
            Some(d) => if 1 <= d && d <= self.algorithms@.len() {
                Some((d - 1) as usize)
            } else {
                None
            },
            None => None,
        }
    }

    /// The interface can take `event` without failing: the text field can
    /// take what is typed, and the log view can scroll further down.
    pub open spec fn accepts(&self, event: AppEvent) -> bool {
        self.is_focused ==> match self.screen {
            AppScreen::CurrentSolution => match event {
                AppEvent::Backspace => can_delete(self.solution_input),
                AppEvent::Key(_) => can_type(self.solution_input),
                _ => true,
            },
            AppScreen::ControlPanel => match event {
                AppEvent::ArrowDown | AppEvent::Key('j') => self.log_scroll < usize::MAX,
                _ => true,
            },
            _ => true,
        }
    }

    /// The text field emptied, with the cursor at its start.
    pub open spec fn input_cleared(&self, after: &AppModel<'a>) -> bool {
        &&& *after == self.with_input(after.solution_input)
        &&& after.solution_input.value@ == Seq::<char>::empty()
        &&& after.solution_input.cursor == 0
    }

    /// The state after `event` on a focused panel.
    pub open spec fn handled_focused(&self, event: AppEvent, after: &AppModel<'a>, action: ModelAction) -> bool {
        let m = self.processing_times_matrix;
        let input = self.solution_input;
        if event == AppEvent::Escape {
            action == ModelAction::Nothing && *after == AppModel { is_focused: false, ..*self }
        } else {
            match self.screen {
                AppScreen::ProblemInstance => {
                    &&& action == ModelAction::Nothing
                    &&& *after == AppModel {
                        processing_times_matrix: match event {
                            AppEvent::ArrowUp | AppEvent::Key('k') => m.after_up(),
                            AppEvent::ArrowDown | AppEvent::Key('j') => m.after_down(self.problem.jobs_number),
                            AppEvent::ArrowLeft | AppEvent::Key('h') => m.after_left(),
                            AppEvent::ArrowRight | AppEvent::Key('l') => m.after_right(self.problem.jobs_number),
                            _ => m,
                        },
                        ..*self
                    }
                },
                AppScreen::CurrentSolution => {
                    &&& action == ModelAction::Nothing
                    &&& *after == self.with_input(after.solution_input)
                    &&& match event {
                        AppEvent::Backspace => deleted_from(input, after.solution_input),
                        AppEvent::ArrowLeft => after.solution_input == input.after_cursor_left(),
                        AppEvent::ArrowRight => after.solution_input == input.after_cursor_right(),
                        AppEvent::Key(symbol) => typed_into(input, symbol, after.solution_input),
                        _ => after.solution_input == input,
                    }
                },
                AppScreen::Algorithms => action == ModelAction::Nothing && *after == *self,
                AppScreen::ControlPanel => match event {
                    AppEvent::Backspace => action == ModelAction::Nothing && self.input_cleared(after),
                    AppEvent::Key('r') => {
                        &&& action == ModelAction::ResetLogs
                        &&& after.run_logs@ == Seq::<RunLog>::empty()
                        &&& *after == AppModel {
                            log_scroll: 0,
                            log_autoscroll: true,
                            run_logs: after.run_logs,
                            ..*self
                        }
                    },
                    AppEvent::ArrowUp | AppEvent::Key('k') => {
                        &&& action == ModelAction::Nothing
                        &&& *after == AppModel {
                            log_autoscroll: false,
                            log_scroll: if self.log_scroll > 0 {
                                (self.log_scroll - 1) as usize
                            } else {
                                0
                            },
                            ..*self
                        }
                    },
                    AppEvent::ArrowDown | AppEvent::Key('j') => {
                        &&& action == ModelAction::Nothing
                        &&& *after == AppModel { log_scroll: (self.log_scroll + 1) as usize, ..*self }
                    },
                    _ => action == ModelAction::Nothing && *after == *self,
                },
            }
        }
    }

    /// The state after `event` when no panel is focused.
    pub open spec fn handled_unfocused(&self, event: AppEvent, after: &AppModel<'a>, action: ModelAction) -> bool {
        match event {
            AppEvent::Escape => action == ModelAction::Nothing && *after == AppModel {
                is_running: false,
                ..*self
            },
            AppEvent::Enter => action == ModelAction::Nothing && *after == AppModel {
                is_focused: true,
                ..*self
            },
            AppEvent::ArrowUp | AppEvent::Key('k') => action == ModelAction::Nothing && *after
                == AppModel { screen: screen_before(self.screen), ..*self },
            AppEvent::ArrowDown | AppEvent::Key('j') => action == ModelAction::Nothing && *after
                == AppModel { screen: screen_after(self.screen), ..*self },
            AppEvent::Backspace if self.screen == AppScreen::CurrentSolution => {
                action == ModelAction::Nothing && self.input_cleared(after)
            },
            AppEvent::Key(c) if self.screen == AppScreen::Algorithms && !self.algorithm_running => {
                match self.picked_by(c) {
                    Some(to) if to != self.selected_algorithm => {
                        &&& action == ModelAction::SwitchAlgorithm { from: self.selected_algorithm, to }
                        &&& *after == AppModel { selected_algorithm: to, ..*self }
                    },
                    _ => action == ModelAction::Nothing && *after == *self,
                }
            },
            _ => action == ModelAction::Nothing && *after == *self,
        }
    }

    /// `after` and `action` are the state and the action once `event` has
    /// been handled in `self`.
    pub open spec fn handled(&self, event: AppEvent, after: &AppModel<'a>, action: ModelAction) -> bool {
        if self.is_focused {
            self.handled_focused(event, after, action)
        } else {
            self.handled_unfocused(event, after, action)
        }
    }
    /// The interface at its start: running, focused on the first panel, with
    /// an empty text field, the table at its top left corner, the first
    /// algorithm chosen and the log view following new lines.
    pub fn new(problem: &'a Problem) -> (s: Self)
        ensures
            s.is_running,
            s.is_focused,
            s.problem == problem,
            s.screen == AppScreen::ProblemInstance,
            s.solution_input.value@ == Seq::<char>::empty(),
            s.solution_input.cursor == 0,
            s.processing_times_matrix == (MatrixState { row_offset: 0, col_offset: 0 }),
            s.algorithms@.len() == ALGORITHMS_COUNT,
            forall|i: int| 0 <= i < s.algorithms@.len() ==> (#[trigger] s.algorithms@[i]).index() == i,
            s.algorithms@[0].settings_text() == Seq::<char>::empty(),
            s.algorithms@[1].settings_text() == Seq::<char>::empty(),
            s.algorithms@[2].settings_text() == "swap-mutation: 0.8\ninversion-mutation: 0.2\ntemperature: 100\ndecay: 0.9\nthreshold: 0.1"@,
            s.algorithms@[3].settings_text() == "population-size: 1000\nselector: roulette\nelitism: 0.05\nordered-crossover: 0.1\npartially-matched-crossover: 0.1\ncycle-crossover: 0.1\nswap-mutation: 0.05\ninversion-mutation: 0.05\nmax-ffe: 10000"@,
            s.selected_algorithm == 0,
            s.run_logs@ == Seq::<RunLog>::empty(),
            s.log_scroll == 0,
            s.log_autoscroll,
            !s.algorithm_running,
    {
        AppModel {
            is_running: true,
            is_focused: true,
            problem,
            screen: AppScreen::ProblemInstance,
            solution_input: InputState::new(),
            processing_times_matrix: MatrixState::new(),
            algorithms: default_algorithms(),
            selected_algorithm: 0,
            run_logs: Vec::new(),
            log_scroll: 0,
            log_autoscroll: true,
            algorithm_running: false,
        }
    }

    /// Chooses algorithm `new_index`, unless there is no such algorithm or it
    /// is chosen already; says whether the choice changed.
    pub fn switch_algorithm(&mut self, new_index: usize) -> (switched: bool)
        ensures
            switched == (new_index < old(self).algorithms@.len() && new_index
                != old(self).selected_algorithm),
            switched ==> *final(self) == (AppModel { selected_algorithm: new_index, ..*old(self) }),
            !switched ==> *final(self) == *old(self),
    {
        if new_index >= self.algorithms.len() || new_index == self.selected_algorithm {
            return false;
        }
        self.selected_algorithm = new_index;
        true
    }

    /// Where a key press goes, given the event it stands for (if any): on the
    /// focused list of algorithms every key but Escape edits the settings;
    /// Enter on the focused control panel starts or stops a run; the rest
    /// goes to `update_on_event`.
    pub fn route(&self, event: Option<AppEvent>) -> (r: EventRoute)
        ensures
            r == (if self.is_focused && self.screen == AppScreen::Algorithms {
                if event == Some(AppEvent::Escape) {
                    EventRoute::Model(AppEvent::Escape)
                } else {
                    EventRoute::SettingsEditor
                }
            } else {
                match event {
                    Some(e) => if self.is_focused && self.screen == AppScreen::ControlPanel && e
                        == AppEvent::Enter {
                        if self.algorithm_running {
                            EventRoute::StopAlgorithm
                        } else {
                            EventRoute::StartAlgorithm
                        }
                    } else {
                        EventRoute::Model(e)
                    },
                    None => EventRoute::Ignored,
                }
            }),
    {
        if self.is_focused && self.screen == AppScreen::Algorithms {
            return match event {
                Some(AppEvent::Escape) => EventRoute::Model(AppEvent::Escape),
                _ => EventRoute::SettingsEditor,
            };
        }
        match event {
            Some(e) => {
                if self.is_focused && self.screen == AppScreen::ControlPanel && e == AppEvent::Enter {
                    if self.algorithm_running {
                        EventRoute::StopAlgorithm
                    } else {
                        EventRoute::StartAlgorithm
                    }
                } else {
                    EventRoute::Model(e)
                }
            },
            None => EventRoute::Ignored,
        }
    }

    /// Writes `best` into the text field, job numbers one space apart, where
    /// a run reports it; the cursor stays where it was.
    pub fn show_solution(&mut self, best: &Solution)
        ensures
            final(self).solution_input.value@ == order_text(best@),
            final(self).solution_input.cursor == old(self).solution_input.cursor,
            *final(self) == old(self).with_input(final(self).solution_input),
    {
        self.solution_input.value = solution_text(best);
    }

    /// Forgets the logs of the runs and puts the log view back at its top,
    /// following new lines.
    pub fn reset_logs(&mut self)
        ensures
            final(self).run_logs@ == Seq::<RunLog>::empty(),
            *final(self) == (AppModel {
                log_scroll: 0,
                log_autoscroll: true,
                run_logs: final(self).run_logs,
                ..*old(self)
            }),
    {
        self.run_logs.clear();
        self.log_scroll = 0;
        self.log_autoscroll = true;
    }

    /// Records what a run reported, after the earlier logs, and writes its
    /// best schedule into the text field.
    pub fn push_log(&mut self, log: RunLog)
        ensures
            final(self).run_logs@ == old(self).run_logs@.push(log),
            final(self).solution_input.value@ == order_text(log.best@),
            final(self).solution_input.cursor == old(self).solution_input.cursor,
            *final(self) == (AppModel {
                solution_input: final(self).solution_input,
                run_logs: final(self).run_logs,
                ..*old(self)
            }),
    {
        self.show_solution(&log.best);
        self.run_logs.push(log);
    }

    /// Handles one key press and says what else has to be done.
    pub fn update_on_event(&mut self, event: AppEvent) -> (action: ModelAction)
        requires
            old(self).accepts(event),
        ensures
            old(self).handled(event, final(self), action),
            old(self).solution_input.well_formed() ==> final(self).solution_input.well_formed(),
    {
        if self.is_focused {
            if event == AppEvent::Escape {
                self.is_focused = false;
                return ModelAction::Nothing;
            }
            match self.screen {
                AppScreen::ProblemInstance => match event {
                    AppEvent::ArrowUp | AppEvent::Key('k') => self.processing_times_matrix.move_up(),
                    AppEvent::ArrowDown | AppEvent::Key('j') => {
                        self.processing_times_matrix.move_down(self.problem.jobs_number)
                    },
                    AppEvent::ArrowLeft | AppEvent::Key('h') => {
                        self.processing_times_matrix.move_left()
                    },
                    AppEvent::ArrowRight | AppEvent::Key('l') => {
                        self.processing_times_matrix.move_right(self.problem.jobs_number)
                    },
                    _ => {},
                },
                AppScreen::CurrentSolution => match event {
                    AppEvent::Backspace => self.solution_input.remove_symbol(),
                    AppEvent::ArrowLeft => self.solution_input.cursor_left(),
                    AppEvent::ArrowRight => self.solution_input.cursor_right(),
                    AppEvent::Key(symbol) => self.solution_input.add_symbol(symbol),
                    _ => {},
                },
                AppScreen::Algorithms => {},
                AppScreen::ControlPanel => match event {
                    AppEvent::Backspace => self.solution_input.clear(),
                    AppEvent::Key('r') => {
                        self.reset_logs();
                        return ModelAction::ResetLogs;
                    },
                    AppEvent::ArrowUp | AppEvent::Key('k') => {
                        self.log_autoscroll = false;
                        self.log_scroll = self.log_scroll.saturating_sub(1);
                    },
                    AppEvent::ArrowDown | AppEvent::Key('j') => {
                        self.log_scroll += 1;
                    },
                    _ => {},
                },
            }
            return ModelAction::Nothing;
        }
        match event {
            AppEvent::Escape => {
                self.is_running = false;
            },
            AppEvent::Enter => self.is_focused = true,
            AppEvent::ArrowUp | AppEvent::Key('k') => {
                self.screen = self.screen.prev_screen();
            },
            AppEvent::ArrowDown | AppEvent::Key('j') => {
                self.screen = self.screen.next_screen();
            },
            AppEvent::Backspace => {
                if self.screen == AppScreen::CurrentSolution {
                    self.solution_input.clear();
                }
            },
            AppEvent::Key(ch) => {
                if self.screen == AppScreen::Algorithms && !self.algorithm_running && '0' <= ch
                    && ch <= '9' {
                    let idx: usize = (ch as u32 - '0' as u32) as usize;
                    if idx >= 1 && idx <= self.algorithms.len() {
                        let from = self.selected_algorithm;
                        if self.switch_algorithm(idx - 1) {
                            return ModelAction::SwitchAlgorithm { from, to: idx - 1 };
                        }
                    }
                }
            },
            _ => {},
        }
        ModelAction::Nothing
    }
}

/// On a focused panel an event never changes the panel, the running state or
/// the chosen algorithm, and only Escape leaves the panel.
pub proof fn lemma_focused_event_stays_on_panel<'a>(
    s0: AppModel<'a>,
    event: AppEvent,
    s1: AppModel<'a>,
    action: ModelAction,
)
    requires
        s0.is_focused,
        s0.handled(event, &s1, action),
    ensures
        s1.screen == s0.screen,
        s1.is_running == s0.is_running,
        s1.selected_algorithm == s0.selected_algorithm,
        s1.is_focused == (event != AppEvent::Escape),
{
}

/// Leaving a panel with Escape and coming back with Enter gives back the
/// state as it was.
pub proof fn lemma_focus_round_trip<'a>(
    s0: AppModel<'a>,
    s1: AppModel<'a>,
    s2: AppModel<'a>,
    a1: ModelAction,
    a2: ModelAction,
)
    requires
        s0.is_focused,
        s0.handled(AppEvent::Escape, &s1, a1),
        s1.handled(AppEvent::Enter, &s2, a2),
    ensures
        s2 == s0,
        a1 == ModelAction::Nothing,
        a2 == ModelAction::Nothing,
{
}

/// Moving to the previous panel and then to the next one (or the other way
/// round) comes back to the same panel and state.
pub proof fn lemma_panel_round_trip<'a>(
    s0: AppModel<'a>,
    s1: AppModel<'a>,
    s2: AppModel<'a>,
    a1: ModelAction,
    a2: ModelAction,
    up_first: bool,
)
    requires
        !s0.is_focused,
        s0.handled(if up_first { AppEvent::ArrowUp } else { AppEvent::ArrowDown }, &s1, a1),
        s1.handled(if up_first { AppEvent::ArrowDown } else { AppEvent::ArrowUp }, &s2, a2),
    ensures
        s2 == s0,
{
    crate::tui::model::screen::lemma_screen_cycle(s0.screen);
}

} // verus!
