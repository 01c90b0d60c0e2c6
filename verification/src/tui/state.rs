use vstd::prelude::*;

use crate::solver::problem::Problem;
use crate::tui::components::input::{
    can_delete, can_type, deleted_from, typed_into, utf8_of, InputState,
};
use crate::tui::components::matrix::MatrixState;

verus! {

/// The panels of the plain interface, in the order in which they are visited.
#[derive(Clone, Copy, PartialEq, Eq, Structural, Debug)]
pub enum AppScreen {
    ProblemInstance,
    CurrentSolution,
    Algorithms,
    ControlPanel,
}

/// The panel after `s`, going round.
pub open spec fn panel_after(s: AppScreen) -> AppScreen {
    match s {
        AppScreen::ProblemInstance => AppScreen::CurrentSolution,
        AppScreen::CurrentSolution => AppScreen::Algorithms,
        AppScreen::Algorithms => AppScreen::ControlPanel,
        AppScreen::ControlPanel => AppScreen::ProblemInstance,
    }
}

/// The panel before `s`, going round.
pub open spec fn panel_before(s: AppScreen) -> AppScreen {
    match s {
        AppScreen::ProblemInstance => AppScreen::ControlPanel,
        AppScreen::CurrentSolution => AppScreen::ProblemInstance,
        AppScreen::Algorithms => AppScreen::CurrentSolution,
        AppScreen::ControlPanel => AppScreen::Algorithms,
    }
}

impl AppScreen {
    fn next_screen(&self) -> (r: Self)
        ensures
            r == panel_after(*self),
    {
        match self {
            AppScreen::ProblemInstance => AppScreen::CurrentSolution,
            AppScreen::CurrentSolution => AppScreen::Algorithms,
            AppScreen::Algorithms => AppScreen::ControlPanel,
            AppScreen::ControlPanel => AppScreen::ProblemInstance,
        }
    }

    fn prev_screen(&self) -> (r: Self)
        ensures
            r == panel_before(*self),
    {
        match self {
            AppScreen::ProblemInstance => AppScreen::ControlPanel,
            AppScreen::CurrentSolution => AppScreen::ProblemInstance,
            AppScreen::Algorithms => AppScreen::CurrentSolution,
            AppScreen::ControlPanel => AppScreen::Algorithms,
        }
    }
}

/// What the user asked for.
#[derive(Clone, Copy, PartialEq, Eq, Structural, Debug)]
pub enum AppEvent {
    Close,
    PrevScreen,
    NextScreen,
    DeleteSymbol,
    CursorLeft,
    CursorRight,
    AddSymbol(char),
}

/// The state of the plain interface over one problem instance.
pub struct AppState<'a> {
    pub problem: &'a Problem,
    pub is_running: bool,
    pub screen: AppScreen,
    pub solution_input: InputState,
    pub matrix: MatrixState,
}

impl<'a> AppState<'a> {
    /// The text field can take `event` on the current panel without failing.
    pub open spec fn accepts(&self, event: AppEvent) -> bool {
        self.screen == AppScreen::CurrentSolution ==> match event {
            AppEvent::DeleteSymbol => can_delete(self.solution_input),
            AppEvent::AddSymbol(_) => can_type(self.solution_input),
            _ => true,
        }
    }

    /// Only the panel changed, to `screen`.
    pub open spec fn only_screen(&self, after: &AppState<'a>, screen: AppScreen) -> bool {
        &&& after.problem == self.problem
        &&& after.is_running == self.is_running
        &&& after.screen == screen
        &&& after.solution_input == self.solution_input
        &&& after.matrix == self.matrix
    }

    /// Only the table position changed, to `matrix`.
    pub open spec fn only_matrix(&self, after: &AppState<'a>, matrix: MatrixState) -> bool {
        &&& after.problem == self.problem
        &&& after.is_running == self.is_running
        &&& after.screen == self.screen
        &&& after.solution_input == self.solution_input
        &&& after.matrix == matrix
    }

    /// Only the text field changed.
    pub open spec fn only_input(&self, after: &AppState<'a>) -> bool {
        &&& after.problem == self.problem
        &&& after.is_running == self.is_running
        &&& after.screen == self.screen
        &&& after.matrix == self.matrix
    }

    /// `after` is the state once `event` has been handled in `self`.
    pub open spec fn handled(&self, event: AppEvent, after: &AppState<'a>) -> bool {
        match event {
            AppEvent::NextScreen => self.only_screen(after, panel_after(self.screen)),
            AppEvent::PrevScreen => self.only_screen(after, panel_before(self.screen)),
            AppEvent::Close => {
                &&& after.is_running == false
                &&& after.problem == self.problem
                &&& after.screen == self.screen
                &&& after.solution_input == self.solution_input
                &&& after.matrix == self.matrix
            },
            _ => match self.screen {
                AppScreen::ProblemInstance => match event {
                    AppEvent::AddSymbol('h') => self.only_matrix(after, self.matrix.after_left()),
                    AppEvent::AddSymbol('l') => self.only_matrix(
                        after,
                        self.matrix.after_right(self.problem.jobs_number),
                    ),
                    AppEvent::AddSymbol('k') => self.only_matrix(after, self.matrix.after_up()),
                    AppEvent::AddSymbol('j') => self.only_matrix(
                        after,
                        self.matrix.after_down(self.problem.machines_number),
                    ),
                    _ => self.only_matrix(after, self.matrix),
                },
                AppScreen::CurrentSolution => {
                    &&& self.only_input(after)
                    &&& match event {
                        AppEvent::DeleteSymbol => deleted_from(
                            self.solution_input,
                            after.solution_input,
                        ),
                        AppEvent::AddSymbol(symbol) => typed_into(
                            self.solution_input,
                            symbol,
                            after.solution_input,
                        ),
                        AppEvent::CursorLeft => after.solution_input
                            == self.solution_input.after_cursor_left(),
                        AppEvent::CursorRight => after.solution_input
                            == self.solution_input.after_cursor_right(),
                        _ => after.solution_input == self.solution_input,
                    }
                },
                _ => self.only_matrix(after, self.matrix),
            },
        }
    }

    /// The interface at its start: running, on the first panel, with an empty
    /// text field and the table at its top left corner.
    pub fn new(problem: &'a Problem) -> (s: Self)
        ensures
            s.problem == problem,
            s.is_running,
            s.screen == AppScreen::ProblemInstance,
            s.solution_input.value@ == Seq::<char>::empty(),
            s.solution_input.cursor == 0,
            s.matrix == (MatrixState { row_offset: 0, col_offset: 0 }),
    {
        AppState {
            problem,
            is_running: true,
            screen: AppScreen::ProblemInstance,
            solution_input: InputState::new(),
            matrix: MatrixState::new(),
        }
    }

    /// Handles one event: panel changes and closing on every panel, the keys
    /// h, l, k and j move over the table on the first panel, and the text
    /// field takes keys on the second.
    pub fn update_on_event(&mut self, event: AppEvent)
        requires
            old(self).accepts(event),
        ensures
            old(self).handled(event, final(self)),
            old(self).solution_input.well_formed() ==> final(self).solution_input.well_formed(),
    {
        match event {
            AppEvent::NextScreen => self.screen = self.screen.next_screen(),
            AppEvent::PrevScreen => self.screen = self.screen.prev_screen(),
            AppEvent::Close => self.is_running = false,
            _ => match self.screen {
                AppScreen::ProblemInstance => match event {
                    AppEvent::AddSymbol('h') => self.matrix.move_left(),
                    AppEvent::AddSymbol('l') => {
                        self.matrix.move_right(self.problem.jobs_number);
                    },
                    AppEvent::AddSymbol('k') => self.matrix.move_up(),
                    AppEvent::AddSymbol('j') => {
                        self.matrix.move_down(self.problem.machines_number);
                    },
                    _ => {},
                },
                AppScreen::CurrentSolution => match event {
                    AppEvent::DeleteSymbol => {
                        self.solution_input.remove_symbol();
                    },
                    AppEvent::AddSymbol(symbol) => {
                        self.solution_input.add_symbol(symbol);
                    },
                    AppEvent::CursorLeft => {
                        self.solution_input.cursor_left();
                    },
                    AppEvent::CursorRight => {
                        self.solution_input.cursor_right();
                    },
                    _ => {},
                },
                _ => {},
            },
        }
    }
}

/// Every byte of the encoding of `text` is an ASCII byte.
pub open spec fn ascii_text(text: Seq<char>) -> bool {
    forall|i: int| 0 <= i < utf8_of(text).len() ==> #[trigger] utf8_of(text)[i] < 128
}

impl<'a> AppState<'a> {
    /// What the plain interface keeps: an instance with jobs and machines,
    /// the table position on one of its cells, and an ASCII text with the
    /// cursor inside it or right after it.
    pub open spec fn consistent(&self) -> bool {
        &&& self.problem.jobs_number >= 1
        &&& self.problem.machines_number >= 1
        &&& self.matrix.col_offset < self.problem.jobs_number
        &&& self.matrix.row_offset < self.problem.machines_number
        &&& ascii_text(self.solution_input.value@)
        &&& self.solution_input.well_formed()
    }
}

/// An ASCII character is encoded as one ASCII byte.
proof fn lemma_ascii_char_encoding(c: char)
    requires
        (c as u32) < 128,
    ensures
        utf8_of(seq![c]).len() == 1,
        utf8_of(seq![c])[0] < 128,
{
    reveal_with_fuel(vstd::utf8::encode_utf8, 2);
    assert(seq![c].drop_first() =~= Seq::<char>::empty());
    let v = c as u32;
    assert(((v & 0x7F) as u8) < 128u8) by (bit_vector);
}

/// Each event keeps the plain interface consistent when what is typed is
/// ASCII; only Close stops it; the text field changes only on its panel, the
/// table position only on the panel of the table, and the panel only on
/// NextScreen and PrevScreen.
pub proof fn lemma_update_keeps_consistency<'a>(s0: AppState<'a>, event: AppEvent, s1: AppState<'a>)
    requires
        s0.consistent(),
        event matches AppEvent::AddSymbol(c) ==> (c as u32) < 128,
        s0.handled(event, &s1),
    ensures
        s1.consistent(),
        s1.problem == s0.problem,
        s1.is_running == (s0.is_running && event != AppEvent::Close),
        s0.screen != AppScreen::CurrentSolution ==> s1.solution_input == s0.solution_input,
        s0.screen != AppScreen::ProblemInstance ==> s1.matrix == s0.matrix,
        event != AppEvent::NextScreen && event != AppEvent::PrevScreen ==> s1.screen == s0.screen,
{
    let b = utf8_of(s0.solution_input.value@);
    let a = utf8_of(s1.solution_input.value@);
    let c = s0.solution_input.cursor as int;
    if s0.screen == AppScreen::CurrentSolution {
        match event {
            AppEvent::AddSymbol(ch) => {
                lemma_ascii_char_encoding(ch);
                let e = utf8_of(seq![ch]);
                assert(a == b.take(c) + e + b.skip(c));
                assert forall|i: int| 0 <= i < a.len() implies #[trigger] a[i] < 128 by {
                    if i < c {
                        assert(a[i] == b[i]);
                    } else if i == c {
                        assert(a[i] == e[0]);
                    } else {
                        assert(a[i] == b[i - 1]);
                    }
                }
            },
            AppEvent::DeleteSymbol => {
                if c > 0 {
                    let rest = b.skip(c - 1);
                    assert(rest[0] == b[c - 1]);
                    assert(vstd::utf8::is_leading_byte_width_1(rest[0]));
                    assert(vstd::utf8::pop_first_scalar(rest) == rest.subrange(1, rest.len() as int));
                    assert(a == b.take(c - 1) + rest.subrange(1, rest.len() as int));
                    assert forall|i: int| 0 <= i < a.len() implies #[trigger] a[i] < 128 by {
                        if i < c - 1 {
                            assert(a[i] == b[i]);
                        } else {
                            assert(a[i] == b[i + 1]);
                        }
                    }
                }
            },
            _ => {},
        }
    }
}

/// An ASCII text lets the cursor stand anywhere in it: every byte offset up
/// to its length is a character boundary.
proof fn lemma_ascii_boundaries(text: Seq<char>, idx: int)
    requires
        ascii_text(text),
        0 <= idx <= utf8_of(text).len(),
    ensures
        vstd::utf8::is_char_boundary(utf8_of(text), idx),
{
    let b = utf8_of(text);
    vstd::utf8::encode_utf8_valid_utf8(text);
    if idx == b.len() {
        vstd::utf8::is_char_boundary_start_end_of_seq(b);
    } else {
        assert(b[idx] < 128);
        vstd::utf8::is_char_boundary_iff_not_is_continuation_byte(b, idx);
    }
}

/// A consistent plain interface takes every event, as long as the cursor can
/// still move one byte to the right.
pub proof fn lemma_consistent_state_accepts<'a>(s: AppState<'a>, event: AppEvent)
    requires
        s.consistent(),
        s.solution_input.cursor < usize::MAX,
    ensures
        s.accepts(event),
{
    let text = s.solution_input.value@;
    let c = s.solution_input.cursor as int;
    lemma_ascii_boundaries(text, c);
    if c > 0 {
        lemma_ascii_boundaries(text, c - 1);
    }
}

/// Going to the previous panel undoes going to the next one, and the other
/// way round; four steps in the same direction come back to the start.
pub proof fn lemma_panel_cycle(s: AppScreen)
    ensures
        panel_before(panel_after(s)) == s,
        panel_after(panel_before(s)) == s,
        panel_after(panel_after(panel_after(panel_after(s)))) == s,
        panel_after(s) != s,
{
}

} // verus!
