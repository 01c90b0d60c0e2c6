use pfsp_solver::solver::problem::Problem;
use pfsp_solver::solver::solution::Solution;
use pfsp_solver::tui::adapters::adapter::{parse_settings, Adapter, RunLog};
use pfsp_solver::tui::adapters::annealing::AdapterAnnealing;
use pfsp_solver::tui::adapters::genetic::{genetic_setup, AdapterGA};
use pfsp_solver::tui::adapters::greedy::AdapterGreedy;
use pfsp_solver::tui::adapters::helpers::{find_setting, get_numeric_param, get_optional_numeric_param};
use pfsp_solver::tui::adapters::random::AdapterRandom;
use pfsp_solver::tui::adapters::{build_adapter, AlgorithmAdapter, ALGORITHMS_COUNT};
use pfsp_solver::tui::components::input::InputState;
use pfsp_solver::tui::components::matrix::MatrixState;
use pfsp_solver::tui::helpers::{parse_solution, solution_text};
use pfsp_solver::tui::model::event::AppEvent;
use pfsp_solver::tui::model::model::{AppModel, ModelAction};
use pfsp_solver::tui::model::screen::AppScreen;
use pfsp_solver::tui::state::{
    AppEvent as StateEvent, AppScreen as StateScreen, AppState,
};
use pfsp_solver::tui::adapters::greedy::greedy_run;
use pfsp_solver::tui::helpers::initial_solution;
use pfsp_solver::tui::layout::{first_visible_log, input_scroll_offset, visible_range};
use pfsp_solver::tui::model::model::EventRoute;

fn problem() -> Problem {
    Problem::parse("h\n3 2 - - -\nh\n3 2 1\n2 4 1\n").unwrap()
}

fn pairs(text: &str) -> Vec<(String, String)> {
    parse_settings(text)
}

#[test]
fn screens_go_round() {
    let mut s = AppScreen::ProblemInstance;
    for _ in 0..4 {
        s = s.next_screen();
    }
    assert_eq!(s, AppScreen::ProblemInstance);
    assert_eq!(AppScreen::ProblemInstance.prev_screen(), AppScreen::ControlPanel);
    assert_eq!(AppScreen::Algorithms.next_screen(), AppScreen::ControlPanel);
    assert_eq!(AppScreen::CurrentSolution.next_screen().prev_screen(), AppScreen::CurrentSolution);
}

#[test]
fn matrix_moves_stop_at_the_edges() {
    let mut m = MatrixState::new();
    m.move_left();
    m.move_up();
    assert_eq!((m.row_offset, m.col_offset), (0, 0));
    m.move_right(2);
    m.move_right(2);
    m.move_down(3);
    m.move_down(3);
    m.move_down(3);
    assert_eq!((m.row_offset, m.col_offset), (2, 1));
    m.move_left();
    m.move_up();
    assert_eq!((m.row_offset, m.col_offset), (1, 0));
    m.move_right(0);
    assert_eq!(m.col_offset, 0);
}

#[test]
fn text_field_editing() {
    let mut i = InputState::new();
    i.add_symbol('1');
    i.add_symbol('3');
    i.cursor_left();
    i.add_symbol('2');
    assert_eq!(i.value, "123");
    assert_eq!(i.cursor, 2);
    i.cursor_right();
    i.cursor_right();
    assert_eq!(i.cursor, 3);
    i.remove_symbol();
    assert_eq!(i.value, "12");
    i.cursor_left();
    i.cursor_left();
    i.cursor_left();
    assert_eq!(i.cursor, 0);
    i.remove_symbol();
    assert_eq!(i.value, "12");
    i.clear();
    assert_eq!(i.value, "");
    assert_eq!(i.cursor, 0);
}

#[test]
fn deleting_undoes_typing() {
    let mut i = InputState::new();
    i.add_symbol('4');
    i.add_symbol('2');
    i.cursor_left();
    let before = (i.value.clone(), i.cursor);
    i.add_symbol('é');
    assert_eq!(i.value, "4é2");
    i.remove_symbol();
    assert_eq!((i.value.clone(), i.cursor), before);
}

#[test]
fn plain_interface_state() {
    let p = problem();
    let mut s = AppState::new(&p);
    assert!(s.is_running);
    assert_eq!(s.screen, StateScreen::ProblemInstance);
    s.update_on_event(StateEvent::AddSymbol('l'));
    s.update_on_event(StateEvent::AddSymbol('j'));
    assert_eq!((s.matrix.row_offset, s.matrix.col_offset), (1, 1));
    s.update_on_event(StateEvent::AddSymbol('x'));
    assert_eq!((s.matrix.row_offset, s.matrix.col_offset), (1, 1));
    s.update_on_event(StateEvent::NextScreen);
    assert_eq!(s.screen, StateScreen::CurrentSolution);
    s.update_on_event(StateEvent::AddSymbol('7'));
    s.update_on_event(StateEvent::AddSymbol('8'));
    s.update_on_event(StateEvent::CursorLeft);
    s.update_on_event(StateEvent::DeleteSymbol);
    assert_eq!(s.solution_input.value, "8");
    s.update_on_event(StateEvent::CursorRight);
    assert_eq!(s.solution_input.cursor, 1);
    s.update_on_event(StateEvent::PrevScreen);
    s.update_on_event(StateEvent::PrevScreen);
    assert_eq!(s.screen, StateScreen::ControlPanel);
    s.update_on_event(StateEvent::Close);
    assert!(!s.is_running);
}

#[test]
fn settings_are_read_line_by_line() {
    let entries = pairs(" a : 1 \nno colon\nb:2:3\n\n a: 4\r\n:\n");
    let shown: Vec<(&str, &str)> = entries.iter().map(|(k, v)| (k.as_str(), v.as_str())).collect();
    assert_eq!(shown, vec![("a", "1"), ("b", "2"), ("a", "4"), ("", "")]);
    assert_eq!(find_setting(&entries, "a").map(|v| v.as_str()), Some("4"));
    assert_eq!(find_setting(&entries, "c"), None);
}

#[test]
fn numeric_settings_fall_back_on_defaults() {
    let entries = pairs("size: 12\nseed: +5\nbad: 1x\nhuge: 99999999999999999999");
    assert_eq!(get_numeric_param(&entries, "size", 7usize), 12);
    assert_eq!(get_numeric_param(&entries, "bad", 7usize), 7);
    assert_eq!(get_numeric_param(&entries, "missing", 7usize), 7);
    assert_eq!(get_numeric_param(&entries, "huge", 3u64), 3);
    assert_eq!(get_optional_numeric_param(&entries, "seed", None::<u64>), Some(5));
    assert_eq!(get_optional_numeric_param(&entries, "bad", Some(9u64)), Some(9));
    assert_eq!(get_optional_numeric_param(&entries, "missing", None::<u64>), None);
}

#[test]
fn adapters_and_their_settings() {
    let mut a = AdapterGreedy::default();
    assert_eq!(a.get_settings(), "");
    assert_eq!(a.name(), "Greedy Algorithm");
    assert_eq!(a.short_name(), "GR");
    a.set_settings("x: 1".to_string());
    assert_eq!(a.build_settings(), vec![("x".to_string(), "1".to_string())]);
    assert_eq!(AdapterRandom::new("s".to_string()).get_settings(), "s");
    assert_eq!(AdapterRandom::default().name(), "Random Search");
    assert_eq!(AdapterAnnealing::default().name(), "Simulated Annealing");
    assert_eq!(AdapterGA::default().name(), "Genetic Algorithm");
}

#[test]
fn default_settings_spell_the_default_values() {
    let annealing = format!(
        "swap-mutation: {}\ninversion-mutation: {}\ntemperature: {}\ndecay: {}\nthreshold: {}",
        0.8f32, 0.2f32, 100.0f64, 0.90f64, 0.1f64
    );
    assert_eq!(AdapterAnnealing::default().get_settings(), &annealing);
    let genetic = format!(
        "population-size: {}\nselector: {}\nelitism: {}\nordered-crossover: {}\npartially-matched-crossover: {}\ncycle-crossover: {}\nswap-mutation: {}\ninversion-mutation: {}\nmax-ffe: {}",
        1000usize, "roulette", 0.05f32, 0.1f32, 0.1f32, 0.1f32, 0.05f32, 0.05f32, 10_000u64
    );
    assert_eq!(AdapterGA::default().get_settings(), &genetic);
}

#[test]
fn genetic_whole_number_settings() {
    let d = genetic_setup(&AdapterGA::default().build_settings(), Some(8));
    assert_eq!(d.seed, Some(8));
    assert_eq!(d.population_size, 1000);
    assert_eq!(d.tournament_size, None);
    assert_eq!(d.max_ffe, 10_000);
    let t = genetic_setup(
        &pairs("seed: 3\npopulation-size: 2\nselector: tournament\nmax-ffe: 50"),
        None,
    );
    assert_eq!(t.seed, Some(3));
    assert_eq!(t.population_size, 4);
    assert_eq!(t.tournament_size, Some(5));
    assert_eq!(t.max_ffe, 50);
    let u = genetic_setup(&pairs("selector: tournament\ntournament-size: 9"), None);
    assert_eq!(u.tournament_size, Some(9));
    assert_eq!(u.seed, None);
}

#[test]
fn adapters_by_place() {
    for i in 0..ALGORITHMS_COUNT {
        let a = build_adapter(i, format!("k: {}", i));
        let (place, settings) = match &a {
            AlgorithmAdapter::Random(x) => (0, x.get_settings().clone()),
            AlgorithmAdapter::Greedy(x) => (1, x.get_settings().clone()),
            AlgorithmAdapter::Annealing(x) => (2, x.get_settings().clone()),
            AlgorithmAdapter::Genetic(x) => (3, x.get_settings().clone()),
        };
        assert_eq!(place, i);
        assert_eq!(settings, format!("k: {}", i));
    }
}

#[test]
fn schedules_written_and_read_back() {
    let s = Solution::new(vec![10, 0, 7, 123]);
    let text = solution_text(&s);
    assert_eq!(text, "10 0 7 123");
    assert_eq!(parse_solution(&text).unwrap().data, s.data);
    assert_eq!(solution_text(&Solution::empty()), "");
    assert!(parse_solution("3 x").is_none());
}

#[test]
fn run_logs_hold_a_schedule() {
    let log = RunLog { message: "m".to_string(), fitness: 24, best: Solution::new(vec![0, 1, 2]) };
    assert_eq!(log.best.data.len(), 3);
}

#[test]
fn model_navigation_and_focus() {
    let p = problem();
    let mut m = AppModel::new(&p);
    assert!(m.is_focused && m.is_running);
    assert_eq!(m.update_on_event(AppEvent::Key('l')), ModelAction::Nothing);
    assert_eq!(m.update_on_event(AppEvent::ArrowDown), ModelAction::Nothing);
    assert_eq!((m.processing_times_matrix.row_offset, m.processing_times_matrix.col_offset), (1, 1));
    m.update_on_event(AppEvent::Escape);
    assert!(!m.is_focused);
    m.update_on_event(AppEvent::Key('j'));
    assert_eq!(m.screen, AppScreen::CurrentSolution);
    m.update_on_event(AppEvent::Enter);
    m.update_on_event(AppEvent::Key('5'));
    m.update_on_event(AppEvent::Key('4'));
    m.update_on_event(AppEvent::ArrowLeft);
    m.update_on_event(AppEvent::Backspace);
    assert_eq!(m.solution_input.value, "4");
    m.update_on_event(AppEvent::Escape);
    m.update_on_event(AppEvent::Backspace);
    assert_eq!(m.solution_input.value, "");
    m.update_on_event(AppEvent::ArrowUp);
    m.update_on_event(AppEvent::ArrowUp);
    assert_eq!(m.screen, AppScreen::ControlPanel);
    m.update_on_event(AppEvent::Escape);
    assert!(!m.is_running);
}

#[test]
fn model_algorithm_choice() {
    let p = problem();
    let mut m = AppModel::new(&p);
    m.update_on_event(AppEvent::Escape);
    m.update_on_event(AppEvent::ArrowDown);
    m.update_on_event(AppEvent::ArrowDown);
    assert_eq!(m.screen, AppScreen::Algorithms);
    assert_eq!(
        m.update_on_event(AppEvent::Key('3')),
        ModelAction::SwitchAlgorithm { from: 0, to: 2 }
    );
    assert_eq!(m.selected_algorithm, 2);
    assert_eq!(m.update_on_event(AppEvent::Key('3')), ModelAction::Nothing);
    assert_eq!(m.update_on_event(AppEvent::Key('5')), ModelAction::Nothing);
    assert_eq!(m.update_on_event(AppEvent::Key('0')), ModelAction::Nothing);
    m.algorithm_running = true;
    assert_eq!(m.update_on_event(AppEvent::Key('1')), ModelAction::Nothing);
    assert_eq!(m.selected_algorithm, 2);
    assert!(!m.switch_algorithm(4));
    assert!(m.switch_algorithm(0));
}

#[test]
fn model_log_view() {
    let p = problem();
    let mut m = AppModel::new(&p);
    m.screen = AppScreen::ControlPanel;
    m.update_on_event(AppEvent::ArrowDown);
    m.update_on_event(AppEvent::Key('j'));
    assert_eq!(m.log_scroll, 2);
    assert!(m.log_autoscroll);
    m.update_on_event(AppEvent::Key('k'));
    assert_eq!(m.log_scroll, 1);
    assert!(!m.log_autoscroll);
    m.update_on_event(AppEvent::ArrowUp);
    m.update_on_event(AppEvent::ArrowUp);
    assert_eq!(m.log_scroll, 0);
    assert_eq!(m.update_on_event(AppEvent::Key('r')), ModelAction::ResetLogs);
    assert!(m.log_autoscroll);
    m.show_solution(&Solution::new(vec![2, 0, 1]));
    assert_eq!(m.solution_input.value, "2 0 1");
}

#[test]
fn greedy_runs_report_the_schedule_and_its_cost() {
    let outcome = greedy_run(vec![vec![3, 2, 1], vec![2, 4, 1]], 3).unwrap();
    assert_eq!(outcome.solution.data, vec![2, 0, 1]);
    assert_eq!(outcome.fitness, 18);
    assert_eq!(outcome.evaluations, 6);
    assert!(greedy_run(vec![vec![3, 2]], 3).is_none());
    let empty = greedy_run(vec![vec![3, 2]], 0).unwrap();
    assert!(empty.solution.data.is_empty());
    assert_eq!((empty.fitness, empty.evaluations), (0, 1));
}

#[test]
fn starting_schedules_must_be_permutations() {
    assert_eq!(initial_solution("2 0 1", 3).unwrap().data, vec![2, 0, 1]);
    assert!(initial_solution("2 0", 3).is_none());
    assert!(initial_solution("2 2 1", 3).is_none());
    assert!(initial_solution("x", 3).is_none());
}

#[test]
fn key_presses_are_routed() {
    let p = problem();
    let mut m = AppModel::new(&p);
    assert_eq!(m.route(Some(AppEvent::Key('a'))), EventRoute::Model(AppEvent::Key('a')));
    assert_eq!(m.route(None), EventRoute::Ignored);
    m.screen = AppScreen::Algorithms;
    assert_eq!(m.route(Some(AppEvent::Key('a'))), EventRoute::SettingsEditor);
    assert_eq!(m.route(None), EventRoute::SettingsEditor);
    assert_eq!(m.route(Some(AppEvent::Escape)), EventRoute::Model(AppEvent::Escape));
    m.screen = AppScreen::ControlPanel;
    assert_eq!(m.route(Some(AppEvent::Enter)), EventRoute::StartAlgorithm);
    m.algorithm_running = true;
    assert_eq!(m.route(Some(AppEvent::Enter)), EventRoute::StopAlgorithm);
    m.is_focused = false;
    assert_eq!(m.route(Some(AppEvent::Enter)), EventRoute::Model(AppEvent::Enter));
}

#[test]
fn views_scroll_to_keep_things_visible() {
    assert_eq!(visible_range(0, 10, 4), (0, 4));
    assert_eq!(visible_range(8, 10, 4), (8, 10));
    assert_eq!(visible_range(15, 10, 4), (9, 10));
    assert_eq!(visible_range(3, 0, 4), (0, 0));
    assert_eq!(first_visible_log(true, 0, 30, 10), 20);
    assert_eq!(first_visible_log(false, 5, 30, 10), 5);
    assert_eq!(first_visible_log(false, 25, 30, 10), 20);
    assert_eq!(first_visible_log(true, 0, 3, 10), 0);
    assert_eq!(input_scroll_offset(3, 10), 0);
    assert_eq!(input_scroll_offset(12, 10), 3);
    assert_eq!(input_scroll_offset(12, 0), 0);
}

#[test]
fn escape_then_enter_restores_the_model() {
    let p = problem();
    let mut m = AppModel::new(&p);
    m.screen = AppScreen::CurrentSolution;
    m.update_on_event(AppEvent::Key('7'));
    let before = (m.screen, m.is_focused, m.solution_input.value.clone(), m.solution_input.cursor);
    assert_eq!(m.update_on_event(AppEvent::Escape), ModelAction::Nothing);
    assert_eq!(m.update_on_event(AppEvent::Enter), ModelAction::Nothing);
    assert_eq!((m.screen, m.is_focused, m.solution_input.value.clone(), m.solution_input.cursor), before);
    m.update_on_event(AppEvent::Escape);
    m.update_on_event(AppEvent::ArrowUp);
    m.update_on_event(AppEvent::ArrowDown);
    assert_eq!(m.screen, AppScreen::CurrentSolution);
}

#[test]
fn table_moves_undo_each_other() {
    let mut m = MatrixState::new();
    m.move_right(5);
    m.move_down(4);
    let at = (m.row_offset, m.col_offset);
    m.move_right(5);
    m.move_left();
    m.move_down(4);
    m.move_up();
    assert_eq!((m.row_offset, m.col_offset), at);
}

#[test]
fn greedy_runs_while_every_flow_fits() {
    // Alone, job 0 ends at 4e18 and job 1 at 5e18; both in turn end at 4e18
    // and 9e18, a total flow of 1.3e19, which fits a u64.
    let outcome = greedy_run(
        vec![vec![4_000_000_000_000_000_000, 5_000_000_000_000_000_000]],
        2,
    )
    .unwrap();
    assert_eq!(outcome.solution.data, vec![0, 1]);
    assert_eq!(outcome.fitness, 13_000_000_000_000_000_000);
    assert_eq!(outcome.evaluations, 3);
    let t: u64 = 4_000_000_000_000_000_000;
    let tied = greedy_run(vec![vec![t, t]], 2).unwrap();
    assert_eq!(tied.fitness, 12_000_000_000_000_000_000);
    assert_eq!(tied.evaluations, 3);
}

#[test]
fn greedy_stops_at_a_flow_beyond_u64() {
    let t: u64 = 10_000_000_000_000_000_000;
    assert!(greedy_run(vec![vec![t, t]], 2).is_none());
    assert!(greedy_run(vec![], 1).is_none());
}

#[test]
fn model_starts_with_the_four_algorithms_and_no_logs() {
    let p = problem();
    let m = AppModel::new(&p);
    let names: Vec<&str> = m.algorithms.iter().map(|a| a.name()).collect();
    assert_eq!(
        names,
        vec!["Random Search", "Greedy Algorithm", "Simulated Annealing", "Genetic Algorithm"]
    );
    assert!(m.run_logs.is_empty());
    assert_eq!(m.algorithms[0].settings(), "");
    assert!(m.algorithms[3].settings().starts_with("population-size: 1000"));
}

#[test]
fn model_keeps_and_forgets_logs() {
    let p = problem();
    let mut m = AppModel::new(&p);
    m.push_log(RunLog { message: String::from("step"), fitness: 18, best: Solution::new(vec![2, 0, 1]) });
    assert_eq!(m.run_logs.len(), 1);
    assert_eq!(m.solution_input.value, "2 0 1");
    m.update_on_event(AppEvent::Escape);
    m.update_on_event(AppEvent::Key('j'));
    m.update_on_event(AppEvent::Key('j'));
    m.update_on_event(AppEvent::Key('j'));
    m.update_on_event(AppEvent::Enter);
    assert_eq!(m.screen, AppScreen::ControlPanel);
    assert_eq!(m.update_on_event(AppEvent::Key('r')), ModelAction::ResetLogs);
    assert!(m.run_logs.is_empty());
}

#[test]
fn plain_interface_keeps_its_state_consistent() {
    let p = problem();
    let mut s = AppState::new(&p);
    for _ in 0..5 {
        s.update_on_event(StateEvent::AddSymbol('l'));
        s.update_on_event(StateEvent::AddSymbol('j'));
    }
    assert_eq!((s.matrix.row_offset, s.matrix.col_offset), (1, 2));
    s.update_on_event(StateEvent::NextScreen);
    s.update_on_event(StateEvent::AddSymbol('1'));
    s.update_on_event(StateEvent::AddSymbol(' '));
    s.update_on_event(StateEvent::DeleteSymbol);
    s.update_on_event(StateEvent::CursorRight);
    assert_eq!(s.solution_input.value, "1");
    assert!(s.solution_input.cursor <= s.solution_input.value.len());
    assert!(s.solution_input.value.is_ascii());
    assert_eq!((s.matrix.row_offset, s.matrix.col_offset), (1, 2));
    assert!(s.is_running);
}

#[test]
fn visible_range_near_the_top_of_usize() {
    assert_eq!(visible_range(usize::MAX, 10, usize::MAX - 9), (9, 10));
    assert_eq!(visible_range(2, 10, usize::MAX - 2), (2, 10));
}
