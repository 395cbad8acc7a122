use mazest::generators::Generator;
use mazest::maze::grid::GridEvent;
use mazest::solvers::Solver;
use mazest::visualize::input::Key;
use mazest::visualize::renderer::RendererStatus;
use mazest::visualize::session::{
    combo, compute, get_max_maze_size, menu_move, next_combo, report_outcome, select_dimension,
    App, Outcome,
};

#[test]
fn max_maze_size_is_half_the_odd_grid_side() {
    assert_eq!(get_max_maze_size(80, 2), 19);
    assert_eq!(get_max_maze_size(81, 2), 19);
    assert_eq!(get_max_maze_size(82, 2), 20);
    assert_eq!(get_max_maze_size(24, 1), 11);
    assert_eq!(get_max_maze_size(23, 1), 11);
}

#[test]
fn max_maze_size_is_at_least_one_and_at_most_255() {
    assert_eq!(get_max_maze_size(0, 1), 1);
    assert_eq!(get_max_maze_size(1, 2), 1);
    assert_eq!(get_max_maze_size(3, 1), 1);
    assert_eq!(get_max_maze_size(5, 1), 2);
    assert_eq!(get_max_maze_size(511, 1), 255);
    assert_eq!(get_max_maze_size(65535, 1), 255);
    assert_eq!(App::get_default_maze_size(80, 2), 19);
}

#[test]
fn refresh_time_grows_with_the_square_of_the_shrinking() {
    let app = App::new();
    assert_eq!(app.calculate_render_refresh_time(255, 255), 20);
    assert_eq!(app.calculate_render_refresh_time(5, 5), 20 * 51 * 51);
    assert_eq!(app.calculate_render_refresh_time(1, 0), 20 * 255 * 255);
    assert_eq!(app.calculate_render_refresh_time(100, 200), 20);
    assert_eq!(app.calculate_render_refresh_time(100, 3), 20 * 2 * 2);
    let slow = App { render_refresh_rate: u64::MAX / 65025, ..App::new() };
    assert_eq!(slow.calculate_render_refresh_time(1, 1), (u64::MAX / 65025) * 65025);
}

#[test]
fn combos_pair_every_generator_with_every_solver() {
    assert_eq!(combo(0), (Generator::RecurBacktrack, Solver::Dfs));
    assert_eq!(combo(3), (Generator::RecurBacktrack, Solver::AStar));
    assert_eq!(combo(5), (Generator::Kruskal, Solver::Bfs));
    assert_eq!(combo(10), (Generator::Prim, Solver::Dijkstra));
    assert_eq!(combo(15), (Generator::RecurDiv, Solver::AStar));
    let mut seen = Vec::new();
    for index in 0..16 {
        let pair = combo(index);
        assert!(!seen.contains(&pair));
        seen.push(pair);
    }
    for _ in 0..50 {
        assert!(seen.contains(&next_combo()));
    }
}

#[test]
fn compute_declares_the_grid_and_reaches_the_goal() {
    for generator in
        [Generator::RecurBacktrack, Generator::Kruskal, Generator::Prim, Generator::RecurDiv]
    {
        for solver in [Solver::Dfs, Solver::Bfs, Solver::Dijkstra, Solver::AStar] {
            let (tx, rx) = std::sync::mpsc::sync_channel::<GridEvent>(100_000);
            assert!(compute(6, 4, tx, generator, solver));
            let events: Vec<GridEvent> = rx.iter().collect();
            assert_eq!(
                events[0],
                GridEvent::Initial {
                    cell: mazest::maze::cell::GridCell::wall(),
                    width: 13,
                    height: 9
                }
            );
            assert!(events[1..].iter().all(|e| matches!(e, GridEvent::Update { .. })));
        }
    }
}

#[test]
fn a_dimension_is_a_number_from_one_to_the_maximum() {
    assert_eq!(select_dimension(true, None, 19), Some(19));
    assert_eq!(select_dimension(true, Some(200), 19), Some(19));
    assert_eq!(select_dimension(false, Some(1), 19), Some(1));
    assert_eq!(select_dimension(false, Some(19), 19), Some(19));
    assert_eq!(select_dimension(false, Some(20), 19), None);
    assert_eq!(select_dimension(false, Some(0), 19), None);
    assert_eq!(select_dimension(false, None, 19), None);
    assert_eq!(select_dimension(false, Some(255), 255), Some(255));
}

#[test]
fn the_menu_selection_wraps_around() {
    assert_eq!(menu_move(0, 4, Key::Down), 1);
    assert_eq!(menu_move(3, 4, Key::Down), 0);
    assert_eq!(menu_move(0, 4, Key::Up), 3);
    assert_eq!(menu_move(2, 4, Key::Up), 1);
    assert_eq!(menu_move(2, 4, Key::Enter), 2);
    assert_eq!(menu_move(0, 1, Key::Up), 0);
    assert_eq!(menu_move(0, 1, Key::Down), 0);
}

#[test]
fn a_cancelled_session_is_reported_as_cancelled_whatever_was_found() {
    assert_eq!(report_outcome(RendererStatus::Cancelled, true), Outcome::Cancelled);
    assert_eq!(report_outcome(RendererStatus::Cancelled, false), Outcome::Cancelled);
    assert_eq!(report_outcome(RendererStatus::Completed, true), Outcome::GoalReached);
    assert_eq!(report_outcome(RendererStatus::Completed, false), Outcome::GoalNotReached);
}
