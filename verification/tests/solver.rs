use sudoku_annealing::sa_solver::Progress;
use sudoku_annealing::sa_solver::Search;
use sudoku_annealing::sa_solver::SimulatedAnnealingProblem;
use sudoku_annealing::sa_solver::Step;
use sudoku_annealing::sa_solver::REPORT_INTERVAL;
use sudoku_annealing::sudoku::Sudoku;

fn solved_board() -> [[u8; 9]; 9] {
    [
        [5, 3, 4, 6, 7, 8, 9, 1, 2],
        [6, 7, 2, 1, 9, 5, 3, 4, 8],
        [1, 9, 8, 3, 4, 2, 5, 6, 7],
        [8, 5, 9, 7, 6, 1, 4, 2, 3],
        [4, 2, 6, 8, 5, 3, 7, 9, 1],
        [7, 1, 3, 9, 2, 4, 8, 5, 6],
        [9, 6, 1, 5, 3, 7, 2, 8, 4],
        [2, 8, 7, 4, 1, 9, 6, 3, 5],
        [3, 4, 5, 2, 8, 6, 1, 7, 9],
    ]
}

/// The solved grid with its middle cell free and holding `middle`, and
/// with `corner` as a given in its first cell. The middle cell is the only
/// one that a neighbor move can change.
fn one_free_cell(middle: u8, corner: u8) -> Sudoku {
    let mut board = solved_board();
    board[4][4] = middle;
    board[0][0] = corner;
    let mut fixed = [[true; 9]; 9];
    fixed[4][4] = false;
    Sudoku::new(board, fixed)
}

#[test]
fn a_search_begins_at_the_first_state() {
    let search = Search::start(one_free_cell(1, 5), 10);
    assert_eq!(search.iterations(), 0);
    // the 1 in the middle repeats one in its row, its column and its block
    assert_eq!(search.current_energy(), 3);
    assert_eq!(search.best_energy(), 3);
    assert_eq!(search.current_state().value_at(4, 4), 1);
    assert_eq!(search.best_state().value_at(4, 4), 1);
    assert_eq!(search.next_step(), Step::Propose);
}

#[test]
fn a_lower_neighbor_is_taken_without_a_draw() {
    let mut taken = false;
    for _ in 0..500 {
        let mut search = Search::start(one_free_cell(1, 5), 10);
        let candidate = search.propose();
        let value = candidate.proposed_state().value_at(4, 4);
        if value == 5 {
            assert_eq!(candidate.energy(), 0);
            assert_eq!(search.uphill_by(&candidate), None);
            search.advance(candidate, false);
            assert_eq!(search.current_energy(), 0);
            assert_eq!(search.best_energy(), 0);
            assert_eq!(search.current_state().value_at(4, 4), 5);
            assert_eq!(search.best_state().value_at(4, 4), 5);
            assert_eq!(search.iterations(), 1);
            taken = true;
        } else {
            assert_eq!(candidate.energy(), 3);
            assert_eq!(search.uphill_by(&candidate), Some(0));
        }
    }
    assert!(taken);
}

#[test]
fn a_higher_neighbor_is_taken_only_if_the_draw_accepts() {
    // the 3 in the corner repeats one in its row, its column and its block
    let mut refused = Search::start(one_free_cell(5, 3), 10);
    assert_eq!(refused.current_energy(), 3);
    let candidate = refused.propose();
    assert_eq!(candidate.energy(), 6);
    assert_eq!(refused.uphill_by(&candidate), Some(3));
    refused.advance(candidate, false);
    assert_eq!(refused.current_energy(), 3);
    assert_eq!(refused.current_state().value_at(4, 4), 5);
    assert_eq!(refused.iterations(), 1);

    let mut taken = Search::start(one_free_cell(5, 3), 10);
    let candidate = taken.propose();
    let value = candidate.proposed_state().value_at(4, 4);
    assert_ne!(value, 5);
    taken.advance(candidate, true);
    assert_eq!(taken.current_energy(), 6);
    assert_eq!(taken.current_state().value_at(4, 4), value);
    assert_eq!(taken.best_energy(), 3);
    assert_eq!(taken.best_state().value_at(4, 4), 5);
    assert_eq!(taken.iterations(), 1);
}

#[test]
fn an_equal_neighbor_needs_a_draw() {
    let mut board = solved_board();
    board[0][0] = 3;
    let mut search = Search::start(Sudoku::new(board, [[true; 9]; 9]), 10);
    let candidate = search.propose();
    assert_eq!(candidate.energy(), 3);
    assert_eq!(search.uphill_by(&candidate), Some(0));
    search.advance(candidate, true);
    assert_eq!(search.current_energy(), 3);
    assert_eq!(search.best_energy(), 3);
}

#[test]
fn best_energy_never_rises_and_never_exceeds_the_current_one() {
    let mut search = Search::start(one_free_cell(5, 3), 400);
    let mut last_best = search.best_energy();
    let mut highest = 0;
    while search.next_step() == Step::Propose {
        let before = search.current_energy();
        let candidate = search.propose();
        let energy = candidate.energy();
        search.advance(candidate, true);
        assert_eq!(search.current_energy(), energy);
        assert_eq!(search.best_energy(), last_best.min(energy));
        assert!(search.best_energy() <= last_best);
        assert!(search.best_energy() <= search.current_energy());
        assert_eq!(search.best_state().calculate_energy(), search.best_energy());
        assert_eq!(search.current_state().calculate_energy(), search.current_energy());
        last_best = search.best_energy();
        highest = highest.max(before.max(energy));
    }
    assert_eq!(highest, 6);
    assert_eq!(search.iterations(), 400);
    let best = search.into_best();
    assert_eq!(best.calculate_energy(), 3);
    assert_eq!(best.value_at(4, 4), 5);
}

#[test]
fn the_search_stops_at_energy_zero() {
    let mut search = Search::start(one_free_cell(1, 5), 100_000);
    let mut steps = 0;
    while search.next_step() == Step::Propose {
        let candidate = search.propose();
        search.advance(candidate, false);
        steps += 1;
    }
    assert_eq!(search.next_step(), Step::Solved);
    assert_eq!(search.iterations(), steps);
    assert!(steps < 100_000);
    assert_eq!(search.current_energy(), 0);
    assert_eq!(search.best_energy(), 0);
    let best = search.into_best();
    assert_eq!(best.calculate_energy(), 0);
    assert_eq!(best.value_at(4, 4), 5);
}

#[test]
fn a_solved_first_state_is_handed_back_at_once() {
    let search = Search::start(Sudoku::new(solved_board(), [[false; 9]; 9]), 10);
    assert_eq!(search.next_step(), Step::Solved);
    assert_eq!(search.iterations(), 0);
    let best = search.into_best();
    for r in 0..9 {
        for c in 0..9 {
            assert_eq!(best.value_at(r, c), solved_board()[r][c]);
        }
    }
}

#[test]
fn the_search_stops_at_the_iteration_bound() {
    let mut search = Search::start(one_free_cell(5, 3), 2);
    for _ in 0..2 {
        assert_eq!(search.next_step(), Step::Propose);
        let candidate = search.propose();
        search.advance(candidate, true);
    }
    assert_eq!(search.next_step(), Step::Exhausted);
    assert_eq!(search.iterations(), 2);
    assert_eq!(search.into_best().value_at(4, 4), 5);
}

#[test]
fn no_iteration_is_made_with_a_bound_of_zero() {
    let search = Search::start(one_free_cell(5, 3), 0);
    assert_eq!(search.next_step(), Step::Exhausted);
    let solved = Search::start(Sudoku::new(solved_board(), [[true; 9]; 9]), 0);
    assert_eq!(solved.next_step(), Step::Exhausted);
}

#[test]
fn progress_is_reported_every_thousandth_iteration() {
    assert_eq!(REPORT_INTERVAL, 1000);
    let mut search = Search::start(one_free_cell(5, 3), 5000);
    let mut reports = Vec::new();
    for _ in 0..2500 {
        let candidate = search.propose();
        if let Some(report) = search.advance(candidate, false) {
            reports.push(report);
        }
    }
    assert_eq!(
        reports,
        vec![
            Progress { iteration: 0, current_energy: 3, best_energy: 3 },
            Progress { iteration: 1000, current_energy: 3, best_energy: 3 },
            Progress { iteration: 2000, current_energy: 3, best_energy: 3 },
        ]
    );
}

#[test]
fn a_report_shows_the_energies_after_the_step() {
    let mut search = Search::start(one_free_cell(5, 3), 10);
    let candidate = search.propose();
    let report = search.advance(candidate, true);
    assert_eq!(report, Some(Progress { iteration: 0, current_energy: 6, best_energy: 3 }));
    let candidate = search.propose();
    assert_eq!(search.advance(candidate, false), None);
}

#[test]
fn a_run_on_a_grid_keeps_the_givens_in_current_and_best() {
    let puzzle =
        "3....2478924..7.3....3542..248.1.......598.4..95.4.78...28.19..8.74...53..19.....";
    let first = Sudoku::get_initial_state(puzzle);
    let first_energy = first.calculate_energy();
    let mut search = Search::start(first.clone(), 3000);
    let mut last_best = first_energy;
    let mut turn = 0u32;
    while search.next_step() == Step::Propose {
        let candidate = search.propose();
        turn += 1;
        search.advance(candidate, turn % 7 == 0);
        assert!(search.best_energy() <= last_best);
        assert!(search.best_energy() <= search.current_energy());
        last_best = search.best_energy();
        for r in 0..9 {
            for c in 0..9 {
                for grid in [search.current_state(), search.best_state()] {
                    assert_eq!(grid.fixed_at(r, c), first.fixed_at(r, c));
                    if first.fixed_at(r, c) {
                        assert_eq!(grid.value_at(r, c), first.value_at(r, c));
                    }
                }
            }
        }
    }
    let solved = search.next_step() == Step::Solved;
    let best = search.into_best();
    assert!(best.calculate_energy() <= first_energy);
    assert_eq!(best.calculate_energy(), last_best);
    if solved {
        assert_eq!(best.calculate_energy(), 0);
    }
}
