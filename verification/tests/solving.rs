use crossword_solver::dawg::Dawg;
use crossword_solver::domain::Domain;
use crossword_solver::engine::{solve_config, SolveOutcome};
use crossword_solver::grid::{Grid, GridConfig};
use crossword_solver::solver::Solver;

fn cfg(
    width: usize,
    height: usize,
    black_cells: Vec<(usize, usize)>,
    fixed_cells: Vec<(usize, usize, char)>,
) -> GridConfig {
    GridConfig { width, height, black_cells, fixed_cells }
}

fn words(list: &[&str]) -> Vec<String> {
    list.iter().map(|w| w.to_string()).collect()
}

fn dawg_of(list: &[&str]) -> Dawg {
    let mut d = Dawg::new();
    for w in list {
        d.insert(w);
    }
    d
}

fn expect_success(outcome: SolveOutcome) -> Vec<Vec<char>> {
    match outcome {
        SolveOutcome::Success(g) => g,
        SolveOutcome::Failed => panic!("expected a solution, solver failed"),
        SolveOutcome::Error(m) => panic!("expected a solution, got error: {}", m),
    }
}

/// Checks that every across and down run of length >= 2 spells a word of
/// the dictionary.
fn assert_all_slots_are_words(out: &Vec<Vec<char>>, dict: &Dawg) {
    let height = out.len();
    let width = if height > 0 { out[0].len() } else { 0 };
    for r in 0..height {
        let mut c = 0;
        while c < width {
            if out[r][c] == '#' {
                c += 1;
                continue;
            }
            let start = c;
            let mut w = String::new();
            while c < width && out[r][c] != '#' {
                w.push(out[r][c]);
                c += 1;
            }
            if c - start >= 2 {
                assert!(dict.is_word(&w), "across run {} is not a word", w);
            }
        }
    }
    for c in 0..width {
        let mut r = 0;
        while r < height {
            if out[r][c] == '#' {
                r += 1;
                continue;
            }
            let start = r;
            let mut w = String::new();
            while r < height && out[r][c] != '#' {
                w.push(out[r][c]);
                r += 1;
            }
            if r - start >= 2 {
                assert!(dict.is_word(&w), "down run {} is not a word", w);
            }
        }
    }
}

#[test]
fn single_across_slot_takes_a_word() {
    let out = expect_success(solve_config(&cfg(3, 1, vec![], vec![]), &words(&["CAT"])));
    assert_eq!(out, vec![vec!['C', 'A', 'T']]);
}

#[test]
fn single_down_slot_takes_a_word() {
    let out = expect_success(solve_config(&cfg(1, 3, vec![], vec![]), &words(&["DOG"])));
    assert_eq!(out, vec![vec!['D'], vec!['O'], vec!['G']]);
}

#[test]
fn all_black_grid_solves_empty() {
    let out = expect_success(solve_config(
        &cfg(2, 2, vec![(0, 0), (0, 1), (1, 0), (1, 1)], vec![]),
        &words(&["AA"]),
    ));
    assert_eq!(out, vec![vec!['#', '#'], vec!['#', '#']]);
}

#[test]
fn empty_word_list_with_slots_fails() {
    let outcome = solve_config(&cfg(2, 2, vec![], vec![]), &words(&[]));
    assert!(matches!(outcome, SolveOutcome::Failed));
}

#[test]
fn fixed_letter_absent_from_dictionary_fails() {
    let outcome = solve_config(
        &cfg(3, 1, vec![], vec![(0, 0, 'X')]),
        &words(&["CAT", "DOG"]),
    );
    assert!(matches!(outcome, SolveOutcome::Failed));
}

#[test]
fn tiny_cross() {
    let list = ["CAT", "CAR", "AAA", "TAR", "RAT", "ART"];
    let out = expect_success(solve_config(
        &cfg(3, 3, vec![], vec![(0, 0, 'C')]),
        &words(&list),
    ));
    let row0: String = out[0].iter().collect();
    assert!(row0 == "CAT" || row0 == "CAR", "row 0 was {}", row0);
    assert_eq!(out[0][0], 'C');
    assert_all_slots_are_words(&out, &dawg_of(&list));
}

#[test]
fn forced_corners_leave_no_fill() {
    // The fixings force row 0 and column 0 to CAT and row 1 to start with
    // A, so the middle-right cell would need to be the third letter of ART
    // or ARC and at once the second letter of TEA or TAR: no such letter
    // exists, and the solver reports the instance unsatisfiable.
    let list = ["CAT", "ART", "TEA", "CAR", "ARC", "TAR"];
    let outcome = solve_config(
        &cfg(3, 3, vec![], vec![(0, 0, 'C'), (0, 2, 'T'), (2, 0, 'T')]),
        &words(&list),
    );
    assert!(matches!(outcome, SolveOutcome::Failed));
}

#[test]
fn trivially_satisfiable_two_by_two() {
    let out = expect_success(solve_config(&cfg(2, 2, vec![], vec![]), &words(&["AA"])));
    assert_eq!(out, vec![vec!['A', 'A'], vec!['A', 'A']]);
}

#[test]
fn no_solution_two_by_two() {
    let outcome = solve_config(&cfg(2, 2, vec![], vec![]), &words(&["AB", "CD"]));
    assert!(matches!(outcome, SolveOutcome::Failed));
}

#[test]
fn multiple_solutions_deterministic_pick() {
    let out = expect_success(solve_config(&cfg(3, 1, vec![], vec![]), &words(&["CAT", "DOG"])));
    assert_eq!(out, vec![vec!['C', 'A', 'T']]);
}

#[test]
fn fixed_letter_contradicts_dictionary() {
    let list = ["CAT", "ART", "TEA", "CAR", "ARC", "TAR", "AAA", "RAT"];
    let outcome = solve_config(&cfg(3, 3, vec![], vec![(1, 1, 'Z')]), &words(&list));
    assert!(matches!(outcome, SolveOutcome::Failed));
}

#[test]
fn resolving_with_solution_as_fixings_reproduces_it() {
    let list = ["CAT", "CAR", "AAA", "TAR", "RAT", "ART"];
    let config = cfg(3, 3, vec![], vec![(0, 0, 'C')]);
    let out = expect_success(solve_config(&config, &words(&list)));
    let mut fixings = Vec::new();
    for r in 0..3 {
        for c in 0..3 {
            fixings.push((r, c, out[r][c]));
        }
    }
    let again = expect_success(solve_config(&cfg(3, 3, vec![], fixings), &words(&list)));
    assert_eq!(out, again);
}

#[test]
fn permuting_the_word_list_keeps_the_outcome() {
    // a uniquely solvable instance gives the very same board
    let a = expect_success(solve_config(&cfg(2, 2, vec![], vec![]), &words(&["AA"])));
    let b = expect_success(solve_config(&cfg(2, 2, vec![], vec![]), &words(&["AA", "AA"])));
    assert_eq!(a, b);
    // satisfiability is unchanged by the order of the words
    let list = ["CAT", "CAR", "AAA", "TAR", "RAT", "ART"];
    let mut rev: Vec<&str> = list.to_vec();
    rev.reverse();
    let config = cfg(3, 3, vec![], vec![(0, 0, 'C')]);
    let x = solve_config(&config, &words(&list));
    let y = solve_config(&config, &words(&rev));
    assert!(matches!(x, SolveOutcome::Success(_)));
    assert!(matches!(y, SolveOutcome::Success(_)));
    let unsat = solve_config(&cfg(2, 2, vec![], vec![]), &words(&["CD", "AB"]));
    assert!(matches!(unsat, SolveOutcome::Failed));
}

#[test]
fn invalid_words_are_silently_skipped() {
    let outcome = solve_config(
        &cfg(3, 1, vec![], vec![]),
        &words(&["C4T", "A", "", "D-G", "CAT"]),
    );
    let out = expect_success(outcome);
    assert_eq!(out, vec![vec!['C', 'A', 'T']]);
}

#[test]
fn malformed_configs_are_errors() {
    let w = words(&["CAT"]);
    assert!(matches!(solve_config(&cfg(0, 3, vec![], vec![]), &w), SolveOutcome::Error(_)));
    assert!(matches!(solve_config(&cfg(3, 0, vec![], vec![]), &w), SolveOutcome::Error(_)));
    assert!(matches!(
        solve_config(&cfg(3, 3, vec![(3, 0)], vec![]), &w),
        SolveOutcome::Error(_)
    ));
    assert!(matches!(
        solve_config(&cfg(3, 3, vec![(1, 1), (1, 1)], vec![]), &w),
        SolveOutcome::Error(_)
    ));
    assert!(matches!(
        solve_config(&cfg(3, 3, vec![], vec![(0, 3, 'A')]), &w),
        SolveOutcome::Error(_)
    ));
    assert!(matches!(
        solve_config(&cfg(3, 3, vec![], vec![(0, 0, '9')]), &w),
        SolveOutcome::Error(_)
    ));
    assert!(matches!(
        solve_config(&cfg(3, 3, vec![(0, 0)], vec![(0, 0, 'A')]), &w),
        SolveOutcome::Error(_)
    ));
}

#[test]
fn propagation_is_monotone_and_idempotent() {
    let mut grid = Grid::new(3, 3);
    let d = Domain::from_char('C');
    grid.set_domain(0, 0, d);
    grid.set_fixed(0, 0, Some('C'));
    let dict = dawg_of(&["CAT", "CAR", "AAA", "TAR", "RAT", "ART"]);
    let mut solver = Solver::new(grid, dict);
    let before: Vec<u32> = solver.current_grid().cells.iter().map(|c| c.domain.count()).collect();
    assert!(solver.propagate());
    let once: Vec<Domain> = solver.current_grid().cells.iter().map(|c| c.domain).collect();
    let once_counts: Vec<u32> = once.iter().map(|d| d.count()).collect();
    for (b, a) in before.iter().zip(once_counts.iter()) {
        assert!(a <= b, "a domain grew during propagation");
    }
    assert!(solver.propagate());
    let twice: Vec<Domain> = solver.current_grid().cells.iter().map(|c| c.domain).collect();
    assert_eq!(once, twice, "second propagation changed the domains");
}

#[test]
fn render_marks_undetermined_cells() {
    let mut grid = crossword_solver::grid::Grid::new(3, 1);
    grid.set_black(0, 1, true);
    grid.set_domain(0, 2, Domain::from_char('K'));
    let out = crossword_solver::engine::render(&grid);
    assert_eq!(out, vec![vec!['?', '#', 'K']]);
}

#[test]
fn grid_accessors() {
    let mut grid = Grid::new(4, 3);
    assert_eq!(grid.get_index(2, 3), 11);
    assert!(!grid.get_cell(1, 2).is_black);
    grid.set_black(1, 2, true);
    assert!(grid.get_cell(1, 2).is_black);
    assert_eq!(grid.get_cell(1, 2).domain.count(), 0);
    grid.set_black(1, 2, false);
    assert_eq!(grid.get_cell(1, 2).domain.count(), 26);
    grid.set_fixed(0, 0, Some('A'));
    assert_eq!(grid.get_cell(0, 0).fixed_char, Some('A'));
}

#[test]
fn propagation_detects_unfillable_slot() {
    let grid = Grid::new(2, 2);
    let dict = dawg_of(&["XYZ"]);
    let mut solver = Solver::new(grid, dict);
    assert_eq!(solver.slot_count(), 4);
    assert!(!solver.propagate());
}
