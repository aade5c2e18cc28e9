use crossword_solver::grid::Grid;
use crossword_solver::layout::LayoutGenerator;

#[test]
fn all_white_grid_is_a_valid_layout() {
    let gen = LayoutGenerator::new(5, 5);
    let grid = Grid::new(5, 5);
    assert!(gen.check_connectivity(&grid));
    assert!(gen.check_min_word_length(&grid));
    assert!(gen.is_valid_layout(&grid));
}

#[test]
fn short_run_is_rejected() {
    let gen = LayoutGenerator::new(5, 5);
    let mut grid = Grid::new(5, 5);
    // a wall at column 2 of row 0 leaves a run of two cells on its left
    grid.set_black(0, 2, true);
    assert!(!gen.check_min_word_length(&grid));
}

#[test]
fn disconnected_grid_is_rejected() {
    let gen = LayoutGenerator::new(3, 3);
    let mut grid = Grid::new(3, 3);
    // a full wall column splits the whites in two
    grid.set_black(0, 1, true);
    grid.set_black(1, 1, true);
    grid.set_black(2, 1, true);
    assert!(!gen.check_connectivity(&grid));
}

#[test]
fn generate_produces_a_valid_layout() {
    let gen = LayoutGenerator::new(7, 7);
    let grid = gen.generate();
    assert_eq!(grid.width, 7);
    assert_eq!(grid.height, 7);
    assert!(gen.check_min_word_length(&grid));
}
