use sudoku::Sudoku;
use sudoku::grid::Grid;

/// A partial grid with a unique solution: `puzzle_solved()`.
fn puzzle_unsolved() -> [i32; 81] {
    [
        0, 0, 0, 0, 5, 0, 0, 0, 0,
        0, 0, 6, 0, 0, 0, 1, 2, 0,
        7, 0, 0, 0, 0, 3, 0, 5, 0,
        2, 0, 1, 6, 7, 0, 0, 0, 0,
        0, 0, 0, 0, 0, 2, 0, 0, 0,
        0, 0, 0, 5, 0, 8, 0, 0, 7,
        0, 1, 0, 2, 0, 0, 9, 0, 0,
        5, 0, 0, 0, 0, 7, 0, 3, 0,
        9, 0, 8, 0, 4, 0, 0, 0, 0,
    ]
}

/// A fully solved grid; the unique solution of `puzzle_unsolved()`.
fn puzzle_solved() -> [i32; 81] {
    [
        1, 2, 3, 4, 5, 6, 7, 8, 9,
        4, 5, 6, 7, 8, 9, 1, 2, 3,
        7, 8, 9, 1, 2, 3, 4, 5, 6,
        2, 3, 1, 6, 7, 4, 8, 9, 5,
        8, 7, 5, 9, 1, 2, 3, 6, 4,
        6, 9, 4, 5, 3, 8, 2, 1, 7,
        3, 1, 7, 2, 6, 5, 9, 4, 8,
        5, 4, 2, 8, 9, 7, 6, 3, 1,
        9, 6, 8, 3, 4, 1, 5, 7, 2,
    ]
}

/// `puzzle_unsolved()` with one extra wrong digit (3 at the first cell):
/// still pairwise valid, but no completion exists.
fn puzzle_unsolvable() -> [i32; 81] {
    let mut p = puzzle_unsolved();
    p[0] = 3;
    p
}

fn to_array(v: &[i32]) -> [i32; 81] {
    let mut a = [0i32; 81];
    for (i, d) in v.iter().enumerate() {
        a[i] = *d;
    }
    a
}

#[test]
fn new_works() {
    let puzzle = puzzle_unsolved();
    let sudoku = Sudoku::new(&puzzle);
    assert_eq!(puzzle[..], sudoku.initial_state()[..]);
}

#[test]
fn solve_works() {
    let puzzle = puzzle_unsolved();
    let solution = puzzle_solved();
    let mut sudoku = Sudoku::new(&puzzle);
    assert!(sudoku.solve());
    assert_eq!(puzzle[..], sudoku.initial_state()[..]);
    assert_eq!(solution[..], sudoku.state()[..]);
}

#[test]
fn generate_works() {
    let solved = puzzle_solved();
    let sudoku = Sudoku::generate(solved, 0, 50, 5).unwrap();
    assert_ne!(sudoku.initial_state()[..], solved[..]);
    assert_eq!(sudoku.state()[..], solved[..]);
    let blanks = sudoku.initial_state().iter().filter(|&&s| s == 0).count();
    assert!(blanks <= 81 - 17);
    assert!(blanks >= 30);
}

#[test]
fn solve_preserves_clues() {
    let puzzle = puzzle_unsolved();
    let mut sudoku = Sudoku::new(&puzzle);
    assert!(sudoku.solve());
    let state = sudoku.state();
    for i in 0..81 {
        if puzzle[i] != 0 {
            assert_eq!(state[i], puzzle[i]);
        }
    }
}

#[test]
fn solve_is_deterministic() {
    let puzzle = puzzle_unsolved();
    let mut a = Sudoku::new(&puzzle);
    let mut b = Sudoku::new(&puzzle);
    assert!(a.solve());
    assert!(b.solve());
    assert_eq!(a.state()[..], b.state()[..]);
}

#[test]
fn unsolvable_reports_failure_and_keeps_grid() {
    let puzzle = puzzle_unsolvable();
    let grid = Grid::from_array(&puzzle);
    assert!(grid.is_valid());
    let mut sudoku = Sudoku::new(&puzzle);
    assert!(!sudoku.solve());
    assert_eq!(sudoku.initial_state()[..], puzzle[..]);
    assert_eq!(sudoku.state()[..], puzzle[..]);
}

#[test]
fn duplicate_in_row_is_rejected() {
    let mut p = [0i32; 81];
    p[0] = 5;
    p[3] = 5;
    let grid = Grid::from_array(&p);
    assert!(!grid.is_valid());
}

#[test]
fn duplicate_free_grid_is_accepted() {
    let grid = Grid::from_array(&puzzle_unsolved());
    assert!(grid.is_valid());
    let solved = Grid::from_array(&puzzle_solved());
    assert!(solved.is_valid());
}

#[test]
fn completeness_check() {
    let full = Grid::from_array(&puzzle_solved());
    assert!(full.is_complete());
    let partial = Grid::from_array(&puzzle_unsolved());
    assert!(!partial.is_complete());
}

#[test]
fn candidates_are_the_unused_digits() {
    let grid = Grid::from_array(&puzzle_unsolved());
    assert_eq!(grid.candidates(0), vec![1, 3, 4, 8]);
    assert_eq!(grid.candidates(1), vec![2, 3, 4, 8, 9]);
    assert_eq!(grid.candidates(40), vec![1, 3, 9]);
    assert_eq!(grid.candidates(80), vec![1, 2, 5, 6]);
}

#[test]
fn get_and_set_roundtrip() {
    let mut grid = Grid::from_array(&puzzle_unsolved());
    assert_eq!(grid.get(4), 5);
    assert_eq!(grid.get(0), 0);
    grid.set(0, 8);
    assert_eq!(grid.get(0), 8);
    grid.set(0, 0);
    assert_eq!(grid.get(0), 0);
}

#[test]
fn generate_resolves_to_state() {
    let solved = puzzle_solved();
    let sudoku = Sudoku::generate(solved, 0, 50, 5).unwrap();
    assert_ne!(sudoku.initial_state()[..], solved[..]);
    let initial = to_array(sudoku.initial_state());
    let mut again = Sudoku::new(&initial);
    assert!(again.solve());
    assert_eq!(again.state()[..], solved[..]);
}

#[test]
fn generate_is_deterministic() {
    let solved = puzzle_solved();
    let a = Sudoku::generate(solved, 7, 40, 10).unwrap();
    let b = Sudoku::generate(solved, 7, 40, 10).unwrap();
    assert_eq!(a.initial_state()[..], b.initial_state()[..]);
    assert_eq!(a.state()[..], b.state()[..]);
    let blanks = a.initial_state().iter().filter(|&&s| s == 0).count();
    assert_eq!(blanks, 41);
}

#[test]
fn generate_respects_clue_floor() {
    let solved = puzzle_solved();
    let sudoku = Sudoku::generate(solved, 0, 50, 5).unwrap();
    let clues = sudoku.initial_state().iter().filter(|&&s| s != 0).count();
    assert!(clues >= 50);
}

#[test]
fn generate_with_full_floor_removes_nothing() {
    let solved = puzzle_solved();
    let sudoku = Sudoku::generate(solved, 1, 81, 5).unwrap();
    assert_eq!(sudoku.initial_state()[..], solved[..]);
    assert_eq!(sudoku.state()[..], solved[..]);
}

#[test]
fn generate_with_no_budget_fails() {
    let solved = puzzle_solved();
    assert!(Sudoku::generate(solved, 0, 50, 0).is_none());
}
