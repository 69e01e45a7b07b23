//! A verified constraint engine for classic 9x9 Sudoku.
//!
//! Two capabilities: solve an arbitrary partially-filled grid into a complete
//! valid solution (or report that none exists), and generate a puzzle from a
//! fully solved grid by removing clues while solvability back to that exact
//! grid is kept.

use vstd::prelude::*;

pub mod grid;
pub mod solver;
pub mod generator;

use crate::grid::{Grid, wf, valid, solved, extends, solvable};
use crate::solver::{solve_spec, solve_rec, lemma_solve_sound, lemma_none_unsolvable};

verus! {

/// A puzzle: the grid first handed in (`init`, the clues) and the working
/// grid (`state`, the solution once solving succeeds).
pub struct Sudoku {
    pub init: Grid,
    pub state: Grid,
}

impl Sudoku {
    /// Create a new Sudoku object from a flat array of digits.
    /// Use 0 to indicate a square is blank.
    pub fn new(raw_array: &[i32; 81]) -> (s: Sudoku)
        requires
            wf(raw_array@),
        ensures
            s.init@ == raw_array@,
            s.state@ == raw_array@,
    {
        let init = Grid::from_array(raw_array);
        let state = init.duplicate();
        Sudoku { init, state }
    }

    /// Get the initial grid as a flat vector of digits.
    /// 0 represents the square is blank.
    pub fn initial_state(&self) -> (r: &Vec<i32>)
        ensures
            r@ == self.init@,
    {
        self.init.cells()
    }

    /// Get the current state as a flat vector of digits.
    /// If solve has been called and succeeded, this is the solution.
    pub fn state(&self) -> (r: &Vec<i32>)
        ensures
            r@ == self.state@,
    {
        self.state.cells()
    }

    /// Solve the puzzle. The initial grid must be valid; the answer is a
    /// function of it alone. On success the state holds a solved grid that
    /// keeps every clue; on failure nothing is changed and no solution
    /// exists.
    pub fn solve(&mut self) -> (r: bool)
        requires
            wf(old(self).init@),
            valid(old(self).init@),
        ensures
            final(self).init@ == old(self).init@,
            r == (solve_spec(old(self).init@) is Some),
            r == solvable(old(self).init@),
            r ==> solve_spec(old(self).init@) == Some(final(self).state@)
                && solved(final(self).state@)
                && extends(final(self).state@, old(self).init@),
            !r ==> final(self).state@ == old(self).state@,
    {
        let mut work = self.init.duplicate();
        let ok = solve_rec(&mut work);
        if ok {
            proof {
                lemma_solve_sound(self.init@);
                assert(solvable(self.init@));
            }
            self.state = work;
            true
        } else {
            proof {
                lemma_none_unsolvable(self.init@);
            }
            false
        }
    }
}

} // verus!
