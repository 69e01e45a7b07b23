//! The 9x9 board: cell addressing, validity, and the candidate digits of a
//! cell, together with the executable `Grid` type the engines work on.
//!
//! A grid is 81 cells in row-major order; a cell holds a digit in 0..=9 where
//! 0 means blank. Validity says that no row, column, or 3x3 box repeats a
//! non-zero digit.

use vstd::prelude::*;

verus! {

/// Well-formed board: 81 cells, each in 0..=9.
pub open spec fn wf(g: Seq<i32>) -> bool {
    g.len() == 81 && forall|i: int| 0 <= i < 81 ==> 0 <= #[trigger] g[i] <= 9
}

pub open spec fn row_of(i: int) -> int {
    i / 9
}

pub open spec fn col_of(i: int) -> int {
    i % 9
}

pub open spec fn box_of(i: int) -> int {
    (i / 9 / 3) * 3 + (i % 9) / 3
}

/// Two cells share a row, a column, or a box.
pub open spec fn same_unit(i: int, j: int) -> bool {
    row_of(i) == row_of(j) || col_of(i) == col_of(j) || box_of(i) == box_of(j)
}

/// Cell `i` does not clash with cell `j`: either they are the same cell, or
/// they share no unit, or `i` is blank, or they hold different digits.
pub open spec fn cells_ok(g: Seq<i32>, i: int, j: int) -> bool {
    i == j || !same_unit(i, j) || g[i] == 0 || g[i] != g[j]
}

/// No row, column, or box holds a non-zero digit twice.
pub open spec fn valid(g: Seq<i32>) -> bool {
    forall|i: int, j: int| 0 <= i < 81 && 0 <= j < 81 ==> #[trigger] cells_ok(g, i, j)
}

/// Every cell is filled.
pub open spec fn complete(g: Seq<i32>) -> bool {
    forall|i: int| 0 <= i < 81 ==> #[trigger] g[i] != 0
}

/// A full, valid board.
pub open spec fn solved(g: Seq<i32>) -> bool {
    wf(g) && complete(g) && valid(g)
}

/// `s` agrees with `g` on every clue (non-zero cell) of `g`.
pub open spec fn extends(s: Seq<i32>, g: Seq<i32>) -> bool {
    forall|i: int| 0 <= i < 81 && #[trigger] g[i] != 0 ==> s[i] == g[i]
}

/// Some solved board completes `g`.
pub open spec fn solvable(g: Seq<i32>) -> bool {
    exists|s: Seq<i32>| solved(s) && extends(s, g)
}

/// Digit `d` may be placed at cell `i`: it is 1..=9 and no cell sharing a
/// unit with `i` already holds it.
pub open spec fn can_place(g: Seq<i32>, i: int, d: int) -> bool {
    1 <= d <= 9 && forall|j: int| 0 <= j < 81 && j != i && #[trigger] same_unit(i, j)
        ==> g[j] as int != d
}

/// The candidate digits of cell `i` that are >= `d`, in ascending order.
pub open spec fn cand_seq_from(g: Seq<i32>, i: int, d: int) -> Seq<i32>
    decreases 10 - d,
{
    if d < 1 || d > 9 {
        Seq::empty()
    } else if can_place(g, i, d) {
        seq![d as i32] + cand_seq_from(g, i, d + 1)
    } else {
        cand_seq_from(g, i, d + 1)
    }
}

/// All candidate digits of cell `i`, ascending.
pub open spec fn cand_seq(g: Seq<i32>, i: int) -> Seq<i32> {
    cand_seq_from(g, i, 1)
}

/// How many candidate digits cell `i` has.
pub open spec fn cand_count(g: Seq<i32>, i: int) -> int {
    cand_seq(g, i).len() as int
}

/// Blank cells among the first `n`.
pub open spec fn blanks_upto(g: Seq<i32>, n: int) -> nat
    decreases n,
{
    if n <= 0 {
        0
    } else {
        blanks_upto(g, n - 1) + (if g[n - 1] == 0 { 1nat } else { 0nat })
    }
}

/// Blank cells of the whole board.
pub open spec fn count_blanks(g: Seq<i32>) -> nat {
    blanks_upto(g, 81)
}

/// Filled cells among the first `n`.
pub open spec fn nonzero_upto(g: Seq<i32>, n: int) -> nat
    decreases n,
{
    if n <= 0 {
        0
    } else {
        nonzero_upto(g, n - 1) + (if g[n - 1] == 0 { 0nat } else { 1nat })
    }
}

/// Filled cells (clues) of the whole board.
pub open spec fn count_nonzero(g: Seq<i32>) -> nat {
    nonzero_upto(g, 81)
}

/// Filling a blank cell lowers the blank count by one, as far as the count
/// reaches past the cell.
pub proof fn lemma_blanks_update(g: Seq<i32>, i: int, d: i32, n: int)
    requires
        0 <= i < g.len(),
        n <= g.len(),
        g[i] == 0,
        d != 0,
    ensures
        blanks_upto(g, n) == blanks_upto(g.update(i, d), n) + (if i < n { 1nat } else { 0nat }),
    decreases n,
{
    if n > 0 {
        lemma_blanks_update(g, i, d, n - 1);
    }
}

/// Blanking a filled cell lowers the clue count by one.
pub proof fn lemma_nonzero_clear(g: Seq<i32>, i: int, n: int)
    requires
        0 <= i < g.len(),
        n <= g.len(),
        g[i] != 0,
    ensures
        nonzero_upto(g, n) == nonzero_upto(g.update(i, 0), n) + (if i < n { 1nat } else { 0nat }),
    decreases n,
{
    if n > 0 {
        lemma_nonzero_clear(g, i, n - 1);
    }
}

/// A board with no blank among its first `n` cells has `n` clues there.
pub proof fn lemma_nonzero_full(g: Seq<i32>, n: int)
    requires
        0 <= n,
        forall|i: int| 0 <= i < n ==> #[trigger] g[i] != 0,
    ensures
        nonzero_upto(g, n) == n,
    decreases n,
{
    if n > 0 {
        lemma_nonzero_full(g, n - 1);
    }
}

/// Nine pairwise different digits, each 1..=9, must include every digit.
proof fn lemma_distinct_digits_cover(vals: Seq<i32>, d: int)
    requires
        vals.len() == 9,
        forall|a: int, c: int| 0 <= a < 9 && 0 <= c < 9 && a != c
            ==> #[trigger] vals[a] != #[trigger] vals[c],
        forall|a: int| 0 <= a < 9 ==> 1 <= #[trigger] vals[a] <= 9,
        1 <= d <= 9,
    ensures
        exists|a: int| 0 <= a < 9 && vals[a] as int == d,
{
    if forall|a: int| 0 <= a < 9 ==> #[trigger] vals[a] as int != d {
        let v0 = vals[0];
        let v1 = vals[1];
        let v2 = vals[2];
        let v3 = vals[3];
        let v4 = vals[4];
        let v5 = vals[5];
        let v6 = vals[6];
        let v7 = vals[7];
        let v8 = vals[8];
        assert(false);
    }
}

/// In a solved grid every row is a permutation of 1..=9: each digit appears
/// in each row, and validity already forbids it appearing twice.
pub proof fn lemma_solved_row_covers(g: Seq<i32>, r: int, d: int)
    requires
        solved(g),
        0 <= r < 9,
        1 <= d <= 9,
    ensures
        exists|j: int| 0 <= j < 81 && row_of(j) == r && g[j] as int == d,
{
    let vals = Seq::new(9, |a: int| g[9 * r + a]);
    assert forall|a: int, c: int| 0 <= a < 9 && 0 <= c < 9 && a != c
        implies #[trigger] vals[a] != #[trigger] vals[c] by {
        let ja = 9 * r + a;
        let jc = 9 * r + c;
        assert(row_of(ja) == r && row_of(jc) == r);
        assert(same_unit(ja, jc));
        assert(cells_ok(g, ja, jc));
        assert(g[ja] != 0);
    }
    assert forall|a: int| 0 <= a < 9 implies 1 <= #[trigger] vals[a] <= 9 by {
        assert(g[9 * r + a] != 0);
    }
    lemma_distinct_digits_cover(vals, d);
    let a = choose|a: int| 0 <= a < 9 && vals[a] as int == d;
    assert(row_of(9 * r + a) == r);
    assert(g[9 * r + a] as int == d);
}

/// In a solved grid every column is a permutation of 1..=9.
pub proof fn lemma_solved_col_covers(g: Seq<i32>, c: int, d: int)
    requires
        solved(g),
        0 <= c < 9,
        1 <= d <= 9,
    ensures
        exists|j: int| 0 <= j < 81 && col_of(j) == c && g[j] as int == d,
{
    let vals = Seq::new(9, |a: int| g[9 * a + c]);
    assert forall|a: int, b: int| 0 <= a < 9 && 0 <= b < 9 && a != b
        implies #[trigger] vals[a] != #[trigger] vals[b] by {
        let ja = 9 * a + c;
        let jb = 9 * b + c;
        assert(col_of(ja) == c && col_of(jb) == c);
        assert(same_unit(ja, jb));
        assert(cells_ok(g, ja, jb));
        assert(g[ja] != 0);
    }
    assert forall|a: int| 0 <= a < 9 implies 1 <= #[trigger] vals[a] <= 9 by {
        assert(g[9 * a + c] != 0);
    }
    lemma_distinct_digits_cover(vals, d);
    let a = choose|a: int| 0 <= a < 9 && vals[a] as int == d;
    assert(col_of(9 * a + c) == c);
    assert(g[9 * a + c] as int == d);
}

/// The cell at offset `a` of box `b`, row-major inside the box.
pub open spec fn box_cell(b: int, a: int) -> int {
    (3 * (b / 3) + a / 3) * 9 + 3 * (b % 3) + a % 3
}

/// In a solved grid every box is a permutation of 1..=9.
pub proof fn lemma_solved_box_covers(g: Seq<i32>, b: int, d: int)
    requires
        solved(g),
        0 <= b < 9,
        1 <= d <= 9,
    ensures
        exists|j: int| 0 <= j < 81 && box_of(j) == b && g[j] as int == d,
{
    assert forall|a: int| 0 <= a < 9
        implies 0 <= #[trigger] box_cell(b, a) < 81 && box_of(box_cell(b, a)) == b by {
        let j = box_cell(b, a);
        assert(j / 9 == 3 * (b / 3) + a / 3 && j % 9 == 3 * (b % 3) + a % 3) by (nonlinear_arith)
            requires
                0 <= b < 9,
                0 <= a < 9,
                j == (3 * (b / 3) + a / 3) * 9 + 3 * (b % 3) + a % 3,
        ;
        assert((3 * (b / 3) + a / 3) / 3 == b / 3) by (nonlinear_arith)
            requires
                0 <= b,
                0 <= a < 9,
        ;
        assert((3 * (b % 3) + a % 3) / 3 == b % 3) by (nonlinear_arith)
            requires
                0 <= b,
                0 <= a < 9,
        ;
    }
    let vals = Seq::new(9, |a: int| g[box_cell(b, a)]);
    assert forall|a: int, c: int| 0 <= a < 9 && 0 <= c < 9 && a != c
        implies #[trigger] vals[a] != #[trigger] vals[c] by {
        let ja = box_cell(b, a);
        let jc = box_cell(b, c);
        assert(ja != jc) by (nonlinear_arith)
            requires
                0 <= b < 9,
                0 <= a < 9,
                0 <= c < 9,
                a != c,
                ja == (3 * (b / 3) + a / 3) * 9 + 3 * (b % 3) + a % 3,
                jc == (3 * (b / 3) + c / 3) * 9 + 3 * (b % 3) + c % 3,
        ;
        assert(box_of(ja) == b && box_of(jc) == b);
        assert(same_unit(ja, jc));
        assert(cells_ok(g, ja, jc));
        assert(g[ja] != 0);
    }
    assert forall|a: int| 0 <= a < 9 implies 1 <= #[trigger] vals[a] <= 9 by {
        assert(g[box_cell(b, a)] != 0);
    }
    lemma_distinct_digits_cover(vals, d);
    let a = choose|a: int| 0 <= a < 9 && vals[a] as int == d;
    assert(box_of(box_cell(b, a)) == b);
    assert(g[box_cell(b, a)] as int == d);
}

/// An 81-cell board with digits 0..=9, blank encoded as 0.
pub struct Grid {
    cells: Vec<i32>,
}

impl View for Grid {
    type V = Seq<i32>;

    closed spec fn view(&self) -> Seq<i32> {
        self.cells@
    }
}

impl Grid {
    /// Build a grid from a flat array of digits.
    pub fn from_array(a: &[i32; 81]) -> (g: Grid)
        requires
            wf(a@),
        ensures
            g@ == a@,
    {
        let mut cells: Vec<i32> = Vec::new();
        let mut k: usize = 0;
        while k < 81
            invariant
                k <= 81,
                wf(a@),
                cells@.len() == k,
                forall|m: int| 0 <= m < k ==> cells@[m] == a@[m],
            decreases 81 - k,
        {
            cells.push(a[k]);
            k += 1;
        }
        let g = Grid { cells };
        proof {
            assert(g@ =~= a@);
        }
        g
    }

    /// An identical copy of this grid.
    pub fn duplicate(&self) -> (g: Grid)
        requires
            wf(self@),
        ensures
            g@ == self@,
    {
        let mut cells: Vec<i32> = Vec::new();
        let mut k: usize = 0;
        while k < 81
            invariant
                k <= 81,
                wf(self@),
                cells@.len() == k,
                forall|m: int| 0 <= m < k ==> cells@[m] == self@[m],
            decreases 81 - k,
        {
            cells.push(self.cells[k]);
            k += 1;
        }
        let g = Grid { cells };
        proof {
            assert(g@ =~= self@);
        }
        g
    }

    /// True iff the two grids hold the same digits.
    pub fn equals(&self, other: &Grid) -> (r: bool)
        requires
            wf(self@),
            wf(other@),
        ensures
            r == (self@ == other@),
    {
        let mut m: usize = 0;
        while m < 81
            invariant
                m <= 81,
                wf(self@),
                wf(other@),
                forall|t: int| 0 <= t < m ==> self@[t] == other@[t],
            decreases 81 - m,
        {
            if self.cells[m] != other.cells[m] {
                return false;
            }
            m += 1;
        }
        proof {
            assert(self@ =~= other@);
        }
        true
    }

    /// The cells as a flat vector, row-major.
    pub fn cells(&self) -> (r: &Vec<i32>)
        ensures
            r@ == self@,
    {
        &self.cells
    }

    /// Read one cell.
    pub fn get(&self, i: usize) -> (d: i32)
        requires
            wf(self@),
            i < 81,
        ensures
            d == self@[i as int],
    {
        self.cells[i]
    }

    /// Write one cell.
    pub fn set(&mut self, i: usize, d: i32)
        requires
            wf(old(self)@),
            i < 81,
            0 <= d <= 9,
        ensures
            final(self)@ == old(self)@.update(i as int, d),
            wf(final(self)@),
    {
        self.cells[i] = d;
    }

    /// True iff no cell is blank.
    pub fn is_complete(&self) -> (r: bool)
        requires
            wf(self@),
        ensures
            r == complete(self@),
    {
        let mut k: usize = 0;
        while k < 81
            invariant
                k <= 81,
                wf(self@),
                forall|m: int| 0 <= m < k ==> self@[m] != 0,
            decreases 81 - k,
        {
            if self.cells[k] == 0 {
                return false;
            }
            k += 1;
        }
        true
    }

    /// True iff the two cells share a row, column, or box.
    fn same_unit_exec(i: usize, j: usize) -> (r: bool)
        requires
            i < 81,
            j < 81,
        ensures
            r == same_unit(i as int, j as int),
    {
        i / 9 == j / 9 || i % 9 == j % 9
            || (i / 9 / 3) * 3 + (i % 9) / 3 == (j / 9 / 3) * 3 + (j % 9) / 3
    }

    /// True iff no row, column, or box holds a non-zero digit twice.
    pub fn is_valid(&self) -> (r: bool)
        requires
            wf(self@),
        ensures
            r == valid(self@),
    {
        let mut i: usize = 0;
        while i < 81
            invariant
                i <= 81,
                wf(self@),
                forall|a: int, b: int| 0 <= a < i && 0 <= b < 81 ==> #[trigger] cells_ok(self@, a, b),
            decreases 81 - i,
        {
            let di = self.cells[i];
            if di != 0 {
                let mut j: usize = 0;
                while j < 81
                    invariant
                        i < 81,
                        j <= 81,
                        wf(self@),
                        di == self@[i as int],
                        di != 0,
                        forall|b: int| 0 <= b < j ==> #[trigger] cells_ok(self@, i as int, b),
                    decreases 81 - j,
                {
                    if j != i && self.cells[j] == di && Self::same_unit_exec(i, j) {
                        assert(!cells_ok(self@, i as int, j as int));
                        return false;
                    }
                    j += 1;
                }
            } else {
                assert forall|b: int| 0 <= b < 81 implies #[trigger] cells_ok(self@, i as int, b) by {
                }
            }
            i += 1;
        }
        true
    }

    /// True iff digit `d` may go at cell `i`.
    fn can_place_exec(&self, i: usize, d: i32) -> (r: bool)
        requires
            wf(self@),
            i < 81,
            1 <= d <= 9,
        ensures
            r == can_place(self@, i as int, d as int),
    {
        let mut j: usize = 0;
        while j < 81
            invariant
                i < 81,
                j <= 81,
                1 <= d <= 9,
                wf(self@),
                forall|b: int| 0 <= b < j && b != i && #[trigger] same_unit(i as int, b)
                    ==> self@[b] as int != d as int,
            decreases 81 - j,
        {
            if j != i && self.cells[j] == d && Self::same_unit_exec(i, j) {
                assert(!can_place(self@, i as int, d as int));
                return false;
            }
            j += 1;
        }
        true
    }

    /// The candidate digits of cell `i`, ascending.
    pub fn candidates(&self, i: usize) -> (r: Vec<i32>)
        requires
            wf(self@),
            i < 81,
        ensures
            r@ == cand_seq(self@, i as int),
    {
        let mut r: Vec<i32> = Vec::new();
        let mut d: i32 = 1;
        proof {
            assert(Seq::<i32>::empty() + cand_seq_from(self@, i as int, 1)
                =~= cand_seq_from(self@, i as int, 1));
        }
        while d <= 9
            invariant
                i < 81,
                1 <= d <= 10,
                wf(self@),
                cand_seq(self@, i as int) == r@ + cand_seq_from(self@, i as int, d as int),
            decreases 10 - d,
        {
            let ghost r0 = r@;
            if self.can_place_exec(i, d) {
                r.push(d);
                proof {
                    assert(r@ =~= r0 + seq![d]);
                    assert(r0 + cand_seq_from(self@, i as int, d as int)
                        =~= r@ + cand_seq_from(self@, i as int, d as int + 1));
                }
            } else {
                proof {
                    assert(r0 + cand_seq_from(self@, i as int, d as int)
                        =~= r@ + cand_seq_from(self@, i as int, d as int + 1));
                }
            }
            d += 1;
        }
        proof {
            assert(cand_seq_from(self@, i as int, 10) =~= Seq::<i32>::empty());
            assert(r@ + cand_seq_from(self@, i as int, 10) =~= r@);
        }
        r
    }
}

} // verus!
