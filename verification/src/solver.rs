//! The backtracking solver: a deterministic mathematical model
//! (`solve_spec`), proofs that the model is sound (whatever it returns is a
//! solution extending the input) and complete (it returns `None` only when no
//! solution exists), and the executable search that computes exactly the
//! model's answer.
//!
//! The search picks the blank cell with the fewest candidate digits (ties
//! broken by lowest index) and tries its candidates in ascending order, so
//! the answer is a function of the input grid alone.

use vstd::prelude::*;
use crate::grid::{
    Grid, wf, valid, complete, solved, extends, solvable, can_place, cells_ok, same_unit,
    cand_seq, cand_seq_from, cand_count, count_blanks, blanks_upto, lemma_blanks_update,
};

verus! {

/// Among the first `n` cells, `i` is the blank with the fewest candidates,
/// ties broken by lowest index.
pub open spec fn best_upto(g: Seq<i32>, n: int, i: int) -> bool {
    0 <= i < n && g[i] == 0
    && (forall|j: int| 0 <= j < n && g[j] == 0 ==> cand_count(g, i) <= #[trigger] cand_count(g, j))
    && (forall|j: int| 0 <= j < i && g[j] == 0 ==> #[trigger] cand_count(g, j) > cand_count(g, i))
}

/// The search cell: the blank with the fewest candidates, lowest index on
/// ties.
pub open spec fn is_best_cell(g: Seq<i32>, i: int) -> bool {
    best_upto(g, 81, i)
}

/// The cell the search branches on.
pub open spec fn best_cell(g: Seq<i32>) -> int {
    choose|i: int| is_best_cell(g, i)
}

/// Candidate digits and their order: every entry of `cand_seq_from` is
/// placeable, lies in `d0..=9`, and there are at most `10 - d0` of them.
pub proof fn lemma_cand_from_props(g: Seq<i32>, i: int, d0: int)
    requires
        1 <= d0 <= 10,
    ensures
        cand_seq_from(g, i, d0).len() <= 10 - d0,
        forall|k: int| 0 <= k < cand_seq_from(g, i, d0).len()
            ==> d0 <= #[trigger] cand_seq_from(g, i, d0)[k] <= 9
                && can_place(g, i, cand_seq_from(g, i, d0)[k] as int),
    decreases 10 - d0,
{
    if d0 < 10 {
        lemma_cand_from_props(g, i, d0 + 1);
        let cs = cand_seq_from(g, i, d0);
        let rest = cand_seq_from(g, i, d0 + 1);
        if can_place(g, i, d0) {
            assert(cs == seq![d0 as i32] + rest);
            assert forall|k: int| 0 <= k < cs.len()
                implies d0 <= #[trigger] cs[k] <= 9 && can_place(g, i, cs[k] as int) by {
                if k == 0 {
                    assert(cs[0] == d0 as i32);
                } else {
                    assert(cs[k] == rest[k - 1]);
                }
            }
        } else {
            assert(cs == rest);
        }
    }
}

/// Every placeable digit appears among the candidates from `d0` on.
pub proof fn lemma_cand_from_contains(g: Seq<i32>, i: int, d: int, d0: int)
    requires
        1 <= d0 <= 10,
        d0 <= d <= 9,
        can_place(g, i, d),
    ensures
        cand_seq_from(g, i, d0).contains(d as i32),
    decreases 10 - d0,
{
    let cs = cand_seq_from(g, i, d0);
    if d == d0 {
        assert(cs[0] == d as i32);
    } else {
        lemma_cand_from_contains(g, i, d, d0 + 1);
        let rest = cand_seq_from(g, i, d0 + 1);
        let k = choose|k: int| 0 <= k < rest.len() && rest[k] == d as i32;
        if can_place(g, i, d0) {
            assert(cs == seq![d0 as i32] + rest);
            assert(cs[k + 1] == d as i32);
        } else {
            assert(cs == rest);
        }
    }
}

/// Among the first `n` cells, if one is blank, a best one exists.
proof fn lemma_best_upto_exists(g: Seq<i32>, n: int)
    requires
        0 < n <= 81,
        exists|j: int| 0 <= j < n && g[j] == 0,
    ensures
        exists|i: int| best_upto(g, n, i),
    decreases n,
{
    let jw = choose|j: int| 0 <= j < n && g[j] == 0;
    if n == 1 {
        assert(jw == 0);
        assert(best_upto(g, 1, 0));
    } else if exists|j: int| 0 <= j < n - 1 && g[j] == 0 {
        lemma_best_upto_exists(g, n - 1);
        let i0 = choose|i: int| #[trigger] best_upto(g, n - 1, i);
        assert(best_upto(g, n - 1, i0));
        if g[n - 1] == 0 && cand_count(g, n - 1) < cand_count(g, i0) {
            assert forall|j: int| 0 <= j < n && g[j] == 0
                implies cand_count(g, n - 1) <= #[trigger] cand_count(g, j) by {
                if j < n - 1 {
                    assert(cand_count(g, i0) <= cand_count(g, j));
                }
            }
            assert forall|j: int| 0 <= j < n - 1 && g[j] == 0
                implies #[trigger] cand_count(g, j) > cand_count(g, n - 1) by {
                assert(cand_count(g, i0) <= cand_count(g, j));
            }
            assert(best_upto(g, n, n - 1));
        } else {
            assert forall|j: int| 0 <= j < n && g[j] == 0
                implies cand_count(g, i0) <= #[trigger] cand_count(g, j) by {
                if j < n - 1 {
                    assert(cand_count(g, i0) <= cand_count(g, j));
                }
            }
            assert(best_upto(g, n, i0));
        }
    } else {
        assert(jw == n - 1);
        assert(best_upto(g, n, n - 1));
    }
}

/// An incomplete grid has a best cell, and `best_cell` is one.
pub proof fn lemma_best_cell_exists(g: Seq<i32>)
    requires
        g.len() == 81,
        !complete(g),
    ensures
        is_best_cell(g, best_cell(g)),
{
    assert(exists|j: int| 0 <= j < 81 && g[j] == 0);
    lemma_best_upto_exists(g, 81);
    let i0 = choose|i: int| #[trigger] best_upto(g, 81, i);
    assert(is_best_cell(g, i0));
    assert(is_best_cell(g, best_cell(g)));
}

/// The best cell is unique: lowest index among the blanks of minimal
/// candidate count.
pub proof fn lemma_best_cell_unique(g: Seq<i32>, i1: int, i2: int)
    requires
        is_best_cell(g, i1),
        is_best_cell(g, i2),
    ensures
        i1 == i2,
{
    if i1 < i2 {
        assert(cand_count(g, i1) > cand_count(g, i2));
        assert(cand_count(g, i1) <= cand_count(g, i2));
    }
    if i2 < i1 {
        assert(cand_count(g, i2) > cand_count(g, i1));
        assert(cand_count(g, i2) <= cand_count(g, i1));
    }
}

/// Placing a placeable digit on a blank cell keeps the grid well-formed and
/// valid.
pub proof fn lemma_place_preserves(g: Seq<i32>, i: int, d: i32)
    requires
        wf(g),
        valid(g),
        0 <= i < 81,
        g[i] == 0,
        can_place(g, i, d as int),
    ensures
        wf(g.update(i, d)),
        valid(g.update(i, d)),
{
    let g2 = g.update(i, d);
    assert forall|a: int| 0 <= a < 81 implies 0 <= #[trigger] g2[a] <= 9 by {
        if a != i {
            assert(g2[a] == g[a]);
        }
    }
    assert forall|a: int, b: int| 0 <= a < 81 && 0 <= b < 81 implies #[trigger] cells_ok(g2, a, b) by {
        assert(cells_ok(g, a, b));
        if a == i && b != i {
            if same_unit(i, b) && a != b {
                assert(g[b] as int != d as int);
            }
        } else if a != i && b == i {
            if same_unit(a, i) && g2[a] != 0 {
                assert(same_unit(i, a));
                assert(g[a] as int != d as int);
            }
        }
    }
}

/// Blanking any cell keeps the grid well-formed and valid.
pub proof fn lemma_clear_preserves(g: Seq<i32>, i: int)
    requires
        wf(g),
        valid(g),
        0 <= i < 81,
    ensures
        wf(g.update(i, 0)),
        valid(g.update(i, 0)),
{
    let g2 = g.update(i, 0);
    assert forall|a: int| 0 <= a < 81 implies 0 <= #[trigger] g2[a] <= 9 by {
        if a != i {
            assert(g2[a] == g[a]);
        }
    }
    assert forall|a: int, b: int| 0 <= a < 81 && 0 <= b < 81 implies #[trigger] cells_ok(g2, a, b) by {
        assert(cells_ok(g, a, b));
    }
}

/// The answer of the whole search, as a mathematical function of the grid:
/// a complete grid is its own answer; otherwise the candidates of the best
/// cell are tried in ascending order.
pub open spec fn solve_spec(g: Seq<i32>) -> Option<Seq<i32>>
    decreases count_blanks(g), 1int, 0int,
{
    if complete(g) {
        Some(g)
    } else {
        try_cands(g, best_cell(g), cand_seq(g, best_cell(g)))
    }
}

/// Try the digits of `cs` at cell `i` in order: the first that leads the
/// search to an answer wins; if none does, the search fails.
pub open spec fn try_cands(g: Seq<i32>, i: int, cs: Seq<i32>) -> Option<Seq<i32>>
    decreases count_blanks(g), 0int, cs.len(),
{
    if !(g.len() == 81 && 0 <= i < 81 && g[i] == 0 && cs.len() > 0 && 1 <= cs[0] <= 9) {
        None
    } else {
        proof {
            lemma_blanks_update(g, i, cs[0], 81);
        }
        match solve_spec(g.update(i, cs[0])) {
            Some(s) => Some(s),
            None => try_cands(g, i, cs.drop_first()),
        }
    }
}

/// Soundness: whatever the search returns is a solved grid that keeps every
/// clue of the input.
pub proof fn lemma_solve_sound(g: Seq<i32>)
    requires
        wf(g),
        valid(g),
    ensures
        solve_spec(g) matches Some(s) ==> solved(s) && extends(s, g),
    decreases count_blanks(g), 1int, 0int,
{
    if complete(g) {
        assert(extends(g, g));
    } else {
        lemma_best_cell_exists(g);
        let i = best_cell(g);
        lemma_cand_from_props(g, i, 1);
        lemma_try_sound(g, i, cand_seq(g, i));
    }
}

proof fn lemma_try_sound(g: Seq<i32>, i: int, cs: Seq<i32>)
    requires
        wf(g),
        valid(g),
        0 <= i < 81,
        g[i] == 0,
        forall|k: int| 0 <= k < cs.len()
            ==> 1 <= #[trigger] cs[k] <= 9 && can_place(g, i, cs[k] as int),
    ensures
        try_cands(g, i, cs) matches Some(s) ==> solved(s) && extends(s, g),
    decreases count_blanks(g), 0int, cs.len(),
{
    if cs.len() > 0 {
        let d = cs[0];
        assert(1 <= d <= 9 && can_place(g, i, d as int));
        let g2 = g.update(i, d);
        lemma_place_preserves(g, i, d);
        lemma_blanks_update(g, i, d, 81);
        lemma_solve_sound(g2);
        if solve_spec(g2) is Some {
            let s = solve_spec(g2)->Some_0;
            assert forall|m: int| 0 <= m < 81 && g[m] != 0 implies s[m] == g[m] by {
                assert(g2[m] == g[m]);
            }
        } else {
            assert forall|k: int| 0 <= k < cs.drop_first().len()
                implies 1 <= #[trigger] cs.drop_first()[k] <= 9
                    && can_place(g, i, cs.drop_first()[k] as int) by {
                assert(cs.drop_first()[k] == cs[k + 1]);
            }
            lemma_try_sound(g, i, cs.drop_first());
        }
    }
}

/// Completeness: a grid with a solution is never answered `None`.
pub proof fn lemma_solve_complete(g: Seq<i32>, sol: Seq<i32>)
    requires
        wf(g),
        valid(g),
        solved(sol),
        extends(sol, g),
    ensures
        solve_spec(g) is Some,
    decreases count_blanks(g), 1int, 0int,
{
    if !complete(g) {
        lemma_best_cell_exists(g);
        let i = best_cell(g);
        let d = sol[i];
        assert(sol[i] != 0);
        assert(1 <= d <= 9);
        assert(can_place(g, i, d as int)) by {
            assert forall|j: int| 0 <= j < 81 && j != i && #[trigger] same_unit(i, j)
                implies g[j] as int != d as int by {
                if g[j] != 0 {
                    assert(sol[j] == g[j]);
                    assert(cells_ok(sol, i, j));
                }
            }
        }
        lemma_cand_from_contains(g, i, d as int, 1);
        let cs = cand_seq(g, i);
        let k = choose|k: int| 0 <= k < cs.len() && cs[k] == d;
        let g2 = g.update(i, d);
        lemma_place_preserves(g, i, d);
        lemma_blanks_update(g, i, d, 81);
        assert forall|m: int| 0 <= m < 81 && g2[m] != 0 implies sol[m] == g2[m] by {
            if m != i {
                assert(g[m] == g2[m]);
            }
        }
        lemma_solve_complete(g2, sol);
        lemma_cand_from_props(g, i, 1);
        lemma_try_complete(g, i, cs, k);
    }
}

proof fn lemma_try_complete(g: Seq<i32>, i: int, cs: Seq<i32>, k: int)
    requires
        g.len() == 81,
        0 <= i < 81,
        g[i] == 0,
        forall|m: int| 0 <= m < cs.len() ==> 1 <= #[trigger] cs[m] <= 9,
        0 <= k < cs.len(),
        solve_spec(g.update(i, cs[k])) is Some,
    ensures
        try_cands(g, i, cs) is Some,
    decreases count_blanks(g), 0int, cs.len(),
{
    assert(1 <= cs[0] <= 9);
    if k > 0 {
        if solve_spec(g.update(i, cs[0])) is None {
            assert forall|m: int| 0 <= m < cs.drop_first().len()
                implies 1 <= #[trigger] cs.drop_first()[m] <= 9 by {
                assert(cs.drop_first()[m] == cs[m + 1]);
            }
            assert(cs.drop_first()[k - 1] == cs[k]);
            lemma_try_complete(g, i, cs.drop_first(), k - 1);
        }
    }
}

/// A grid with no completion at all is always answered `None`.
pub proof fn lemma_unsolvable_none(g: Seq<i32>)
    requires
        wf(g),
        valid(g),
        !solvable(g),
    ensures
        solve_spec(g) is None,
{
    lemma_solve_sound(g);
    if solve_spec(g) is Some {
        let s = solve_spec(g)->Some_0;
        assert(solved(s) && extends(s, g));
        assert(solvable(g));
    }
}

/// A `None` answer means no solution exists at all.
pub proof fn lemma_none_unsolvable(g: Seq<i32>)
    requires
        wf(g),
        valid(g),
        solve_spec(g) is None,
    ensures
        !solvable(g),
{
    if solvable(g) {
        let sol = choose|s: Seq<i32>| solved(s) && extends(s, g);
        lemma_solve_complete(g, sol);
        assert(false);
    }
}

/// A grid with exactly one completion is answered with that completion.
pub proof fn lemma_solve_unique_solution(g: Seq<i32>, s: Seq<i32>)
    requires
        wf(g),
        valid(g),
        solved(s),
        extends(s, g),
        forall|t: Seq<i32>| solved(t) && #[trigger] extends(t, g) ==> t == s,
    ensures
        solve_spec(g) == Some(s),
{
    lemma_solve_complete(g, s);
    lemma_solve_sound(g);
    let r = solve_spec(g)->Some_0;
    assert(solved(r) && extends(r, g));
    assert(r == s);
}

/// The executable search. On success the grid holds the model's answer; on
/// failure it is exactly as it was.
pub(crate) fn solve_rec(g: &mut Grid) -> (r: bool)
    requires
        wf(old(g)@),
        valid(old(g)@),
    ensures
        r ==> solve_spec(old(g)@) == Some(final(g)@),
        !r ==> final(g)@ == old(g)@ && solve_spec(old(g)@) is None,
    decreases count_blanks(g@),
{
    let ghost g0 = g@;
    let mut best_i: usize = 81;
    let mut best_len: usize = 10;
    let mut k: usize = 0;
    while k < 81
        invariant
            k <= 81,
            wf(g@),
            valid(g@),
            g@ == g0,
            best_i == 81 ==> best_len == 10 && (forall|m: int| 0 <= m < k ==> g0[m] != 0),
            best_i != 81 ==> best_i < 81 && g0[best_i as int] == 0
                && best_len as int == cand_count(g0, best_i as int)
                && (forall|m: int| 0 <= m < k && g0[m] == 0
                    ==> best_len as int <= #[trigger] cand_count(g0, m))
                && (forall|m: int| 0 <= m < best_i && g0[m] == 0
                    ==> #[trigger] cand_count(g0, m) > best_len as int),
        decreases 81 - k,
    {
        if g.get(k) == 0 {
            let cands = g.candidates(k);
            proof {
                lemma_cand_from_props(g0, k as int, 1);
            }
            if cands.len() < best_len {
                best_i = k;
                best_len = cands.len();
            }
        }
        k += 1;
    }
    if best_i == 81 {
        assert(complete(g0));
        return true;
    }
    assert(!complete(g0));
    assert(is_best_cell(g0, best_i as int));
    proof {
        lemma_best_cell_exists(g0);
        lemma_best_cell_unique(g0, best_i as int, best_cell(g0));
    }
    let i = best_i;
    let cands = g.candidates(i);
    let ghost cs = cand_seq(g0, i as int);
    proof {
        lemma_cand_from_props(g0, i as int, 1);
        assert(cs.skip(0) =~= cs);
    }
    let mut t: usize = 0;
    while t < cands.len()
        invariant
            t <= cands.len(),
            i < 81,
            wf(g@),
            valid(g@),
            g@ == g0,
            g0 == old(g)@,
            g0[i as int] == 0,
            g0.len() == 81,
            cands@ == cs,
            cs == cand_seq(g0, i as int),
            best_cell(g0) == i as int,
            !complete(g0),
            forall|m: int| 0 <= m < cs.len()
                ==> 1 <= #[trigger] cs[m] <= 9 && can_place(g0, i as int, cs[m] as int),
            try_cands(g0, i as int, cs) == try_cands(g0, i as int, cs.skip(t as int)),
        decreases cands@.len() - t,
    {
        let d = cands[t];
        g.set(i, d);
        proof {
            lemma_place_preserves(g0, i as int, d);
            lemma_blanks_update(g0, i as int, d, 81);
        }
        let ok = solve_rec(g);
        if ok {
            proof {
                assert(cs.skip(t as int)[0] == cs[t as int]);
                assert(try_cands(g0, i as int, cs.skip(t as int)) == Some(g@));
                assert(solve_spec(g0) == try_cands(g0, i as int, cs));
            }
            return true;
        }
        g.set(i, 0);
        proof {
            assert(g@ =~= g0);
            assert(cs.skip(t as int)[0] == cs[t as int]);
            assert(cs.skip(t as int).drop_first() =~= cs.skip(t as int + 1));
            assert(try_cands(g0, i as int, cs.skip(t as int))
                == try_cands(g0, i as int, cs.skip(t as int + 1)));
        }
        t += 1;
    }
    proof {
        assert(cs.skip(cs.len() as int) =~= Seq::<i32>::empty());
        assert(try_cands(g0, i as int, cs.skip(cs.len() as int)) is None);
        assert(solve_spec(g0) is None);
    }
    false
}

} // verus!
