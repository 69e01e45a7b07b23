//! The puzzle generator: starting from a fully solved grid, blank cells in a
//! seed-determined pseudo-random order, keeping only removals after which the
//! solver still reaches exactly the starting grid, under a floor on the
//! remaining clues and a budget of failed attempts.
//!
//! Everything is a function of the arguments: the cell order comes from a
//! small multiplicative congruential generator seeded by `seed`, and the
//! acceptance test is the deterministic solver model, so `generate_spec`
//! pins the whole outcome.

use vstd::prelude::*;
use crate::grid::{
    Grid, wf, valid, complete, count_nonzero, lemma_nonzero_clear, lemma_nonzero_full,
};
use crate::solver::{solve_spec, solve_rec, lemma_clear_preserves, lemma_solve_sound};
use crate::Sudoku;

verus! {

/// One step of the pseudo-random stream.
pub open spec fn lcg(x: u32) -> u32 {
    (((x as int) * 48271) % 0x7fffffff) as u32
}

/// The stream's start, mixed from the caller's seed.
pub open spec fn seed_mix(seed: i32) -> u32 {
    ((((seed as u32) as int) * 2654435761 + 12345) % 0x7fffffff) as u32
}

/// The identity order of the 81 cells.
pub open spec fn ident81() -> Seq<usize> {
    Seq::new(81, |m: int| m as usize)
}

/// One shuffle step: swap position `k` with a stream-chosen position `<= k`.
pub open spec fn fy_step(s: Seq<usize>, x: u32, k: int) -> Seq<usize> {
    let j = (lcg(x) as int) % (k + 1);
    s.update(k, s[j]).update(j, s[k])
}

/// The shuffle, walked down from position `k`.
pub open spec fn fy_perm(s: Seq<usize>, x: u32, k: int) -> Seq<usize>
    decreases k,
{
    if k <= 0 {
        s
    } else {
        fy_perm(fy_step(s, x, k), lcg(x), k - 1)
    }
}

/// The order in which cells are considered for removal, as a function of the
/// seed.
pub open spec fn perm_of_seed(seed: i32) -> Seq<usize> {
    fy_perm(ident81(), seed_mix(seed), 80)
}

fn lcg_step(x: u32) -> (r: u32)
    ensures
        r == lcg(x),
{
    let w: u64 = (x as u64) * 48271;
    let m: u64 = w % 0x7fffffff;
    m as u32
}

fn seed_mix_step(seed: i32) -> (r: u32)
    ensures
        r == seed_mix(seed),
{
    let s: u32 = seed as u32;
    let w: u64 = (s as u64) * 2654435761 + 12345;
    let m: u64 = w % 0x7fffffff;
    m as u32
}

/// The cell order of `perm_of_seed`, computed.
fn make_perm(seed: i32) -> (r: Vec<usize>)
    ensures
        r@ == perm_of_seed(seed),
        r@.len() == 81,
        forall|m: int| 0 <= m < 81 ==> #[trigger] r@[m] < 81,
{
    let mut v: Vec<usize> = Vec::new();
    let mut m: usize = 0;
    while m < 81
        invariant
            m <= 81,
            v@.len() == m,
            forall|t: int| 0 <= t < m ==> #[trigger] v@[t] == t,
        decreases 81 - m,
    {
        v.push(m);
        m += 1;
    }
    proof {
        assert(v@ =~= ident81());
    }
    let mut x: u32 = seed_mix_step(seed);
    let mut k: usize = 80;
    while k >= 1
        invariant
            k <= 80,
            v@.len() == 81,
            forall|t: int| 0 <= t < 81 ==> #[trigger] v@[t] < 81,
            fy_perm(v@, x, k as int) == perm_of_seed(seed),
        decreases k,
    {
        let x2 = lcg_step(x);
        let j: usize = (x2 as usize) % (k + 1);
        let ghost vpre = v@;
        let vk = v[k];
        let vj = v[j];
        v[k] = vj;
        v[j] = vk;
        proof {
            assert(v@ =~= fy_step(vpre, x, k as int));
        }
        x = x2;
        k -= 1;
    }
    v
}

/// The generation walk: consider cells in the order of `perm` from position
/// `k` on. A filled cell is blanked if the clue count stays at or above the
/// floor and the solver still reaches exactly `state`; otherwise it is kept
/// and one try of the budget is consumed. The walk stops with the grid in
/// hand once the floor is reached or the order is exhausted, and fails once
/// `max_tries` tries are consumed first.
#[verifier::opaque]
pub open spec fn gen_loop(
    init: Seq<i32>,
    state: Seq<i32>,
    perm: Seq<usize>,
    k: int,
    tries: int,
    min_elements: int,
    max_tries: int,
) -> Option<Seq<i32>>
    decreases perm.len() - k,
{
    if count_nonzero(init) as int <= min_elements {
        Some(init)
    } else if tries >= max_tries {
        None
    } else if k < 0 || k >= perm.len() {
        Some(init)
    } else {
        let i = perm[k] as int;
        if i >= 81 || init.len() != 81 {
            None
        } else if init[i] == 0 {
            gen_loop(init, state, perm, k + 1, tries, min_elements, max_tries)
        } else {
            let cand = init.update(i, 0);
            if count_nonzero(cand) as int >= min_elements && solve_spec(cand) == Some(state) {
                gen_loop(cand, state, perm, k + 1, tries, min_elements, max_tries)
            } else {
                gen_loop(init, state, perm, k + 1, tries + 1, min_elements, max_tries)
            }
        }
    }
}

/// Reaching the clue floor stops the walk with the grid in hand.
proof fn lemma_gen_stop_min(
    init: Seq<i32>, state: Seq<i32>, perm: Seq<usize>,
    k: int, tries: int, min_elements: int, max_tries: int,
)
    requires
        count_nonzero(init) as int <= min_elements,
    ensures
        gen_loop(init, state, perm, k, tries, min_elements, max_tries) == Some(init),
{
    reveal(gen_loop);
}

/// An exhausted try budget stops the walk with failure.
proof fn lemma_gen_stop_tries(
    init: Seq<i32>, state: Seq<i32>, perm: Seq<usize>,
    k: int, tries: int, min_elements: int, max_tries: int,
)
    requires
        count_nonzero(init) as int > min_elements,
        tries >= max_tries,
    ensures
        gen_loop(init, state, perm, k, tries, min_elements, max_tries) is None,
{
    reveal(gen_loop);
}

/// An exhausted cell order stops the walk with the grid in hand.
proof fn lemma_gen_stop_exhaust(
    init: Seq<i32>, state: Seq<i32>, perm: Seq<usize>,
    k: int, tries: int, min_elements: int, max_tries: int,
)
    requires
        count_nonzero(init) as int > min_elements,
        tries < max_tries,
        k >= perm.len(),
    ensures
        gen_loop(init, state, perm, k, tries, min_elements, max_tries) == Some(init),
{
    reveal(gen_loop);
}

/// A cell already blank is passed over.
proof fn lemma_gen_step_blank(
    init: Seq<i32>, state: Seq<i32>, perm: Seq<usize>,
    k: int, tries: int, min_elements: int, max_tries: int,
)
    requires
        count_nonzero(init) as int > min_elements,
        tries < max_tries,
        0 <= k < perm.len(),
        perm[k] < 81,
        init.len() == 81,
        init[perm[k] as int] == 0,
    ensures
        gen_loop(init, state, perm, k, tries, min_elements, max_tries)
            == gen_loop(init, state, perm, k + 1, tries, min_elements, max_tries),
{
    reveal(gen_loop);
}

/// An acceptable removal is kept and the walk goes on from the reduced grid.
proof fn lemma_gen_step_accept(
    init: Seq<i32>, state: Seq<i32>, perm: Seq<usize>,
    k: int, tries: int, min_elements: int, max_tries: int,
)
    requires
        count_nonzero(init) as int > min_elements,
        tries < max_tries,
        0 <= k < perm.len(),
        perm[k] < 81,
        init.len() == 81,
        init[perm[k] as int] != 0,
        count_nonzero(init.update(perm[k] as int, 0)) as int >= min_elements,
        solve_spec(init.update(perm[k] as int, 0)) == Some(state),
    ensures
        gen_loop(init, state, perm, k, tries, min_elements, max_tries)
            == gen_loop(init.update(perm[k] as int, 0), state, perm, k + 1, tries,
                min_elements, max_tries),
{
    reveal(gen_loop);
}

/// An unacceptable removal is undone and consumes one try.
proof fn lemma_gen_step_reject(
    init: Seq<i32>, state: Seq<i32>, perm: Seq<usize>,
    k: int, tries: int, min_elements: int, max_tries: int,
)
    requires
        count_nonzero(init) as int > min_elements,
        tries < max_tries,
        0 <= k < perm.len(),
        perm[k] < 81,
        init.len() == 81,
        init[perm[k] as int] != 0,
        !(count_nonzero(init.update(perm[k] as int, 0)) as int >= min_elements
            && solve_spec(init.update(perm[k] as int, 0)) == Some(state)),
    ensures
        gen_loop(init, state, perm, k, tries, min_elements, max_tries)
            == gen_loop(init, state, perm, k + 1, tries + 1, min_elements, max_tries),
{
    reveal(gen_loop);
}

/// No cell appears twice in the order.
pub open spec fn distinct_order(s: Seq<usize>) -> bool {
    forall|a: int, b: int| 0 <= a < s.len() && 0 <= b < s.len() && a != b
        ==> #[trigger] s[a] != #[trigger] s[b]
}

/// The shuffle keeps length, the range of the entries, and distinctness.
proof fn lemma_fy_perm_props(s: Seq<usize>, x: u32, k: int)
    requires
        s.len() == 81,
        0 <= k <= 80,
        distinct_order(s),
        forall|t: int| 0 <= t < 81 ==> #[trigger] s[t] < 81,
    ensures
        fy_perm(s, x, k).len() == 81,
        distinct_order(fy_perm(s, x, k)),
        forall|t: int| 0 <= t < 81 ==> #[trigger] fy_perm(s, x, k)[t] < 81,
    decreases k,
{
    if k > 0 {
        let j = (lcg(x) as int) % (k + 1);
        let s2 = fy_step(s, x, k);
        assert(0 <= j <= k);
        assert(s2.len() == 81);
        assert forall|a: int, b: int| 0 <= a < 81 && 0 <= b < 81 && a != b
            implies #[trigger] s2[a] != #[trigger] s2[b] by {
            let a2: int = if a == k { j } else if a == j { k } else { a };
            let b2: int = if b == k { j } else if b == j { k } else { b };
            assert(s2[a] == s[a2]);
            assert(s2[b] == s[b2]);
            assert(a2 != b2);
            assert(s[a2] != s[b2]);
        }
        assert forall|t: int| 0 <= t < 81 implies #[trigger] s2[t] < 81 by {
            if t != k && t != j {
                assert(s2[t] == s[t]);
            }
        }
        lemma_fy_perm_props(s2, lcg(x), k - 1);
    }
}

/// The seed's cell order lists 81 cells, all in range, none twice.
pub proof fn lemma_perm_of_seed_props(seed: i32)
    ensures
        perm_of_seed(seed).len() == 81,
        distinct_order(perm_of_seed(seed)),
        forall|t: int| 0 <= t < 81 ==> #[trigger] perm_of_seed(seed)[t] < 81,
{
    let s = ident81();
    assert(s.len() == 81);
    assert forall|t: int| 0 <= t < 81 implies #[trigger] s[t] < 81 by {
        assert(s[t] == t as usize);
    }
    assert forall|a: int, b: int| 0 <= a < 81 && 0 <= b < 81 && a != b
        implies #[trigger] s[a] != #[trigger] s[b] by {
        assert(s[a] == a as usize);
        assert(s[b] == b as usize);
    }
    lemma_fy_perm_props(s, seed_mix(seed), 80);
}

/// How many cells of the order from position `k` on are still filled in
/// `init`: an upper bound on the removals and rejections left.
pub open spec fn removable_from(init: Seq<i32>, perm: Seq<usize>, k: int) -> nat
    decreases perm.len() - k,
{
    if k < 0 || k >= perm.len() {
        0
    } else {
        (if init[perm[k] as int] != 0 { 1nat } else { 0nat }) + removable_from(init, perm, k + 1)
    }
}

/// Blanking the cell at position `k` of the order leaves the count over the
/// later positions unchanged, as no later position names the same cell.
proof fn lemma_removable_update(init: Seq<i32>, perm: Seq<usize>, k: int, m: int)
    requires
        init.len() == 81,
        forall|t: int| 0 <= t < perm.len() ==> #[trigger] perm[t] < 81,
        distinct_order(perm),
        0 <= k < perm.len(),
        k < m,
    ensures
        removable_from(init.update(perm[k] as int, 0), perm, m) == removable_from(init, perm, m),
    decreases perm.len() - m,
{
    if m < perm.len() {
        assert(perm[m] != perm[k]);
        lemma_removable_update(init, perm, k, m + 1);
    }
}

/// On a complete grid every remaining position of the order counts.
proof fn lemma_removable_full(init: Seq<i32>, perm: Seq<usize>, k: int)
    requires
        init.len() == 81,
        complete(init),
        forall|t: int| 0 <= t < perm.len() ==> #[trigger] perm[t] < 81,
        0 <= k <= perm.len(),
    ensures
        removable_from(init, perm, k) == perm.len() - k,
    decreases perm.len() - k,
{
    if k < perm.len() {
        lemma_removable_full(init, perm, k + 1);
    }
}

/// Clue bounds along the walk: a successful outcome keeps at least
/// `min_elements` clues, and no more than either the floor itself or the
/// remaining budget allows.
proof fn lemma_gen_loop_bounds(
    init: Seq<i32>, state: Seq<i32>, perm: Seq<usize>,
    k: int, tries: int, min_elements: int, max_tries: int,
)
    requires
        init.len() == 81,
        perm.len() == 81,
        distinct_order(perm),
        forall|t: int| 0 <= t < 81 ==> #[trigger] perm[t] < 81,
        0 <= k,
        0 <= tries,
        count_nonzero(init) as int <= tries + removable_from(init, perm, k),
        count_nonzero(init) as int >= min_elements,
    ensures
        gen_loop(init, state, perm, k, tries, min_elements, max_tries) matches Some(out)
            ==> count_nonzero(out) as int >= min_elements
                && (count_nonzero(out) as int <= min_elements
                    || count_nonzero(out) as int <= max_tries - 1),
    decreases perm.len() - k,
{
    reveal(gen_loop);
    if count_nonzero(init) as int <= min_elements {
    } else if tries >= max_tries {
    } else if k >= perm.len() {
        assert(removable_from(init, perm, k) == 0);
    } else {
        let i = perm[k] as int;
        if init[i] == 0 {
            lemma_gen_loop_bounds(init, state, perm, k + 1, tries, min_elements, max_tries);
        } else {
            let cand = init.update(i, 0);
            lemma_nonzero_clear(init, i, 81);
            lemma_removable_update(init, perm, k, k + 1);
            if count_nonzero(cand) as int >= min_elements && solve_spec(cand) == Some(state) {
                lemma_gen_loop_bounds(cand, state, perm, k + 1, tries, min_elements, max_tries);
            } else {
                lemma_gen_loop_bounds(init, state, perm, k + 1, tries + 1, min_elements,
                    max_tries);
            }
        }
    }
}

/// Bounds on the clues of a generated puzzle: at least `min_elements` stay,
/// and at most 64 = 81 - 17, the largest clue count any proper puzzle can
/// show, provided the floor itself is at most 64 and the budget at most 65.
pub proof fn lemma_generate_clue_bounds(
    complete_grid: Seq<i32>, seed: i32, min_elements: int, max_tries: int,
)
    requires
        complete_grid.len() == 81,
        complete(complete_grid),
        min_elements <= 64,
        max_tries <= 65,
    ensures
        generate_spec(complete_grid, seed, min_elements, max_tries) matches Some(init)
            ==> min_elements <= count_nonzero(init) as int <= 64,
{
    let perm = perm_of_seed(seed);
    lemma_perm_of_seed_props(seed);
    lemma_nonzero_full(complete_grid, 81);
    lemma_removable_full(complete_grid, perm, 0);
    lemma_gen_loop_bounds(complete_grid, complete_grid, perm, 0, 0, min_elements, max_tries);
}

/// The whole generation outcome as a function of the arguments.
pub open spec fn generate_spec(
    complete_grid: Seq<i32>,
    seed: i32,
    min_elements: int,
    max_tries: int,
) -> Option<Seq<i32>> {
    gen_loop(complete_grid, complete_grid, perm_of_seed(seed), 0, 0, min_elements, max_tries)
}

impl Sudoku {
    /// Generate a new Sudoku puzzle from a solved grid.
    ///
    /// Returns `Some(Sudoku)` on success and `None` on failure. The result
    /// is a function of the arguments alone; on success the initial grid
    /// keeps only clues of `complete_grid`, holds at least `min_elements` of
    /// them, and re-solving it reaches `complete_grid` exactly.
    #[verifier::rlimit(100)]
    pub fn generate(
        complete_grid: [i32; 81],
        seed: i32,
        min_elements: i32,
        max_tries: i32,
    ) -> (res: Option<Sudoku>)
        requires
            wf(complete_grid@),
            complete(complete_grid@),
            valid(complete_grid@),
        ensures
            match res {
                Some(s) => {
                    &&& generate_spec(
                        complete_grid@,
                        seed,
                        min_elements as int,
                        max_tries as int,
                    ) == Some(s.init@)
                    &&& s.state@ == complete_grid@
                    &&& wf(s.init@)
                    &&& valid(s.init@)
                    &&& (forall|m: int| 0 <= m < 81 && s.init@[m] != 0
                        ==> s.init@[m] == complete_grid@[m])
                    &&& solve_spec(s.init@) == Some(complete_grid@)
                    &&& (min_elements as int <= 81
                        ==> count_nonzero(s.init@) as int >= min_elements as int)
                },
                None => generate_spec(
                    complete_grid@,
                    seed,
                    min_elements as int,
                    max_tries as int,
                ) is None,
            },
    {
        let ghost c = complete_grid@;
        let perm = make_perm(seed);
        let mut init = Grid::from_array(&complete_grid);
        let state = Grid::from_array(&complete_grid);
        let mut nonzero: usize = 81;
        proof {
            lemma_nonzero_full(c, 81);
        }
        let mut tries: i32 = 0;
        let mut k: usize = 0;
        loop
            invariant
                perm@ == perm_of_seed(seed),
                perm@.len() == 81,
                forall|m: int| 0 <= m < 81 ==> #[trigger] perm@[m] < 81,
                wf(c),
                valid(c),
                complete(c),
                c == complete_grid@,
                count_nonzero(c) == 81,
                state@ == c,
                wf(init@),
                valid(init@),
                k <= 81,
                nonzero as nat == count_nonzero(init@),
                solve_spec(init@) == Some(c),
                forall|m: int| 0 <= m < 81 && #[trigger] init@[m] != 0 ==> init@[m] == c[m],
                count_nonzero(init@) as int >= min_elements as int || init@ == c,
                0 <= tries,
                tries == 0 || tries <= max_tries,
                gen_loop(init@, c, perm@, k as int, tries as int, min_elements as int,
                    max_tries as int)
                    == generate_spec(c, seed, min_elements as int, max_tries as int),
            decreases 81 - k,
        {
            if min_elements >= 0 && nonzero <= min_elements as usize {
                proof {
                    lemma_gen_stop_min(init@, c, perm@, k as int, tries as int,
                        min_elements as int, max_tries as int);
                }
                return Some(Sudoku { init, state });
            }
            assert(count_nonzero(init@) as int > min_elements as int);
            if tries >= max_tries {
                proof {
                    lemma_gen_stop_tries(init@, c, perm@, k as int, tries as int,
                        min_elements as int, max_tries as int);
                }
                return None;
            }
            if k >= 81 {
                proof {
                    lemma_gen_stop_exhaust(init@, c, perm@, k as int, tries as int,
                        min_elements as int, max_tries as int);
                }
                return Some(Sudoku { init, state });
            }
            let i = perm[k];
            let di = init.get(i);
            if di == 0 {
                proof {
                    lemma_gen_step_blank(init@, c, perm@, k as int, tries as int,
                        min_elements as int, max_tries as int);
                }
            } else {
                let ghost pre = init@;
                init.set(i, 0);
                proof {
                    lemma_nonzero_clear(pre, i as int, 81);
                    lemma_clear_preserves(pre, i as int);
                }
                nonzero -= 1;
                let floor_ok = min_elements <= 0 || nonzero >= min_elements as usize;
                let mut accept = false;
                if floor_ok {
                    let mut work = init.duplicate();
                    let ok = solve_rec(&mut work);
                    if ok {
                        proof {
                            lemma_solve_sound(pre.update(i as int, 0));
                        }
                        accept = work.equals(&state);
                    }
                }
                if accept {
                    proof {
                        assert(count_nonzero(init@) as int >= min_elements as int);
                        assert(solve_spec(init@) == Some(c));
                        lemma_gen_step_accept(pre, c, perm@, k as int, tries as int,
                            min_elements as int, max_tries as int);
                        assert forall|m: int| 0 <= m < 81 && #[trigger] init@[m] != 0
                            implies init@[m] == c[m] by {
                            assert(init@[m] == pre[m]);
                        }
                    }
                } else {
                    proof {
                        assert(!(count_nonzero(init@) as int >= min_elements as int
                            && solve_spec(init@) == Some(c)));
                        lemma_gen_step_reject(pre, c, perm@, k as int, tries as int,
                            min_elements as int, max_tries as int);
                    }
                    init.set(i, di);
                    proof {
                        assert(init@ =~= pre);
                    }
                    nonzero += 1;
                    tries += 1;
                }
            }
            k += 1;
        }
    }
}

} // verus!
