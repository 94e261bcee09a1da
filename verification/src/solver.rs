//! Constraint propagation and the backtracking solver.

use vstd::prelude::*;
use crate::bits::{contains, count, FULL, has_digit, lemma_bits_without, popcount, remove, without};
use crate::units::{can_see, sees, SIZE};
use crate::scan::{first_index, lemma_first_index_is};
use crate::grid::{Board, Grid};
use crate::solutions::{
    lemma_dead_fails, keeps_unique, lemma_refreshed, lemma_refreshed_exact, lemma_removal_decides,
    lemma_solver_decides, lemma_solves_consistent, only_solution, roomy, uniquely_solvable,
};

verus! {

/// Propagating a digit placed at `cell` reaches peer `j`: it is empty.
pub open spec fn reaches(b: Board, cell: int, j: int) -> bool {
    b.cells[j] == 0 && sees(cell, j)
}

/// Peer `j` is reached and loses its last candidate when `d` is cleared.
pub open spec fn exhausts(b: Board, cell: int, d: u8, j: int) -> bool {
    reaches(b, cell, j) && without(b.cands[j], (d - 1) as u16) == 0
}

/// `exhausts` as a function of the peer.
pub open spec fn exhausts_fn(b: Board, cell: int, d: u8) -> spec_fn(int) -> bool {
    |j: int| exhausts(b, cell, d, j)
}

/// The first peer, in ascending cell order, that the move leaves without a
/// candidate; 81 when there is none.
pub open spec fn stop_index(b: Board, cell: int, d: u8) -> int {
    first_index(81, exhausts_fn(b, cell, d))
}

/// The board after digit `d` at `cell` was propagated: `d` is cleared from
/// the empty peers of `cell` in ascending order, up to and including the
/// first peer that is left without a candidate.
pub open spec fn after_move(b: Board, cell: int, d: u8) -> Board {
    Board {
        cells: b.cells,
        cands: Seq::new(
            81,
            |j: int|
                if reaches(b, cell, j) && j <= stop_index(b, cell, d) {
                    without(b.cands[j], (d - 1) as u16)
                } else {
                    b.cands[j]
                },
        ),
    }
}

/// The move left every reached peer with a candidate.
pub open spec fn move_ok(b: Board, cell: int, d: u8) -> bool {
    stop_index(b, cell, d) == 81
}

/// The candidates before any placement is propagated: all nine digits in an
/// empty cell, none in a placed one.
pub open spec fn reset(cells: Seq<u8>) -> Board {
    Board {
        cells,
        cands: Seq::new(
            81,
            |i: int|
                if cells[i] == 0 {
                    FULL
                } else {
                    0u16
                },
        ),
    }
}

/// The board after the placements in cells `0..n` were propagated in turn.
pub open spec fn refresh_upto(cells: Seq<u8>, n: int) -> Board
    decreases n,
{
    if n <= 0 {
        reset(cells)
    } else {
        let p = refresh_upto(cells, n - 1);
        if cells[n - 1] != 0 {
            after_move(p, n - 1, cells[n - 1])
        } else {
            p
        }
    }
}

/// The board with the given cells and freshly computed candidates.
pub open spec fn refreshed(cells: Seq<u8>) -> Board {
    refresh_upto(cells, 81)
}

/// Digit `d` is legal at cell `i`: no peer of `i` holds it.
pub open spec fn legal(cells: Seq<u8>, i: int, d: int) -> bool {
    forall|j: int| 0 <= j < 81 && sees(i, j) ==> #[trigger] cells[j] != d
}

/// No empty cell keeps a digit that one of its peers holds.
pub open spec fn pruned(b: Board) -> bool {
    forall|i: int, j: int|
        0 <= i < 81 && 0 <= j < 81 && sees(i, j) && b.cells[i] != 0 && b.cells[j] == 0
            ==> !has_digit(#[trigger] b.cands[j], #[trigger] b.cells[i] as int)
}

/// Some empty cell has no candidate left.
pub open spec fn dead(b: Board) -> bool {
    exists|i: int| 0 <= i < 81 && b.cells[i] == 0 && #[trigger] b.cands[i] == 0
}

/// No two peers hold the same digit.
pub open spec fn consistent(cells: Seq<u8>) -> bool {
    forall|i: int, j: int|
        0 <= i < 81 && 0 <= j < 81 && sees(i, j) && cells[i] != 0 ==> #[trigger] cells[i]
            != #[trigger] cells[j]
}

/// Clears `val` from the candidates of the empty peers of `cell`, in ascending
/// cell order. Stops and returns `false` at the first peer that is left
/// without a candidate; returns `true` when there is none.
pub fn update_candidates_after_move(grid: &mut Grid, cell: usize, val: u8) -> (ok: bool)
    requires
        cell < 81,
        1 <= val <= 9,
    ensures
        final(grid)@ == after_move(old(grid)@, cell as int, val),
        ok == move_ok(old(grid)@, cell as int, val),
        old(grid)@.wf() ==> final(grid)@.wf(),
{
    let ghost b = grid@;
    proof {
        if b.wf() {
            lemma_after_move_wf(b, cell as int, val);
        }
    }
    let ghost p = exhausts_fn(b, cell as int, val);
    for i in 0..SIZE
        invariant
            cell < 81,
            1 <= val <= 9,
            b == old(grid)@,
            p == exhausts_fn(b, cell as int, val),
            grid@.cells == b.cells,
            grid@.cands.len() == 81,
            forall|j: int| 0 <= j < i ==> !(#[trigger] p(j)),
            forall|j: int|
                0 <= j < i ==> #[trigger] grid@.cands[j] == (if reaches(b, cell as int, j) {
                    without(b.cands[j], (val - 1) as u16)
                } else {
                    b.cands[j]
                }),
            forall|j: int| i <= j < 81 ==> #[trigger] grid@.cands[j] == b.cands[j],
    {
        if grid.values[i] == 0 && i != cell && can_see(cell, i) {
            grid.candidates[i] = remove(grid.candidates[i], val);
            if grid.candidates[i] == 0 {
                proof {
                    assert(p(i as int));
                    lemma_first_index_is(81, p, i as int);
                    assert(grid@.cands =~= after_move(b, cell as int, val).cands);
                    if b.wf() {
                        lemma_after_move_wf(b, cell as int, val);
                    }
                }
                return false;
            }
        }
        assert(!p(i as int));
    }
    proof {
        lemma_first_index_is(81, p, 81);
        assert(grid@.cands =~= after_move(b, cell as int, val).cands);
    }
    true
}

/// Recomputes every candidate mask from the placed digits: an empty cell
/// starts with all nine digits, a placed cell with none, and each placement
/// is then propagated in ascending cell order.
pub fn update_candidates(grid: &mut Grid)
    requires
        old(grid)@.cells_ok(),
    ensures
        final(grid)@ == refreshed(old(grid)@.cells),
        final(grid)@.cells == old(grid)@.cells,
        final(grid)@.wf(),
        forall|i: int, d: int|
            0 <= i < 81 && 1 <= d <= 9 && old(grid)@.cells[i] == 0 && legal(old(grid)@.cells, i, d)
                ==> #[trigger] has_digit(final(grid)@.cands[i], d),
        roomy(old(grid)@.cells) ==> forall|i: int, d: int|
            0 <= i < 81 && 1 <= d <= 9 && old(grid)@.cells[i] == 0 ==> (#[trigger] has_digit(
                final(grid)@.cands[i],
                d,
            ) <==> legal(old(grid)@.cells, i, d)),
{
    let ghost cells = grid@.cells;
    proof {
        lemma_refreshed(cells);
        if roomy(cells) {
            lemma_refreshed_exact(cells);
        }
    }
    for i in 0..SIZE
        invariant
            grid@.cells == cells,
            grid@.cands.len() == 81,
            forall|j: int| 0 <= j < i ==> #[trigger] grid@.cands[j] == reset(cells).cands[j],
    {
        grid.candidates[i] = if grid.values[i] == 0 { FULL } else { 0 };
    }
    assert(grid@.cands =~= reset(cells).cands);
    for i in 0..SIZE
        invariant
            cells.len() == 81,
            forall|j: int| 0 <= j < 81 ==> #[trigger] cells[j] <= 9,
            grid@ == refresh_upto(cells, i as int),
            grid@.cells == cells,
    {
        if grid.values[i] != 0 {
            let val = grid.values[i];
            update_candidates_after_move(grid, i, val);
        }
    }
}


/// The number of empty cells among the first `n`.
pub open spec fn empties_upto(cells: Seq<u8>, n: int) -> int
    decreases n,
{
    if n <= 0 {
        0
    } else {
        empties_upto(cells, n - 1) + (if cells[n - 1] == 0 {
            1int
        } else {
            0int
        })
    }
}

/// The number of empty cells.
pub open spec fn empties(cells: Seq<u8>) -> nat {
    empties_upto(cells, 81) as nat
}

/// Filling an empty cell lowers the number of empty cells by one.
pub proof fn lemma_empties_fill(cells: Seq<u8>, c: int, v: u8, n: int)
    requires
        0 <= c < cells.len(),
        0 <= n <= cells.len(),
        cells[c] == 0,
        v != 0,
    ensures
        0 <= empties_upto(cells.update(c, v), n),
        empties_upto(cells.update(c, v), n) == empties_upto(cells, n) - (if c < n {
            1int
        } else {
            0int
        }),
    decreases n,
{
    if n > 0 {
        lemma_empties_fill(cells, c, v, n - 1);
    }
}

/// Propagation keeps the cells and the data invariant, and only removes
/// candidates.
pub proof fn lemma_after_move_wf(b: Board, cell: int, d: u8)
    requires
        b.wf(),
        0 <= cell < 81,
        1 <= d <= 9,
    ensures
        after_move(b, cell, d).wf(),
        after_move(b, cell, d).cells == b.cells,
        forall|j: int, e: int|
            0 <= j < 81 && #[trigger] has_digit(after_move(b, cell, d).cands[j], e) ==> has_digit(
                b.cands[j],
                e,
            ),
{
    let a = after_move(b, cell, d);
    assert forall|j: int| 0 <= j < 81 implies #[trigger] a.cands[j] <= b.cands[j] && (forall|e: int|
        has_digit(a.cands[j], e) ==> has_digit(b.cands[j], e)) by {
        lemma_bits_without(b.cands[j], (d - 1) as u16);
    }
}

/// A solved grid in which every row, column and box holds each digit once:
/// all cells hold a digit, and no two peers hold the same.
pub open spec fn valid_solution(s: Seq<u8>) -> bool {
    &&& s.len() == 81
    &&& forall|i: int| 0 <= i < 81 ==> 1 <= #[trigger] s[i] <= 9
    &&& forall|i: int, j: int|
        0 <= i < 81 && 0 <= j < 81 && sees(i, j) ==> #[trigger] s[i] != #[trigger] s[j]
}

/// `s` is a solution of the puzzle with the given cells.
pub open spec fn solves(cells: Seq<u8>, s: Seq<u8>) -> bool {
    &&& valid_solution(s)
    &&& forall|i: int| 0 <= i < 81 && cells[i] != 0 ==> #[trigger] s[i] == cells[i]
}

/// `s` is a completion of the board: a solution of its cells that takes the
/// digit of each empty cell from that cell's candidates.
pub open spec fn completes(b: Board, s: Seq<u8>) -> bool {
    &&& solves(b.cells, s)
    &&& forall|i: int| 0 <= i < 81 && b.cells[i] == 0 ==> has_digit(b.cands[i], #[trigger] s[i] as int)
}

/// Cell `i` is empty and has at most one candidate.
pub open spec fn forced(b: Board, i: int) -> bool {
    b.cells[i] == 0 && popcount(b.cands[i]) <= 1
}

/// `forced` as a function of the cell.
pub open spec fn forced_fn(b: Board) -> spec_fn(int) -> bool {
    |i: int| forced(b, i)
}

/// Cell `i` is empty and no empty cell has fewer candidates.
pub open spec fn fewest(b: Board, i: int) -> bool {
    &&& b.cells[i] == 0
    &&& forall|j: int|
        0 <= j < 81 && b.cells[j] == 0 ==> popcount(b.cands[i]) <= popcount(#[trigger] b.cands[j])
}

/// `fewest` as a function of the cell.
pub open spec fn fewest_fn(b: Board) -> spec_fn(int) -> bool {
    |i: int| fewest(b, i)
}

/// The cell that the search branches on. The cells are scanned in ascending
/// order. The scan ends at the first empty cell with at most one candidate:
/// with none the board is a dead end (-1), with one that cell is chosen.
/// Without such a cell the first of the empty cells with the fewest
/// candidates is chosen, and 81 stands for a board without empty cells.
pub open spec fn choice(b: Board) -> int {
    let f = first_index(81, forced_fn(b));
    if f < 81 {
        if popcount(b.cands[f]) == 0 {
            -1
        } else {
            f
        }
    } else {
        first_index(81, fewest_fn(b))
    }
}

/// The board after `d` was placed at `c` and propagated.
pub open spec fn placed(b: Board, c: int, d: u8) -> Board {
    after_move(b.with_value(c, d), c, d)
}

/// Digit `d` can be tried at cell `c`: it is a candidate there, and
/// propagating it leaves every peer with a candidate.
pub open spec fn viable(b: Board, c: int, d: int) -> bool {
    has_digit(b.cands[c], d) && move_ok(b.with_value(c, d as u8), c, d as u8)
}

/// The solved board that the depth-first search reaches first, if any.
pub open spec fn search(b: Board) -> Option<Board>
    decreases empties(b.cells), 11int,
{
    let c = choice(b);
    if c < 0 {
        None
    } else if c >= 81 {
        Some(b)
    } else {
        try_from(b, c, 1)
    }
}

/// The result of the search when only the digits from `d` on are tried at
/// the empty cell `c`, in ascending order.
pub open spec fn try_from(b: Board, c: int, d: int) -> Option<Board>
    decreases empties(b.cells), 10 - d,
{
    if !(0 <= c < 81 && b.cells.len() == 81 && b.cells[c] == 0 && 1 <= d <= 9) {
        None
    } else {
        proof {
            lemma_empties_fill(b.cells, c, d as u8, 81);
        }
        if viable(b, c, d) {
            match search(placed(b, c, d as u8)) {
                Some(r) => Some(r),
                None => try_from(b, c, d + 1),
            }
        } else {
            try_from(b, c, d + 1)
        }
    }
}

/// The count `n` after the completions below `b` were counted, where
/// counting stops once the count exceeds one.
pub open spec fn tally(b: Board, n: nat) -> nat
    decreases empties(b.cells), 11int,
{
    let c = choice(b);
    if n > 1 || c < 0 {
        n
    } else if c >= 81 {
        n + 1
    } else {
        tally_from(b, c, 1, n)
    }
}

/// The count after the digits from `d` on were tried at the empty cell `c`.
pub open spec fn tally_from(b: Board, c: int, d: int, n: nat) -> nat
    decreases empties(b.cells), 10 - d,
{
    if !(0 <= c < 81 && b.cells.len() == 81 && b.cells[c] == 0 && 1 <= d <= 9) {
        n
    } else {
        proof {
            lemma_empties_fill(b.cells, c, d as u8, 81);
        }
        if viable(b, c, d) {
            tally_from(b, c, d + 1, tally(placed(b, c, d as u8), n))
        } else {
            tally_from(b, c, d + 1, n)
        }
    }
}

/// What the scan for the next cell found: a dead end, or the chosen cell
/// (81 when no cell is empty).
fn choose_cell(grid: &Grid) -> (r: (bool, usize))
    requires
        grid@.wf(),
    ensures
        r.0 <==> choice(grid@) < 0,
        !r.0 ==> r.1 == choice(grid@),
        r.1 <= 81,
        !r.0 && r.1 < 81 ==> grid@.cells[r.1 as int] == 0,
        !r.0 && r.1 == 81 ==> grid@.solved(),
{
    let ghost b = grid@;
    let mut min_candidates: u32 = 10;
    let mut best_cell: usize = SIZE;
    for i in 0..SIZE
        invariant
            b == grid@,
            b.wf(),
            forall|j: int| 0 <= j < i ==> !(#[trigger] forced_fn(b)(j)),
            best_cell == 81 ==> min_candidates == 10 && (forall|j: int|
                0 <= j < i ==> #[trigger] b.cells[j] != 0),
            best_cell != 81 ==> best_cell < i && b.cells[best_cell as int] == 0 && min_candidates
                == popcount(b.cands[best_cell as int]),
            forall|j: int|
                0 <= j < i && b.cells[j] == 0 ==> min_candidates <= popcount(#[trigger] b.cands[j]),
            forall|j: int|
                0 <= j < best_cell && j < i && b.cells[j] == 0 ==> min_candidates < popcount(
                    #[trigger] b.cands[j],
                ),
    {
        if grid.values[i] == 0 {
            let c = count(grid.candidates[i]);
            if c <= 1 {
                proof {
                    assert(forced_fn(b)(i as int));
                    lemma_first_index_is(81, forced_fn(b), i as int);
                }
                return (c == 0, i);
            }
            if c < min_candidates {
                min_candidates = c;
                best_cell = i;
            }
        }
        assert(!forced_fn(b)(i as int));
    }
    proof {
        lemma_first_index_is(81, forced_fn(b), 81);
        if best_cell == 81 {
            assert forall|t: int| 0 <= t < 81 implies !(#[trigger] fewest_fn(b)(t)) by {
                assert(b.cells[t] != 0);
            }
            lemma_first_index_is(81, fewest_fn(b), 81);
        } else {
            assert(fewest_fn(b)(best_cell as int));
            assert forall|t: int| 0 <= t < best_cell implies !(#[trigger] fewest_fn(b)(t)) by {
                if b.cells[t] == 0 {
                    assert(popcount(b.cands[best_cell as int]) < popcount(b.cands[t]));
                }
            }
            lemma_first_index_is(81, fewest_fn(b), best_cell as int);
        }
    }
    (false, best_cell)
}

/// Places `digit` at the empty cell `cell` of a copy of `grid` and
/// propagates it.
fn place(grid: &Grid, cell: usize, digit: u8) -> (r: (Grid, bool))
    requires
        grid@.wf(),
        cell < 81,
        1 <= digit <= 9,
        grid@.cells[cell as int] == 0,
    ensures
        r.0@ == placed(grid@, cell as int, digit),
        r.1 == move_ok(grid@.with_value(cell as int, digit), cell as int, digit),
        r.0@.wf(),
        empties(r.0@.cells) < empties(grid@.cells),
{
    let mut next = *grid;
    next.set_value(cell, digit);
    let ok = update_candidates_after_move(&mut next, cell, digit);
    proof {
        lemma_after_move_wf(grid@.with_value(cell as int, digit), cell as int, digit);
        lemma_empties_fill(grid@.cells, cell as int, digit, 81);
    }
    (next, ok)
}

/// Depth-first search for a completion. On success the grid is overwritten
/// with the solved grid; on failure it is left as it was.
fn solve_recursive(grid: &mut Grid) -> (ok: bool)
    requires
        old(grid)@.wf(),
    ensures
        ok ==> search(old(grid)@) == Some(final(grid)@) && final(grid)@.solved(),
        !ok ==> search(old(grid)@) is None && *final(grid) == *old(grid),
        dead(old(grid)@) ==> !ok,
        final(grid)@.wf(),
    decreases empties(old(grid)@.cells),
{
    proof {
        if dead(grid@) {
            lemma_dead_fails(grid@, 0);
        }
    }
    let (stuck, best_cell) = choose_cell(grid);
    if stuck {
        return false;
    }
    if best_cell == SIZE {
        return true;
    }
    let candidates = grid.candidates[best_cell];
    let ghost b = grid@;
    let mut digit: u8 = 1;
    while digit <= 9
        invariant
            1 <= digit <= 10,
            *grid == *old(grid),
            b == grid@,
            b.wf(),
            best_cell < 81,
            b.cells[best_cell as int] == 0,
            candidates == b.cands[best_cell as int],
            dead(b) ==> search(b) is None,
            search(b) == try_from(b, best_cell as int, 1),
            try_from(b, best_cell as int, 1) == try_from(b, best_cell as int, digit as int),
        decreases 10 - digit,
    {
        if contains(candidates, digit) {
            let (mut next_grid, ok) = place(grid, best_cell, digit);
            if ok {
                if solve_recursive(&mut next_grid) {
                    proof {
                        assert(try_from(b, best_cell as int, digit as int) == Some(next_grid@));
                    }
                    *grid = next_grid;
                    return true;
                }
            }
        }
        digit = digit + 1;
    }
    false
}

/// Counts the completions below `grid` into `count`, and stops counting once
/// the count exceeds one.
fn count_solutions(grid: &Grid, count: &mut usize)
    requires
        grid@.wf(),
    ensures
        *final(count) == tally(grid@, *old(count) as nat),
        *old(count) <= 1 ==> *final(count) <= 2,
    decreases empties(grid@.cells),
{
    if *count > 1 {
        return ;
    }
    let (stuck, best_cell) = choose_cell(grid);
    if stuck {
        return ;
    }
    if best_cell == SIZE {
        *count = *count + 1;
        return ;
    }
    let candidates = grid.candidates[best_cell];
    let ghost b = grid@;
    let ghost n0 = *count as nat;
    let mut digit: u8 = 1;
    while digit <= 9
        invariant
            1 <= digit <= 10,
            b == grid@,
            b.wf(),
            best_cell < 81,
            b.cells[best_cell as int] == 0,
            candidates == b.cands[best_cell as int],
            *count <= 2,
            tally_from(b, best_cell as int, 1, n0) == tally_from(
                b,
                best_cell as int,
                digit as int,
                *count as nat,
            ),
        decreases 10 - digit,
    {
        if contains(candidates, digit) {
            let (next_grid, ok) = place(grid, best_cell, digit);
            if ok {
                count_solutions(&next_grid, count);
            }
        }
        digit = digit + 1;
    }
}

/// Whether no two cells that see each other hold the same digit.
pub fn givens_consistent(grid: &Grid) -> (r: bool)
    ensures
        r == consistent(grid@.cells),
{
    for i in 0..SIZE
        invariant
            forall|a: int, b: int|
                0 <= a < i && 0 <= b < 81 && sees(a, b) && grid@.cells[a] != 0
                    ==> #[trigger] grid@.cells[a] != #[trigger] grid@.cells[b],
    {
        if grid.values[i] != 0 {
            for j in 0..SIZE
                invariant
                    i < 81,
                    grid@.cells[i as int] != 0,
                    forall|b: int|
                        0 <= b < j && sees(i as int, b) ==> grid@.cells[i as int]
                            != #[trigger] grid@.cells[b],
            {
                if j != i && grid.values[j] == grid.values[i] && can_see(i, j) {
                    assert(sees(i as int, j as int) && grid@.cells[i as int] == grid@.cells[j as int]);
                    return false;
                }
            }
        }
    }
    true
}

/// Finds a solution of the puzzle, if it has one. Givens that repeat a digit
/// in a unit leave none. Otherwise the candidates are recomputed from the
/// givens, and the search tries, at the cell it chooses, the digits in
/// ascending order.
pub fn solve(grid: &Grid) -> (r: Option<Grid>)
    requires
        grid@.cells_ok(),
    ensures
        r is Some <==> exists|s: Seq<u8>| #[trigger] solves(grid@.cells, s),
        r matches Some(g) ==> solves(grid@.cells, g@.cells) && g@.wf() && g@.solved(),
        r matches Some(g) ==> search(refreshed(grid@.cells)) == Some(g@),
        r is None && consistent(grid@.cells) ==> search(refreshed(grid@.cells)) is None,
{
    if !givens_consistent(grid) {
        proof {
            assert forall|s: Seq<u8>| !#[trigger] solves(grid@.cells, s) by {
                if solves(grid@.cells, s) {
                    lemma_solves_consistent(grid@.cells, s);
                }
            }
        }
        return None;
    }
    let mut solution = *grid;
    update_candidates(&mut solution);
    proof {
        lemma_refreshed_wf(grid@.cells);
        lemma_solver_decides(grid@.cells);
    }
    if solve_recursive(&mut solution) {
        Some(solution)
    } else {
        None
    }
}

/// Whether the puzzle has exactly one solution. Givens that repeat a digit
/// in a unit leave none. Otherwise the completions are counted, and the
/// count stops at two.
pub fn is_unique(grid: &Grid) -> (r: bool)
    requires
        grid@.cells_ok(),
    ensures
        r == uniquely_solvable(grid@.cells),
        r == (consistent(grid@.cells) && tally(refreshed(grid@.cells), 0) == 1),
{
    if !givens_consistent(grid) {
        proof {
            assert forall|s: Seq<u8>| !#[trigger] solves(grid@.cells, s) by {
                if solves(grid@.cells, s) {
                    lemma_solves_consistent(grid@.cells, s);
                }
            }
            if uniquely_solvable(grid@.cells) {
                let s = choose|s: Seq<u8>| #[trigger] only_solution(grid@.cells, s);
                assert(solves(grid@.cells, s));
            }
        }
        return false;
    }
    let mut g = *grid;
    update_candidates(&mut g);
    proof {
        lemma_refreshed_wf(grid@.cells);
        lemma_solver_decides(grid@.cells);
    }
    let mut count: usize = 0;
    count_solutions(&g, &mut count);
    count == 1
}

/// The board on which the search runs after a clue was removed: fresh
/// candidates, without the removed digit at the cell it was removed from.
pub open spec fn forbidding(cells: Seq<u8>, cell: int, removed_val: u8) -> Board {
    let b = refreshed(cells);
    b.with_mask(cell, without(b.cands[cell], (removed_val - 1) as u16))
}

/// Decides whether a puzzle stays uniquely solvable after the clue
/// `removed_val` was taken from `cell`, given that it was so before: searches
/// for a completion that puts another digit there. Returns `true` when the
/// cell has no other candidate or the search finds nothing.
pub fn check_uniqueness_after_removal(grid: &Grid, cell: usize, removed_val: u8) -> (r: bool)
    requires
        grid@.cells_ok(),
        cell < 81,
        1 <= removed_val <= 9,
    ensures
        r == keeps_unique(grid@.cells, cell as int, removed_val),
        consistent(grid@.cells) && grid@.cells[cell as int] == 0 ==> (r <==> forall|s: Seq<u8>| #[trigger]
            solves(grid@.cells, s) ==> s[cell as int] == removed_val),
{
    let mut g = *grid;
    update_candidates(&mut g);
    proof {
        lemma_refreshed_wf(grid@.cells);
        if consistent(grid@.cells) && grid@.cells[cell as int] == 0 {
            lemma_removal_decides(grid@.cells, cell as int, removed_val);
        }
        lemma_bits_without(g@.cands[cell as int], (removed_val - 1) as u16);
    }
    g.candidates[cell] = remove(g.candidates[cell], removed_val);
    assert(g@ == forbidding(grid@.cells, cell as int, removed_val));
    if g.candidates[cell] == 0 {
        return true;
    }
    !solve_recursive(&mut g)
}

/// Fresh candidates meet the data invariant.
pub proof fn lemma_refreshed_wf(cells: Seq<u8>)
    requires
        cells.len() == 81,
        forall|i: int| 0 <= i < 81 ==> #[trigger] cells[i] <= 9,
    ensures
        refreshed(cells).wf(),
        refreshed(cells).cells == cells,
{
    lemma_refresh_upto_wf(cells, 81);
}

/// Propagating the placements of the first `n` cells keeps the cells and
/// gives candidates that meet the data invariant.
pub proof fn lemma_refresh_upto_wf(cells: Seq<u8>, n: int)
    requires
        cells.len() == 81,
        forall|i: int| 0 <= i < 81 ==> #[trigger] cells[i] <= 9,
        n <= 81,
    ensures
        refresh_upto(cells, n).wf(),
        refresh_upto(cells, n).cells == cells,
    decreases n,
{
    if n > 0 {
        lemma_refresh_upto_wf(cells, n - 1);
        if cells[n - 1] != 0 {
            lemma_after_move_wf(refresh_upto(cells, n - 1), n - 1, cells[n - 1]);
        }
    }
}

} // verus!
