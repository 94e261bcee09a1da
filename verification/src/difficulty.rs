//! The difficulty evaluator: hints are applied until the grid is solved or
//! no technique finds one, and the weights of the steps give the score.

use vstd::prelude::*;
use std::collections::HashSet;
use crate::bits::{
    has_digit, lemma_bits_const, lemma_bits_without, lemma_popcount_without, popcount, remove,
    without,
};
use crate::grid::{Board, Grid};
use crate::hint::{agrees, applicable, Hint, HintView, one_kind, Technique, technique_of};
use crate::solver::{
    completes, consistent, dead, empties_upto, lemma_after_move_wf, lemma_empties_fill,
    lemma_refreshed_wf, move_ok, placed, refreshed, solves, update_candidates,
    update_candidates_after_move,
};
use crate::techniques::{get_hint, hint_of, lemma_hint_sound};
use crate::units::sees;
use crate::solutions::{
    lemma_branch, lemma_dead_no_completion, lemma_dead_placed, lemma_refreshed,
    lemma_refreshed_completions, lemma_solved_board, lemma_stopped_is_dead, only_solution,
    searchable, uniquely_solvable,
};

verus! {

/// The outcome of an evaluation: a score from 1 to 100, and whether the
/// techniques alone solved the puzzle.
pub struct DifficultyResult {
    pub score: i32,
    pub solvable: bool,
}

/// Every pair names a cell of the board and a digit.
pub open spec fn pairs_ok(pairs: Seq<(usize, u8)>) -> bool {
    forall|k: int| 0 <= k < pairs.len() ==> (#[trigger] pairs[k]).0 < 81 && 1 <= pairs[k].1 <= 9
}

/// The board after the first `n` placements were made, each one propagated.
pub open spec fn place_all(b: Board, pairs: Seq<(usize, u8)>, n: int) -> Board
    decreases n,
{
    if n <= 0 {
        b
    } else {
        placed(place_all(b, pairs, n - 1), pairs[n - 1].0 as int, pairs[n - 1].1)
    }
}

/// The board without candidate `d` at `cell`.
pub open spec fn eliminated(b: Board, cell: int, d: u8) -> Board {
    b.with_mask(cell, without(b.cands[cell], (d - 1) as u16))
}

/// The board after the first `n` eliminations.
pub open spec fn eliminate_all(b: Board, pairs: Seq<(usize, u8)>, n: int) -> Board
    decreases n,
{
    if n <= 0 {
        b
    } else {
        eliminated(eliminate_all(b, pairs, n - 1), pairs[n - 1].0 as int, pairs[n - 1].1)
    }
}

/// The board after a hint was applied: its placements are made and
/// propagated in turn, then its eliminations are carried out.
pub open spec fn applied(b: Board, h: HintView) -> Board {
    eliminate_all(
        place_all(b, h.placements, h.placements.len() as int),
        h.eliminations,
        h.eliminations.len() as int,
    )
}

/// The number of candidates in the first `n` masks.
pub open spec fn bits_upto(cands: Seq<u16>, n: int) -> int
    decreases n,
{
    if n <= 0 {
        0
    } else {
        bits_upto(cands, n - 1) + popcount(cands[n - 1])
    }
}

/// What is left to do on a board: ten for each empty cell, one for each
/// candidate.
pub open spec fn effort(b: Board) -> int {
    10 * empties_upto(b.cells, 81) + bits_upto(b.cands, 81)
}

/// The counts of empty cells and of candidates are bounded by the number of
/// cells counted.
pub proof fn lemma_counts_range(b: Board, n: int)
    requires
        0 <= n <= 81,
    ensures
        0 <= empties_upto(b.cells, n) <= n,
        0 <= bits_upto(b.cands, n) <= 9 * n,
    decreases n,
{
    if n > 0 {
        lemma_counts_range(b, n - 1);
    }
}

/// Replacing one mask changes the number of candidates by the difference of
/// the two masks' counts.
pub proof fn lemma_bits_update(cands: Seq<u16>, i: int, m: u16, n: int)
    requires
        0 <= i < cands.len(),
        0 <= n <= cands.len(),
    ensures
        bits_upto(cands.update(i, m), n) == bits_upto(cands, n) - (if i < n {
            popcount(cands[i]) - popcount(m)
        } else {
            0
        }),
    decreases n,
{
    if n > 0 {
        lemma_bits_update(cands, i, m, n - 1);
    }
}

/// Masks that lose candidates cell by cell lose them in total.
pub proof fn lemma_bits_shrink(c1: Seq<u16>, c2: Seq<u16>, n: int)
    requires
        0 <= n <= c1.len(),
        c1.len() == c2.len(),
        forall|i: int| 0 <= i < n ==> popcount(#[trigger] c2[i]) <= popcount(c1[i]),
    ensures
        bits_upto(c2, n) <= bits_upto(c1, n),
    decreases n,
{
    if n > 0 {
        lemma_bits_shrink(c1, c2, n - 1);
    }
}

/// Writing a digit into a cell never raises the number of empty cells.
pub proof fn lemma_empties_write(cells: Seq<u8>, c: int, v: u8, n: int)
    requires
        0 <= c < cells.len(),
        0 <= n <= cells.len(),
        v != 0,
    ensures
        empties_upto(cells.update(c, v), n) <= empties_upto(cells, n),
    decreases n,
{
    if n > 0 {
        lemma_empties_write(cells, c, v, n - 1);
    }
}

/// Placing a digit keeps the data invariant and does not raise the effort;
/// on an empty cell it lowers the effort.
pub proof fn lemma_placed_effort(b: Board, c: int, d: u8)
    requires
        b.wf(),
        0 <= c < 81,
        1 <= d <= 9,
    ensures
        placed(b, c, d).wf(),
        effort(placed(b, c, d)) <= effort(b),
        b.cells[c] == 0 ==> effort(placed(b, c, d)) < effort(b),
{
    let b1 = b.with_value(c, d);
    let b2 = placed(b, c, d);
    lemma_after_move_wf(b1, c, d);
    lemma_empties_write(b.cells, c, d, 81);
    if b.cells[c] == 0 {
        lemma_empties_fill(b.cells, c, d, 81);
    }
    lemma_bits_update(b.cands, c, 0, 81);
    assert(popcount(0) == 0) by {
        lemma_bits_const();
    }
    assert forall|i: int| 0 <= i < 81 implies popcount(#[trigger] b2.cands[i]) <= popcount(
        b1.cands[i],
    ) by {
        lemma_popcount_without(b1.cands[i], (d - 1) as u16);
    }
    lemma_bits_shrink(b1.cands, b2.cands, 81);
    lemma_counts_range(b, 81);
}

/// Eliminating a candidate keeps the data invariant and does not raise the
/// effort; where the cell has the candidate it lowers the effort.
pub proof fn lemma_eliminated_effort(b: Board, c: int, d: u8)
    requires
        b.wf(),
        0 <= c < 81,
        1 <= d <= 9,
    ensures
        eliminated(b, c, d).wf(),
        effort(eliminated(b, c, d)) <= effort(b),
        has_digit(b.cands[c], d as int) ==> effort(eliminated(b, c, d)) < effort(b),
{
    lemma_bits_without(b.cands[c], (d - 1) as u16);
    lemma_popcount_without(b.cands[c], (d - 1) as u16);
    lemma_bits_update(b.cands, c, without(b.cands[c], (d - 1) as u16), 81);
}

/// Making placements keeps the data invariant and does not raise the
/// effort; where the first goes to an empty cell they lower it.
pub proof fn lemma_place_all(b: Board, pairs: Seq<(usize, u8)>, n: int)
    requires
        b.wf(),
        pairs_ok(pairs),
        0 <= n <= pairs.len(),
    ensures
        place_all(b, pairs, n).wf(),
        effort(place_all(b, pairs, n)) <= effort(b),
        n > 0 && b.cells[pairs[0].0 as int] == 0 ==> effort(place_all(b, pairs, n)) < effort(b),
    decreases n,
{
    if n > 0 {
        lemma_place_all(b, pairs, n - 1);
        lemma_placed_effort(place_all(b, pairs, n - 1), pairs[n - 1].0 as int, pairs[n - 1].1);
    }
}

/// Eliminations keep the data invariant and the cells and do not raise the
/// effort; where the first removes a candidate they lower it.
pub proof fn lemma_eliminate_all(b: Board, pairs: Seq<(usize, u8)>, n: int)
    requires
        b.wf(),
        pairs_ok(pairs),
        0 <= n <= pairs.len(),
    ensures
        eliminate_all(b, pairs, n).wf(),
        eliminate_all(b, pairs, n).cells == b.cells,
        effort(eliminate_all(b, pairs, n)) <= effort(b),
        n > 0 && has_digit(b.cands[pairs[0].0 as int], pairs[0].1 as int) ==> effort(
            eliminate_all(b, pairs, n),
        ) < effort(b),
    decreases n,
{
    if n > 0 {
        lemma_eliminate_all(b, pairs, n - 1);
        lemma_eliminated_effort(
            eliminate_all(b, pairs, n - 1),
            pairs[n - 1].0 as int,
            pairs[n - 1].1,
        );
    }
}

/// Applying a hint that can be applied keeps the data invariant and lowers
/// the effort.
pub proof fn lemma_applied(b: Board, h: HintView)
    requires
        b.wf(),
        applicable(b, h),
    ensures
        pairs_ok(h.placements),
        pairs_ok(h.eliminations),
        applied(b, h).wf(),
        0 <= effort(applied(b, h)) < effort(b),
{
    assert(pairs_ok(h.placements)) by {
        assert forall|k: int| 0 <= k < h.placements.len() implies (#[trigger] h.placements[k]).0 < 81
            && 1 <= h.placements[k].1 <= 9 by {
            assert(b.cand(h.placements[k].0 as int, h.placements[k].1 as int));
        }
    }
    assert(pairs_ok(h.eliminations)) by {
        assert forall|k: int| 0 <= k < h.eliminations.len() implies (
        #[trigger] h.eliminations[k]).0 < 81 && 1 <= h.eliminations[k].1 <= 9 by {
            assert(b.cand(h.eliminations[k].0 as int, h.eliminations[k].1 as int));
        }
    }
    let p = place_all(b, h.placements, h.placements.len() as int);
    lemma_place_all(b, h.placements, h.placements.len() as int);
    lemma_eliminate_all(p, h.eliminations, h.eliminations.len() as int);
    lemma_counts_range(applied(b, h), 81);
    if h.placements.len() > 0 {
        assert(b.cand(h.placements[0].0 as int, h.placements[0].1 as int));
    } else {
        assert(b.cand(h.eliminations[0].0 as int, h.eliminations[0].1 as int));
    }
}

/// Applies a hint: each placement is written and propagated, then each
/// eliminated candidate is cleared.
pub fn apply_hint(grid: &mut Grid, hint: &Hint)
    requires
        pairs_ok(hint@.placements),
        pairs_ok(hint@.eliminations),
    ensures
        final(grid)@ == applied(old(grid)@, hint@),
        old(grid)@.wf() ==> final(grid)@.wf(),
{
    let ghost b = grid@;
    for k in 0..hint.placements.len()
        invariant
            pairs_ok(hint@.placements),
            grid@.cands.len() == 81,
            grid@ == place_all(b, hint@.placements, k as int),
    {
        let (cell, digit) = hint.placements[k];
        grid.set_value(cell, digit);
        update_candidates_after_move(grid, cell, digit);
    }
    let ghost p = grid@;
    for k in 0..hint.eliminations.len()
        invariant
            pairs_ok(hint@.eliminations),
            grid@.cands.len() == 81,
            grid@ == eliminate_all(p, hint@.eliminations, k as int),
    {
        let (cell, digit) = hint.eliminations[k];
        grid.candidates[cell] = remove(grid.candidates[cell], digit);
    }
    proof {
        if b.wf() {
            lemma_place_all(b, hint@.placements, hint@.placements.len() as int);
            lemma_eliminate_all(p, hint@.eliminations, hint@.eliminations.len() as int);
        }
    }
}

/// The statistics of the steps taken so far: the largest weight, the sum of
/// the weights, the number of steps, and the techniques used, each told by
/// its weight.
pub struct Progress {
    pub max_w: int,
    pub sum_w: int,
    pub steps: int,
    pub used: Set<u32>,
}

impl Progress {
    /// The statistics before the first step.
    pub open spec fn start() -> Progress {
        Progress { max_w: 0, sum_w: 0, steps: 0, used: Set::empty() }
    }

    /// The statistics after one more step, of technique `t`.
    pub open spec fn with_step(self, t: Technique) -> Progress {
        Progress {
            max_w: if t.spec_weight() > self.max_w {
                t.spec_weight() as int
            } else {
                self.max_w
            },
            sum_w: self.sum_w + t.spec_weight(),
            steps: self.steps + 1,
            used: self.used.insert(t.spec_weight()),
        }
    }
}

/// The score of a solved run. With `avg` for `sum_w / steps` (0 without a
/// step) and `diversity` for half the number of techniques used, at most 5,
/// it is `0.7 * max_w + 0.2 * avg + diversity`, rounded to the nearest
/// integer (a half rounds up) and then held between 1 and 100. Here the same
/// number is computed exactly, over the common denominator `10 * steps`.
pub open spec fn score_of(max_w: int, sum_w: int, steps: int, kinds: int) -> int {
    if steps <= 0 {
        1
    } else {
        let bonus = if 5 * kinds > 50 {
            50
        } else {
            5 * kinds
        };
        let tenfold = (7 * max_w + bonus) * steps + 2 * sum_w;
        let rounded = (tenfold + 5 * steps) / (10 * steps);
        if rounded < 1 {
            1
        } else if rounded > 100 {
            100
        } else {
            rounded
        }
    }
}

/// The outcome of the evaluation that continues from board `b` after the
/// steps in `done`: the score of the steps when the board is solved, 100 and
/// unsolved when no technique finds a hint, and otherwise the outcome after
/// the next hint was applied.
pub open spec fn run(b: Board, done: Progress) -> (int, bool)
    decreases effort(b),
    when b.wf()
{
    if b.solved() {
        (score_of(done.max_w, done.sum_w, done.steps, done.used.len() as int), true)
    } else {
        match hint_of(b) {
            None => (100, false),
            Some(h) => {
                proof {
                    lemma_hint_sound(b, h);
                    lemma_applied(b, h);
                }
                run(applied(b, h), done.with_step(technique_of(h)))
            },
        }
    }
}

/// The outcome of evaluating a puzzle: the run from its board with fresh
/// candidates.
pub open spec fn outcome(cells: Seq<u8>) -> (int, bool) {
    run(refreshed(cells), Progress::start())
}

/// Computes the score of a solved run from the largest weight, the sum of
/// the weights, the number of steps and the number of techniques used.
pub fn score(max_w: u32, sum_w: u32, steps: u32, kinds: usize) -> (r: i32)
    ensures
        r == score_of(max_w as int, sum_w as int, steps as int, kinds as int),
        1 <= r <= 100,
{
    if steps == 0 {
        return 1;
    }
    let bonus: u128 = if kinds > 10 {
        50
    } else {
        5 * (kinds as u128)
    };
    let weight: u128 = 7 * (max_w as u128) + bonus;
    let n: u128 = steps as u128;
    assert(weight * n <= 0x8_0000_0000 * 0x1_0000_0000) by (nonlinear_arith)
        requires
            weight <= 0x8_0000_0000,
            n <= 0x1_0000_0000,
    ;
    let tenfold: u128 = weight * n + 2 * (sum_w as u128);
    let rounded: u128 = (tenfold + 5 * n) / (10 * n);
    if rounded < 1 {
        1
    } else if rounded > 100 {
        100
    } else {
        rounded as i32
    }
}

/// A solved board has no hint.
pub proof fn lemma_solved_no_hint(b: Board)
    requires
        b.wf(),
        b.solved(),
    ensures
        hint_of(b) is None,
{
    if hint_of(b) is Some {
        let h = hint_of(b)->0;
        lemma_hint_sound(b, h);
        if h.placements.len() > 0 {
            assert(b.cand(h.placements[0].0 as int, h.placements[0].1 as int));
        } else {
            assert(b.cand(h.eliminations[0].0 as int, h.eliminations[0].1 as int));
        }
    }
}

/// A grid without an empty cell is evaluated as solvable with score 1.
pub proof fn lemma_solved_outcome(cells: Seq<u8>)
    requires
        cells.len() == 81,
        forall|i: int| 0 <= i < 81 ==> 1 <= #[trigger] cells[i] <= 9,
    ensures
        outcome(cells) == (1int, true),
{
    lemma_refreshed_wf(cells);
    assert(refreshed(cells).solved());
}

/// The outcome of a run is a score from 1 to 100, and a run that gets stuck
/// scores 100.
pub proof fn lemma_run_range(b: Board, done: Progress)
    requires
        b.wf(),
    ensures
        1 <= run(b, done).0 <= 100,
        !run(b, done).1 ==> run(b, done).0 == 100,
    decreases effort(b),
{
    if !b.solved() && hint_of(b) is Some {
        let h = hint_of(b)->0;
        lemma_hint_sound(b, h);
        lemma_applied(b, h);
        lemma_run_range(applied(b, h), done.with_step(technique_of(h)));
    }
}

/// The running statistics of an evaluation.
struct Meter {
    max_w: u32,
    sum_w: u32,
    steps: u32,
    techniques_used: HashSet<u32>,
}

impl Meter {
    /// The statistics that the meter holds.
    spec fn progress(&self) -> Progress {
        Progress {
            max_w: self.max_w as int,
            sum_w: self.sum_w as int,
            steps: self.steps as int,
            used: self.techniques_used@,
        }
    }

    /// The sum is bounded by the steps.
    spec fn inv(&self) -> bool {
        self.sum_w <= 54 * self.steps
    }

    /// A meter before the first step.
    fn new() -> (m: Meter)
        ensures
            m.progress() == Progress::start(),
            m.inv(),
    {
        Meter { max_w: 0, sum_w: 0, steps: 0, techniques_used: HashSet::new() }
    }

    /// Counts one step of technique `t`.
    fn note(&mut self, t: Technique)
        requires
            old(self).inv(),
            old(self).steps < 2000,
        ensures
            final(self).progress() == old(self).progress().with_step(t),
            final(self).inv(),
    {
        broadcast use vstd::std_specs::hash::group_hash_axioms;

        let w = t.weight();
        if w > self.max_w {
            self.max_w = w;
        }
        self.sum_w = self.sum_w + w;
        self.steps = self.steps + 1;
        self.techniques_used.insert(w);
    }

    /// The score of the steps counted.
    fn score(&self) -> (r: i32)
        ensures
            r == score_of(
                self.progress().max_w,
                self.progress().sum_w,
                self.progress().steps,
                self.progress().used.len() as int,
            ),
            1 <= r <= 100,
    {
        broadcast use vstd::std_specs::hash::group_hash_axioms;

        score(self.max_w, self.sum_w, self.steps, self.techniques_used.len())
    }
}

/// Evaluates the difficulty of a puzzle. The candidates are recomputed, and
/// hints are taken and applied until the grid is solved or no technique
/// finds one. A solved run is scored from the largest weight, the average
/// weight and the number of techniques used; a run that gets stuck scores
/// 100 and is reported as not solvable.
pub fn evaluate_difficulty(grid: &Grid) -> (r: DifficultyResult)
    requires
        grid@.cells_ok(),
    ensures
        (r.score as int, r.solvable) == outcome(grid@.cells),
        1 <= r.score <= 100,
        !r.solvable ==> r.score == 100,
        consistent(grid@.cells) && r.solvable ==> uniquely_solvable(grid@.cells),
{
    let mut current_grid = *grid;
    update_candidates(&mut current_grid);
    proof {
        lemma_refreshed_wf(grid@.cells);
        lemma_counts_range(current_grid@, 81);
        if consistent(grid@.cells) && outcome(grid@.cells).1 {
            lemma_solved_by_techniques(grid@.cells);
        }
    }
    let mut meter = Meter::new();
    loop
        invariant
            current_grid@.wf(),
            meter.inv(),
            0 <= effort(current_grid@),
            meter.steps + effort(current_grid@) <= 1539,
            outcome(grid@.cells) == run(current_grid@, meter.progress()),
            consistent(grid@.cells) && outcome(grid@.cells).1 ==> uniquely_solvable(grid@.cells),
        decreases effort(current_grid@),
    {
        if current_grid.is_solved() {
            return DifficultyResult { score: meter.score(), solvable: true };
        }
        match get_hint(&current_grid) {
            Some(hint) => {
                proof {
                    lemma_applied(current_grid@, hint@);
                }
                meter.note(Technique::with_weight(hint.difficulty));
                apply_hint(&mut current_grid, &hint);
            },
            None => {
                return DifficultyResult { score: 100, solvable: false };
            },
        }
    }
}


/// Placing a candidate keeps a searchable board searchable, and leaves
/// exactly the completions that have the digit at the cell.
pub proof fn lemma_placed_keeps(b: Board, c: int, d: u8)
    requires
        searchable(b),
        0 <= c < 81,
        b.cand(c, d as int),
    ensures
        searchable(placed(b, c, d)),
        forall|s: Seq<u8>| #[trigger] completes(placed(b, c, d), s) <==> completes(b, s) && s[c] == d,
{
    let b1 = b.with_value(c, d);
    let b2 = placed(b, c, d);
    lemma_bits_const();
    lemma_after_move_wf(b1, c, d);
    if dead(b) {
        lemma_dead_placed(b, c, d);
        assert forall|s: Seq<u8>| #[trigger] completes(b2, s) <==> completes(b, s) && s[c] == d by {
            lemma_dead_no_completion(b, s);
            lemma_dead_no_completion(b2, s);
        }
    } else {
        lemma_branch(b, c, d);
        if !move_ok(b1, c, d) {
            lemma_stopped_is_dead(b1, c, d);
            assert forall|s: Seq<u8>| #[trigger] completes(b2, s) <==> completes(b, s) && s[c]
                == d by {
                lemma_dead_no_completion(b2, s);
            }
        }
    }
}

/// Eliminating a candidate keeps a searchable board searchable, and leaves
/// exactly the completions that do not have the digit at the cell.
pub proof fn lemma_eliminated_keeps(b: Board, c: int, d: u8)
    requires
        searchable(b),
        0 <= c < 81,
        1 <= d <= 9,
    ensures
        searchable(eliminated(b, c, d)),
        forall|s: Seq<u8>| #[trigger]
            completes(eliminated(b, c, d), s) <==> completes(b, s) && !(b.cells[c] == 0 && s[c] == d),
{
    let e = eliminated(b, c, d);
    lemma_bits_without(b.cands[c], (d - 1) as u16);
    if dead(b) {
        let z = choose|z: int| 0 <= z < 81 && b.cells[z] == 0 && #[trigger] b.cands[z] == 0;
        assert(e.cells[z] == 0 && e.cands[z] == 0);
    } else {
        assert forall|i: int, j: int|
            0 <= i < 81 && 0 <= j < 81 && sees(i, j) && e.cells[i] != 0 && e.cells[j]
                == 0 implies !has_digit(#[trigger] e.cands[j], #[trigger] e.cells[i] as int) by {
            assert(!has_digit(b.cands[j], b.cells[i] as int));
        }
    }
    assert forall|s: Seq<u8>| #[trigger]
        completes(e, s) <==> completes(b, s) && !(b.cells[c] == 0 && s[c] == d) by {
        if completes(e, s) {
            assert forall|i: int| 0 <= i < 81 && b.cells[i] == 0 implies has_digit(
                b.cands[i],
                #[trigger] s[i] as int,
            ) by {
                assert(has_digit(e.cands[i], s[i] as int));
            }
            if b.cells[c] == 0 {
                assert(has_digit(e.cands[c], s[c] as int));
            }
        }
        if completes(b, s) && !(b.cells[c] == 0 && s[c] == d) {
            assert forall|i: int| 0 <= i < 81 && e.cells[i] == 0 implies has_digit(
                e.cands[i],
                #[trigger] s[i] as int,
            ) by {
                assert(has_digit(b.cands[i], s[i] as int));
            }
        }
    }
}

/// Eliminations that no completion contradicts keep a searchable board
/// searchable, and leave its completions as they are.
pub proof fn lemma_eliminate_all_keeps(b: Board, pairs: Seq<(usize, u8)>, n: int)
    requires
        searchable(b),
        pairs_ok(pairs),
        0 <= n <= pairs.len(),
        forall|s: Seq<u8>, k: int|
            #[trigger] completes(b, s) && 0 <= k < pairs.len() ==> s[(#[trigger] pairs[k]).0 as int]
                != pairs[k].1,
    ensures
        searchable(eliminate_all(b, pairs, n)),
        eliminate_all(b, pairs, n).cells == b.cells,
        forall|s: Seq<u8>| #[trigger] completes(eliminate_all(b, pairs, n), s) <==> completes(b, s),
    decreases n,
{
    if n > 0 {
        lemma_eliminate_all_keeps(b, pairs, n - 1);
        let before = eliminate_all(b, pairs, n - 1);
        let c = pairs[n - 1].0 as int;
        let d = pairs[n - 1].1;
        lemma_eliminated_keeps(before, c, d);
        assert forall|s: Seq<u8>| #[trigger]
            completes(eliminate_all(b, pairs, n), s) <==> completes(b, s) by {
            if completes(b, s) {
                assert(s[pairs[n - 1].0 as int] != pairs[n - 1].1);
                assert(completes(before, s));
            }
        }
    }
}

/// Applying a hint with which every completion agrees keeps a searchable
/// board searchable, and leaves its completions as they are.
pub proof fn lemma_applied_keeps(b: Board, h: HintView)
    requires
        searchable(b),
        applicable(b, h),
        one_kind(h),
        forall|s: Seq<u8>| #[trigger] completes(b, s) ==> agrees(h, s),
    ensures
        searchable(applied(b, h)),
        forall|s: Seq<u8>| #[trigger] completes(applied(b, h), s) <==> completes(b, s),
{
    lemma_applied(b, h);
    if h.placements.len() == 1 {
        let c = h.placements[0].0 as int;
        let d = h.placements[0].1;
        assert(b.cand(c, d as int));
        assert(place_all(b, h.placements, 0) == b);
        assert(place_all(b, h.placements, 1) == placed(b, c, d));
        lemma_placed_keeps(b, c, d);
        assert(applied(b, h) == placed(b, c, d));
        assert forall|s: Seq<u8>| #[trigger] completes(applied(b, h), s) <==> completes(b, s) by {
            if completes(b, s) {
                assert(agrees(h, s));
                assert(s[h.placements[0].0 as int] == h.placements[0].1);
            }
        }
    } else {
        assert(place_all(b, h.placements, 0) == b);
        assert forall|s: Seq<u8>, k: int| #[trigger]
            completes(b, s) && 0 <= k < h.eliminations.len() implies s[(
        #[trigger] h.eliminations[k]).0 as int] != h.eliminations[k].1 by {
            assert(agrees(h, s));
        }
        lemma_eliminate_all_keeps(b, h.eliminations, h.eliminations.len() as int);
    }
}

/// The board has exactly one completion.
pub open spec fn sole_completion(b: Board) -> bool {
    exists|s: Seq<u8>| #[trigger] completes(b, s) && forall|t: Seq<u8>| #[trigger]
        completes(b, t) ==> t == s
}

/// A run that ends solved, from a searchable board, shows that the board has
/// exactly one completion: every hint on the way agreed with every
/// completion, and the solved board is a completion.
pub proof fn lemma_run_unique(b: Board, done: Progress)
    requires
        searchable(b),
        run(b, done).1,
    ensures
        sole_completion(b),
    decreases effort(b),
{
    if b.solved() {
        if dead(b) {
            let z = choose|z: int| 0 <= z < 81 && b.cells[z] == 0 && #[trigger] b.cands[z] == 0;
            assert(b.cells[z] != 0);
        }
        lemma_solved_board(b);
        assert(completes(b, b.cells));
    } else {
        let h = hint_of(b)->0;
        lemma_hint_sound(b, h);
        lemma_applied(b, h);
        assert forall|s: Seq<u8>| #[trigger] completes(b, s) implies agrees(h, s) by {
            if dead(b) {
                lemma_dead_no_completion(b, s);
            }
        }
        lemma_applied_keeps(b, h);
        let next = applied(b, h);
        lemma_run_unique(next, done.with_step(technique_of(h)));
        let s = choose|s: Seq<u8>| #[trigger] completes(next, s) && forall|t: Seq<u8>| #[trigger]
            completes(next, t) ==> t == s;
        assert(completes(b, s));
        assert forall|t: Seq<u8>| #[trigger] completes(b, t) implies t == s by {
            assert(completes(next, t));
        }
    }
}

/// A puzzle in which no two peers hold the same digit and which the
/// techniques solve has exactly one solution.
pub proof fn lemma_solved_by_techniques(cells: Seq<u8>)
    requires
        cells.len() == 81,
        forall|i: int| 0 <= i < 81 ==> #[trigger] cells[i] <= 9,
        consistent(cells),
        outcome(cells).1,
    ensures
        uniquely_solvable(cells),
{
    let b = refreshed(cells);
    lemma_refreshed(cells);
    lemma_run_unique(b, Progress::start());
    let s = choose|s: Seq<u8>| #[trigger] completes(b, s) && forall|t: Seq<u8>| #[trigger]
        completes(b, t) ==> t == s;
    lemma_refreshed_completions(cells, s);
    assert forall|t: Seq<u8>| #[trigger] solves(cells, t) implies t == s by {
        lemma_refreshed_completions(cells, t);
    }
    assert(only_solution(cells, s));
}

} // verus!
