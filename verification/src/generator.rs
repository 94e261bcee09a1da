//! The puzzle generator: a random solved grid is stripped to a baseline of
//! clues and then changed clue by clue toward a target difficulty, always
//! keeping the puzzle uniquely solvable.

use vstd::prelude::*;
use crate::bits::FULL;
use crate::units::{
    box_of, cell_at, lemma_cell_at, lemma_place_in, place_in, sees, SIZE, unit_cell,
};
use crate::deduce::lemma_unit_covers;
use crate::grid::{blank, Board, canonical, emit, Grid, lemma_emit_parse, lemma_parse_emit, parse};
use crate::solver::{
    check_uniqueness_after_removal, consistent, refreshed, search, solve, solves, tally,
    valid_solution,
};
use crate::solutions::{
    keeps_unique, lemma_add_clue, lemma_counts_one, lemma_full_unique, lemma_remove_clue,
    lemma_solver_decides, lemma_solves_consistent, only_solution, uniquely_solvable,
};
use crate::difficulty::{evaluate_difficulty, outcome};

verus! {

/// `SmallRng` of `rand`: a source of random numbers, opaque to the proofs.
#[verifier::external_type_specification]
#[verifier::external_body]
pub struct ExSmallRng(rand::rngs::SmallRng);

/// `SeedableRng::seed_from_u64` of `rand`, for `SmallRng`: the generator
/// that the seed determines. Nothing is claimed of it.
#[verifier::external_body]
fn rng_from_seed(seed: u64) -> rand::rngs::SmallRng {
    rand::SeedableRng::seed_from_u64(seed)
}

/// `SliceRandom::shuffle` of `rand`: reorders the items in place by swaps,
/// so the items after the call are the items before it in some order.
#[verifier::external_body]
fn shuffle<T>(rng: &mut rand::rngs::SmallRng, items: &mut Vec<T>)
    ensures
        final(items)@.to_multiset() == old(items)@.to_multiset(),
{
    rand::seq::SliceRandom::shuffle(items.as_mut_slice(), rng)
}

/// `SliceRandom::choose` of `rand`: none for an empty list, otherwise one of
/// the items.
#[verifier::external_body]
fn pick(rng: &mut rand::rngs::SmallRng, items: &Vec<usize>) -> (r: Option<usize>)
    ensures
        items.len() == 0 ==> r is None,
        items.len() > 0 ==> r is Some && items@.contains(r->0),
{
    rand::seq::SliceRandom::choose(items.as_slice(), rng).copied()
}

/// The target score and the tolerance of a difficulty category; those of
/// `basic` for a name that is no category.
pub open spec fn target_of(category: Seq<char>) -> (i32, i32) {
    if category == "trivial"@ {
        (4, 4)
    } else if category == "basic"@ {
        (17, 8)
    } else if category == "intermediate"@ {
        (36, 10)
    } else if category == "tough"@ {
        (56, 12)
    } else if category == "diabolical"@ {
        (76, 8)
    } else if category == "extreme"@ {
        (88, 4)
    } else if category == "master"@ {
        (94, 2)
    } else if category == "grandmaster"@ {
        (98, 1)
    } else {
        (17, 8)
    }
}

/// Whether `text` is the word `word`.
fn is_word(text: &String, word: &str) -> (r: bool)
    ensures
        r == (text@ == word@),
{
    let w = word.to_owned();
    *text == w
}

/// Looks up the target score and the tolerance of a difficulty category.
pub fn category_target(category: &str) -> (r: (i32, i32))
    ensures
        r == target_of(category@),
        4 <= r.0 <= 98,
        1 <= r.1 <= 12,
{
    let c = category.to_owned();
    if is_word(&c, "trivial") {
        (4, 4)
    } else if is_word(&c, "basic") {
        (17, 8)
    } else if is_word(&c, "intermediate") {
        (36, 10)
    } else if is_word(&c, "tough") {
        (56, 12)
    } else if is_word(&c, "diabolical") {
        (76, 8)
    } else if is_word(&c, "extreme") {
        (88, 4)
    } else if is_word(&c, "master") {
        (94, 2)
    } else if is_word(&c, "grandmaster") {
        (98, 1)
    } else {
        (17, 8)
    }
}

/// The distance between two numbers.
pub open spec fn distance(a: int, b: int) -> int {
    if a >= b {
        a - b
    } else {
        b - a
    }
}

/// The distance between a score and a target.
pub fn gap(score: i32, target: i32) -> (r: i32)
    requires
        1 <= score <= 100,
        0 <= target <= 100,
    ensures
        r == distance(score as int, target as int),
        0 <= r <= 100,
{
    if score >= target {
        score - target
    } else {
        target - score
    }
}

/// The list is the digits 1 to 9 in some order.
pub open spec fn is_permutation(digits: Seq<u8>) -> bool {
    &&& digits.len() == 9
    &&& digits.no_duplicates()
    &&& forall|k: int| 0 <= k < 9 ==> 1 <= #[trigger] digits[k] <= 9
}

/// The digits 1 to 9 in ascending order.
pub open spec fn ascending() -> Seq<u8> {
    seq![1u8, 2u8, 3u8, 4u8, 5u8, 6u8, 7u8, 8u8, 9u8]
}

/// A list with the same items as the digits 1 to 9 is a permutation of them.
pub proof fn lemma_shuffled_digits(digits: Seq<u8>)
    requires
        digits.to_multiset() == ascending().to_multiset(),
    ensures
        is_permutation(digits),
{
    broadcast use vstd::seq_lib::group_to_multiset_ensures;

    let base = ascending();
    assert(base.no_duplicates());
    base.lemma_multiset_has_no_duplicates();
    digits.lemma_multiset_has_no_duplicates_conv();
    assert(digits.len() == digits.to_multiset().len());
    assert(base.len() == base.to_multiset().len());
    assert forall|k: int| 0 <= k < 9 implies 1 <= #[trigger] digits[k] <= 9 by {
        assert(digits.contains(digits[k]));
        assert(digits.to_multiset().count(digits[k]) > 0);
        assert(base.contains(digits[k]));
        let j = choose|j: int| 0 <= j < base.len() && base[j] == digits[k];
        assert(1 <= base[j] <= 9);
    }
}

/// The cells, in ascending order, whose emptiness is `empty`, but for the
/// cell `skip`.
pub open spec fn cells_where(cells: Seq<u8>, empty: bool, skip: int, n: int) -> Seq<usize>
    decreases n,
{
    if n <= 0 {
        Seq::empty()
    } else if (cells[n - 1] == 0) == empty && n - 1 != skip {
        cells_where(cells, empty, skip, n - 1).push((n - 1) as usize)
    } else {
        cells_where(cells, empty, skip, n - 1)
    }
}

/// Every listed cell is on the board, has the asked emptiness, and is not
/// the skipped cell.
pub proof fn lemma_cells_where(cells: Seq<u8>, empty: bool, skip: int, n: int)
    requires
        0 <= n <= 81,
    ensures
        forall|k: int|
            0 <= k < cells_where(cells, empty, skip, n).len() ==> (#[trigger] cells_where(
                cells,
                empty,
                skip,
                n,
            )[k]) < n && (cells[cells_where(cells, empty, skip, n)[k] as int] == 0) == empty
                && cells_where(cells, empty, skip, n)[k] != skip,
    decreases n,
{
    if n > 0 {
        lemma_cells_where(cells, empty, skip, n - 1);
        let prev = cells_where(cells, empty, skip, n - 1);
        let all = cells_where(cells, empty, skip, n);
        assert forall|k: int| 0 <= k < all.len() implies (#[trigger] all[k]) < n && (cells[all[k] as int]
            == 0) == empty && all[k] != skip by {
            if k < prev.len() {
                assert(all[k] == prev[k]);
            } else {
                assert(all[k] == (n - 1) as usize);
            }
        }
    }
}

/// Lists the empty cells of a grid (`empty`) or its clues (not `empty`) in
/// ascending order, leaving out the cell `skip`; 81 skips none.
pub fn list_cells(grid: &Grid, empty: bool, skip: usize) -> (r: Vec<usize>)
    ensures
        r@ == cells_where(grid@.cells, empty, skip as int, 81),
{
    let mut r: Vec<usize> = Vec::new();
    for i in 0..SIZE
        invariant
            r@ == cells_where(grid@.cells, empty, skip as int, i as int),
    {
        if (grid.values[i] == 0) == empty && i != skip {
            r.push(i);
        }
    }
    r
}

/// The cells of a grid whose three diagonal boxes hold the given digits, in
/// the order of the cells of each box, and whose other cells are empty.
pub open spec fn diagonal_cells(d0: Seq<u8>, d1: Seq<u8>, d2: Seq<u8>) -> Seq<u8> {
    Seq::new(
        81,
        |c: int|
            if box_of(c) == 0 {
                d0[place_in(18, c)]
            } else if box_of(c) == 4 {
                d1[place_in(22, c)]
            } else if box_of(c) == 8 {
                d2[place_in(26, c)]
            } else {
                0u8
            },
    )
}

/// The candidate masks of a grid whose diagonal boxes were just filled: none
/// in those boxes, all nine digits elsewhere.
pub open spec fn diagonal_masks() -> Seq<u16> {
    Seq::new(
        81,
        |c: int|
            if box_of(c) == 0 || box_of(c) == 4 || box_of(c) == 8 {
                0u16
            } else {
                FULL
            },
    )
}

/// Two cells of diagonal boxes that see each other lie in the same box, at
/// different positions.
pub proof fn lemma_diagonal_peers(i: int, j: int)
    requires
        0 <= i < 81,
        0 <= j < 81,
        sees(i, j),
        box_of(i) == 0 || box_of(i) == 4 || box_of(i) == 8,
        box_of(j) == 0 || box_of(j) == 4 || box_of(j) == 8,
    ensures
        box_of(i) == box_of(j),
        place_in(18 + box_of(i), i) != place_in(18 + box_of(j), j),
{
    let (bi, si) = (i / 27, (i % 9) / 3);
    let (bj, sj) = (j / 27, (j % 9) / 3);
    assert(bi == si && bj == sj);
    assert(i / 9 == j / 9 ==> bi == bj);
    assert(i % 9 == j % 9 ==> si == sj);
    assert(box_of(i) == box_of(j));
    lemma_place_in(18 + box_of(i), i);
    lemma_place_in(18 + box_of(j), j);
}

/// Three permutations in the diagonal boxes never put the same digit on two
/// cells that see each other.
pub proof fn lemma_diagonal_consistent(d0: Seq<u8>, d1: Seq<u8>, d2: Seq<u8>)
    requires
        is_permutation(d0),
        is_permutation(d1),
        is_permutation(d2),
    ensures
        consistent(diagonal_cells(d0, d1, d2)),
        forall|i: int| 0 <= i < 81 ==> #[trigger] diagonal_cells(d0, d1, d2)[i] <= 9,
{
    let cells = diagonal_cells(d0, d1, d2);
    assert forall|i: int| 0 <= i < 81 implies #[trigger] cells[i] <= 9 by {
        lemma_place_in(18 + box_of(i), i);
    }
    assert forall|i: int, j: int|
        0 <= i < 81 && 0 <= j < 81 && sees(i, j) && cells[i] != 0 implies #[trigger] cells[i]
        != #[trigger] cells[j] by {
        if cells[j] != 0 {
            lemma_diagonal_peers(i, j);
            lemma_place_in(18 + box_of(i), i);
            lemma_place_in(18 + box_of(j), j);
        }
    }
}

/// Builds the grid whose three diagonal boxes hold the given digits.
pub fn seed_grid(d0: &Vec<u8>, d1: &Vec<u8>, d2: &Vec<u8>) -> (g: Grid)
    requires
        d0.len() == 9,
        d1.len() == 9,
        d2.len() == 9,
    ensures
        g@.cells == diagonal_cells(d0@, d1@, d2@),
        g@.cands == diagonal_masks(),
{
    let mut grid = Grid::new();
    for k in 0..9usize
        invariant
            d0.len() == 9,
            d1.len() == 9,
            d2.len() == 9,
            grid@.cells.len() == 81,
            grid@.cands.len() == 81,
            forall|c: int|
                0 <= c < 81 ==> #[trigger] grid@.cands[c] == (if place_in(18 + box_of(c), c) < k {
                    diagonal_masks()[c]
                } else {
                    FULL
                }),
            forall|c: int|
                0 <= c < 81 ==> #[trigger] grid@.cells[c] == (if place_in(18 + box_of(c), c) < k {
                    diagonal_cells(d0@, d1@, d2@)[c]
                } else {
                    0u8
                }),
    {
        let ghost before = grid@.cells;
        let ghost masks = grid@.cands;
        let c0 = unit_cell(18, k);
        let c1 = unit_cell(22, k);
        let c2 = unit_cell(26, k);
        grid.set_value(c0, d0[k]);
        grid.set_value(c1, d1[k]);
        grid.set_value(c2, d2[k]);
        proof {
            assert forall|c: int| 0 <= c < 81 implies #[trigger] grid@.cells[c] == (if place_in(
                18 + box_of(c),
                c,
            ) < k + 1 {
                diagonal_cells(d0@, d1@, d2@)[c]
            } else {
                0u8
            }) by {
                lemma_place_in(18 + box_of(c), c);
                assert(before[c] == (if place_in(18 + box_of(c), c) < k {
                    diagonal_cells(d0@, d1@, d2@)[c]
                } else {
                    0u8
                }));
            }
            assert forall|c: int| 0 <= c < 81 implies #[trigger] grid@.cands[c] == (if place_in(
                18 + box_of(c),
                c,
            ) < k + 1 {
                diagonal_masks()[c]
            } else {
                FULL
            }) by {
                lemma_place_in(18 + box_of(c), c);
                assert(masks[c] == (if place_in(18 + box_of(c), c) < k {
                    diagonal_masks()[c]
                } else {
                    FULL
                }));
            }
        }
    }
    assert(grid@.cands =~= diagonal_masks()) by {
        assert forall|c: int| 0 <= c < 81 implies grid@.cands[c] == diagonal_masks()[c] by {
            lemma_place_in(18 + box_of(c), c);
        }
    }
    assert(grid@.cells =~= diagonal_cells(d0@, d1@, d2@)) by {
        assert forall|c: int| 0 <= c < 81 implies grid@.cells[c] == diagonal_cells(d0@, d1@, d2@)[c] by {
            lemma_place_in(18 + box_of(c), c);
        }
    }
    grid
}


/// The puzzle is on its way: its cells are in range, and `full` is its one
/// solution.
pub open spec fn on_track(g: Board, full: Seq<u8>) -> bool {
    g.cells_ok() && only_solution(g.cells, full)
}

/// A puzzle with one solution has cells in range.
pub proof fn lemma_on_track(g: Board, full: Seq<u8>)
    requires
        g.cells.len() == 81,
        g.cands.len() == 81,
        only_solution(g.cells, full),
    ensures
        on_track(g, full),
        uniquely_solvable(g.cells),
{
    lemma_solves_consistent(g.cells, full);
}

/// Writes the digit that `full` has at `idx` into a copy of the grid.
pub fn add_clue(grid: &Grid, full: &Grid, idx: usize) -> (r: Grid)
    requires
        idx < 81,
    ensures
        r@ == grid@.with_value(idx as int, full@.cells[idx as int]),
        on_track(grid@, full@.cells) ==> on_track(r@, full@.cells),
{
    let mut next = *grid;
    next.set_value(idx, full.values[idx]);
    proof {
        if on_track(grid@, full@.cells) {
            lemma_add_clue(grid@.cells, full@.cells, idx as int);
            lemma_on_track(next@, full@.cells);
        }
    }
    next
}

/// Blanks the clue at `idx` in a copy of the grid, and returns the copy if
/// the test made after a removal succeeds.
pub fn remove_clue(grid: &Grid, idx: usize) -> (r: Option<Grid>)
    requires
        grid@.cells_ok(),
        idx < 81,
        grid@.cells[idx as int] != 0,
    ensures
        r is Some <==> keeps_unique(
            grid@.cells.update(idx as int, 0u8),
            idx as int,
            grid@.cells[idx as int],
        ),
        r matches Some(g) ==> g@ == grid@.with_value(idx as int, 0u8),
        forall|full: Seq<u8>| #[trigger]
            on_track(grid@, full) ==> (r matches Some(g) ==> on_track(g@, full)),
{
    let val = grid.values[idx];
    let mut next = *grid;
    next.set_value(idx, 0);
    if check_uniqueness_after_removal(&next, idx, val) {
        proof {
            assert forall|full: Seq<u8>| #[trigger] on_track(grid@, full) implies on_track(
                next@,
                full,
            ) by {
                lemma_remove_clue(grid@.cells, full, idx as int);
                lemma_on_track(next@, full);
            }
        }
        Some(next)
    } else {
        None
    }
}

/// The cells and the number of clues after the first `n` cells of `order`
/// were tried: while more than `target` clues are left, a cell is blanked
/// if the test made after its removal succeeds.
pub open spec fn stripped(cells: Seq<u8>, order: Seq<usize>, target: int, n: int) -> (Seq<u8>, int)
    decreases n,
{
    if n <= 0 {
        (cells, 81)
    } else {
        let before = stripped(cells, order, target, n - 1);
        let cell = order[n - 1] as int;
        if before.1 > target && keeps_unique(before.0.update(cell, 0u8), cell, before.0[cell]) {
            (before.0.update(cell, 0u8), before.1 - 1)
        } else {
            before
        }
    }
}

/// Strips a solved grid of clues: the cells are tried in the given order,
/// and a clue is removed if the puzzle stays uniquely solvable, until only
/// `target_clues` are left or every cell was tried.
pub fn strip_clues(full: &Grid, order: &Vec<usize>, target_clues: usize) -> (r: Grid)
    requires
        full@.wf(),
        full@.solved(),
        order@.no_duplicates(),
        forall|k: int| 0 <= k < order.len() ==> #[trigger] order[k] < 81,
    ensures
        r@.cells == stripped(full@.cells, order@, target_clues as int, order.len() as int).0,
        r@.cands == full@.cands,
        valid_solution(full@.cells) ==> on_track(r@, full@.cells),
{
    let mut current_grid = *full;
    let mut current_clues: usize = SIZE;
    proof {
        if valid_solution(full@.cells) {
            lemma_full_unique(full@.cells);
        }
    }
    for n in 0..order.len()
        invariant
            full@.wf(),
            full@.solved(),
            order@.no_duplicates(),
            forall|k: int| 0 <= k < order.len() ==> #[trigger] order[k] < 81,
            (current_grid@.cells, current_clues as int) == stripped(
                full@.cells,
                order@,
                target_clues as int,
                n as int,
            ),
            current_grid@.cands == full@.cands,
            current_grid@.cells_ok(),
            current_clues <= 81,
            forall|k: int|
                n <= k < order.len() ==> current_grid@.cells[#[trigger] order[k] as int]
                    == full@.cells[order[k] as int],
            valid_solution(full@.cells) ==> on_track(current_grid@, full@.cells),
    {
        if current_clues > target_clues {
            let cell = order[n];
            assert(current_grid@.cells[order[n as int] as int] == full@.cells[cell as int]);
            assert(full@.cells[cell as int] != 0);
            match remove_clue(&current_grid, cell) {
                Some(next) => {
                    proof {
                        assert(next@.cands =~= full@.cands);
                        assert forall|k: int| n + 1 <= k < order.len() implies next@.cells[
                        #[trigger] order[k] as int] == full@.cells[order[k] as int] by {
                            assert(order[k] != order[n as int]);
                        }
                    }
                    current_grid = next;
                    current_clues = current_clues - 1;
                },
                None => {},
            }
        }
    }
    current_grid
}

/// The list holds each of the 81 cells once.
pub open spec fn is_order(order: Seq<usize>) -> bool {
    &&& order.len() == 81
    &&& order.no_duplicates()
    &&& forall|k: int| 0 <= k < 81 ==> #[trigger] order[k] < 81
}

/// The baseline `r` of the solved grid `full` for the order in which the
/// cells were tried: the clues are stripped in that order down to 24, and
/// the candidate masks stay as they are.
pub open spec fn baseline_for(full: Board, order: Seq<usize>, r: Board) -> bool {
    &&& is_order(order)
    &&& r.cells == stripped(full.cells, order, 24, 81).0
    &&& r.cands == full.cands
}

/// The solver's result `r` on the grid whose diagonal boxes hold the three
/// lists, each a permutation of the digits.
pub open spec fn found_from(d0: Seq<u8>, d1: Seq<u8>, d2: Seq<u8>, r: Option<Grid>) -> bool {
    &&& is_permutation(d0)
    &&& is_permutation(d1)
    &&& is_permutation(d2)
    &&& match r {
        Some(g) => search(refreshed(diagonal_cells(d0, d1, d2))) == Some(g@),
        None => search(refreshed(diagonal_cells(d0, d1, d2))) is None,
    }
}

/// Where a neighbor of a puzzle is looked for: the puzzle, its solution, its
/// distance from the target, whether it is too hard, and the target.
pub struct Site {
    pub cur: Board,
    pub full: Seq<u8>,
    pub gap: int,
    pub too_hard: bool,
    pub target: int,
}

/// A puzzle with its score.
pub open spec fn scored(b: Board) -> (Board, int) {
    (b, outcome(b.cells).0)
}

/// The pick is one of the items, or none where there is no item.
pub open spec fn picked_from(list: Seq<usize>, pick: Option<usize>) -> bool {
    match pick {
        Some(x) => list.contains(x),
        None => list.len() == 0,
    }
}

/// The first item, or none where there is no item.
pub open spec fn first_pick(list: Seq<usize>) -> Option<usize> {
    if list.len() == 0 {
        None
    } else {
        Some(list[0])
    }
}

/// The first move of an attempt, for the cell picked. A puzzle that is too
/// hard gets the solution's digit there. One that is too easy loses its clue
/// there, and the attempt ends if the puzzle does not stay uniquely solvable.
/// Without a cell to pick the puzzle stays as it is.
pub open spec fn first_move(site: Site, pick: Option<usize>) -> Option<Board> {
    match pick {
        None => Some(site.cur),
        Some(idx) => if site.too_hard {
            Some(site.cur.with_value(idx as int, site.full[idx as int]))
        } else if keeps_unique(
            site.cur.cells.update(idx as int, 0u8),
            idx as int,
            site.cur.cells[idx as int],
        ) {
            Some(site.cur.with_value(idx as int, 0u8))
        } else {
            None
        },
    }
}

/// The swap move: the neighbor gets the solution's digit at `add` and loses
/// its clue at `rem`, if it stays uniquely solvable.
pub open spec fn swap_move(next: Board, full: Seq<u8>, add: usize, rem: usize) -> Option<Board> {
    let more = next.with_value(add as int, full[add as int]);
    if keeps_unique(more.cells.update(rem as int, 0u8), rem as int, more.cells[rem as int]) {
        Some(more.with_value(rem as int, 0u8))
    } else {
        None
    }
}

/// The clues that the swap move picks from: those of the neighbor with one
/// more clue at `add`, but for `add`. Empty where there is no neighbor or no
/// cell to add a clue at.
pub open spec fn swap_clues(site: Site, first: Option<usize>, add: Option<usize>) -> Seq<usize> {
    match (first_move(site, first), add) {
        (Some(next), Some(a)) => cells_where(
            next.with_value(a as int, site.full[a as int]).cells,
            false,
            a as int,
            81,
        ),
        _ => Seq::empty(),
    }
}

/// The neighbor that attempt number `n` accepts, with its score, for the
/// three cells picked. The neighbor of the first move is accepted if it is
/// closer to the target than the puzzle. Otherwise, from the eleventh
/// attempt on, the neighbor of the swap move is accepted if it is at most 2
/// further from the target than the puzzle.
pub open spec fn attempt_with(
    site: Site,
    n: int,
    first: Option<usize>,
    add: Option<usize>,
    rem: Option<usize>,
) -> Option<(Board, int)> {
    match first_move(site, first) {
        None => None,
        Some(next) => if distance(outcome(next.cells).0, site.target) < site.gap {
            Some(scored(next))
        } else if n > 10 && add is Some && rem is Some {
            match swap_move(next, site.full, add->0, rem->0) {
                Some(swapped) => if distance(outcome(swapped.cells).0, site.target) <= site.gap + 2 {
                    Some(scored(swapped))
                } else {
                    None
                },
                None => None,
            }
        } else {
            None
        },
    }
}

/// Attempt number `n` gives `r` for the three cells picked: the first among
/// the empty cells of a puzzle that is too hard, or the clues of one that is
/// too easy; the second among the empty cells of the puzzle; the third among
/// the clues that the swap move picks from.
pub open spec fn tried(
    site: Site,
    n: int,
    first: Option<usize>,
    add: Option<usize>,
    rem: Option<usize>,
    r: Option<(Board, int)>,
) -> bool {
    &&& picked_from(cells_where(site.cur.cells, site.too_hard, 81, 81), first)
    &&& picked_from(cells_where(site.cur.cells, true, 81, 81), add)
    &&& picked_from(swap_clues(site, first, add), rem)
    &&& r == attempt_with(site, n, first, add, rem)
}

/// Attempt number `n` gives `r` for some cells that can be picked.
pub open spec fn attempted(site: Site, n: int, r: Option<(Board, int)>) -> bool {
    exists|first: Option<usize>, add: Option<usize>, rem: Option<usize>| #[trigger]
        tried(site, n, first, add, rem, r)
}

/// The attempts up to number `k` accept nothing.
pub open spec fn failed_upto(site: Site, k: int) -> bool {
    forall|m: int| 1 <= m <= k ==> #[trigger] attempted(site, m, None)
}

/// The outcome of up to 20 attempts: the neighbor that the first successful
/// attempt accepts, or none where all 20 accept nothing.
pub open spec fn improved(site: Site, r: Option<(Board, int)>) -> bool {
    if r is Some {
        exists|n: int| 1 <= n <= 20 && #[trigger] attempted(site, n, r) && failed_upto(site, n - 1)
    } else {
        failed_upto(site, 20)
    }
}

/// The site of a puzzle with its score.
pub open spec fn site_of(state: (Board, int), full: Seq<u8>, target: int) -> Site {
    Site {
        cur: state.0,
        full,
        gap: distance(state.1, target),
        too_hard: state.1 > target,
        target,
    }
}

/// Step `i` of a climb: the puzzle is outside the tolerance, and the next
/// puzzle is the neighbor that the attempts accept, or the same puzzle where
/// they accept nothing.
pub open spec fn step_ok(
    path: Seq<(Board, int)>,
    i: int,
    full: Seq<u8>,
    target: int,
    tolerance: int,
) -> bool {
    &&& distance(path[i].1, target) > tolerance
    &&& improved(site_of(path[i], full, target), Some(path[i + 1])) || (improved(
        site_of(path[i], full, target),
        None,
    ) && path[i + 1] == path[i])
}

/// The closest puzzle and its distance from the target after the first `n`
/// puzzles of the path were looked at: a puzzle replaces the closest so far
/// if it is closer.
pub open spec fn closest(best: Board, best_gap: int, path: Seq<(Board, int)>, target: int, n: int) -> (
    Board,
    int,
)
    decreases n,
{
    if n <= 0 {
        (best, best_gap)
    } else {
        let before = closest(best, best_gap, path, target, n - 1);
        if distance(path[n - 1].1, target) < before.1 {
            (path[n - 1].0, distance(path[n - 1].1, target))
        } else {
            before
        }
    }
}

/// What two paths with the same first `n` puzzles track is the same.
pub proof fn lemma_closest_prefix(
    best: Board,
    best_gap: int,
    p: Seq<(Board, int)>,
    q: Seq<(Board, int)>,
    target: int,
    n: int,
)
    requires
        forall|i: int| 0 <= i < n ==> p[i] == q[i],
    ensures
        closest(best, best_gap, p, target, n) == closest(best, best_gap, q, target, n),
    decreases n,
{
    if n > 0 {
        lemma_closest_prefix(best, best_gap, p, q, target, n - 1);
    }
}

/// The outcome of a climb along `path`, the puzzles of its steps with their
/// scores. The path starts at `start`, and each step but the last leads to
/// the next. Where the climb returns a puzzle, that is the last of the path,
/// it is within the tolerance, and at most 49 steps led to it. Where it
/// returns none, 50 steps were made. Either way the closest puzzle is
/// kept over the puzzles that a step was made from.
pub open spec fn climb_along(
    start: Board,
    full: Seq<u8>,
    target: int,
    tolerance: int,
    best: (Board, int),
    path: Seq<(Board, int)>,
    r: Option<Board>,
    best_after: (Board, int),
) -> bool {
    &&& path.len() >= 1
    &&& path[0] == scored(start)
    &&& forall|i: int| 0 <= i < path.len() - 1 ==> #[trigger] step_ok(path, i, full, target, tolerance)
    &&& best_after == closest(best.0, best.1, path, target, path.len() - 1)
    &&& match r {
        Some(g) => path.len() <= 50 && g == path.last().0 && distance(path.last().1, target)
            <= tolerance,
        None => path.len() == 51,
    }
}

/// The model of an optional puzzle with its score.
pub open spec fn found_view(r: Option<(Grid, i32)>) -> Option<(Board, int)> {
    match r {
        Some(found) => Some((found.0@, found.1 as int)),
        None => None,
    }
}

/// The model of an optional grid.
pub open spec fn grid_view(r: Option<Grid>) -> Option<Board> {
    match r {
        Some(g) => Some(g@),
        None => None,
    }
}

/// The first pick of a list is picked from it.
pub proof fn lemma_first_pick(list: Seq<usize>)
    ensures
        picked_from(list, first_pick(list)),
{
    if list.len() > 0 {
        assert(list[0] == list[0]);
    }
}

/// What one round did: the permutations in the diagonal boxes, the solved
/// grid that the solver found for them if any, the order in which the cells
/// were tried for the baseline, the baseline, the puzzles of the climb with
/// their scores, and the puzzle that the climb returned if any.
pub struct Round {
    pub d0: Seq<u8>,
    pub d1: Seq<u8>,
    pub d2: Seq<u8>,
    pub full: Option<Board>,
    pub order: Seq<usize>,
    pub start: Board,
    pub path: Seq<(Board, int)>,
    pub found: Option<Board>,
}

/// The closest puzzle and its distance from the target after a round that
/// began with `best`: as it was where the round found no solved grid, and
/// else as the climb leaves it.
pub open spec fn round_best(rd: Round, target: int, best: (Board, int)) -> (Board, int) {
    if rd.full is Some {
        closest(best.0, best.1, rd.path, target, rd.path.len() - 1)
    } else {
        best
    }
}

/// The round is one that can be played from `best`: the solver ran on three
/// permutations in the diagonal boxes; where it found nothing the round
/// returns nothing; otherwise the solved grid was stripped to the baseline
/// in some order of the cells, and the climb went from the baseline.
pub open spec fn round_ok(rd: Round, target: int, tolerance: int, best: (Board, int)) -> bool {
    &&& is_permutation(rd.d0)
    &&& is_permutation(rd.d1)
    &&& is_permutation(rd.d2)
    &&& rd.full == search(refreshed(diagonal_cells(rd.d0, rd.d1, rd.d2)))
    &&& match rd.full {
        None => rd.found is None,
        Some(full) => baseline_for(full, rd.order, rd.start) && climb_along(
            rd.start,
            full.cells,
            target,
            tolerance,
            best,
            rd.path,
            rd.found,
            round_best(rd, target, best),
        ),
    }
}

/// The closest puzzle and its distance from the target before round `k`:
/// the empty grid at distance 100 before the first round.
pub open spec fn best_before(rounds: Seq<Round>, target: int, k: int) -> (Board, int)
    decreases k,
{
    if k <= 0 {
        (blank(), 100)
    } else {
        round_best(rounds[k - 1], target, best_before(rounds, target, k - 1))
    }
}

/// Round `k` can be played from the closest puzzle before it.
pub open spec fn round_at(rounds: Seq<Round>, k: int, target: int, tolerance: int) -> bool {
    round_ok(rounds[k], target, tolerance, best_before(rounds, target, k))
}

/// The cells that the generator returns after the given rounds, for a
/// target and a tolerance. There are at most 20 rounds, and only the last
/// may return a puzzle. Where it does, that puzzle is returned, and its
/// score is within the tolerance of the target. Where it does not, 20
/// rounds were played, and the closest puzzle after them is returned.
pub open spec fn generated(target: int, tolerance: int, rounds: Seq<Round>, cells: Seq<u8>) -> bool {
    &&& 1 <= rounds.len() <= 20
    &&& forall|k: int| 0 <= k < rounds.len() ==> #[trigger] round_at(rounds, k, target, tolerance)
    &&& forall|k: int| 0 <= k < rounds.len() - 1 ==> (#[trigger] rounds[k]).found is None
    &&& match rounds.last().found {
        Some(g) => cells == g.cells && distance(outcome(g.cells).0, target) <= tolerance,
        None => rounds.len() == 20 && cells == best_before(rounds, target, 20).0.cells,
    }
}

/// What two lists with the same first `k` rounds hold as the closest puzzle
/// before round `k` is the same.
pub proof fn lemma_best_prefix(p: Seq<Round>, q: Seq<Round>, target: int, k: int)
    requires
        forall|i: int| 0 <= i < k ==> p[i] == q[i],
    ensures
        best_before(p, target, k) == best_before(q, target, k),
    decreases k,
{
    if k > 0 {
        lemma_best_prefix(p, q, target, k - 1);
    }
}

/// The empty grid has more than one solution: in any solution the digits 1
/// and 2 can change places.
pub proof fn lemma_blank_ambiguous()
    ensures
        !uniquely_solvable(blank().cells),
{
    if uniquely_solvable(blank().cells) {
        let full = choose|s: Seq<u8>| #[trigger] only_solution(blank().cells, s);
        let other = Seq::new(
            81,
            |i: int|
                if full[i] == 1 {
                    2u8
                } else if full[i] == 2 {
                    1u8
                } else {
                    full[i]
                },
        );
        assert forall|i: int, j: int| 0 <= i < 81 && 0 <= j < 81 && sees(i, j) implies #[trigger] other[i]
            != #[trigger] other[j] by {
            assert(full[i] != full[j]);
        }
        assert(valid_solution(other));
        assert(solves(blank().cells, other));
        let k = lemma_unit_covers(full, 0, 1);
        lemma_cell_at(0, k);
        assert(other[cell_at(0, k)] == 2);
    }
}

/// The source of random choices of the generator.
pub struct Generator {
    rng: rand::rngs::SmallRng,
}

impl Generator {
    /// A generator whose choices are determined by the seed.
    pub fn new_with_seed(seed: u64) -> Generator {
        Generator { rng: rng_from_seed(seed) }
    }

    /// The source that the generator draws its choices from.
    pub closed spec fn source(&self) -> rand::rngs::SmallRng {
        self.rng
    }

    /// A generator that draws its choices from the given source.
    pub fn with_rng(rng: rand::rngs::SmallRng) -> (g: Generator)
        ensures
            g.source() == rng,
    {
        Generator { rng }
    }

    /// The digits 1 to 9 in a random order.
    pub fn shuffled_digits(&mut self) -> (r: Vec<u8>)
        ensures
            is_permutation(r@),
    {
        let mut digits: Vec<u8> = vec![1u8, 2u8, 3u8, 4u8, 5u8, 6u8, 7u8, 8u8, 9u8];
        assert(digits@ =~= ascending());
        shuffle(&mut self.rng, &mut digits);
        proof {
            lemma_shuffled_digits(digits@);
        }
        digits
    }

    /// The 81 cells in a random order.
    pub fn shuffled_cells(&mut self) -> (r: Vec<usize>)
        ensures
            r@.no_duplicates(),
            r@.len() == 81,
            forall|k: int| 0 <= k < r.len() ==> #[trigger] r[k] < 81,
    {
        let mut cells: Vec<usize> = Vec::new();
        for i in 0..SIZE
            invariant
                cells@.len() == i,
                forall|k: int| 0 <= k < i ==> #[trigger] cells@[k] == k,
        {
            cells.push(i);
        }
        let ghost base = cells@;
        assert(base.no_duplicates());
        shuffle(&mut self.rng, &mut cells);
        proof {
            broadcast use vstd::seq_lib::group_to_multiset_ensures;

            base.lemma_multiset_has_no_duplicates();
            cells@.lemma_multiset_has_no_duplicates_conv();
            assert(cells@.len() == cells@.to_multiset().len());
            assert(base.len() == base.to_multiset().len());
            assert forall|k: int| 0 <= k < cells.len() implies #[trigger] cells[k] < 81 by {
                assert(cells@.contains(cells@[k]));
                assert(cells@.to_multiset().count(cells@[k]) > 0);
                assert(base.contains(cells@[k]));
                let j = choose|j: int| 0 <= j < base.len() && base[j] == cells@[k];
                assert(base[j] == j);
            }
        }
        cells
    }

    /// A random solved grid: the three diagonal boxes are filled with random
    /// permutations, and the solver completes the rest. None where the
    /// solver finds no completion.
    pub fn random_solution(&mut self) -> (r: Option<Grid>)
        ensures
            exists|d0: Seq<u8>, d1: Seq<u8>, d2: Seq<u8>| #[trigger] found_from(d0, d1, d2, r),
            r matches Some(g) ==> valid_solution(g@.cells) && g@.wf() && g@.solved(),
    {
        let d0 = self.shuffled_digits();
        let d1 = self.shuffled_digits();
        let d2 = self.shuffled_digits();
        let seed = seed_grid(&d0, &d1, &d2);
        proof {
            lemma_diagonal_consistent(d0@, d1@, d2@);
        }
        let r = solve(&seed);
        proof {
            if r is Some {
                lemma_solver_decides(seed@.cells);
            }
            assert(found_from(d0@, d1@, d2@, r));
        }
        r
    }

    /// A random solved grid stripped of clues, in a random order of the
    /// cells, down to 24 clues or as far as the puzzle stays uniquely
    /// solvable.
    pub fn baseline(&mut self, full: &Grid) -> (r: Grid)
        requires
            full@.wf(),
            full@.solved(),
            valid_solution(full@.cells),
        ensures
            exists|order: Seq<usize>| #[trigger] baseline_for(full@, order, r@),
            on_track(r@, full@.cells),
    {
        let order = self.shuffled_cells();
        let r = strip_clues(full, &order, 24);
        assert(baseline_for(full@, order@, r@));
        r
    }

    /// Looks for a neighbor of the puzzle that is closer to the target, in
    /// at most 20 attempts, and returns the first one found with its score.
    /// A puzzle that is too hard gets a clue of the solution at a random
    /// empty cell; one that is too easy loses a random clue, if it stays
    /// uniquely solvable. From the eleventh attempt on, a neighbor that is
    /// no closer is changed further, by a clue more at a random empty cell
    /// of the puzzle and a random clue less, and is accepted if it is at
    /// most 2 further from the target than the puzzle.
    fn improve(&mut self, full: &Grid, current: &Grid, current_gap: i32, too_hard: bool, target: i32) -> (r:
        Option<(Grid, i32)>)
        requires
            on_track(current@, full@.cells),
            full@.cells_ok(),
            0 <= current_gap <= 100,
            0 <= target <= 100,
        ensures
            improved(
                (Site {
                    cur: current@,
                    full: full@.cells,
                    gap: current_gap as int,
                    too_hard,
                    target: target as int,
                }),
                found_view(r),
            ),
            r matches Some(found) ==> on_track(found.0@, full@.cells) && found.1 == outcome(
                found.0@.cells,
            ).0 && 1 <= found.1 <= 100 && distance(found.1 as int, target as int) <= current_gap + 2,
    {
        let ghost site = Site {
            cur: current@,
            full: full@.cells,
            gap: current_gap as int,
            too_hard,
            target: target as int,
        };
        let ghost holes_of = cells_where(current@.cells, true, 81, 81);
        let mut attempts: usize = 0;
        while attempts < 20
            invariant
                attempts <= 20,
                on_track(current@, full@.cells),
                full@.cells_ok(),
                0 <= current_gap <= 100,
                0 <= target <= 100,
                site == (Site {
                    cur: current@,
                    full: full@.cells,
                    gap: current_gap as int,
                    too_hard,
                    target: target as int,
                }),
                holes_of == cells_where(current@.cells, true, 81, 81),
                failed_upto(site, attempts as int),
            decreases 20 - attempts,
        {
            attempts = attempts + 1;
            let list = list_cells(current, too_hard, 81);
            proof {
                lemma_cells_where(current@.cells, too_hard, 81, 81);
                lemma_first_pick(holes_of);
            }
            let first = pick(&mut self.rng, &list);
            let moved: Option<Grid> = match first {
                Some(idx) => {
                    if too_hard {
                        Some(add_clue(current, full, idx))
                    } else {
                        remove_clue(current, idx)
                    }
                },
                None => Some(*current),
            };
            assert(grid_view(moved) == first_move(site, first));
            match moved {
                Some(next_grid) => {
                    let next_diff = evaluate_difficulty(&next_grid).score;
                    if gap(next_diff, target) < current_gap {
                        proof {
                            let add = first_pick(holes_of);
                            let rem = first_pick(swap_clues(site, first, add));
                            lemma_first_pick(swap_clues(site, first, add));
                            let found = Some((next_grid@, next_diff as int));
                            assert(tried(site, attempts as int, first, add, rem, found));
                            assert(attempted(site, attempts as int, found));
                            assert(failed_upto(site, attempts as int - 1));
                            assert(improved(site, found));
                        }
                        return Some((next_grid, next_diff));
                    }
                    if attempts > 10 {
                        let holes = list_cells(current, true, 81);
                        proof {
                            lemma_cells_where(current@.cells, true, 81, 81);
                        }
                        let add = pick(&mut self.rng, &holes);
                        match add {
                            Some(add_cell) => {
                                let more = add_clue(&next_grid, full, add_cell);
                                let clues = list_cells(&more, false, add_cell);
                                proof {
                                    lemma_cells_where(more@.cells, false, add_cell as int, 81);
                                }
                                let rem = pick(&mut self.rng, &clues);
                                match rem {
                                    Some(rem_cell) => {
                                        match remove_clue(&more, rem_cell) {
                                            Some(swapped) => {
                                                let d = evaluate_difficulty(&swapped).score;
                                                if gap(d, target) <= current_gap + 2 {
                                                    proof {
                                                        let found = Some((swapped@, d as int));
                                                        assert(tried(
                                                            site,
                                                            attempts as int,
                                                            first,
                                                            add,
                                                            rem,
                                                            found,
                                                        ));
                                                        assert(attempted(
                                                            site,
                                                            attempts as int,
                                                            found,
                                                        ));
                                                        assert(failed_upto(
                                                            site,
                                                            attempts as int - 1,
                                                        ));
                                                        assert(improved(site, found));
                                                    }
                                                    return Some((swapped, d));
                                                }
                                            },
                                            None => {},
                                        }
                                    },
                                    None => {},
                                }
                                assert(tried(site, attempts as int, first, add, rem, None));
                            },
                            None => {
                                assert(swap_clues(site, first, add) =~= Seq::empty());
                                assert(tried(site, attempts as int, first, add, None, None));
                            },
                        }
                    } else {
                        proof {
                            let add = first_pick(holes_of);
                            let rem = first_pick(swap_clues(site, first, add));
                            lemma_first_pick(swap_clues(site, first, add));
                            assert(tried(site, attempts as int, first, add, rem, None));
                        }
                    }
                },
                None => {
                    proof {
                        let add = first_pick(holes_of);
                        assert(swap_clues(site, first, add) =~= Seq::empty());
                        assert(tried(site, attempts as int, first, add, None, None));
                    }
                },
            }
            assert(attempted(site, attempts as int, None));
        }
        None
    }

    /// Climbs from `start` toward the target score in at most 50 steps.
    /// Returns the puzzle as soon as its score is within the tolerance of
    /// the target. Until then the puzzle closest to the target so far is
    /// kept in `best`, and the puzzle is replaced by the neighbor that
    /// `improve` finds, if any.
    fn climb(
        &mut self,
        full: &Grid,
        start: Grid,
        target: i32,
        tolerance: i32,
        best: &mut Grid,
        best_gap: &mut i32,
    ) -> (r: Option<Grid>)
        requires
            on_track(start@, full@.cells),
            full@.cells_ok(),
            0 <= target <= 100,
            old(best)@.cells_ok(),
            old(best)@.cells == blank().cells || uniquely_solvable(old(best)@.cells),
        ensures
            exists|path: Seq<(Board, int)>| #[trigger]
                climb_along(
                    start@,
                    full@.cells,
                    target as int,
                    tolerance as int,
                    (old(best)@, *old(best_gap) as int),
                    path,
                    grid_view(r),
                    (final(best)@, *final(best_gap) as int),
                ),
            r matches Some(g) ==> g@.cells_ok() && uniquely_solvable(g@.cells) && distance(
                outcome(g@.cells).0,
                target as int,
            ) <= tolerance,
            final(best)@.cells_ok(),
            final(best)@.cells == blank().cells || uniquely_solvable(final(best)@.cells),
            uniquely_solvable(old(best)@.cells) ==> uniquely_solvable(final(best)@.cells),
            r is None && 1 <= target && *old(best_gap) >= 100 ==> uniquely_solvable(
                final(best)@.cells,
            ),
    {
        let ghost best0 = (best@, *best_gap as int);
        let mut current_grid = start;
        let mut current_diff = evaluate_difficulty(&current_grid).score;
        let ghost mut path: Seq<(Board, int)> = seq![(start@, current_diff as int)];
        for step in 0..50usize
            invariant
                on_track(current_grid@, full@.cells),
                full@.cells_ok(),
                0 <= target <= 100,
                1 <= current_diff <= 100,
                current_diff == outcome(current_grid@.cells).0,
                best@.cells_ok(),
                best@.cells == blank().cells || uniquely_solvable(best@.cells),
                best0 == (old(best)@, *old(best_gap) as int),
                uniquely_solvable(best0.0.cells) ==> uniquely_solvable(best@.cells),
                step >= 1 && 1 <= target && best0.1 >= 100 ==> uniquely_solvable(best@.cells),
                path.len() == step + 1,
                path[0] == scored(start@),
                path[step as int] == (current_grid@, current_diff as int),
                forall|i: int|
                    0 <= i < step ==> #[trigger] step_ok(
                        path,
                        i,
                        full@.cells,
                        target as int,
                        tolerance as int,
                    ),
                (best@, *best_gap as int) == closest(
                    best0.0,
                    best0.1,
                    path,
                    target as int,
                    step as int,
                ),
        {
            let current_gap = gap(current_diff, target);
            if current_gap <= tolerance {
                proof {
                    assert(climb_along(
                        start@,
                        full@.cells,
                        target as int,
                        tolerance as int,
                        best0,
                        path,
                        Some(current_grid@),
                        (best@, *best_gap as int),
                    ));
                }
                return Some(current_grid);
            }
            if current_gap < *best_gap {
                *best_gap = current_gap;
                *best = current_grid;
            }
            let found = self.improve(full, &current_grid, current_gap, current_diff > target, target);
            proof {
                let before = path;
                let here = path[step as int];
                let next = match found {
                    Some(f) => (f.0@, f.1 as int),
                    None => here,
                };
                path = before.push(next);
                assert(site_of(here, full@.cells, target as int) == (Site {
                    cur: current_grid@,
                    full: full@.cells,
                    gap: current_gap as int,
                    too_hard: current_diff > target,
                    target: target as int,
                }));
                assert(step_ok(path, step as int, full@.cells, target as int, tolerance as int));
                assert forall|i: int| 0 <= i < step + 1 implies #[trigger] step_ok(
                    path,
                    i,
                    full@.cells,
                    target as int,
                    tolerance as int,
                ) by {
                    if i < step {
                        assert(step_ok(before, i, full@.cells, target as int, tolerance as int));
                        assert(path[i] == before[i] && path[i + 1] == before[i + 1]);
                    }
                }
                lemma_closest_prefix(best0.0, best0.1, before, path, target as int, step as int);
                lemma_closest_prefix(best0.0, best0.1, before, path, target as int, step + 1);
            }
            match found {
                Some(f) => {
                    current_grid = f.0;
                    current_diff = f.1;
                },
                None => {},
            }
        }
        proof {
            assert(climb_along(
                start@,
                full@.cells,
                target as int,
                tolerance as int,
                best0,
                path,
                None,
                (best@, *best_gap as int),
            ));
        }
        None
    }

    /// Generates a puzzle of the given difficulty category, in canonical
    /// form. In each of at most 20 rounds a random solved grid is stripped
    /// to a baseline and climbed from; the first puzzle whose score is
    /// within the tolerance of the category's target is returned. Where no
    /// round gets there, the puzzle that came closest is returned; where no
    /// round could start, the empty grid.
    pub fn generate(&mut self, category: &str) -> (s: String)
        ensures
            canonical(s@),
            emit(parse(s@)) == s@,
            exists|rounds: Seq<Round>| #[trigger]
                generated(
                    target_of(category@).0 as int,
                    target_of(category@).1 as int,
                    rounds,
                    parse(s@),
                ),
            parse(s@) == blank().cells ==> exists|d0: Seq<u8>, d1: Seq<u8>, d2: Seq<u8>| #[trigger]
                found_from(d0, d1, d2, None),
            parse(s@) == blank().cells || uniquely_solvable(parse(s@)),
            parse(s@) == blank().cells || tally(refreshed(parse(s@)), 0) == 1,
    {
        let (target, tolerance) = category_target(category);
        let mut best_puzzle = Grid::new();
        let mut best_gap: i32 = 100;
        let ghost mut rounds: Seq<Round> = Seq::empty();
        for round in 0..20usize
            invariant
                target == target_of(category@).0,
                tolerance == target_of(category@).1,
                4 <= target <= 98,
                best_puzzle@.cells_ok(),
                best_puzzle@.cells == blank().cells || uniquely_solvable(best_puzzle@.cells),
                rounds.len() == round,
                forall|k: int|
                    0 <= k < round ==> #[trigger] round_at(rounds, k, target as int, tolerance as int),
                forall|k: int| 0 <= k < round ==> (#[trigger] rounds[k]).found is None,
                (best_puzzle@, best_gap as int) == best_before(rounds, target as int, round as int),
                uniquely_solvable(best_puzzle@.cells) || (best_gap == 100 && forall|k: int|
                    0 <= k < round ==> (#[trigger] rounds[k]).full is None),
        {
            let ghost before = rounds;
            let ghost best0 = (best_puzzle@, best_gap as int);
            let solved = self.random_solution();
            let ghost (d0, d1, d2) = choose|d0: Seq<u8>, d1: Seq<u8>, d2: Seq<u8>| #[trigger]
                found_from(d0, d1, d2, solved);
            match solved {
                Some(full_grid) => {
                    let start = self.baseline(&full_grid);
                    let ghost order = choose|order: Seq<usize>| #[trigger]
                        baseline_for(full_grid@, order, start@);
                    let found = self.climb(
                        &full_grid,
                        start,
                        target,
                        tolerance,
                        &mut best_puzzle,
                        &mut best_gap,
                    );
                    proof {
                        let path = choose|path: Seq<(Board, int)>| #[trigger]
                            climb_along(
                                start@,
                                full_grid@.cells,
                                target as int,
                                tolerance as int,
                                best0,
                                path,
                                grid_view(found),
                                (best_puzzle@, best_gap as int),
                            );
                        let rd = Round {
                            d0,
                            d1,
                            d2,
                            full: Some(full_grid@),
                            order,
                            start: start@,
                            path,
                            found: grid_view(found),
                        };
                        rounds = before.push(rd);
                        lemma_best_prefix(before, rounds, target as int, round as int);
                        assert(round_best(rd, target as int, best0) == (best_puzzle@, best_gap as int));
                        assert(round_ok(rd, target as int, tolerance as int, best0));
                        assert(round_at(rounds, round as int, target as int, tolerance as int));
                        assert forall|k: int| 0 <= k < round implies #[trigger] round_at(
                            rounds,
                            k,
                            target as int,
                            tolerance as int,
                        ) by {
                            assert(round_at(before, k, target as int, tolerance as int));
                            lemma_best_prefix(before, rounds, target as int, k);
                            assert(rounds[k] == before[k]);
                        }
                        assert forall|k: int| 0 <= k < round implies (
                        #[trigger] rounds[k]).found is None by {
                            assert(rounds[k] == before[k]);
                        }
                    }
                    match found {
                        Some(puzzle) => {
                            let text = puzzle.to_string();
                            proof {
                                lemma_emit_parse(puzzle@.cells);
                                lemma_parse_emit(emit(puzzle@.cells));
                                lemma_counts_one(puzzle@.cells);
                                lemma_blank_ambiguous();
                                assert(rounds.last() == rounds[round as int]);
                                assert(generated(
                                    target_of(category@).0 as int,
                                    target_of(category@).1 as int,
                                    rounds,
                                    parse(text@),
                                ));
                            }
                            return text;
                        },
                        None => {},
                    }
                },
                None => {
                    proof {
                        let rd = Round {
                            d0,
                            d1,
                            d2,
                            full: None,
                            order: Seq::empty(),
                            start: blank(),
                            path: Seq::empty(),
                            found: None,
                        };
                        rounds = before.push(rd);
                        lemma_best_prefix(before, rounds, target as int, round as int);
                        assert(round_ok(rd, target as int, tolerance as int, best0));
                        assert(round_at(rounds, round as int, target as int, tolerance as int));
                        assert forall|k: int| 0 <= k < round implies #[trigger] round_at(
                            rounds,
                            k,
                            target as int,
                            tolerance as int,
                        ) by {
                            assert(round_at(before, k, target as int, tolerance as int));
                            lemma_best_prefix(before, rounds, target as int, k);
                            assert(rounds[k] == before[k]);
                        }
                        assert forall|k: int| 0 <= k < round implies (
                        #[trigger] rounds[k]).found is None by {
                            assert(rounds[k] == before[k]);
                        }
                        if !uniquely_solvable(best_puzzle@.cells) {
                            assert forall|k: int| 0 <= k < round implies (
                            #[trigger] rounds[k]).full is None by {
                                assert(rounds[k] == before[k]);
                            }
                        }
                    }
                },
            }
        }
        proof {
            lemma_emit_parse(best_puzzle@.cells);
            lemma_parse_emit(emit(best_puzzle@.cells));
            if uniquely_solvable(best_puzzle@.cells) {
                lemma_counts_one(best_puzzle@.cells);
            }
            lemma_blank_ambiguous();
            assert(rounds.last() == rounds[19]);
            assert(generated(target as int, tolerance as int, rounds, best_puzzle@.cells));
            if best_puzzle@.cells == blank().cells {
                let first = rounds[0];
                assert(first.full is None);
                assert(round_at(rounds, 0, target as int, tolerance as int));
                assert(found_from(first.d0, first.d1, first.d2, None));
            }
        }
        best_puzzle.to_string()
    }
}

} // verus!
