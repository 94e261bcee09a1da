//! The technique engine: the detectors in the order of their difficulty.

use vstd::prelude::*;
use crate::bits::{
    bit, contains, has_digit, lemma_bits_ext, lemma_bits_single, lemma_lowest_bit, single,
};
use crate::deduce::lemma_unit_covers;
use crate::units::{cell_at, lemma_cell_at, row_of, sees};
use crate::solutions::{lemma_refreshed, lemma_refreshed_exact, roomy};
use crate::grid::{Board, Grid};
use crate::hint::{agrees, applicable, Hint, HintView, one_kind, placing, Technique, view_of};
use crate::scan::{first_some, lemma_first_none, lemma_first_some_at, lemma_first_some_witness};
use crate::solver::{completes, legal, pruned, refreshed, valid_solution};
use crate::singles::{
    detect_hidden_single, detect_naked_single, hidden_single, lemma_hidden_single,
    lemma_naked_single, naked_single, naked_single_fn,
};
use crate::subsets::{
    detect_hidden_subset, detect_naked_subset, hidden_subset, lemma_hidden_subset,
    lemma_naked_subset, naked_subset,
};
use crate::intersections::{
    box_line, detect_box_line_reduction, detect_pointing_pairs, lemma_box_line, lemma_pointing,
    pointing,
};
use crate::wings::{detect_x_wing, detect_y_wing, lemma_xwing, lemma_ywing, xwing, ywing};
use crate::coloring::{detect_simple_coloring, lemma_simple_coloring, simple_coloring};

verus! {

/// The hint of the detector with the given rank, if it finds one.
pub open spec fn detector(b: Board, rank: int) -> Option<HintView> {
    if rank == 0 {
        naked_single(b)
    } else if rank == 1 {
        hidden_single(b)
    } else if rank == 2 {
        naked_subset(b, 2)
    } else if rank == 3 {
        pointing(b)
    } else if rank == 4 {
        box_line(b)
    } else if rank == 5 {
        hidden_subset(b, 2)
    } else if rank == 6 {
        naked_subset(b, 3)
    } else if rank == 7 {
        hidden_subset(b, 3)
    } else if rank == 8 {
        naked_subset(b, 4)
    } else if rank == 9 {
        hidden_subset(b, 4)
    } else if rank == 10 {
        xwing(b)
    } else if rank == 11 {
        ywing(b)
    } else {
        simple_coloring(b)
    }
}

/// `detector` as a function of the rank.
pub open spec fn detector_fn(b: Board) -> spec_fn(int) -> Option<HintView> {
    |rank: int| detector(b, rank)
}

/// The hint of the easiest technique that finds one.
pub open spec fn hint_of(b: Board) -> Option<HintView> {
    first_some(13, detector_fn(b))
}

/// Every hint can be applied to its board, and is sound on a pruned board:
/// every completion has each placed digit at its cell, and no completion has
/// an eliminated digit at its cell.
pub proof fn lemma_hint_sound(b: Board, h: HintView)
    requires
        b.wf(),
        hint_of(b) == Some(h),
    ensures
        applicable(b, h),
        one_kind(h),
        pruned(b) ==> forall|s: Seq<u8>| #[trigger] completes(b, s) ==> agrees(h, s),
{
    let rank = lemma_first_some_witness(13, detector_fn(b));
    if rank == 0 {
        lemma_naked_single(b, h);
    } else if rank == 1 {
        lemma_hidden_single(b, h);
    } else if rank == 2 {
        lemma_naked_subset(b, 2, h);
    } else if rank == 3 {
        lemma_pointing(b, h);
    } else if rank == 4 {
        lemma_box_line(b, h);
    } else if rank == 5 {
        lemma_hidden_subset(b, 2, h);
    } else if rank == 6 {
        lemma_naked_subset(b, 3, h);
    } else if rank == 7 {
        lemma_hidden_subset(b, 3, h);
    } else if rank == 8 {
        lemma_naked_subset(b, 4, h);
    } else if rank == 9 {
        lemma_hidden_subset(b, 4, h);
    } else if rank == 10 {
        lemma_xwing(b, h);
    } else if rank == 11 {
        lemma_ywing(b, h);
    } else {
        lemma_simple_coloring(b, h);
    }
}

/// The detector with the given rank.
fn run_detector(grid: &Grid, rank: usize) -> (r: Option<Hint>)
    requires
        rank < 13,
    ensures
        view_of(r) == detector(grid@, rank as int),
{
    match rank {
        0 => detect_naked_single(grid),
        1 => detect_hidden_single(grid),
        2 => detect_naked_subset(grid, 2),
        3 => detect_pointing_pairs(grid),
        4 => detect_box_line_reduction(grid),
        5 => detect_hidden_subset(grid, 2),
        6 => detect_naked_subset(grid, 3),
        7 => detect_hidden_subset(grid, 3),
        8 => detect_naked_subset(grid, 4),
        9 => detect_hidden_subset(grid, 4),
        10 => detect_x_wing(grid),
        11 => detect_y_wing(grid),
        _ => detect_simple_coloring(grid),
    }
}

/// Consults the detectors from the easiest technique to the hardest and
/// returns the first hint found.
pub fn get_hint(grid: &Grid) -> (r: Option<Hint>)
    ensures
        view_of(r) == hint_of(grid@),
        grid@.wf() ==> (r matches Some(h) ==> applicable(grid@, h@)),
        grid@.wf() && pruned(grid@) ==> (r matches Some(h) ==> forall|s: Seq<u8>| #[trigger]
            completes(grid@, s) ==> agrees(h@, s)),
{
    let ghost f = detector_fn(grid@);
    for rank in 0..13usize
        invariant
            f == detector_fn(grid@),
            first_some(rank as int, f) is None,
    {
        let r = run_detector(grid, rank);
        if r.is_some() {
            proof {
                lemma_first_some_at(rank as int, 13, f);
                if grid@.wf() {
                    lemma_hint_sound(grid@, view_of(r)->0);
                }
            }
            return r;
        }
        assert(f(rank as int) is None);
    }
    None
}

/// Lists the candidates of a cell in ascending order.
pub fn get_candidates(grid: &Grid, cell: usize) -> (r: Vec<u8>)
    requires
        cell < 81,
    ensures
        r@ == digits_list(grid@.cands[cell as int], 9),
{
    let mut res: Vec<u8> = Vec::new();
    let mask = grid.candidates[cell];
    for k in 0..9usize
        invariant
            mask == grid@.cands[cell as int],
            res@ == digits_list(mask, k as int),
    {
        if contains(mask, (k + 1) as u8) {
            res.push((k + 1) as u8);
        }
    }
    res
}

/// The digits among `1..=n` that `mask` holds, in ascending order.
pub open spec fn digits_list(mask: u16, n: int) -> Seq<u8>
    decreases n,
{
    if n <= 0 {
        Seq::empty()
    } else if has_digit(mask, n) {
        digits_list(mask, n - 1).push(n as u8)
    } else {
        digits_list(mask, n - 1)
    }
}

/// A solved grid with one cell blanked has a naked single as its hint: the
/// blanked cell takes back its digit.
pub proof fn lemma_last_cell(s: Seq<u8>, cell: int)
    requires
        valid_solution(s),
        0 <= cell < 81,
    ensures
        hint_of(refreshed(s.update(cell, 0u8))) == Some(
            placing(Technique::NakedSingle, cell, s[cell] as int),
        ),
{
    let cells = s.update(cell, 0u8);
    let b = refreshed(cells);
    assert forall|d: int| 1 <= d <= 9 implies (legal(cells, cell, d) <==> d == s[cell]) by {
        if d != s[cell] {
            let k = lemma_unit_covers(s, row_of(cell), d);
            lemma_cell_at(row_of(cell), k);
            let other = cell_at(row_of(cell), k);
            assert(sees(cell, other) && cells[other] == d);
        } else {
            assert forall|j: int| 0 <= j < 81 && sees(cell, j) implies #[trigger] cells[j] != d by {
                assert(s[cell] != s[j]);
            }
        }
    }
    assert(roomy(cells)) by {
        assert(legal(cells, cell, s[cell] as int));
    }
    lemma_refreshed(cells);
    lemma_refreshed_exact(cells);
    let m = b.cands[cell];
    let e = (s[cell] - 1) as u16;
    lemma_bits_single(e);
    assert forall|k: u16| k < 9 implies bit(m, k) == bit(single(e), k) by {
        assert(has_digit(m, k + 1) <==> legal(cells, cell, k + 1));
    }
    lemma_bits_ext(m, single(e));
    lemma_lowest_bit(m);
    let f = naked_single_fn(b);
    assert forall|j: int| 0 <= j < cell implies (#[trigger] f(j)) is None by {}
    lemma_first_none(cell, f);
    lemma_first_some_at(cell, 81, f);
    lemma_first_some_at(0, 13, detector_fn(b));
}

} // verus!
