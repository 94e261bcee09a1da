//! Naked singles and hidden singles.

use vstd::prelude::*;
use crate::bits::{count, has_digit, lemma_lowest_bit, lowest_bit, lowest_digit, popcount};
use crate::units::{cell_at, lemma_cell_at, SIZE, unit_cell, UNITS};
use crate::grid::{Board, Grid};
use crate::hint::{
    agrees, applicable, Hint, HintView, one_kind, placing, placing_hint, Technique, view_of,
};
use crate::scan::{first_some, lemma_first_some_at, lemma_first_some_witness};
use crate::solver::completes;
use crate::deduce::{digit_positions, holds, lemma_digit_spot, lemma_spots, spots, unit_has};

verus! {

/// The naked single at cell `i`: the cell is empty and has one candidate.
pub open spec fn naked_single_at(b: Board, i: int) -> Option<HintView> {
    if b.cells[i] == 0 && popcount(b.cands[i]) == 1 {
        Some(placing(Technique::NakedSingle, i, lowest_bit(b.cands[i]) + 1))
    } else {
        None
    }
}

/// `naked_single_at` as a function of the cell.
pub open spec fn naked_single_fn(b: Board) -> spec_fn(int) -> Option<HintView> {
    |i: int| naked_single_at(b, i)
}

/// The naked single of the first cell that has one.
pub open spec fn naked_single(b: Board) -> Option<HintView> {
    first_some(81, naked_single_fn(b))
}

/// The hidden single of digit `d` in unit `u`: the digit is not placed in the
/// unit and has one spot there.
pub open spec fn hidden_single_at(b: Board, u: int, d: int) -> Option<HintView> {
    if !holds(b, u, d) && popcount(spots(b, u, d)) == 1 {
        Some(placing(Technique::HiddenSingle, cell_at(u, lowest_bit(spots(b, u, d)) as int), d))
    } else {
        None
    }
}

/// The hidden single of digit `k + 1` in unit `u`, as a function of `k`.
pub open spec fn hidden_single_digit_fn(b: Board, u: int) -> spec_fn(int) -> Option<HintView> {
    |k: int| hidden_single_at(b, u, k + 1)
}

/// The first hidden single of a unit, as a function of the unit.
pub open spec fn hidden_single_unit_fn(b: Board) -> spec_fn(int) -> Option<HintView> {
    |u: int| first_some(9, hidden_single_digit_fn(b, u))
}

/// The hidden single of the first unit, and in it the least digit, that has
/// one.
pub open spec fn hidden_single(b: Board) -> Option<HintView> {
    first_some(27, hidden_single_unit_fn(b))
}

/// Finds the first empty cell with a single candidate.
pub fn detect_naked_single(grid: &Grid) -> (r: Option<Hint>)
    ensures
        view_of(r) == naked_single(grid@),
{
    let ghost f = naked_single_fn(grid@);
    for i in 0..SIZE
        invariant
            f == naked_single_fn(grid@),
            first_some(i as int, f) is None,
    {
        if grid.values[i] == 0 {
            let mask = grid.candidates[i];
            if count(mask) == 1 {
                let digit = lowest_digit(mask);
                proof {
                    lemma_first_some_at(i as int, 81, f);
                }
                return Some(placing_hint(Technique::NakedSingle, i, digit));
            }
        }
        assert(f(i as int) is None);
    }
    None
}

/// Finds the first unit, and in it the least digit, that is not placed in
/// the unit and can go in only one of its cells.
pub fn detect_hidden_single(grid: &Grid) -> (r: Option<Hint>)
    ensures
        view_of(r) == hidden_single(grid@),
{
    let ghost fu = hidden_single_unit_fn(grid@);
    for u in 0..UNITS
        invariant
            fu == hidden_single_unit_fn(grid@),
            first_some(u as int, fu) is None,
    {
        let ghost fd = hidden_single_digit_fn(grid@, u as int);
        for k in 0..9usize
            invariant
                u < 27,
                fu == hidden_single_unit_fn(grid@),
                first_some(u as int, fu) is None,
                fd == hidden_single_digit_fn(grid@, u as int),
                first_some(k as int, fd) is None,
        {
            let d = (k + 1) as u8;
            let m = digit_positions(grid, u, d);
            if count(m) == 1 && !unit_has(grid, u, d) {
                let p = lowest_digit(m) - 1;
                let cell = unit_cell(u, p as usize);
                proof {
                    lemma_first_some_at(k as int, 9, fd);
                    assert(fu(u as int) == fd(k as int));
                    lemma_first_some_at(u as int, 27, fu);
                }
                return Some(placing_hint(Technique::HiddenSingle, cell, d));
            }
            assert(fd(k as int) is None);
        }
        assert(fu(u as int) is None);
    }
    None
}

/// A naked single can be applied, and every completion has its digit at its
/// cell.
pub proof fn lemma_naked_single(b: Board, h: HintView)
    requires
        b.wf(),
        naked_single(b) == Some(h),
    ensures
        applicable(b, h),
        one_kind(h),
        forall|s: Seq<u8>| #[trigger] completes(b, s) ==> agrees(h, s),
{
    let i = lemma_first_some_witness(81, naked_single_fn(b));
    lemma_lowest_bit(b.cands[i]);
    assert(h.placements[0] == (i as usize, (lowest_bit(b.cands[i]) + 1) as u8));
    assert forall|s: Seq<u8>| #[trigger] completes(b, s) implies agrees(h, s) by {
        assert(has_digit(b.cands[i], s[i] as int));
    }
}

/// A hidden single can be applied, and every completion has its digit at its
/// cell.
pub proof fn lemma_hidden_single(b: Board, h: HintView)
    requires
        b.wf(),
        hidden_single(b) == Some(h),
    ensures
        applicable(b, h),
        one_kind(h),
        forall|s: Seq<u8>| #[trigger] completes(b, s) ==> agrees(h, s),
{
    let u = lemma_first_some_witness(27, hidden_single_unit_fn(b));
    let k = lemma_first_some_witness(9, hidden_single_digit_fn(b, u));
    let d = k + 1;
    let m = spots(b, u, d);
    lemma_lowest_bit(m);
    lemma_spots(b, u, d);
    let p = lowest_bit(m);
    lemma_cell_at(u, p as int);
    assert(h.placements[0] == (cell_at(u, p as int) as usize, d as u8));
    assert forall|s: Seq<u8>| #[trigger] completes(b, s) implies agrees(h, s) by {
        let q = lemma_digit_spot(b, s, u, d);
        assert(q as u16 == p);
    }
}

} // verus!
