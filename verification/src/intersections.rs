//! Pointing pairs and box/line reduction: a digit whose spots in one unit
//! all lie in a second unit cannot go elsewhere in that second unit.

use vstd::prelude::*;
use crate::bits::{
    bit, bit_at, contains, count, lemma_lowest_bit, lowest_bit, lowest_digit, popcount,
};
use crate::units::{
    box_index, box_of, cell_at, col, col_of, in_unit, lemma_cell_at, lemma_place_in,
    lemma_unit_peers, place_in, row, row_of, unit_cell, unit_contains,
};
use crate::grid::{Board, Grid};
use crate::hint::{
    agrees, applicable, eliminating_hint, eliminating_some, Hint, HintView, one_kind, Technique,
    view_of,
};
use crate::scan::{
    first_some, lemma_first_some_at, lemma_first_some_witness, lemma_listing_entry, listing,
};
use crate::solver::{completes, pruned};
use crate::deduce::{digit_positions, lemma_digit_spot, lemma_pruned_spots, lemma_spots, spots};

verus! {

/// Every spot of digit `d` in unit `from` lies in unit `into`.
pub open spec fn confined(b: Board, from: int, into: int, d: int) -> bool {
    forall|p: u16| p < 9 && #[trigger] bit(spots(b, from, d), p) ==> in_unit(into, cell_at(from, p as int))
}

/// The cell at position `k` of `into` lies outside `from` and admits `d`.
pub open spec fn cross_keep(b: Board, from: int, into: int, d: int, k: int) -> bool {
    !in_unit(from, cell_at(into, k)) && b.cand(cell_at(into, k), d)
}

/// `cross_keep` as a function of the position.
pub open spec fn cross_keep_fn(b: Board, from: int, into: int, d: int) -> spec_fn(int) -> bool {
    |k: int| cross_keep(b, from, into, d, k)
}

/// The elimination of digit `d` at position `k` of `into`, as a function of `k`.
pub open spec fn cross_item_fn(into: int, d: int) -> spec_fn(int) -> (usize, u8) {
    |k: int| (cell_at(into, k) as usize, d as u8)
}

/// The hint for digit `d` locked from unit `from` into unit `into`: where
/// the spots are confined, the digit is eliminated from the cells of `into`
/// outside `from`, in the order of their positions.
pub open spec fn locked(b: Board, from: int, into: int, d: int, t: Technique) -> Option<HintView> {
    if confined(b, from, into, d) {
        eliminating_some(t, listing(9, cross_keep_fn(b, from, into, d), cross_item_fn(into, d)))
    } else {
        None
    }
}

/// The pointing hint of digit `d` in box `bx`: the digit has two or three
/// spots in the box, all in the row of the first, or else all in its column.
pub open spec fn pointing_at(b: Board, bx: int, d: int) -> Option<HintView> {
    let m = spots(b, 18 + bx, d);
    let first = cell_at(18 + bx, lowest_bit(m) as int);
    if 2 <= popcount(m) <= 3 {
        match locked(b, 18 + bx, row_of(first), d, Technique::PointingPair) {
            Some(h) => Some(h),
            None => locked(b, 18 + bx, 9 + col_of(first), d, Technique::PointingPair),
        }
    } else {
        None
    }
}

/// The pointing hint of digit `k + 1` in box `bx`, as a function of `k`.
pub open spec fn pointing_digit_fn(b: Board, bx: int) -> spec_fn(int) -> Option<HintView> {
    |k: int| pointing_at(b, bx, k + 1)
}

/// The first pointing hint of a box, as a function of the box.
pub open spec fn pointing_box_fn(b: Board) -> spec_fn(int) -> Option<HintView> {
    |bx: int| first_some(9, pointing_digit_fn(b, bx))
}

/// The pointing hint of the first box, and in it the least digit, that has
/// one.
pub open spec fn pointing(b: Board) -> Option<HintView> {
    first_some(9, pointing_box_fn(b))
}

/// The box/line hint of digit `d` in line `u` (a row or a column): the digit
/// has two or three spots in the line, all in the box of the first.
pub open spec fn box_line_at(b: Board, u: int, d: int) -> Option<HintView> {
    let m = spots(b, u, d);
    let first = cell_at(u, lowest_bit(m) as int);
    if 2 <= popcount(m) <= 3 {
        locked(b, u, 18 + box_of(first), d, Technique::BoxLineReduction)
    } else {
        None
    }
}

/// `box_line_at` for digit `d`, as a function of the line.
pub open spec fn box_line_unit_fn(b: Board, d: int) -> spec_fn(int) -> Option<HintView> {
    |u: int| box_line_at(b, u, d)
}

/// The first box/line hint of digit `k + 1`, as a function of `k`.
pub open spec fn box_line_digit_fn(b: Board) -> spec_fn(int) -> Option<HintView> {
    |k: int| first_some(18, box_line_unit_fn(b, k + 1))
}

/// The box/line hint of the least digit, and for it the first row or else
/// the first column, that has one.
pub open spec fn box_line(b: Board) -> Option<HintView> {
    first_some(9, box_line_digit_fn(b))
}

/// Builds the hint for digit `d` locked from `from` into `into`, where `m`
/// holds the spots of `d` in `from`.
fn locked_hint(grid: &Grid, from: usize, into: usize, d: u8, t: Technique, m: u16) -> (r: Option<
    Hint,
>)
    requires
        from < 27,
        into < 27,
        1 <= d <= 9,
        m == spots(grid@, from as int, d as int),
    ensures
        view_of(r) == locked(grid@, from as int, into as int, d as int, t),
{
    for p in 0..9usize
        invariant
            from < 27,
            into < 27,
            m == spots(grid@, from as int, d as int),
            forall|q: u16| q < p && #[trigger] bit(m, q) ==> in_unit(into as int, cell_at(from as int, q as int)),
    {
        if bit_at(m, p) && !unit_contains(into, unit_cell(from, p)) {
            assert(bit(m, p as u16));
            return None;
        }
    }
    let mut eliminations: Vec<(usize, u8)> = Vec::new();
    let ghost keep = cross_keep_fn(grid@, from as int, into as int, d as int);
    let ghost item = cross_item_fn(into as int, d as int);
    for k in 0..9usize
        invariant
            from < 27,
            into < 27,
            1 <= d <= 9,
            keep == cross_keep_fn(grid@, from as int, into as int, d as int),
            item == cross_item_fn(into as int, d as int),
            eliminations@ == listing(k as int, keep, item),
    {
        let cell = unit_cell(into, k);
        if !unit_contains(from, cell) && grid.values[cell] == 0 && contains(grid.candidates[cell], d) {
            eliminations.push((cell, d));
        }
    }
    eliminating_hint(t, eliminations)
}

/// The pointing hint of digit `d` in box `bx`, if there is one.
fn pointing_hint_at(grid: &Grid, bx: usize, d: u8) -> (r: Option<Hint>)
    requires
        bx < 9,
        1 <= d <= 9,
    ensures
        view_of(r) == pointing_at(grid@, bx as int, d as int),
{
    let m = digit_positions(grid, 18 + bx, d);
    let n = count(m);
    if 2 <= n && n <= 3 {
        let first = unit_cell(18 + bx, (lowest_digit(m) - 1) as usize);
        let r = locked_hint(grid, 18 + bx, row(first), d, Technique::PointingPair, m);
        if r.is_some() {
            r
        } else {
            locked_hint(grid, 18 + bx, 9 + col(first), d, Technique::PointingPair, m)
        }
    } else {
        None
    }
}

/// The box/line hint of digit `d` in line `u`, if there is one.
fn box_line_hint_at(grid: &Grid, u: usize, d: u8) -> (r: Option<Hint>)
    requires
        u < 18,
        1 <= d <= 9,
    ensures
        view_of(r) == box_line_at(grid@, u as int, d as int),
{
    let m = digit_positions(grid, u, d);
    let n = count(m);
    if 2 <= n && n <= 3 {
        let first = unit_cell(u, (lowest_digit(m) - 1) as usize);
        locked_hint(grid, u, 18 + box_index(first), d, Technique::BoxLineReduction, m)
    } else {
        None
    }
}

/// Looks for a digit whose two or three spots in a box share a row or a
/// column, and eliminates it from the rest of that line.
pub fn detect_pointing_pairs(grid: &Grid) -> (r: Option<Hint>)
    ensures
        view_of(r) == pointing(grid@),
{
    let ghost fb = pointing_box_fn(grid@);
    for bx in 0..9usize
        invariant
            fb == pointing_box_fn(grid@),
            first_some(bx as int, fb) is None,
    {
        let ghost fd = pointing_digit_fn(grid@, bx as int);
        for k in 0..9usize
            invariant
                bx < 9,
                fb == pointing_box_fn(grid@),
                fd == pointing_digit_fn(grid@, bx as int),
                first_some(bx as int, fb) is None,
                first_some(k as int, fd) is None,
        {
            let r = pointing_hint_at(grid, bx, (k + 1) as u8);
            if r.is_some() {
                proof {
                    lemma_first_some_at(k as int, 9, fd);
                    assert(fb(bx as int) == fd(k as int));
                    lemma_first_some_at(bx as int, 9, fb);
                }
                return r;
            }
            assert(fd(k as int) is None);
        }
        assert(fb(bx as int) is None);
    }
    None
}

/// Looks for a digit whose two or three spots in a row or a column share a
/// box, and eliminates it from the rest of that box.
pub fn detect_box_line_reduction(grid: &Grid) -> (r: Option<Hint>)
    ensures
        view_of(r) == box_line(grid@),
{
    let ghost fd = box_line_digit_fn(grid@);
    for k in 0..9usize
        invariant
            fd == box_line_digit_fn(grid@),
            first_some(k as int, fd) is None,
    {
        let ghost fu = box_line_unit_fn(grid@, k + 1);
        for u in 0..18usize
            invariant
                k < 9,
                fd == box_line_digit_fn(grid@),
                fu == box_line_unit_fn(grid@, k + 1),
                first_some(k as int, fd) is None,
                first_some(u as int, fu) is None,
        {
            let r = box_line_hint_at(grid, u, (k + 1) as u8);
            if r.is_some() {
                proof {
                    lemma_first_some_at(u as int, 18, fu);
                    assert(fd(k as int) == fu(u as int));
                    lemma_first_some_at(k as int, 9, fd);
                }
                return r;
            }
            assert(fu(u as int) is None);
        }
        assert(fd(k as int) is None);
    }
    None
}

/// The hint that locks a digit can be applied. On a pruned board, a digit
/// that has a spot in `from` and whose spots there all lie in `into` is at
/// one of them in every completion, so no completion has the digit at a
/// cell it is eliminated from.
pub proof fn lemma_locked(b: Board, from: int, into: int, d: int, t: Technique, h: HintView)
    requires
        b.wf(),
        0 <= from < 27,
        0 <= into < 27,
        1 <= d <= 9,
        popcount(spots(b, from, d)) > 0,
        locked(b, from, into, d, t) == Some(h),
    ensures
        applicable(b, h),
        one_kind(h),
        pruned(b) ==> forall|s: Seq<u8>| #[trigger] completes(b, s) ==> agrees(h, s),
{
    let keep = cross_keep_fn(b, from, into, d);
    let item = cross_item_fn(into, d);
    let m = spots(b, from, d);
    lemma_spots(b, from, d);
    lemma_lowest_bit(m);
    let r = lowest_bit(m);
    assert forall|j: int| 0 <= j < h.eliminations.len() implies 0 <= (#[trigger] h.eliminations[j]).0
        < 81 && b.cand(h.eliminations[j].0 as int, h.eliminations[j].1 as int) by {
        let k = lemma_listing_entry(9, keep, item, j);
        assert(keep(k));
        lemma_cell_at(into, k);
    }
    assert forall|s: Seq<u8>| pruned(b) && #[trigger] completes(b, s) implies agrees(h, s) by {
        lemma_pruned_spots(b, from, d, r as int);
        let q = lemma_digit_spot(b, s, from, d);
        let x = cell_at(from, q);
        lemma_cell_at(from, q);
        assert(bit(m, q as u16));
        assert(in_unit(into, x));
        lemma_place_in(into, x);
        assert forall|j: int| 0 <= j < h.eliminations.len() implies s[(
        #[trigger] h.eliminations[j]).0 as int] != h.eliminations[j].1 by {
            let k = lemma_listing_entry(9, keep, item, j);
            assert(keep(k));
            lemma_cell_at(into, k);
            lemma_unit_peers(into, k, place_in(into, x));
        }
    }
}

/// A pointing hint can be applied, and on a pruned board no completion has
/// the eliminated digit at a cell it is eliminated from.
pub proof fn lemma_pointing(b: Board, h: HintView)
    requires
        b.wf(),
        pointing(b) == Some(h),
    ensures
        applicable(b, h),
        one_kind(h),
        pruned(b) ==> forall|s: Seq<u8>| #[trigger] completes(b, s) ==> agrees(h, s),
{
    let bx = lemma_first_some_witness(9, pointing_box_fn(b));
    let k = lemma_first_some_witness(9, pointing_digit_fn(b, bx));
    let d = k + 1;
    let m = spots(b, 18 + bx, d);
    lemma_spots(b, 18 + bx, d);
    lemma_lowest_bit(m);
    let first = cell_at(18 + bx, lowest_bit(m) as int);
    lemma_cell_at(18 + bx, lowest_bit(m) as int);
    if locked(b, 18 + bx, row_of(first), d, Technique::PointingPair) is Some {
        lemma_locked(b, 18 + bx, row_of(first), d, Technique::PointingPair, h);
    } else {
        lemma_locked(b, 18 + bx, 9 + col_of(first), d, Technique::PointingPair, h);
    }
}

/// A box/line hint can be applied, and on a pruned board no completion has
/// the eliminated digit at a cell it is eliminated from.
pub proof fn lemma_box_line(b: Board, h: HintView)
    requires
        b.wf(),
        box_line(b) == Some(h),
    ensures
        applicable(b, h),
        one_kind(h),
        pruned(b) ==> forall|s: Seq<u8>| #[trigger] completes(b, s) ==> agrees(h, s),
{
    let k = lemma_first_some_witness(9, box_line_digit_fn(b));
    let d = k + 1;
    let u = lemma_first_some_witness(18, box_line_unit_fn(b, d));
    let m = spots(b, u, d);
    lemma_spots(b, u, d);
    lemma_lowest_bit(m);
    let first = cell_at(u, lowest_bit(m) as int);
    lemma_cell_at(u, lowest_bit(m) as int);
    lemma_locked(b, u, 18 + box_of(first), d, Technique::BoxLineReduction, h);
}

} // verus!
