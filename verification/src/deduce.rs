//! What the detectors share: where a digit can still go inside a unit, and
//! what a completion of the board must then look like.

use vstd::prelude::*;
use crate::bits::{
    bit, contains, FULL, has_digit, lemma_bits_const, lemma_bits_or, lemma_bits_single,
    lemma_bits_without, lemma_injection_popcount, lemma_popcount_without, single, without,
};
use crate::units::{cell_at, lemma_cell_at, lemma_unit_peers, unit_cell};
use crate::grid::{Board, Grid};
use crate::solver::{completes, pruned, valid_solution};

verus! {

/// The positions, among the first `n` of unit `u`, whose cell is empty and
/// admits digit `d`.
pub open spec fn spots_upto(b: Board, u: int, d: int, n: int) -> u16
    decreases n,
{
    if n <= 0 {
        0
    } else if b.cand(cell_at(u, n - 1), d) {
        spots_upto(b, u, d, n - 1) | single((n - 1) as u16)
    } else {
        spots_upto(b, u, d, n - 1)
    }
}

/// The positions of unit `u` whose cell is empty and admits digit `d`.
pub open spec fn spots(b: Board, u: int, d: int) -> u16 {
    spots_upto(b, u, d, 9)
}

/// Some cell of unit `u` holds digit `d`.
pub open spec fn holds(b: Board, u: int, d: int) -> bool {
    exists|k: int| 0 <= k < 9 && #[trigger] b.cells[cell_at(u, k)] == d
}

/// A position is among the spots of the first `n` positions exactly when it
/// is below `n` and its cell is empty and admits the digit.
pub proof fn lemma_spots_upto(b: Board, u: int, d: int, n: int)
    requires
        0 <= n <= 9,
    ensures
        spots_upto(b, u, d, n) <= FULL,
        forall|p: u16|
            p < 16 ==> (#[trigger] bit(spots_upto(b, u, d, n), p) <==> p < n && b.cand(
                cell_at(u, p as int),
                d,
            )),
    decreases n,
{
    lemma_bits_const();
    if n > 0 {
        lemma_spots_upto(b, u, d, n - 1);
        lemma_bits_single((n - 1) as u16);
        lemma_bits_or(spots_upto(b, u, d, n - 1), single((n - 1) as u16));
    }
}

/// A position is among the spots of a digit exactly when its cell is empty
/// and admits the digit.
pub proof fn lemma_spots(b: Board, u: int, d: int)
    ensures
        spots(b, u, d) <= FULL,
        forall|p: u16|
            p < 16 ==> (#[trigger] bit(spots(b, u, d), p) <==> p < 9 && b.cand(
                cell_at(u, p as int),
                d,
            )),
{
    lemma_spots_upto(b, u, d, 9);
}

/// Every unit of a valid solution holds every digit.
pub proof fn lemma_unit_covers(s: Seq<u8>, u: int, d: int) -> (k: int)
    requires
        valid_solution(s),
        0 <= u < 27,
        1 <= d <= 9,
    ensures
        0 <= k < 9,
        s[cell_at(u, k)] == d,
{
    if exists|k: int| 0 <= k < 9 && s[cell_at(u, k)] == d {
        choose|k: int| 0 <= k < 9 && s[cell_at(u, k)] == d
    } else {
        let f = |p: u16| (s[cell_at(u, p as int)] - 1) as u16;
        let v = without(FULL, (d - 1) as u16);
        lemma_bits_const();
        lemma_bits_without(FULL, (d - 1) as u16);
        lemma_popcount_without(FULL, (d - 1) as u16);
        assert forall|p: u16| p < 9 && bit(FULL, p) implies #[trigger] f(p) < 9 && bit(v, f(p)) by {
            lemma_cell_at(u, p as int);
            assert(s[cell_at(u, p as int)] != d);
        }
        assert forall|p: u16, q: u16|
            p < 9 && q < 9 && bit(FULL, p) && bit(FULL, q) && p != q implies #[trigger] f(p)
            != #[trigger] f(q) by {
            lemma_cell_at(u, p as int);
            lemma_cell_at(u, q as int);
            lemma_unit_peers(u, p as int, q as int);
        }
        lemma_injection_popcount(FULL, v, f);
        0
    }
}

/// On a pruned board, a digit that is still a candidate somewhere in a unit
/// is not placed in that unit.
pub proof fn lemma_pruned_spots(b: Board, u: int, d: int, p: int)
    requires
        b.wf(),
        pruned(b),
        0 <= u < 27,
        0 <= p < 9,
        b.cand(cell_at(u, p), d),
    ensures
        !holds(b, u, d),
{
    if holds(b, u, d) {
        let k = choose|k: int| 0 <= k < 9 && #[trigger] b.cells[cell_at(u, k)] == d;
        lemma_cell_at(u, k);
        lemma_cell_at(u, p);
        lemma_unit_peers(u, k, p);
        assert(!has_digit(b.cands[cell_at(u, p)], b.cells[cell_at(u, k)] as int));
    }
}

/// In a completion, a digit that is not placed in a unit sits on one of its
/// spots there.
pub proof fn lemma_digit_spot(b: Board, s: Seq<u8>, u: int, d: int) -> (k: int)
    requires
        completes(b, s),
        0 <= u < 27,
        1 <= d <= 9,
        !holds(b, u, d),
    ensures
        0 <= k < 9,
        s[cell_at(u, k)] == d,
        b.cand(cell_at(u, k), d),
        bit(spots(b, u, d), k as u16),
{
    let k = lemma_unit_covers(s, u, d);
    lemma_cell_at(u, k);
    lemma_spots(b, u, d);
    if b.cells[cell_at(u, k)] != 0 {
        assert(s[cell_at(u, k)] == b.cells[cell_at(u, k)]);
    }
    assert(has_digit(b.cands[cell_at(u, k)], s[cell_at(u, k)] as int));
    k
}

/// The positions of unit `u` whose cell is empty and admits digit `d`.
pub fn digit_positions(grid: &Grid, u: usize, d: u8) -> (m: u16)
    requires
        u < 27,
        1 <= d <= 9,
    ensures
        m == spots(grid@, u as int, d as int),
        m <= FULL,
{
    let mut m: u16 = 0;
    for k in 0..9usize
        invariant
            u < 27,
            1 <= d <= 9,
            m == spots_upto(grid@, u as int, d as int, k as int),
    {
        let cell = unit_cell(u, k);
        if grid.values[cell] == 0 && contains(grid.candidates[cell], d) {
            m = m | (1u16 << (k as u16));
        }
    }
    proof {
        lemma_spots(grid@, u as int, d as int);
    }
    m
}

/// Whether some cell of unit `u` holds digit `d`.
pub fn unit_has(grid: &Grid, u: usize, d: u8) -> (r: bool)
    requires
        u < 27,
    ensures
        r == holds(grid@, u as int, d as int),
{
    for k in 0..9usize
        invariant
            u < 27,
            forall|j: int| 0 <= j < k ==> #[trigger] grid@.cells[cell_at(u as int, j)] != d,
    {
        let cell = unit_cell(u, k);
        if grid.values[cell] == d {
            assert(grid@.cells[cell_at(u as int, k as int)] == d);
            return true;
        }
    }
    false
}

} // verus!
