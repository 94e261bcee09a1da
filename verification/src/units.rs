//! The geometry of the board: the 81 cells in row-major order and the 27
//! units (rows 0..9, columns 9..18, boxes 18..27), each listed in ascending
//! cell order.

use vstd::prelude::*;

verus! {

/// The number of cells.
pub const SIZE: usize = 81;

/// The number of units.
pub const UNITS: usize = 27;

/// The row of cell `i`.
pub open spec fn row_of(i: int) -> int {
    i / 9
}

/// The column of cell `i`.
pub open spec fn col_of(i: int) -> int {
    i % 9
}

/// The box of cell `i`.
pub open spec fn box_of(i: int) -> int {
    (i / 27) * 3 + (i % 9) / 3
}

/// The two cells lie in a common row, column or box.
pub open spec fn shares_unit(i: int, j: int) -> bool {
    row_of(i) == row_of(j) || col_of(i) == col_of(j) || box_of(i) == box_of(j)
}

/// The two cells are peers: distinct, and in a common unit.
pub open spec fn sees(i: int, j: int) -> bool {
    i != j && shares_unit(i, j)
}

/// The cell at position `k` of unit `u`.
pub open spec fn cell_at(u: int, k: int) -> int {
    if u < 9 {
        9 * u + k
    } else if u < 18 {
        9 * k + (u - 9)
    } else {
        (((u - 18) / 3) * 3 + k / 3) * 9 + ((u - 18) % 3) * 3 + k % 3
    }
}

/// Cell `i` belongs to unit `u`.
pub open spec fn in_unit(u: int, i: int) -> bool {
    if u < 9 {
        row_of(i) == u
    } else if u < 18 {
        col_of(i) == u - 9
    } else {
        box_of(i) == u - 18
    }
}

/// The position of cell `i` inside unit `u`.
pub open spec fn place_in(u: int, i: int) -> int {
    if u < 9 {
        col_of(i)
    } else if u < 18 {
        row_of(i)
    } else {
        (row_of(i) % 3) * 3 + col_of(i) % 3
    }
}

/// Quotient and remainder of `m * q + r` by `m`.
pub proof fn lemma_quot_rem(a: int, m: int, q: int, r: int)
    by (nonlinear_arith)
    requires
        m > 0,
        0 <= r < m,
        a == m * q + r,
    ensures
        a / m == q,
        a % m == r,
{
}

/// Positions and cells of a unit correspond one to one.
pub proof fn lemma_cell_at(u: int, k: int)
    requires
        0 <= u < 27,
        0 <= k < 9,
    ensures
        0 <= cell_at(u, k) < 81,
        in_unit(u, cell_at(u, k)),
        place_in(u, cell_at(u, k)) == k,
{
    if u < 9 {
        lemma_quot_rem(cell_at(u, k), 9, u, k);
    } else if u < 18 {
        lemma_quot_rem(cell_at(u, k), 9, k, u - 9);
    } else {
        let b = u - 18;
        let (br, bc, kr, kc) = (b / 3, b % 3, k / 3, k % 3);
        let r = 3 * br + kr;
        let c = 3 * bc + kc;
        let i = cell_at(u, k);
        assert(i == 9 * r + c);
        lemma_quot_rem(i, 9, r, c);
        lemma_quot_rem(i, 27, br, 9 * kr + c);
        lemma_quot_rem(r, 3, br, kr);
        lemma_quot_rem(c, 3, bc, kc);
        lemma_quot_rem(b, 3, br, bc);
    }
}

/// A cell of a unit is the cell at its own position in the unit.
pub proof fn lemma_place_in(u: int, i: int)
    requires
        0 <= u < 27,
        0 <= i < 81,
        in_unit(u, i),
    ensures
        0 <= place_in(u, i) < 9,
        cell_at(u, place_in(u, i)) == i,
{
    if u >= 18 {
        let (r, c) = (i / 9, i % 9);
        let (br, kr, bc, kc) = (r / 3, r % 3, c / 3, c % 3);
        lemma_quot_rem(i, 27, br, 9 * kr + c);
        let b = u - 18;
        assert(b == br * 3 + bc);
        lemma_quot_rem(b, 3, br, bc);
        let k = place_in(u, i);
        assert(k == kr * 3 + kc);
        lemma_quot_rem(k, 3, kr, kc);
    }
}

/// Two distinct positions of a unit hold two cells that see each other.
pub proof fn lemma_unit_peers(u: int, k: int, m: int)
    requires
        0 <= u < 27,
        0 <= k < 9,
        0 <= m < 9,
        k != m,
    ensures
        sees(cell_at(u, k), cell_at(u, m)),
{
    lemma_cell_at(u, k);
    lemma_cell_at(u, m);
}

/// The row of cell `i`.
pub fn row(i: usize) -> (r: usize)
    requires
        i < 81,
    ensures
        r == row_of(i as int),
        r < 9,
{
    i / 9
}

/// The column of cell `i`.
pub fn col(i: usize) -> (r: usize)
    requires
        i < 81,
    ensures
        r == col_of(i as int),
        r < 9,
{
    i % 9
}

/// The box of cell `i`.
pub fn box_index(i: usize) -> (r: usize)
    requires
        i < 81,
    ensures
        r == box_of(i as int),
        r < 9,
{
    (i / 27) * 3 + (i % 9) / 3
}

/// The cell at position `k` of unit `u`.
pub fn unit_cell(u: usize, k: usize) -> (r: usize)
    requires
        u < 27,
        k < 9,
    ensures
        r == cell_at(u as int, k as int),
        r < 81,
        in_unit(u as int, r as int),
        place_in(u as int, r as int) == k,
{
    proof {
        lemma_cell_at(u as int, k as int);
    }
    if u < 9 {
        9 * u + k
    } else if u < 18 {
        9 * k + (u - 9)
    } else {
        (((u - 18) / 3) * 3 + k / 3) * 9 + ((u - 18) % 3) * 3 + k % 3
    }
}

/// Whether cell `i` belongs to unit `u`.
pub fn unit_contains(u: usize, i: usize) -> (r: bool)
    requires
        u < 27,
        i < 81,
    ensures
        r == in_unit(u as int, i as int),
{
    if u < 9 {
        row(i) == u
    } else if u < 18 {
        col(i) == u - 9
    } else {
        box_index(i) == u - 18
    }
}

/// Whether two cells lie in a common row, column or box. A cell shares its
/// units with itself.
pub fn can_see(s1: usize, s2: usize) -> (r: bool)
    ensures
        r == shares_unit(s1 as int, s2 as int),
{
    s1 / 9 == s2 / 9 || s1 % 9 == s2 % 9 || (s1 / 27) * 3 + (s1 % 9) / 3 == (s2 / 27) * 3 + (s2 % 9)
        / 3
}

} // verus!
