//! X-wings and Y-wings.

use vstd::prelude::*;
use crate::bits::{
    bit, contains, count, has_digit, intersect, lemma_bits_and, lemma_lowest_bit, lemma_one_member,
    lemma_pair_members, lemma_three_members, lowest_bit, lowest_digit, popcount, remove, without,
};
use crate::units::{can_see, cell_at, lemma_cell_at, lemma_unit_peers, sees, SIZE, unit_cell};
use crate::grid::{Board, Grid};
use crate::hint::{
    agrees, applicable, eliminating_hint, eliminating_some, Hint, HintView, one_kind, Technique,
    view_of,
};
use crate::scan::{
    first_some, lemma_first_none, lemma_first_some_at, lemma_first_some_witness,
    lemma_listing_entry, listing,
};
use crate::solver::{completes, pruned};
use crate::deduce::{digit_positions, lemma_digit_spot, lemma_pruned_spots, lemma_spots, spots};

verus! {

/// Line `i` of orientation `o` as a unit: rows for 0, columns for 1.
pub open spec fn line(o: int, i: int) -> int {
    o * 9 + i
}

/// The crossing line that entry `t` of `0..18` lies in: the one through
/// position `pa` for the first nine entries, through `pb` for the others.
pub open spec fn xwing_cover(o: int, pa: int, pb: int, t: int) -> int {
    line(
        1 - o,
        if t / 9 == 0 {
            pa
        } else {
            pb
        },
    )
}

/// Entry `t` is a cell of a crossing line, outside the two base lines, that
/// admits the digit.
pub open spec fn xwing_keep(b: Board, d: int, o: int, i: int, j: int, pa: int, pb: int, t: int) -> bool {
    t % 9 != i && t % 9 != j && b.cand(cell_at(xwing_cover(o, pa, pb, t), t % 9), d)
}

/// `xwing_keep` as a function of the entry.
pub open spec fn xwing_keep_fn(b: Board, d: int, o: int, i: int, j: int, pa: int, pb: int) -> spec_fn(
    int,
) -> bool {
    |t: int| xwing_keep(b, d, o, i, j, pa, pb, t)
}

/// The elimination of digit `d` at entry `t`, as a function of `t`.
pub open spec fn xwing_item_fn(d: int, o: int, pa: int, pb: int) -> spec_fn(int) -> (usize, u8) {
    |t: int| (cell_at(xwing_cover(o, pa, pb, t), t % 9) as usize, d as u8)
}

/// The X-wing of digit `d` on the base lines `i < j` of orientation `o`:
/// each has exactly two spots for the digit, at the same two positions. The
/// digit is eliminated from the two crossing lines outside the base lines,
/// the line through the lower position first.
pub open spec fn xwing_at(b: Board, d: int, o: int, i: int, j: int) -> Option<HintView> {
    let m = spots(b, line(o, i), d);
    let pa = lowest_bit(m) as int;
    let pb = lowest_bit(without(m, lowest_bit(m))) as int;
    if i < j && popcount(m) == 2 && spots(b, line(o, j), d) == m {
        eliminating_some(
            Technique::XWing,
            listing(18, xwing_keep_fn(b, d, o, i, j, pa, pb), xwing_item_fn(d, o, pa, pb)),
        )
    } else {
        None
    }
}

/// `xwing_at` as a function of the second base line.
pub open spec fn xwing_second_fn(b: Board, d: int, o: int, i: int) -> spec_fn(int) -> Option<HintView> {
    |j: int| xwing_at(b, d, o, i, j)
}

/// The first X-wing with a given first base line, as a function of that line.
pub open spec fn xwing_first_fn(b: Board, d: int, o: int) -> spec_fn(int) -> Option<HintView> {
    |i: int| first_some(9, xwing_second_fn(b, d, o, i))
}

/// The first X-wing of digit `d` in an orientation, as a function of the
/// orientation.
pub open spec fn xwing_side_fn(b: Board, d: int) -> spec_fn(int) -> Option<HintView> {
    |o: int| first_some(9, xwing_first_fn(b, d, o))
}

/// The first X-wing of digit `k + 1`, as a function of `k`.
pub open spec fn xwing_digit_fn(b: Board) -> spec_fn(int) -> Option<HintView> {
    |k: int| first_some(2, xwing_side_fn(b, k + 1))
}

/// The first X-wing that eliminates something: by digit, then rows before
/// columns, then by the first and the second base line.
pub open spec fn xwing(b: Board) -> Option<HintView> {
    first_some(9, xwing_digit_fn(b))
}

/// The X-wing hint of digit `d` on the base lines `i` and `j`, where `m`
/// holds the spots of `d` in line `i`.
fn xwing_hint_at(grid: &Grid, d: u8, o: usize, i: usize, j: usize, m: u16) -> (r: Option<Hint>)
    requires
        1 <= d <= 9,
        o < 2,
        i < 9,
        j < 9,
        m == spots(grid@, line(o as int, i as int), d as int),
    ensures
        view_of(r) == xwing_at(grid@, d as int, o as int, i as int, j as int),
{
    if !(i < j) || count(m) != 2 {
        return None;
    }
    let mj = digit_positions(grid, o * 9 + j, d);
    if mj != m {
        return None;
    }
    proof {
        lemma_pair_members(m);
    }
    let la = lowest_digit(m);
    let pa = (la - 1) as usize;
    let pb = (lowest_digit(remove(m, la)) - 1) as usize;
    let mut eliminations: Vec<(usize, u8)> = Vec::new();
    let ghost keep = xwing_keep_fn(grid@, d as int, o as int, i as int, j as int, pa as int, pb as int);
    let ghost item = xwing_item_fn(d as int, o as int, pa as int, pb as int);
    for t in 0..18usize
        invariant
            1 <= d <= 9,
            o < 2,
            pa < 9,
            pb < 9,
            keep == xwing_keep_fn(grid@, d as int, o as int, i as int, j as int, pa as int, pb as int),
            item == xwing_item_fn(d as int, o as int, pa as int, pb as int),
            eliminations@ == listing(t as int, keep, item),
    {
        let k = t % 9;
        let cover = (1 - o) * 9 + (if t / 9 == 0 {
            pa
        } else {
            pb
        });
        let cell = unit_cell(cover, k);
        if k != i && k != j && grid.values[cell] == 0 && contains(grid.candidates[cell], d) {
            eliminations.push((cell, d));
        }
    }
    eliminating_hint(Technique::XWing, eliminations)
}

/// The first X-wing of digit `d` in orientation `o` that eliminates something.
fn xwing_side(grid: &Grid, d: u8, o: usize) -> (r: Option<Hint>)
    requires
        1 <= d <= 9,
        o < 2,
    ensures
        view_of(r) == first_some(9, xwing_first_fn(grid@, d as int, o as int)),
{
    let ghost fi = xwing_first_fn(grid@, d as int, o as int);
    for i in 0..9usize
        invariant
            1 <= d <= 9,
            o < 2,
            fi == xwing_first_fn(grid@, d as int, o as int),
            first_some(i as int, fi) is None,
    {
        let m = digit_positions(grid, o * 9 + i, d);
        let ghost fj = xwing_second_fn(grid@, d as int, o as int, i as int);
        for j in 0..9usize
            invariant
                1 <= d <= 9,
                o < 2,
                i < 9,
                m == spots(grid@, line(o as int, i as int), d as int),
                fi == xwing_first_fn(grid@, d as int, o as int),
                fj == xwing_second_fn(grid@, d as int, o as int, i as int),
                first_some(i as int, fi) is None,
                first_some(j as int, fj) is None,
        {
            let r = xwing_hint_at(grid, d, o, i, j, m);
            if r.is_some() {
                proof {
                    lemma_first_some_at(j as int, 9, fj);
                    assert(fi(i as int) == fj(j as int));
                    lemma_first_some_at(i as int, 9, fi);
                }
                return r;
            }
            assert(fj(j as int) is None);
        }
        assert(fi(i as int) is None);
    }
    None
}

/// Looks for a digit with exactly two spots in each of two rows, in the same
/// two columns, and eliminates it from those columns in the other rows; or
/// the same with rows and columns exchanged.
pub fn detect_x_wing(grid: &Grid) -> (r: Option<Hint>)
    ensures
        view_of(r) == xwing(grid@),
{
    let ghost fd = xwing_digit_fn(grid@);
    for k in 0..9usize
        invariant
            fd == xwing_digit_fn(grid@),
            first_some(k as int, fd) is None,
    {
        let d = (k + 1) as u8;
        let ghost fo = xwing_side_fn(grid@, d as int);
        let rows = xwing_side(grid, d, 0);
        assert(view_of(rows) == fo(0));
        if rows.is_some() {
            proof {
                lemma_first_some_at(0, 2, fo);
                assert(fd(k as int) == fo(0));
                lemma_first_some_at(k as int, 9, fd);
            }
            return rows;
        }
        let cols = xwing_side(grid, d, 1);
        assert(view_of(cols) == fo(1));
        assert(first_some(1, fo) is None);
        if cols.is_some() {
            proof {
                lemma_first_some_at(1, 2, fo);
                assert(fd(k as int) == fo(1));
                lemma_first_some_at(k as int, 9, fd);
            }
            return cols;
        }
        assert(first_some(2, fo) is None);
        assert(fd(k as int) is None);
    }
    None
}

/// Cell `i` is empty and has exactly two candidates.
pub open spec fn bivalue(b: Board, i: int) -> bool {
    b.cells[i] == 0 && popcount(b.cands[i]) == 2
}

/// Three masks of two digits each form the candidates of a Y-wing with the
/// pivot `cp` and the wings `c1` and `c2`: each two of them share exactly
/// one digit, and no digit is in all three.
pub open spec fn ywing_shape(cp: u16, c1: u16, c2: u16) -> bool {
    &&& popcount(cp & c1) == 1
    &&& popcount(cp & c2) == 1
    &&& popcount(c1 & c2) == 1
    &&& popcount((cp & c1) & c2) == 0
}

/// The digit that the two wings share.
pub open spec fn ywing_digit(c1: u16, c2: u16) -> int {
    lowest_bit(c1 & c2) + 1
}

/// Cell `x` sees both wings and admits digit `c`, as a function of `x`.
pub open spec fn ywing_keep_fn(b: Board, w1: int, w2: int, c: int) -> spec_fn(int) -> bool {
    |x: int| sees(x, w1) && sees(x, w2) && b.cand(x, c)
}

/// The elimination of digit `c` at a cell, as a function of the cell.
pub open spec fn ywing_item_fn(c: int) -> spec_fn(int) -> (usize, u8) {
    |x: int| (x as usize, c as u8)
}

/// The Y-wing with the given pivot and wings: the three cells are empty and
/// have two candidates each, the pivot sees both wings, and the candidates
/// have the shape of a Y-wing. The digit that the wings share is eliminated
/// from every cell that sees both wings, in ascending cell order.
pub open spec fn ywing_at(b: Board, pivot: int, w1: int, w2: int) -> Option<HintView> {
    if bivalue(b, pivot) && bivalue(b, w1) && bivalue(b, w2) && sees(pivot, w1) && sees(pivot, w2)
        && ywing_shape(b.cands[pivot], b.cands[w1], b.cands[w2]) {
        eliminating_some(
            Technique::YWing,
            listing(
                81,
                ywing_keep_fn(b, w1, w2, ywing_digit(b.cands[w1], b.cands[w2])),
                ywing_item_fn(ywing_digit(b.cands[w1], b.cands[w2])),
            ),
        )
    } else {
        None
    }
}

/// The Y-wing of three cells in ascending order, each with two candidates:
/// the first of them that can be the pivot is tried first.
pub open spec fn ywing_triple(b: Board, c1: int, c2: int, c3: int) -> Option<HintView> {
    if c1 < c2 < c3 && bivalue(b, c1) && bivalue(b, c2) && bivalue(b, c3) {
        match ywing_at(b, c1, c2, c3) {
            Some(h) => Some(h),
            None => match ywing_at(b, c2, c1, c3) {
                Some(h) => Some(h),
                None => ywing_at(b, c3, c1, c2),
            },
        }
    } else {
        None
    }
}

/// `ywing_triple` as a function of the third cell.
pub open spec fn ywing_third_fn(b: Board, c1: int, c2: int) -> spec_fn(int) -> Option<HintView> {
    |c3: int| ywing_triple(b, c1, c2, c3)
}

/// The first Y-wing of two given first cells, as a function of the second.
pub open spec fn ywing_second_fn(b: Board, c1: int) -> spec_fn(int) -> Option<HintView> {
    |c2: int| first_some(81, ywing_third_fn(b, c1, c2))
}

/// The first Y-wing with a given first cell, as a function of that cell.
pub open spec fn ywing_first_fn(b: Board) -> spec_fn(int) -> Option<HintView> {
    |c1: int| first_some(81, ywing_second_fn(b, c1))
}

/// The first Y-wing that eliminates something, by its three cells in
/// ascending order.
pub open spec fn ywing(b: Board) -> Option<HintView> {
    first_some(81, ywing_first_fn(b))
}

/// Tests three cells for a Y-wing with the given pivot and wings, and builds
/// its hint.
pub fn check_y_wing(grid: &Grid, pivot: usize, wing1: usize, wing2: usize) -> (r: Option<Hint>)
    requires
        pivot < 81,
        wing1 < 81,
        wing2 < 81,
    ensures
        view_of(r) == ywing_at(grid@, pivot as int, wing1 as int, wing2 as int),
{
    if !is_bivalue(grid, pivot) || !is_bivalue(grid, wing1) || !is_bivalue(grid, wing2) {
        return None;
    }
    if pivot == wing1 || pivot == wing2 || !can_see(pivot, wing1) || !can_see(pivot, wing2) {
        return None;
    }
    let cand_pivot = grid.candidates[pivot];
    let cand_wing1 = grid.candidates[wing1];
    let cand_wing2 = grid.candidates[wing2];
    let common_wing1 = intersect(cand_pivot, cand_wing1);
    let common_wing2 = intersect(cand_pivot, cand_wing2);
    let shared = intersect(cand_wing1, cand_wing2);
    if count(common_wing1) != 1 || count(common_wing2) != 1 || count(shared) != 1 || count(
        intersect(common_wing1, cand_wing2),
    ) != 0 {
        return None;
    }
    let digit_c = lowest_digit(shared);
    let mut eliminations: Vec<(usize, u8)> = Vec::new();
    let ghost keep = ywing_keep_fn(grid@, wing1 as int, wing2 as int, digit_c as int);
    let ghost item = ywing_item_fn(digit_c as int);
    proof {
        lemma_lowest_bit(shared);
    }
    for x in 0..SIZE
        invariant
            wing1 < 81,
            wing2 < 81,
            1 <= digit_c <= 9,
            keep == ywing_keep_fn(grid@, wing1 as int, wing2 as int, digit_c as int),
            item == ywing_item_fn(digit_c as int),
            eliminations@ == listing(x as int, keep, item),
    {
        if x != wing1 && x != wing2 && can_see(x, wing1) && can_see(x, wing2) && grid.values[x] == 0 && contains(
            grid.candidates[x],
            digit_c,
        ) {
            eliminations.push((x, digit_c));
        }
    }
    eliminating_hint(Technique::YWing, eliminations)
}

/// Whether cell `i` is empty and has exactly two candidates.
fn is_bivalue(grid: &Grid, i: usize) -> (r: bool)
    requires
        i < 81,
    ensures
        r == bivalue(grid@, i as int),
{
    grid.values[i] == 0 && count(grid.candidates[i]) == 2
}

/// The Y-wing hint of three cells, each of them tried as the pivot in turn.
fn ywing_triple_hint(grid: &Grid, c1: usize, c2: usize, c3: usize) -> (r: Option<Hint>)
    requires
        c1 < 81,
        c2 < 81,
        c3 < 81,
    ensures
        view_of(r) == ywing_triple(grid@, c1 as int, c2 as int, c3 as int),
{
    if !(c1 < c2 && c2 < c3) || !is_bivalue(grid, c1) || !is_bivalue(grid, c2) || !is_bivalue(
        grid,
        c3,
    ) {
        return None;
    }
    let r = check_y_wing(grid, c1, c2, c3);
    if r.is_some() {
        return r;
    }
    let r = check_y_wing(grid, c2, c1, c3);
    if r.is_some() {
        return r;
    }
    check_y_wing(grid, c3, c1, c2)
}

/// Looks among the cells with two candidates for a pivot and two wings that
/// the pivot sees, where each wing shares one digit with the pivot and both
/// wings share a third digit, and eliminates that digit from every cell that
/// sees both wings.
pub fn detect_y_wing(grid: &Grid) -> (r: Option<Hint>)
    ensures
        view_of(r) == ywing(grid@),
{
    let ghost f1 = ywing_first_fn(grid@);
    for c1 in 0..SIZE
        invariant
            f1 == ywing_first_fn(grid@),
            first_some(c1 as int, f1) is None,
    {
        let ghost f2 = ywing_second_fn(grid@, c1 as int);
        if is_bivalue(grid, c1) {
            for c2 in 0..SIZE
                invariant
                    c1 < 81,
                    f1 == ywing_first_fn(grid@),
                    f2 == ywing_second_fn(grid@, c1 as int),
                    first_some(c1 as int, f1) is None,
                    first_some(c2 as int, f2) is None,
            {
                let ghost f3 = ywing_third_fn(grid@, c1 as int, c2 as int);
                if c1 < c2 && is_bivalue(grid, c2) {
                    for c3 in 0..SIZE
                        invariant
                            c1 < 81,
                            c2 < 81,
                            f1 == ywing_first_fn(grid@),
                            f2 == ywing_second_fn(grid@, c1 as int),
                            f3 == ywing_third_fn(grid@, c1 as int, c2 as int),
                            first_some(c1 as int, f1) is None,
                            first_some(c2 as int, f2) is None,
                            first_some(c3 as int, f3) is None,
                    {
                        let r = ywing_triple_hint(grid, c1, c2, c3);
                        if r.is_some() {
                            proof {
                                lemma_first_some_at(c3 as int, 81, f3);
                                assert(f2(c2 as int) == f3(c3 as int));
                                lemma_first_some_at(c2 as int, 81, f2);
                                assert(f1(c1 as int) == f2(c2 as int));
                                lemma_first_some_at(c1 as int, 81, f1);
                            }
                            return r;
                        }
                        assert(f3(c3 as int) is None);
                    }
                } else {
                    proof {
                        assert forall|c3: int| 0 <= c3 < 81 implies (#[trigger] f3(c3)) is None by {}
                        lemma_first_none(81, f3);
                    }
                }
                assert(f2(c2 as int) is None);
            }
        } else {
            proof {
                assert forall|c2: int| 0 <= c2 < 81 implies (#[trigger] f2(c2)) is None by {
                    let f3 = ywing_third_fn(grid@, c1 as int, c2);
                    assert forall|c3: int| 0 <= c3 < 81 implies (#[trigger] f3(c3)) is None by {}
                    lemma_first_none(81, f3);
                }
                lemma_first_none(81, f2);
            }
        }
        assert(f1(c1 as int) is None);
    }
    None
}


/// A row and a column cross in one cell: position `p` of line `i` is
/// position `i` of the crossing line `p`.
pub proof fn lemma_crossing(o: int, i: int, p: int)
    requires
        0 <= o < 2,
        0 <= i < 9,
        0 <= p < 9,
    ensures
        cell_at(line(o, i), p) == cell_at(line(1 - o, p), i),
{
}

/// The hint of an X-wing can be applied, and on a pruned board no
/// completion has the digit at a cell it is eliminated from.
pub proof fn lemma_xwing_at(b: Board, d: int, o: int, i: int, j: int, h: HintView)
    requires
        b.wf(),
        1 <= d <= 9,
        0 <= o < 2,
        0 <= i < 9,
        0 <= j < 9,
        xwing_at(b, d, o, i, j) == Some(h),
    ensures
        applicable(b, h),
        one_kind(h),
        pruned(b) ==> forall|s: Seq<u8>| #[trigger] completes(b, s) ==> agrees(h, s),
{
    let m = spots(b, line(o, i), d);
    lemma_pair_members(m);
    let pa = lowest_bit(m) as int;
    let pb = lowest_bit(without(m, lowest_bit(m))) as int;
    let keep = xwing_keep_fn(b, d, o, i, j, pa, pb);
    let item = xwing_item_fn(d, o, pa, pb);
    lemma_spots(b, line(o, i), d);
    lemma_spots(b, line(o, j), d);
    assert forall|n: int| 0 <= n < h.eliminations.len() implies 0 <= (#[trigger] h.eliminations[n]).0
        < 81 && b.cand(h.eliminations[n].0 as int, h.eliminations[n].1 as int) by {
        let t = lemma_listing_entry(18, keep, item, n);
        assert(keep(t));
        lemma_cell_at(xwing_cover(o, pa, pb, t), t % 9);
    }
    assert forall|s: Seq<u8>| pruned(b) && #[trigger] completes(b, s) implies agrees(h, s) by {
        lemma_pruned_spots(b, line(o, i), d, pa);
        lemma_pruned_spots(b, line(o, j), d, pa);
        let q1 = lemma_digit_spot(b, s, line(o, i), d);
        let q2 = lemma_digit_spot(b, s, line(o, j), d);
        assert(bit(m, q1 as u16) && bit(m, q2 as u16));
        lemma_crossing(o, i, q1);
        lemma_crossing(o, j, q2);
        if q1 == q2 {
            lemma_unit_peers(line(1 - o, q1), i, j);
            lemma_cell_at(line(1 - o, q1), i);
            lemma_cell_at(line(1 - o, q1), j);
        }
        assert forall|n: int| 0 <= n < h.eliminations.len() implies s[(
        #[trigger] h.eliminations[n]).0 as int] != h.eliminations[n].1 by {
            let t = lemma_listing_entry(18, keep, item, n);
            assert(keep(t));
            let cover = xwing_cover(o, pa, pb, t);
            let pc = if t / 9 == 0 {
                pa
            } else {
                pb
            };
            lemma_cell_at(cover, t % 9);
            if q1 == pc {
                lemma_unit_peers(cover, t % 9, i);
                lemma_cell_at(cover, i);
            } else {
                assert(q2 == pc);
                lemma_unit_peers(cover, t % 9, j);
                lemma_cell_at(cover, j);
            }
        }
    }
}

/// An X-wing hint can be applied, and on a pruned board no completion has
/// the digit at a cell it is eliminated from.
pub proof fn lemma_xwing(b: Board, h: HintView)
    requires
        b.wf(),
        xwing(b) == Some(h),
    ensures
        applicable(b, h),
        one_kind(h),
        pruned(b) ==> forall|s: Seq<u8>| #[trigger] completes(b, s) ==> agrees(h, s),
{
    let k = lemma_first_some_witness(9, xwing_digit_fn(b));
    let o = lemma_first_some_witness(2, xwing_side_fn(b, k + 1));
    let i = lemma_first_some_witness(9, xwing_first_fn(b, k + 1, o));
    let j = lemma_first_some_witness(9, xwing_second_fn(b, k + 1, o, i));
    lemma_xwing_at(b, k + 1, o, i, j, h);
}

/// A mask of two digits that holds `x` and `y`, two different digits, holds
/// no third.
pub proof fn lemma_bivalue_members(m: u16, x: int, y: int, z: int)
    requires
        popcount(m) == 2,
        has_digit(m, x),
        has_digit(m, y),
        has_digit(m, z),
        x != y,
    ensures
        z == x || z == y,
{
    if z != x && z != y {
        lemma_three_members(m, (x - 1) as u16, (y - 1) as u16, (z - 1) as u16);
    }
}

/// The hint of a Y-wing can be applied, and no completion has the digit at a
/// cell it is eliminated from.
pub proof fn lemma_ywing_at(b: Board, pivot: int, w1: int, w2: int, h: HintView)
    requires
        b.wf(),
        0 <= pivot < 81,
        0 <= w1 < 81,
        0 <= w2 < 81,
        ywing_at(b, pivot, w1, w2) == Some(h),
    ensures
        applicable(b, h),
        one_kind(h),
        forall|s: Seq<u8>| #[trigger] completes(b, s) ==> agrees(h, s),
{
    let cp = b.cands[pivot];
    let c1 = b.cands[w1];
    let c2 = b.cands[w2];
    let c = ywing_digit(c1, c2);
    let keep = ywing_keep_fn(b, w1, w2, c);
    let item = ywing_item_fn(c);
    lemma_bits_and(cp, c1);
    lemma_bits_and(cp, c2);
    lemma_bits_and(c1, c2);
    lemma_bits_and(cp & c1, c2);
    lemma_lowest_bit(cp & c1);
    lemma_lowest_bit(cp & c2);
    lemma_lowest_bit(c1 & c2);
    let a = lowest_bit(cp & c1) + 1;
    let bb = lowest_bit(cp & c2) + 1;
    assert(has_digit(cp, a) && has_digit(c1, a));
    assert(has_digit(cp, bb) && has_digit(c2, bb));
    assert(has_digit(c1, c) && has_digit(c2, c));
    if has_digit(c2, a) {
        lemma_one_member((cp & c1) & c2, (a - 1) as u16);
    }
    if has_digit(cp, c) {
        lemma_one_member((cp & c1) & c2, (c - 1) as u16);
    }
    assert(a != bb && a != c && bb != c);
    assert forall|n: int| 0 <= n < h.eliminations.len() implies 0 <= (#[trigger] h.eliminations[n]).0
        < 81 && b.cand(h.eliminations[n].0 as int, h.eliminations[n].1 as int) by {
        let x = lemma_listing_entry(81, keep, item, n);
        assert(keep(x));
    }
    assert forall|s: Seq<u8>| #[trigger] completes(b, s) implies agrees(h, s) by {
        assert(has_digit(cp, s[pivot] as int));
        assert(has_digit(c1, s[w1] as int));
        assert(has_digit(c2, s[w2] as int));
        lemma_bivalue_members(c1, a, c, s[w1] as int);
        lemma_bivalue_members(cp, a, bb, s[pivot] as int);
        lemma_bivalue_members(c2, bb, c, s[w2] as int);
        assert(s[pivot] != s[w1]);
        assert(s[pivot] != s[w2]);
        assert forall|n: int| 0 <= n < h.eliminations.len() implies s[(
        #[trigger] h.eliminations[n]).0 as int] != h.eliminations[n].1 by {
            let x = lemma_listing_entry(81, keep, item, n);
            assert(keep(x));
            assert(s[x] != s[w1]);
            assert(s[x] != s[w2]);
        }
    }
}

/// A Y-wing hint can be applied, and no completion has the digit at a cell
/// it is eliminated from.
pub proof fn lemma_ywing(b: Board, h: HintView)
    requires
        b.wf(),
        ywing(b) == Some(h),
    ensures
        applicable(b, h),
        one_kind(h),
        forall|s: Seq<u8>| #[trigger] completes(b, s) ==> agrees(h, s),
{
    let c1 = lemma_first_some_witness(81, ywing_first_fn(b));
    let c2 = lemma_first_some_witness(81, ywing_second_fn(b, c1));
    let c3 = lemma_first_some_witness(81, ywing_third_fn(b, c1, c2));
    if ywing_at(b, c1, c2, c3) is Some {
        lemma_ywing_at(b, c1, c2, c3, h);
    } else if ywing_at(b, c2, c1, c3) is Some {
        lemma_ywing_at(b, c2, c1, c3, h);
    } else {
        lemma_ywing_at(b, c3, c1, c2, h);
    }
}

} // verus!
