//! Simple coloring: the cells that a digit is strongly linked through are
//! colored with two alternating colors.

use vstd::prelude::*;
use crate::bits::{
    bit, bit_at, contains, count, lemma_pair_members, lowest_bit, lowest_digit, popcount, remove,
    without,
};
use crate::units::{
    box_index, box_of, can_see, cell_at, col, col_of, in_unit, lemma_cell_at, lemma_place_in,
    lemma_unit_peers, place_in, row, row_of, sees, SIZE, unit_cell,
};
use crate::grid::{Board, Grid};
use crate::hint::{
    agrees, applicable, eliminating_hint, eliminating_some, Hint, HintView, one_kind, Technique,
    view_of,
};
use crate::scan::{
    first_some, lemma_first_some_at, lemma_first_some_witness, lemma_listing_entry, listing,
};
use crate::solver::{completes, empties_upto, lemma_empties_fill, pruned};
use crate::deduce::{digit_positions, lemma_digit_spot, lemma_pruned_spots, lemma_spots, spots};

verus! {

/// The `i`-th unit that cell `c` lies in: its row for 0, its column
/// for 1, its box for 2.
pub open spec fn home_unit(c: int, i: int) -> int {
    if i == 0 {
        row_of(c)
    } else if i == 1 {
        9 + col_of(c)
    } else {
        18 + box_of(c)
    }
}

/// The cell that `c` is strongly linked to in unit `u` for digit `d`: the
/// unit has exactly two spots for the digit, `c` is one, and this is the
/// other.
pub open spec fn partner(b: Board, d: int, u: int, c: int) -> Option<usize> {
    let m = spots(b, u, d);
    let pa = lowest_bit(m);
    let pb = lowest_bit(without(m, pa));
    if popcount(m) == 2 && bit(m, place_in(u, c) as u16) {
        Some(
            cell_at(
                u,
                if place_in(u, c) == pa {
                    pb as int
                } else {
                    pa as int
                },
            ) as usize,
        )
    } else {
        None
    }
}

/// The strong link of cell `c` through its row, column or box.
pub open spec fn link(b: Board, d: int, c: int, i: int) -> Option<usize> {
    partner(b, d, home_unit(c, i), c)
}

/// Cell `c` has a strong link for digit `d`.
pub open spec fn linked(b: Board, d: int, c: int) -> bool {
    link(b, d, c, 0) is Some || link(b, d, c, 1) is Some || link(b, d, c, 2) is Some
}

/// The state of a coloring: the color of each cell (0 for none, 1 and 2 for
/// the two colors of the component being colored, 3 for a cell of a
/// component colored before), the cells that are colored and not yet
/// visited, and the cells of each color in the order they were colored.
pub struct Paint {
    pub colors: Seq<u8>,
    pub stack: Seq<usize>,
    pub a: Seq<usize>,
    pub b: Seq<usize>,
}

/// What bounds the work left: twice the uncolored cells, and the cells to visit.
pub open spec fn weight(p: Paint) -> int {
    2 * empties_upto(p.colors, 81) + p.stack.len()
}

/// Colors cell `n` with `next` if it has no color yet.
pub open spec fn paint_one(p: Paint, n: usize, next: u8) -> Paint {
    if p.colors[n as int] == 0 {
        Paint {
            colors: p.colors.update(n as int, next),
            stack: p.stack.push(n),
            a: if next == 1 {
                p.a.push(n)
            } else {
                p.a
            },
            b: if next == 1 {
                p.b
            } else {
                p.b.push(n)
            },
        }
    } else {
        p
    }
}

/// Colors the uncolored cells that `node` is linked to through its units,
/// from the `i`-th on.
pub open spec fn visit(b: Board, d: int, p: Paint, node: int, next: u8, i: int) -> Paint
    decreases 3 - i,
{
    if i < 0 || i >= 3 {
        p
    } else {
        visit(
            b,
            d,
            match link(b, d, node, i) {
                Some(n) => paint_one(p, n, next),
                None => p,
            },
            node,
            next,
            i + 1,
        )
    }
}

/// The colors and the cells to visit are in range.
pub open spec fn paint_ok(p: Paint) -> bool {
    &&& p.colors.len() == 81
    &&& forall|k: int| 0 <= k < p.stack.len() ==> #[trigger] p.stack[k] < 81
}

/// The other color.
pub open spec fn other(color: u8) -> u8 {
    if color == 1 {
        2
    } else {
        1
    }
}

/// The state once the last cell to visit is taken off.
pub open spec fn popped(p: Paint) -> Paint {
    Paint { colors: p.colors, stack: p.stack.drop_last(), a: p.a, b: p.b }
}

/// A cell lies in each of its three units.
pub proof fn lemma_home_unit(c: int, i: int)
    requires
        0 <= c < 81,
        0 <= i < 3,
    ensures
        0 <= home_unit(c, i) < 27,
        in_unit(home_unit(c, i), c),
        0 <= place_in(home_unit(c, i), c) < 9,
        cell_at(home_unit(c, i), place_in(home_unit(c, i), c)) == c,
{
    lemma_place_in(home_unit(c, i), c);
}

/// What a cell is linked to is a cell of the board.
pub proof fn lemma_link_range(b: Board, d: int, c: int, i: int)
    requires
        0 <= c < 81,
        0 <= i < 3,
    ensures
        0 <= home_unit(c, i) < 27,
        in_unit(home_unit(c, i), c),
        link(b, d, c, i) matches Some(n) ==> n < 81,
{
    let u = home_unit(c, i);
    lemma_home_unit(c, i);
    if link(b, d, c, i) is Some {
        let m = spots(b, u, d);
        lemma_pair_members(m);
        lemma_cell_at(u, lowest_bit(m) as int);
        lemma_cell_at(u, lowest_bit(without(m, lowest_bit(m))) as int);
    }
}

/// Coloring the links of a cell keeps the state in range and does not raise
/// its weight.
pub proof fn lemma_visit_weight(b: Board, d: int, p: Paint, node: int, next: u8, i: int)
    requires
        paint_ok(p),
        0 <= node < 81,
        0 <= i <= 3,
        1 <= next <= 2,
    ensures
        paint_ok(visit(b, d, p, node, next, i)),
        weight(visit(b, d, p, node, next, i)) <= weight(p),
    decreases 3 - i,
{
    if i < 3 {
        lemma_link_range(b, d, node, i);
        let q = match link(b, d, node, i) {
            Some(n) => paint_one(p, n, next),
            None => p,
        };
        if link(b, d, node, i) is Some {
            let n = link(b, d, node, i)->0;
            if p.colors[n as int] == 0 {
                lemma_empties_fill(p.colors, n as int, next, 81);
            }
        }
        lemma_visit_weight(b, d, q, node, next, i + 1);
    }
}

/// The number of empty entries is not negative.
pub proof fn lemma_empties_nonneg(s: Seq<u8>, n: int)
    ensures
        empties_upto(s, n) >= 0,
    decreases n,
{
    if n > 0 {
        lemma_empties_nonneg(s, n - 1);
    }
}

/// Visiting a cell lowers the weight.
pub proof fn lemma_step_weight(b: Board, d: int, p: Paint)
    requires
        p.stack.len() > 0,
        paint_ok(p),
    ensures
        0 <= weight(
            visit(b, d, popped(p), p.stack.last() as int, other(p.colors[p.stack.last() as int]), 0),
        ) < weight(p),
        paint_ok(
            visit(b, d, popped(p), p.stack.last() as int, other(p.colors[p.stack.last() as int]), 0),
        ),
{
    let node = p.stack.last();
    assert(p.stack[p.stack.len() - 1] < 81);
    let next = other(p.colors[node as int]);
    lemma_visit_weight(b, d, popped(p), node as int, next, 0);
    lemma_empties_nonneg(visit(b, d, popped(p), node as int, next, 0).colors, 81);
}

/// The state when no cell is left to visit: the last colored cell is taken
/// off, its uncolored links get the other color, and so on.
pub open spec fn spread(b: Board, d: int, p: Paint) -> Paint
    decreases weight(p),
{
    if p.stack.len() == 0 || !paint_ok(p) {
        p
    } else {
        proof {
            lemma_step_weight(b, d, p);
        }
        spread(
            b,
            d,
            visit(
                b,
                d,
                popped(p),
                p.stack.last() as int,
                other(p.colors[p.stack.last() as int]),
                0,
            ),
        )
    }
}

/// The state in which only `start` is colored, with the first color.
pub open spec fn seeded(colors: Seq<u8>, start: int) -> Paint {
    Paint {
        colors: colors.update(start, 1u8),
        stack: seq![start as usize],
        a: seq![start as usize],
        b: Seq::empty(),
    }
}

/// The colors once a component is done with: its cells count as colored
/// before.
pub open spec fn retire(colors: Seq<u8>) -> Seq<u8> {
    Seq::new(
        81,
        |i: int|
            if colors[i] == 0 {
                0u8
            } else {
                3u8
            },
    )
}

/// Two of the cells see each other.
pub open spec fn clash(cells: Seq<usize>) -> bool {
    exists|i: int, j: int|
        0 <= i < j < cells.len() && sees(#[trigger] cells[i] as int, #[trigger] cells[j] as int)
}

/// The digit at each of the cells, in their order.
pub open spec fn all_of(cells: Seq<usize>, d: int) -> Seq<(usize, u8)> {
    Seq::new(cells.len(), |k: int| (cells[k], d as u8))
}

/// Cell `i` sees a cell of the given color.
pub open spec fn lit(colors: Seq<u8>, i: int, color: u8) -> bool {
    exists|j: int| 0 <= j < 81 && sees(i, j) && #[trigger] colors[j] == color
}

/// Cell `i` admits the digit, is outside the component, and sees a cell of
/// each color.
pub open spec fn witness_keep(b: Board, d: int, colors: Seq<u8>, i: int) -> bool {
    b.cand(i, d) && colors[i] != 1 && colors[i] != 2 && lit(colors, i, 1) && lit(colors, i, 2)
}

/// `witness_keep` as a function of the cell.
pub open spec fn witness_keep_fn(b: Board, d: int, colors: Seq<u8>) -> spec_fn(int) -> bool {
    |i: int| witness_keep(b, d, colors, i)
}

/// The elimination of digit `d` at a cell, as a function of the cell.
pub open spec fn witness_item_fn(d: int) -> spec_fn(int) -> (usize, u8) {
    |i: int| (i as usize, d as u8)
}

/// The hint of a colored component. Where two cells of the first color see
/// each other, the digit is eliminated from every cell of that color, in the
/// order they were colored; else the same for the second color; else the
/// digit is eliminated from every cell outside the component that sees both
/// colors, in ascending cell order.
pub open spec fn verdict(b: Board, d: int, p: Paint) -> Option<HintView> {
    if clash(p.a) {
        eliminating_some(Technique::SimpleColoring, all_of(p.a, d))
    } else if clash(p.b) {
        eliminating_some(Technique::SimpleColoring, all_of(p.b, d))
    } else {
        eliminating_some(
            Technique::SimpleColoring,
            listing(81, witness_keep_fn(b, d, p.colors), witness_item_fn(d)),
        )
    }
}

/// The first hint among the components of digit `d` that start at cell
/// `start` or later, where `colors` marks the cells colored before. A
/// component starts at the first linked cell without a color.
pub open spec fn color_from(b: Board, d: int, colors: Seq<u8>, start: int) -> Option<HintView>
    decreases 81 - start,
{
    if start < 0 || start >= 81 {
        None
    } else if colors[start] == 0 && linked(b, d, start) {
        match verdict(b, d, spread(b, d, seeded(colors, start))) {
            Some(h) => Some(h),
            None => color_from(b, d, retire(spread(b, d, seeded(colors, start)).colors), start + 1),
        }
    } else {
        color_from(b, d, colors, start + 1)
    }
}

/// No cell has a color.
pub open spec fn uncolored() -> Seq<u8> {
    Seq::new(81, |i: int| 0u8)
}

/// The coloring hint of digit `k + 1`, as a function of `k`.
pub open spec fn coloring_digit_fn(b: Board) -> spec_fn(int) -> Option<HintView> {
    |k: int| color_from(b, k + 1, uncolored(), 0)
}

/// The hint of the least digit, and for it the first component, that has one.
pub open spec fn simple_coloring(b: Board) -> Option<HintView> {
    first_some(9, coloring_digit_fn(b))
}

/// The `i`-th unit of cell `c`, and the position of `c` in it.
fn home(c: usize, i: usize) -> (r: (usize, usize))
    requires
        c < 81,
        i < 3,
    ensures
        r.0 == home_unit(c as int, i as int),
        r.1 == place_in(r.0 as int, c as int),
        r.0 < 27,
        r.1 < 9,
{
    proof {
        lemma_home_unit(c as int, i as int);
    }
    if i == 0 {
        (row(c), col(c))
    } else if i == 1 {
        (9 + col(c), row(c))
    } else {
        (18 + box_index(c), (row(c) % 3) * 3 + col(c) % 3)
    }
}

/// The cell that `c` is strongly linked to through its `i`-th unit.
fn link_of(grid: &Grid, d: u8, c: usize, i: usize) -> (r: Option<usize>)
    requires
        1 <= d <= 9,
        c < 81,
        i < 3,
    ensures
        r == link(grid@, d as int, c as int, i as int),
        r matches Some(n) ==> n < 81,
{
    let (u, pos) = home(c, i);
    let m = digit_positions(grid, u, d);
    if count(m) == 2 && bit_at(m, pos) {
        proof {
            lemma_pair_members(m);
        }
        let la = lowest_digit(m);
        let pa = (la - 1) as usize;
        let pb = (lowest_digit(remove(m, la)) - 1) as usize;
        Some(
            unit_cell(
                u,
                if pos == pa {
                    pb
                } else {
                    pa
                },
            ),
        )
    } else {
        None
    }
}

/// Whether two of the cells see each other.
pub fn check_color_conflict_fast(cells: &Vec<usize>) -> (r: bool)
    ensures
        r == clash(cells@),
{
    let n = cells.len();
    for i in 0..n
        invariant
            n == cells.len(),
            forall|x: int, y: int|
                0 <= x < i && x < y < n ==> !sees(#[trigger] cells[x] as int, #[trigger] cells[y] as int),
    {
        for j in (i + 1)..n
            invariant
                n == cells.len(),
                i < n,
                forall|x: int, y: int|
                    0 <= x < i && x < y < n ==> !sees(
                        #[trigger] cells[x] as int,
                        #[trigger] cells[y] as int,
                    ),
                forall|y: int| i < y < j ==> !sees(cells[i as int] as int, #[trigger] cells[y] as int),
        {
            if cells[i] != cells[j] && can_see(cells[i], cells[j]) {
                assert(sees(cells@[i as int] as int, cells@[j as int] as int));
                return true;
            }
        }
    }
    false
}

/// Whether cell `i` sees a cell of the given color.
fn sees_color(colors: &[u8; 81], i: usize, color: u8) -> (r: bool)
    requires
        i < 81,
    ensures
        r == lit(colors@, i as int, color),
{
    for j in 0..SIZE
        invariant
            i < 81,
            forall|k: int| 0 <= k < j && sees(i as int, k) ==> #[trigger] colors@[k] != color,
    {
        if j != i && colors[j] == color && can_see(i, j) {
            assert(sees(i as int, j as int) && colors@[j as int] == color);
            return true;
        }
    }
    false
}

/// The digit at each of the cells.
fn pairs_of(cells: &Vec<usize>, d: u8) -> (r: Vec<(usize, u8)>)
    ensures
        r@ == all_of(cells@, d as int),
{
    let mut r: Vec<(usize, u8)> = Vec::new();
    for k in 0..cells.len()
        invariant
            r@.len() == k,
            forall|j: int| 0 <= j < k ==> r@[j] == (cells@[j], d),
    {
        r.push((cells[k], d));
    }
    assert(r@ =~= all_of(cells@, d as int));
    r
}

/// The hint of a colored component.
fn verdict_hint(grid: &Grid, d: u8, colors: &[u8; 81], a: &Vec<usize>, b: &Vec<usize>) -> (r: Option<
    Hint,
>)
    requires
        1 <= d <= 9,
    ensures
        view_of(r) == verdict(
            grid@,
            d as int,
            (Paint { colors: colors@, stack: Seq::empty(), a: a@, b: b@ }),
        ),
{
    if check_color_conflict_fast(a) {
        return eliminating_hint(Technique::SimpleColoring, pairs_of(a, d));
    }
    if check_color_conflict_fast(b) {
        return eliminating_hint(Technique::SimpleColoring, pairs_of(b, d));
    }
    let mut eliminations: Vec<(usize, u8)> = Vec::new();
    let ghost keep = witness_keep_fn(grid@, d as int, colors@);
    let ghost item = witness_item_fn(d as int);
    for i in 0..SIZE
        invariant
            1 <= d <= 9,
            keep == witness_keep_fn(grid@, d as int, colors@),
            item == witness_item_fn(d as int),
            eliminations@ == listing(i as int, keep, item),
    {
        if grid.values[i] == 0 && contains(grid.candidates[i], d) && colors[i] != 1 && colors[i] != 2
            && sees_color(colors, i, 1) && sees_color(colors, i, 2) {
            eliminations.push((i, d));
        }
    }
    eliminating_hint(Technique::SimpleColoring, eliminations)
}

/// Colors the component of `start`, and returns its hint if it has one.
/// Without a hint the cells of the component are marked as colored before.
fn color_component(grid: &Grid, d: u8, colors: &mut [u8; 81], start: usize) -> (r: Option<Hint>)
    requires
        1 <= d <= 9,
        start < 81,
        old(colors)@[start as int] == 0,
    ensures
        view_of(r) == verdict(grid@, d as int, spread(grid@, d as int, seeded(old(colors)@, start as int))),
        r is None ==> final(colors)@ == retire(
            spread(grid@, d as int, seeded(old(colors)@, start as int)).colors,
        ),
{
    let ghost b = grid@;
    let ghost begin = seeded(colors@, start as int);
    colors[start] = 1;
    let mut stack: Vec<usize> = Vec::new();
    let mut color_a: Vec<usize> = Vec::new();
    let mut color_b: Vec<usize> = Vec::new();
    stack.push(start);
    color_a.push(start);
    assert(stack@ =~= begin.stack && color_a@ =~= begin.a && color_b@ =~= begin.b);
    while stack.len() > 0
        invariant
            1 <= d <= 9,
            b == grid@,
            paint_ok(Paint { colors: colors@, stack: stack@, a: color_a@, b: color_b@ }),
            forall|k: int| 0 <= k < color_a.len() ==> #[trigger] color_a[k] < 81,
            forall|k: int| 0 <= k < color_b.len() ==> #[trigger] color_b[k] < 81,
            spread(b, d as int, begin) == spread(
                b,
                d as int,
                Paint { colors: colors@, stack: stack@, a: color_a@, b: color_b@ },
            ),
        decreases weight(Paint { colors: colors@, stack: stack@, a: color_a@, b: color_b@ }),
    {
        let ghost before = Paint { colors: colors@, stack: stack@, a: color_a@, b: color_b@ };
        let node = stack.pop().unwrap();
        let next: u8 = if colors[node] == 1 {
            2
        } else {
            1
        };
        assert(Paint { colors: colors@, stack: stack@, a: color_a@, b: color_b@ } == popped(before));
        proof {
            lemma_step_weight(b, d as int, before);
        }
        for i in 0..3usize
            invariant
                1 <= d <= 9,
                b == grid@,
                node < 81,
                1 <= next <= 2,
                paint_ok(Paint { colors: colors@, stack: stack@, a: color_a@, b: color_b@ }),
                forall|k: int| 0 <= k < color_a.len() ==> #[trigger] color_a[k] < 81,
                forall|k: int| 0 <= k < color_b.len() ==> #[trigger] color_b[k] < 81,
                visit(b, d as int, popped(before), node as int, next, 0) == visit(
                    b,
                    d as int,
                    Paint { colors: colors@, stack: stack@, a: color_a@, b: color_b@ },
                    node as int,
                    next,
                    i as int,
                ),
        {
            let ghost cur = Paint { colors: colors@, stack: stack@, a: color_a@, b: color_b@ };
            match link_of(grid, d, node, i) {
                Some(neighbor) => {
                    if colors[neighbor] == 0 {
                        colors[neighbor] = next;
                        stack.push(neighbor);
                        if next == 1 {
                            color_a.push(neighbor);
                        } else {
                            color_b.push(neighbor);
                        }
                    }
                    assert(Paint { colors: colors@, stack: stack@, a: color_a@, b: color_b@ }
                        == paint_one(cur, neighbor, next));
                },
                None => {},
            }
        }
        proof {
            let cur = Paint { colors: colors@, stack: stack@, a: color_a@, b: color_b@ };
            assert(visit(b, d as int, cur, node as int, next, 3) == cur);
            assert(cur == visit(b, d as int, popped(before), node as int, next, 0));
            assert(spread(b, d as int, before) == spread(b, d as int, cur));
        }
    }
    let r = verdict_hint(grid, d, colors, &color_a, &color_b);
    proof {
        let done = Paint { colors: colors@, stack: stack@, a: color_a@, b: color_b@ };
        assert(stack@ =~= Seq::empty());
        assert(spread(b, d as int, done) == done);
    }
    if r.is_none() {
        let ghost done = colors@;
        for i in 0..SIZE
            invariant
                done.len() == 81,
                forall|k: int| 0 <= k < i ==> #[trigger] colors@[k] == retire(done)[k],
                forall|k: int| i <= k < 81 ==> #[trigger] colors@[k] == done[k],
        {
            if colors[i] != 0 {
                colors[i] = 3;
            }
        }
        assert(colors@ =~= retire(done));
    }
    r
}

/// Whether cell `c` has a strong link for digit `d`.
fn is_linked(grid: &Grid, d: u8, c: usize) -> (r: bool)
    requires
        1 <= d <= 9,
        c < 81,
    ensures
        r == linked(grid@, d as int, c as int),
{
    link_of(grid, d, c, 0).is_some() || link_of(grid, d, c, 1).is_some() || link_of(
        grid,
        d,
        c,
        2,
    ).is_some()
}

/// For each digit, joins the cells that are the only two spots of the digit
/// in some unit, and colors each connected component with two alternating
/// colors. Where two cells of one color see each other, the digit is
/// eliminated from all cells of that color; otherwise it is eliminated from
/// the cells outside the component that see both colors.
pub fn detect_simple_coloring(grid: &Grid) -> (r: Option<Hint>)
    ensures
        view_of(r) == simple_coloring(grid@),
{
    let ghost fd = coloring_digit_fn(grid@);
    for k in 0..9usize
        invariant
            fd == coloring_digit_fn(grid@),
            first_some(k as int, fd) is None,
    {
        let d = (k + 1) as u8;
        let mut colors = [0u8;81];
        assert(colors@ =~= uncolored());
        for start in 0..SIZE
            invariant
                d == k + 1,
                k < 9,
                fd == coloring_digit_fn(grid@),
                first_some(k as int, fd) is None,
                color_from(grid@, d as int, uncolored(), 0) == color_from(
                    grid@,
                    d as int,
                    colors@,
                    start as int,
                ),
        {
            if colors[start] == 0 && is_linked(grid, d, start) {
                let r = color_component(grid, d, &mut colors, start);
                if r.is_some() {
                    proof {
                        lemma_first_some_at(k as int, 9, fd);
                    }
                    return r;
                }
            }
        }
        assert(fd(k as int) is None);
    }
    None
}


/// The colored cells are spots of the digit, and the lists agree with the
/// colors.
pub open spec fn paint_sites(b: Board, d: int, p: Paint) -> bool {
    &&& paint_ok(p)
    &&& forall|x: int|
        0 <= x < 81 && (#[trigger] p.colors[x] == 1 || p.colors[x] == 2) ==> b.cand(x, d)
    &&& forall|k: int| 0 <= k < p.a.len() ==> #[trigger] p.a[k] < 81 && p.colors[p.a[k] as int] == 1
    &&& forall|k: int| 0 <= k < p.b.len() ==> #[trigger] p.b[k] < 81 && p.colors[p.b[k] as int] == 2
    &&& forall|k: int|
        0 <= k < p.stack.len() ==> p.colors[#[trigger] p.stack[k] as int] == 1
            || p.colors[p.stack[k] as int] == 2
}

/// In the solved grid `s` the cells of the first color hold the digit
/// exactly when `on_a` says so, and the cells of the second color exactly
/// when it says not.
pub open spec fn paint_parity(p: Paint, d: int, s: Seq<u8>, on_a: bool) -> bool {
    forall|x: int|
        0 <= x < 81 ==> (#[trigger] p.colors[x] == 1 ==> (s[x] == d) == on_a) && (p.colors[x] == 2 ==> (
        s[x] == d) == !on_a)
}

/// The two ends of a strong link are spots of the digit, and in a completion
/// of a pruned board exactly one of them holds it.
pub proof fn lemma_strong_link(b: Board, d: int, c: int, i: int, s: Seq<u8>)
    requires
        b.wf(),
        1 <= d <= 9,
        0 <= c < 81,
        0 <= i < 3,
        link(b, d, c, i) is Some,
    ensures
        link(b, d, c, i)->0 < 81,
        link(b, d, c, i)->0 != c,
        b.cand(c, d),
        b.cand(link(b, d, c, i)->0 as int, d),
        pruned(b) && completes(b, s) ==> (s[c] == d) != (s[link(b, d, c, i)->0 as int] == d),
{
    let u = home_unit(c, i);
    lemma_link_range(b, d, c, i);
    lemma_place_in(u, c);
    let m = spots(b, u, d);
    lemma_pair_members(m);
    lemma_spots(b, u, d);
    let pa = lowest_bit(m) as int;
    let pb = lowest_bit(without(m, lowest_bit(m))) as int;
    lemma_cell_at(u, pa);
    lemma_cell_at(u, pb);
    lemma_unit_peers(u, pa, pb);
    if pruned(b) && completes(b, s) {
        lemma_pruned_spots(b, u, d, pa);
        let q = lemma_digit_spot(b, s, u, d);
        assert(q == pa || q == pb);
    }
}

/// Visiting a cell keeps the invariants of a coloring.
pub proof fn lemma_visit_keeps(
    b: Board,
    d: int,
    p: Paint,
    node: int,
    next: u8,
    i: int,
    s: Seq<u8>,
    on_a: bool,
)
    requires
        b.wf(),
        1 <= d <= 9,
        paint_sites(b, d, p),
        0 <= node < 81,
        p.colors[node] == 1 || p.colors[node] == 2,
        next == other(p.colors[node]),
        0 <= i <= 3,
    ensures
        paint_sites(b, d, visit(b, d, p, node, next, i)),
        pruned(b) && completes(b, s) && paint_parity(p, d, s, on_a) ==> paint_parity(
            visit(b, d, p, node, next, i),
            d,
            s,
            on_a,
        ),
    decreases 3 - i,
{
    if i < 3 {
        let q = match link(b, d, node, i) {
            Some(n) => paint_one(p, n, next),
            None => p,
        };
        if link(b, d, node, i) is Some {
            lemma_strong_link(b, d, node, i, s);
            let n = link(b, d, node, i)->0;
            assert(paint_sites(b, d, q));
        }
        lemma_visit_keeps(b, d, q, node, next, i + 1, s, on_a);
    }
}

/// Spreading the colors keeps the invariants of a coloring, and leaves no
/// cell to visit.
pub proof fn lemma_spread_keeps(b: Board, d: int, p: Paint, s: Seq<u8>, on_a: bool)
    requires
        b.wf(),
        1 <= d <= 9,
        paint_sites(b, d, p),
    ensures
        paint_sites(b, d, spread(b, d, p)),
        spread(b, d, p).stack.len() == 0,
        pruned(b) && completes(b, s) && paint_parity(p, d, s, on_a) ==> paint_parity(
            spread(b, d, p),
            d,
            s,
            on_a,
        ),
    decreases weight(p),
{
    if p.stack.len() > 0 {
        lemma_step_weight(b, d, p);
        let node = p.stack.last();
        assert(p.stack[p.stack.len() - 1] == node);
        let next = other(p.colors[node as int]);
        let q = popped(p);
        assert(paint_sites(b, d, q)) by {
            assert forall|k: int| 0 <= k < q.stack.len() implies q.colors[#[trigger] q.stack[k] as int]
                == 1 || q.colors[q.stack[k] as int] == 2 by {
                assert(q.stack[k] == p.stack[k]);
            }
            assert forall|k: int| 0 <= k < q.stack.len() implies #[trigger] q.stack[k] < 81 by {
                assert(q.stack[k] == p.stack[k]);
            }
        }
        lemma_visit_keeps(b, d, q, node as int, next, 0, s, on_a);
        lemma_spread_keeps(b, d, visit(b, d, q, node as int, next, 0), s, on_a);
    }
}

/// The hint of a colored component can be applied, and agrees with every
/// solved grid in which the two colors alternate.
pub proof fn lemma_verdict(b: Board, d: int, p: Paint, h: HintView)
    requires
        b.wf(),
        1 <= d <= 9,
        paint_sites(b, d, p),
        verdict(b, d, p) == Some(h),
    ensures
        applicable(b, h),
        one_kind(h),
        forall|s: Seq<u8>, on_a: bool|
            completes(b, s) && #[trigger] paint_parity(p, d, s, on_a) ==> agrees(h, s),
{
    if clash(p.a) {
        let (i, j) = choose|i: int, j: int|
            0 <= i < j < p.a.len() && sees(#[trigger] p.a[i] as int, #[trigger] p.a[j] as int);
        assert forall|s: Seq<u8>, on_a: bool|
            completes(b, s) && #[trigger] paint_parity(p, d, s, on_a) implies agrees(h, s) by {
            assert(s[p.a[i] as int] != s[p.a[j] as int]);
            assert(p.colors[p.a[i] as int] == 1 && p.colors[p.a[j] as int] == 1);
            assert(!on_a);
            assert forall|k: int| 0 <= k < h.eliminations.len() implies s[(
            #[trigger] h.eliminations[k]).0 as int] != h.eliminations[k].1 by {
                assert(p.colors[p.a[k] as int] == 1);
            }
        }
        assert forall|k: int| 0 <= k < h.eliminations.len() implies 0 <= (
        #[trigger] h.eliminations[k]).0 < 81 && b.cand(
            h.eliminations[k].0 as int,
            h.eliminations[k].1 as int,
        ) by {
            assert(p.colors[p.a[k] as int] == 1);
        }
    } else if clash(p.b) {
        let (i, j) = choose|i: int, j: int|
            0 <= i < j < p.b.len() && sees(#[trigger] p.b[i] as int, #[trigger] p.b[j] as int);
        assert forall|s: Seq<u8>, on_a: bool|
            completes(b, s) && #[trigger] paint_parity(p, d, s, on_a) implies agrees(h, s) by {
            assert(s[p.b[i] as int] != s[p.b[j] as int]);
            assert(p.colors[p.b[i] as int] == 2 && p.colors[p.b[j] as int] == 2);
            assert(on_a);
            assert forall|k: int| 0 <= k < h.eliminations.len() implies s[(
            #[trigger] h.eliminations[k]).0 as int] != h.eliminations[k].1 by {
                assert(p.colors[p.b[k] as int] == 2);
            }
        }
        assert forall|k: int| 0 <= k < h.eliminations.len() implies 0 <= (
        #[trigger] h.eliminations[k]).0 < 81 && b.cand(
            h.eliminations[k].0 as int,
            h.eliminations[k].1 as int,
        ) by {
            assert(p.colors[p.b[k] as int] == 2);
        }
    } else {
        let keep = witness_keep_fn(b, d, p.colors);
        let item = witness_item_fn(d);
        assert forall|k: int| 0 <= k < h.eliminations.len() implies 0 <= (
        #[trigger] h.eliminations[k]).0 < 81 && b.cand(
            h.eliminations[k].0 as int,
            h.eliminations[k].1 as int,
        ) by {
            let x = lemma_listing_entry(81, keep, item, k);
            assert(keep(x));
        }
        assert forall|s: Seq<u8>, on_a: bool|
            completes(b, s) && #[trigger] paint_parity(p, d, s, on_a) implies agrees(h, s) by {
            assert forall|k: int| 0 <= k < h.eliminations.len() implies s[(
            #[trigger] h.eliminations[k]).0 as int] != h.eliminations[k].1 by {
                let x = lemma_listing_entry(81, keep, item, k);
                assert(keep(x));
                let j1 = choose|j: int| 0 <= j < 81 && sees(x, j) && #[trigger] p.colors[j] == 1;
                let j2 = choose|j: int| 0 <= j < 81 && sees(x, j) && #[trigger] p.colors[j] == 2;
                assert(s[x] != s[j1]);
                assert(s[x] != s[j2]);
            }
        }
    }
}

/// No cell has one of the two colors of a component in progress.
pub open spec fn settled(colors: Seq<u8>) -> bool {
    colors.len() == 81 && forall|x: int| 0 <= x < 81 ==> #[trigger] colors[x] == 0 || colors[x] == 3
}

/// A hint found among the components of a digit can be applied, and on a
/// pruned board no completion has the digit at a cell it is eliminated from.
pub proof fn lemma_color_from(b: Board, d: int, colors: Seq<u8>, start: int, h: HintView)
    requires
        b.wf(),
        1 <= d <= 9,
        settled(colors),
        0 <= start <= 81,
        color_from(b, d, colors, start) == Some(h),
    ensures
        applicable(b, h),
        one_kind(h),
        pruned(b) ==> forall|s: Seq<u8>| #[trigger] completes(b, s) ==> agrees(h, s),
    decreases 81 - start,
{
    if start < 81 {
        if colors[start] == 0 && linked(b, d, start) {
            let begin = seeded(colors, start);
            let i = if link(b, d, start, 0) is Some {
                0int
            } else if link(b, d, start, 1) is Some {
                1int
            } else {
                2int
            };
            lemma_strong_link(b, d, start, i, b.cells);
            assert(paint_sites(b, d, begin));
            let p = spread(b, d, begin);
            lemma_spread_keeps(b, d, begin, b.cells, true);
            if verdict(b, d, p) is Some {
                lemma_verdict(b, d, p, h);
                assert forall|s: Seq<u8>| pruned(b) && #[trigger] completes(b, s) implies agrees(
                    h,
                    s,
                ) by {
                    let on_a = s[start] == d;
                    assert(paint_parity(begin, d, s, on_a));
                    lemma_spread_keeps(b, d, begin, s, on_a);
                    assert(paint_parity(p, d, s, on_a));
                }
            } else {
                lemma_color_from(b, d, retire(p.colors), start + 1, h);
            }
        } else {
            lemma_color_from(b, d, colors, start + 1, h);
        }
    }
}

/// A coloring hint can be applied, and on a pruned board no completion has
/// the digit at a cell it is eliminated from.
pub proof fn lemma_simple_coloring(b: Board, h: HintView)
    requires
        b.wf(),
        simple_coloring(b) == Some(h),
    ensures
        applicable(b, h),
        one_kind(h),
        pruned(b) ==> forall|s: Seq<u8>| #[trigger] completes(b, s) ==> agrees(h, s),
{
    let k = lemma_first_some_witness(9, coloring_digit_fn(b));
    lemma_color_from(b, k + 1, uncolored(), 0, h);
}

} // verus!
