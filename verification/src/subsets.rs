//! Naked and hidden subsets of two, three and four.

use vstd::prelude::*;
use crate::bits::{
    bit, bit_at, contains, count, has_digit, intersect, lemma_bits_and, lemma_bits_const,
    lemma_bits_or, lemma_bits_single, lemma_bits_without, lemma_injection_popcount,
    lemma_popcount_without, lemma_zero_iff_empty, popcount, single, without,
};
use crate::units::{cell_at, lemma_cell_at, lemma_unit_peers, unit_cell, UNITS};
use crate::grid::{Board, Grid};
use crate::hint::{
    agrees, applicable, eliminating_hint, eliminating_some, Hint, HintView, one_kind, Technique,
    view_of,
};
use crate::scan::{
    first_some, lemma_first_some_at, lemma_first_some_witness, lemma_listing_entry, listing,
};
use crate::solver::{completes, pruned};
use crate::deduce::{
    digit_positions, holds, lemma_digit_spot, lemma_pruned_spots, lemma_spots, spots,
};

verus! {

/// The pair of cell and digit that index `t` of `0..81` stands for in unit
/// `u`: position `t / 9`, digit `t % 9 + 1`.
pub open spec fn unit_pair(u: int, t: int) -> (usize, u8) {
    (cell_at(u, t / 9) as usize, (t % 9 + 1) as u8)
}

/// `unit_pair` as a function of the index.
pub open spec fn unit_pair_fn(u: int) -> spec_fn(int) -> (usize, u8) {
    |t: int| unit_pair(u, t)
}

/// The technique that finds naked subsets of size `k`.
pub open spec fn naked_technique(k: int) -> Technique {
    if k == 2 {
        Technique::NakedPair
    } else if k == 3 {
        Technique::NakedTriple
    } else {
        Technique::NakedQuad
    }
}

/// The technique that finds hidden subsets of size `k`.
pub open spec fn hidden_technique(k: int) -> Technique {
    if k == 2 {
        Technique::HiddenPair
    } else if k == 3 {
        Technique::HiddenTriple
    } else {
        Technique::HiddenQuad
    }
}

/// A naked subset at the positions `sel` of unit `u`, with candidates `un`,
/// eliminates a digit of `un` from an empty cell at another position.
pub open spec fn naked_keep(b: Board, u: int, sel: u16, un: u16, t: int) -> bool {
    &&& !bit(sel, (t / 9) as u16)
    &&& b.cells[cell_at(u, t / 9)] == 0
    &&& has_digit(b.cands[cell_at(u, t / 9)] & un, t % 9 + 1)
}

/// `naked_keep` as a function of the index.
pub open spec fn naked_keep_fn(b: Board, u: int, sel: u16, un: u16) -> spec_fn(int) -> bool {
    |t: int| naked_keep(b, u, sel, un, t)
}

/// What a naked subset eliminates, by position and then by digit.
pub open spec fn naked_elims(b: Board, u: int, sel: u16, un: u16) -> Seq<(usize, u8)> {
    listing(81, naked_keep_fn(b, u, sel, un), unit_pair_fn(u))
}

/// The hint of the `k` chosen positions `sel`, whose candidates together are
/// `un`: they form a naked subset when `un` has `k` digits, and give a hint
/// when that eliminates something.
pub open spec fn naked_leaf(b: Board, u: int, k: int, sel: u16, un: u16) -> Option<HintView> {
    if popcount(un) == k {
        eliminating_some(naked_technique(k), naked_elims(b, u, sel, un))
    } else {
        None
    }
}

/// The first hint among the subsets that extend the chosen positions `sel`
/// by `need` empty cells at ascending positions, the next of them in
/// `lo..n`. Subsets are ordered by their positions, the first position
/// counting most.
pub open spec fn naked_scan(
    b: Board,
    u: int,
    k: int,
    need: int,
    lo: int,
    n: int,
    sel: u16,
    un: u16,
) -> Option<HintView>
    decreases need, n,
{
    if need <= 0 || lo < 0 || n <= lo {
        None
    } else {
        match naked_scan(b, u, k, need, lo, n - 1, sel, un) {
            Some(h) => Some(h),
            None => {
                let c = cell_at(u, n - 1);
                if b.cells[c] != 0 {
                    None
                } else if need == 1 {
                    naked_leaf(b, u, k, sel | single((n - 1) as u16), un | b.cands[c])
                } else {
                    naked_scan(
                        b,
                        u,
                        k,
                        need - 1,
                        n,
                        9,
                        sel | single((n - 1) as u16),
                        un | b.cands[c],
                    )
                }
            },
        }
    }
}

/// The first naked subset hint of a unit, as a function of the unit.
pub open spec fn naked_unit_fn(b: Board, k: int) -> spec_fn(int) -> Option<HintView> {
    |u: int| naked_scan(b, u, k, k, 0, 9, 0, 0)
}

/// The hint of the first unit, and in it the first naked subset of size `k`,
/// that eliminates something. Only the sizes two to four are looked for.
pub open spec fn naked_subset(b: Board, k: int) -> Option<HintView> {
    if 2 <= k <= 4 {
        first_some(27, naked_unit_fn(b, k))
    } else {
        None
    }
}

/// A hint found among the first positions stays the first when more
/// positions are looked at.
pub proof fn lemma_naked_scan_stable(
    b: Board,
    u: int,
    k: int,
    need: int,
    lo: int,
    m: int,
    n: int,
    sel: u16,
    un: u16,
)
    requires
        m <= n,
        naked_scan(b, u, k, need, lo, m, sel, un) is Some,
    ensures
        naked_scan(b, u, k, need, lo, n, sel, un) == naked_scan(b, u, k, need, lo, m, sel, un),
    decreases n,
{
    if m < n {
        lemma_naked_scan_stable(b, u, k, need, lo, m, n - 1, sel, un);
    }
}

/// A digit that is a candidate in at least one and at most `k` cells of the
/// unit.
pub open spec fn eligible(b: Board, u: int, k: int, d: int) -> bool {
    0 < popcount(spots(b, u, d)) <= k
}

/// A hidden subset of the digits `dsel`, confined to the positions `cu` of
/// unit `u`, eliminates every other digit from the cells at those positions.
pub open spec fn hidden_keep(b: Board, u: int, dsel: u16, cu: u16, t: int) -> bool {
    &&& bit(cu, (t / 9) as u16)
    &&& !has_digit(dsel, t % 9 + 1)
    &&& has_digit(b.cands[cell_at(u, t / 9)], t % 9 + 1)
}

/// `hidden_keep` as a function of the index.
pub open spec fn hidden_keep_fn(b: Board, u: int, dsel: u16, cu: u16) -> spec_fn(int) -> bool {
    |t: int| hidden_keep(b, u, dsel, cu, t)
}

/// What a hidden subset eliminates, by position and then by digit.
pub open spec fn hidden_elims(b: Board, u: int, dsel: u16, cu: u16) -> Seq<(usize, u8)> {
    listing(81, hidden_keep_fn(b, u, dsel, cu), unit_pair_fn(u))
}

/// The hint of the `k` chosen digits `dsel`, whose spots together are `cu`:
/// they form a hidden subset when `cu` has `k` positions, and give a hint
/// when that eliminates something.
pub open spec fn hidden_leaf(b: Board, u: int, k: int, dsel: u16, cu: u16) -> Option<HintView> {
    if popcount(cu) == k {
        eliminating_some(hidden_technique(k), hidden_elims(b, u, dsel, cu))
    } else {
        None
    }
}

/// The first hint among the sets of digits that extend the chosen digits
/// `dsel` by `need` eligible digits in ascending order, the next of them
/// among the digits `lo + 1 ..= n`.
pub open spec fn hidden_scan(
    b: Board,
    u: int,
    k: int,
    need: int,
    lo: int,
    n: int,
    dsel: u16,
    cu: u16,
) -> Option<HintView>
    decreases need, n,
{
    if need <= 0 || lo < 0 || n <= lo {
        None
    } else {
        match hidden_scan(b, u, k, need, lo, n - 1, dsel, cu) {
            Some(h) => Some(h),
            None => {
                if !eligible(b, u, k, n) {
                    None
                } else if need == 1 {
                    hidden_leaf(b, u, k, dsel | single((n - 1) as u16), cu | spots(b, u, n))
                } else {
                    hidden_scan(
                        b,
                        u,
                        k,
                        need - 1,
                        n,
                        9,
                        dsel | single((n - 1) as u16),
                        cu | spots(b, u, n),
                    )
                }
            },
        }
    }
}

/// The first hidden subset hint of a unit, as a function of the unit.
pub open spec fn hidden_unit_fn(b: Board, k: int) -> spec_fn(int) -> Option<HintView> {
    |u: int| hidden_scan(b, u, k, k, 0, 9, 0, 0)
}

/// The hint of the first unit, and in it the first hidden subset of size
/// `k`, that eliminates something. Only the sizes two to four are looked for.
pub open spec fn hidden_subset(b: Board, k: int) -> Option<HintView> {
    if 2 <= k <= 4 {
        first_some(27, hidden_unit_fn(b, k))
    } else {
        None
    }
}

/// A hint found among the first digits stays the first when more digits
/// are looked at.
pub proof fn lemma_hidden_scan_stable(
    b: Board,
    u: int,
    k: int,
    need: int,
    lo: int,
    m: int,
    n: int,
    dsel: u16,
    cu: u16,
)
    requires
        m <= n,
        hidden_scan(b, u, k, need, lo, m, dsel, cu) is Some,
    ensures
        hidden_scan(b, u, k, need, lo, n, dsel, cu) == hidden_scan(b, u, k, need, lo, m, dsel, cu),
    decreases n,
{
    if m < n {
        lemma_hidden_scan_stable(b, u, k, need, lo, m, n - 1, dsel, cu);
    }
}

/// The technique that finds naked subsets of size `k`.
fn naked_technique_of(k: usize) -> (t: Technique)
    ensures
        t == naked_technique(k as int),
{
    if k == 2 {
        Technique::NakedPair
    } else if k == 3 {
        Technique::NakedTriple
    } else {
        Technique::NakedQuad
    }
}

/// The technique that finds hidden subsets of size `k`.
fn hidden_technique_of(k: usize) -> (t: Technique)
    ensures
        t == hidden_technique(k as int),
{
    if k == 2 {
        Technique::HiddenPair
    } else if k == 3 {
        Technique::HiddenTriple
    } else {
        Technique::HiddenQuad
    }
}

/// Builds the hint of the chosen positions `sel` with the candidates `un`,
/// if they form a naked subset that eliminates something.
fn naked_leaf_hint(grid: &Grid, u: usize, k: usize, sel: u16, un: u16) -> (r: Option<Hint>)
    requires
        u < 27,
    ensures
        view_of(r) == naked_leaf(grid@, u as int, k as int, sel, un),
{
    if count(un) as usize != k {
        return None;
    }
    let mut eliminations: Vec<(usize, u8)> = Vec::new();
    let ghost keep = naked_keep_fn(grid@, u as int, sel, un);
    let ghost item = unit_pair_fn(u as int);
    for t in 0..81usize
        invariant
            u < 27,
            keep == naked_keep_fn(grid@, u as int, sel, un),
            item == unit_pair_fn(u as int),
            eliminations@ == listing(t as int, keep, item),
    {
        let p = t / 9;
        let d = (t % 9 + 1) as u8;
        let cell = unit_cell(u, p);
        if !bit_at(sel, p) && grid.values[cell] == 0 && contains(
            intersect(grid.candidates[cell], un),
            d,
        ) {
            eliminations.push((cell, d));
        }
    }
    eliminating_hint(naked_technique_of(k), eliminations)
}

/// Looks for the first naked subset that extends the chosen positions by
/// `need` empty cells at the positions from `lo` on.
fn naked_scan_from(
    grid: &Grid,
    u: usize,
    k: usize,
    need: usize,
    lo: usize,
    sel: u16,
    un: u16,
) -> (r: Option<Hint>)
    requires
        u < 27,
        1 <= need <= 4,
        lo <= 9,
    ensures
        view_of(r) == naked_scan(grid@, u as int, k as int, need as int, lo as int, 9, sel, un),
    decreases need,
{
    let ghost b = grid@;
    let mut p = lo;
    while p < 9
        invariant
            u < 27,
            1 <= need <= 4,
            lo <= p <= 9,
            b == grid@,
            naked_scan(b, u as int, k as int, need as int, lo as int, p as int, sel, un) is None,
        decreases 9 - p,
    {
        let cell = unit_cell(u, p);
        if grid.values[cell] == 0 {
            let sel2 = sel | (1u16 << (p as u16));
            let un2 = un | grid.candidates[cell];
            let r = if need == 1 {
                naked_leaf_hint(grid, u, k, sel2, un2)
            } else {
                naked_scan_from(grid, u, k, need - 1, p + 1, sel2, un2)
            };
            if r.is_some() {
                proof {
                    assert(naked_scan(
                        b,
                        u as int,
                        k as int,
                        need as int,
                        lo as int,
                        p + 1,
                        sel,
                        un,
                    ) == view_of(r));
                    lemma_naked_scan_stable(
                        b,
                        u as int,
                        k as int,
                        need as int,
                        lo as int,
                        p + 1,
                        9,
                        sel,
                        un,
                    );
                }
                return r;
            }
        }
        p = p + 1;
    }
    None
}

/// Looks in each unit for `size` empty cells whose candidates together are
/// `size` digits, and eliminates those digits from the other empty cells of
/// the unit. Returns the first such subset that eliminates something.
pub fn detect_naked_subset(grid: &Grid, size: usize) -> (r: Option<Hint>)
    ensures
        view_of(r) == naked_subset(grid@, size as int),
{
    if size < 2 || size > 4 {
        return None;
    }
    let ghost f = naked_unit_fn(grid@, size as int);
    for u in 0..UNITS
        invariant
            2 <= size <= 4,
            f == naked_unit_fn(grid@, size as int),
            first_some(u as int, f) is None,
    {
        let r = naked_scan_from(grid, u, size, size, 0, 0, 0);
        if r.is_some() {
            proof {
                lemma_first_some_at(u as int, 27, f);
            }
            return r;
        }
        assert(f(u as int) is None);
    }
    None
}

/// Builds the hint of the chosen digits `dsel` with the spots `cu`, if they
/// form a hidden subset that eliminates something.
fn hidden_leaf_hint(grid: &Grid, u: usize, k: usize, dsel: u16, cu: u16) -> (r: Option<Hint>)
    requires
        u < 27,
    ensures
        view_of(r) == hidden_leaf(grid@, u as int, k as int, dsel, cu),
{
    if count(cu) as usize != k {
        return None;
    }
    let mut eliminations: Vec<(usize, u8)> = Vec::new();
    let ghost keep = hidden_keep_fn(grid@, u as int, dsel, cu);
    let ghost item = unit_pair_fn(u as int);
    for t in 0..81usize
        invariant
            u < 27,
            keep == hidden_keep_fn(grid@, u as int, dsel, cu),
            item == unit_pair_fn(u as int),
            eliminations@ == listing(t as int, keep, item),
    {
        let p = t / 9;
        let d = (t % 9 + 1) as u8;
        let cell = unit_cell(u, p);
        if bit_at(cu, p) && !contains(dsel, d) && contains(grid.candidates[cell], d) {
            eliminations.push((cell, d));
        }
    }
    eliminating_hint(hidden_technique_of(k), eliminations)
}

/// Looks for the first hidden subset that extends the chosen digits by
/// `need` eligible digits above `lo`.
fn hidden_scan_from(
    grid: &Grid,
    u: usize,
    k: usize,
    need: usize,
    lo: usize,
    dsel: u16,
    cu: u16,
) -> (r: Option<Hint>)
    requires
        u < 27,
        1 <= need <= 4,
        lo <= 9,
    ensures
        view_of(r) == hidden_scan(grid@, u as int, k as int, need as int, lo as int, 9, dsel, cu),
    decreases need,
{
    let ghost b = grid@;
    let mut q = lo;
    while q < 9
        invariant
            u < 27,
            1 <= need <= 4,
            lo <= q <= 9,
            b == grid@,
            hidden_scan(b, u as int, k as int, need as int, lo as int, q as int, dsel, cu) is None,
        decreases 9 - q,
    {
        let d = (q + 1) as u8;
        let m = digit_positions(grid, u, d);
        let c = count(m) as usize;
        if 0 < c && c <= k {
            let dsel2 = dsel | (1u16 << (q as u16));
            let cu2 = cu | m;
            let r = if need == 1 {
                hidden_leaf_hint(grid, u, k, dsel2, cu2)
            } else {
                hidden_scan_from(grid, u, k, need - 1, q + 1, dsel2, cu2)
            };
            if r.is_some() {
                proof {
                    assert(hidden_scan(
                        b,
                        u as int,
                        k as int,
                        need as int,
                        lo as int,
                        q + 1,
                        dsel,
                        cu,
                    ) == view_of(r));
                    lemma_hidden_scan_stable(
                        b,
                        u as int,
                        k as int,
                        need as int,
                        lo as int,
                        q + 1,
                        9,
                        dsel,
                        cu,
                    );
                }
                return r;
            }
        }
        q = q + 1;
    }
    None
}

/// Looks in each unit for `size` digits that are candidates in the same
/// `size` cells and nowhere else in the unit, and eliminates every other
/// digit from those cells. Returns the first such subset that eliminates
/// something.
pub fn detect_hidden_subset(grid: &Grid, size: usize) -> (r: Option<Hint>)
    ensures
        view_of(r) == hidden_subset(grid@, size as int),
{
    if size < 2 || size > 4 {
        return None;
    }
    let ghost f = hidden_unit_fn(grid@, size as int);
    for u in 0..UNITS
        invariant
            2 <= size <= 4,
            f == hidden_unit_fn(grid@, size as int),
            first_some(u as int, f) is None,
    {
        let r = hidden_scan_from(grid, u, size, size, 0, 0, 0);
        if r.is_some() {
            proof {
                lemma_first_some_at(u as int, 27, f);
            }
            return r;
        }
        assert(f(u as int) is None);
    }
    None
}


/// The chosen positions `sel` are empty cells whose candidates all lie in `un`.
pub open spec fn naked_chosen(b: Board, u: int, sel: u16, un: u16) -> bool {
    &&& forall|p: u16| p < 9 && #[trigger] bit(sel, p) ==> b.cells[cell_at(u, p as int)] == 0
    &&& forall|p: u16, d: int|
        p < 9 && #[trigger] bit(sel, p) && #[trigger] has_digit(b.cands[cell_at(u, p as int)], d)
            ==> has_digit(un, d)
}

/// In a completion, as many cells as they have candidates together use up
/// those candidates: no other cell of the unit holds one of them.
pub proof fn lemma_naked_excludes(b: Board, u: int, sel: u16, un: u16, s: Seq<u8>, q: int, e: int)
    requires
        0 <= u < 27,
        naked_chosen(b, u, sel, un),
        completes(b, s),
        popcount(un) == popcount(sel),
        0 <= q < 9,
        !bit(sel, q as u16),
        has_digit(un, e),
    ensures
        s[cell_at(u, q)] != e,
{
    if s[cell_at(u, q)] == e {
        let f = |p: u16| (s[cell_at(u, p as int)] - 1) as u16;
        let v = without(un, (e - 1) as u16);
        lemma_bits_without(un, (e - 1) as u16);
        lemma_popcount_without(un, (e - 1) as u16);
        lemma_cell_at(u, q);
        assert forall|p: u16| p < 9 && bit(sel, p) implies #[trigger] f(p) < 9 && bit(v, f(p)) by {
            lemma_cell_at(u, p as int);
            lemma_unit_peers(u, p as int, q);
            let c = cell_at(u, p as int);
            assert(has_digit(b.cands[c], s[c] as int));
            assert(has_digit(un, s[c] as int));
            assert(s[c] != s[cell_at(u, q)]);
        }
        assert forall|p: u16, r: u16|
            p < 9 && r < 9 && bit(sel, p) && bit(sel, r) && p != r implies #[trigger] f(p)
            != #[trigger] f(r) by {
            lemma_cell_at(u, p as int);
            lemma_cell_at(u, r as int);
            lemma_unit_peers(u, p as int, r as int);
        }
        lemma_injection_popcount(sel, v, f);
    }
}

/// The hint of a naked subset can be applied, and no completion has an
/// eliminated digit at its cell.
pub proof fn lemma_naked_leaf(b: Board, u: int, k: int, sel: u16, un: u16, h: HintView)
    requires
        b.wf(),
        0 <= u < 27,
        naked_chosen(b, u, sel, un),
        popcount(sel) == k,
        naked_leaf(b, u, k, sel, un) == Some(h),
    ensures
        applicable(b, h),
        one_kind(h),
        forall|s: Seq<u8>| #[trigger] completes(b, s) ==> agrees(h, s),
{
    let keep = naked_keep_fn(b, u, sel, un);
    let item = unit_pair_fn(u);
    assert forall|j: int| 0 <= j < h.eliminations.len() implies 0 <= (#[trigger] h.eliminations[j]).0
        < 81 && b.cand(h.eliminations[j].0 as int, h.eliminations[j].1 as int) by {
        let t = lemma_listing_entry(81, keep, item, j);
        assert(keep(t));
        lemma_cell_at(u, t / 9);
        lemma_bits_and(b.cands[cell_at(u, t / 9)], un);
    }
    assert forall|s: Seq<u8>| #[trigger] completes(b, s) implies agrees(h, s) by {
        assert forall|j: int| 0 <= j < h.eliminations.len() implies s[(
        #[trigger] h.eliminations[j]).0 as int] != h.eliminations[j].1 by {
            let t = lemma_listing_entry(81, keep, item, j);
            assert(keep(t));
            lemma_cell_at(u, t / 9);
            lemma_bits_and(b.cands[cell_at(u, t / 9)], un);
            lemma_naked_excludes(b, u, sel, un, s, t / 9, t % 9 + 1);
        }
    }
}

/// A hint found by extending chosen positions can be applied, and no
/// completion has an eliminated digit at its cell.
pub proof fn lemma_naked_scan(
    b: Board,
    u: int,
    k: int,
    need: int,
    lo: int,
    n: int,
    sel: u16,
    un: u16,
    h: HintView,
)
    requires
        b.wf(),
        0 <= u < 27,
        0 <= lo,
        n <= 9,
        need >= 1,
        naked_chosen(b, u, sel, un),
        popcount(sel) + need == k,
        forall|p: u16| p < 16 && #[trigger] bit(sel, p) ==> p < lo,
        naked_scan(b, u, k, need, lo, n, sel, un) == Some(h),
    ensures
        applicable(b, h),
        one_kind(h),
        forall|s: Seq<u8>| #[trigger] completes(b, s) ==> agrees(h, s),
    decreases need, n,
{
    if naked_scan(b, u, k, need, lo, n - 1, sel, un) is Some {
        lemma_naked_scan(b, u, k, need, lo, n - 1, sel, un, h);
    } else {
        let p = (n - 1) as u16;
        let c = cell_at(u, n - 1);
        let sel2 = sel | single(p);
        let un2 = un | b.cands[c];
        lemma_bits_single(p);
        lemma_bits_or(sel, single(p));
        lemma_bits_or(un, b.cands[c]);
        assert(naked_chosen(b, u, sel2, un2));
        assert(popcount(sel2) == popcount(sel) + 1);
        if need == 1 {
            lemma_naked_leaf(b, u, k, sel2, un2, h);
        } else {
            lemma_naked_scan(b, u, k, need - 1, n, 9, sel2, un2, h);
        }
    }
}

/// A naked subset hint can be applied, and no completion has an eliminated
/// digit at its cell.
pub proof fn lemma_naked_subset(b: Board, k: int, h: HintView)
    requires
        b.wf(),
        naked_subset(b, k) == Some(h),
    ensures
        applicable(b, h),
        one_kind(h),
        forall|s: Seq<u8>| #[trigger] completes(b, s) ==> agrees(h, s),
{
    let u = lemma_first_some_witness(27, naked_unit_fn(b, k));
    lemma_bits_const();
    lemma_naked_scan(b, u, k, k, 0, 9, 0, 0, h);
}

/// The chosen digits `dsel` are candidates somewhere in the unit, all their
/// spots lie in `cu`, and `cu` holds positions of empty cells only.
pub open spec fn hidden_chosen(b: Board, u: int, dsel: u16, cu: u16) -> bool {
    &&& forall|q: u16| q < 9 && #[trigger] bit(dsel, q) ==> spots(b, u, q + 1) != 0
    &&& forall|q: u16, p: u16|
        q < 9 && p < 16 && #[trigger] bit(dsel, q) && #[trigger] bit(spots(b, u, q + 1), p) ==> bit(
            cu,
            p,
        )
    &&& forall|p: u16| p < 16 && #[trigger] bit(cu, p) ==> p < 9 && b.cells[cell_at(u, p as int)] == 0
}

/// The position of unit `u` at which the solved grid `s` has digit `d`.
pub open spec fn seat(s: Seq<u8>, u: int, d: int) -> u16 {
    choose|p: u16| p < 9 && s[cell_at(u, p as int)] == d
}

/// In a completion of a pruned board, as many digits as they have spots
/// together fill those spots: no other digit sits on one of them.
pub proof fn lemma_hidden_excludes(
    b: Board,
    u: int,
    dsel: u16,
    cu: u16,
    s: Seq<u8>,
    spot: int,
    e: int,
)
    requires
        b.wf(),
        pruned(b),
        0 <= u < 27,
        hidden_chosen(b, u, dsel, cu),
        completes(b, s),
        popcount(cu) == popcount(dsel),
        0 <= spot < 9,
        bit(cu, spot as u16),
        1 <= e <= 9,
        !has_digit(dsel, e),
    ensures
        s[cell_at(u, spot)] != e,
{
    if s[cell_at(u, spot)] == e {
        let f = |q: u16| seat(s, u, q + 1);
        let v = without(cu, spot as u16);
        lemma_bits_without(cu, spot as u16);
        lemma_popcount_without(cu, spot as u16);
        assert forall|q: u16| q < 9 && bit(dsel, q) implies #[trigger] f(q) < 9 && bit(v, f(q))
            && s[cell_at(u, f(q) as int)] == q + 1 by {
            let d = q + 1;
            lemma_spots(b, u, d);
            lemma_zero_iff_empty(spots(b, u, d));
            let r = choose|r: u16| r < 9 && bit(spots(b, u, d), r);
            lemma_pruned_spots(b, u, d, r as int);
            let k = lemma_digit_spot(b, s, u, d);
            assert((k as u16) < 9 && s[cell_at(u, (k as u16) as int)] == d);
            let p = seat(s, u, d);
            assert(p < 9 && s[cell_at(u, p as int)] == d);
            if p != k {
                lemma_unit_peers(u, p as int, k);
                lemma_cell_at(u, p as int);
                lemma_cell_at(u, k);
            }
            assert(bit(spots(b, u, d), p));
            assert(bit(cu, p));
        }
        assert forall|q: u16, r: u16|
            q < 9 && r < 9 && bit(dsel, q) && bit(dsel, r) && q != r implies #[trigger] f(q)
            != #[trigger] f(r) by {
            assert(s[cell_at(u, f(q) as int)] == q + 1);
            assert(s[cell_at(u, f(r) as int)] == r + 1);
        }
        assert forall|q: u16| q < 9 && bit(dsel, q) implies #[trigger] f(q) < 9 && bit(v, f(q)) by {
            assert(s[cell_at(u, f(q) as int)] == q + 1);
        }
        lemma_injection_popcount(dsel, v, f);
    }
}

/// The hint of a hidden subset can be applied, and on a pruned board no
/// completion has an eliminated digit at its cell.
pub proof fn lemma_hidden_leaf(b: Board, u: int, k: int, dsel: u16, cu: u16, h: HintView)
    requires
        b.wf(),
        0 <= u < 27,
        hidden_chosen(b, u, dsel, cu),
        popcount(dsel) == k,
        hidden_leaf(b, u, k, dsel, cu) == Some(h),
    ensures
        applicable(b, h),
        one_kind(h),
        pruned(b) ==> forall|s: Seq<u8>| #[trigger] completes(b, s) ==> agrees(h, s),
{
    let keep = hidden_keep_fn(b, u, dsel, cu);
    let item = unit_pair_fn(u);
    assert forall|j: int| 0 <= j < h.eliminations.len() implies 0 <= (#[trigger] h.eliminations[j]).0
        < 81 && b.cand(h.eliminations[j].0 as int, h.eliminations[j].1 as int) by {
        let t = lemma_listing_entry(81, keep, item, j);
        assert(keep(t));
        lemma_cell_at(u, t / 9);
    }
    if pruned(b) {
        assert forall|s: Seq<u8>| #[trigger] completes(b, s) implies agrees(h, s) by {
            assert forall|j: int| 0 <= j < h.eliminations.len() implies s[(
            #[trigger] h.eliminations[j]).0 as int] != h.eliminations[j].1 by {
                let t = lemma_listing_entry(81, keep, item, j);
                assert(keep(t));
                lemma_cell_at(u, t / 9);
                lemma_hidden_excludes(b, u, dsel, cu, s, t / 9, t % 9 + 1);
            }
        }
    }
}

/// A hint found by extending chosen digits can be applied, and on a pruned
/// board no completion has an eliminated digit at its cell.
pub proof fn lemma_hidden_scan(
    b: Board,
    u: int,
    k: int,
    need: int,
    lo: int,
    n: int,
    dsel: u16,
    cu: u16,
    h: HintView,
)
    requires
        b.wf(),
        0 <= u < 27,
        0 <= lo,
        n <= 9,
        need >= 1,
        hidden_chosen(b, u, dsel, cu),
        popcount(dsel) + need == k,
        forall|q: u16| q < 16 && #[trigger] bit(dsel, q) ==> q < lo,
        hidden_scan(b, u, k, need, lo, n, dsel, cu) == Some(h),
    ensures
        applicable(b, h),
        one_kind(h),
        pruned(b) ==> forall|s: Seq<u8>| #[trigger] completes(b, s) ==> agrees(h, s),
    decreases need, n,
{
    if hidden_scan(b, u, k, need, lo, n - 1, dsel, cu) is Some {
        lemma_hidden_scan(b, u, k, need, lo, n - 1, dsel, cu, h);
    } else {
        let q = (n - 1) as u16;
        let m = spots(b, u, n);
        let dsel2 = dsel | single(q);
        let cu2 = cu | m;
        lemma_bits_single(q);
        lemma_bits_or(dsel, single(q));
        lemma_bits_or(cu, m);
        lemma_spots(b, u, n);
        lemma_zero_iff_empty(m);
        assert(hidden_chosen(b, u, dsel2, cu2));
        assert(popcount(dsel2) == popcount(dsel) + 1);
        if need == 1 {
            lemma_hidden_leaf(b, u, k, dsel2, cu2, h);
        } else {
            lemma_hidden_scan(b, u, k, need - 1, n, 9, dsel2, cu2, h);
        }
    }
}

/// A hidden subset hint can be applied, and on a pruned board no completion
/// has an eliminated digit at its cell.
pub proof fn lemma_hidden_subset(b: Board, k: int, h: HintView)
    requires
        b.wf(),
        hidden_subset(b, k) == Some(h),
    ensures
        applicable(b, h),
        one_kind(h),
        pruned(b) ==> forall|s: Seq<u8>| #[trigger] completes(b, s) ==> agrees(h, s),
{
    let u = lemma_first_some_witness(27, hidden_unit_fn(b, k));
    lemma_bits_const();
    lemma_hidden_scan(b, u, k, k, 0, 9, 0, 0, h);
}

} // verus!
