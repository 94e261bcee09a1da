//! What the propagator and the solver establish about the solutions of a
//! puzzle.

use vstd::prelude::*;
use crate::bits::{
    bit, FULL, has_digit, lemma_bits_const, lemma_bits_without, lemma_zero_iff_empty, popcount,
    without,
};
use crate::units::{cell_at, lemma_cell_at, row_of, sees};
use crate::deduce::lemma_unit_covers;
use crate::scan::{first_index, lemma_first_index};
use crate::grid::Board;
use crate::solver::{
    after_move, choice, completes, consistent, dead, empties, exhausts, exhausts_fn, fewest,
    fewest_fn, forbidding, forced_fn, legal, lemma_after_move_wf, lemma_empties_fill,
    lemma_refresh_upto_wf, move_ok, placed, pruned, reaches, refresh_upto, refreshed, search,
    solves, stop_index, tally, tally_from, try_from, valid_solution, viable,
};

verus! {

/// Some placed cell among the first `n` sees cell `i` and holds `d`.
pub open spec fn ruled_out(cells: Seq<u8>, i: int, d: int, n: int) -> bool {
    exists|j: int| 0 <= j < n && sees(j, i) && #[trigger] cells[j] == d
}

/// Each empty cell has exactly the digits that no placement among the first
/// `n` cells rules out.
pub open spec fn exact_upto(p: Board, n: int) -> bool {
    forall|i: int, d: int|
        0 <= i < 81 && 1 <= d <= 9 && p.cells[i] == 0 ==> (#[trigger] has_digit(p.cands[i], d)
            <==> !ruled_out(p.cells, i, d, n))
}

/// A board with a dead cell stays dead when a placement is propagated.
pub proof fn lemma_dead_after_move(b: Board, cell: int, d: u8)
    requires
        b.wf(),
        dead(b),
        0 <= cell < 81,
        1 <= d <= 9,
    ensures
        dead(after_move(b, cell, d)),
{
    let z = choose|z: int| 0 <= z < 81 && b.cells[z] == 0 && #[trigger] b.cands[z] == 0;
    lemma_bits_without(b.cands[z], (d - 1) as u16);
    assert(after_move(b, cell, d).cands[z] == 0);
}

/// Propagating a placement that exhausts a peer leaves a dead board.
pub proof fn lemma_stopped_is_dead(b: Board, cell: int, d: u8)
    requires
        b.wf(),
        0 <= cell < 81,
        1 <= d <= 9,
        !move_ok(b, cell, d),
    ensures
        dead(after_move(b, cell, d)),
{
    lemma_first_index(81, exhausts_fn(b, cell, d));
    let z = stop_index(b, cell, d);
    assert(exhausts_fn(b, cell, d)(z));
    assert(after_move(b, cell, d).cands[z] == 0);
}

/// A propagation that exhausts no peer clears the digit from every empty
/// peer and changes nothing else.
pub proof fn lemma_move_ok(b: Board, cell: int, d: u8)
    requires
        b.wf(),
        0 <= cell < 81,
        1 <= d <= 9,
        move_ok(b, cell, d),
    ensures
        forall|j: int, e: int|
            0 <= j < 81 ==> (#[trigger] has_digit(after_move(b, cell, d).cands[j], e)
                <==> has_digit(b.cands[j], e) && !(reaches(b, cell, j) && e == d)),
{
    lemma_first_index(81, exhausts_fn(b, cell, d));
    let a = after_move(b, cell, d);
    assert forall|j: int, e: int| 0 <= j < 81 implies (#[trigger] has_digit(a.cands[j], e)
        <==> has_digit(b.cands[j], e) && !(reaches(b, cell, j) && e == d)) by {
        lemma_bits_without(b.cands[j], (d - 1) as u16);
        assert(!exhausts_fn(b, cell, d)(j));
    }
}

/// After the placements of the first `n` cells were propagated, the board is
/// dead or holds exactly the digits that those placements leave; either way
/// it holds every legal digit.
pub proof fn lemma_refresh_upto(cells: Seq<u8>, n: int)
    requires
        cells.len() == 81,
        forall|i: int| 0 <= i < 81 ==> #[trigger] cells[i] <= 9,
        0 <= n <= 81,
    ensures
        refresh_upto(cells, n).wf(),
        refresh_upto(cells, n).cells == cells,
        dead(refresh_upto(cells, n)) || exact_upto(refresh_upto(cells, n), n),
        forall|i: int, d: int|
            0 <= i < 81 && 1 <= d <= 9 && cells[i] == 0 && legal(cells, i, d) ==> #[trigger] has_digit(
                refresh_upto(cells, n).cands[i],
                d,
            ),
    decreases n,
{
    lemma_refresh_upto_wf(cells, n);
    lemma_bits_const();
    let r = refresh_upto(cells, n);
    if n == 0 {
        assert forall|i: int, d: int|
            0 <= i < 81 && 1 <= d <= 9 && r.cells[i] == 0 implies (#[trigger] has_digit(
            r.cands[i],
            d,
        ) <==> !ruled_out(r.cells, i, d, n)) by {
            assert(bit(FULL, (d - 1) as u16));
        }
    } else {
        lemma_refresh_upto(cells, n - 1);
        let p = refresh_upto(cells, n - 1);
        lemma_refresh_upto_wf(cells, n - 1);
        let v = cells[n - 1];
        if v != 0 {
            lemma_after_move_wf(p, n - 1, v);
            assert forall|i: int, d: int|
                0 <= i < 81 && 1 <= d <= 9 && cells[i] == 0 && legal(
                    cells,
                    i,
                    d,
                ) implies #[trigger] has_digit(r.cands[i], d) by {
                lemma_bits_without(p.cands[i], (v - 1) as u16);
                assert(has_digit(p.cands[i], d));
                if sees(i, n - 1) {
                    assert(cells[n - 1] != d);
                }
            }
            if dead(p) {
                lemma_dead_after_move(p, n - 1, v);
            } else if !move_ok(p, n - 1, v) {
                lemma_stopped_is_dead(p, n - 1, v);
            } else {
                lemma_move_ok(p, n - 1, v);
                assert forall|i: int, d: int|
                    0 <= i < 81 && 1 <= d <= 9 && r.cells[i] == 0 implies (#[trigger] has_digit(
                    r.cands[i],
                    d,
                ) <==> !ruled_out(r.cells, i, d, n)) by {
                    assert(has_digit(p.cands[i], d) <==> !ruled_out(cells, i, d, n - 1));
                    if ruled_out(cells, i, d, n) && !ruled_out(cells, i, d, n - 1) {
                        let j = choose|j: int| 0 <= j < n && sees(j, i) && #[trigger] cells[j] == d;
                        assert(j == n - 1);
                    }
                    if reaches(p, n - 1, i) && d == v {
                        assert(sees(n - 1, i) && cells[n - 1] == d);
                    }
                }
            }
        } else {
            if !dead(p) {
                assert forall|i: int, d: int|
                    0 <= i < 81 && 1 <= d <= 9 && r.cells[i] == 0 implies (#[trigger] has_digit(
                    r.cands[i],
                    d,
                ) <==> !ruled_out(r.cells, i, d, n)) by {
                    assert(has_digit(p.cands[i], d) <==> !ruled_out(cells, i, d, n - 1));
                    if ruled_out(cells, i, d, n) && !ruled_out(cells, i, d, n - 1) {
                        let j = choose|j: int| 0 <= j < n && sees(j, i) && #[trigger] cells[j] == d;
                        assert(j == n - 1);
                    }
                }
            }
        }
    }
}

/// Every empty cell has a legal digit.
pub open spec fn roomy(cells: Seq<u8>) -> bool {
    forall|i: int|
        0 <= i < 81 && cells[i] == 0 ==> exists|d: int| 1 <= d <= 9 && #[trigger] legal(cells, i, d)
}

/// Fresh candidates: a placed cell has none, and an empty cell keeps every
/// digit that is legal there. The board is dead, or no empty cell keeps a
/// digit that a peer holds.
pub proof fn lemma_refreshed(cells: Seq<u8>)
    requires
        cells.len() == 81,
        forall|i: int| 0 <= i < 81 ==> #[trigger] cells[i] <= 9,
    ensures
        refreshed(cells).wf(),
        refreshed(cells).cells == cells,
        forall|i: int| 0 <= i < 81 && cells[i] != 0 ==> #[trigger] refreshed(cells).cands[i] == 0,
        forall|i: int, d: int|
            0 <= i < 81 && 1 <= d <= 9 && cells[i] == 0 && legal(cells, i, d) ==> #[trigger] has_digit(
                refreshed(cells).cands[i],
                d,
            ),
        dead(refreshed(cells)) || pruned(refreshed(cells)),
{
    lemma_refresh_upto(cells, 81);
    let r = refreshed(cells);
    if !dead(r) {
        assert forall|i: int, j: int|
            0 <= i < 81 && 0 <= j < 81 && sees(i, j) && r.cells[i] != 0 && r.cells[j]
                == 0 implies !has_digit(#[trigger] r.cands[j], #[trigger] r.cells[i] as int) by {
            assert(ruled_out(cells, j, cells[i] as int, 81));
        }
    }
}

/// Where every empty cell has a legal digit, the fresh candidates of an
/// empty cell are exactly the digits that are legal there.
pub proof fn lemma_refreshed_exact(cells: Seq<u8>)
    requires
        cells.len() == 81,
        forall|i: int| 0 <= i < 81 ==> #[trigger] cells[i] <= 9,
        roomy(cells),
    ensures
        forall|i: int, d: int|
            0 <= i < 81 && 1 <= d <= 9 && cells[i] == 0 ==> (#[trigger] has_digit(
                refreshed(cells).cands[i],
                d,
            ) <==> legal(cells, i, d)),
        !dead(refreshed(cells)),
        pruned(refreshed(cells)),
{
    lemma_refresh_upto(cells, 81);
    lemma_refreshed(cells);
    lemma_bits_const();
    let r = refreshed(cells);
    if dead(r) {
        let z = choose|z: int| 0 <= z < 81 && r.cells[z] == 0 && #[trigger] r.cands[z] == 0;
        let d = choose|d: int| 1 <= d <= 9 && #[trigger] legal(cells, z, d);
        assert(has_digit(r.cands[z], d));
    }
    assert forall|i: int, d: int| 0 <= i < 81 && 1 <= d <= 9 && cells[i] == 0 implies (#[trigger] has_digit(
        r.cands[i],
        d,
    ) <==> legal(cells, i, d)) by {
        if has_digit(r.cands[i], d) {
            assert(!ruled_out(cells, i, d, 81));
            assert forall|j: int| 0 <= j < 81 && sees(i, j) implies #[trigger] cells[j] != d by {
                if cells[j] == d {
                    assert(sees(j, i));
                }
            }
        }
    }
}

/// Recomputing the candidates of a board whose candidates were just
/// recomputed changes nothing.
pub proof fn lemma_refresh_idempotent(cells: Seq<u8>)
    requires
        cells.len() == 81,
        forall|i: int| 0 <= i < 81 ==> #[trigger] cells[i] <= 9,
    ensures
        refreshed(refreshed(cells).cells) == refreshed(cells),
{
    lemma_refresh_upto_wf(cells, 81);
}

/// The completions of a board with fresh candidates are the solutions of
/// its puzzle.
pub proof fn lemma_refreshed_completions(cells: Seq<u8>, s: Seq<u8>)
    requires
        cells.len() == 81,
        forall|i: int| 0 <= i < 81 ==> #[trigger] cells[i] <= 9,
    ensures
        completes(refreshed(cells), s) <==> solves(cells, s),
{
    lemma_refreshed(cells);
    let r = refreshed(cells);
    if solves(cells, s) {
        assert forall|i: int| 0 <= i < 81 && r.cells[i] == 0 implies has_digit(
            r.cands[i],
            #[trigger] s[i] as int,
        ) by {
            assert forall|j: int| 0 <= j < 81 && sees(i, j) implies #[trigger] cells[j] != s[i] by {
                if cells[j] != 0 {
                    assert(s[j] == cells[j]);
                    assert(s[i] != s[j]);
                }
            }
            assert(legal(cells, i, s[i] as int));
        }
    }
}


/// A board the search can be trusted on: it is dead, or its candidates are
/// pruned and no two peers hold the same digit.
pub open spec fn searchable(b: Board) -> bool {
    b.wf() && (dead(b) || (pruned(b) && consistent(b.cells)))
}

/// A dead board has no completion.
pub proof fn lemma_dead_no_completion(b: Board, s: Seq<u8>)
    requires
        dead(b),
    ensures
        !completes(b, s),
{
    lemma_bits_const();
    let z = choose|z: int| 0 <= z < 81 && b.cells[z] == 0 && #[trigger] b.cands[z] == 0;
    if completes(b, s) {
        assert(has_digit(b.cands[z], s[z] as int));
    }
}

/// A dead board stays dead when a candidate of another cell is placed.
pub proof fn lemma_dead_placed(b: Board, c: int, d: u8)
    requires
        b.wf(),
        dead(b),
        0 <= c < 81,
        1 <= d <= 9,
        b.cands[c] != 0,
    ensures
        dead(placed(b, c, d)),
        placed(b, c, d).wf(),
{
    let z = choose|z: int| 0 <= z < 81 && b.cells[z] == 0 && #[trigger] b.cands[z] == 0;
    let b1 = b.with_value(c, d);
    assert(b1.cells[z] == 0 && b1.cands[z] == 0);
    lemma_dead_after_move(b1, c, d);
    lemma_after_move_wf(b1, c, d);
}

/// Placing a candidate on a pruned, consistent board: if propagation exhausts
/// a peer, no completion has that digit there; otherwise the new board is
/// pruned and consistent, and its completions are the completions of the old
/// board with that digit there.
pub proof fn lemma_branch(b: Board, c: int, d: u8)
    requires
        b.wf(),
        pruned(b),
        consistent(b.cells),
        0 <= c < 81,
        b.cells[c] == 0,
        has_digit(b.cands[c], d as int),
    ensures
        placed(b, c, d).wf(),
        !move_ok(b.with_value(c, d), c, d) ==> (forall|s: Seq<u8>| #[trigger]
            completes(b, s) ==> s[c] != d),
        move_ok(b.with_value(c, d), c, d) ==> pruned(placed(b, c, d)) && consistent(
            placed(b, c, d).cells,
        ) && (forall|s: Seq<u8>| #[trigger]
            completes(placed(b, c, d), s) <==> completes(b, s) && s[c] == d),
{
    let b1 = b.with_value(c, d);
    let b2 = placed(b, c, d);
    lemma_after_move_wf(b1, c, d);
    if !move_ok(b1, c, d) {
        lemma_first_index(81, exhausts_fn(b1, c, d));
        let z = stop_index(b1, c, d);
        assert(exhausts_fn(b1, c, d)(z));
        lemma_bits_without(b1.cands[z], (d - 1) as u16);
        lemma_bits_const();
        assert forall|s: Seq<u8>| #[trigger] completes(b, s) implies s[c] != d by {
            if s[c] == d {
                assert(has_digit(b.cands[z], s[z] as int));
                assert(s[c] != s[z]);
                assert(bit(without(b1.cands[z], (d - 1) as u16), (s[z] - 1) as u16));
            }
        }
    } else {
        lemma_move_ok(b1, c, d);
        assert forall|i: int, j: int|
            0 <= i < 81 && 0 <= j < 81 && sees(i, j) && b2.cells[i] != 0 implies #[trigger] b2.cells[i]
            != #[trigger] b2.cells[j] by {
            if i == c {
                if b.cells[j] != 0 {
                    assert(!has_digit(b.cands[c], b.cells[j] as int));
                }
            } else if j == c {
                assert(!has_digit(b.cands[c], b.cells[i] as int));
            } else {
                assert(b.cells[i] != b.cells[j]);
            }
        }
        assert forall|i: int, j: int|
            0 <= i < 81 && 0 <= j < 81 && sees(i, j) && b2.cells[i] != 0 && b2.cells[j]
                == 0 implies !has_digit(#[trigger] b2.cands[j], #[trigger] b2.cells[i] as int) by {
            if i == c {
                assert(reaches(b1, c, j));
            } else {
                assert(!has_digit(b.cands[j], b.cells[i] as int));
            }
        }
        assert forall|s: Seq<u8>| #[trigger]
            completes(b2, s) <==> completes(b, s) && s[c] == d by {
            if completes(b2, s) {
                assert(s[c] == b2.cells[c]);
                assert forall|i: int| 0 <= i < 81 && b.cells[i] == 0 implies has_digit(
                    b.cands[i],
                    #[trigger] s[i] as int,
                ) by {
                    if i != c {
                        assert(has_digit(b2.cands[i], s[i] as int));
                    }
                }
                assert forall|i: int| 0 <= i < 81 && b.cells[i] != 0 implies #[trigger] s[i]
                    == b.cells[i] by {
                    assert(b2.cells[i] == b.cells[i]);
                }
            }
            if completes(b, s) && s[c] == d {
                assert forall|i: int| 0 <= i < 81 && b2.cells[i] == 0 implies has_digit(
                    b2.cands[i],
                    #[trigger] s[i] as int,
                ) by {
                    assert(has_digit(b.cands[i], s[i] as int));
                    if sees(c, i) {
                        assert(s[c] != s[i]);
                    }
                }
                assert forall|i: int| 0 <= i < 81 && b2.cells[i] != 0 implies #[trigger] s[i]
                    == b2.cells[i] by {
                    if i != c {
                        assert(b2.cells[i] == b.cells[i]);
                    }
                }
            }
        }
    }
}

/// Among the empty cells one has the fewest candidates.
pub proof fn lemma_fewest_exists(b: Board, e: int, m: int) -> (t: int)
    requires
        0 <= e < 81,
        b.cells[e] == 0,
        popcount(b.cands[e]) == m,
    ensures
        0 <= t < 81,
        fewest(b, t),
    decreases m,
{
    if fewest(b, e) {
        e
    } else {
        let j = choose|j: int|
            0 <= j < 81 && b.cells[j] == 0 && !(popcount(b.cands[e]) <= popcount(
                #[trigger] b.cands[j],
            ));
        lemma_fewest_exists(b, j, popcount(b.cands[j]))
    }
}

/// What the choice of a cell means: a dead end is a dead board; 81 is a
/// board without empty cells; any other choice is an empty cell with a
/// candidate.
pub proof fn lemma_choice(b: Board)
    requires
        b.wf(),
    ensures
        -1 <= choice(b) <= 81,
        choice(b) < 0 ==> dead(b),
        choice(b) == 81 ==> b.solved(),
        0 <= choice(b) < 81 ==> b.cells[choice(b)] == 0 && b.cands[choice(b)] != 0,
{
    lemma_first_index(81, forced_fn(b));
    lemma_first_index(81, fewest_fn(b));
    let f = first_index(81, forced_fn(b));
    if f < 81 {
        assert(forced_fn(b)(f));
        lemma_zero_iff_empty(b.cands[f]);
    } else {
        let c = first_index(81, fewest_fn(b));
        if c < 81 {
            assert(fewest_fn(b)(c));
            assert(!forced_fn(b)(c));
            lemma_zero_iff_empty(b.cands[c]);
        } else {
            assert forall|i: int| 0 <= i < 81 implies #[trigger] b.cells[i] != 0 by {
                if b.cells[i] == 0 {
                    let t = lemma_fewest_exists(b, i, popcount(b.cands[i]));
                    assert(!fewest_fn(b)(t));
                }
            }
        }
    }
}

/// A board without empty cells, pruned or not, whose peers differ is its
/// own and only completion.
pub proof fn lemma_solved_board(b: Board)
    requires
        b.wf(),
        b.solved(),
        consistent(b.cells),
    ensures
        completes(b, b.cells),
        forall|s: Seq<u8>| #[trigger] completes(b, s) ==> s == b.cells,
{
    assert forall|s: Seq<u8>| #[trigger] completes(b, s) implies s == b.cells by {
        assert(s =~= b.cells);
    }
}

/// The search is sound and complete on a searchable board: what it returns
/// is a completion, and it returns nothing only where there is none.
pub proof fn lemma_search(b: Board)
    requires
        searchable(b),
    ensures
        match search(b) {
            Some(r) => completes(b, r.cells) && r.solved() && r.wf(),
            None => forall|s: Seq<u8>| !completes(b, s),
        },
    decreases empties(b.cells), 11int,
{
    lemma_choice(b);
    let c = choice(b);
    if dead(b) {
        assert forall|s: Seq<u8>| !completes(b, s) by {
            lemma_dead_no_completion(b, s);
        }
    }
    if c < 0 {
    } else if c >= 81 {
        assert(!dead(b));
        lemma_solved_board(b);
    } else {
        lemma_try_from(b, c, 1);
        if try_from(b, c, 1) is None {
            assert forall|s: Seq<u8>| !completes(b, s) by {
                if completes(b, s) {
                    assert(1 <= s[c]);
                }
            }
        }
    }
}

/// The search from digit `d` on at cell `c`: what it returns is a
/// completion, and it returns nothing only where every completion has a
/// smaller digit at `c`.
pub proof fn lemma_try_from(b: Board, c: int, d: int)
    requires
        searchable(b),
        0 <= c < 81,
        b.cells[c] == 0,
        b.cands[c] != 0,
        1 <= d <= 10,
    ensures
        match try_from(b, c, d) {
            Some(r) => completes(b, r.cells) && r.solved() && r.wf(),
            None => forall|s: Seq<u8>| #[trigger] completes(b, s) ==> s[c] < d,
        },
    decreases empties(b.cells), 10 - d,
{
    if d > 9 {
        assert forall|s: Seq<u8>| #[trigger] completes(b, s) implies s[c] < d by {
            assert(s[c] <= 9);
        }
    } else {
        lemma_empties_fill(b.cells, c, d as u8, 81);
        let b2 = placed(b, c, d as u8);
        lemma_try_from(b, c, d + 1);
        if dead(b) {
            assert forall|s: Seq<u8>| !completes(b, s) by {
                lemma_dead_no_completion(b, s);
            }
            if viable(b, c, d) {
                lemma_dead_placed(b, c, d as u8);
                lemma_search(b2);
                if search(b2) is Some {
                    lemma_dead_no_completion(b2, search(b2)->0.cells);
                }
            }
        } else if has_digit(b.cands[c], d) {
            lemma_branch(b, c, d as u8);
            if viable(b, c, d) {
                lemma_search(b2);
                if search(b2) is Some {
                    assert(completes(b2, search(b2)->0.cells));
                } else {
                    assert forall|s: Seq<u8>| #[trigger] completes(b, s) implies s[c] != d by {
                        assert(!completes(b2, s));
                    }
                }
            }
            if try_from(b, c, d) is None {
                assert forall|s: Seq<u8>| #[trigger] completes(b, s) implies s[c] < d by {
                    assert(s[c] < d + 1);
                    assert(s[c] != d);
                }
            }
        } else if try_from(b, c, d) is None {
            assert forall|s: Seq<u8>| #[trigger] completes(b, s) implies s[c] < d by {
                assert(s[c] < d + 1);
                assert(has_digit(b.cands[c], s[c] as int));
            }
        }
    }
}


/// The completions of a board, as a predicate.
pub open spec fn sols(b: Board) -> spec_fn(Seq<u8>) -> bool {
    |s: Seq<u8>| completes(b, s)
}

/// The completions with a digit of at least `lo` at cell `c`.
pub open spec fn sols_from(b: Board, c: int, lo: int) -> spec_fn(Seq<u8>) -> bool {
    |s: Seq<u8>| completes(b, s) && s[c] >= lo
}

/// The completions with digit `d` at cell `c`.
pub open spec fn sols_at(b: Board, c: int, d: int) -> spec_fn(Seq<u8>) -> bool {
    |s: Seq<u8>| completes(b, s) && s[c] == d
}

/// The predicate that nothing meets.
pub open spec fn nothing() -> spec_fn(Seq<u8>) -> bool {
    |s: Seq<u8>| false
}

/// `s` meets `p`, and nothing else does.
pub open spec fn is_only(p: spec_fn(Seq<u8>) -> bool, s: Seq<u8>) -> bool {
    p(s) && forall|t: Seq<u8>| #[trigger] p(t) ==> t == s
}

/// How many grids meet `p`, where two stands for two or more.
pub open spec fn how_many(p: spec_fn(Seq<u8>) -> bool) -> nat {
    if forall|s: Seq<u8>| !#[trigger] p(s) {
        0
    } else if exists|s: Seq<u8>| #[trigger] is_only(p, s) {
        1
    } else {
        2
    }
}

/// The smaller of `n` and two.
pub open spec fn cap2(n: nat) -> nat {
    if n > 2 {
        2
    } else {
        n
    }
}

/// Counting up to two adds over a split into two disjoint parts.
pub proof fn lemma_how_many_split(
    a: spec_fn(Seq<u8>) -> bool,
    b: spec_fn(Seq<u8>) -> bool,
    c: spec_fn(Seq<u8>) -> bool,
)
    requires
        forall|s: Seq<u8>| #[trigger] a(s) <==> b(s) || c(s),
        forall|s: Seq<u8>| !(#[trigger] b(s) && c(s)),
    ensures
        how_many(a) == cap2(how_many(b) + how_many(c)),
{
    let hb = how_many(b);
    let hc = how_many(c);
    if hb == 0 && hc == 0 {
        assert forall|s: Seq<u8>| !#[trigger] a(s) by {
            assert(!b(s) && !c(s));
        }
    } else if hb == 1 && hc == 0 {
        let sb = choose|s: Seq<u8>| #[trigger] is_only(b, s);
        assert(a(sb));
        assert forall|t: Seq<u8>| #[trigger] a(t) implies t == sb by {
            assert(!c(t));
            assert(b(t));
        }
        assert(is_only(a, sb));
    } else if hb == 0 && hc == 1 {
        let sc = choose|s: Seq<u8>| #[trigger] is_only(c, s);
        assert(a(sc));
        assert forall|t: Seq<u8>| #[trigger] a(t) implies t == sc by {
            assert(!b(t));
            assert(c(t));
        }
        assert(is_only(a, sc));
    } else if hb == 1 && hc == 1 {
        let sb = choose|s: Seq<u8>| #[trigger] is_only(b, s);
        let sc = choose|s: Seq<u8>| #[trigger] is_only(c, s);
        assert(a(sb) && a(sc));
        assert(!(b(sb) && c(sb)));
        assert forall|s: Seq<u8>| !#[trigger] is_only(a, s) by {
            if is_only(a, s) {
                assert(sb == s && sc == s);
            }
        }
    } else if hb == 2 {
        let w = choose|s: Seq<u8>| #[trigger] b(s);
        assert(a(w));
        assert forall|s: Seq<u8>| !#[trigger] is_only(a, s) by {
            if is_only(a, s) {
                assert(w == s);
                assert forall|t: Seq<u8>| #[trigger] b(t) implies t == s by {
                    assert(a(t));
                }
                assert(is_only(b, s));
            }
        }
    } else {
        let w = choose|s: Seq<u8>| #[trigger] c(s);
        assert(a(w));
        assert forall|s: Seq<u8>| !#[trigger] is_only(a, s) by {
            if is_only(a, s) {
                assert(w == s);
                assert forall|t: Seq<u8>| #[trigger] c(t) implies t == s by {
                    assert(a(t));
                }
                assert(is_only(c, s));
            }
        }
    }
}

/// Two predicates that the same grids meet count the same.
pub proof fn lemma_how_many_same(a: spec_fn(Seq<u8>) -> bool, b: spec_fn(Seq<u8>) -> bool)
    requires
        forall|s: Seq<u8>| #[trigger] a(s) <==> #[trigger] b(s),
    ensures
        how_many(a) == how_many(b),
{
    assert forall|s: Seq<u8>| #[trigger] a(s) <==> b(s) || nothing()(s) by {
        assert(a(s) <==> b(s));
    }
    assert(forall|s: Seq<u8>| !#[trigger] nothing()(s));
    lemma_how_many_split(a, b, nothing());
}

/// The count of completions is exact up to two on a searchable board.
pub proof fn lemma_tally(b: Board, n: nat)
    requires
        searchable(b),
    ensures
        tally(b, n) == (if n > 1 {
            n
        } else {
            cap2(n + how_many(sols(b)))
        }),
    decreases empties(b.cells), 11int,
{
    lemma_choice(b);
    let c = choice(b);
    if dead(b) {
        assert forall|s: Seq<u8>| !#[trigger] sols(b)(s) by {
            lemma_dead_no_completion(b, s);
        }
    }
    if n > 1 || c < 0 {
    } else if c >= 81 {
        lemma_solved_board(b);
        assert(sols(b)(b.cells));
        assert(is_only(sols(b), b.cells));
    } else {
        lemma_tally_from(b, c, 1, n);
        assert forall|s: Seq<u8>| #[trigger] sols(b)(s) <==> #[trigger] sols_from(b, c, 1)(s) by {
            if completes(b, s) {
                assert(1 <= s[c]);
            }
        }
        lemma_how_many_same(sols(b), sols_from(b, c, 1));
    }
}

/// The count after the digits from `d` on were tried at cell `c`.
pub proof fn lemma_tally_from(b: Board, c: int, d: int, n: nat)
    requires
        searchable(b),
        0 <= c < 81,
        b.cells[c] == 0,
        b.cands[c] != 0,
        1 <= d <= 10,
    ensures
        tally_from(b, c, d, n) == (if n > 1 {
            n
        } else {
            cap2(n + how_many(sols_from(b, c, d)))
        }),
    decreases empties(b.cells), 10 - d,
{
    if d > 9 {
        assert forall|s: Seq<u8>| !#[trigger] sols_from(b, c, d)(s) by {
            if completes(b, s) {
                assert(s[c] <= 9);
            }
        }
    } else {
        lemma_empties_fill(b.cells, c, d as u8, 81);
        let b2 = placed(b, c, d as u8);
        let here = sols_at(b, c, d);
        let rest = sols_from(b, c, d + 1);
        let all = sols_from(b, c, d);
        assert forall|s: Seq<u8>| #[trigger] all(s) <==> here(s) || rest(s) by {}
        assert forall|s: Seq<u8>| !(#[trigger] here(s) && rest(s)) by {}
        lemma_how_many_split(all, here, rest);
        if viable(b, c, d) {
            if dead(b) {
                lemma_dead_placed(b, c, d as u8);
                assert forall|s: Seq<u8>| #[trigger] sols(b2)(s) <==> #[trigger] here(s) by {
                    lemma_dead_no_completion(b, s);
                    lemma_dead_no_completion(b2, s);
                }
            } else {
                lemma_branch(b, c, d as u8);
                assert forall|s: Seq<u8>| #[trigger] sols(b2)(s) <==> #[trigger] here(s) by {
                    assert(completes(b2, s) <==> completes(b, s) && s[c] == d);
                }
            }
            lemma_how_many_same(sols(b2), here);
            lemma_tally(b2, n);
            lemma_tally_from(b, c, d + 1, tally(b2, n));
        } else {
            assert forall|s: Seq<u8>| !#[trigger] here(s) by {
                if completes(b, s) && s[c] == d {
                    if dead(b) {
                        lemma_dead_no_completion(b, s);
                    } else if has_digit(b.cands[c], d) {
                        lemma_branch(b, c, d as u8);
                    } else {
                        assert(has_digit(b.cands[c], s[c] as int));
                    }
                }
            }
            lemma_tally_from(b, c, d + 1, n);
        }
    }
}

/// `s` is the one solution of the puzzle.
pub open spec fn only_solution(cells: Seq<u8>, s: Seq<u8>) -> bool {
    solves(cells, s) && forall|t: Seq<u8>| #[trigger] solves(cells, t) ==> t == s
}

/// The puzzle has exactly one solution.
pub open spec fn uniquely_solvable(cells: Seq<u8>) -> bool {
    exists|s: Seq<u8>| #[trigger] only_solution(cells, s)
}

/// On a puzzle in which no two peers hold the same digit, the search finds a
/// solution exactly when one exists, and the count of completions ends at
/// one exactly when there is one solution.
pub proof fn lemma_solver_decides(cells: Seq<u8>)
    requires
        cells.len() == 81,
        forall|i: int| 0 <= i < 81 ==> #[trigger] cells[i] <= 9,
        consistent(cells),
    ensures
        search(refreshed(cells)) is Some <==> (exists|s: Seq<u8>| #[trigger] solves(cells, s)),
        search(refreshed(cells)) matches Some(r) ==> solves(cells, r.cells) && r.solved() && r.wf(),
        tally(refreshed(cells), 0) == 1 <==> uniquely_solvable(cells),
{
    let r = refreshed(cells);
    lemma_refreshed(cells);
    lemma_search(r);
    lemma_tally(r, 0);
    assert forall|s: Seq<u8>| #[trigger] completes(r, s) <==> #[trigger] solves(cells, s) by {
        lemma_refreshed_completions(cells, s);
    }
    if search(r) is Some {
        assert(solves(cells, search(r)->0.cells));
    }
    if exists|s: Seq<u8>| #[trigger] solves(cells, s) {
        let s = choose|s: Seq<u8>| #[trigger] solves(cells, s);
        assert(completes(r, s));
    }
    let p = sols(r);
    if how_many(p) == 1 {
        let s = choose|s: Seq<u8>| #[trigger] is_only(p, s);
        assert forall|t: Seq<u8>| #[trigger] solves(cells, t) implies t == s by {
            assert(p(t));
        }
        assert(only_solution(cells, s));
    }
    if uniquely_solvable(cells) {
        let s = choose|s: Seq<u8>| #[trigger] only_solution(cells, s);
        assert(p(s));
        assert forall|t: Seq<u8>| #[trigger] p(t) implies t == s by {
            assert(solves(cells, t));
        }
        assert(is_only(p, s));
    }
}

/// After a clue was removed from a puzzle in which no two peers hold the
/// same digit, the search with that digit forbidden at its cell fails
/// exactly when every solution has the removed digit there.
pub proof fn lemma_removal_decides(cells: Seq<u8>, cell: int, removed_val: u8)
    requires
        cells.len() == 81,
        forall|i: int| 0 <= i < 81 ==> #[trigger] cells[i] <= 9,
        consistent(cells),
        0 <= cell < 81,
        1 <= removed_val <= 9,
        cells[cell] == 0,
    ensures
        (forbidding(cells, cell, removed_val).cands[cell] == 0 || search(
            forbidding(cells, cell, removed_val),
        ) is None) <==> (forall|s: Seq<u8>| #[trigger] solves(cells, s) ==> s[cell] == removed_val),
{
    let r = refreshed(cells);
    let f = forbidding(cells, cell, removed_val);
    lemma_refreshed(cells);
    lemma_bits_without(r.cands[cell], (removed_val - 1) as u16);
    if dead(r) {
        let z = choose|z: int| 0 <= z < 81 && r.cells[z] == 0 && #[trigger] r.cands[z] == 0;
        assert(f.cells[z] == 0 && f.cands[z] == 0);
    } else {
        assert forall|i: int, j: int|
            0 <= i < 81 && 0 <= j < 81 && sees(i, j) && f.cells[i] != 0 && f.cells[j]
                == 0 implies !has_digit(#[trigger] f.cands[j], #[trigger] f.cells[i] as int) by {
            assert(!has_digit(r.cands[j], r.cells[i] as int));
        }
    }
    if f.cands[cell] == 0 {
        assert(dead(f));
    }
    lemma_search(f);
    assert forall|s: Seq<u8>| #[trigger] completes(f, s) <==> solves(cells, s) && s[cell]
        != removed_val by {
        lemma_refreshed_completions(cells, s);
        if completes(f, s) {
            assert forall|i: int| 0 <= i < 81 && r.cells[i] == 0 implies has_digit(
                r.cands[i],
                #[trigger] s[i] as int,
            ) by {
                assert(has_digit(f.cands[i], s[i] as int));
            }
        }
        if solves(cells, s) && s[cell] != removed_val {
            assert forall|i: int| 0 <= i < 81 && f.cells[i] == 0 implies has_digit(
                f.cands[i],
                #[trigger] s[i] as int,
            ) by {
                assert(has_digit(r.cands[i], s[i] as int));
            }
        }
    }
    if search(f) is Some {
        let s = search(f)->0.cells;
        assert(completes(f, s));
        if dead(f) {
            lemma_dead_no_completion(f, s);
        }
        assert(solves(cells, s) && s[cell] != removed_val);
    } else {
        assert forall|s: Seq<u8>| #[trigger] solves(cells, s) implies s[cell] == removed_val by {
            assert(!completes(f, s));
        }
    }
}


/// The cells that a solution fills are consistent, each empty or a digit.
pub proof fn lemma_solves_consistent(cells: Seq<u8>, s: Seq<u8>)
    requires
        cells.len() == 81,
        solves(cells, s),
    ensures
        consistent(cells),
        forall|i: int| 0 <= i < 81 ==> #[trigger] cells[i] <= 9,
{
    assert forall|i: int, j: int|
        0 <= i < 81 && 0 <= j < 81 && sees(i, j) && cells[i] != 0 implies #[trigger] cells[i]
        != #[trigger] cells[j] by {
        if cells[j] != 0 {
            assert(s[i] == cells[i] && s[j] == cells[j]);
        }
    }
    assert forall|i: int| 0 <= i < 81 implies #[trigger] cells[i] <= 9 by {
        if cells[i] != 0 {
            assert(s[i] == cells[i]);
        }
    }
}

/// A solved grid is the one solution of itself.
pub proof fn lemma_full_unique(s: Seq<u8>)
    requires
        valid_solution(s),
    ensures
        only_solution(s, s),
{
    assert forall|t: Seq<u8>| #[trigger] solves(s, t) implies t == s by {
        assert(t =~= s);
    }
}

/// A puzzle with one solution keeps it when a digit of that solution is
/// written into a cell that is empty or already holds that digit.
pub proof fn lemma_add_clue(cells: Seq<u8>, full: Seq<u8>, idx: int)
    requires
        cells.len() == 81,
        only_solution(cells, full),
        0 <= idx < 81,
    ensures
        only_solution(cells.update(idx, full[idx]), full),
{
    let more = cells.update(idx, full[idx]);
    assert(solves(more, full));
    assert forall|t: Seq<u8>| #[trigger] solves(more, t) implies t == full by {
        assert forall|i: int| 0 <= i < 81 && cells[i] != 0 implies #[trigger] t[i] == cells[i] by {
            if i == idx {
                assert(full[i] == cells[i]);
                assert(more[i] == full[i]);
            } else {
                assert(more[i] == cells[i]);
            }
        }
        assert(solves(cells, t));
    }
}

/// The test made after a clue was removed: the cell has no other candidate,
/// or the search with the removed digit forbidden there finds nothing.
pub open spec fn keeps_unique(cells: Seq<u8>, cell: int, removed_val: u8) -> bool {
    forbidding(cells, cell, removed_val).cands[cell] == 0 || search(
        forbidding(cells, cell, removed_val),
    ) is None
}

/// A puzzle with one solution keeps it when a clue is removed and the test
/// made after the removal succeeds; where the test fails, the puzzle without
/// the clue has another solution.
pub proof fn lemma_remove_clue(cells: Seq<u8>, full: Seq<u8>, idx: int)
    requires
        cells.len() == 81,
        only_solution(cells, full),
        0 <= idx < 81,
        cells[idx] != 0,
    ensures
        1 <= cells[idx] <= 9,
        keeps_unique(cells.update(idx, 0u8), idx, cells[idx]) <==> only_solution(
            cells.update(idx, 0u8),
            full,
        ),
        keeps_unique(cells.update(idx, 0u8), idx, cells[idx]) <==> uniquely_solvable(
            cells.update(idx, 0u8),
        ),
{
    let less = cells.update(idx, 0u8);
    let v = cells[idx];
    assert(full[idx] == v);
    assert(solves(less, full)) by {
        assert forall|i: int| 0 <= i < 81 && less[i] != 0 implies #[trigger] full[i] == less[i] by {
            assert(less[i] == cells[i]);
        }
    }
    lemma_solves_consistent(less, full);
    lemma_removal_decides(less, idx, v);
    if keeps_unique(less, idx, v) {
        assert forall|t: Seq<u8>| #[trigger] solves(less, t) implies t == full by {
            assert(t[idx] == v);
            assert forall|i: int| 0 <= i < 81 && cells[i] != 0 implies #[trigger] t[i]
                == cells[i] by {
                if i != idx {
                    assert(less[i] == cells[i]);
                }
            }
            assert(solves(cells, t));
        }
    }
    if only_solution(less, full) {
        assert forall|s: Seq<u8>| #[trigger] solves(less, s) implies s[idx] == v by {
            assert(s == full);
        }
    }
    if uniquely_solvable(less) {
        let s = choose|s: Seq<u8>| #[trigger] only_solution(less, s);
        assert(s == full);
    }
}

/// The solver's count of the completions of a uniquely solvable puzzle ends
/// at one.
pub proof fn lemma_counts_one(cells: Seq<u8>)
    requires
        cells.len() == 81,
        uniquely_solvable(cells),
    ensures
        consistent(cells),
        tally(refreshed(cells), 0) == 1,
{
    let full = choose|s: Seq<u8>| #[trigger] only_solution(cells, s);
    lemma_solves_consistent(cells, full);
    lemma_solver_decides(cells);
}

/// A solved grid with one cell blanked has the solved grid as its one
/// solution, so the test made after the removal succeeds.
pub proof fn lemma_one_blank(s: Seq<u8>, cell: int)
    requires
        valid_solution(s),
        0 <= cell < 81,
    ensures
        only_solution(s.update(cell, 0u8), s),
        keeps_unique(s.update(cell, 0u8), cell, s[cell]),
{
    lemma_full_unique(s);
    lemma_remove_clue(s, s, cell);
    let less = s.update(cell, 0u8);
    assert forall|t: Seq<u8>| #[trigger] solves(less, t) implies t == s by {
        let u = row_of(cell);
        let k = lemma_unit_covers(s, u, t[cell] as int);
        lemma_cell_at(u, k);
        let other = cell_at(u, k);
        if other != cell {
            assert(less[other] == s[other]);
            assert(t[other] == s[other]);
            assert(sees(cell, other));
            assert(t[cell] != t[other]);
        }
        assert forall|i: int| 0 <= i < 81 implies t[i] == s[i] by {
            if i != cell {
                assert(less[i] == s[i]);
            }
        }
        assert(t =~= s);
    }
}

/// A dead board defeats the solver: the search finds nothing, and the count
/// of completions stays as it was.
pub proof fn lemma_dead_fails(b: Board, n: nat)
    requires
        b.wf(),
        dead(b),
    ensures
        search(b) is None,
        tally(b, n) == n,
{
    lemma_search(b);
    lemma_tally(b, n);
    if search(b) is Some {
        lemma_dead_no_completion(b, search(b)->0.cells);
    }
    assert forall|s: Seq<u8>| !#[trigger] sols(b)(s) by {
        lemma_dead_no_completion(b, s);
    }
}

} // verus!
