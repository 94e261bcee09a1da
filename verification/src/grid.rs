//! The 81-cell board: placed digits and, for each cell, the mask of digits
//! that may still go there.

use vstd::prelude::*;
use vstd::string::*;
use crate::bits::{FULL, has_digit};
pub use crate::units::SIZE;
use crate::solver::{refreshed, update_candidates};

verus! {

/// The mathematical model of a grid: the placed digit of each cell (0 for an
/// empty cell) and the candidate mask of each cell.
pub struct Board {
    pub cells: Seq<u8>,
    pub cands: Seq<u16>,
}

impl Board {
    /// There are 81 cells, each empty or holding a digit 1..=9.
    pub open spec fn cells_ok(self) -> bool {
        &&& self.cells.len() == 81
        &&& self.cands.len() == 81
        &&& forall|i: int| 0 <= i < 81 ==> #[trigger] self.cells[i] <= 9
    }

    /// The data invariant: digits are in range, masks have nine bits, and a
    /// placed cell has no candidates.
    pub open spec fn wf(self) -> bool {
        &&& self.cells_ok()
        &&& forall|i: int| 0 <= i < 81 ==> #[trigger] self.cands[i] <= FULL
        &&& forall|i: int| 0 <= i < 81 && self.cells[i] != 0 ==> #[trigger] self.cands[i] == 0
    }

    /// Cell `i` is empty and still admits digit `d`.
    pub open spec fn cand(self, i: int, d: int) -> bool {
        self.cells[i] == 0 && has_digit(self.cands[i], d)
    }

    /// Every cell holds a digit.
    pub open spec fn solved(self) -> bool {
        forall|i: int| 0 <= i < 81 ==> #[trigger] self.cells[i] != 0
    }

    /// The board with `v` written at cell `i` and that cell's candidates cleared.
    pub open spec fn with_value(self, i: int, v: u8) -> Board {
        Board { cells: self.cells.update(i, v), cands: self.cands.update(i, 0u16) }
    }

    /// The board with the candidate mask of cell `i` replaced.
    pub open spec fn with_mask(self, i: int, m: u16) -> Board {
        Board { cells: self.cells, cands: self.cands.update(i, m) }
    }
}

/// The empty board: no digit placed, every digit a candidate everywhere.
pub open spec fn blank() -> Board {
    Board { cells: Seq::new(81, |i: int| 0u8), cands: Seq::new(81, |i: int| FULL) }
}

/// The digit that a character stands for; 0 for any character but `1`..`9`.
pub open spec fn digit_of(c: char) -> u8 {
    if '1' <= c && c <= '9' {
        (c as u32 - 48) as u8
    } else {
        0
    }
}

/// The character that stands for a cell's content.
pub open spec fn glyph(v: u8) -> char {
    if v == 0 {
        '.'
    } else {
        (v + 48) as u8 as char
    }
}

/// The cells that a puzzle string describes: its first 81 characters, and
/// empty cells where the string is shorter.
pub open spec fn parse(s: Seq<char>) -> Seq<u8> {
    Seq::new(
        81,
        |i: int|
            if i < s.len() {
                digit_of(s[i])
            } else {
                0u8
            },
    )
}

/// The canonical string of 81 cells.
pub open spec fn emit(cells: Seq<u8>) -> Seq<char> {
    Seq::new(81, |i: int| glyph(cells[i]))
}

/// A string is canonical: 81 characters, each `.` or a digit `1`..`9`.
pub open spec fn canonical(s: Seq<char>) -> bool {
    s.len() == 81 && forall|i: int| 0 <= i < 81 ==> #[trigger] s[i] == '.' || ('1' <= s[i] && s[i] <= '9')
}

/// Emitting what was parsed from a canonical string gives the string back.
pub proof fn lemma_parse_emit(s: Seq<char>)
    requires
        canonical(s),
    ensures
        emit(parse(s)) == s,
{
    assert(emit(parse(s)) =~= s);
}

/// Parsing what was emitted gives the cells back, and the emitted string is
/// canonical.
pub proof fn lemma_emit_parse(cells: Seq<u8>)
    requires
        cells.len() == 81,
        forall|i: int| 0 <= i < 81 ==> #[trigger] cells[i] <= 9,
    ensures
        parse(emit(cells)) == cells,
        canonical(emit(cells)),
{
    assert(parse(emit(cells)) =~= cells);
}

/// A grid: the digit of each cell, 0 for an empty cell, and the candidate
/// mask of each cell, with digit `d` in bit `d - 1`.
#[derive(Clone, Copy, Debug)]
pub struct Grid {
    pub values: [u8; SIZE],
    pub candidates: [u16; SIZE],
}

impl View for Grid {
    type V = Board;

    open spec fn view(&self) -> Board {
        Board { cells: self.values@, cands: self.candidates@ }
    }
}

/// The character for digit `v`, as a one-character string.
fn glyph_str(v: u8) -> (r: &'static str)
    requires
        v <= 9,
    ensures
        r@ == seq![glyph(v)],
{
    proof {
        reveal_strlit(".");
        reveal_strlit("1");
        reveal_strlit("2");
        reveal_strlit("3");
        reveal_strlit("4");
        reveal_strlit("5");
        reveal_strlit("6");
        reveal_strlit("7");
        reveal_strlit("8");
        reveal_strlit("9");
    }
    let r = match v {
        0 => ".",
        1 => "1",
        2 => "2",
        3 => "3",
        4 => "4",
        5 => "5",
        6 => "6",
        7 => "7",
        8 => "8",
        _ => "9",
    };
    assert(r@ =~= seq![glyph(v)]);
    r
}

impl Grid {
    /// The empty grid.
    pub fn new() -> (g: Grid)
        ensures
            g@ == blank(),
            g@.wf(),
    {
        let g = Grid { values: [0;SIZE], candidates: [0x1FF;SIZE] };
        assert(g@.cells =~= blank().cells);
        assert(g@.cands =~= blank().cands);
        g
    }

    /// Reads a puzzle string: the digits `1`..`9` among its first 81
    /// characters are placed, every other cell is empty, and the candidates
    /// are those that the placements leave.
    pub fn from_string(s: &str) -> (g: Grid)
        ensures
            g@ == refreshed(parse(s@)),
            g@.cells == parse(s@),
            g@.wf(),
    {
        let mut grid = Grid::new();
        let mut i: usize = 0;
        for c in it: s.chars()
            invariant
                i == (if it.index() < 81 { it.index() } else { 81 }),
                it.seq() == s@,
                grid@.cells.len() == 81,
                forall|j: int| 0 <= j < i ==> grid@.cells[j] == digit_of(s@[j]),
                forall|j: int| i <= j < 81 ==> grid@.cells[j] == 0,
        {
            if i < SIZE {
                if '1' <= c && c <= '9' {
                    grid.set_value(i, (c as u32 - 48) as u8);
                }
                i = i + 1;
            }
        }
        assert(grid@.cells =~= parse(s@));
        update_candidates(&mut grid);
        grid
    }

    /// The canonical string: one character per cell, `.` for an empty cell.
    pub fn to_string(&self) -> (s: String)
        requires
            self@.cells_ok(),
        ensures
            s@ == emit(self@.cells),
    {
        let mut s = String::new();
        for i in 0..SIZE
            invariant
                self@.cells_ok(),
                s@.len() == i,
                forall|j: int| 0 <= j < i ==> s@[j] == glyph(self@.cells[j]),
        {
            s.append(glyph_str(self.values[i]));
        }
        assert(s@ =~= emit(self@.cells));
        s
    }

    /// Writes `value` at `index` and clears that cell's candidates. The
    /// candidates of other cells are left as they are.
    pub fn set_value(&mut self, index: usize, value: u8)
        requires
            index < 81,
        ensures
            final(self)@ == old(self)@.with_value(index as int, value),
            old(self)@.wf() && value <= 9 ==> final(self)@.wf(),
    {
        self.values[index] = value;
        self.candidates[index] = 0;
    }

    /// Whether every cell holds a digit.
    pub fn is_solved(&self) -> (r: bool)
        ensures
            r == self@.solved(),
    {
        for i in 0..SIZE
            invariant
                forall|j: int| 0 <= j < i ==> self@.cells[j] != 0,
        {
            if self.values[i] == 0 {
                assert(self@.cells[i as int] == 0);
                return false;
            }
        }
        true
    }
}

} // verus!
