//! Hints: one deduction step of a solving technique, with its weight.

use vstd::prelude::*;
use crate::grid::Board;

verus! {

/// The solving techniques, from the easiest to the hardest.
#[derive(Clone, Copy, Debug, PartialEq, Eq, Structural)]
pub enum Technique {
    NakedSingle,
    HiddenSingle,
    NakedPair,
    PointingPair,
    BoxLineReduction,
    HiddenPair,
    NakedTriple,
    HiddenTriple,
    NakedQuad,
    HiddenQuad,
    XWing,
    YWing,
    SimpleColoring,
}

impl Technique {
    /// The difficulty weight of one step of the technique.
    pub open spec fn spec_weight(self) -> u32 {
        match self {
            Technique::NakedSingle => 1,
            Technique::HiddenSingle => 7,
            Technique::NakedPair => 9,
            Technique::PointingPair => 12,
            Technique::BoxLineReduction => 14,
            Technique::HiddenPair => 18,
            Technique::NakedTriple => 22,
            Technique::HiddenTriple => 28,
            Technique::NakedQuad => 35,
            Technique::HiddenQuad => 42,
            Technique::XWing => 46,
            Technique::YWing => 50,
            Technique::SimpleColoring => 54,
        }
    }

    /// The place of the technique in the order of difficulty, from 0.
    pub open spec fn spec_rank(self) -> int {
        match self {
            Technique::NakedSingle => 0,
            Technique::HiddenSingle => 1,
            Technique::NakedPair => 2,
            Technique::PointingPair => 3,
            Technique::BoxLineReduction => 4,
            Technique::HiddenPair => 5,
            Technique::NakedTriple => 6,
            Technique::HiddenTriple => 7,
            Technique::NakedQuad => 8,
            Technique::HiddenQuad => 9,
            Technique::XWing => 10,
            Technique::YWing => 11,
            Technique::SimpleColoring => 12,
        }
    }

    /// The name of the technique.
    pub open spec fn spec_name(self) -> Seq<char> {
        match self {
            Technique::NakedSingle => "naked_single"@,
            Technique::HiddenSingle => "hidden_single"@,
            Technique::NakedPair => "naked_pair"@,
            Technique::PointingPair => "pointing_pair"@,
            Technique::BoxLineReduction => "box_line_reduction"@,
            Technique::HiddenPair => "hidden_pair"@,
            Technique::NakedTriple => "naked_triple"@,
            Technique::HiddenTriple => "hidden_triple"@,
            Technique::NakedQuad => "naked_quad"@,
            Technique::HiddenQuad => "hidden_quad"@,
            Technique::XWing => "x_wing"@,
            Technique::YWing => "y_wing"@,
            Technique::SimpleColoring => "simple_coloring"@,
        }
    }

    /// The difficulty weight of one step of the technique.
    pub fn weight(&self) -> (w: u32)
        ensures
            w == self.spec_weight(),
            1 <= w <= 54,
    {
        match self {
            Technique::NakedSingle => 1,
            Technique::HiddenSingle => 7,
            Technique::NakedPair => 9,
            Technique::PointingPair => 12,
            Technique::BoxLineReduction => 14,
            Technique::HiddenPair => 18,
            Technique::NakedTriple => 22,
            Technique::HiddenTriple => 28,
            Technique::NakedQuad => 35,
            Technique::HiddenQuad => 42,
            Technique::XWing => 46,
            Technique::YWing => 50,
            Technique::SimpleColoring => 54,
        }
    }

    /// The place of the technique in the order of difficulty, from 0.
    pub fn rank(&self) -> (r: usize)
        ensures
            r == self.spec_rank(),
            r < 13,
    {
        match self {
            Technique::NakedSingle => 0,
            Technique::HiddenSingle => 1,
            Technique::NakedPair => 2,
            Technique::PointingPair => 3,
            Technique::BoxLineReduction => 4,
            Technique::HiddenPair => 5,
            Technique::NakedTriple => 6,
            Technique::HiddenTriple => 7,
            Technique::NakedQuad => 8,
            Technique::HiddenQuad => 9,
            Technique::XWing => 10,
            Technique::YWing => 11,
            Technique::SimpleColoring => 12,
        }
    }

    /// The technique with the given weight; the hardest one for a number
    /// that is no weight.
    pub fn with_weight(w: u32) -> (t: Technique)
        ensures
            t == technique_weighing(w),
    {
        if w == 1 {
            Technique::NakedSingle
        } else if w == 7 {
            Technique::HiddenSingle
        } else if w == 9 {
            Technique::NakedPair
        } else if w == 12 {
            Technique::PointingPair
        } else if w == 14 {
            Technique::BoxLineReduction
        } else if w == 18 {
            Technique::HiddenPair
        } else if w == 22 {
            Technique::NakedTriple
        } else if w == 28 {
            Technique::HiddenTriple
        } else if w == 35 {
            Technique::NakedQuad
        } else if w == 42 {
            Technique::HiddenQuad
        } else if w == 46 {
            Technique::XWing
        } else if w == 50 {
            Technique::YWing
        } else {
            Technique::SimpleColoring
        }
    }

    /// The name of the technique.
    pub fn name(&self) -> (s: &'static str)
        ensures
            s@ == self.spec_name(),
    {
        match self {
            Technique::NakedSingle => "naked_single",
            Technique::HiddenSingle => "hidden_single",
            Technique::NakedPair => "naked_pair",
            Technique::PointingPair => "pointing_pair",
            Technique::BoxLineReduction => "box_line_reduction",
            Technique::HiddenPair => "hidden_pair",
            Technique::NakedTriple => "naked_triple",
            Technique::HiddenTriple => "hidden_triple",
            Technique::NakedQuad => "naked_quad",
            Technique::HiddenQuad => "hidden_quad",
            Technique::XWing => "x_wing",
            Technique::YWing => "y_wing",
            Technique::SimpleColoring => "simple_coloring",
        }
    }
}

/// One deduction: the weight and the name of the technique that found it,
/// the digits to place and the candidates to eliminate, each as a pair of a
/// cell and a digit.
#[derive(Clone, Debug)]
pub struct Hint {
    pub difficulty: u32,
    pub technique: &'static str,
    pub eliminations: Vec<(usize, u8)>,
    pub placements: Vec<(usize, u8)>,
}

/// The mathematical model of a hint.
pub struct HintView {
    pub difficulty: u32,
    pub technique: Seq<char>,
    pub eliminations: Seq<(usize, u8)>,
    pub placements: Seq<(usize, u8)>,
}

impl View for Hint {
    type V = HintView;

    open spec fn view(&self) -> HintView {
        HintView {
            difficulty: self.difficulty,
            technique: self.technique@,
            eliminations: self.eliminations@,
            placements: self.placements@,
        }
    }
}

/// The hint of technique `t` that places digit `d` at `cell`.
pub open spec fn placing(t: Technique, cell: int, d: int) -> HintView {
    HintView {
        difficulty: t.spec_weight(),
        technique: t.spec_name(),
        eliminations: Seq::empty(),
        placements: seq![(cell as usize, d as u8)],
    }
}

/// The hint of technique `t` that eliminates the listed candidates.
pub open spec fn eliminating(t: Technique, eliminations: Seq<(usize, u8)>) -> HintView {
    HintView {
        difficulty: t.spec_weight(),
        technique: t.spec_name(),
        eliminations,
        placements: Seq::empty(),
    }
}

/// The hint that eliminates `eliminations`, if there are any.
pub open spec fn eliminating_some(t: Technique, eliminations: Seq<(usize, u8)>) -> Option<HintView> {
    if eliminations.len() > 0 {
        Some(eliminating(t, eliminations))
    } else {
        None
    }
}

/// The model of an optional hint.
pub open spec fn view_of(r: Option<Hint>) -> Option<HintView> {
    match r {
        Some(h) => Some(h@),
        None => None,
    }
}

/// Every pair of the list is a candidate of the board: its cell is empty and
/// still admits its digit.
pub open spec fn all_candidates(b: Board, pairs: Seq<(usize, u8)>) -> bool {
    forall|k: int|
        0 <= k < pairs.len() ==> 0 <= (#[trigger] pairs[k]).0 < 81 && b.cand(
            pairs[k].0 as int,
            pairs[k].1 as int,
        )
}

/// The technique with the given weight; the hardest one for a number that
/// is no weight.
pub open spec fn technique_weighing(w: u32) -> Technique {
    if w == 1 {
        Technique::NakedSingle
    } else if w == 7 {
        Technique::HiddenSingle
    } else if w == 9 {
        Technique::NakedPair
    } else if w == 12 {
        Technique::PointingPair
    } else if w == 14 {
        Technique::BoxLineReduction
    } else if w == 18 {
        Technique::HiddenPair
    } else if w == 22 {
        Technique::NakedTriple
    } else if w == 28 {
        Technique::HiddenTriple
    } else if w == 35 {
        Technique::NakedQuad
    } else if w == 42 {
        Technique::HiddenQuad
    } else if w == 46 {
        Technique::XWing
    } else if w == 50 {
        Technique::YWing
    } else {
        Technique::SimpleColoring
    }
}

/// The technique that a hint names, told by the hint's weight.
pub open spec fn technique_of(h: HintView) -> Technique {
    technique_weighing(h.difficulty)
}

/// The hint can be applied to the board: it carries the name and the weight
/// of one technique, it places or eliminates something, and whatever it
/// places or eliminates is a candidate of the board.
pub open spec fn applicable(b: Board, h: HintView) -> bool {
    &&& h.difficulty == technique_of(h).spec_weight()
    &&& h.technique == technique_of(h).spec_name()
    &&& h.placements.len() + h.eliminations.len() > 0
    &&& all_candidates(b, h.placements)
    &&& all_candidates(b, h.eliminations)
}

/// The hint is of one kind: it places one digit and eliminates nothing, or
/// it places nothing.
pub open spec fn one_kind(h: HintView) -> bool {
    (h.placements.len() == 1 && h.eliminations.len() == 0) || h.placements.len() == 0
}

/// The hint agrees with the solved grid `s`: `s` has every placed digit at
/// its cell, and no eliminated digit at its cell.
pub open spec fn agrees(h: HintView, s: Seq<u8>) -> bool {
    &&& forall|k: int|
        0 <= k < h.placements.len() ==> s[(#[trigger] h.placements[k]).0 as int] == h.placements[k].1
    &&& forall|k: int|
        0 <= k < h.eliminations.len() ==> s[(#[trigger] h.eliminations[k]).0 as int]
            != h.eliminations[k].1
}

/// Builds the hint of technique `t` that places `d` at `cell`.
pub fn placing_hint(t: Technique, cell: usize, d: u8) -> (h: Hint)
    ensures
        h@ == placing(t, cell as int, d as int),
{
    let h = Hint {
        difficulty: t.weight(),
        technique: t.name(),
        eliminations: Vec::new(),
        placements: vec![(cell, d)],
    };
    assert(h@.placements =~= seq![(cell, d)]);
    assert(h@.eliminations =~= Seq::empty());
    h
}

/// Builds the hint of technique `t` that eliminates `eliminations`, if there
/// are any.
pub fn eliminating_hint(t: Technique, eliminations: Vec<(usize, u8)>) -> (r: Option<Hint>)
    ensures
        view_of(r) == eliminating_some(t, eliminations@),
{
    if eliminations.len() > 0 {
        let h = Hint {
            difficulty: t.weight(),
            technique: t.name(),
            eliminations,
            placements: Vec::new(),
        };
        assert(h@.placements =~= Seq::empty());
        Some(h)
    } else {
        None
    }
}

} // verus!
