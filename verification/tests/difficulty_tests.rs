use fast_sudoku::difficulty::{apply_hint, evaluate_difficulty, score};
use fast_sudoku::grid::Grid;
use fast_sudoku::hint::Hint;
use fast_sudoku::solver::{solve, update_candidates};
use fast_sudoku::techniques::get_hint;

const HARD: &str = "800000000003600000070090200050007000000045700000100030001000068008500010090000400";
const EASY: &str = "530070000600195000098000060800060003400803001700020006060000280000419005000080079";
const EASY_SOLVED: &str = "534678912672195348198342567859761423426853791713924856961537284287419635345286179";

#[test]
fn solved_grid_scores_one() {
    let r = evaluate_difficulty(&Grid::from_string(EASY_SOLVED));
    assert_eq!(r.score, 1);
    assert!(r.solvable);
}

#[test]
fn one_naked_single_scores_one() {
    let mut text = String::from(EASY_SOLVED);
    text.replace_range(40..41, ".");
    let r = evaluate_difficulty(&Grid::from_string(&text));
    // 0.7 * 1 + 0.2 * 1 + 0.5 = 1.4
    assert_eq!(r.score, 1);
    assert!(r.solvable);
}

#[test]
fn score_formula() {
    // no step: 0 rounds to 0, held at 1
    assert_eq!(score(0, 0, 0, 0), 1);
    // 0.7 * 1 + 0.2 * 1 + 0.5 = 1.4
    assert_eq!(score(1, 5, 5, 1), 1);
    // 0.7 * 7 + 0.2 * 3 + 1.0 = 6.5, a half rounds up
    assert_eq!(score(7, 9, 3, 2), 7);
    // 0.7 * 7 + 0.2 * 2.5 + 1.0 = 6.4
    assert_eq!(score(7, 10, 4, 2), 6);
    // 0.7 * 54 + 0.2 * 54 + 0.5 = 49.1
    assert_eq!(score(54, 54, 1, 1), 49);
    // 0.7 * 54 + 0.2 * 54 + 5.0 = 53.6, the bonus stops at 5
    assert_eq!(score(54, 540, 10, 13), 54);
    assert_eq!(score(54, 540, 10, 10), 54);
    // 0.7 * 46 + 0.2 * 10 + 2.0 = 36.2
    assert_eq!(score(46, 100, 10, 4), 36);
    // held at 100
    assert_eq!(score(1000, 1000, 1, 0), 100);
}

#[test]
fn easy_puzzle_is_solved_by_singles() {
    let g = Grid::from_string(EASY);
    let mut cur = g;
    update_candidates(&mut cur);
    let mut max_w = 0;
    let mut sum_w = 0;
    let mut steps = 0;
    let mut kinds = std::collections::HashSet::new();
    while !cur.is_solved() {
        let h = get_hint(&cur).expect("singles solve this puzzle");
        assert_eq!(h.technique, "naked_single");
        max_w = max_w.max(h.difficulty);
        sum_w += h.difficulty;
        steps += 1;
        kinds.insert(h.technique);
        apply_hint(&mut cur, &h);
    }
    assert_eq!(cur.to_string(), EASY_SOLVED);
    assert_eq!(steps, 51);
    let r = evaluate_difficulty(&g);
    assert!(r.solvable);
    assert_eq!(r.score, score(max_w, sum_w, steps, kinds.len()));
    let weighted = 0.7 * max_w as f64 + 0.2 * (sum_w as f64 / steps as f64) + 0.5 * kinds.len() as f64;
    assert_eq!(r.score, weighted.round() as i32);
}

#[test]
fn stuck_evaluation_scores_hundred() {
    let r = evaluate_difficulty(&Grid::from_string(HARD));
    assert_eq!(r.score, 100);
    assert!(!r.solvable);
    let e = evaluate_difficulty(&Grid::new());
    assert_eq!(e.score, 100);
    assert!(!e.solvable);
}

#[test]
fn dead_cell_evaluation_is_stuck() {
    let text = format!("12345678.{}9{}", ".".repeat(8), ".".repeat(63));
    let r = evaluate_difficulty(&Grid::from_string(&text));
    assert_eq!(r.score, 100);
    assert!(!r.solvable);
}

#[test]
fn evaluation_ignores_stale_candidates() {
    let mut g = Grid::from_string(EASY);
    for c in g.candidates.iter_mut() {
        *c = 0;
    }
    let r = evaluate_difficulty(&g);
    assert!(r.solvable);
    assert_eq!(r.score, evaluate_difficulty(&Grid::from_string(EASY)).score);
}

#[test]
fn apply_hint_places_and_propagates() {
    let mut g = Grid::new();
    let h = Hint {
        difficulty: 1,
        technique: "naked_single",
        eliminations: vec![],
        placements: vec![(0, 4)],
    };
    apply_hint(&mut g, &h);
    assert_eq!(g.values[0], 4);
    assert_eq!(g.candidates[0], 0);
    assert_eq!(g.candidates[1], 0x1FF & !(1 << 3));
    assert_eq!(g.candidates[9], 0x1FF & !(1 << 3));
    assert_eq!(g.candidates[20], 0x1FF & !(1 << 3));
    assert_eq!(g.candidates[40], 0x1FF);
}

#[test]
fn apply_hint_eliminates() {
    let mut g = Grid::new();
    let h = Hint {
        difficulty: 9,
        technique: "naked_pair",
        eliminations: vec![(3, 1), (3, 2), (80, 9)],
        placements: vec![],
    };
    apply_hint(&mut g, &h);
    assert_eq!(g.candidates[3], 0x1FF & !0b11);
    assert_eq!(g.candidates[80], 0xFF);
    assert_eq!(g.candidates[4], 0x1FF);
    assert!(g.values.iter().all(|&v| v == 0));
}

#[test]
fn hints_agree_with_the_solution() {
    for text in [EASY, HARD] {
        let g = Grid::from_string(text);
        let solution = solve(&g).unwrap();
        let mut cur = g;
        update_candidates(&mut cur);
        while !cur.is_solved() {
            let h = match get_hint(&cur) {
                Some(h) => h,
                None => break,
            };
            assert!(!h.placements.is_empty() || !h.eliminations.is_empty());
            for &(cell, digit) in &h.placements {
                assert_eq!(solution.values[cell], digit);
                assert_eq!(cur.values[cell], 0);
                assert!(cur.candidates[cell] & (1 << (digit - 1)) != 0);
            }
            for &(cell, digit) in &h.eliminations {
                assert!(solution.values[cell] != digit);
                assert_eq!(cur.values[cell], 0);
                assert!(cur.candidates[cell] & (1 << (digit - 1)) != 0);
            }
            apply_hint(&mut cur, &h);
        }
    }
}

/// The hints of an evaluation, one entry for each step: the technique's
/// name, then each placement as `p<cell>=<digit>` and each elimination as
/// `e<cell>=<digit>`.
fn trace_of(puzzle: &str) -> Vec<String> {
    let mut cur = Grid::from_string(puzzle);
    update_candidates(&mut cur);
    let mut steps = Vec::new();
    while !cur.is_solved() {
        let h = match get_hint(&cur) {
            Some(h) => h,
            None => break,
        };
        let mut text = format!("{}:", h.technique);
        for &(cell, digit) in &h.placements {
            text.push_str(&format!("p{}={}", cell, digit));
        }
        for &(cell, digit) in &h.eliminations {
            text.push_str(&format!("e{}={}", cell, digit));
        }
        steps.push(text);
        apply_hint(&mut cur, &h);
    }
    steps
}

fn fnv1a(text: &str) -> u64 {
    let mut h: u64 = 0xcbf29ce484222325;
    for b in text.bytes() {
        h ^= b as u64;
        h = h.wrapping_mul(0x100000001b3);
    }
    h
}

#[test]
fn hint_traces_of_known_puzzles() {
    // for each puzzle: the number of steps, the FNV-1a hash of the steps
    // joined by `;`, the score, and whether the techniques solve it
    let cases: [(&str, usize, u64, i32, bool); 6] = [
        (EASY, 51, 0x1a9b81e4fc2f8530, 1, true),
        (
            "4.........6.4.1.9..1.8.9..65......7..3...........86...6...7.5.2.8.1.........651.7",
            59,
            0x3763e1012aa62c49,
            11,
            true,
        ),
        (
            ".....37.......6.8..7428.....178...3..........9....74.....3...145..94......8..56.2",
            63,
            0xdbe837dca2ef58d5,
            42,
            true,
        ),
        (
            "2..1..7.84......3...637......2...8......8..6.1.....9.7.2.7..1.9...4....5.3981..74",
            65,
            0xbba27d9c57a562ec,
            43,
            true,
        ),
        (
            "35...72...4.9.....8.....5.6.1...9..8....7........8.64.4.1.3.....7...81.......5..3",
            17,
            0x178431bc4c417c38,
            100,
            false,
        ),
        (
            "....6....6....1..8...5...1..81.3..4.......7.934...5....5...48...7..1..6.9....31..",
            24,
            0x8c9082a93527388e,
            100,
            false,
        ),
    ];
    for (puzzle, steps, hash, score, solvable) in cases {
        let trace = trace_of(puzzle);
        assert_eq!(trace.len(), steps);
        assert_eq!(fnv1a(&trace.join(";")), hash);
        let r = evaluate_difficulty(&Grid::from_string(puzzle));
        assert_eq!(r.score, score);
        assert_eq!(r.solvable, solvable);
    }
}

#[test]
fn techniques_solve_only_uniquely_solvable_puzzles() {
    let full = Grid::from_string(EASY_SOLVED);
    let mut g = full;
    let mut ambiguous = 0;
    for cell in 0..81 {
        let val = g.values[cell];
        g.set_value(cell, 0);
        if !fast_sudoku::solver::is_unique(&g) {
            // with this cell blank the puzzle has a second solution
            let r = evaluate_difficulty(&g);
            assert!(!r.solvable);
            assert_eq!(r.score, 100);
            ambiguous += 1;
            g.set_value(cell, val);
        }
        let r = evaluate_difficulty(&g);
        if r.solvable {
            assert!(fast_sudoku::solver::is_unique(&g));
        }
    }
    assert!(ambiguous > 0);
    assert!(evaluate_difficulty(&Grid::from_string(EASY)).solvable);
}
