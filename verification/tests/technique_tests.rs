use fast_sudoku::coloring::{check_color_conflict_fast, detect_simple_coloring};
use fast_sudoku::grid::Grid;
use fast_sudoku::hint::Technique;
use fast_sudoku::intersections::{detect_box_line_reduction, detect_pointing_pairs};
use fast_sudoku::singles::{detect_hidden_single, detect_naked_single};
use fast_sudoku::subsets::{detect_hidden_subset, detect_naked_subset};
use fast_sudoku::techniques::{get_candidates, get_hint};
use fast_sudoku::units::can_see;
use fast_sudoku::wings::{check_y_wing, detect_x_wing, detect_y_wing};

const EASY_SOLVED: &str = "534678912672195348198342567859761423426853791713924856961537284287419635345286179";

fn bit(d: u8) -> u16 {
    1 << (d - 1)
}

/// Removes digit `d` from the candidates of the listed cells.
fn without(g: &mut Grid, d: u8, cells: &[usize]) {
    for &c in cells {
        g.candidates[c] &= !bit(d);
    }
}

#[test]
fn technique_names_and_weights() {
    let table = [
        (Technique::NakedSingle, "naked_single", 1),
        (Technique::HiddenSingle, "hidden_single", 7),
        (Technique::NakedPair, "naked_pair", 9),
        (Technique::PointingPair, "pointing_pair", 12),
        (Technique::BoxLineReduction, "box_line_reduction", 14),
        (Technique::HiddenPair, "hidden_pair", 18),
        (Technique::NakedTriple, "naked_triple", 22),
        (Technique::HiddenTriple, "hidden_triple", 28),
        (Technique::NakedQuad, "naked_quad", 35),
        (Technique::HiddenQuad, "hidden_quad", 42),
        (Technique::XWing, "x_wing", 46),
        (Technique::YWing, "y_wing", 50),
        (Technique::SimpleColoring, "simple_coloring", 54),
    ];
    for (rank, (t, name, weight)) in table.iter().enumerate() {
        assert_eq!(t.name(), *name);
        assert_eq!(t.weight(), *weight);
        assert_eq!(t.rank(), rank);
        assert_eq!(Technique::with_weight(*weight), *t);
    }
    assert_eq!(Technique::with_weight(0), Technique::SimpleColoring);
}

#[test]
fn one_empty_cell_yields_naked_single() {
    for cell in [0usize, 40, 80] {
        let mut text = String::from(EASY_SOLVED);
        text.replace_range(cell..cell + 1, ".");
        let g = Grid::from_string(&text);
        let h = get_hint(&g).expect("a hint");
        assert_eq!(h.technique, "naked_single");
        assert_eq!(h.technique, "naked_single");
        assert_eq!(h.difficulty, 1);
        let digit = EASY_SOLVED.as_bytes()[cell] - b'0';
        assert_eq!(h.placements, vec![(cell, digit)]);
        assert!(h.eliminations.is_empty());
    }
}

#[test]
fn naked_single_takes_first_cell() {
    let mut g = Grid::new();
    g.candidates[30] = bit(4);
    g.candidates[12] = bit(9);
    let h = detect_naked_single(&g).unwrap();
    assert_eq!(h.placements, vec![(12, 9)]);
    g.set_value(12, 9);
    let h = detect_naked_single(&g).unwrap();
    assert_eq!(h.placements, vec![(30, 4)]);
}

#[test]
fn solved_grid_has_no_hint() {
    let g = Grid::from_string(EASY_SOLVED);
    assert!(get_hint(&g).is_none());
}

#[test]
fn empty_grid_has_no_hint() {
    assert!(get_hint(&Grid::new()).is_none());
}

#[test]
fn hidden_single_in_a_box() {
    // 5 at r1c3, r2c6, r3c1 and r6c2 leaves r0c0 as the only cell of box 0 for a 5
    let mut text = vec![b'.'; 81];
    for cell in [9 + 3, 18 + 6, 27 + 1, 54 + 2] {
        text[cell] = b'5';
    }
    let g = Grid::from_string(std::str::from_utf8(&text).unwrap());
    assert!(detect_naked_single(&g).is_none());
    let h = get_hint(&g).expect("a hint");
    assert_eq!(h.technique, "hidden_single");
    assert_eq!(h.difficulty, 7);
    assert_eq!(h.placements, vec![(0, 5)]);
    assert!(h.eliminations.is_empty());
}

#[test]
fn hidden_single_found_through_the_box_only() {
    let mut g = Grid::new();
    // in box 4 only cell 40 keeps digit 3; rows and columns keep it elsewhere
    without(&mut g, 3, &[30, 31, 32, 39, 41, 48, 49, 50]);
    let h = detect_hidden_single(&g).unwrap();
    assert_eq!(h.technique, "hidden_single");
    assert_eq!(h.placements, vec![(40, 3)]);
}

#[test]
fn hidden_single_skips_placed_digit() {
    let mut g = Grid::new();
    // row 0 holds a 3 already; a stale candidate 3 at cell 8 is no hidden single
    g.set_value(0, 3);
    without(&mut g, 3, &[1, 2, 3, 4, 5, 6, 7]);
    without(&mut g, 3, &[9, 10, 11, 18, 19, 20, 27, 36, 45, 54, 63, 72]);
    let h = detect_hidden_single(&g);
    assert!(h.is_none() || h.unwrap().placements != vec![(8, 3)]);
}

#[test]
fn naked_pair_eliminates_from_rest_of_unit() {
    let mut g = Grid::new();
    g.candidates[0] = bit(1) | bit(2);
    g.candidates[1] = bit(1) | bit(2);
    let h = detect_naked_subset(&g, 2).unwrap();
    assert_eq!(h.technique, "naked_pair");
    assert_eq!(h.difficulty, 9);
    let mut expected = Vec::new();
    for cell in 2..9 {
        expected.push((cell, 1u8));
        expected.push((cell, 2u8));
    }
    assert_eq!(h.eliminations, expected);
    assert!(h.placements.is_empty());
}

#[test]
fn naked_pair_without_eliminations_is_skipped() {
    let mut g = Grid::new();
    g.candidates[0] = bit(1) | bit(2);
    g.candidates[1] = bit(1) | bit(2);
    // nothing to eliminate in row 0, but something in box 0
    without(&mut g, 1, &[2, 3, 4, 5, 6, 7, 8]);
    without(&mut g, 2, &[2, 3, 4, 5, 6, 7, 8]);
    let h = detect_naked_subset(&g, 2).unwrap();
    let mut expected = Vec::new();
    for cell in [9usize, 10, 11, 18, 19, 20] {
        expected.push((cell, 1u8));
        expected.push((cell, 2u8));
    }
    assert_eq!(h.eliminations, expected);
}

#[test]
fn naked_triple_and_quad() {
    let mut g = Grid::new();
    g.candidates[0] = bit(1) | bit(2);
    g.candidates[4] = bit(2) | bit(3);
    g.candidates[8] = bit(1) | bit(3);
    assert!(detect_naked_subset(&g, 2).is_none());
    let h = detect_naked_subset(&g, 3).unwrap();
    assert_eq!(h.technique, "naked_triple");
    assert_eq!(h.difficulty, 22);
    let mut expected = Vec::new();
    for cell in [1usize, 2, 3, 5, 6, 7] {
        for d in 1..=3u8 {
            expected.push((cell, d));
        }
    }
    assert_eq!(h.eliminations, expected);

    let mut q = Grid::new();
    q.candidates[9] = bit(1) | bit(2);
    q.candidates[10] = bit(2) | bit(3);
    q.candidates[11] = bit(3) | bit(4);
    q.candidates[12] = bit(4) | bit(1);
    assert!(detect_naked_subset(&q, 3).is_none());
    let h = detect_naked_subset(&q, 4).unwrap();
    assert_eq!(h.technique, "naked_quad");
    assert_eq!(h.difficulty, 35);
    assert_eq!(h.eliminations.len(), 5 * 4);
    assert_eq!(h.eliminations[0], (13, 1));
}

#[test]
fn subsets_of_other_sizes_are_not_looked_for() {
    let mut g = Grid::new();
    g.candidates[0] = bit(1);
    for size in [0usize, 1, 5, 9] {
        assert!(detect_naked_subset(&g, size).is_none());
        assert!(detect_hidden_subset(&g, size).is_none());
    }
}

#[test]
fn hidden_pair_eliminates_other_digits() {
    let mut g = Grid::new();
    without(&mut g, 1, &[2, 3, 4, 5, 6, 7, 8]);
    without(&mut g, 2, &[2, 3, 4, 5, 6, 7, 8]);
    let h = detect_hidden_subset(&g, 2).unwrap();
    assert_eq!(h.technique, "hidden_pair");
    assert_eq!(h.difficulty, 18);
    let mut expected = Vec::new();
    for cell in [0usize, 1] {
        for d in 3..=9u8 {
            expected.push((cell, d));
        }
    }
    assert_eq!(h.eliminations, expected);
}

#[test]
fn hidden_triple_and_quad() {
    let mut g = Grid::new();
    for d in 1..=3u8 {
        without(&mut g, d, &[3, 4, 5, 6, 7, 8]);
    }
    assert!(detect_hidden_subset(&g, 2).is_none());
    let h = detect_hidden_subset(&g, 3).unwrap();
    assert_eq!(h.technique, "hidden_triple");
    assert_eq!(h.difficulty, 28);
    assert_eq!(h.eliminations.len(), 3 * 6);
    assert_eq!(h.eliminations[0], (0, 4));

    let mut q = Grid::new();
    for d in 1..=4u8 {
        without(&mut q, d, &[4, 5, 6, 7, 8]);
    }
    let h = detect_hidden_subset(&q, 4).unwrap();
    assert_eq!(h.technique, "hidden_quad");
    assert_eq!(h.difficulty, 42);
    assert_eq!(h.eliminations.len(), 4 * 5);
}

#[test]
fn pointing_pair_clears_rest_of_row() {
    let mut g = Grid::new();
    // in box 0 digit 1 only at cells 0 and 1
    without(&mut g, 1, &[2, 9, 10, 11, 18, 19, 20]);
    let h = detect_pointing_pairs(&g).unwrap();
    assert_eq!(h.technique, "pointing_pair");
    assert_eq!(h.difficulty, 12);
    let expected: Vec<(usize, u8)> = (3..9).map(|c| (c, 1u8)).collect();
    assert_eq!(h.eliminations, expected);
}

#[test]
fn pointing_pair_clears_rest_of_column() {
    let mut g = Grid::new();
    // in box 0 digit 2 only at cells 1, 10 and 19 (column 1)
    without(&mut g, 2, &[0, 2, 9, 11, 18, 20]);
    let h = detect_pointing_pairs(&g).unwrap();
    let expected: Vec<(usize, u8)> = (3..9).map(|r| (r * 9 + 1, 2u8)).collect();
    assert_eq!(h.eliminations, expected);
}

#[test]
fn box_line_reduction_clears_rest_of_box() {
    let mut g = Grid::new();
    // in row 0 digit 1 only at cells 0 and 1
    without(&mut g, 1, &[2, 3, 4, 5, 6, 7, 8]);
    let h = detect_box_line_reduction(&g).unwrap();
    assert_eq!(h.technique, "box_line_reduction");
    assert_eq!(h.difficulty, 14);
    let expected: Vec<(usize, u8)> = [9usize, 10, 11, 18, 19, 20].iter().map(|&c| (c, 1u8)).collect();
    assert_eq!(h.eliminations, expected);
}

#[test]
fn x_wing_in_rows() {
    let mut g = Grid::new();
    // digit 1 in rows 0 and 3 only in columns 0 and 4
    without(&mut g, 1, &[1, 2, 3, 5, 6, 7, 8]);
    without(&mut g, 1, &[28, 29, 30, 32, 33, 34, 35]);
    let h = detect_x_wing(&g).unwrap();
    assert_eq!(h.technique, "x_wing");
    assert_eq!(h.difficulty, 46);
    let mut expected = Vec::new();
    for col in [0usize, 4] {
        for row in [1usize, 2, 4, 5, 6, 7, 8] {
            expected.push((row * 9 + col, 1u8));
        }
    }
    assert_eq!(h.eliminations, expected);
}

#[test]
fn x_wing_in_columns() {
    let mut g = Grid::new();
    // digit 2 in columns 1 and 7 only in rows 2 and 6
    for col in [1usize, 7] {
        for row in [0usize, 1, 3, 4, 5, 7, 8] {
            g.candidates[row * 9 + col] &= !bit(2);
        }
    }
    let h = detect_x_wing(&g).unwrap();
    let mut expected = Vec::new();
    for row in [2usize, 6] {
        for col in [0usize, 2, 3, 4, 5, 6, 8] {
            expected.push((row * 9 + col, 2u8));
        }
    }
    assert_eq!(h.eliminations, expected);
}

#[test]
fn y_wing_eliminates_shared_digit() {
    let mut g = Grid::new();
    g.candidates[0] = bit(1) | bit(2);
    g.candidates[4] = bit(1) | bit(3);
    g.candidates[36] = bit(2) | bit(3);
    let h = detect_y_wing(&g).unwrap();
    assert_eq!(h.technique, "y_wing");
    assert_eq!(h.difficulty, 50);
    assert_eq!(h.eliminations, vec![(40, 3)]);
    assert!(h.placements.is_empty());
    let direct = check_y_wing(&g, 0, 4, 36).unwrap();
    assert_eq!(direct.eliminations, vec![(40, 3)]);
    let mirrored = check_y_wing(&g, 0, 36, 4).unwrap();
    assert_eq!(mirrored.eliminations, vec![(40, 3)]);
    assert!(check_y_wing(&g, 4, 0, 36).is_none());
    assert!(check_y_wing(&g, 36, 0, 4).is_none());
}

#[test]
fn y_wing_needs_two_candidates_in_each_cell() {
    let mut g = Grid::new();
    g.candidates[0] = bit(1) | bit(2);
    g.candidates[4] = bit(1) | bit(3) | bit(4);
    g.candidates[36] = bit(2) | bit(3);
    assert!(check_y_wing(&g, 0, 4, 36).is_none());
    assert!(detect_y_wing(&g).is_none());
    g.candidates[4] = bit(1) | bit(3);
    g.set_value(36, 5);
    g.candidates[36] = bit(2) | bit(3);
    // a placed cell is no wing, whatever its mask holds
    assert!(check_y_wing(&g, 0, 4, 36).is_none());
}

#[test]
fn y_wing_inside_a_box() {
    let mut g = Grid::new();
    g.candidates[0] = bit(1) | bit(2);
    g.candidates[1] = bit(1) | bit(3);
    g.candidates[9] = bit(2) | bit(3);
    let h = detect_y_wing(&g).unwrap();
    let expected: Vec<(usize, u8)> = [2usize, 10, 11, 18, 19, 20].iter().map(|&c| (c, 3u8)).collect();
    assert_eq!(h.eliminations, expected);
}

#[test]
fn y_wing_needs_pivot_to_see_both_wings() {
    let mut g = Grid::new();
    g.candidates[0] = bit(1) | bit(2);
    g.candidates[1] = bit(1) | bit(3);
    g.candidates[40] = bit(2) | bit(3);
    assert!(detect_y_wing(&g).is_none());
}

#[test]
fn simple_coloring_witness_rule() {
    let mut g = Grid::new();
    // digit 1: row 0 only at columns 0 and 5, column 5 only at rows 0 and 4,
    // row 4 only at columns 5 and 0
    without(&mut g, 1, &[1, 2, 3, 4, 6, 7, 8]);
    without(&mut g, 1, &[14, 23, 32, 50, 59, 68, 77]);
    without(&mut g, 1, &[37, 38, 39, 40, 42, 43, 44]);
    let h = detect_simple_coloring(&g).unwrap();
    assert_eq!(h.technique, "simple_coloring");
    assert_eq!(h.difficulty, 54);
    let expected: Vec<(usize, u8)> = [9usize, 18, 27, 45, 54, 63, 72].iter().map(|&c| (c, 1u8)).collect();
    assert_eq!(h.eliminations, expected);
}

#[test]
fn simple_coloring_conflict_rule() {
    let mut g = Grid::new();
    // digit 1: row 0 at columns 0 and 3, column 3 at rows 0 and 3,
    // row 3 at columns 3 and 1, column 1 at rows 3 and 1
    without(&mut g, 1, &[1, 2, 4, 5, 6, 7, 8]);
    without(&mut g, 1, &[12, 21, 39, 48, 57, 66, 75]);
    without(&mut g, 1, &[27, 29, 31, 32, 33, 34, 35]);
    without(&mut g, 1, &[1, 19, 37, 46, 55, 64, 73]);
    let h = detect_simple_coloring(&g).unwrap();
    // cells 0 and 10 have the first color and share box 0
    assert_eq!(h.eliminations, vec![(0, 1), (30, 1), (10, 1)]);
}

#[test]
fn color_conflict_check() {
    assert!(!check_color_conflict_fast(&vec![]));
    assert!(!check_color_conflict_fast(&vec![0]));
    assert!(!check_color_conflict_fast(&vec![0, 40, 80]));
    assert!(check_color_conflict_fast(&vec![0, 40, 8]));
    assert!(check_color_conflict_fast(&vec![30, 0, 10]));
}

#[test]
fn can_see_shares_a_unit() {
    assert!(can_see(0, 8));
    assert!(can_see(0, 72));
    assert!(can_see(0, 20));
    assert!(!can_see(0, 40));
    assert!(can_see(40, 40));
    assert!(!can_see(3, 79));
}

#[test]
fn candidates_of_a_cell() {
    let mut g = Grid::new();
    assert_eq!(get_candidates(&g, 0), vec![1, 2, 3, 4, 5, 6, 7, 8, 9]);
    g.candidates[5] = bit(2) | bit(7) | bit(9);
    assert_eq!(get_candidates(&g, 5), vec![2, 7, 9]);
    g.candidates[5] = 0;
    assert_eq!(get_candidates(&g, 5), Vec::<u8>::new());
}

#[test]
fn get_hint_prefers_easier_technique() {
    let mut g = Grid::new();
    // a naked pair and a hidden single at once: the hidden single wins
    g.candidates[0] = bit(1) | bit(2);
    g.candidates[1] = bit(1) | bit(2);
    without(&mut g, 3, &[30, 31, 32, 39, 41, 48, 49, 50]);
    let h = get_hint(&g).unwrap();
    assert_eq!(h.technique, "hidden_single");
    assert_eq!(h.placements, vec![(40, 3)]);
}
