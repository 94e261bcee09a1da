use fast_sudoku::grid::Grid;
use fast_sudoku::solver::update_candidates;

const HARD: &str = "800000000003600000070090200050007000000045700000100030001000068008500010090000400";

#[test]
fn new_grid_is_empty_with_all_candidates() {
    let g = Grid::new();
    assert!(g.values.iter().all(|&v| v == 0));
    assert!(g.candidates.iter().all(|&c| c == 0x1FF));
    assert!(!g.is_solved());
    assert_eq!(g.to_string(), ".".repeat(81));
}

#[test]
fn from_string_places_digits_one_to_nine() {
    let g = Grid::from_string(HARD);
    assert_eq!(g.values[0], 8);
    assert_eq!(g.values[1], 0);
    assert_eq!(g.values[11], 3);
    assert_eq!(g.values[12], 6);
    assert_eq!(g.values[80], 0);
    assert_eq!(g.values.iter().filter(|&&v| v != 0).count(), 21);
}

#[test]
fn from_string_treats_other_characters_as_empty() {
    let text = format!("1x.0 -a2{}", ".".repeat(73));
    let g = Grid::from_string(&text);
    assert_eq!(g.values[0], 1);
    for i in 1..7 {
        assert_eq!(g.values[i], 0);
    }
    assert_eq!(g.values[7], 2);
}

#[test]
fn from_string_short_input_leaves_rest_empty() {
    let g = Grid::from_string("12");
    assert_eq!(g.values[0], 1);
    assert_eq!(g.values[1], 2);
    assert!(g.values[2..].iter().all(|&v| v == 0));
    let e = Grid::from_string("");
    assert!(e.values.iter().all(|&v| v == 0));
    assert!(e.candidates.iter().all(|&c| c == 0x1FF));
}

#[test]
fn from_string_ignores_characters_beyond_81() {
    let text = format!("{}999", ".".repeat(81));
    let g = Grid::from_string(&text);
    assert!(g.values.iter().all(|&v| v == 0));
}

#[test]
fn from_string_counts_characters_not_bytes() {
    let text = format!("é5{}", ".".repeat(79));
    let g = Grid::from_string(&text);
    assert_eq!(g.values[0], 0);
    assert_eq!(g.values[1], 5);
}

#[test]
fn from_string_computes_candidates() {
    let g = Grid::from_string(HARD);
    // cell 1 sees 8 (row, box), 7, 5 and 9 (column), 3 and 7 (box)
    assert_eq!(g.candidates[0], 0);
    let expected: u16 = 0b000101011;
    assert_eq!(g.candidates[1], expected);
}

#[test]
fn to_string_round_trip() {
    let canonical = HARD.replace('0', ".");
    let g = Grid::from_string(HARD);
    assert_eq!(g.to_string(), canonical);
    assert_eq!(Grid::from_string(&g.to_string()).to_string(), canonical);
}

#[test]
fn set_value_does_not_propagate() {
    let mut g = Grid::new();
    g.set_value(0, 5);
    assert_eq!(g.values[0], 5);
    assert_eq!(g.candidates[0], 0);
    for i in 1..81 {
        assert_eq!(g.values[i], 0);
        assert_eq!(g.candidates[i], 0x1FF);
    }
    update_candidates(&mut g);
    assert_eq!(g.candidates[1], 0x1FF & !(1 << 4));
    assert_eq!(g.candidates[40], 0x1FF);
}

#[test]
fn is_solved_needs_every_cell() {
    let mut g = Grid::new();
    for i in 0..80 {
        g.set_value(i, 1);
    }
    assert!(!g.is_solved());
    g.set_value(80, 1);
    assert!(g.is_solved());
}
