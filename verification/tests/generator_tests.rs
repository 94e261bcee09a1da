use fast_sudoku::difficulty::{apply_hint, evaluate_difficulty};
use fast_sudoku::generator::{
    add_clue, category_target, gap, list_cells, remove_clue, seed_grid, strip_clues, Generator,
};
use fast_sudoku::grid::Grid;
use rand::SeedableRng;
use fast_sudoku::solver::{is_unique, solve, update_candidates};
use fast_sudoku::techniques::get_hint;

const EASY_SOLVED: &str = "534678912672195348198342567859761423426853791713924856961537284287419635345286179";

fn is_canonical(s: &str) -> bool {
    s.chars().count() == 81 && s.chars().all(|c| c == '.' || ('1'..='9').contains(&c))
}

#[test]
fn category_table() {
    assert_eq!(category_target("trivial"), (4, 4));
    assert_eq!(category_target("basic"), (17, 8));
    assert_eq!(category_target("intermediate"), (36, 10));
    assert_eq!(category_target("tough"), (56, 12));
    assert_eq!(category_target("diabolical"), (76, 8));
    assert_eq!(category_target("extreme"), (88, 4));
    assert_eq!(category_target("master"), (94, 2));
    assert_eq!(category_target("grandmaster"), (98, 1));
    assert_eq!(category_target("other"), (17, 8));
    assert_eq!(category_target(""), (17, 8));
    assert_eq!(category_target("Basic"), (17, 8));
    assert_eq!(category_target("tough "), (17, 8));
}

#[test]
fn gap_is_the_distance() {
    assert_eq!(gap(42, 36), 6);
    assert_eq!(gap(11, 17), 6);
    assert_eq!(gap(100, 98), 2);
    assert_eq!(gap(50, 50), 0);
}

#[test]
fn shuffled_digits_are_a_permutation() {
    let mut moved = false;
    for seed in 0..20u64 {
        let mut g = Generator::new_with_seed(seed);
        let d = g.shuffled_digits();
        let mut sorted = d.clone();
        sorted.sort();
        assert_eq!(sorted, vec![1, 2, 3, 4, 5, 6, 7, 8, 9]);
        if d != sorted {
            moved = true;
        }
    }
    assert!(moved);
}

#[test]
fn shuffled_cells_are_a_permutation() {
    let mut g = Generator::new_with_seed(7);
    let cells = g.shuffled_cells();
    let mut sorted = cells.clone();
    sorted.sort();
    assert_eq!(sorted, (0..81).collect::<Vec<usize>>());
    assert!(cells != sorted);
}

#[test]
fn seed_grid_fills_diagonal_boxes() {
    let d0 = vec![1, 2, 3, 4, 5, 6, 7, 8, 9];
    let d1 = vec![9, 8, 7, 6, 5, 4, 3, 2, 1];
    let d2 = vec![2, 4, 6, 8, 1, 3, 5, 7, 9];
    let g = seed_grid(&d0, &d1, &d2);
    let expected = [
        "123......", "456......", "789......", "...987...", "...654...", "...321...", "......246",
        "......813", "......579",
    ]
    .concat();
    assert_eq!(g.to_string(), expected);
}

#[test]
fn random_solution_is_a_valid_grid() {
    for seed in 0..5u64 {
        let mut g = Generator::new_with_seed(seed);
        let full = g.random_solution().expect("a seed grid can be completed");
        assert!(full.is_solved());
        assert!(is_unique(&full));
        for unit in 0..9 {
            let mut row = 0u16;
            let mut col = 0u16;
            let mut bx = 0u16;
            for k in 0..9 {
                row |= 1 << full.values[unit * 9 + k];
                col |= 1 << full.values[k * 9 + unit];
                bx |= 1 << full.values[(unit / 3 * 3 + k / 3) * 9 + unit % 3 * 3 + k % 3];
            }
            assert_eq!(row, 0x3FE);
            assert_eq!(col, 0x3FE);
            assert_eq!(bx, 0x3FE);
        }
    }
}

#[test]
fn list_cells_lists_holes_and_clues() {
    let g = Grid::from_string("1.3......");
    assert_eq!(list_cells(&g, false, 81), vec![0, 2]);
    assert_eq!(list_cells(&g, false, 0), vec![2]);
    let holes = list_cells(&g, true, 81);
    assert_eq!(holes.len(), 79);
    assert_eq!(holes[0], 1);
    assert_eq!(holes[1], 3);
    assert_eq!(list_cells(&g, true, 1)[0], 3);
}

#[test]
fn add_and_remove_clue() {
    let full = Grid::from_string(EASY_SOLVED);
    let less = remove_clue(&full, 0).expect("one blank keeps the puzzle unique");
    assert_eq!(less.values[0], 0);
    assert_eq!(&less.values[1..], &full.values[1..]);
    let back = add_clue(&less, &full, 0);
    assert_eq!(back.values, full.values);
    assert_eq!(back.candidates[0], 0);
}

#[test]
fn remove_clue_refuses_second_solution() {
    let full = Grid::from_string(EASY_SOLVED);
    let mut g = full;
    let mut refused = 0;
    for cell in 0..81 {
        match remove_clue(&g, cell) {
            Some(next) => {
                g = next;
            }
            None => {
                refused += 1;
            }
        }
        assert!(is_unique(&g));
    }
    assert!(refused > 16);
    assert_eq!(solve(&g).unwrap().values, full.values);
}

#[test]
fn strip_clues_stops_at_target() {
    let full = Grid::from_string(EASY_SOLVED);
    let order: Vec<usize> = (0..81).collect();
    let all = strip_clues(&full, &order, 81);
    assert_eq!(all.values, full.values);
    let some = strip_clues(&full, &order, 70);
    assert_eq!(some.values.iter().filter(|&&v| v != 0).count(), 70);
    assert!(some.values[..11].iter().all(|&v| v == 0));
    assert_eq!(&some.values[11..], &full.values[11..]);
    let far = strip_clues(&full, &order, 24);
    assert!(far.values.iter().filter(|&&v| v != 0).count() >= 24);
    assert!(is_unique(&far));
    assert_eq!(solve(&far).unwrap().values, full.values);
    let none = strip_clues(&full, &vec![], 24);
    assert_eq!(none.values, full.values);
}

#[test]
fn seeded_generation_is_reproducible() {
    let a = Generator::new_with_seed(42).generate("intermediate");
    let b = Generator::new_with_seed(42).generate("intermediate");
    assert_eq!(a, b);
    assert!(is_canonical(&a));
    let g = Grid::from_string(&a);
    assert!(is_unique(&g));
    assert_eq!(g.to_string(), a);
    let score = evaluate_difficulty(&g).score;
    assert!((score - 36).abs() <= 10);
}

#[test]
fn different_seeds_give_different_puzzles() {
    let a = Generator::new_with_seed(1).generate("basic");
    let b = Generator::new_with_seed(2).generate("basic");
    assert!(a != b);
}

#[test]
fn generated_puzzles_are_canonical_and_unique() {
    for (category, seed) in [("trivial", 11u64), ("basic", 12), ("intermediate", 13), ("unknown", 14)] {
        let s = Generator::new_with_seed(seed).generate(category);
        assert!(is_canonical(&s));
        let g = Grid::from_string(&s);
        assert_eq!(g.to_string(), s);
        assert!(is_unique(&g));
    }
}

#[test]
fn generated_puzzle_hits_reachable_target() {
    for (category, seed) in [("trivial", 21u64), ("basic", 22), ("intermediate", 23)] {
        let (target, tolerance) = category_target(category);
        let s = Generator::new_with_seed(seed).generate(category);
        let score = evaluate_difficulty(&Grid::from_string(&s)).score;
        assert!((score - target).abs() <= tolerance);
    }
}

#[test]
fn unreachable_target_returns_near_miss() {
    let s = Generator::new_with_seed(5).generate("grandmaster");
    assert!(is_canonical(&s));
    let g = Grid::from_string(&s);
    assert!(is_unique(&g));
    let score = evaluate_difficulty(&g).score;
    assert!((score - 98).abs() > 1);
}

#[test]
fn hints_on_generated_puzzles_are_sound() {
    for seed in 30..34u64 {
        let s = Generator::new_with_seed(seed).generate("intermediate");
        let g = Grid::from_string(&s);
        let solution = solve(&g).unwrap();
        let mut cur = g;
        update_candidates(&mut cur);
        while !cur.is_solved() {
            let h = match get_hint(&cur) {
                Some(h) => h,
                None => break,
            };
            for &(cell, digit) in &h.placements {
                assert_eq!(solution.values[cell], digit);
            }
            for &(cell, digit) in &h.eliminations {
                assert!(solution.values[cell] != digit);
            }
            apply_hint(&mut cur, &h);
        }
    }
}

#[test]
fn difficulty_grows_with_category() {
    let mean = |category: &str, seeds: std::ops::Range<u64>| -> f64 {
        let n = (seeds.end - seeds.start) as f64;
        let mut sum = 0.0;
        for seed in seeds {
            let s = Generator::new_with_seed(seed).generate(category);
            sum += evaluate_difficulty(&Grid::from_string(&s)).score as f64;
        }
        sum / n
    };
    let basic = mean("basic", 100..102);
    let tough = mean("tough", 200..202);
    let diabolical = mean("diabolical", 100..102);
    assert!(basic < tough);
    assert!(tough < diabolical);
}

#[test]
fn seeded_generation_known_puzzles() {
    let cases = [
        ("basic", 1u64, "4.........6.4.1.9..1.8.9..65......7..3...........86...6...7.5.2.8.1.........651.7"),
        ("basic", 2, "2..34.............98...........7..1.5.......2.27..1.3.....582.....417...8.5.3.9.."),
        ("trivial", 11, "48.....9...1.4...5...6.21..9..2...3.1473..9...26..4.......7.5.9...9..2....3...48."),
        ("basic", 12, ".1.5..49.9...7...6.6.3....5....6...9..4.37.........8..........15....47..8.2.1.9.."),
        ("intermediate", 13, "3..8..59.....53.....1..2..........352.9.1..7.....4.....7......66.5.38..9.8.....12"),
        ("unknown", 14, ".4........3...6...6..417.5.8..1.53..3...4...6.7...3.1....97...1....3..6...4...8.."),
        ("intermediate", 42, ".....37.......6.8..7428.....178...3..........9....74.....3...145..94......8..56.2"),
        ("tough", 3, "2..1..7.84......3...637......2...8......8..6.1.....9.7.2.7..1.9...4....5.3981..74"),
    ];
    for (category, seed, expected) in cases {
        assert_eq!(Generator::new_with_seed(seed).generate(category), expected);
    }
}

#[test]
fn generator_draws_from_the_given_source() {
    let source = rand::rngs::SmallRng::seed_from_u64(42);
    let a = Generator::with_rng(source).generate("intermediate");
    let b = Generator::new_with_seed(42).generate("intermediate");
    assert_eq!(a, b);
    let mut g = Generator::with_rng(rand::rngs::SmallRng::seed_from_u64(7));
    let mut h = Generator::new_with_seed(7);
    assert_eq!(g.shuffled_cells(), h.shuffled_cells());
    assert_eq!(g.shuffled_digits(), h.shuffled_digits());
}
