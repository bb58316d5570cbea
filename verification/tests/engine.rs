use sudoku::codec::{grid_to_string, string_to_grid};
use sudoku::generator::generate;
use sudoku::grid::Grid;
use sudoku::rng::DigitSource;
use sudoku::solver::solve;

// The cyclic base pattern: row r holds 1-9 shifted by 3 * (r % 3) + r / 3.
const SOLVED: &str =
    "123456789456789123789123456234567891567891234891234567345678912678912345912345678";

fn cells_of(g: &Grid) -> Vec<u8> {
    let mut out = Vec::new();
    let mut i = 0;
    while i < 81 {
        out.push(g.get(i));
        i += 1;
    }
    out
}

#[test]
fn round_trip_through_text() {
    let g = string_to_grid(SOLVED).unwrap();
    let s = grid_to_string(&g);
    assert_eq!(s, SOLVED);
    let g2 = string_to_grid(&s).unwrap();
    assert_eq!(cells_of(&g), cells_of(&g2));
}

#[test]
fn round_trip_with_empties() {
    let mut text = String::from(SOLVED);
    text.replace_range(0..1, "0");
    text.replace_range(40..41, "0");
    let g = string_to_grid(&text).unwrap();
    assert_eq!(grid_to_string(&g), text);
}

#[test]
fn rejects_wrong_length() {
    assert!(string_to_grid("123").is_err());
    assert!(string_to_grid("").is_err());
    let long = format!("{}0", SOLVED);
    assert!(string_to_grid(&long).is_err());
}

#[test]
fn rejects_non_digit() {
    let mut text = String::from(SOLVED);
    text.replace_range(10..11, "x");
    assert!(string_to_grid(&text).is_err());
}

#[test]
fn solved_grid_reports_one_and_stays_put() {
    let mut g = string_to_grid(SOLVED).unwrap();
    let mut src = DigitSource::from_seed(11);
    let count = solve(&mut g, 1, &mut src);
    assert_eq!(count, 1);
    assert_eq!(grid_to_string(&g), SOLVED);
}

#[test]
fn solved_grid_never_consults_randomness() {
    let mut g = string_to_grid(SOLVED).unwrap();
    let mut src = DigitSource::from_seed(11);
    let before = src.consulted_count();
    let count = solve(&mut g, 1, &mut src);
    assert_eq!(count, 1);
    assert_eq!(src.consulted_count(), before);
}

#[test]
fn unsolvable_grid_reports_zero_unchanged() {
    // Row 0 holds 1-8 after its empty corner and column 0 holds a 9 below
    // it, so no digit fits the corner; the board itself has no conflict.
    let mut text = String::from("012345678900000000");
    while text.len() < 81 {
        text.push('0');
    }
    let mut g = string_to_grid(&text).unwrap();
    let mut src = DigitSource::from_seed(3);
    let count = solve(&mut g, 1, &mut src);
    assert_eq!(count, 0);
    assert_eq!(grid_to_string(&g), text);
}

#[test]
fn inconsistent_grid_reports_zero_unchanged() {
    // Two 5s in the same row.
    let mut text = String::from("550000000");
    while text.len() < 81 {
        text.push('0');
    }
    let mut g = string_to_grid(&text).unwrap();
    let mut src = DigitSource::from_seed(3);
    let count = solve(&mut g, 2, &mut src);
    assert_eq!(count, 0);
    assert_eq!(grid_to_string(&g), text);
}

#[test]
fn empty_grid_solves_to_full_valid_board() {
    let mut g = Grid::new_empty();
    let mut src = DigitSource::from_seed(99);
    let count = solve(&mut g, 1, &mut src);
    assert_eq!(count, 1);
    assert!(g.first_empty().is_none());
    assert!(g.is_consistent());
    for v in cells_of(&g) {
        assert!((1..=9).contains(&v));
    }
}

#[test]
fn one_cleared_cell_is_reproducible_under_a_fixed_seed() {
    let run = || {
        let mut text = String::from(SOLVED);
        text.replace_range(17..18, "0");
        let mut g = string_to_grid(&text).unwrap();
        let mut src = DigitSource::from_seed(7);
        solve(&mut g, 2, &mut src)
    };
    let first = run();
    assert!(first == 1 || first == 2);
    assert_eq!(first, run());
}

#[test]
fn generated_puzzle_has_exactly_one_solution() {
    let mut src = DigitSource::from_seed(2024);
    let puzzle = generate(&mut src);
    assert!(puzzle.is_consistent());
    let mut probe = puzzle.duplicate();
    let mut check_src = DigitSource::from_seed(5);
    let count = solve(&mut probe, 2, &mut check_src);
    assert_eq!(count, 1);
}

#[test]
fn placement_check_is_pure_and_repeatable() {
    let mut text = String::from(SOLVED);
    text.replace_range(0..1, "0");
    let g = string_to_grid(&text).unwrap();
    let before = grid_to_string(&g);
    let first = g.is_valid_placement(0, 1);
    let second = g.is_valid_placement(0, 1);
    assert_eq!(first, second);
    assert!(first);
    assert!(!g.is_valid_placement(0, 2));
    assert_eq!(grid_to_string(&g), before);
}

#[test]
fn shuffle_really_permutes() {
    let mut any_moved = false;
    for seed in 0..20u64 {
        let mut src = DigitSource::from_seed(seed);
        let digits = src.shuffled_digits();
        let mut sorted = digits.clone();
        sorted.sort();
        assert_eq!(sorted, vec![1, 2, 3, 4, 5, 6, 7, 8, 9]);
        if digits != vec![1, 2, 3, 4, 5, 6, 7, 8, 9] {
            any_moved = true;
        }
    }
    assert!(any_moved);
    assert_eq!(DigitSource::from_seed(0).consulted_count(), 0);
}

#[test]
fn shuffled_cells_is_a_permutation_of_all_indices() {
    let mut src = DigitSource::from_seed(6);
    let cells = src.shuffled_cells();
    let mut sorted = cells.clone();
    sorted.sort();
    let expected: Vec<u8> = (0..81).collect();
    assert_eq!(sorted, expected);
    assert_eq!(src.consulted_count(), 1);
}

#[test]
fn consultation_counter_advances_per_shuffle() {
    let mut src = DigitSource::from_seed(1);
    let _ = src.shuffled_digits();
    assert_eq!(src.consulted_count(), 1);
    let _ = src.shuffled_cells();
    assert_eq!(src.consulted_count(), 2);
}
