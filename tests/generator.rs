use std::collections::HashSet;

use redoku::generator::{
    byte_in_range, dig_holes, random_cell_value, read_u8_in_range, shuffle_value_range, RandomSource, RedokuBuilder,
    Sequence,
};
use redoku::grader::{Difficulty, RedokuGrader};
use redoku::redoku::Redoku;
use redoku::solver::RedokuSolver;
use redoku::value::{Value, ValueSet};

/// A seeded linear congruential generator with a scrambled output, for repeatable runs.
struct Randomizer {
    state: u64,
}

impl Randomizer {
    fn new(seed: u64) -> Randomizer {
        Randomizer { state: seed.wrapping_add(0xDEADBEEFDEADBEEF) }
    }
}

impl RandomSource for Randomizer {
    fn read_u8(&mut self) -> u8 {
        self.state = self.state.wrapping_mul(6364136223846793005).wrapping_add(1);
        (self.state.wrapping_mul(1152921504735157271).rotate_right(2) ^ 0xFAB00105C0DE) as u8
    }
}

/// A source that always gives the same byte.
struct Constant(u8);

impl RandomSource for Constant {
    fn read_u8(&mut self) -> u8 {
        self.0
    }
}

fn build(difficulty: Difficulty, seed: u64) -> Redoku {
    let mut rand = Randomizer::new(seed);
    let (redoku, _) = Redoku::build(difficulty, &mut rand).unwrap();
    redoku
}

#[test]
fn test_build_very_easy() {
    let redoku = build(Difficulty::VeryEasy, !0xADABCDEAD);

    let filled_cells = 81 - redoku.empty_cells();

    assert!(50 <= filled_cells && filled_cells < 61);
}

#[test]
fn test_build_easy() {
    let redoku = build(Difficulty::Easy, !0xADABCDEAD);

    let filled_cells = 81 - redoku.empty_cells();

    assert!(36 <= filled_cells && filled_cells < 50);
}

#[test]
fn test_build_medium() {
    let redoku = build(Difficulty::Medium, !0xADABCDEAD);

    let filled_cells = 81 - redoku.empty_cells();

    assert!(32 <= filled_cells && filled_cells < 36);
}

#[test]
fn test_build_hard() {
    let redoku = build(Difficulty::Hard, !0xADABCDEAD);

    let filled_cells = 81 - redoku.empty_cells();

    assert!(28 <= filled_cells && filled_cells < 32);
}

#[test]
fn test_build_evil() {
    let redoku = build(Difficulty::Evil, !0xADABCDEAD);

    let filled_cells = 81 - redoku.empty_cells();

    assert!(22 <= filled_cells && filled_cells < 28);
}

#[test]
fn test_sequence_easy() {
    let mut rand = Randomizer::new(0xBEEF);
    let mut x_set = ValueSet::new(0);
    let mut y_set = ValueSet::new(0);

    let mut sequence = Sequence::new(Difficulty::Easy);
    while let Some((x, y)) = sequence.next(&mut rand) {
        x_set.insert(Value::from_u8(x));
        y_set.insert(Value::from_u8(y));

        if x_set.is_full() && y_set.is_full() {
            break;
        }
    }
}

#[test]
fn test_sequence_hard() {
    let mut count = 0;
    let mut rand = Randomizer::new(0xBEEF);

    let mut sequence = Sequence::new(Difficulty::Hard);
    while let Some((x, y)) = sequence.next(&mut rand) {
        println!("{:?}", (x, y));

        count += 1;
    }

    assert!(count == 81);
}

#[test]
fn test_sequence_evil() {
    let mut count = 0;
    let mut rand = Randomizer::new(0xBEEF);

    let mut sequence = Sequence::new(Difficulty::Evil);
    while let Some((x, y)) = sequence.next(&mut rand) {
        assert!(x < 9 && y < 9 && x as u32 + y as u32 * 9 == count);

        count += 1;
    }

    assert!(count == 81);
}

#[test]
fn test_rand_in_range() {
    let mut rand = Randomizer::new(0);

    let mut hash_set = HashSet::with_capacity(6);
    let mut correct_hash_set = HashSet::new();
    for v in 10..16u8 {
        correct_hash_set.insert(v);
    }

    while hash_set.len() < 6 {
        hash_set.insert(read_u8_in_range(&mut rand, 10, 16).unwrap());
    }

    assert!(correct_hash_set.difference(&hash_set).count() == 0);
}

#[test]
fn test_sequence_medium() {
    let mut count = 0;
    let mut rand = Randomizer::new(0xBEEF);

    let mut sequence = Sequence::new(Difficulty::Medium);
    while let Some((x, y)) = sequence.next(&mut rand) {
        println!("{:?}", (x, y));

        count += 1;
    }

    // the path jumps over every other cell, then comes back for the cells it jumped over
    assert!(count == 81);
}

#[test]
fn bytes_map_onto_a_range_by_rejection() {
    // 255 - 255 % 7 = 252: bytes 0 to 251 are kept
    assert_eq!(byte_in_range(0, 3, 10), Some(3));
    assert_eq!(byte_in_range(13, 3, 10), Some(9));
    assert_eq!(byte_in_range(251, 3, 10), Some(3 + 251 % 7));
    assert_eq!(byte_in_range(252, 3, 10), None);
    assert_eq!(byte_in_range(255, 3, 10), None);
    // 255 - 255 % 9 = 252 for digits
    assert_eq!(byte_in_range(100, 0, 9), Some(1));
    assert_eq!(byte_in_range(254, 0, 9), None);
}

#[test]
fn medium_path_visits_every_cell_once() {
    let mut rand = Constant(0);
    let mut seen = HashSet::new();
    let mut sequence = Sequence::new(Difficulty::Medium);
    let mut order = Vec::new();
    while let Some(cell) = sequence.next(&mut rand) {
        assert!(seen.insert(cell));
        order.push(cell);
    }
    assert_eq!(seen.len(), 81);
    assert_eq!(&order[..6], &[(0, 0), (2, 0), (4, 0), (6, 0), (8, 0), (7, 1)]);
    assert_eq!(order[41], (1, 0));
}

#[test]
fn hard_path_is_a_serpentine() {
    let mut rand = Constant(0);
    let mut sequence = Sequence::new(Difficulty::Hard);
    let mut order = Vec::new();
    while let Some(cell) = sequence.next(&mut rand) {
        order.push(cell);
    }
    assert_eq!(order[8], (8, 0));
    assert_eq!(order[9], (8, 1));
    assert_eq!(order[17], (0, 1));
    assert_eq!(order[18], (0, 2));
}

#[test]
fn draws_stay_in_range_even_from_a_stuck_source() {
    let mut stuck = Constant(255);
    assert_eq!(read_u8_in_range(&mut stuck, 3, 10), None);
    assert_eq!(read_u8_in_range(&mut stuck, 7, 8), Some(7));
    let mut zero = Constant(0);
    assert!(random_cell_value(&mut zero) == Some(Value::from_u8(0)));
    let mut eleven = Constant(11);
    assert_eq!(read_u8_in_range(&mut eleven, 3, 10), Some(3 + 11 % 7));
}

#[test]
fn shuffle_is_a_permutation() {
    let mut rand = Randomizer::new(7);
    let values = shuffle_value_range(&mut rand).unwrap();
    let mut sorted = values.clone();
    sorted.sort();
    assert_eq!(sorted, vec![0, 1, 2, 3, 4, 5, 6, 7, 8]);
}

#[test]
fn built_puzzles_have_one_solution() {
    for (i, difficulty) in [Difficulty::VeryEasy, Difficulty::Hard, Difficulty::Evil].iter().enumerate() {
        let mut rand = Randomizer::new(100 + i as u64);
        let (redoku, reached) = Redoku::build(*difficulty, &mut rand).unwrap();
        assert!(redoku.has_solution(true));
        if reached {
            let givens = 81 - redoku.empty_cells();
            let (low, high) = match difficulty {
                Difficulty::VeryEasy => (50, 61),
                Difficulty::Hard => (28, 32),
                _ => (22, 28),
            };
            assert!(low <= givens && givens < high);
        }
    }
}

#[test]
fn generated_puzzles_grade_as_requested() {
    let all = [
        Difficulty::VeryEasy,
        Difficulty::Easy,
        Difficulty::Medium,
        Difficulty::Hard,
        Difficulty::Evil,
    ];
    for seed in [1u64, 2].iter() {
        for difficulty in all.iter() {
            let redoku = build(*difficulty, *seed);
            assert!(redoku.grade_difficulty() == Ok(*difficulty));
        }
    }
}

#[test]
fn digging_to_nothing_keeps_only_needed_digits() {
    let (mut redoku, _) = redoku::utils::get_very_easy_redoku().find_solution(true).unwrap();
    let solution = redoku.clone();
    let mut order = Vec::new();
    for y in 0..9u8 {
        for x in 0..9u8 {
            order.push((x, y));
        }
    }
    let reached = dig_holes(&mut redoku, &order, 0, 0);
    assert!(!reached);
    assert!(redoku.has_solution(true));
    let (again, _) = redoku.find_solution(true).unwrap();
    assert!(again == solution);
    for &(x, y) in order.iter() {
        if let Some(v) = redoku.get(x, y) {
            assert!(solution.get(x, y) == Some(v));
            let mut fewer = redoku.clone();
            assert!(fewer.place_if_valid(x, y, None));
            assert!(!fewer.has_solution(true));
        }
    }
}

#[test]
fn digging_stops_at_the_target_and_keeps_floors() {
    let (mut redoku, _) = redoku::utils::get_very_easy_redoku().find_solution(true).unwrap();
    let mut order = Vec::new();
    for y in 0..9u8 {
        for x in 0..9u8 {
            order.push((x, y));
        }
    }
    assert!(dig_holes(&mut redoku, &order, 60, 5));
    assert_eq!(81 - redoku.empty_cells(), 60);
    for i in 0..9u8 {
        assert!(redoku.row_values(i).len() >= 5);
        assert!(redoku.column_values(i).len() >= 5);
    }
}
