use redoku::grader::{
    density_step_score, givens_step_score, grade_from_scores, search_step_score, try_lone_ranger, try_look_for_twins_triplets,
    try_row_col_block_elimination, Difficulty, GradeError, RedokuGrader,
};
use redoku::redoku::Redoku;
use redoku::solver::RedokuSolver;
use redoku::utils;
use redoku::value::Value::{Eight, Five, Four, Nine, One, Seven, Six, Three, Two};
use redoku::value::ValueSet;

#[test]
fn test_twins_triplets() {
    let mut redoku = Redoku::new();

    assert!(redoku.place_if_valid(0, 0, Some(Six)));
    assert!(redoku.place_if_valid(0, 2, Some(Nine)));
    assert!(redoku.place_if_valid(0, 3, Some(One)));

    assert!(redoku.place_if_valid(1, 1, Some(Eight)));
    assert!(redoku.place_if_valid(1, 2, Some(Three)));

    assert!(redoku.place_if_valid(2, 0, Some(Seven)));
    assert!(redoku.place_if_valid(2, 2, Some(One)));
    assert!(redoku.place_if_valid(2, 3, Some(Six)));

    assert!(redoku.place_if_valid(3, 1, Some(Seven)));
    assert!(redoku.place_if_valid(3, 2, Some(Six)));
    assert!(redoku.place_if_valid(3, 3, Some(Five)));

    assert!(redoku.place_if_valid(4, 2, Some(Four)));

    assert!(redoku.place_if_valid(5, 0, Some(One)));
    assert!(redoku.place_if_valid(5, 2, Some(Five)));
    assert!(redoku.place_if_valid(5, 3, Some(Seven)));

    assert!(redoku.place_if_valid(6, 1, Some(One)));
    assert!(redoku.place_if_valid(6, 2, Some(Two)));
    assert!(redoku.place_if_valid(6, 3, Some(Eight)));

    assert!(redoku.place_if_valid(7, 1, Some(Six)));
    assert!(redoku.place_if_valid(7, 2, Some(Eight)));
    assert!(redoku.place_if_valid(7, 3, Some(Nine)));

    assert!(redoku.place_if_valid(8, 1, Some(Nine)));
    assert!(redoku.place_if_valid(8, 2, Some(Seven)));

    assert!(redoku.calculate_possible_values(0, 1) == ValueSet::new(0b0_0001_1010));
    assert!(redoku.calculate_possible_values(1, 0) == ValueSet::new(0b0_0001_1010));
    assert!(redoku.calculate_possible_values(2, 1) == ValueSet::new(0b0_0001_1010));

    try_look_for_twins_triplets(&mut redoku);

    assert!(redoku.calculate_possible_values(0, 1) == ValueSet::new(0b0_0001_1000));
    assert!(redoku.calculate_possible_values(2, 1) == ValueSet::new(0b0_0001_1000));
    assert!(redoku.calculate_possible_values(1, 0) == ValueSet::new(0b0_0000_0010));
}

#[test]
fn test_grade_very_easy_redoku() {
    let redoku = utils::get_very_easy_redoku();

    let grade = redoku.grade_difficulty();

    assert!(grade == Ok(Difficulty::VeryEasy), "Graded a {:?}", grade);
}

#[test]
fn test_grade_easy_redoku() {
    let redoku = utils::get_easy_redoku();

    let grade = redoku.grade_difficulty();

    assert!(grade == Ok(Difficulty::Easy), "Graded a {:?}", grade);
}

#[test]
fn very_easy_fixture_is_unique_and_very_easy() {
    let redoku = utils::get_very_easy_redoku();
    assert!(redoku.get(1, 0) == Some(Six));
    assert!(redoku.get(2, 0) == Some(Seven));
    assert!(redoku.get(3, 0) == Some(Four));
    assert!(redoku.get(4, 0) == Some(Two));
    assert!(redoku.get(5, 0) == Some(Five));
    assert!(redoku.get(8, 0) == Some(Nine));
    assert!(redoku.has_solution(true));
    assert!(redoku.grade_difficulty() == Ok(Difficulty::VeryEasy));
}

#[test]
fn column_row_block_elimination_fills_forced_cells() {
    let mut redoku = Redoku::new();
    let givens = [
        (0, 1, Six), (0, 3, Four), (0, 4, Five), (0, 7, Eight),
        (1, 0, Three), (1, 4, Six), (1, 5, Two), (1, 7, Five), (1, 8, Nine),
        (2, 0, Four), (2, 2, One), (2, 3, Nine), (2, 7, Seven),
        (3, 5, Five), (3, 6, Two), (3, 7, Nine),
        (4, 2, Two), (4, 3, Eight), (4, 5, Six), (4, 6, One),
        (5, 1, Eight), (5, 2, Seven), (5, 3, Three),
        (6, 1, Two), (6, 5, Four), (6, 6, Eight), (6, 8, Three),
        (7, 0, Nine), (7, 1, One), (7, 3, Five), (7, 4, Eight), (7, 8, Four),
        (8, 1, Four), (8, 4, Seven), (8, 5, One), (8, 7, Six),
    ];
    for &(x, y, v) in givens.iter() {
        assert!(redoku.place_if_valid(x, y, Some(v)));
    }
    assert_eq!(redoku.empty_cells(), 45);
    assert!(try_row_col_block_elimination(&mut redoku));
    assert_eq!(redoku.empty_cells(), 13);
    assert!(try_row_col_block_elimination(&mut redoku));
    assert_eq!(redoku.empty_cells(), 2);
    assert!(try_row_col_block_elimination(&mut redoku));
    assert_eq!(redoku.empty_cells(), 0);
    assert!(!try_row_col_block_elimination(&mut redoku));
}

#[test]
fn lone_ranger_fills_hidden_singles() {
    let mut redoku = Redoku::new();
    let givens = [
        (0, 0, Four), (0, 2, Five), (0, 3, Seven), (0, 4, Six), (0, 5, Three), (0, 7, Nine),
        (0, 8, Two),
        (1, 5, Eight), (1, 6, Five),
        (2, 0, Nine), (2, 1, Seven), (2, 2, Eight), (2, 3, Five), (2, 4, Four), (2, 6, Six),
        (3, 0, Eight), (3, 1, Four), (3, 4, Two), (3, 6, Nine),
        (4, 0, Five), (4, 3, Six), (4, 5, Seven), (4, 6, Four), (4, 7, Two),
        (5, 0, Six), (5, 1, Two), (5, 2, Seven), (5, 4, Three), (5, 6, One), (5, 7, Eight),
        (6, 0, Seven), (6, 1, Six), (6, 4, Five),
        (7, 1, Eight), (7, 7, Five),
        (8, 2, Four), (8, 5, Six), (8, 8, Eight),
    ];
    for &(x, y, v) in givens.iter() {
        assert!(redoku.place_if_valid(x, y, Some(v)));
    }
    assert_eq!(redoku.empty_cells(), 43);
    assert!(try_lone_ranger(&mut redoku));
    assert_eq!(redoku.empty_cells(), 35);
    assert!(try_lone_ranger(&mut redoku));
    assert_eq!(redoku.empty_cells(), 28);
    assert!(try_lone_ranger(&mut redoku));
    assert_eq!(redoku.empty_cells(), 23);
}

#[test]
fn weighted_scores_round_to_a_tier() {
    assert!(grade_from_scores(1, 1, 1, 1) == Difficulty::VeryEasy);
    // (2 * 2 + 1 + 1 + 2) / 5 = 1.6
    assert!(grade_from_scores(2, 1, 1, 2) == Difficulty::Easy);
    // (2 * 3 + 3 + 2 + 3) / 5 = 2.8
    assert!(grade_from_scores(3, 3, 2, 3) == Difficulty::Medium);
    // (2 * 4 + 4 + 4 + 3) / 5 = 3.8
    assert!(grade_from_scores(4, 4, 4, 3) == Difficulty::Hard);
    // (2 * 5 + 5 + 5 + 2) / 5 = 4.4
    assert!(grade_from_scores(5, 5, 5, 2) == Difficulty::Hard);
    assert!(grade_from_scores(5, 5, 5, 5) == Difficulty::Evil);
}

#[test]
fn too_few_givens_cannot_be_graded() {
    let mut redoku = Redoku::new();
    assert!(redoku.place_if_valid(0, 0, Some(One)));
    assert!(redoku.grade_difficulty() == Err(GradeError::TooFewGivens));
}

#[test]
fn several_completions_cannot_be_graded() {
    let rows: [[u8; 9]; 9] = [
        [0, 0, 0, 0, 0, 0, 0, 0, 0],
        [0, 0, 0, 0, 0, 0, 0, 0, 0],
        [7, 8, 9, 1, 2, 3, 4, 5, 6],
        [2, 3, 1, 5, 6, 4, 8, 9, 7],
        [5, 6, 4, 8, 9, 7, 2, 3, 1],
        [8, 9, 7, 2, 3, 1, 5, 6, 4],
        [3, 1, 2, 6, 4, 5, 9, 7, 8],
        [6, 4, 5, 9, 7, 8, 3, 1, 2],
        [9, 7, 8, 3, 1, 2, 6, 4, 5],
    ];
    let mut tokens = Vec::new();
    for row in rows.iter() {
        tokens.extend_from_slice(row);
    }
    let redoku = Redoku::from_literal(&tokens).unwrap();
    assert!(!redoku.has_solution(true));
    assert!(redoku.grade_difficulty() == Err(GradeError::NoUniqueSolution));
}

#[test]
fn test_grade_medium_redoku() {
    let grade = utils::get_medium_redoku().grade_difficulty();
    assert!(grade == Ok(Difficulty::Medium), "Graded a {:?}", grade);
}

#[test]
fn test_grade_hard_redoku() {
    let grade = utils::get_hard_redoku().grade_difficulty();
    assert!(grade == Ok(Difficulty::Hard), "Graded a {:?}", grade);
}

#[test]
fn test_grade_evil_redoku() {
    let grade = utils::get_evil_redoku().grade_difficulty();
    assert!(grade == Ok(Difficulty::Evil), "Graded a {:?}", grade);
}

#[test]
fn fixtures_have_unique_solutions() {
    assert!(utils::get_easy_redoku().has_solution(true));
    assert!(utils::get_medium_redoku().has_solution(true));
    assert!(utils::get_hard_redoku().has_solution(true));
    assert!(utils::get_evil_redoku().has_solution(true));
    assert!(utils::get_evil_redoku2().has_solution(true));
}

#[test]
fn givens_scores_follow_the_table() {
    assert_eq!(givens_step_score(81), Some(1));
    assert_eq!(givens_step_score(50), Some(1));
    assert_eq!(givens_step_score(49), Some(2));
    assert_eq!(givens_step_score(36), Some(2));
    assert_eq!(givens_step_score(35), Some(3));
    assert_eq!(givens_step_score(32), Some(3));
    assert_eq!(givens_step_score(31), Some(4));
    assert_eq!(givens_step_score(28), Some(4));
    assert_eq!(givens_step_score(27), Some(5));
    assert_eq!(givens_step_score(22), Some(5));
    assert_eq!(givens_step_score(21), None);
}

#[test]
fn density_scores_follow_the_table() {
    assert_eq!(density_step_score(9), 1);
    assert_eq!(density_step_score(5), 1);
    assert_eq!(density_step_score(4), 2);
    assert_eq!(density_step_score(3), 4);
    assert_eq!(density_step_score(2), 4);
    assert_eq!(density_step_score(1), 5);
    assert_eq!(density_step_score(0), 5);
}

#[test]
fn search_scores_follow_the_table() {
    assert_eq!(search_step_score(0), 1);
    assert_eq!(search_step_score(99), 1);
    assert_eq!(search_step_score(100), 2);
    assert_eq!(search_step_score(999), 2);
    assert_eq!(search_step_score(1000), 3);
    assert_eq!(search_step_score(9999), 3);
    assert_eq!(search_step_score(10000), 4);
    assert_eq!(search_step_score(99999), 4);
    assert_eq!(search_step_score(100000), 5);
}
