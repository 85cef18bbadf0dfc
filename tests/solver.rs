use redoku::redoku::Redoku;
use redoku::solver::RedokuSolver;
use redoku::utils;
use redoku::value::Value::{Eight, Four, Nine, One, Seven, Three, Two};
use redoku::value::Value;

fn literal(rows: [[u8; 9]; 9]) -> Redoku {
    let mut tokens = Vec::new();
    for row in rows.iter() {
        tokens.extend_from_slice(row);
    }
    Redoku::from_literal(&tokens).unwrap()
}

fn assert_solved(board: &Redoku) {
    for i in 0..9u8 {
        let mut rows = [0u8; 9];
        let mut columns = [0u8; 9];
        let mut blocks = [0u8; 9];
        for k in 0..9u8 {
            rows[board.get(k, i).unwrap().to_u8() as usize] += 1;
            columns[board.get(i, k).unwrap().to_u8() as usize] += 1;
            let (x, y) = (3 * (i % 3) + k % 3, 3 * (i / 3) + k / 3);
            blocks[board.get(x, y).unwrap().to_u8() as usize] += 1;
        }
        assert!(rows.iter().all(|&c| c == 1));
        assert!(columns.iter().all(|&c| c == 1));
        assert!(blocks.iter().all(|&c| c == 1));
    }
}

#[test]
fn test_previously_nonunique() {
    let redoku = literal([
        [0, 0, 0, 0, 0, 0, 0, 0, 0],
        [0, 0, 0, 0, 0, 0, 0, 0, 0],
        [6, 7, 1, 4, 5, 8, 9, 2, 3],
        [4, 1, 2, 3, 9, 6, 7, 8, 5],
        [7, 9, 5, 1, 8, 2, 6, 3, 4],
        [8, 3, 6, 5, 7, 4, 2, 1, 9],
        [1, 2, 3, 7, 4, 5, 8, 9, 6],
        [5, 6, 4, 8, 2, 9, 3, 7, 1],
        [9, 8, 7, 6, 3, 1, 4, 5, 2],
    ]);

    // the first two rows can be completed in four ways, so there is no unique solution
    assert!(!redoku.has_solution(true));
}

#[test]
fn board_with_four_completions_is_not_unique() {
    // the last seven rows fixed: the first two rows can be completed in four ways
    let redoku = literal([
        [0, 0, 0, 0, 0, 0, 0, 0, 0],
        [0, 0, 0, 0, 0, 0, 0, 0, 0],
        [6, 7, 1, 4, 5, 8, 9, 2, 3],
        [4, 1, 2, 3, 9, 6, 7, 8, 5],
        [7, 9, 5, 1, 8, 2, 6, 3, 4],
        [8, 3, 6, 5, 7, 4, 2, 1, 9],
        [1, 2, 3, 7, 4, 5, 8, 9, 6],
        [5, 6, 4, 8, 2, 9, 3, 7, 1],
        [9, 8, 7, 6, 3, 1, 4, 5, 2],
    ]);

    assert!(redoku.has_solution(false));
    assert!(!redoku.has_solution(true));

    // the first completion in search order starts 2, 4, 8
    let (first, _) = redoku.find_solution(false).unwrap();
    assert!(first.get(0, 0) == Some(Two));
    assert!(first.get(1, 0) == Some(Four));
    assert!(first.get(2, 0) == Some(Eight));
    assert_solved(&first);
}

#[test]
fn two_completions_are_not_unique() {
    let redoku = literal([
        [0, 0, 0, 0, 0, 0, 0, 0, 0],
        [0, 0, 0, 0, 0, 0, 0, 0, 8],
        [6, 7, 1, 4, 5, 8, 9, 2, 3],
        [4, 1, 2, 3, 9, 6, 7, 8, 5],
        [7, 9, 5, 1, 8, 2, 6, 3, 4],
        [8, 3, 6, 5, 7, 4, 2, 1, 9],
        [1, 2, 3, 7, 4, 5, 8, 9, 6],
        [5, 6, 4, 8, 2, 9, 3, 7, 1],
        [9, 8, 7, 6, 3, 1, 4, 5, 2],
    ]);
    assert!(redoku.has_solution(false));
    assert!(!redoku.has_solution(true));
}

#[test]
fn pinning_two_cells_makes_the_completion_unique() {
    let redoku = literal([
        [2, 4, 0, 0, 0, 0, 0, 0, 0],
        [0, 0, 0, 0, 0, 0, 0, 0, 0],
        [6, 7, 1, 4, 5, 8, 9, 2, 3],
        [4, 1, 2, 3, 9, 6, 7, 8, 5],
        [7, 9, 5, 1, 8, 2, 6, 3, 4],
        [8, 3, 6, 5, 7, 4, 2, 1, 9],
        [1, 2, 3, 7, 4, 5, 8, 9, 6],
        [5, 6, 4, 8, 2, 9, 3, 7, 1],
        [9, 8, 7, 6, 3, 1, 4, 5, 2],
    ]);
    let (solution, _) = redoku.find_solution(true).unwrap();
    let top = [[2u8, 4, 8, 9, 1, 3, 5, 6, 7], [3, 5, 9, 2, 6, 7, 1, 4, 8]];
    for y in 0..2u8 {
        for x in 0..9u8 {
            assert!(solution.get(x, y) == Some(Value::from_u8(top[y as usize][x as usize] - 1)));
        }
    }
}

#[test]
fn test_no_unique_solution() {
    let mut redoku = Redoku::new();

    assert!(redoku.place_if_valid(0, 0, Some(One)));

    assert!(redoku.place_if_valid(1, 1, Some(Seven)));

    assert!(redoku.place_if_valid(7, 6, Some(Three)));

    assert!(!redoku.has_solution(true));
}

#[test]
fn solutions_are_solved_grids() {
    let mut redoku = Redoku::new();
    assert!(redoku.place_if_valid(0, 0, Some(One)));
    assert!(redoku.place_if_valid(1, 1, Some(Seven)));
    assert!(redoku.place_if_valid(7, 6, Some(Three)));
    let (solution, _) = redoku.find_solution(false).unwrap();
    assert_eq!(solution.empty_cells(), 0);
    assert_solved(&solution);
    assert!(solution.get(0, 0) == Some(One));
    assert!(solution.get(1, 1) == Some(Seven));
    assert!(solution.get(7, 6) == Some(Three));
}

#[test]
fn unique_search_returns_the_only_completion() {
    let redoku = utils::get_very_easy_redoku();
    let (solution, steps) = redoku.find_solution(true).unwrap();
    assert_solved(&solution);
    let (first, _) = redoku.find_solution(false).unwrap();
    assert!(first == solution);
    assert!(steps > 0);
    // the board searched is left as it was
    assert!(redoku == utils::get_very_easy_redoku());
}

#[test]
fn unique_search_rejects_two_completions() {
    // a solved grid; with its first two rows emptied they can be filled either way round
    let mut redoku = literal([
        [1, 2, 3, 4, 5, 6, 7, 8, 9],
        [4, 5, 6, 7, 8, 9, 1, 2, 3],
        [7, 8, 9, 1, 2, 3, 4, 5, 6],
        [2, 3, 1, 5, 6, 4, 8, 9, 7],
        [5, 6, 4, 8, 9, 7, 2, 3, 1],
        [8, 9, 7, 2, 3, 1, 5, 6, 4],
        [3, 1, 2, 6, 4, 5, 9, 7, 8],
        [6, 4, 5, 9, 7, 8, 3, 1, 2],
        [9, 7, 8, 3, 1, 2, 6, 4, 5],
    ]);
    assert!(redoku.find_solution(true).is_some());
    for y in 0..2u8 {
        for x in 0..9u8 {
            assert!(redoku.place_if_valid(x, y, None));
        }
    }
    assert!(redoku.has_solution(false));
    assert!(!redoku.has_solution(true));
    assert!(redoku.find_solution(true).is_none());
}

#[test]
fn board_without_completion_has_no_solution() {
    let mut redoku = Redoku::new();
    for x in 0..8u8 {
        assert!(redoku.place_if_valid(x, 0, Some(Value::from_u8(x))));
    }
    assert!(redoku.place_if_valid(8, 1, Some(Nine)));
    assert!(!redoku.has_solution(false));
    assert!(redoku.find_solution(false).is_none());
}

#[test]
fn full_board_is_its_own_solution() {
    let (solution, _) = utils::get_very_easy_redoku().find_solution(true).unwrap();
    let (again, steps) = solution.find_solution(true).unwrap();
    assert!(again == solution);
    assert_eq!(steps, 0);
}
