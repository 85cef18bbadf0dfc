use redoku::redoku::{Grid, Redoku};
use redoku::value::Value::{Eight, Five, Four, Nine, One, Seven, Six, Three, Two};
use redoku::value::{Value, ValueSet};

#[test]
fn test_indexing() {
    let mut redoku = Redoku::new();

    for x in 0..9 {
        for y in 0..9 {
            assert!(redoku.get(x, y) == None);

            assert!(redoku.place_if_valid(x, y, Some(Value::from_u8(y))));

            assert!(redoku.get(x, y) == Some(Value::from_u8(y)));

            assert!(redoku.place_if_valid(x, y, None));
        }
    }
}

#[test]
fn test_place_if_valid() {
    let mut redoku = Redoku::new();

    // Test column
    assert!(redoku.place_if_valid(1, 1, Some(One)));

    assert!(!redoku.place_if_valid(8, 1, Some(One)));

    // Test row
    assert!(!redoku.place_if_valid(1, 8, Some(One)));

    // Test block
    assert!(redoku.place_if_valid(0, 7, Some(One)));

    assert!(!redoku.place_if_valid(2, 8, Some(One)));

    assert!(redoku.place_if_valid(1, 1, None));
}

#[test]
fn clearing_an_empty_cell_changes_nothing() {
    let mut redoku = Redoku::new();
    assert!(redoku.place_if_valid(4, 4, Some(Five)));
    let before = redoku.clone();
    assert!(redoku.place_if_valid(0, 0, None));
    assert!(redoku == before);
}

#[test]
fn placing_then_clearing_restores_the_sets() {
    let mut redoku = Redoku::new();
    assert!(redoku.place_if_valid(2, 3, Some(Seven)));
    let before = redoku.clone();
    assert!(redoku.place_if_valid(5, 5, Some(Two)));
    assert!(redoku != before);
    assert!(redoku.place_if_valid(5, 5, None));
    assert!(redoku == before);
    assert!(*redoku.row_values(5) == *before.row_values(5));
    assert!(*redoku.column_values(5) == *before.column_values(5));
    assert!(*redoku.block_values(4) == *before.block_values(4));
}

#[test]
fn placing_replaces_the_digit_of_a_filled_cell() {
    let mut redoku = Redoku::new();
    assert!(redoku.place_if_valid(0, 0, Some(One)));
    assert!(redoku.place_if_valid(0, 0, Some(Two)));
    assert!(redoku.get(0, 0) == Some(Two));
    assert!(*redoku.row_values(0) == ValueSet::new(0b10));
    assert!(redoku.place_if_valid(8, 0, Some(One)));
}

#[test]
fn candidates_are_the_complement_of_the_units() {
    let mut redoku = Redoku::new();
    assert!(redoku.place_if_valid(0, 4, Some(One)));
    assert!(redoku.place_if_valid(4, 0, Some(Two)));
    assert!(redoku.place_if_valid(1, 1, Some(Three)));
    assert!(redoku.calculate_impossible_values(0, 0) == ValueSet::new(0b111));
    assert!(redoku.calculate_possible_values(0, 0) == ValueSet::new(0b1_1111_1000));
    assert!(!redoku.can_place(0, 0, One));
    assert!(redoku.can_place(0, 0, Four));
}

#[test]
fn empty_cells_counts_placements() {
    let mut redoku = Redoku::new();
    assert_eq!(redoku.empty_cells(), 81);
    assert!(redoku.place_if_valid(3, 3, Some(Nine)));
    assert!(redoku.place_if_valid(8, 8, Some(Eight)));
    assert_eq!(redoku.empty_cells(), 79);
    redoku.clear();
    assert_eq!(redoku.empty_cells(), 81);
    assert!(redoku.get(3, 3).is_none());
}

#[test]
fn temporary_values_are_removed_exactly() {
    let mut redoku = Redoku::with_capacity(4);
    assert!(redoku.place_if_valid(0, 0, Some(One)));
    let before = redoku.clone();
    redoku.insert_temporary_values(Grid::Row(0), ValueSet::new(0b11));
    assert_eq!(redoku.temporary_values(), 1);
    assert!(*redoku.row_values(0) == ValueSet::new(0b11));
    assert!(!redoku.can_place(5, 0, Two));
    redoku.remove_temporary_values();
    assert_eq!(redoku.temporary_values(), 0);
    assert!(redoku == before);
    assert!(*redoku.row_values(0) == ValueSet::new(0b1));
}

#[test]
fn literal_round_trip() {
    let mut tokens = vec![0u8; 81];
    tokens[0] = 5;
    tokens[10] = 3;
    tokens[80] = 9;
    tokens[44] = 1;
    let redoku = Redoku::from_literal(&tokens).unwrap();
    for y in 0..9u8 {
        for x in 0..9u8 {
            let t = tokens[9 * y as usize + x as usize];
            let expected = if t == 0 { None } else { Some(Value::from_u8(t - 1)) };
            assert!(redoku.get(x, y) == expected);
        }
    }
}

#[test]
fn literal_with_a_repeated_digit_is_refused() {
    let mut tokens = vec![0u8; 81];
    tokens[0] = 4;
    tokens[8] = 4;
    assert!(Redoku::from_literal(&tokens).is_none());
    tokens[8] = 10;
    assert!(Redoku::from_literal(&tokens).is_none());
    assert!(Redoku::from_literal(&vec![0u8; 80]).is_none());
}
