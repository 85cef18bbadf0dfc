use redoku::value::Value::{Eight, Five, Four, Nine, One, Seven, Six, Three, Two};
use redoku::value::{Value, ValueSet};

#[test]
fn test_cell_value_set_ops() {
    let mut set = ValueSet::new(0);

    set.insert(One);
    set.insert(Five);
    set.insert(Eight);

    assert!(set == ValueSet::new(0b0_1001_0001));

    if set.contains(&Five) {
        set.remove(&Five);
    }

    assert!(set == ValueSet::new(0b0_1000_0001));
    assert!(set.len() == 2);
    set.clear();
    assert!(set == ValueSet::new(0));

    set = ValueSet::new(0b1_1010_0001);

    assert!(set <= ValueSet::new(0b1_1010_0001));
    assert!(set < ValueSet::new(0b1_1110_0101));
    assert!(set >= ValueSet::new(0b1_1010_0001));
    assert!(set > ValueSet::new(0b1_0010_0001));
    assert!(!(set < ValueSet::new(0b1_0110_0001)));
    assert!(!(set > ValueSet::new(0b1_0110_0001)));
}

#[test]
fn test_cell_value_set_bitops() {
    let set = ValueSet::new(0b1_1010_0001);

    let set2 = set.intersection(&ValueSet::new(0b1_1111_0000));

    assert!(set2 == ValueSet::new(0b1_1010_0000));

    let set3 = set.union(&ValueSet::new(0b0_0101_1001));

    assert!(set3 == ValueSet::new(0b1_1111_1001));

    let set4 = set3.difference(&set2);

    assert!(set4 == ValueSet::new(0b0_0101_1001));

    let mut set = ValueSet::new(0b1_1100_0011);

    set = set.union(&ValueSet::new(0b0_0110_1001));

    assert!(set == ValueSet::new(0b1_1110_1011));

    set = set.intersection(&ValueSet::new(0b1_1000_1000));

    assert!(set == ValueSet::new(0b1_1000_1000));

    set = set.difference(&ValueSet::new(0b0_1111_1111));

    assert!(set == ValueSet::new(0b1_0000_0000));
}

#[test]
fn value_from_u8_round_trips() {
    for i in 0..9u8 {
        assert_eq!(Value::from_u8(i).to_u8(), i);
    }
    assert!(Value::from_u8(0) == One);
    assert!(Value::from_u8(8) == Nine);
}

#[test]
fn value_set_drains_in_ascending_order() {
    let mut set = ValueSet::new(0b1_0010_0100);
    assert_eq!(set.next(), Some(Three));
    assert_eq!(set.next(), Some(Six));
    assert_eq!(set.next(), Some(Nine));
    assert_eq!(set.next(), None);
    assert!(set.is_empty());
}

#[test]
fn value_set_empty_and_full() {
    assert!(ValueSet::empty().is_empty());
    assert_eq!(ValueSet::empty().len(), 0);
    assert!(ValueSet::full().is_full());
    assert_eq!(ValueSet::full().len(), 9);
    assert!(!ValueSet::new(0b0_1111_1111).is_full());
    assert!(ValueSet::new(0b0_0000_0110).is_subset(&ValueSet::new(0b0_0000_0111)));
    assert!(!ValueSet::new(0b0_0000_1110).is_subset(&ValueSet::new(0b0_0000_0111)));
    assert!(ValueSet::new(0b11).partial_cmp(&ValueSet::new(0b110)).is_none());
}
