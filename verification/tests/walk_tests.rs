use statewalk::walk::TravelPath;

#[test]
fn end_of_walk() {
    let p = TravelPath { states: vec![0, 1, 2], length: 7 };
    assert_eq!(p.get_end(), 2);
}

#[test]
fn count_of_state() {
    let p = TravelPath { states: vec![3, 1, 3, 2, 3], length: 0 };
    assert_eq!(p.get_count_of_state(3), 3);
    assert_eq!(p.get_count_of_state(1), 1);
    assert_eq!(p.get_count_of_state(9), 0);
}

#[test]
fn no_repeat_is_not_double() {
    let p = TravelPath { states: vec![0, 1, 2, 3], length: 3 };
    assert!(!p.has_a_double_repeat());
}

#[test]
fn single_repeat_is_not_double() {
    let p = TravelPath { states: vec![0, 1, 2, 1, 3], length: 4 };
    assert!(!p.has_a_double_repeat());
}

#[test]
fn two_repeats_are_double() {
    let p = TravelPath { states: vec![0, 1, 0, 1, 2], length: 4 };
    assert!(p.has_a_double_repeat());
}

#[test]
fn terminal_twice_is_valid() {
    let p = TravelPath { states: vec![0, 1, 2, 1], length: 3 };
    assert!(p.is_repetition_valid());
}

#[test]
fn terminal_thrice_is_invalid() {
    let p = TravelPath { states: vec![1, 0, 1, 2, 1], length: 4 };
    assert!(!p.is_repetition_valid());
}

#[test]
fn double_repeat_is_invalid() {
    let p = TravelPath { states: vec![0, 1, 0, 2, 1], length: 4 };
    assert!(!p.is_repetition_valid());
}
