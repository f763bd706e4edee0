use sudoku::structure::{Cell, Solver};

#[test]
fn default_cell_is_undecided_with_all_digits_open() {
    let c = Cell::default();
    assert_eq!(c.value(), 0);
    assert_eq!(c.options(), 0b1_1111_1111);
    assert_eq!(c.num_options(), 9);
    assert!(c.is_consistent());
}

#[test]
fn set_commits_and_clears_the_candidates() {
    let mut c = Cell::default();
    c.set(5);
    assert_eq!(c.value(), 5);
    assert_eq!(c.options(), 0);
    assert_eq!(c.num_options(), 0);
    for v in 1..=9 {
        assert!(!c.is_open(v));
    }
    assert!(c.is_consistent());
}

#[test]
fn set_overrides_an_earlier_digit() {
    let mut c = Cell::default();
    c.set(1);
    c.set(9);
    assert_eq!(c.value(), 9);
    assert_eq!(c.options(), 0);
}

#[test]
fn shut_twice_is_shut_once() {
    let mut c = Cell::default();
    c.shut(3);
    let once = c.options();
    c.shut(3);
    assert_eq!(c.options(), once);
    assert_eq!(once, 0b1_1111_1011);
    assert_eq!(c.num_options(), 8);
}

#[test]
fn shut_leaves_a_committed_cell_alone() {
    let mut c = Cell::default();
    c.set(4);
    c.shut(4);
    c.shut(7);
    assert_eq!(c.value(), 4);
    assert_eq!(c.options(), 0);
    assert!(c.is_consistent());
}

#[test]
fn num_options_counts_the_open_digits() {
    let mut c = Cell::default();
    c.shut(1);
    c.shut(9);
    assert_eq!(c.num_options(), 7);
    assert_eq!(c.options(), 0b0_1111_1110);
    c.open(9);
    assert_eq!(c.num_options(), 8);
    assert_eq!(c.options(), 0b1_1111_1110);
}

#[test]
fn single_leaves_one_candidate_without_committing() {
    let mut c = Cell::default();
    c.single(4);
    assert_eq!(c.value(), 0);
    assert_eq!(c.options(), 0b0_0000_1000);
    assert_eq!(c.num_options(), 1);
    assert!(c.is_open(4));
    assert!(c.is_consistent());
    assert_eq!(c.solve(), 1);
    assert_eq!(c.value(), 4);
    assert_eq!(c.options(), 0);
}

#[test]
fn commit_takes_every_digit() {
    for v in 1..=9u8 {
        let mut c = Cell::default();
        c.single(v);
        assert_eq!(c.options(), 1u16 << (v - 1));
        assert_eq!(c.solve(), 1);
        assert_eq!(c.value(), v);
    }
}

#[test]
fn commit_waits_while_two_digits_are_open() {
    let mut c = Cell::default();
    for v in [1, 3, 4, 6, 7, 8, 9] {
        c.shut(v);
    }
    assert_eq!(c.options(), 0b0_0001_0010);
    assert_eq!(c.solve(), 0);
    assert_eq!(c.value(), 0);
    assert_eq!(c.options(), 0b0_0001_0010);
}

#[test]
fn commit_on_a_committed_cell_changes_nothing() {
    let mut c = Cell::default();
    c.set(6);
    assert_eq!(c.solve(), 0);
    assert_eq!(c.value(), 6);
    assert_eq!(c.options(), 0);
    assert_eq!(c.solve(), 0);
    assert_eq!(c.value(), 6);
    assert_eq!(c.options(), 0);
}

#[test]
fn every_operation_but_the_last_shut_keeps_the_cell_consistent() {
    let mut c = Cell::default();
    assert!(c.is_consistent());
    c.shut(2);
    assert!(c.is_consistent());
    c.open(2);
    assert!(c.is_consistent());
    c.single(8);
    assert!(c.is_consistent());
    c.solve();
    assert!(c.is_consistent());
    c.set(3);
    assert!(c.is_consistent());
}

#[test]
fn shutting_the_last_candidate_leaves_neither_digit_nor_candidate() {
    let mut c = Cell::default();
    c.single(4);
    c.shut(4);
    assert_eq!(c.value(), 0);
    assert_eq!(c.options(), 0);
    assert_eq!(c.num_options(), 0);
    assert!(!c.is_consistent());
    assert_eq!(c.solve(), 0);
    assert_eq!(c.value(), 0);
}
