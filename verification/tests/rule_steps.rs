use sudoku::rules::{ExclusionRule, SingleOptRule};
use sudoku::structure::{Cell, Rule};

#[test]
fn predicates_group_by_row_column_and_square() {
    let row = ExclusionRule::new_row();
    assert!(row.predicate(0, 8));
    assert!(row.predicate(80, 72));
    assert!(!row.predicate(0, 9));
    assert!(!row.predicate(8, 9));

    let col = ExclusionRule::new_col();
    assert!(col.predicate(0, 9));
    assert!(col.predicate(0, 72));
    assert!(col.predicate(80, 8));
    assert!(!col.predicate(0, 1));

    let square = ExclusionRule::new_square();
    assert!(square.predicate(0, 20));
    assert!(square.predicate(30, 50));
    assert!(square.predicate(60, 80));
    assert!(!square.predicate(0, 3));
    assert!(!square.predicate(0, 27));
    assert!(!square.predicate(26, 27));
}

#[test]
fn single_option_rules_use_the_same_groups() {
    assert!(SingleOptRule::new_row().predicate(9, 17));
    assert!(!SingleOptRule::new_row().predicate(9, 18));
    assert!(SingleOptRule::new_col().predicate(4, 76));
    assert!(!SingleOptRule::new_col().predicate(4, 75));
    assert!(SingleOptRule::new_square().predicate(40, 32));
    assert!(!SingleOptRule::new_square().predicate(40, 33));
}

#[test]
fn exclusion_removes_a_committed_digit() {
    let mut rule = ExclusionRule::new_row();
    let mut target = Cell::default();
    let mut other = Cell::default();
    other.set(7);
    rule.begin();
    rule.consider(&mut target, other);
    rule.end(&mut target);
    assert!(!target.is_open(7));
    assert_eq!(target.options(), 0b1_1011_1111);
    assert_eq!(target.value(), 0);
}

#[test]
fn exclusion_ignores_an_undecided_cell() {
    let mut rule = ExclusionRule::new_col();
    let mut target = Cell::default();
    let mut other = Cell::default();
    other.single(7);
    rule.consider(&mut target, other);
    assert_eq!(target.options(), 0b1_1111_1111);
}

#[test]
fn exclusion_leaves_a_committed_target_alone() {
    let mut rule = ExclusionRule::new_square();
    let mut target = Cell::default();
    target.set(2);
    let mut other = Cell::default();
    other.set(2);
    rule.consider(&mut target, other);
    assert_eq!(target.value(), 2);
    assert_eq!(target.options(), 0);
}

#[test]
fn single_option_narrows_to_the_digit_nobody_else_has() {
    let mut rule = SingleOptRule::new_row();
    let mut target = Cell::default();
    let mut other = Cell::default();
    other.shut(2);
    rule.begin();
    rule.consider(&mut target, other);
    rule.consider(&mut target, other);
    assert_eq!(target.options(), 0b1_1111_1111);
    rule.end(&mut target);
    assert_eq!(target.options(), 0b0_0000_0010);
    assert_eq!(target.value(), 0);
}

#[test]
fn single_option_takes_the_lowest_of_two_unique_digits() {
    let mut rule = SingleOptRule::new_col();
    let mut target = Cell::default();
    let mut other = Cell::default();
    other.shut(6);
    other.shut(3);
    rule.begin();
    rule.consider(&mut target, other);
    rule.end(&mut target);
    assert_eq!(target.options(), 0b0_0000_0100);
}

#[test]
fn single_option_does_not_count_committed_cells() {
    let mut rule = SingleOptRule::new_square();
    let mut target = Cell::default();
    target.shut(1);
    let mut other = Cell::default();
    other.set(2);
    rule.begin();
    rule.consider(&mut target, other);
    rule.end(&mut target);
    assert_eq!(target.options(), 0b0_0000_0010);
}

#[test]
fn single_option_changes_nothing_when_every_digit_is_shared() {
    let mut rule = SingleOptRule::new_row();
    let mut target = Cell::default();
    let other = Cell::default();
    rule.begin();
    rule.consider(&mut target, other);
    rule.end(&mut target);
    assert_eq!(target.options(), 0b1_1111_1111);
}

#[test]
fn begin_forgets_what_was_counted() {
    let mut rule = SingleOptRule::new_row();
    let mut target = Cell::default();
    let other = Cell::default();
    rule.begin();
    rule.consider(&mut target, other);
    rule.begin();
    rule.end(&mut target);
    assert_eq!(target.options(), 0b0_0000_0001);
}
