use sudoku::presets;
use sudoku::rules::{ExclusionRule, SingleOptRule};
use sudoku::structure::Solver;


#[test]
fn test_row_rule() {
    let mut s = presets::load_easy();
    s.rules.push(Box::new(ExclusionRule::new_row()));

    assert_eq!(s.solve(), 0);
    assert_eq!(s.cells[54].value(), 0);

    s.cells[59].set(8);
    assert_eq!(s.solve(), 0);
    assert_eq!(s.cells[54].value(), 0);

    s.cells[61].set(3);
    assert_eq!(s.solve(), 1);
    assert_eq!(s.cells[54].value(), 4);
}

#[test]
fn test_col_rule() {
    let mut s = presets::load_easy();
    s.rules.push(Box::new(ExclusionRule::new_col()));

    assert_eq!(s.solve(), 0);
    assert_eq!(s.cells[42].value(), 0);

    s.cells[6].set(8);
    assert_eq!(s.solve(), 1);
    assert_eq!(s.cells[42].value(), 9);
}

#[test]
fn test_square_rule() {
    let mut s = presets::load_easy();
    s.rules.push(Box::new(ExclusionRule::new_square()));

    assert_eq!(s.solve(), 0);
    assert_eq!(s.cells[59].value(), 0);

    s.cells[67].set(4);
    assert_eq!(s.solve(), 0);
    assert_eq!(s.cells[59].value(), 0);

    s.cells[68].set(3);
    assert_eq!(s.solve(), 1);
    assert_eq!(s.cells[59].value(), 8);
}

#[test]
fn test_single_opt_square_rule() {
    let mut s = presets::load_easy();
    s.rules.push(Box::new(SingleOptRule::new_square()));

    // Make sure it's still unsolvable.
    assert_eq!(s.solve(), 0);
    assert_eq!(s.cells[67].value(), 0);

    // Shut down the possibility of cell #59 to have a 4.
    assert!(s.cells[59].is_open(4));
    s.cells[59].shut(4);
    assert_eq!(s.cells[59].is_open(4), false);

    // Make sure it's still unsolvable.
    assert_eq!(s.solve(), 0);
    assert_eq!(s.cells[67].value(), 0);

    // Shut down the possibility of cell #68 to have a 4.
    assert!(s.cells[68].is_open(4));
    s.cells[68].shut(4);
    assert_eq!(s.cells[68].is_open(4), false);

    // Make sure it's now solvable.
    assert_eq!(s.solve(), 1);
    assert_eq!(s.cells[67].value(), 4);
}

#[test]
fn test_rules() {
    let mut s = presets::load_easy();
    s.rules.push(Box::new(ExclusionRule::new_row()));
    s.rules.push(Box::new(ExclusionRule::new_col()));
    s.rules.push(Box::new(ExclusionRule::new_square()));
    s.rules.push(Box::new(SingleOptRule::new_row()));
    s.rules.push(Box::new(SingleOptRule::new_col()));
    s.rules.push(Box::new(SingleOptRule::new_square()));
    assert_eq!(s.solve(), 43);
}
