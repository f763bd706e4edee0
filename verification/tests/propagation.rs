use sudoku::presets;
use sudoku::rules::{ExclusionRule, SingleOptRule};
use sudoku::structure::{Solver, Sudoku};

fn with_all_rules(mut s: Sudoku) -> Sudoku {
    s.rules.push(Box::new(ExclusionRule::new_row()));
    s.rules.push(Box::new(ExclusionRule::new_col()));
    s.rules.push(Box::new(ExclusionRule::new_square()));
    s.rules.push(Box::new(SingleOptRule::new_row()));
    s.rules.push(Box::new(SingleOptRule::new_col()));
    s.rules.push(Box::new(SingleOptRule::new_square()));
    s
}

fn group_is_complete(s: &Sudoku, indices: &[usize]) -> bool {
    let mut seen = [false; 10];
    for &i in indices {
        seen[s.cells[i].value() as usize] = true;
    }
    (1..=9).all(|v| seen[v])
}

#[test]
fn the_six_rules_solve_the_easy_grid() {
    let mut s = with_all_rules(presets::load_easy());
    assert!(!s.is_solved());
    assert_eq!(s.solve(), 43);
    assert!(s.is_solved());
    for g in 0..9 {
        let row: Vec<usize> = (0..9).map(|c| g * 9 + c).collect();
        let col: Vec<usize> = (0..9).map(|r| r * 9 + g).collect();
        let square: Vec<usize> =
            (0..9).map(|k| (g / 3) * 27 + (g % 3) * 3 + (k / 3) * 9 + k % 3).collect();
        assert!(group_is_complete(&s, &row));
        assert!(group_is_complete(&s, &col));
        assert!(group_is_complete(&s, &square));
    }
    // The given digits are kept.
    let given = presets::load_easy();
    for i in 0..81 {
        if given.cells[i].value() != 0 {
            assert_eq!(s.cells[i].value(), given.cells[i].value());
        }
    }
}

#[test]
fn solving_a_solved_grid_commits_nothing() {
    let mut s = with_all_rules(presets::load_easy());
    s.solve();
    let before = s.to_string();
    assert_eq!(s.solve(), 0);
    assert_eq!(s.to_string(), before);
}

#[test]
fn without_rules_only_forced_cells_are_committed() {
    let mut s = Sudoku::default();
    s.cells[40].single(5);
    s.cells[41].single(5);
    assert_eq!(s.solve(), 2);
    assert_eq!(s.cells[40].value(), 5);
    assert_eq!(s.cells[41].value(), 5);
    assert_eq!(s.solve(), 0);
    assert!(!s.is_solved());
}

#[test]
fn row_exclusion_removes_a_committed_digit_from_its_row() {
    let mut s = Sudoku::default();
    s.cells[4].set(6);
    s.rules.push(Box::new(ExclusionRule::new_row()));
    assert_eq!(s.solve(), 0);
    for i in 0..9 {
        if i != 4 {
            assert!(!s.cells[i].is_open(6));
            assert_ne!(s.cells[i].value(), 6);
            assert_eq!(s.cells[i].options(), 0b1_1101_1111);
        }
    }
    assert_eq!(s.cells[4].value(), 6);
    for i in 9..81 {
        assert_eq!(s.cells[i].options(), 0b1_1111_1111);
    }
}

#[test]
fn column_and_square_exclusion_reach_their_groups() {
    let mut s = Sudoku::default();
    s.cells[40].set(1);
    s.rules.push(Box::new(ExclusionRule::new_col()));
    s.rules.push(Box::new(ExclusionRule::new_square()));
    assert_eq!(s.solve(), 0);
    for i in 0..81 {
        let same_col = i % 9 == 4;
        let same_square = i / 27 == 1 && i % 9 / 3 == 1;
        if i == 40 {
            assert_eq!(s.cells[i].value(), 1);
        } else if same_col || same_square {
            assert_eq!(s.cells[i].options(), 0b1_1111_1110);
        } else {
            assert_eq!(s.cells[i].options(), 0b1_1111_1111);
        }
    }
}

#[test]
fn exclusion_commits_a_cell_that_is_left_with_one_digit() {
    let mut s = Sudoku::default();
    for (i, v) in [(1, 1), (2, 2), (3, 3), (4, 4), (5, 5), (6, 6), (7, 7), (8, 8)] {
        s.cells[i].set(v);
    }
    s.rules.push(Box::new(ExclusionRule::new_row()));
    assert_eq!(s.solve(), 1);
    assert_eq!(s.cells[0].value(), 9);
}

#[test]
fn square_single_option_commits_the_only_cell_that_can_take_a_digit() {
    let mut s = Sudoku::default();
    for i in [0, 1, 2, 9, 11, 18, 19, 20] {
        s.cells[i].shut(5);
    }
    s.rules.push(Box::new(SingleOptRule::new_square()));
    assert_eq!(s.solve(), 1);
    assert_eq!(s.cells[10].value(), 5);
    assert_eq!(s.cells[10].options(), 0);
    for i in [0, 1, 2, 9, 11, 18, 19, 20] {
        assert_eq!(s.cells[i].value(), 0);
        assert_eq!(s.cells[i].options(), 0b1_1110_1111);
    }
}

#[test]
fn single_option_prefers_the_lowest_digit() {
    let mut s = Sudoku::default();
    for i in [0, 1, 2, 9, 11, 18, 19, 20] {
        s.cells[i].shut(3);
        s.cells[i].shut(5);
    }
    s.rules.push(Box::new(SingleOptRule::new_square()));
    assert_eq!(s.solve(), 1);
    assert_eq!(s.cells[10].value(), 3);
}

#[test]
fn a_contradiction_leaves_a_cell_without_candidates() {
    let mut s = Sudoku::default();
    for (i, v) in [(1, 1), (2, 2), (3, 3), (4, 4), (5, 5), (6, 6), (7, 7), (8, 8), (9, 9)] {
        s.cells[i].set(v);
    }
    s.rules.push(Box::new(ExclusionRule::new_row()));
    s.rules.push(Box::new(ExclusionRule::new_col()));
    assert_eq!(s.solve(), 0);
    assert_eq!(s.cells[0].value(), 0);
    assert_eq!(s.cells[0].options(), 0);
    assert!(!s.cells[0].is_consistent());
    assert!(!s.is_solved());
}

#[test]
fn an_unsolvable_grid_stops_after_the_stalled_passes() {
    let mut s = with_all_rules(Sudoku::default());
    s.cells[0].set(1);
    s.cells[1].set(1);
    let n = s.solve();
    assert!(n <= 79);
    assert!(!s.is_solved());
    assert_eq!(s.cells[0].value(), 1);
    assert_eq!(s.cells[1].value(), 1);
}

#[test]
fn rules_apply_in_list_order_within_one_pass() {
    // Row exclusion first leaves cell 0 with digit 9 only; the single-option
    // rule after it finds nothing more to do, and one pass commits the cell.
    let mut s = Sudoku::default();
    for (i, v) in [(1, 1), (2, 2), (3, 3), (4, 4), (5, 5), (6, 6), (7, 7), (8, 8)] {
        s.cells[i].set(v);
    }
    s.rules.push(Box::new(ExclusionRule::new_row()));
    s.rules.push(Box::new(SingleOptRule::new_row()));
    assert_eq!(s.solve(), 1);
    assert_eq!(s.cells[0].value(), 9);
}

#[test]
fn fork_gives_no_branches() {
    assert_eq!(presets::load_easy().fork().len(), 0);
    assert_eq!(Sudoku::default().fork().len(), 0);
}

#[test]
fn is_solved_needs_every_cell() {
    let mut s = Sudoku::default();
    for i in 0..80 {
        s.cells[i].set(1);
    }
    assert!(!s.is_solved());
    s.cells[80].set(1);
    assert!(s.is_solved());
}
