use sudoku::presets;
use sudoku::structure::Sudoku;

fn solved_text() -> String {
    let mut text = String::new();
    for r in 0..9 {
        if r != 0 {
            text.push('\n');
            if r % 3 == 0 {
                text.push_str("-------+-------+-------\n");
            }
        }
        for c in 0..9 {
            if c != 0 && c % 3 == 0 {
                text.push_str(" |");
            }
            let digit = (3 * (r % 3) + r / 3 + c) % 9 + 1;
            text.push_str(&format!(" {}", digit));
        }
    }
    text
}

#[test]
fn empty_grid_is_written_as_spaces_and_dividers() {
    let row = format!("{}|{}|{}", " ".repeat(7), " ".repeat(7), " ".repeat(6));
    let rule = "-------+-------+-------";
    let want = [
        row.as_str(), row.as_str(), row.as_str(), rule,
        row.as_str(), row.as_str(), row.as_str(), rule,
        row.as_str(), row.as_str(), row.as_str(),
    ]
    .join("\n");
    assert_eq!(Sudoku::default().to_string(), want);
}

#[test]
fn a_written_solved_grid_reads_back_to_the_same_text() {
    let text = solved_text();
    assert!(text.starts_with(" 1 2 3 | 4 5 6 | 7 8 9\n 4 5 6 | 7 8 9 | 1 2 3\n"));
    let grid: Sudoku = text.parse().unwrap();
    assert!(grid.is_solved());
    assert_eq!(grid.cells[0].value(), 1);
    assert_eq!(grid.cells[9].value(), 4);
    assert_eq!(grid.cells[80].value(), 8);
    assert_eq!(grid.to_string(), text);
}

#[test]
fn a_written_unsolved_grid_cannot_be_read_back() {
    let text = presets::load_easy().to_string();
    assert!(text.parse::<Sudoku>().is_err());
}

#[test]
fn too_few_digits_are_refused() {
    let text = "1".repeat(80);
    assert!(text.parse::<Sudoku>().is_err());
    assert!("".parse::<Sudoku>().is_err());
    assert!("no digits at all".parse::<Sudoku>().is_err());
}

#[test]
fn too_many_digits_are_refused() {
    let text = "1".repeat(82);
    assert!(text.parse::<Sudoku>().is_err());
}

#[test]
fn exactly_81_digits_are_accepted_whatever_stands_between_them() {
    let mut text = String::from("grid: ");
    for i in 0..81 {
        text.push_str(&format!("{}", i % 10));
        text.push_str(if i % 2 == 0 { "-x " } else { "\t|" });
    }
    let grid: Sudoku = text.parse().unwrap();
    for i in 0..81 {
        assert_eq!(grid.cells[i].value() as usize, i % 10);
    }
    assert_eq!(grid.rules.len(), 0);
}

#[test]
fn zero_leaves_a_cell_undecided_with_all_digits_open() {
    let grid: Sudoku = "0".repeat(81).parse().unwrap();
    for i in 0..81 {
        assert_eq!(grid.cells[i].value(), 0);
        assert_eq!(grid.cells[i].options(), 0b1_1111_1111);
    }
    let mut text = "0".repeat(80);
    text.push('7');
    let grid: Sudoku = text.parse().unwrap();
    assert_eq!(grid.cells[80].value(), 7);
    assert_eq!(grid.cells[80].options(), 0);
}

#[test]
fn digits_of_other_scripts_do_not_count() {
    let mut text = "5".repeat(81);
    text.push('\u{0663}');
    text.push('\u{ff11}');
    let grid: Sudoku = text.parse().unwrap();
    assert_eq!(grid.cells[80].value(), 5);
    let mut short = "5".repeat(80);
    short.push('\u{0663}');
    assert!(short.parse::<Sudoku>().is_err());
}

#[test]
fn presets_hold_their_digits() {
    let hard = presets::load_hard();
    assert_eq!(hard.cells[2].value(), 7);
    assert_eq!(hard.cells[8].value(), 5);
    assert_eq!(hard.cells[80].value(), 2);
    assert_eq!(hard.cells[0].value(), 0);
    assert_eq!(hard.rules.len(), 0);

    let hard2 = presets::load_hard2();
    assert_eq!(hard2.cells[0].value(), 1);
    assert_eq!(hard2.cells[1].value(), 0);
    assert_eq!(hard2.cells[8].value(), 2);
    assert_eq!(hard2.cells[27].value(), 0);
    assert_eq!(hard2.cells[28].value(), 1);
    assert_eq!(hard2.cells[80].value(), 3);

    let expert = presets::load_expert();
    assert_eq!(expert.cells[1].value(), 4);
    assert_eq!(expert.cells[3].value(), 9);
    assert_eq!(expert.cells[9].value(), 1);
    assert_eq!(expert.cells[80].value(), 1);
    assert_eq!(expert.cells[79].value(), 0);

    let easy = presets::load_easy();
    assert_eq!(easy.cells[0].value(), 3);
    assert_eq!(easy.cells[78].value(), 7);
    assert_eq!(easy.cells[79].value(), 0);
}

#[test]
fn hard2_is_written_in_the_display_format() {
    let want = [
        " 1   7 | 6 4 9 | 3   2",
        " 2     | 3 7 5 |   1 6",
        " 3   6 | 8 2 1 | 4    ",
        "-------+-------+-------",
        "   1   |   9 6 | 7 3 8",
        " 7 6 3 |   1 8 |   4 9",
        "       |   3 7 | 6   1",
        "-------+-------+-------",
        " 6 7   | 1 5 3 |     4",
        " 8 3 1 | 9 6   |      ",
        "       | 7 8   | 1 6 3",
    ]
    .join("\n");
    assert_eq!(presets::load_hard2().to_string(), want);
}
