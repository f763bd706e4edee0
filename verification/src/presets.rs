//! Ready-made grids.

use std::str::FromStr;
use vstd::prelude::*;

use crate::cell::CellView;
use crate::structure::Sudoku;
use crate::text::{digits_in, digits_upto, grid_of, lemma_digits_upto};

verus! {


/// The digits of the grid of `load_easy`, row by row; `0` stands for a cell
/// that is not given.
pub open spec fn easy_digits() -> Seq<nat> {
    seq![
        3, 4, 0, 0, 0, 0, 0, 7, 0,
        8, 0, 0, 4, 0, 7, 2, 5, 0,
        7, 0, 6, 8, 0, 0, 3, 0, 9,
        0, 1, 3, 0, 0, 6, 4, 0, 0,
        0, 0, 7, 0, 0, 4, 0, 1, 0,
        0, 0, 4, 0, 0, 0, 6, 0, 3,
        0, 7, 9, 6, 5, 0, 1, 0, 2,
        0, 0, 0, 7, 0, 0, 5, 9, 8,
        0, 3, 0, 2, 9, 1, 7, 0, 0,
    ]
}

/// A grid that the six rules solve.
pub fn load_easy() -> (grid: Sudoku)
    ensures
        grid.wf(),
        grid@.rules.len() == 0,
        grid@.cells == grid_of(easy_digits()),
{
    let mut grid = Sudoku::default();
    assert forall|i: int| 0 <= i < 81 implies (#[trigger] grid.cells[i])@ == CellView::fresh() by {
        assert(grid@.cells[i] == CellView::fresh());
    }
    grid.cells[0].set(3);
    grid.cells[1].set(4);
    grid.cells[7].set(7);
    grid.cells[9].set(8);
    grid.cells[12].set(4);
    grid.cells[14].set(7);
    grid.cells[15].set(2);
    grid.cells[16].set(5);
    grid.cells[18].set(7);
    grid.cells[20].set(6);
    grid.cells[21].set(8);
    grid.cells[24].set(3);
    grid.cells[26].set(9);
    grid.cells[28].set(1);
    grid.cells[29].set(3);
    grid.cells[32].set(6);
    grid.cells[33].set(4);
    grid.cells[38].set(7);
    grid.cells[41].set(4);
    grid.cells[43].set(1);
    grid.cells[47].set(4);
    grid.cells[51].set(6);
    grid.cells[53].set(3);
    grid.cells[55].set(7);
    grid.cells[56].set(9);
    grid.cells[57].set(6);
    grid.cells[58].set(5);
    grid.cells[60].set(1);
    grid.cells[62].set(2);
    grid.cells[66].set(7);
    grid.cells[69].set(5);
    grid.cells[70].set(9);
    grid.cells[71].set(8);
    grid.cells[73].set(3);
    grid.cells[75].set(2);
    grid.cells[76].set(9);
    grid.cells[77].set(1);
    grid.cells[78].set(7);
    assert(grid@.cells =~= grid_of(easy_digits()));
    grid
}

/// The digits of the grid of `load_hard`, row by row.
pub open spec fn hard_digits() -> Seq<nat> {
    seq![
        0, 0, 7, 0, 0, 0, 0, 0, 5,
        5, 0, 0, 4, 2, 0, 0, 0, 1,
        0, 4, 0, 0, 0, 5, 6, 0, 0,
        6, 0, 5, 1, 0, 0, 0, 0, 0,
        0, 0, 0, 0, 0, 8, 0, 0, 0,
        2, 0, 0, 0, 0, 0, 0, 8, 0,
        9, 2, 0, 0, 7, 0, 0, 5, 0,
        0, 7, 3, 0, 0, 6, 0, 0, 0,
        0, 0, 1, 0, 0, 9, 0, 0, 2,
    ]
}

/// The text from which `load_hard` reads its grid.
fn hard_text() -> (text: &'static str)
    ensures
        digits_in(text@) == hard_digits(),
{
    let text = "0 0 7 0 0 0 0 0 5
     5 0 0 4 2 0 0 0 1
     0 4 0 0 0 5 6 0 0
     6 0 5 1 0 0 0 0 0
     0 0 0 0 0 8 0 0 0
     2 0 0 0 0 0 0 8 0
     9 2 0 0 7 0 0 5 0
     0 7 3 0 0 6 0 0 0
     0 0 1 0 0 9 0 0 2";
    proof {
        reveal_strlit("0 0 7 0 0 0 0 0 5
     5 0 0 4 2 0 0 0 1
     0 4 0 0 0 5 6 0 0
     6 0 5 1 0 0 0 0 0
     0 0 0 0 0 8 0 0 0
     2 0 0 0 0 0 0 8 0
     9 2 0 0 7 0 0 5 0
     0 7 3 0 0 6 0 0 0
     0 0 1 0 0 9 0 0 2");
        let chars = text@;
        assert(digits_upto(chars, 17) =~= hard_digits().take(9)) by {
            reveal_with_fuel(digits_upto, 18);
        }
        assert(digits_upto(chars, 40) =~= hard_digits().take(18)) by {
            reveal_with_fuel(digits_upto, 24);
        }
        assert(digits_upto(chars, 63) =~= hard_digits().take(27)) by {
            reveal_with_fuel(digits_upto, 24);
        }
        assert(digits_upto(chars, 86) =~= hard_digits().take(36)) by {
            reveal_with_fuel(digits_upto, 24);
        }
        assert(digits_upto(chars, 109) =~= hard_digits().take(45)) by {
            reveal_with_fuel(digits_upto, 24);
        }
        assert(digits_upto(chars, 132) =~= hard_digits().take(54)) by {
            reveal_with_fuel(digits_upto, 24);
        }
        assert(digits_upto(chars, 155) =~= hard_digits().take(63)) by {
            reveal_with_fuel(digits_upto, 24);
        }
        assert(digits_upto(chars, 178) =~= hard_digits().take(72)) by {
            reveal_with_fuel(digits_upto, 24);
        }
        assert(digits_upto(chars, 201) =~= hard_digits().take(81)) by {
            reveal_with_fuel(digits_upto, 24);
        }
        assert(digits_upto(chars, 201) =~= hard_digits()) by {
            reveal_with_fuel(digits_upto, 1);
        }
        lemma_digits_upto(chars, 201);
        assert(chars.take(201) =~= chars);
    }
    text
}

/// A grid with few digits given.
pub fn load_hard() -> (grid: Sudoku)
    ensures
        grid.wf(),
        grid@.rules.len() == 0,
        grid@.cells == grid_of(hard_digits()),
{
    Sudoku::from_str(hard_text()).unwrap()
}

/// The digits of the grid of `load_hard2`, row by row.
pub open spec fn hard2_digits() -> Seq<nat> {
    seq![
        1, 0, 7, 6, 4, 9, 3, 0, 2,
        2, 0, 0, 3, 7, 5, 0, 1, 6,
        3, 0, 6, 8, 2, 1, 4, 0, 0,
        0, 1, 0, 0, 9, 6, 7, 3, 8,
        7, 6, 3, 0, 1, 8, 0, 4, 9,
        0, 0, 0, 0, 3, 7, 6, 0, 1,
        6, 7, 0, 1, 5, 3, 0, 0, 4,
        8, 3, 1, 9, 6, 0, 0, 0, 0,
        0, 0, 0, 7, 8, 0, 1, 6, 3,
    ]
}

/// The text from which `load_hard2` reads its grid.
fn hard2_text() -> (text: &'static str)
    ensures
        digits_in(text@) == hard2_digits(),
{
    let text = " 1 0 7 | 6 4 9 | 3 0 2
      2 0 0 | 3 7 5 | 0 1 6
      3 0 6 | 8 2 1 | 4 0 0
     -------+-------+-------
      0 1 0 | 0 9 6 | 7 3 8
      7 6 3 | 0 1 8 | 0 4 9
      0 0 0 | 0 3 7 | 6 0 1
     -------+-------+-------
      6 7 0 | 1 5 3 | 0 0 4
      8 3 1 | 9 6 0 | 0 0 0
      0 0 0 | 7 8 0 | 1 6 3";
    proof {
        reveal_strlit(" 1 0 7 | 6 4 9 | 3 0 2
      2 0 0 | 3 7 5 | 0 1 6
      3 0 6 | 8 2 1 | 4 0 0
     -------+-------+-------
      0 1 0 | 0 9 6 | 7 3 8
      7 6 3 | 0 1 8 | 0 4 9
      0 0 0 | 0 3 7 | 6 0 1
     -------+-------+-------
      6 7 0 | 1 5 3 | 0 0 4
      8 3 1 | 9 6 0 | 0 0 0
      0 0 0 | 7 8 0 | 1 6 3");
        let chars = text@;
        assert(digits_upto(chars, 22) =~= hard2_digits().take(9)) by {
            reveal_with_fuel(digits_upto, 23);
        }
        assert(digits_upto(chars, 50) =~= hard2_digits().take(18)) by {
            reveal_with_fuel(digits_upto, 29);
        }
        assert(digits_upto(chars, 78) =~= hard2_digits().take(27)) by {
            reveal_with_fuel(digits_upto, 29);
        }
        assert(digits_upto(chars, 135) =~= hard2_digits().take(36)) by {
            reveal_with_fuel(digits_upto, 58);
        }
        assert(digits_upto(chars, 163) =~= hard2_digits().take(45)) by {
            reveal_with_fuel(digits_upto, 29);
        }
        assert(digits_upto(chars, 191) =~= hard2_digits().take(54)) by {
            reveal_with_fuel(digits_upto, 29);
        }
        assert(digits_upto(chars, 248) =~= hard2_digits().take(63)) by {
            reveal_with_fuel(digits_upto, 58);
        }
        assert(digits_upto(chars, 276) =~= hard2_digits().take(72)) by {
            reveal_with_fuel(digits_upto, 29);
        }
        assert(digits_upto(chars, 304) =~= hard2_digits().take(81)) by {
            reveal_with_fuel(digits_upto, 29);
        }
        assert(digits_upto(chars, 304) =~= hard2_digits()) by {
            reveal_with_fuel(digits_upto, 1);
        }
        lemma_digits_upto(chars, 304);
        assert(chars.take(304) =~= chars);
    }
    text
}

/// A grid that is nearly complete, read from a text with dividers.
pub fn load_hard2() -> (grid: Sudoku)
    ensures
        grid.wf(),
        grid@.rules.len() == 0,
        grid@.cells == grid_of(hard2_digits()),
{
    Sudoku::from_str(hard2_text()).unwrap()
}

/// The digits of the grid of `load_expert`, row by row.
pub open spec fn expert_digits() -> Seq<nat> {
    seq![
        0, 4, 0, 9, 0, 0, 0, 0, 7,
        1, 9, 0, 6, 0, 0, 0, 0, 4,
        5, 0, 0, 0, 0, 0, 0, 1, 0,
        0, 8, 0, 0, 3, 0, 0, 7, 0,
        2, 0, 0, 0, 0, 4, 5, 0, 8,
        0, 0, 0, 5, 0, 0, 0, 0, 0,
        0, 0, 0, 0, 0, 0, 0, 2, 0,
        0, 0, 0, 0, 0, 0, 3, 4, 0,
        0, 7, 0, 0, 0, 6, 0, 0, 1,
    ]
}

/// The text from which `load_expert` reads its grid.
fn expert_text() -> (text: &'static str)
    ensures
        digits_in(text@) == expert_digits(),
{
    let text = "0 4 0 9 0 0 0 0 7
     1 9 0 6 0 0 0 0 4
     5 0 0 0 0 0 0 1 0
     0 8 0 0 3 0 0 7 0
     2 0 0 0 0 4 5 0 8
     0 0 0 5 0 0 0 0 0
     0 0 0 0 0 0 0 2 0
     0 0 0 0 0 0 3 4 0
     0 7 0 0 0 6 0 0 1";
    proof {
        reveal_strlit("0 4 0 9 0 0 0 0 7
     1 9 0 6 0 0 0 0 4
     5 0 0 0 0 0 0 1 0
     0 8 0 0 3 0 0 7 0
     2 0 0 0 0 4 5 0 8
     0 0 0 5 0 0 0 0 0
     0 0 0 0 0 0 0 2 0
     0 0 0 0 0 0 3 4 0
     0 7 0 0 0 6 0 0 1");
        let chars = text@;
        assert(digits_upto(chars, 17) =~= expert_digits().take(9)) by {
            reveal_with_fuel(digits_upto, 18);
        }
        assert(digits_upto(chars, 40) =~= expert_digits().take(18)) by {
            reveal_with_fuel(digits_upto, 24);
        }
        assert(digits_upto(chars, 63) =~= expert_digits().take(27)) by {
            reveal_with_fuel(digits_upto, 24);
        }
        assert(digits_upto(chars, 86) =~= expert_digits().take(36)) by {
            reveal_with_fuel(digits_upto, 24);
        }
        assert(digits_upto(chars, 109) =~= expert_digits().take(45)) by {
            reveal_with_fuel(digits_upto, 24);
        }
        assert(digits_upto(chars, 132) =~= expert_digits().take(54)) by {
            reveal_with_fuel(digits_upto, 24);
        }
        assert(digits_upto(chars, 155) =~= expert_digits().take(63)) by {
            reveal_with_fuel(digits_upto, 24);
        }
        assert(digits_upto(chars, 178) =~= expert_digits().take(72)) by {
            reveal_with_fuel(digits_upto, 24);
        }
        assert(digits_upto(chars, 201) =~= expert_digits().take(81)) by {
            reveal_with_fuel(digits_upto, 24);
        }
        assert(digits_upto(chars, 201) =~= expert_digits()) by {
            reveal_with_fuel(digits_upto, 1);
        }
        lemma_digits_upto(chars, 201);
        assert(chars.take(201) =~= chars);
    }
    text
}

/// A grid with very few digits given.
pub fn load_expert() -> (grid: Sudoku)
    ensures
        grid.wf(),
        grid@.rules.len() == 0,
        grid@.cells == grid_of(expert_digits()),
{
    Sudoku::from_str(expert_text()).unwrap()
}

} // verus!
