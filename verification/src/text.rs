//! Reading a grid from text and writing it as text.
//!
//! A text is read by its decimal digits alone: there must be 81 of them, one
//! for each cell in order, `0` for a cell that is not given. A grid is written
//! as nine rows of two characters per cell, with ` |` between the squares
//! of a row and a ruled line between the squares of a column.

use vstd::prelude::*;
use vstd::string::StringExecFns;

use crate::cell::CellView;
use crate::model::{cells_wf, lemma_pending_zero, pending, solved};
use crate::structure::{ParseSudokuError, Sudoku};

verus! {

/// Whether the character is one of the ten decimal digits.
pub open spec fn is_digit(c: char) -> bool {
    '0' as u32 <= c as u32 <= '9' as u32
}

/// The number that a decimal digit stands for.
pub open spec fn digit_of(c: char) -> nat {
    (c as u32 - '0' as u32) as nat
}

/// The decimal digit that stands for a number below ten.
pub open spec fn digit_char(d: nat) -> char {
    (d + '0' as u32) as char
}

/// The decimal digits of a text, in order, as numbers. Every other
/// character is passed over.
pub open spec fn digits_in(text: Seq<char>) -> Seq<nat>
    decreases text.len(),
{
    if text.len() == 0 {
        Seq::empty()
    } else if is_digit(text.last()) {
        digits_in(text.drop_last()).push(digit_of(text.last()))
    } else {
        digits_in(text.drop_last())
    }
}

/// The digits among the first `n` characters of a text, in order.
pub open spec fn digits_upto(text: Seq<char>, n: nat) -> Seq<nat>
    decreases n,
{
    if n == 0 {
        Seq::empty()
    } else if is_digit(text[n - 1]) {
        digits_upto(text, (n - 1) as nat).push(digit_of(text[n - 1]))
    } else {
        digits_upto(text, (n - 1) as nat)
    }
}

/// Counting the digits from the front gives the digits of the text.
pub proof fn lemma_digits_upto(text: Seq<char>, n: nat)
    requires
        n <= text.len(),
    ensures
        digits_upto(text, n) == digits_in(text.take(n as int)),
    decreases n,
{
    if n > 0 {
        lemma_digits_upto(text, (n - 1) as nat);
        assert(text.take(n as int).drop_last() =~= text.take(n - 1));
    } else {
        assert(text.take(0).len() == 0);
    }
}

/// The cell that a digit of the text gives: undecided with every digit open
/// for `0`, committed to the digit otherwise.
pub open spec fn given(d: nat) -> CellView {
    if d == 0 {
        CellView::fresh()
    } else {
        CellView::fresh().set(d)
    }
}

/// The 81 cells that a sequence of digits gives.
pub open spec fn grid_of(digits: Seq<nat>) -> Seq<CellView> {
    Seq::new(81, |i: int| given(digits[i]))
}

/// What is written for a cell: a space and the digit where the cell is
/// committed, two spaces where it is not.
pub open spec fn cell_text(value: nat) -> Seq<char> {
    if value == 0 {
        seq![' ', ' ']
    } else {
        seq![' ', digit_char(value)]
    }
}

/// What is written between the cell at index `i` and the one before it: a
/// line break before each row but the first, with a ruled line after every
/// third row, and ` |` after every third cell within a row.
pub open spec fn separator(i: int) -> Seq<char> {
    if i == 0 {
        Seq::empty()
    } else if i % 9 == 0 {
        if i % 27 == 0 {
            "\n"@ + "-------+-------+-------\n"@
        } else {
            "\n"@
        }
    } else if i % 3 == 0 {
        " |"@
    } else {
        Seq::empty()
    }
}

/// The text of the first `n` cells.
pub open spec fn render_upto(cells: Seq<CellView>, n: nat) -> Seq<char>
    decreases n,
{
    if n == 0 {
        Seq::empty()
    } else {
        render_upto(cells, (n - 1) as nat) + separator(n - 1) + cell_text(cells[n - 1].value)
    }
}

/// The text of a grid.
pub open spec fn render(cells: Seq<CellView>) -> Seq<char> {
    render_upto(cells, 81)
}

/// The digits of the committed cells among the first `n`, in order.
pub open spec fn committed_digits(cells: Seq<CellView>, n: nat) -> Seq<nat>
    decreases n,
{
    if n == 0 {
        Seq::empty()
    } else if cells[n - 1].value != 0 {
        committed_digits(cells, (n - 1) as nat).push(cells[n - 1].value)
    } else {
        committed_digits(cells, (n - 1) as nat)
    }
}

/// The digits of two texts joined are the digits of the first and then
/// those of the second.
pub proof fn lemma_digits_concat(a: Seq<char>, b: Seq<char>)
    ensures
        digits_in(a + b) == digits_in(a) + digits_in(b),
    decreases b.len(),
{
    if b.len() == 0 {
        assert(a + b =~= a);
        assert(digits_in(a) + digits_in(b) =~= digits_in(a));
    } else {
        lemma_digits_concat(a, b.drop_last());
        assert((a + b).drop_last() =~= a + b.drop_last());
        assert((a + b).last() == b.last());
        if is_digit(b.last()) {
            assert(digits_in(a + b) =~= digits_in(a) + digits_in(b));
        }
    }
}

/// A text without a digit character has no digits.
pub proof fn lemma_digits_none(a: Seq<char>)
    requires
        forall|i: int| 0 <= i < a.len() ==> !is_digit(#[trigger] a[i]),
    ensures
        digits_in(a) == Seq::<nat>::empty(),
    decreases a.len(),
{
    if a.len() > 0 {
        lemma_digits_none(a.drop_last());
    }
}

/// No separator holds a digit.
pub proof fn lemma_separator_digits(i: int)
    ensures
        digits_in(separator(i)) == Seq::<nat>::empty(),
{
    reveal_strlit("\n");
    reveal_strlit("-------+-------+-------\n");
    reveal_strlit(" |");
    lemma_digits_none(separator(i));
}

/// The text of a cell holds the cell's digit where the cell is committed,
/// and no digit where it is not.
pub proof fn lemma_cell_text_digits(value: nat)
    requires
        value <= 9,
    ensures
        digits_in(cell_text(value)) == if value == 0 {
            Seq::<nat>::empty()
        } else {
            seq![value]
        },
{
    let t = cell_text(value);
    assert(t.drop_last() =~= seq![' ']);
    assert(seq![' '].drop_last() =~= Seq::<char>::empty());
    assert(digits_in(seq![' ']) =~= Seq::<nat>::empty()) by {
        lemma_digits_none(seq![' ']);
    }
    if value == 0 {
        lemma_digits_none(t);
    } else {
        assert(is_digit(t.last()));
        assert(digit_of(t.last()) == value);
        assert(digits_in(t) =~= seq![value]);
    }
}

/// The digits of a grid's text are the digits of its committed cells.
pub proof fn lemma_render_digits(cells: Seq<CellView>, n: nat)
    requires
        cells_wf(cells),
        n <= cells.len(),
    ensures
        digits_in(render_upto(cells, n)) == committed_digits(cells, n),
        committed_digits(cells, n).len() + pending(cells, n) == n,
    decreases n,
{
    if n > 0 {
        lemma_render_digits(cells, (n - 1) as nat);
        let head = render_upto(cells, (n - 1) as nat);
        let sep = separator(n - 1);
        let tail = cell_text(cells[n - 1].value);
        assert(cells[n - 1].wf());
        lemma_digits_concat(head, sep);
        lemma_digits_concat(head + sep, tail);
        lemma_separator_digits(n - 1);
        lemma_cell_text_digits(cells[n - 1].value);
        assert(digits_in(render_upto(cells, n)) =~= committed_digits(cells, n));
    }
}

/// The text of a grid depends on the digits of its cells alone.
pub proof fn lemma_render_by_value(a: Seq<CellView>, b: Seq<CellView>, n: nat)
    requires
        n <= a.len(),
        n <= b.len(),
        forall|i: int| 0 <= i < n ==> (#[trigger] a[i]).value == b[i].value,
    ensures
        render_upto(a, n) == render_upto(b, n),
    decreases n,
{
    if n > 0 {
        lemma_render_by_value(a, b, (n - 1) as nat);
        assert(a[n - 1].value == b[n - 1].value);
    }
}

/// In a grid whose first `n` cells are committed, the digits of these cells
/// are the digits of their text, one for one.
pub proof fn lemma_committed_digits_index(cells: Seq<CellView>, n: nat, i: int)
    requires
        n <= cells.len(),
        forall|j: int| 0 <= j < n ==> (#[trigger] cells[j]).value != 0,
        0 <= i < n,
    ensures
        committed_digits(cells, n).len() == n,
        committed_digits(cells, n)[i] == cells[i].value,
    decreases n,
{
    assert(cells[n - 1].value != 0);
    if n > 1 {
        lemma_committed_digits_index(cells, (n - 1) as nat, if i < n - 1 {
            i
        } else {
            0
        });
    } else {
        assert(committed_digits(cells, 0).len() == 0);
    }
}

/// Writing and reading back: the text of a grid has 81 digits exactly when
/// the grid is solved, and then the grid that is read from the text is written
/// as the same text again.
pub proof fn lemma_round_trip(cells: Seq<CellView>)
    requires
        cells.len() == 81,
        cells_wf(cells),
    ensures
        digits_in(render(cells)).len() == 81 <==> solved(cells),
        solved(cells) ==> render(grid_of(digits_in(render(cells)))) == render(cells),
{
    lemma_render_digits(cells, 81);
    lemma_pending_zero(cells, 81);
    if solved(cells) {
        let back = grid_of(digits_in(render(cells)));
        assert forall|i: int| 0 <= i < 81 implies (#[trigger] back[i]).value == cells[i].value by {
            lemma_committed_digits_index(cells, 81, i);
        }
        lemma_render_by_value(back, cells, 81);
    }
}

/// The digits of a text, in order.
fn collect_digits(s: &str) -> (digits: Vec<u8>)
    ensures
        digits@.len() == digits_in(s@).len(),
        forall|i: int| 0 <= i < digits@.len() ==> digits@[i] as nat == #[trigger] digits_in(s@)[i],
        forall|i: int| 0 <= i < digits@.len() ==> #[trigger] digits@[i] <= 9,
{
    let mut digits: Vec<u8> = Vec::new();
    for c in it: s.chars()
        invariant
            it.seq() == s@,
            digits@.len() == digits_in(s@.take(it.index() as int)).len(),
            forall|i: int|
                0 <= i < digits@.len() ==> digits@[i] as nat == #[trigger] digits_in(
                    s@.take(it.index() as int),
                )[i],
            forall|i: int| 0 <= i < digits@.len() ==> #[trigger] digits@[i] <= 9,
    {
        proof {
            assert(s@.take(it.index() + 1).drop_last() =~= s@.take(it.index() as int));
        }
        let code: u32 = c as u32;
        if code >= 48 && code <= 57 {
            digits.push((code - 48) as u8);
        }
    }
    proof {
        assert(s@.take(s@.len() as int) =~= s@);
    }
    digits
}

/// The two characters that are written for a cell with the given digit.
fn cell_str(value: u8) -> (text: &'static str)
    requires
        value <= 9,
    ensures
        text@ == cell_text(value as nat),
{
    proof {
        reveal_strlit("  ");
        reveal_strlit(" 1");
        reveal_strlit(" 2");
        reveal_strlit(" 3");
        reveal_strlit(" 4");
        reveal_strlit(" 5");
        reveal_strlit(" 6");
        reveal_strlit(" 7");
        reveal_strlit(" 8");
        reveal_strlit(" 9");
    }
    let text = match value {
        0 => "  ",
        1 => " 1",
        2 => " 2",
        3 => " 3",
        4 => " 4",
        5 => " 5",
        6 => " 6",
        7 => " 7",
        8 => " 8",
        _ => " 9",
    };
    assert(text@ =~= cell_text(value as nat));
    text
}

impl Sudoku {
    /// The grid as text: nine rows of two characters per cell, ` |` after
    /// the third and the sixth cell of a row, a ruled line after the third
    /// and the sixth row, and no line break at the end.
    pub fn to_string(&self) -> (text: String)
        requires
            self.wf(),
        ensures
            text@ == render(self@.cells),
    {
        let mut out = String::new();
        let mut index: usize = 0;
        while index < 81
            invariant
                index <= 81,
                self.wf(),
                out@ == render_upto(self@.cells, index as nat),
            decreases 81 - index,
        {
            let ghost before = out@;
            if index != 0 {
                if index % 9 == 0 {
                    out.append("\n");
                    if index % 27 == 0 {
                        out.append("-------+-------+-------\n");
                    }
                } else if index % 3 == 0 {
                    out.append(" |");
                }
            }
            assert(out@ =~= before + separator(index as int));
            assert(self.cells[index as int].wf());
            out.append(cell_str(self.cells[index].value()));
            index = index + 1;
        }
        out
    }
}

impl std::str::FromStr for Sudoku {
    type Err = ParseSudokuError;

    /// Reads a grid from the digits of a text. The text must hold exactly
    /// 81 digits; the cell at each position is committed to its digit, or
    /// left undecided with every digit open where the digit is `0`. The grid
    /// has no rules yet.
    fn from_str(s: &str) -> (parsed: Result<Sudoku, ParseSudokuError>)
        ensures
            parsed is Ok <==> digits_in(s@).len() == 81,
            parsed matches Ok(grid) ==> grid.wf() && grid@.rules.len() == 0 && grid@.cells == grid_of(
                digits_in(s@),
            ),
    {
        let xs = collect_digits(s);
        if xs.len() != 81 {
            return Err(ParseSudokuError {  });
        }
        let mut grid = Sudoku::default();
        assert forall|i: int| 0 <= i < 81 implies (#[trigger] grid.cells[i])@ == CellView::fresh() by {
            assert(grid@.cells[i] == CellView::fresh());
        }
        let mut index: usize = 0;
        while index < 81
            invariant
                index <= 81,
                xs@.len() == 81,
                xs@.len() == digits_in(s@).len(),
                forall|i: int| 0 <= i < 81 ==> xs@[i] as nat == #[trigger] digits_in(s@)[i],
                forall|i: int| 0 <= i < 81 ==> #[trigger] xs@[i] <= 9,
                grid.wf(),
                grid.rules@.len() == 0,
                forall|i: int| 0 <= i < index ==> (#[trigger] grid.cells[i])@ == given(digits_in(s@)[i]),
                forall|i: int| index <= i < 81 ==> (#[trigger] grid.cells[i])@ == CellView::fresh(),
            decreases 81 - index,
        {
            let value = xs[index];
            if value != 0 {
                grid.cells[index].set(value);
            }
            index = index + 1;
        }
        assert(grid@.cells =~= grid_of(digits_in(s@)));
        Ok(grid)
    }
}

} // verus!
