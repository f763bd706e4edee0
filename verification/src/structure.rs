//! The grid, the commit step and the contract between the grid and its rules.

use vstd::prelude::*;

pub use crate::cell::{Cell, CellView};
use crate::model::{
    begin_all, cells_wf, commit_all, consider_all, end_all, forced_count, halted, keeps_committed,
    lemma_pending_bound, lemma_pending_commit, lemma_pending_kept, lemma_pending_zero, passes,
    pending, runs_to, scan, solved, start, sweep, visit, RuleModel, PATIENCE,
};

verus! {

/// A deduction rule. For each target cell the grid calls `begin`, then
/// `consider` once for every other cell to which `predicate` relates the
/// target, then `end`. A rule changes nothing but its own scratch state and
/// the target it is handed, and it leaves a committed target alone.
pub trait Rule {
    /// The invariant of the rule's own state.
    spec fn wf(&self) -> bool;

    /// What the rule does. No method changes it.
    spec fn model(&self) -> RuleModel;

    /// The scratch state, as counters.
    spec fn scratch(&self) -> Seq<nat>;

    /// How many more cells the rule can consider before its scratch state
    /// is exhausted.
    spec fn room(&self) -> nat;

    /// Resets the scratch state for a new target, and makes room for every
    /// other cell of the grid.
    fn begin(&mut self)
        requires
            old(self).wf(),
        ensures
            final(self).wf(),
            final(self).model() == old(self).model(),
            final(self).scratch() == (old(self).model().begin)(old(self).scratch()),
            final(self).room() >= 80,
    ;

    /// Whether the cell at `origin` bears on the cell at `target`.
    fn predicate(&self, target: usize, origin: usize) -> (related: bool)
        requires
            self.wf(),
        ensures
            related == (self.model().related)(target as int, origin as int),
    ;

    /// Takes one related cell into account.
    fn consider(&mut self, target: &mut Cell, other: Cell)
        requires
            old(self).wf(),
            old(self).room() >= 1,
            old(target).wf(),
            other.wf(),
        ensures
            final(self).wf(),
            final(self).model() == old(self).model(),
            final(self).scratch() == (old(self).model().consider)(
                old(self).scratch(),
                old(target)@,
                other@,
            ).0,
            final(target)@ == (old(self).model().consider)(
                old(self).scratch(),
                old(target)@,
                other@,
            ).1,
            final(self).room() + 1 >= old(self).room(),
            final(target).wf(),
            old(target)@.value != 0 ==> final(target)@ == old(target)@,
    ;

    /// Draws the rule's conclusion for the target.
    fn end(&self, target: &mut Cell)
        requires
            self.wf(),
            old(target).wf(),
        ensures
            final(target)@ == (self.model().end)(self.scratch(), old(target)@),
            final(target).wf(),
            old(target)@.value != 0 ==> final(target)@ == old(target)@,
    ;
}

/// Something that can turn what it has deduced into committed digits.
pub trait Solver {
    /// What must hold of a value before `solve` and still holds after it.
    spec fn ready(&self) -> bool;

    /// Commits what is decided and returns how many cells were newly
    /// committed.
    fn solve(&mut self) -> (n: u8)
        requires
            old(self).ready(),
        ensures
            final(self).ready(),
    ;
}

/// The one way in which reading a grid fails: the text does not hold exactly
/// 81 digits.
#[derive(Debug)]
pub struct ParseSudokuError {}

/// What a grid is, mathematically: its 81 cells, and for each rule of its
/// list what the rule does and the scratch state it is in.
pub struct GridView {
    pub cells: Seq<CellView>,
    pub rules: Seq<RuleModel>,
    pub scratch: Seq<Seq<nat>>,
}

/// The grid: 81 cells addressed by a linear index (row `index / 9`, column
/// `index % 9`), and the rules that propagation applies, in order.
pub struct Sudoku {
    pub cells: [Cell; 81],
    pub rules: Vec<Box<dyn Rule>>,
}

impl View for Sudoku {
    type V = GridView;

    open spec fn view(&self) -> GridView {
        GridView {
            cells: Seq::new(81, |i: int| self.cells[i]@),
            rules: Seq::new(self.rules.len() as nat, |k: int| self.rules[k].model()),
            scratch: Seq::new(self.rules.len() as nat, |k: int| self.rules[k].scratch()),
        }
    }
}

impl Sudoku {
    /// Every cell and every rule is well formed.
    pub open spec fn wf(&self) -> bool {
        &&& forall|i: int| 0 <= i < 81 ==> (#[trigger] self.cells[i]).wf()
        &&& forall|k: int| 0 <= k < self.rules.len() ==> (#[trigger] self.rules[k]).wf()
    }

    /// Every rule has room for `n` more cells.
    spec fn roomy(&self, n: nat) -> bool {
        forall|k: int| 0 <= k < self.rules.len() ==> (#[trigger] self.rules[k]).room() >= n
    }

    /// Whether all 81 cells are committed.
    pub fn is_solved(&self) -> (done: bool)
        ensures
            done == solved(self@.cells),
    {
        let mut count: usize = 0;
        let mut i: usize = 0;
        while i < 81
            invariant
                i <= 81,
                count + pending(self@.cells, i as nat) == i,
            decreases 81 - i,
        {
            if self.cells[i].value() != 0 {
                count = count + 1;
            }
            i = i + 1;
        }
        proof {
            lemma_pending_zero(self@.cells, 81);
        }
        count == 81
    }

    /// The grids that branch off this one. Branching is not provided: there
    /// are none.
    pub fn fork(&self) -> (branches: Vec<Sudoku>)
        ensures
            branches@.len() == 0,
    {
        Vec::new()
    }

    fn begin_all(&mut self)
        requires
            old(self).wf(),
        ensures
            final(self).wf(),
            final(self).roomy(80),
            final(self)@.rules == old(self)@.rules,
            final(self)@.cells == old(self)@.cells,
            final(self)@.scratch == begin_all(old(self)@.rules, old(self)@.scratch),
    {
        let mut k: usize = 0;
        while k < self.rules.len()
            invariant
                k <= self.rules.len(),
                self.rules.len() == old(self).rules.len(),
                self.cells == old(self).cells,
                self.wf(),
                forall|j: int| 0 <= j < self.rules.len() ==> (#[trigger] self.rules[j]).model() == old(self).rules[j].model(),
                forall|j: int| k <= j < self.rules.len() ==> (#[trigger] self.rules[j]).scratch() == old(self).rules[j].scratch(),
                forall|j: int|
                    0 <= j < k ==> (#[trigger] self.rules[j]).scratch() == (old(self).rules[j].model().begin)(
                        old(self).rules[j].scratch(),
                    ),
                forall|j: int| 0 <= j < k ==> (#[trigger] self.rules[j]).room() >= 80,
            decreases self.rules.len() - k,
        {
            self.rules[k].begin();
            k = k + 1;
        }
        assert(self@.rules =~= old(self)@.rules);
        assert(self@.cells =~= old(self)@.cells);
        assert(self@.scratch =~= begin_all(old(self)@.rules, old(self)@.scratch));
    }

    fn consider_all(&mut self, target: usize, other: usize)
        requires
            old(self).wf(),
            target != other ==> old(self).roomy(1),
            target < 81,
            other < 81,
        ensures
            final(self).wf(),
            final(self)@.rules == old(self)@.rules,
            target == other ==> final(self).rules == old(self).rules,
            forall|k: int|
                0 <= k < final(self).rules.len() ==> (#[trigger] final(self).rules[k]).room() + 1 >= old(
                    self,
                ).rules[k].room(),
            target == other ==> final(self)@.cells == old(self)@.cells && final(self)@.scratch == old(
                self,
            )@.scratch,
            target != other ==> final(self)@.scratch == consider_all(
                old(self)@.rules,
                old(self)@.scratch,
                old(self)@.cells[target as int],
                old(self)@.cells[other as int],
                target as int,
                other as int,
                old(self)@.rules.len(),
            ).0,
            target != other ==> final(self)@.cells == old(self)@.cells.update(
                target as int,
                consider_all(
                    old(self)@.rules,
                    old(self)@.scratch,
                    old(self)@.cells[target as int],
                    old(self)@.cells[other as int],
                    target as int,
                    other as int,
                    old(self)@.rules.len(),
                ).1,
            ),
            keeps_committed(old(self)@.cells, final(self)@.cells),
    {
        let copy = self.cells[other];
        let ghost rules = self@.rules;
        let ghost scratch = self@.scratch;
        let ghost target_cell = self@.cells[target as int];
        let mut k: usize = 0;
        while k < self.rules.len()
            invariant
                k <= self.rules.len(),
                target < 81,
                other < 81,
                copy.wf(),
                copy@ == old(self)@.cells[other as int],
                rules == old(self)@.rules,
                scratch == old(self)@.scratch,
                target_cell == old(self)@.cells[target as int],
                self.rules.len() == old(self).rules.len(),
                self.wf(),
                self@.rules == rules,
                forall|i: int| 0 <= i < 81 && i != target ==> self.cells[i] == old(self).cells[i],
                forall|j: int|
                    0 <= j < self.rules.len() ==> (#[trigger] self.rules[j]).room() + 1 >= old(self).rules[j].room(),
                forall|j: int|
                    k <= j < self.rules.len() ==> (#[trigger] self.rules[j]).room() == old(self).rules[j].room(),
                target != other ==> old(self).roomy(1),
                target == other ==> self.rules == old(self).rules,
                target == other ==> self.cells == old(self).cells && self@.scratch == scratch,
                target != other ==> self@.scratch == consider_all(
                    rules,
                    scratch,
                    target_cell,
                    copy@,
                    target as int,
                    other as int,
                    k as nat,
                ).0,
                target != other ==> self.cells[target as int]@ == consider_all(
                    rules,
                    scratch,
                    target_cell,
                    copy@,
                    target as int,
                    other as int,
                    k as nat,
                ).1,
                target_cell.value != 0 ==> self.cells[target as int]@ == target_cell,
            decreases self.rules.len() - k,
        {
            let ghost before = self@.scratch;
            if target != other && self.rules[k].predicate(target, other) {
                self.rules[k].consider(&mut self.cells[target], copy);
                assert(self@.scratch =~= before.update(k as int, self.rules[k as int].scratch()));
            }
            assert(self@.rules =~= rules);
            k = k + 1;
        }
        assert(self@.cells =~= old(self)@.cells.update(target as int, self.cells[target as int]@));
        if target == other {
            assert(self@.cells =~= old(self)@.cells);
        }
    }

    fn end_all(&mut self, target: usize)
        requires
            old(self).wf(),
            target < 81,
        ensures
            final(self).wf(),
            final(self).rules == old(self).rules,
            final(self)@.cells == old(self)@.cells.update(
                target as int,
                end_all(
                    old(self)@.rules,
                    old(self)@.scratch,
                    old(self)@.cells[target as int],
                    old(self)@.rules.len(),
                ),
            ),
            keeps_committed(old(self)@.cells, final(self)@.cells),
    {
        let ghost target_cell = self@.cells[target as int];
        let mut k: usize = 0;
        while k < self.rules.len()
            invariant
                k <= self.rules.len(),
                target < 81,
                self.rules == old(self).rules,
                target_cell == old(self)@.cells[target as int],
                self.wf(),
                forall|i: int| 0 <= i < 81 && i != target ==> self.cells[i] == old(self).cells[i],
                self.cells[target as int]@ == end_all(
                    old(self)@.rules,
                    old(self)@.scratch,
                    target_cell,
                    k as nat,
                ),
                target_cell.value != 0 ==> self.cells[target as int]@ == target_cell,
            decreases self.rules.len() - k,
        {
            self.rules[k].end(&mut self.cells[target]);
            k = k + 1;
        }
        assert(self@.cells =~= old(self)@.cells.update(target as int, self.cells[target as int]@));
    }

    /// Evaluates one target: every rule begins, every other cell is shown
    /// to the rules that relate it to the target, every rule ends.
    fn visit(&mut self, target: usize)
        requires
            old(self).wf(),
            target < 81,
        ensures
            final(self).wf(),
            final(self)@.rules == old(self)@.rules,
            final(self)@.scratch == visit(
                old(self)@.rules,
                old(self)@.scratch,
                old(self)@.cells,
                target as int,
            ).0,
            final(self)@.cells == visit(
                old(self)@.rules,
                old(self)@.scratch,
                old(self)@.cells,
                target as int,
            ).1,
            keeps_committed(old(self)@.cells, final(self)@.cells),
    {
        let ghost rules = self@.rules;
        let ghost cells = self@.cells;
        self.begin_all();
        let ghost begun = self@.scratch;
        let mut other: usize = 0;
        while other < 81
            invariant
                other <= 81,
                target < 81,
                rules == old(self)@.rules,
                cells == old(self)@.cells,
                begun == begin_all(rules, old(self)@.scratch),
                self.wf(),
                self@.rules == rules,
                self.roomy(
                    (81 - other - if other <= target {
                        1int
                    } else {
                        0int
                    }) as nat,
                ),
                self@.scratch == scan(rules, begun, cells, target as int, other as nat).0,
                self@.cells == cells.update(
                    target as int,
                    scan(rules, begun, cells, target as int, other as nat).1,
                ),
                keeps_committed(cells, self@.cells),
            decreases 81 - other,
        {
            let ghost stage = self@.cells;
            self.consider_all(target, other);
            proof {
                assert(keeps_committed(cells, self@.cells)) by {
                    assert forall|i: int| 0 <= i < cells.len() && (#[trigger] cells[i]).value != 0 implies self@.cells[i] == cells[i] by {
                        assert(stage[i] == cells[i]);
                    }
                }
            }
            other = other + 1;
        }
        self.end_all(target);
        proof {
            let mid = scan(rules, begun, cells, target as int, 81).1;
            assert(self@.cells =~= cells.update(
                target as int,
                end_all(rules, scan(rules, begun, cells, target as int, 81).0, mid, rules.len()),
            ));
            assert(keeps_committed(cells, self@.cells)) by {
                assert forall|i: int| 0 <= i < cells.len() && (#[trigger] cells[i]).value != 0 implies self@.cells[i] == cells[i] by {
                    assert(cells.update(target as int, mid)[i] == cells[i]);
                }
            }
        }
    }

    /// Evaluates every target, in ascending order.
    fn sweep(&mut self)
        requires
            old(self).wf(),
        ensures
            final(self).wf(),
            final(self)@.rules == old(self)@.rules,
            final(self)@.scratch == sweep(old(self)@.rules, old(self)@.scratch, old(self)@.cells, 81).0,
            final(self)@.cells == sweep(old(self)@.rules, old(self)@.scratch, old(self)@.cells, 81).1,
            keeps_committed(old(self)@.cells, final(self)@.cells),
    {
        let mut target: usize = 0;
        while target < 81
            invariant
                target <= 81,
                self.wf(),
                self@.rules == old(self)@.rules,
                self@.scratch == sweep(
                    old(self)@.rules,
                    old(self)@.scratch,
                    old(self)@.cells,
                    target as nat,
                ).0,
                self@.cells == sweep(
                    old(self)@.rules,
                    old(self)@.scratch,
                    old(self)@.cells,
                    target as nat,
                ).1,
                keeps_committed(old(self)@.cells, self@.cells),
            decreases 81 - target,
        {
            let ghost stage = self@.cells;
            self.visit(target);
            proof {
                assert forall|i: int| 0 <= i < 81 && (#[trigger] old(self)@.cells[i]).value != 0 implies self@.cells[i] == old(self)@.cells[i] by {
                    assert(stage[i] == old(self)@.cells[i]);
                }
            }
            target = target + 1;
        }
    }

    /// Runs the commit step on every cell and counts the cells it commits.
    fn commit_all(&mut self) -> (n: u8)
        requires
            old(self).wf(),
        ensures
            final(self).wf(),
            final(self).rules == old(self).rules,
            final(self)@.cells == commit_all(old(self)@.cells),
            n == forced_count(old(self)@.cells, 81),
    {
        let mut n: u8 = 0;
        let mut i: usize = 0;
        while i < 81
            invariant
                i <= 81,
                n <= i,
                self.wf(),
                self.rules == old(self).rules,
                n == forced_count(old(self)@.cells, i as nat),
                forall|j: int| i <= j < 81 ==> self.cells[j] == old(self).cells[j],
                forall|j: int| 0 <= j < i ==> (#[trigger] self.cells[j])@ == old(self).cells[j]@.commit(),
            decreases 81 - i,
        {
            let step = self.cells[i].solve();
            n = n + step;
            i = i + 1;
        }
        assert(self@.cells =~= commit_all(old(self)@.cells));
        n
    }
}

impl Default for Sudoku {
    /// The empty grid: every cell undecided with all digits open, and no
    /// rules.
    fn default() -> (grid: Sudoku)
        ensures
            grid.wf(),
            grid@.cells == Seq::new(81, |i: int| CellView::fresh()),
            grid@.rules.len() == 0,
    {
        let grid = Sudoku { cells: [Cell::default();81], rules: Vec::new() };
        assert(grid@.cells =~= Seq::new(81, |i: int| CellView::fresh()));
        grid
    }
}

impl Solver for Sudoku {
    open spec fn ready(&self) -> bool {
        self.wf()
    }

    /// Propagates until the grid is solved or three passes committed
    /// nothing, and returns how many cells were committed. A pass sweeps
    /// the rules over every target and then runs the commit step on every
    /// cell. The run stops after at most three passes more than there were
    /// undecided cells.
    fn solve(&mut self) -> (n: u8)
        ensures
            final(self)@.rules == old(self)@.rules,
            keeps_committed(old(self)@.cells, final(self)@.cells),
            n + pending(final(self)@.cells, 81) <= pending(old(self)@.cells, 81),
            exists|k: nat|
                k <= pending(old(self)@.cells, 81) + PATIENCE && k <= PATIENCE * 81 && #[trigger] runs_to(
                    old(self)@.rules,
                    start(old(self)@.cells, old(self)@.scratch),
                    k,
                    final(self)@.cells,
                    final(self)@.scratch,
                    n as nat,
                ),
    {
        let mut sum: u8 = 0;
        let mut iterations: u8 = 0;
        let ghost rules = self@.rules;
        let ghost origin = start(self@.cells, self@.scratch);
        let ghost mut k: nat = 0;
        proof {
            lemma_pending_bound(self@.cells, 81);
        }
        while !self.is_solved() && iterations < PATIENCE
            invariant
                self.wf(),
                rules == old(self)@.rules,
                origin == start(old(self)@.cells, old(self)@.scratch),
                self@.rules == rules,
                iterations <= PATIENCE,
                passes(rules, origin, k).cells == self@.cells,
                passes(rules, origin, k).scratch == self@.scratch,
                passes(rules, origin, k).stalls == iterations,
                passes(rules, origin, k).total == sum,
                forall|j: nat| j < k ==> !halted(#[trigger] passes(rules, origin, j)),
                keeps_committed(old(self)@.cells, self@.cells),
                sum + pending(self@.cells, 81) <= pending(old(self)@.cells, 81),
                k + pending(self@.cells, 81) <= pending(old(self)@.cells, 81) + iterations,
                pending(old(self)@.cells, 81) <= 81,
            decreases pending(self@.cells, 81) + PATIENCE - iterations,
        {
            let ghost before = self@.cells;
            self.sweep();
            let ghost swept = self@.cells;
            let solved = self.commit_all();
            proof {
                lemma_pending_kept(before, swept, 81);
                assert(cells_wf(swept));
                lemma_pending_commit(swept, 81);
                assert(keeps_committed(old(self)@.cells, self@.cells)) by {
                    assert forall|i: int|
                        0 <= i < 81 && (#[trigger] old(self)@.cells[i]).value != 0 implies self@.cells[i] == old(
                        self,
                    )@.cells[i] by {
                        assert(before[i] == old(self)@.cells[i]);
                        assert(swept[i] == before[i]);
                        assert(swept[i].wf());
                        assert(self@.cells[i] == swept[i].commit());
                    }
                }
                assert(!halted(passes(rules, origin, k)));
                k = k + 1;
            }
            sum = sum + solved;
            if solved == 0 {
                iterations = iterations + 1;
            }
        }
        proof {
            assert(halted(passes(rules, origin, k)));
            assert(runs_to(rules, origin, k, self@.cells, self@.scratch, sum as nat));
        }
        sum
    }
}

} // verus!
