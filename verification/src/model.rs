//! The mathematical model of propagation: what a rule is, and what a sweep
//! of the rules over the grid computes.

use vstd::prelude::*;

use crate::cell::CellView;

verus! {

/// The number of passes without a commit after which a run gives up.
pub const PATIENCE: u8 = 3;

/// What a rule does, as functions of its scratch state and of the cells it
/// is shown. The scratch state is a sequence of counters.
pub struct RuleModel {
    /// Whether the cell at the second index bears on the cell at the first.
    pub related: spec_fn(int, int) -> bool,
    /// The scratch state with which the evaluation of a target starts.
    pub begin: spec_fn(Seq<nat>) -> Seq<nat>,
    /// The scratch state and the target after one related cell was
    /// considered; the arguments are the scratch state, the target and the
    /// other cell.
    pub consider: spec_fn(Seq<nat>, CellView, CellView) -> (Seq<nat>, CellView),
    /// The target after every other cell was considered.
    pub end: spec_fn(Seq<nat>, CellView) -> CellView,
}

/// The scratch states after every rule began the evaluation of a target.
pub open spec fn begin_all(rules: Seq<RuleModel>, scratch: Seq<Seq<nat>>) -> Seq<Seq<nat>> {
    Seq::new(rules.len(), |k: int| (rules[k].begin)(scratch[k]))
}

/// The scratch states and the target after the first `k` rules, in list
/// order, looked at the cell `other` that stands at index `o`, for the target
/// at index `t`. A rule to which the two indices are unrelated is skipped.
pub open spec fn consider_all(
    rules: Seq<RuleModel>,
    scratch: Seq<Seq<nat>>,
    target: CellView,
    other: CellView,
    t: int,
    o: int,
    k: nat,
) -> (Seq<Seq<nat>>, CellView)
    decreases k,
{
    if k == 0 {
        (scratch, target)
    } else {
        let (s, c) = consider_all(rules, scratch, target, other, t, o, (k - 1) as nat);
        if (rules[k - 1].related)(t, o) {
            let (s1, c1) = (rules[k - 1].consider)(s[k - 1], c, other);
            (s.update(k - 1, s1), c1)
        } else {
            (s, c)
        }
    }
}

/// The scratch states and the target at index `t` after the cells at the
/// indices below `o` were considered in ascending order, the target itself
/// left out. The other cells are read from `cells` as they stood when the
/// evaluation of the target began.
pub open spec fn scan(
    rules: Seq<RuleModel>,
    scratch: Seq<Seq<nat>>,
    cells: Seq<CellView>,
    t: int,
    o: nat,
) -> (Seq<Seq<nat>>, CellView)
    decreases o,
{
    if o == 0 {
        (scratch, cells[t])
    } else {
        let (s, c) = scan(rules, scratch, cells, t, (o - 1) as nat);
        if o - 1 != t {
            consider_all(rules, s, c, cells[o - 1], t, o - 1, rules.len())
        } else {
            (s, c)
        }
    }
}

/// The target after the first `k` rules, in list order, drew their
/// conclusions.
pub open spec fn end_all(
    rules: Seq<RuleModel>,
    scratch: Seq<Seq<nat>>,
    target: CellView,
    k: nat,
) -> CellView
    decreases k,
{
    if k == 0 {
        target
    } else {
        (rules[k - 1].end)(scratch[k - 1], end_all(rules, scratch, target, (k - 1) as nat))
    }
}

/// The scratch states and the grid after the target at index `t` was
/// evaluated: every rule begins, every other cell is considered, every rule
/// ends. Only the target changes.
pub open spec fn visit(
    rules: Seq<RuleModel>,
    scratch: Seq<Seq<nat>>,
    cells: Seq<CellView>,
    t: int,
) -> (Seq<Seq<nat>>, Seq<CellView>) {
    let (s, c) = scan(rules, begin_all(rules, scratch), cells, t, cells.len());
    (s, cells.update(t, end_all(rules, s, c, rules.len())))
}

/// The scratch states and the grid after the targets at the indices below
/// `t` were evaluated in ascending order, each on the grid that the one before
/// left.
pub open spec fn sweep(
    rules: Seq<RuleModel>,
    scratch: Seq<Seq<nat>>,
    cells: Seq<CellView>,
    t: nat,
) -> (Seq<Seq<nat>>, Seq<CellView>)
    decreases t,
{
    if t == 0 {
        (scratch, cells)
    } else {
        let (s, c) = sweep(rules, scratch, cells, (t - 1) as nat);
        visit(rules, s, c, t - 1)
    }
}

/// The grid after the commit step ran on every cell.
pub open spec fn commit_all(cells: Seq<CellView>) -> Seq<CellView> {
    Seq::new(cells.len(), |i: int| cells[i].commit())
}

/// How many of the first `n` cells the commit step commits.
pub open spec fn forced_count(cells: Seq<CellView>, n: nat) -> nat
    decreases n,
{
    if n == 0 {
        0
    } else {
        forced_count(cells, (n - 1) as nat) + cells[n - 1].progress()
    }
}

/// How many of the first `n` cells are undecided.
pub open spec fn pending(cells: Seq<CellView>, n: nat) -> nat
    decreases n,
{
    if n == 0 {
        0
    } else {
        pending(cells, (n - 1) as nat) + if cells[n - 1].value == 0 {
            1nat
        } else {
            0nat
        }
    }
}

/// Whether every cell is committed.
pub open spec fn solved(cells: Seq<CellView>) -> bool {
    forall|i: int| 0 <= i < cells.len() ==> (#[trigger] cells[i]).value != 0
}

/// Every cell that was committed in `before` is the same cell in `after`.
pub open spec fn keeps_committed(before: Seq<CellView>, after: Seq<CellView>) -> bool {
    &&& after.len() == before.len()
    &&& forall|i: int|
        0 <= i < before.len() && (#[trigger] before[i]).value != 0 ==> after[i] == before[i]
}

/// Every cell of the sequence is well formed.
pub open spec fn cells_wf(cells: Seq<CellView>) -> bool {
    forall|i: int| 0 <= i < cells.len() ==> (#[trigger] cells[i]).wf()
}

/// At most `n` of the first `n` cells are undecided.
pub proof fn lemma_pending_bound(cells: Seq<CellView>, n: nat)
    ensures
        pending(cells, n) <= n,
    decreases n,
{
    if n > 0 {
        lemma_pending_bound(cells, (n - 1) as nat);
    }
}

/// None of the first `n` cells is undecided exactly when each of them is
/// committed.
pub proof fn lemma_pending_zero(cells: Seq<CellView>, n: nat)
    ensures
        pending(cells, n) == 0 <==> forall|i: int| 0 <= i < n ==> (#[trigger] cells[i]).value != 0,
    decreases n,
{
    if n > 0 {
        lemma_pending_zero(cells, (n - 1) as nat);
        if pending(cells, n) == 0 {
            assert forall|i: int| 0 <= i < n implies (#[trigger] cells[i]).value != 0 by {
                if i < n - 1 {
                } else {
                    assert(cells[n - 1].value != 0);
                }
            }
        } else {
            if cells[n - 1].value != 0 {
                assert(pending(cells, (n - 1) as nat) != 0);
            }
        }
    }
}

/// Where committed cells are kept, no more cells are undecided than before.
pub proof fn lemma_pending_kept(before: Seq<CellView>, after: Seq<CellView>, n: nat)
    requires
        keeps_committed(before, after),
        n <= before.len(),
    ensures
        pending(after, n) <= pending(before, n),
    decreases n,
{
    if n > 0 {
        lemma_pending_kept(before, after, (n - 1) as nat);
        assert(before[n - 1].value != 0 ==> after[n - 1] == before[n - 1]);
    }
}

/// The commit step turns exactly the cells it counts from undecided to
/// committed.
pub proof fn lemma_pending_commit(cells: Seq<CellView>, n: nat)
    requires
        cells_wf(cells),
        n <= cells.len(),
    ensures
        pending(commit_all(cells), n) + forced_count(cells, n) == pending(cells, n),
    decreases n,
{
    if n > 0 {
        lemma_pending_commit(cells, (n - 1) as nat);
        let c = cells[n - 1];
        assert(c.wf());
        assert(commit_all(cells)[n - 1] == c.commit());
        if c.forced() {
            assert(c.candidates.contains(c.candidates.choose()));
            if c.value != 0 {
                assert(c.candidates.len() == 0);
            }
        }
    }
}

/// Where a run stands between two passes.
pub struct Progress {
    /// The grid.
    pub cells: Seq<CellView>,
    /// The scratch state of each rule.
    pub scratch: Seq<Seq<nat>>,
    /// How many passes so far committed nothing.
    pub stalls: nat,
    /// How many cells were committed so far.
    pub total: nat,
}

/// One pass: a sweep over every target, then the commit step on every cell.
/// A pass that commits nothing counts as a stall.
pub open spec fn pass(rules: Seq<RuleModel>, p: Progress) -> Progress {
    let (s, c) = sweep(rules, p.scratch, p.cells, p.cells.len());
    let n = forced_count(c, c.len());
    Progress {
        cells: commit_all(c),
        scratch: s,
        stalls: if n == 0 {
            p.stalls + 1
        } else {
            p.stalls
        },
        total: p.total + n,
    }
}

/// Where a run stands after `k` passes.
pub open spec fn passes(rules: Seq<RuleModel>, p: Progress, k: nat) -> Progress
    decreases k,
{
    if k == 0 {
        p
    } else {
        pass(rules, passes(rules, p, (k - 1) as nat))
    }
}

/// Whether a run stops here: the grid is solved, or too many passes stalled.
pub open spec fn halted(p: Progress) -> bool {
    solved(p.cells) || p.stalls >= PATIENCE
}

/// A run from `p` stops after exactly `k` passes: it is halted then and was
/// not halted before.
pub open spec fn halts_after(rules: Seq<RuleModel>, p: Progress, k: nat) -> bool {
    &&& halted(passes(rules, p, k))
    &&& forall|j: nat| j < k ==> !halted(#[trigger] passes(rules, p, j))
}

/// A run from `p` stops after exactly `k` passes and leaves the grid `cells`
/// and the scratch states `scratch`, having committed `total` cells.
pub open spec fn runs_to(
    rules: Seq<RuleModel>,
    p: Progress,
    k: nat,
    cells: Seq<CellView>,
    scratch: Seq<Seq<nat>>,
    total: nat,
) -> bool {
    &&& halts_after(rules, p, k)
    &&& passes(rules, p, k).cells == cells
    &&& passes(rules, p, k).scratch == scratch
    &&& passes(rules, p, k).total == total
}

/// The state from which a run starts.
pub open spec fn start(cells: Seq<CellView>, scratch: Seq<Seq<nat>>) -> Progress {
    Progress { cells, scratch, stalls: 0, total: 0 }
}

} // verus!
