//! What holds of the two families of rules, and of a run as a whole.

use vstd::prelude::*;

use crate::cell::{lemma_commit_idempotent, lemma_forced_choice, CellView};
use crate::model::{
    begin_all, cells_wf, commit_all, consider_all, end_all, halted, halts_after, keeps_committed,
    pass, passes, scan, start, sweep, visit, Progress, RuleModel,
};
use crate::rules::{exclusion, first_unique, related, single_option, tally, unique_to, Group};

verus! {

/// The target is the cell it was, perhaps with fewer candidates.
spec fn narrowed(before: CellView, after: CellView) -> bool {
    &&& after.value == before.value
    &&& after.wf()
    &&& forall|v: nat| after.candidates.contains(v) ==> before.candidates.contains(v)
}

proof fn lemma_exclusion_consider(
    group: Group,
    s: Seq<Seq<nat>>,
    c: CellView,
    other: CellView,
    t: int,
    o: int,
)
    requires
        c.wf(),
    ensures
        ({
            let after = consider_all(seq![exclusion(group)], s, c, other, t, o, 1).1;
            &&& narrowed(c, after)
            &&& c.value != 0 ==> after == c
            &&& related(group, t, o) && other.value != 0 ==> !after.candidates.contains(other.value)
        }),
{
    reveal_with_fuel(consider_all, 2);
    if c.value != 0 {
        assert(c.shut(other.value) =~= c);
    }
}

proof fn lemma_exclusion_scan(group: Group, s: Seq<Seq<nat>>, cells: Seq<CellView>, t: int, n: nat)
    requires
        cells.len() == 81,
        cells_wf(cells),
        0 <= t < 81,
        n <= 81,
    ensures
        ({
            let after = scan(seq![exclusion(group)], s, cells, t, n).1;
            &&& narrowed(cells[t], after)
            &&& cells[t].value != 0 ==> after == cells[t]
            &&& forall|o: int|
                0 <= o < n && o != t && related(group, t, o) && (#[trigger] cells[o]).value != 0
                    ==> !after.candidates.contains(cells[o].value)
        }),
    decreases n,
{
    assert(cells[t].wf());
    if n > 0 {
        lemma_exclusion_scan(group, s, cells, t, (n - 1) as nat);
        let (s1, c1) = scan(seq![exclusion(group)], s, cells, t, (n - 1) as nat);
        if n - 1 != t {
            lemma_exclusion_consider(group, s1, c1, cells[n - 1], t, n - 1);
        }
    }
}

proof fn lemma_exclusion_visit(group: Group, s: Seq<Seq<nat>>, cells: Seq<CellView>, t: int)
    requires
        cells.len() == 81,
        cells_wf(cells),
        0 <= t < 81,
    ensures
        ({
            let after = visit(seq![exclusion(group)], s, cells, t).1;
            &&& after == cells.update(t, after[t])
            &&& narrowed(cells[t], after[t])
            &&& cells[t].value != 0 ==> after[t] == cells[t]
            &&& forall|o: int|
                0 <= o < 81 && o != t && related(group, t, o) && (#[trigger] cells[o]).value != 0
                    ==> !after[t].candidates.contains(cells[o].value)
        }),
{
    let rules = seq![exclusion(group)];
    lemma_exclusion_scan(group, begin_all(rules, s), cells, t, 81);
    reveal_with_fuel(end_all, 2);
}

/// Where the grid stands after the first `n` targets of a sweep of one
/// exclusion rule.
spec fn swept(group: Group, before: Seq<CellView>, after: Seq<CellView>, n: nat) -> bool {
    &&& after.len() == 81
    &&& forall|i: int| 0 <= i < 81 ==> narrowed(before[i], #[trigger] after[i])
    &&& forall|i: int| 0 <= i < 81 && before[i].value != 0 ==> #[trigger] after[i] == before[i]
    &&& forall|i: int, j: int|
        0 <= i < n && 0 <= j < 81 && i != j && related(group, i, j) && before[j].value != 0
            ==> !(#[trigger] after[i]).candidates.contains((#[trigger] before[j]).value)
}

proof fn lemma_exclusion_sweep(group: Group, s: Seq<Seq<nat>>, cells: Seq<CellView>, n: nat)
    requires
        cells.len() == 81,
        cells_wf(cells),
        n <= 81,
    ensures
        swept(group, cells, sweep(seq![exclusion(group)], s, cells, n).1, n),
    decreases n,
{
    let rules = seq![exclusion(group)];
    if n > 0 {
        lemma_exclusion_sweep(group, s, cells, (n - 1) as nat);
        let (s1, c1) = sweep(rules, s, cells, (n - 1) as nat);
        assert(cells_wf(c1)) by {
            assert forall|i: int| 0 <= i < c1.len() implies (#[trigger] c1[i]).wf() by {
                assert(narrowed(cells[i], c1[i]));
            }
        }
        lemma_exclusion_visit(group, s1, c1, n - 1);
        let c2 = visit(rules, s1, c1, n - 1).1;
        assert forall|i: int| 0 <= i < 81 implies narrowed(cells[i], #[trigger] c2[i]) by {
            assert(narrowed(cells[i], c1[i]));
        }
        assert forall|i: int| 0 <= i < 81 && cells[i].value != 0 implies #[trigger] c2[i] == cells[i] by {
            assert(c1[i] == cells[i]);
        }
        assert forall|i: int, j: int|
            0 <= i < n && 0 <= j < 81 && i != j && related(group, i, j) && cells[j].value != 0
            implies !(#[trigger] c2[i]).candidates.contains((#[trigger] cells[j]).value) by {
            assert(narrowed(cells[j], c1[j]));
            if i == n - 1 {
                assert(c1[j].value != 0);
            } else {
                assert(c2[i] == c1[i]);
                assert(!c1[i].candidates.contains(cells[j].value));
            }
        }
    } else {
        assert forall|i: int| 0 <= i < 81 implies narrowed(cells[i], #[trigger] cells[i]) by {
            assert(cells[i].wf());
        }
    }
}

/// The cells that `origin` had committed are kept, and no cell that was
/// undecided in `origin` holds a digit that a related cell of `origin` was
/// committed to.
spec fn stable(group: Group, origin: Seq<CellView>, cells: Seq<CellView>) -> bool {
    &&& cells.len() == 81
    &&& cells_wf(cells)
    &&& keeps_committed(origin, cells)
    &&& forall|i: int, j: int|
        0 <= i < 81 && 0 <= j < 81 && i != j && related(group, i, j) && origin[j].value != 0
            && origin[i].value == 0 ==> (#[trigger] cells[i]).value != (#[trigger] origin[j]).value
}

/// No cell that was undecided in `origin` has a candidate that a related
/// cell of `origin` was committed to.
spec fn excluded(group: Group, origin: Seq<CellView>, cells: Seq<CellView>) -> bool {
    forall|i: int, j: int|
        0 <= i < 81 && 0 <= j < 81 && i != j && related(group, i, j) && origin[j].value != 0
            && origin[i].value == 0 ==> !(#[trigger] cells[i]).candidates.contains(
            (#[trigger] origin[j]).value,
        )
}

proof fn lemma_exclusion_pass(group: Group, origin: Seq<CellView>, p: Progress)
    requires
        origin.len() == 81,
        stable(group, origin, p.cells),
    ensures
        stable(group, origin, pass(seq![exclusion(group)], p).cells),
        excluded(group, origin, pass(seq![exclusion(group)], p).cells),
{
    let rules = seq![exclusion(group)];
    lemma_exclusion_sweep(group, p.scratch, p.cells, 81);
    let c1 = sweep(rules, p.scratch, p.cells, 81).1;
    let c2 = commit_all(c1);
    assert(c2 == pass(rules, p).cells);
    assert forall|i: int| 0 <= i < 81 implies (#[trigger] c2[i]).wf() && (origin[i].value != 0
        ==> c2[i] == origin[i]) by {
        assert(narrowed(p.cells[i], c1[i]));
        lemma_commit_idempotent(c1[i]);
        if origin[i].value != 0 {
            assert(p.cells[i] == origin[i]);
            assert(c1[i] == p.cells[i]);
        }
    }
    assert forall|i: int, j: int|
        0 <= i < 81 && 0 <= j < 81 && i != j && related(group, i, j) && origin[j].value != 0
            && origin[i].value == 0 implies !(#[trigger] c2[i]).candidates.contains(
        (#[trigger] origin[j]).value,
    ) && c2[i].value != origin[j].value by {
        assert(p.cells[j] == origin[j]);
        assert(narrowed(p.cells[i], c1[i]));
        assert(!c1[i].candidates.contains(p.cells[j].value));
        assert(p.cells[i].value != origin[j].value);
        if c1[i].forced() {
            assert(c1[i].candidates.contains(c1[i].candidates.choose()));
        }
    }
}

proof fn lemma_exclusion_passes(group: Group, origin: Seq<CellView>, p: Progress, k: nat)
    requires
        origin.len() == 81,
        stable(group, origin, p.cells),
    ensures
        stable(group, origin, passes(seq![exclusion(group)], p, k).cells),
        k >= 1 ==> excluded(group, origin, passes(seq![exclusion(group)], p, k).cells),
    decreases k,
{
    if k > 0 {
        lemma_exclusion_passes(group, origin, p, (k - 1) as nat);
        lemma_exclusion_pass(group, origin, passes(seq![exclusion(group)], p, (k - 1) as nat));
    }
}

/// Exclusion: let the cell at `j` be committed to a digit and let the cell
/// at `i`, in the same group, be undecided. After one or more passes with
/// the exclusion rule of that kind of group as the only rule, the cell at
/// `i` does not have the digit among its candidates and is not committed to
/// it, and the cell at `j` is as it was.
pub proof fn lemma_exclusion(
    group: Group,
    cells: Seq<CellView>,
    scratch: Seq<Seq<nat>>,
    k: nat,
    i: int,
    j: int,
)
    requires
        cells.len() == 81,
        cells_wf(cells),
        0 <= i < 81,
        0 <= j < 81,
        i != j,
        related(group, i, j),
        cells[j].value != 0,
        cells[i].value == 0,
        k >= 1,
    ensures
        ({
            let after = passes(seq![exclusion(group)], start(cells, scratch), k).cells;
            &&& !after[i].candidates.contains(cells[j].value)
            &&& after[i].value != cells[j].value
            &&& after[j] == cells[j]
        }),
{
    lemma_exclusion_passes(group, cells, start(cells, scratch), k);
}

/// Exclusion, of a whole run: when propagation with one exclusion rule as
/// the only rule has run to its end, no cell that was undecided has as a
/// candidate, or is committed to, a digit that a cell of its group was
/// committed to from the start.
pub proof fn lemma_exclusion_run(
    group: Group,
    cells: Seq<CellView>,
    scratch: Seq<Seq<nat>>,
    k: nat,
    i: int,
    j: int,
)
    requires
        cells.len() == 81,
        cells_wf(cells),
        0 <= i < 81,
        0 <= j < 81,
        i != j,
        related(group, i, j),
        cells[j].value != 0,
        cells[i].value == 0,
        halts_after(seq![exclusion(group)], start(cells, scratch), k),
    ensures
        ({
            let after = passes(seq![exclusion(group)], start(cells, scratch), k).cells;
            &&& !after[i].candidates.contains(cells[j].value)
            &&& after[i].value != cells[j].value
        }),
{
    if k == 0 {
        assert(passes(seq![exclusion(group)], start(cells, scratch), 0) == start(cells, scratch));
        assert(cells[i].value != 0);
    } else {
        lemma_exclusion(group, cells, scratch, k, i, j);
    }
}

proof fn lemma_single_consider(
    group: Group,
    s: Seq<Seq<nat>>,
    c: CellView,
    other: CellView,
    t: int,
    o: int,
)
    requires
        s.len() == 1,
    ensures
        ({
            let after = consider_all(seq![single_option(group)], s, c, other, t, o, 1);
            &&& after.1 == c
            &&& after.0.len() == 1
            &&& after.0[0] == if related(group, t, o) {
                tally(s[0], other)
            } else {
                s[0]
            }
        }),
{
    reveal_with_fuel(consider_all, 2);
}

/// Digit `w` is open in no undecided cell below index `n` that is related
/// to the target at `t`.
spec fn unseen(group: Group, cells: Seq<CellView>, t: int, w: nat, n: nat) -> bool {
    forall|o: int|
        0 <= o < n && o != t && related(group, t, o) && (#[trigger] cells[o]).value == 0
            ==> !cells[o].candidates.contains(w)
}

proof fn lemma_single_scan(group: Group, s: Seq<Seq<nat>>, cells: Seq<CellView>, t: int, n: nat)
    requires
        cells.len() == 81,
        0 <= t < 81,
        n <= 81,
    ensures
        ({
            let rules = seq![single_option(group)];
            let after = scan(rules, begin_all(rules, s), cells, t, n);
            &&& after.1 == cells[t]
            &&& after.0.len() == 1
            &&& after.0[0].len() == 10
            &&& forall|w: nat|
                1 <= w <= 9 ==> (after.0[0][w as int] == 0 <==> #[trigger] unseen(group, cells, t, w, n))
        }),
    decreases n,
{
    let rules = seq![single_option(group)];
    if n > 0 {
        lemma_single_scan(group, s, cells, t, (n - 1) as nat);
        let (s1, c1) = scan(rules, begin_all(rules, s), cells, t, (n - 1) as nat);
        let after = scan(rules, begin_all(rules, s), cells, t, n);
        let other = cells[n - 1];
        if n - 1 != t {
            lemma_single_consider(group, s1, c1, other, t, n - 1);
        }
        assert forall|w: nat| 1 <= w <= 9 implies (after.0[0][w as int] == 0 <==> #[trigger] unseen(
            group,
            cells,
            t,
            w,
            n,
        )) by {
            let counted = n - 1 != t && related(group, t, n - 1) && other.value == 0
                && other.candidates.contains(w);
            assert(s1[0][w as int] == 0 <==> unseen(group, cells, t, w, (n - 1) as nat));
            assert(after.0[0][w as int] == 0 <==> s1[0][w as int] == 0 && !counted);
            if unseen(group, cells, t, w, n) {
                assert(unseen(group, cells, t, w, (n - 1) as nat));
                assert(cells[n - 1] == other);
            }
        }
    }
}

proof fn lemma_first_unique(counts: Seq<nat>, target: CellView, from: nat, v: nat)
    requires
        1 <= from <= v <= 9,
        unique_to(counts, target, v),
        forall|w: nat| from <= w < v ==> !unique_to(counts, target, w),
    ensures
        first_unique(counts, target, from) == v,
    decreases v - from,
{
    if from < v {
        lemma_first_unique(counts, target, from + 1, v);
    }
}

/// Single option: let digit `v` be open in the cell at `t` and in no other
/// cell of its group, and let every smaller digit that is open in the cell
/// be open in another cell of the group too. Then evaluating the cell with
/// the single-option rule of that kind of group as the only rule leaves `v`
/// as its only candidate and changes no other cell, and the commit step
/// that follows commits the cell to `v`.
pub proof fn lemma_single_option(
    group: Group,
    cells: Seq<CellView>,
    scratch: Seq<Seq<nat>>,
    t: int,
    v: nat,
)
    requires
        cells.len() == 81,
        cells_wf(cells),
        0 <= t < 81,
        1 <= v <= 9,
        cells[t].candidates.contains(v),
        forall|o: int|
            0 <= o < 81 && o != t && related(group, t, o) ==> !(#[trigger] cells[o]).candidates.contains(v),
        forall|w: nat|
            1 <= w < v && cells[t].candidates.contains(w) ==> exists|o: int|
                0 <= o < 81 && o != t && related(group, t, o) && (#[trigger] cells[o]).candidates.contains(w),
    ensures
        ({
            let after = visit(seq![single_option(group)], scratch, cells, t).1;
            &&& after == cells.update(t, cells[t].single(v))
            &&& after[t].value == 0
            &&& after[t].candidates == Set::<nat>::empty().insert(v)
            &&& after[t].commit() == cells[t].set(v)
            &&& after[t].progress() == 1
            &&& commit_all(after)[t].value == v
        }),
{
    let rules = seq![single_option(group)];
    let target = cells[t];
    lemma_single_scan(group, scratch, cells, t, 81);
    let swept = scan(rules, begin_all(rules, scratch), cells, t, 81);
    let counts = swept.0[0];
    assert(target.wf());
    assert(unseen(group, cells, t, v, 81));
    assert forall|w: nat| 1 <= w < v implies !unique_to(counts, target, w) by {
        if target.candidates.contains(w) {
            let o = choose|o: int|
                0 <= o < 81 && o != t && related(group, t, o) && (#[trigger] cells[o]).candidates.contains(w);
            assert(cells[o].wf());
            assert(!unseen(group, cells, t, w, 81));
        }
    }
    lemma_first_unique(counts, target, 1, v);
    reveal_with_fuel(end_all, 2);
    let after = visit(rules, scratch, cells, t).1;
    assert(after[t] == target.single(v));
    lemma_forced_choice(after[t], v);
    assert(after[t].commit() =~= target.set(v));
}

/// A run stops after one number of passes only: what `solve` returns is
/// determined by the grid and the rules it starts from.
pub proof fn lemma_run_unique(rules: Seq<RuleModel>, p: Progress, k1: nat, k2: nat)
    requires
        halts_after(rules, p, k1),
        halts_after(rules, p, k2),
    ensures
        k1 == k2,
{
    if k1 < k2 {
        assert(!halted(passes(rules, p, k1)));
    }
    if k2 < k1 {
        assert(!halted(passes(rules, p, k2)));
    }
}

} // verus!
