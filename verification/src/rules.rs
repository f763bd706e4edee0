//! The two families of rules: exclusion and single option, each over rows,
//! columns or 3×3 squares.

use vstd::prelude::*;

use crate::cell::{Cell, CellView};
use crate::model::RuleModel;
use crate::structure::Rule;

verus! {

/// The three kinds of group in which a digit may occur once.
#[derive(Clone, Copy, Debug)]
pub enum Group {
    Row,
    Col,
    Square,
}

/// Whether the cells at the linear indices `a` and `b` lie in the same group
/// of the given kind: the row is `index / 9`, the column `index % 9`, the
/// square is the pair of `index / 27` and `index % 9 / 3`.
pub open spec fn related(group: Group, a: int, b: int) -> bool {
    match group {
        Group::Row => a / 9 == b / 9,
        Group::Col => a % 9 == b % 9,
        Group::Square => a / 27 == b / 27 && a % 9 / 3 == b % 9 / 3,
    }
}

fn same_row(a: usize, b: usize) -> (same: bool)
    ensures
        same == related(Group::Row, a as int, b as int),
{
    a / 9 == b / 9
}

fn same_col(a: usize, b: usize) -> (same: bool)
    ensures
        same == related(Group::Col, a as int, b as int),
{
    a % 9 == b % 9
}

fn same_square(a: usize, b: usize) -> (same: bool)
    ensures
        same == related(Group::Square, a as int, b as int),
{
    a / 27 == b / 27 && a % 9 / 3 == b % 9 / 3
}

fn same_group(group: Group, a: usize, b: usize) -> (same: bool)
    ensures
        same == related(group, a as int, b as int),
{
    match group {
        Group::Row => same_row(a, b),
        Group::Col => same_col(a, b),
        Group::Square => same_square(a, b),
    }
}

/// What an exclusion rule does: a digit committed in a related cell is
/// removed from the target's candidates. It keeps no scratch state.
pub open spec fn exclusion(group: Group) -> RuleModel {
    RuleModel {
        related: |t: int, o: int| related(group, t, o),
        begin: |s: Seq<nat>| s,
        consider: |s: Seq<nat>, target: CellView, other: CellView|
            (
                s,
                if other.value != 0 {
                    target.shut(other.value)
                } else {
                    target
                },
            ),
        end: |s: Seq<nat>, target: CellView| target,
    }
}

/// The target cannot have a digit that another cell of its group is
/// committed to.
pub struct ExclusionRule {
    group: Group,
}

impl ExclusionRule {
    /// The kind of group the rule works on.
    pub closed spec fn group(&self) -> Group {
        self.group
    }

    /// The exclusion rule over rows.
    pub fn new_row() -> (rule: Self)
        ensures
            rule.wf(),
            rule.group() == Group::Row,
            rule.model() == exclusion(Group::Row),
    {
        ExclusionRule { group: Group::Row }
    }

    /// The exclusion rule over columns.
    pub fn new_col() -> (rule: Self)
        ensures
            rule.wf(),
            rule.group() == Group::Col,
            rule.model() == exclusion(Group::Col),
    {
        ExclusionRule { group: Group::Col }
    }

    /// The exclusion rule over squares.
    pub fn new_square() -> (rule: Self)
        ensures
            rule.wf(),
            rule.group() == Group::Square,
            rule.model() == exclusion(Group::Square),
    {
        ExclusionRule { group: Group::Square }
    }
}

impl Rule for ExclusionRule {
    open spec fn wf(&self) -> bool {
        true
    }

    open spec fn model(&self) -> RuleModel {
        exclusion(self.group())
    }

    open spec fn scratch(&self) -> Seq<nat> {
        Seq::empty()
    }

    open spec fn room(&self) -> nat {
        80
    }

    fn begin(&mut self) {
    }

    fn predicate(&self, target: usize, other: usize) -> (related: bool) {
        same_group(self.group, target, other)
    }

    fn consider(&mut self, target: &mut Cell, other: Cell) {
        if other.value() != 0 {
            target.shut(other.value());
        }
    }

    fn end(&self, target: &mut Cell) {
    }
}

/// The larger of two numbers.
pub open spec fn larger(a: nat, b: nat) -> nat {
    if a >= b {
        a
    } else {
        b
    }
}

/// The largest of the counters for the digits 1 to 9.
pub open spec fn peak(counts: Seq<nat>) -> nat {
    larger(
        counts[1],
        larger(
            counts[2],
            larger(
                counts[3],
                larger(
                    counts[4],
                    larger(counts[5], larger(counts[6], larger(counts[7], larger(counts[8], counts[9])))),
                ),
            ),
        ),
    )
}

/// The counters after an undecided cell was considered: the counter of each
/// digit that the cell has open goes up by one. A committed cell counts for
/// nothing.
pub open spec fn tally(counts: Seq<nat>, other: CellView) -> Seq<nat> {
    if other.value == 0 {
        Seq::new(
            counts.len(),
            |v: int|
                if 1 <= v <= 9 && other.candidates.contains(v as nat) {
                    counts[v] + 1
                } else {
                    counts[v]
                },
        )
    } else {
        counts
    }
}

/// Whether `v` is open in the target and was counted in no other cell.
pub open spec fn unique_to(counts: Seq<nat>, target: CellView, v: nat) -> bool {
    counts[v as int] == 0 && target.candidates.contains(v)
}

/// The least digit from `v` to 9 that is unique to the target, or 10 where
/// there is none.
pub open spec fn first_unique(counts: Seq<nat>, target: CellView, v: nat) -> nat
    decreases 10 - v,
{
    if v > 9 {
        10
    } else if unique_to(counts, target, v) {
        v
    } else {
        first_unique(counts, target, v + 1)
    }
}

/// The target after the single-option conclusion: where a digit is unique to
/// it, the least such digit becomes its only candidate.
pub open spec fn settle(counts: Seq<nat>, target: CellView) -> CellView {
    let v = first_unique(counts, target, 1);
    if v <= 9 {
        target.single(v)
    } else {
        target
    }
}

/// What a single-option rule does: it counts, digit by digit, in how many
/// undecided cells of the target's group the digit is open, and narrows the
/// target to the least digit that only the target can take.
pub open spec fn single_option(group: Group) -> RuleModel {
    RuleModel {
        related: |t: int, o: int| related(group, t, o),
        begin: |s: Seq<nat>| Seq::new(10, |v: int| 0nat),
        consider: |s: Seq<nat>, target: CellView, other: CellView| (tally(s, other), target),
        end: |s: Seq<nat>, target: CellView| settle(s, target),
    }
}

/// The target must take a digit that no other undecided cell of its group
/// can take.
pub struct SingleOptRule {
    options: [u8; 10],
    group: Group,
}

impl SingleOptRule {
    /// The kind of group the rule works on.
    pub closed spec fn group(&self) -> Group {
        self.group
    }

    /// The counter of each digit; the counter at index 0 is not used.
    pub closed spec fn counters(&self) -> Seq<nat> {
        Seq::new(10, |v: int| self.options[v] as nat)
    }

    /// The single-option rule over rows.
    pub fn new_row() -> (rule: Self)
        ensures
            rule.wf(),
            rule.group() == Group::Row,
            rule.model() == single_option(Group::Row),
            rule.counters() == Seq::new(10, |v: int| 0nat),
    {
        SingleOptRule { options: [0;10], group: Group::Row }
    }

    /// The single-option rule over columns.
    pub fn new_col() -> (rule: Self)
        ensures
            rule.wf(),
            rule.group() == Group::Col,
            rule.model() == single_option(Group::Col),
            rule.counters() == Seq::new(10, |v: int| 0nat),
    {
        SingleOptRule { options: [0;10], group: Group::Col }
    }

    /// The single-option rule over squares.
    pub fn new_square() -> (rule: Self)
        ensures
            rule.wf(),
            rule.group() == Group::Square,
            rule.model() == single_option(Group::Square),
            rule.counters() == Seq::new(10, |v: int| 0nat),
    {
        SingleOptRule { options: [0;10], group: Group::Square }
    }
}

impl Rule for SingleOptRule {
    open spec fn wf(&self) -> bool {
        true
    }

    open spec fn model(&self) -> RuleModel {
        single_option(self.group())
    }

    open spec fn scratch(&self) -> Seq<nat> {
        self.counters()
    }

    open spec fn room(&self) -> nat {
        (255 - peak(self.counters())) as nat
    }

    fn begin(&mut self) {
        for i in 0..10usize
            invariant
                self.group == old(self).group,
                forall|j: int| 0 <= j < i ==> self.options[j] == 0,
        {
            self.options[i] = 0;
        }
        assert(self.counters() =~= Seq::new(10, |v: int| 0nat));
    }

    fn predicate(&self, target: usize, other: usize) -> (related: bool) {
        same_group(self.group, target, other)
    }

    fn consider(&mut self, target: &mut Cell, other: Cell) {
        if other.value() == 0 {
            let mut v: u8 = 1;
            while v <= 9
                invariant
                    1 <= v <= 10,
                    self.group == old(self).group,
                    peak(old(self).counters()) <= 254,
                    forall|w: int| v <= w < 10 ==> self.options[w] == old(self).options[w],
                    self.options[0] == old(self).options[0],
                    forall|w: int|
                        1 <= w < v ==> self.options[w] == old(self).options[w] + if other@.candidates.contains(
                            w as nat,
                        ) {
                            1int
                        } else {
                            0int
                        },
                decreases 10 - v,
            {
                if other.is_open(v) {
                    self.options[v as usize] = self.options[v as usize] + 1;
                }
                v = v + 1;
            }
            assert(self.counters() =~= tally(old(self).counters(), other@));
        }
    }

    fn end(&self, target: &mut Cell) {
        let mut v: u8 = 1;
        while v <= 9
            invariant
                1 <= v <= 10,
                target.wf(),
                *target == *old(target),
                first_unique(self.counters(), target@, 1) == first_unique(self.counters(), target@, v as nat),
            decreases 10 - v,
        {
            if self.options[v as usize] == 0 && target.is_open(v) {
                target.single(v);
                return ;
            }
            v = v + 1;
        }
    }
}

} // verus!
