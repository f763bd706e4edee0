//! One grid position: a committed digit, or the set of digits still possible.

use vstd::prelude::*;

use crate::structure::Solver;

verus! {

/// What a cell is, mathematically: the committed digit (`0` while the cell is
/// undecided) and the set of digits that are still open.
#[verifier::ext_equal]
pub struct CellView {
    pub value: nat,
    pub candidates: Set<nat>,
}

impl CellView {
    /// The digit is at most 9, the candidates are digits, and a committed
    /// cell holds no candidates.
    pub open spec fn wf(self) -> bool {
        &&& self.value <= 9
        &&& self.candidates.finite()
        &&& forall|v: nat| self.candidates.contains(v) ==> 1 <= v <= 9
        &&& self.value != 0 ==> self.candidates == Set::<nat>::empty()
    }

    /// Exactly one of the two holds: the cell is committed and has no
    /// candidates, or it is undecided and has at least one.
    pub open spec fn consistent(self) -> bool {
        &&& self.wf()
        &&& self.value != 0 || self.candidates.len() > 0
    }

    /// An undecided cell with every digit open.
    pub open spec fn fresh() -> CellView {
        CellView { value: 0, candidates: Set::new(|v: nat| 1 <= v <= 9) }
    }

    /// The cell committed to `v`.
    pub open spec fn set(self, v: nat) -> CellView {
        CellView { value: v, candidates: Set::empty() }
    }

    /// The cell without the candidate `v`.
    pub open spec fn shut(self, v: nat) -> CellView {
        CellView { value: self.value, candidates: self.candidates.remove(v) }
    }

    /// The cell with the candidate `v` added.
    pub open spec fn open(self, v: nat) -> CellView {
        CellView { value: self.value, candidates: self.candidates.insert(v) }
    }

    /// The cell with `v` as its only candidate.
    pub open spec fn single(self, v: nat) -> CellView {
        CellView { value: self.value, candidates: Set::<nat>::empty().insert(v) }
    }

    /// Whether the cell is down to one candidate.
    pub open spec fn forced(self) -> bool {
        self.candidates.len() == 1
    }

    /// The cell after the commit step: a cell that is down to one candidate
    /// takes it as its digit, any other cell stays as it is.
    pub open spec fn commit(self) -> CellView {
        if self.forced() {
            CellView { value: self.candidates.choose(), candidates: Set::empty() }
        } else {
            self
        }
    }

    /// What the commit step counts for this cell: 1 if it commits, else 0.
    pub open spec fn progress(self) -> nat {
        if self.forced() {
            1
        } else {
            0
        }
    }
}

/// In a cell that is down to one candidate, the commit step picks that
/// candidate.
pub proof fn lemma_forced_choice(c: CellView, v: nat)
    requires
        c.candidates.finite(),
        c.forced(),
        c.candidates.contains(v),
    ensures
        c.candidates.choose() == v,
        c.candidates == Set::<nat>::empty().insert(v),
        c.commit() == (CellView { value: v, candidates: Set::empty() }),
{
    Set::lemma_is_singleton(c.candidates);
    assert(c.candidates.contains(c.candidates.choose()));
    assert(c.candidates =~= Set::<nat>::empty().insert(v));
}

/// The commit step is idempotent: it leaves a committed cell as it is and
/// counts nothing for it, so a second commit step right after the first
/// changes nothing and counts nothing.
pub proof fn lemma_commit_idempotent(c: CellView)
    requires
        c.wf(),
    ensures
        c.value != 0 ==> c.commit() == c && c.progress() == 0,
        c.commit().commit() == c.commit(),
        c.commit().progress() == 0,
        c.commit().wf(),
{
    if c.forced() {
        assert(c.candidates.contains(c.candidates.choose()));
    }
}

/// Every operation keeps a cell in one of its two proper states, committed
/// without candidates or undecided with candidates, but for one case:
/// removing the last candidate of an undecided cell leaves it with neither.
/// Candidates are added to undecided cells only.
pub proof fn lemma_consistency_kept(c: CellView, v: nat)
    requires
        c.wf(),
        1 <= v <= 9,
    ensures
        CellView::fresh().consistent(),
        c.set(v).consistent(),
        c.shut(v).consistent() <==> c.consistent() && !(c.value == 0 && c.candidates
            == Set::<nat>::empty().insert(v)),
        c.value == 0 ==> c.open(v).consistent(),
        c.value == 0 ==> c.single(v).consistent(),
        c.commit().consistent() <==> c.consistent(),
{
    let digits = Set::new(|w: nat| 1 <= w <= 9);
    assert(digits =~= Set::<nat>::empty().insert(1).insert(2).insert(3).insert(4).insert(5).insert(
        6,
    ).insert(7).insert(8).insert(9));
    assert(digits.contains(1));
    if c.value == 0 {
        let only = Set::<nat>::empty().insert(v);
        if c.candidates == only {
            assert(c.shut(v).candidates =~= Set::<nat>::empty());
        } else if c.candidates.len() > 0 {
            if c.shut(v).candidates.len() == 0 {
                assert(c.candidates.contains(c.candidates.choose()));
                assert(c.candidates =~= only);
            }
        } else {
            assert(c.candidates =~= Set::<nat>::empty());
            assert(c.shut(v).candidates =~= Set::<nat>::empty());
        }
    } else {
        assert(c.shut(v).candidates =~= Set::<nat>::empty());
    }
    if c.forced() {
        assert(c.candidates.contains(c.candidates.choose()));
    }
}

/// The candidate set written as a number: digit `v` contributes `2^(v-1)`.
pub open spec fn bitmask(s: Set<nat>) -> nat {
    (if s.contains(1) { 1nat } else { 0 })
    + (if s.contains(2) { 2nat } else { 0 })
    + (if s.contains(3) { 4nat } else { 0 })
    + (if s.contains(4) { 8nat } else { 0 })
    + (if s.contains(5) { 16nat } else { 0 })
    + (if s.contains(6) { 32nat } else { 0 })
    + (if s.contains(7) { 64nat } else { 0 })
    + (if s.contains(8) { 128nat } else { 0 })
    + (if s.contains(9) { 256nat } else { 0 })
}

/// Whether the bit that stands for digit `v` is set in `options`.
spec fn has_bit(options: u16, v: nat) -> bool {
    options & (1u16 << ((v - 1) as u16)) != 0
}

/// The digits below `bound` whose bit is set in `options`.
spec fn digits_below(options: u16, bound: nat) -> Set<nat> {
    Set::new(|v: nat| 1 <= v < bound && has_bit(options, v))
}

proof fn lemma_mask_bits(v: u16, w: u16)
    by (bit_vector)
    requires
        1 <= v <= 9,
        1 <= w <= 9,
    ensures
        ((1u16 << ((v - 1) as u16)) & (1u16 << ((w - 1) as u16)) != 0) == (v == w),
        (1u16 << ((v - 1) as u16)) <= 0x1ff,
{
}

proof fn lemma_clear_bit(o: u16, v: u16, w: u16)
    by (bit_vector)
    requires
        1 <= v <= 9,
        1 <= w <= 9,
    ensures
        ((o & !(1u16 << ((v - 1) as u16))) & (1u16 << ((w - 1) as u16)) != 0) == (v != w && (o & (1u16
            << ((w - 1) as u16)) != 0)),
        o <= 0x1ff ==> (o & !(1u16 << ((v - 1) as u16))) <= 0x1ff,
{
}

proof fn lemma_raise_bit(o: u16, v: u16, w: u16)
    by (bit_vector)
    requires
        1 <= v <= 9,
        1 <= w <= 9,
    ensures
        ((o | (1u16 << ((v - 1) as u16))) & (1u16 << ((w - 1) as u16)) != 0) == (v == w || (o & (1u16
            << ((w - 1) as u16)) != 0)),
        o <= 0x1ff ==> (o | (1u16 << ((v - 1) as u16))) <= 0x1ff,
{
}

proof fn lemma_no_bits(o: u16)
    by (bit_vector)
    requires
        o <= 0x1ff,
        o & (1u16 << 0u16) == 0,
        o & (1u16 << 1u16) == 0,
        o & (1u16 << 2u16) == 0,
        o & (1u16 << 3u16) == 0,
        o & (1u16 << 4u16) == 0,
        o & (1u16 << 5u16) == 0,
        o & (1u16 << 6u16) == 0,
        o & (1u16 << 7u16) == 0,
        o & (1u16 << 8u16) == 0,
    ensures
        o == 0,
{
}

proof fn lemma_zero_has_no_bits(w: u16)
    by (bit_vector)
    ensures
        0u16 & (1u16 << w) == 0,
{
}

proof fn lemma_all_bits(w: u16)
    by (bit_vector)
    requires
        w < 9,
    ensures
        0x1ffu16 & (1u16 << w) != 0,
{
}

proof fn lemma_bits_sum(o: u16)
    by (bit_vector)
    requires
        o <= 0x1ff,
    ensures
        o == (if o & (1u16 << 0u16) != 0 { 1u16 } else { 0 }) + (if o & (1u16 << 1u16) != 0 { 2u16 } else { 0 })
            + (if o & (1u16 << 2u16) != 0 { 4u16 } else { 0 }) + (if o & (1u16 << 3u16) != 0 { 8u16 } else { 0 })
            + (if o & (1u16 << 4u16) != 0 { 16u16 } else { 0 }) + (if o & (1u16 << 5u16) != 0 { 32u16 } else { 0 })
            + (if o & (1u16 << 6u16) != 0 { 64u16 } else { 0 }) + (if o & (1u16 << 7u16) != 0 { 128u16 } else { 0 })
            + (if o & (1u16 << 8u16) != 0 { 256u16 } else { 0 }),
{
}

proof fn lemma_lowest_bit(o: u16, t: u16)
    by (bit_vector)
    requires
        o <= 0x1ff,
        t < 16,
        (o >> t) & 1u16 == 1u16,
    ensures
        t <= 8,
        o & (1u16 << t) != 0,
{
}

/// The digits below `bound + 1` are those below `bound`, with `bound` added
/// when its bit is set.
proof fn lemma_digits_below_step(options: u16, bound: nat)
    requires
        1 <= bound,
    ensures
        digits_below(options, bound).finite(),
        digits_below(options, 1) == Set::<nat>::empty(),
        has_bit(options, bound) ==> digits_below(options, bound + 1) == digits_below(
            options,
            bound,
        ).insert(bound),
        !has_bit(options, bound) ==> digits_below(options, bound + 1) == digits_below(
            options,
            bound,
        ),
        !digits_below(options, bound).contains(bound),
    decreases bound,
{
    assert(digits_below(options, 1) =~= Set::<nat>::empty());
    if bound > 1 {
        lemma_digits_below_step(options, (bound - 1) as nat);
        let prev = digits_below(options, (bound - 1) as nat);
        if has_bit(options, (bound - 1) as nat) {
            assert(digits_below(options, bound) =~= prev.insert((bound - 1) as nat));
        } else {
            assert(digits_below(options, bound) =~= prev);
        }
    }
    if has_bit(options, bound) {
        assert(digits_below(options, bound + 1) =~= digits_below(options, bound).insert(bound));
    } else {
        assert(digits_below(options, bound + 1) =~= digits_below(options, bound));
    }
}

/// A cell: the committed digit, and the open candidates as a bit set in
/// which bit `v - 1` stands for digit `v`.
#[derive(Clone, Copy, Debug)]
pub struct Cell {
    value: u8,
    options: u16,
}

impl View for Cell {
    type V = CellView;

    closed spec fn view(&self) -> CellView {
        CellView { value: self.value as nat, candidates: digits_below(self.options, 10) }
    }
}

impl Cell {
    /// No bit outside the nine candidate positions is set.
    pub closed spec fn canonical(&self) -> bool {
        self.options <= 0x1ff
    }

    /// The cell's model is well formed and its bit set is canonical. Every
    /// constructor establishes this and every method keeps it.
    pub open spec fn wf(&self) -> bool {
        &&& self@.wf()
        &&& self.canonical()
    }

    proof fn lemma_view_finite(&self)
        ensures
            self@.candidates.finite(),
            forall|v: nat| self@.candidates.contains(v) ==> 1 <= v <= 9,
    {
        lemma_digits_below_step(self.options, 10);
    }

    /// A cell whose bit set is zero has no candidates.
    proof fn lemma_no_options(&self)
        requires
            self.options == 0,
        ensures
            self@.candidates == Set::<nat>::empty(),
    {
        assert forall|w: nat| 1 <= w <= 9 implies !has_bit(0u16, w) by {
            lemma_zero_has_no_bits((w - 1) as u16);
        }
        assert(self@.candidates =~= Set::<nat>::empty());
    }

    /// A canonical bit set that stands for no candidate is zero.
    proof fn lemma_no_candidates(&self)
        requires
            self.canonical(),
            self@.candidates == Set::<nat>::empty(),
        ensures
            self.options == 0,
    {
        let o = self.options;
        assert forall|w: nat| 1 <= w <= 9 implies !has_bit(o, w) by {
            assert(!self@.candidates.contains(w));
        }
        assert(!has_bit(o, 1) && !has_bit(o, 2) && !has_bit(o, 3) && !has_bit(o, 4) && !has_bit(
            o,
            5,
        ) && !has_bit(o, 6) && !has_bit(o, 7) && !has_bit(o, 8) && !has_bit(o, 9));
        lemma_no_bits(o);
    }

    /// The bit that stands for digit `value`.
    fn mask(value: u8) -> (m: u16)
        requires
            1 <= value <= 9,
        ensures
            m == 1u16 << ((value - 1) as u16),
            m <= 0x1ff,
            forall|w: nat| 1 <= w <= 9 ==> (#[trigger] has_bit(m, w) <==> w == value),
    {
        let m: u16 = 1u16 << (value - 1);
        proof {
            assert forall|w: nat| 1 <= w <= 9 implies (#[trigger] has_bit(m, w) <==> w == value) by {
                lemma_mask_bits(value as u16, w as u16);
            }
            lemma_mask_bits(value as u16, 1);
        }
        m
    }

    /// Commits the cell to `value` and clears its candidates.
    pub fn set(&mut self, value: u8)
        requires
            1 <= value <= 9,
        ensures
            final(self)@ == old(self)@.set(value as nat),
            final(self).wf(),
            final(self)@.consistent(),
    {
        self.value = value;
        self.options = 0;
        proof {
            self.lemma_view_finite();
            self.lemma_no_options();
        }
    }

    /// Removes `value` from the candidates. Nothing changes where it was
    /// not open, and so nothing changes on a committed cell. An undecided
    /// cell that loses its last candidate is left with neither a digit nor a
    /// candidate.
    pub fn shut(&mut self, value: u8)
        requires
            old(self).wf(),
            1 <= value <= 9,
        ensures
            final(self)@ == old(self)@.shut(value as nat),
            final(self).wf(),
            final(self)@.consistent() <==> old(self)@.consistent() && !(old(self)@.value == 0 && old(
                self,
            )@.candidates == Set::<nat>::empty().insert(value as nat)),
    {
        proof {
            lemma_consistency_kept(self@, value as nat);
        }
        let m = Self::mask(value);
        self.options = self.options & !m;
        proof {
            self.lemma_view_finite();
            let o = old(self).options;
            assert forall|w: nat| 1 <= w <= 9 implies (#[trigger] has_bit(self.options, w) <==> (w != value
                && has_bit(o, w))) by {
                lemma_clear_bit(o, value as u16, w as u16);
            }
            lemma_clear_bit(o, value as u16, 1);
            assert(self@.candidates =~= old(self)@.candidates.remove(value as nat));
            if self.value != 0 {
                assert(self@.candidates =~= Set::<nat>::empty());
            }
        }
    }

    /// Adds `value` to the candidates of an undecided cell.
    pub fn open(&mut self, value: u8)
        requires
            old(self).wf(),
            old(self)@.value == 0,
            1 <= value <= 9,
        ensures
            final(self)@ == old(self)@.open(value as nat),
            final(self).wf(),
            final(self)@.consistent(),
    {
        proof {
            lemma_consistency_kept(self@, value as nat);
        }
        let m = Self::mask(value);
        self.options = self.options | m;
        proof {
            self.lemma_view_finite();
            let o = old(self).options;
            assert forall|w: nat| 1 <= w <= 9 implies (#[trigger] has_bit(self.options, w) <==> (w == value
                || has_bit(o, w))) by {
                lemma_raise_bit(o, value as u16, w as u16);
            }
            lemma_raise_bit(o, value as u16, 1);
            assert(self@.candidates =~= old(self)@.candidates.insert(value as nat));
        }
    }

    /// Leaves `value` as the only candidate of an undecided cell, without
    /// committing it.
    pub fn single(&mut self, value: u8)
        requires
            old(self).wf(),
            old(self)@.value == 0,
            1 <= value <= 9,
        ensures
            final(self)@ == old(self)@.single(value as nat),
            final(self).wf(),
            final(self)@.consistent(),
    {
        proof {
            lemma_consistency_kept(self@, value as nat);
        }
        self.options = 0;
        proof {
            self.lemma_view_finite();
            self.lemma_no_options();
        }
        self.open(value);
    }

    /// Whether `value` is among the candidates.
    pub fn is_open(&self, value: u8) -> (open: bool)
        requires
            1 <= value <= 9,
        ensures
            open == self@.candidates.contains(value as nat),
    {
        let m = Self::mask(value);
        (self.options & m) != 0
    }

    /// The number of open candidates; 0 for a committed cell.
    pub fn num_options(&self) -> (n: u32)
        requires
            self.wf(),
        ensures
            n == self@.candidates.len(),
    {
        let mut n: u32 = 0;
        let mut v: u8 = 1;
        proof {
            lemma_digits_below_step(self.options, 1);
        }
        while v <= 9
            invariant
                1 <= v <= 10,
                n == digits_below(self.options, v as nat).len(),
                n < v,
            decreases 10 - v,
        {
            proof {
                lemma_digits_below_step(self.options, v as nat);
            }
            if self.is_open(v) {
                n = n + 1;
            }
            v = v + 1;
        }
        n
    }

    /// The committed digit, or 0 while the cell is undecided.
    pub fn value(&self) -> (v: u8)
        ensures
            v == self@.value,
    {
        self.value
    }

    /// The candidates as a bit set, bit `v - 1` standing for digit `v`.
    pub fn options(&self) -> (bits: u16)
        requires
            self.wf(),
        ensures
            bits == bitmask(self@.candidates),
    {
        proof {
            let o = self.options;
            lemma_bits_sum(o);
            assert(has_bit(o, 1) == (o & (1u16 << 0u16) != 0));
            assert(has_bit(o, 2) == (o & (1u16 << 1u16) != 0));
            assert(has_bit(o, 3) == (o & (1u16 << 2u16) != 0));
            assert(has_bit(o, 4) == (o & (1u16 << 3u16) != 0));
            assert(has_bit(o, 5) == (o & (1u16 << 4u16) != 0));
            assert(has_bit(o, 6) == (o & (1u16 << 5u16) != 0));
            assert(has_bit(o, 7) == (o & (1u16 << 6u16) != 0));
            assert(has_bit(o, 8) == (o & (1u16 << 7u16) != 0));
            assert(has_bit(o, 9) == (o & (1u16 << 8u16) != 0));
        }
        self.options
    }

    /// Whether the cell is in one of its two proper states: committed with
    /// no candidates, or undecided with at least one.
    pub fn is_consistent(&self) -> (ok: bool)
        requires
            self.wf(),
        ensures
            ok == self@.consistent(),
    {
        proof {
            if self.options == 0 {
                self.lemma_no_options();
            } else if self@.candidates.len() == 0 {
                assert(self@.candidates =~= Set::<nat>::empty());
                self.lemma_no_candidates();
            }
        }
        self.options == 0 && 1 <= self.value && self.value <= 9 || self.options != 0
            && self.value == 0
    }
}

impl Solver for Cell {
    open spec fn ready(&self) -> bool {
        self.wf()
    }

    /// The commit step: a cell that is down to one candidate takes it as
    /// its digit and reports 1; any other cell is left alone and reports 0.
    fn solve(&mut self) -> (n: u8)
        ensures
            final(self)@ == old(self)@.commit(),
            n == old(self)@.progress(),
            final(self)@.consistent() == old(self)@.consistent(),
    {
        proof {
            lemma_consistency_kept(self@, 1);
        }
        if self.num_options() == 1 {
            let low: u32 = self.options.trailing_zeros();
            proof {
                let o = self.options;
                self.lemma_view_finite();
                vstd::std_specs::bits::axiom_u16_trailing_zeros(o);
                if o == 0 {
                    self.lemma_no_options();
                }
                lemma_lowest_bit(o, low as u16);
                assert(has_bit(o, (low + 1) as nat));
                lemma_forced_choice(self@, (low + 1) as nat);
            }
            self.value = (low + 1) as u8;
            self.options = 0;
            proof {
                self.lemma_no_options();
            }
            1
        } else {
            0
        }
    }
}

impl Default for Cell {
    /// An undecided cell with all nine digits open.
    fn default() -> (c: Cell)
        ensures
            c@ == CellView::fresh(),
            c.wf(),
            c@.consistent(),
    {
        let c = Cell { value: 0, options: 0b1_1111_1111 };
        proof {
            c.lemma_view_finite();
            assert forall|w: nat| 1 <= w <= 9 implies has_bit(0x1ffu16, w) by {
                lemma_all_bits((w - 1) as u16);
            }
            assert(c@.candidates =~= CellView::fresh().candidates);
            lemma_consistency_kept(c@, 1);
        }
        c
    }
}

} // verus!
