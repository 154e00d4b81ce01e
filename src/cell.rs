use vstd::prelude::*;

verus! {

/// Flag bit: the cell holds a value.
pub const FILLED: u32 = 0x01;

/// Flag bit: the cell is the one the player has selected.
pub const SELECTED: u32 = 0x02;

/// Flag bit: the cell holds the number being checked.
pub const CHECKING: u32 = 0x04;

/// Flag bit: the cell holds the highlighted number.
pub const HIGH_LIGHT: u32 = 0x08;

/// Flag bit: the cell is in conflict with a peer.
pub const CONFLICT: u32 = 0x10;

/// Flag bits of a given (fixed) cell; a given is always filled too.
pub const PRE_FILLED: u32 = 0x21;

/// A set of display and solver flags attached to a cell, held as bits.
#[derive(Clone, Copy, Debug, PartialEq, Eq, Structural)]
pub struct CellStates {
    pub bits: u32,
}

impl CellStates {
    pub fn none() -> (r: CellStates)
        ensures
            r.bits == 0,
    {
        CellStates { bits: 0 }
    }

    pub fn filled() -> (r: CellStates)
        ensures
            r.bits == FILLED,
    {
        CellStates { bits: FILLED }
    }

    pub fn selected() -> (r: CellStates)
        ensures
            r.bits == SELECTED,
    {
        CellStates { bits: SELECTED }
    }

    pub fn checking() -> (r: CellStates)
        ensures
            r.bits == CHECKING,
    {
        CellStates { bits: CHECKING }
    }

    pub fn high_light() -> (r: CellStates)
        ensures
            r.bits == HIGH_LIGHT,
    {
        CellStates { bits: HIGH_LIGHT }
    }

    pub fn conflict() -> (r: CellStates)
        ensures
            r.bits == CONFLICT,
    {
        CellStates { bits: CONFLICT }
    }

    pub fn pre_filled() -> (r: CellStates)
        ensures
            r.bits == PRE_FILLED,
    {
        CellStates { bits: PRE_FILLED }
    }

    pub fn bits(&self) -> (r: u32)
        ensures
            r == self.bits,
    {
        self.bits
    }

    /// The flags of both sets.
    pub fn union(self, other: CellStates) -> (r: CellStates)
        ensures
            r.bits == self.bits | other.bits,
    {
        CellStates { bits: self.bits | other.bits }
    }

    /// The flags that both sets hold.
    pub fn intersection(self, other: CellStates) -> (r: CellStates)
        ensures
            r.bits == self.bits & other.bits,
    {
        CellStates { bits: self.bits & other.bits }
    }

    /// The flags of `self` that `other` does not hold.
    pub fn difference(self, other: CellStates) -> (r: CellStates)
        ensures
            r.bits == self.bits & !other.bits,
    {
        CellStates { bits: self.bits & !other.bits }
    }

    /// Whether every flag of `other` is set in `self`.
    pub fn contains(self, other: CellStates) -> (r: bool)
        ensures
            r == (self.bits & other.bits == other.bits),
    {
        self.bits & other.bits == other.bits
    }
}

/// What a cell holds, as plain values: its value, one counter per number
/// (index 0 unused) and its flag bits.
pub struct CellView {
    pub selected: Option<u8>,
    pub counts: Seq<i8>,
    pub states: u32,
}

/// A given cell: both bits of `PRE_FILLED` are set.
pub open spec fn is_given(states: u32) -> bool {
    states & PRE_FILLED == PRE_FILLED
}

/// Number `v` is still a legal candidate of the cell.
pub open spec fn admits(c: CellView, v: int) -> bool {
    c.counts[v] > 0
}

/// An empty cell that no number is left for.
pub open spec fn is_dead(c: CellView) -> bool {
    &&& !is_given(c.states)
    &&& c.selected is None
    &&& forall|v: int| 1 <= v <= 9 ==> c.counts[v] <= 0
}

/// One cell of the grid: its value, a reference counter per number, and its flags.
#[derive(Clone, Copy)]
pub struct Cell {
    selected: Option<u8>,
    candidate: [i8; 10],
    states: CellStates,
}

impl View for Cell {
    type V = CellView;

    closed spec fn view(&self) -> CellView {
        CellView { selected: self.selected, counts: self.candidate@, states: self.states.bits }
    }
}

impl Cell {
    /// The counters of a cell always number ten.
    pub broadcast proof fn lemma_counts_len(c: Cell)
        ensures
            #[trigger] c@.counts.len() == 10,
    {
    }

    /// An empty cell with every number available and no flag set.
    pub fn new() -> (r: Cell)
        ensures
            r@.selected is None,
            r@.states == 0,
            r@.counts.len() == 10,
            forall|i: int| 0 <= i < 10 ==> r@.counts[i] == 1,
    {
        Cell { selected: None, candidate: [1i8; 10], states: CellStates { bits: 0 } }
    }

    pub fn states(&self) -> (r: CellStates)
        ensures
            r.bits == self@.states,
    {
        self.states
    }

    /// Replaces the flags; a given keeps no candidates.
    pub fn set_states(&mut self, states: CellStates)
        ensures
            final(self)@.selected == old(self)@.selected,
            final(self)@.states == states.bits,
            final(self)@.counts.len() == 10,
            is_given(states.bits) ==> forall|i: int| 0 <= i < 10 ==> final(self)@.counts[i] == 0,
            !is_given(states.bits) ==> final(self)@.counts == old(self)@.counts,
    {
        self.states = states;
        if (states.bits & PRE_FILLED) == PRE_FILLED {
            self.candidate = [0i8; 10];
        }
    }

    pub fn selected(&self) -> (r: Option<u8>)
        ensures
            r == self@.selected,
    {
        self.selected
    }

    pub fn set_select(&mut self, val: Option<u8>)
        ensures
            final(self)@.selected == val,
            final(self)@.counts == old(self)@.counts,
            final(self)@.states == old(self)@.states,
    {
        self.selected = val;
    }

    pub fn has_candidate(&self, candidate: u8) -> (r: bool)
        requires
            1 <= candidate <= 9,
        ensures
            r == admits(self@, candidate as int),
    {
        self.candidate[candidate as usize] > 0
    }

    /// The candidates above the cell's value (above 0 for an empty cell),
    /// in ascending order.
    pub fn best_candidates(&self) -> (r: Vec<u8>)
        ensures
            forall|k: int| 0 <= k < r@.len() ==> {
                &&& 1 <= r@[k] <= 9
                &&& r@[k] > lower_bound(self@)
                &&& admits(self@, r@[k] as int)
            },
            forall|k: int, l: int| 0 <= k < l < r@.len() ==> r@[k] < r@[l],
            forall|v: int|
                lower_bound(self@) < v <= 9 && 1 <= v && admits(self@, v) ==> r@.contains(
                    v as u8,
                ),
    {
        let mut r: Vec<u8> = Vec::new();
        let low: usize = match self.selected {
            Some(s) => s as usize + 1,
            None => 1,
        };
        let mut i: usize = low;
        while i <= 9
            invariant
                low == lower_bound(self@) + 1,
                low <= i,
                i <= 10 || i == low,
                forall|k: int| 0 <= k < r@.len() ==> {
                    &&& 1 <= r@[k] <= 9
                    &&& low <= r@[k] < i
                    &&& admits(self@, r@[k] as int)
                },
                forall|k: int, l: int| 0 <= k < l < r@.len() ==> r@[k] < r@[l],
                forall|v: int| low <= v < i && v <= 9 && admits(self@, v) ==> r@.contains(v as u8),
            decreases 10 - i,
        {
            if self.candidate[i] > 0 {
                let ghost before = r@;
                r.push(i as u8);
                proof {
                    assert(r@ == before.push(i as u8));
                    assert(r@[r@.len() - 1] == i as u8);
                    assert forall|v: u8| before.contains(v) implies #[trigger] r@.contains(v) by {
                        let k = choose|k: int| 0 <= k < before.len() && before[k] == v;
                        assert(r@[k] == v);
                    }
                }
            }
            i += 1;
        }
        r
    }

    /// Gives number `candidate` back to an open cell.
    pub fn add_candidate(&mut self, candidate: u8)
        requires
            candidate < 10,
            !is_given(old(self)@.states) ==> old(self)@.counts[candidate as int] <= 0,
        ensures
            final(self)@.selected == old(self)@.selected,
            final(self)@.states == old(self)@.states,
            is_given(old(self)@.states) ==> final(self)@.counts == old(self)@.counts,
            !is_given(old(self)@.states) ==> final(self)@.counts == old(self)@.counts.update(
                candidate as int,
                (old(self)@.counts[candidate as int] + 1) as i8,
            ),
    {
        if !self.is_prefilled() {
            self.candidate[candidate as usize] += 1;
        }
    }

    /// Takes number `candidate` away from an open cell; the result tells
    /// whether the cell is now empty with no candidate left.
    pub fn remove_candidate(&mut self, candidate: u8) -> (r: bool)
        requires
            candidate < 10,
            !is_given(old(self)@.states) ==> old(self)@.counts[candidate as int] > i8::MIN,
        ensures
            final(self)@.selected == old(self)@.selected,
            final(self)@.states == old(self)@.states,
            is_given(old(self)@.states) ==> final(self)@.counts == old(self)@.counts,
            !is_given(old(self)@.states) ==> final(self)@.counts == old(self)@.counts.update(
                candidate as int,
                (old(self)@.counts[candidate as int] - 1) as i8,
            ),
            r == is_dead(final(self)@),
    {
        if self.is_prefilled() {
            return false;
        }
        self.candidate[candidate as usize] -= 1;
        if self.selected.is_some() {
            return false;
        }
        let mut i: usize = 1;
        while i <= 9
            invariant
                1 <= i <= 10,
                self@.selected is None,
                !is_given(self@.states),
                self@.selected == old(self)@.selected,
                self@.states == old(self)@.states,
                self@.counts == old(self)@.counts.update(
                    candidate as int,
                    (old(self)@.counts[candidate as int] - 1) as i8,
                ),
                forall|v: int| 1 <= v < i ==> self@.counts[v] <= 0,
            decreases 10 - i,
        {
            if self.candidate[i] > 0 {
                return false;
            }
            i += 1;
        }
        true
    }

    /// Makes every number available again.
    pub fn reset_candidate(&mut self)
        ensures
            final(self)@.selected == old(self)@.selected,
            final(self)@.states == old(self)@.states,
            final(self)@.counts.len() == 10,
            forall|i: int| 0 <= i < 10 ==> final(self)@.counts[i] == 1,
            forall|v: int| 1 <= v <= 9 ==> admits(final(self)@, v),
    {
        self.candidate = [1i8; 10];
    }

    /// Bit `i` of the result is set iff number `i` is a candidate.
    pub fn candidate_u32(&self) -> (r: u32)
        ensures
            forall|i: u32| i < 32 ==> #[trigger] has_bit(r, i) == (1 <= i <= 9 && admits(self@, i as int)),
    {
        let mut flags: u32 = 0;
        let mut i: u32 = 1;
        assert forall|b: u32| b < 32 implies !has_bit(0, b) by {
            assert((0u32 & (1u32 << b)) == 0) by (bit_vector);
        }
        while i <= 9
            invariant
                1 <= i <= 10,
                forall|b: u32| b < 32 ==> #[trigger] has_bit(flags, b) == (1 <= b < i && admits(self@, b as int)),
            decreases 10 - i,
        {
            if self.candidate[i as usize] > 0 {
                let ghost before = flags;
                flags |= 1u32 << i;
                assert forall|b: u32| b < 32 implies has_bit(flags, b) == (1 <= b < i + 1 && admits(
                    self@,
                    b as int,
                )) by {
                    lemma_or_bit(before, i, b);
                    assert(has_bit(before, b) == (1 <= b < i && admits(self@, b as int)));
                }
            }
            i += 1;
        }
        flags
    }

    pub fn is_prefilled(&self) -> (r: bool)
        ensures
            r == is_given(self@.states),
    {
        (self.states.bits & PRE_FILLED) == PRE_FILLED
    }
}

/// Bit `b` of `x` is set.
pub open spec fn has_bit(x: u32, b: u32) -> bool {
    x & (1u32 << b) != 0
}

/// The value the cell's search resumes above: its own value, or 0.
pub open spec fn lower_bound(c: CellView) -> int {
    match c.selected {
        Some(s) => s as int,
        None => 0,
    }
}

proof fn lemma_or_bit(f: u32, i: u32, b: u32)
    requires
        i < 32,
        b < 32,
    ensures
        ((f | (1u32 << i)) & (1u32 << b) != 0) == ((f & (1u32 << b) != 0) || b == i),
{
    assert(((f | (1u32 << i)) & (1u32 << b) != 0) == ((f & (1u32 << b) != 0) || b == i))
        by (bit_vector)
        requires
            i < 32,
            b < 32,
    ;
}

} // verus!
