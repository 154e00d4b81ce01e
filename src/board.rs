use vstd::prelude::*;

use crate::cell::{
    admits, is_dead, is_given, lower_bound, Cell, CellStates, CellView, FILLED, HIGH_LIGHT, PRE_FILLED,
};
use crate::grid::{
    complete, conflict_free, consistent, holders, holding, in_reach, is_peer, lemma_holders_bounds,
    lemma_holders_change, lemma_holders_empty, lemma_holders_positive, lemma_holders_same_numbers,
    lemma_place_keeps_conflict_free, givens, lemma_givens_change, lemma_givens_none, swapped,
    same_band, filled, lemma_filled_change, lemma_filled_same_numbers, lemma_filled_complete, lemma_filled_bounds,
    lemma_givens_are_filled, lemma_position, lemma_split, lemma_swap_keeps_solution, lemma_swapped_coords, lemma_swap_keeps_consistent,
    peer, same_numbers, well_formed,
};

use crate::random::random_in;

verus! {

broadcast use Cell::lemma_counts_len;

/// How many givens `initialize` places.
pub const SEED_CELLS: usize = 11;

/// How many random draws `initialize` makes at most while placing givens.
pub const SEED_ATTEMPTS: usize = 100000;

/// The flags of a cell holding `sel` when the highlighted number changes
/// from `from` to `to`.
pub open spec fn states_after_highlight(s: u32, sel: Option<u8>, from: Option<u8>, to: Option<u8>) -> u32 {
    if from == to {
        s
    } else {
        let s1 = if from is Some && from == sel {
            s & !HIGH_LIGHT
        } else {
            s
        };
        if to is Some && to == sel {
            s1 | HIGH_LIGHT
        } else {
            s1
        }
    }
}

/// Entry `k` of the list of peers of the cell at `row`, `col`: first the
/// rest of its row, then the rest of its column, then the four cells of its
/// block that share neither, each part in row-major order.
pub open spec fn effect_at(row: int, col: int, k: int) -> int {
    if k < 8 {
        row * 9 + if k < col {
            k
        } else {
            k + 1
        }
    } else if k < 16 {
        (if k - 8 < row {
            k - 8
        } else {
            k - 7
        }) * 9 + col
    } else {
        let br = (row / 3) * 3;
        let bc = (col / 3) * 3;
        let a = (k - 16) / 2;
        let b = (k - 16) % 2;
        (br + if a < row - br {
            a
        } else {
            a + 1
        }) * 9 + bc + if b < col - bc {
            b
        } else {
            b + 1
        }
    }
}

/// How many cells `generate` empties.
pub const REMOVED_CELLS: u32 = 50;

/// How many seeds `generate` tries at most before it gives up.
pub const GENERATE_ATTEMPTS: usize = 1000;

/// The least number of shuffling passes `generate` draws.
pub const MIN_PASSES: usize = 18;

/// One more than the largest number of shuffling passes `generate` draws.
pub const MAX_PASSES: usize = 36;

/// Each cell is either a given that holds a number, or empty with no flag.
pub open spec fn seeded(cells: Seq<CellView>) -> bool {
    forall|i: int|
        0 <= i < 81 ==> {
            &&& ((#[trigger] cells[i]).selected is Some ==> is_given(cells[i].states))
            &&& (cells[i].selected is None ==> cells[i].states == 0)
        }
}

/// `s` maps each of the nine lines one to one onto a line of the same band.
pub open spec fn band_permutation(s: Seq<int>) -> bool {
    &&& s.len() == 9
    &&& forall|i: int| 0 <= i < 9 ==> 0 <= #[trigger] s[i] < 9 && s[i] / 3 == i / 3
    &&& forall|i: int, j: int| 0 <= i < j < 9 ==> s[i] != s[j]
}

/// Trading two entries of the same band keeps a band permutation.
proof fn lemma_band_swap(s: Seq<int>, a: int, b: int)
    requires
        band_permutation(s),
        same_band(a, b),
    ensures
        band_permutation(s.update(a, s[b]).update(b, s[a])),
{
}

/// The number a cell holds, 0 for an empty cell.
pub open spec fn value_of(c: CellView) -> int {
    match c.selected {
        Some(v) => v as int,
        None => 0,
    }
}

/// `sol` holds the numbers of `cells` in every cell below `c` that is empty
/// in `start`.
pub open spec fn agrees_below(sol: Seq<CellView>, cells: Seq<CellView>, start: Seq<CellView>, c: int) -> bool {
    forall|q: int| 0 <= q < c && q < 81 && (#[trigger] start[q]).selected is None ==> sol[q].selected == cells[q].selected
}

/// `sol` holds every number of `cells`, except perhaps at cell `c`.
pub open spec fn extends_except(sol: Seq<CellView>, cells: Seq<CellView>, c: int) -> bool {
    forall|h: int| 0 <= h < 81 && h != c && (#[trigger] cells[h]).selected is Some ==> sol[h].selected == cells[h].selected
}

/// A cell that was `before` either is still empty with its old flags, or
/// carries the flags `set` gives when writing its current number.
pub open spec fn flags_follow(before: CellView, now: CellView, hl: Option<u8>) -> bool {
    (now.selected is None && now.states == before.states) || now.states == states_after_set(
        before.states,
        now.selected,
        hl,
    )
}

/// Among the grids that solve `puzzle`, `cells` comes first in row-major
/// order: wherever a solution first differs from `cells` in a cell that is
/// empty in `puzzle`, the solution holds the larger number.
pub open spec fn least_completion(cells: Seq<CellView>, puzzle: Seq<CellView>) -> bool {
    forall|sol: Seq<CellView>, q: int|
        solves(sol, puzzle) && 0 <= q < 81 && puzzle[q].selected is None && #[trigger] agrees_below(
            sol,
            cells,
            puzzle,
            q,
        ) ==> value_of(sol[q]) >= value_of(cells[q])
}

/// The weight of one cell in the rank of a search state: a given counts
/// nothing; an open cell counts less the larger its number, and a little
/// less again where the search is about to move past its number.
pub open spec fn digit(c: CellView, fixed: bool, pending: bool) -> int {
    if fixed {
        0
    } else if pending {
        2 * (10 - value_of(c)) - 1
    } else {
        2 * (10 - value_of(c))
    }
}

/// The weights of all cells while the search stands at `cur`.
pub open spec fn search_digits(cells: Seq<CellView>, start: Seq<CellView>, cur: int, rollback: bool) -> Seq<int> {
    Seq::new(81, |q: int| digit(cells[q], start[q].selected is Some, rollback && q == cur))
}

/// The weights read as a number in base 22, the first cell most significant.
pub open spec fn weigh(ds: Seq<int>, n: int) -> int
    decreases n,
{
    if n <= 0 {
        0
    } else {
        weigh(ds, n - 1) * 22 + ds[n - 1]
    }
}

proof fn lemma_weigh_nonneg(ds: Seq<int>, n: int)
    requires
        0 <= n <= ds.len(),
        forall|q: int| 0 <= q < ds.len() ==> 0 <= #[trigger] ds[q] <= 20,
    ensures
        weigh(ds, n) >= 0,
    decreases n,
{
    if n > 0 {
        lemma_weigh_nonneg(ds, n - 1);
    }
}

/// Lowering one weight lowers the number, whatever the less significant
/// weights do.
proof fn lemma_weigh_less(d1: Seq<int>, d2: Seq<int>, a: int, n: int)
    requires
        d1.len() == 81,
        d2.len() == 81,
        0 <= a < 81,
        a < n <= 81,
        forall|q: int| 0 <= q < a ==> #[trigger] d2[q] == d1[q],
        d2[a] < d1[a],
        forall|q: int| 0 <= q < 81 ==> 0 <= #[trigger] d1[q] <= 20,
        forall|q: int| 0 <= q < 81 ==> 0 <= #[trigger] d2[q] <= 20,
    ensures
        weigh(d2, n) < weigh(d1, n),
        weigh(d1, n) - weigh(d2, n) >= 1,
    decreases n,
{
    if n == a + 1 {
        lemma_weigh_same(d1, d2, a);
    } else {
        lemma_weigh_less(d1, d2, a, n - 1);
        assert(weigh(d1, n) - weigh(d2, n) == (weigh(d1, n - 1) - weigh(d2, n - 1)) * 22 + d1[n - 1] - d2[n
            - 1]);
    }
}

proof fn lemma_weigh_same(d1: Seq<int>, d2: Seq<int>, n: int)
    requires
        0 <= n <= d1.len(),
        d1.len() == d2.len(),
        forall|q: int| 0 <= q < n ==> #[trigger] d2[q] == d1[q],
    ensures
        weigh(d1, n) == weigh(d2, n),
    decreases n,
{
    if n > 0 {
        lemma_weigh_same(d1, d2, n - 1);
    }
}

/// Each weight lies between 0 and 20.
proof fn lemma_digits_range(cells: Seq<CellView>, start: Seq<CellView>, cur: int, rollback: bool)
    requires
        well_formed(cells),
    ensures
        forall|q: int| 0 <= q < 81 ==> 0 <= #[trigger] search_digits(cells, start, cur, rollback)[q] <= 20,
{
    assert forall|q: int| 0 <= q < 81 implies 0 <= #[trigger] search_digits(cells, start, cur, rollback)[q]
        <= 20 by {
        assert(0 <= value_of(cells[q]) <= 9);
    }
}

/// What the search guarantees of the grid `after` it left, starting from
/// `before`, with `hl` highlighted, when it ended with `r`.
pub open spec fn search_outcome(before: Seq<CellView>, after: Seq<CellView>, hl: Option<u8>, r: Resolution) -> bool {
    &&& well_formed(after)
    &&& consistent(before) ==> consistent(after)
    &&& conflict_free(before) ==> conflict_free(after)
    &&& forall|i: int|
        0 <= i < 81 && (#[trigger] before[i]).selected is Some ==> after[i].selected == before[i].selected
            && after[i].states == before[i].states
    &&& forall|i: int|
        0 <= i < 81 && (#[trigger] before[i]).selected is None ==> flags_follow(before[i], after[i], hl)
    &&& r == Resolution::Solved ==> complete(after)
    &&& r == Resolution::Solved ==> least_completion(after, before)
    &&& r == Resolution::Unsolvable ==> !exists|sol: Seq<CellView>| solves(sol, before)
    &&& complete(before) ==> r == Resolution::Solved && after == before
}

/// How a bounded search ended.
#[derive(Clone, Copy, Debug, PartialEq, Eq, Structural)]
pub enum Resolution {
    /// Every cell now holds a number.
    Solved,
    /// The search ran through every choice: no solution exists.
    Unsolvable,
    /// The search ran out of attempts.
    GaveUp,
}

/// Every given has all its counters at zero.
pub open spec fn bare_givens(cells: Seq<CellView>) -> bool {
    forall|i: int|
        0 <= i < 81 && is_given((#[trigger] cells[i]).states) ==> forall|w: int| 0 <= w < 10 ==> cells[i].counts[w] == 0
}

/// `sol` is a complete grid free of conflicts that agrees with every number
/// of `puzzle`.
pub open spec fn solves(sol: Seq<CellView>, puzzle: Seq<CellView>) -> bool {
    &&& well_formed(sol)
    &&& complete(sol)
    &&& conflict_free(sol)
    &&& forall|i: int|
        0 <= i < 81 && (#[trigger] puzzle[i]).selected is Some ==> sol[i].selected == puzzle[i].selected
}

/// The flags a cell ends with after `set` writes `val` while `hl` is highlighted.
pub open spec fn states_after_set(s: u32, val: Option<u8>, hl: Option<u8>) -> u32 {
    let s1 = if val is Some && hl == val {
        s | HIGH_LIGHT
    } else {
        s & !HIGH_LIGHT
    };
    if val is Some {
        s1 | FILLED
    } else {
        s1 & !FILLED
    }
}

/// What `set` does to the grid: cell `idx` takes `val` and new flags, the
/// other cells keep their numbers and flags, givens elsewhere are untouched,
/// and the counters again agree with the numbers.
pub open spec fn after_set(
    before: Seq<CellView>,
    idx: int,
    val: Option<u8>,
    hl: Option<u8>,
    after: Seq<CellView>,
) -> bool {
    &&& well_formed(after)
    &&& consistent(after)
    &&& after[idx].selected == val
    &&& after[idx].states == states_after_set(before[idx].states, val, hl)
    &&& is_given(after[idx].states) ==> forall|w: int| 0 <= w < 10 ==> after[idx].counts[w] == 0
    &&& forall|j: int|
        0 <= j < 81 && j != idx ==> {
            &&& (#[trigger] after[j]).selected == before[j].selected
            &&& after[j].states == before[j].states
            &&& is_given(before[j].states) ==> after[j].counts == before[j].counts
        }
}

/// Whether two optional numbers are equal.
fn same_value(a: Option<u8>, b: Option<u8>) -> (r: bool)
    ensures
        r == (a == b),
{
    match (a, b) {
        (Some(x), Some(y)) => x == y,
        (None, None) => true,
        _ => false,
    }
}

/// The 81 cells of a grid in row-major order, and the number shown highlighted.
pub struct Board {
    numbers: Vec<Cell>,
    current_highlight: Option<u8>,
}

impl View for Board {
    type V = Seq<CellView>;

    closed spec fn view(&self) -> Seq<CellView> {
        self.numbers@.map_values(|c: Cell| c@)
    }
}

impl Board {
    /// The number whose cells are flagged as highlighted.
    pub closed spec fn highlight(&self) -> Option<u8> {
        self.current_highlight
    }

    /// The grid is well formed and its counters agree with its numbers.
    pub open spec fn inv(&self) -> bool {
        &&& well_formed(self@)
        &&& consistent(self@)
    }

    proof fn lemma_view(&self)
        ensures
            self@.len() == self.numbers@.len(),
            forall|j: int| 0 <= j < self.numbers@.len() ==> #[trigger] self@[j] == self.numbers@[j]@,
    {
    }

    /// An empty grid: no numbers, every number available everywhere, no flags.
    pub fn empty() -> (r: Board)
        ensures
            r.inv(),
            r.highlight() is None,
            forall|j: int|
                0 <= j < 81 ==> {
                    &&& (#[trigger] r@[j]).selected is None
                    &&& r@[j].states == 0
                    &&& forall|v: int| 0 <= v < 10 ==> r@[j].counts[v] == 1
                },
    {
        let mut numbers: Vec<Cell> = Vec::new();
        let mut k: usize = 0;
        while k < 81
            invariant
                k <= 81,
                numbers@.len() == k,
                forall|j: int|
                    0 <= j < k ==> {
                        &&& (#[trigger] numbers@[j])@.selected is None
                        &&& numbers@[j]@.states == 0
                        &&& forall|v: int| 0 <= v < 10 ==> numbers@[j]@.counts[v] == 1
                    },
            decreases 81 - k,
        {
            numbers.push(Cell::new());
            k += 1;
        }
        let r = Board { numbers, current_highlight: None };
        proof {
            r.lemma_view();
            assert forall|i: int, v: u8| 0 <= i < 81 && 1 <= v <= 9 implies #[trigger] holding(
                r@,
                i,
                v,
            ) == 0 by {
                lemma_holders_empty(r@, i, v, 81);
            }
        }
        r
    }

    /// The cell at `row`, `column`.
    pub fn cell(&self, row: usize, column: usize) -> (r: &Cell)
        requires
            self@.len() == 81,
            row < 9,
            column < 9,
        ensures
            r@ == self@[row * 9 + column],
    {
        proof {
            self.lemma_view();
        }
        &self.numbers[row * 9 + column]
    }

    /// Whether the cell at `row`, `column` is empty or no peer holds its number.
    pub fn check(&self, row: usize, column: usize) -> (r: bool)
        requires
            self@.len() == 81,
            row < 9,
            column < 9,
        ensures
            r == (self@[row * 9 + column].selected is None || forall|j: int|
                is_peer(row * 9 + column, j) ==> #[trigger] self@[j].selected != self@[row * 9
                    + column].selected),
    {
        proof {
            self.lemma_view();
        }
        let idx = row * 9 + column;
        let x = self.numbers[idx].selected();
        if x.is_none() {
            return true;
        }
        let mut j: usize = 0;
        while j < 81
            invariant
                j <= 81,
                idx == row * 9 + column,
                idx < 81,
                x == self@[idx as int].selected,
                x is Some,
                self@.len() == 81,
                forall|m: int| 0 <= m < j && is_peer(idx as int, m) ==> #[trigger] self@[m].selected != x,
            decreases 81 - j,
        {
            if peer(idx, j) && same_value(self.numbers[j].selected(), x) {
                assert(is_peer(idx as int, j as int) && self@[j as int].selected == x);
                return false;
            }
            j += 1;
        }
        true
    }

    /// Gives `v` back to cell `idx` and to each of its peers.
    fn restore_around(&mut self, idx: usize, v: u8)
        requires
            old(self).numbers@.len() == 81,
            idx < 81,
            v < 10,
            forall|m: int|
                #[trigger] in_reach(idx as int, m) && !is_given(old(self)@[m].states) ==> old(
                    self,
                )@[m].counts[v as int] <= 0,
        ensures
            final(self).numbers@.len() == 81,
            final(self).current_highlight == old(self).current_highlight,
            forall|m: int|
                0 <= m < 81 ==> {
                    &&& (#[trigger] final(self)@[m]).selected == old(self)@[m].selected
                    &&& final(self)@[m].states == old(self)@[m].states
                    &&& final(self)@[m].counts == if in_reach(idx as int, m) && !is_given(
                        old(self)@[m].states,
                    ) {
                        old(self)@[m].counts.update(v as int, (old(self)@[m].counts[v as int] + 1) as i8)
                    } else {
                        old(self)@[m].counts
                    }
                },
    {
        let ghost start = self@;
        let mut j: usize = 0;
        proof {
            self.lemma_view();
        }
        while j < 81
            invariant
                j <= 81,
                idx < 81,
                v < 10,
                self.numbers@.len() == 81,
                self.current_highlight == old(self).current_highlight,
                start == old(self)@,
                start.len() == 81,
                forall|m: int|
                    #[trigger] in_reach(idx as int, m) && !is_given(start[m].states) ==> start[m].counts[v as int] <= 0,
                forall|m: int|
                    0 <= m < 81 ==> {
                        &&& (#[trigger] self@[m]).selected == start[m].selected
                        &&& self@[m].states == start[m].states
                        &&& self@[m].counts == if m < j && in_reach(idx as int, m) && !is_given(
                            start[m].states,
                        ) {
                            start[m].counts.update(v as int, (start[m].counts[v as int] + 1) as i8)
                        } else {
                            start[m].counts
                        }
                    },
            decreases 81 - j,
        {
            proof {
                self.lemma_view();
            }
            let ghost prev = self@;
            if j == idx || peer(idx, j) {
                let mut c = self.numbers[j];
                assert(c@ == self@[j as int]);
                assert(in_reach(idx as int, j as int));
                c.add_candidate(v);
                self.numbers.set(j, c);
                proof {
                    self.lemma_view();
                    assert(self@[j as int] == c@);
                }
            }
            proof {
                self.lemma_view();
                assert forall|m: int| 0 <= m < 81 && m != j implies #[trigger] self@[m] == prev[m] by {}
            }
            j += 1;
        }
    }

    /// Takes `v` away from cell `idx` and from each of its peers; the result
    /// tells whether one of them is left empty with no candidate.
    fn take_around(&mut self, idx: usize, v: u8) -> (r: bool)
        requires
            old(self).numbers@.len() == 81,
            idx < 81,
            v < 10,
            forall|m: int|
                #[trigger] in_reach(idx as int, m) && !is_given(old(self)@[m].states) ==> old(
                    self,
                )@[m].counts[v as int] > i8::MIN,
        ensures
            final(self).numbers@.len() == 81,
            final(self).current_highlight == old(self).current_highlight,
            forall|m: int|
                0 <= m < 81 ==> {
                    &&& (#[trigger] final(self)@[m]).selected == old(self)@[m].selected
                    &&& final(self)@[m].states == old(self)@[m].states
                    &&& final(self)@[m].counts == if in_reach(idx as int, m) && !is_given(
                        old(self)@[m].states,
                    ) {
                        old(self)@[m].counts.update(v as int, (old(self)@[m].counts[v as int] - 1) as i8)
                    } else {
                        old(self)@[m].counts
                    }
                },
            r == exists|m: int| in_reach(idx as int, m) && #[trigger] is_dead(final(self)@[m]),
    {
        let ghost start = self@;
        let mut j: usize = 0;
        let mut error_occured = false;
        proof {
            self.lemma_view();
        }
        while j < 81
            invariant
                j <= 81,
                idx < 81,
                v < 10,
                self.numbers@.len() == 81,
                self.current_highlight == old(self).current_highlight,
                start == old(self)@,
                start.len() == 81,
                forall|m: int|
                    #[trigger] in_reach(idx as int, m) && !is_given(start[m].states) ==> start[m].counts[v as int] > i8::MIN,
                forall|m: int|
                    0 <= m < 81 ==> {
                        &&& (#[trigger] self@[m]).selected == start[m].selected
                        &&& self@[m].states == start[m].states
                        &&& self@[m].counts == if m < j && in_reach(idx as int, m) && !is_given(
                            start[m].states,
                        ) {
                            start[m].counts.update(v as int, (start[m].counts[v as int] - 1) as i8)
                        } else {
                            start[m].counts
                        }
                    },
                error_occured == exists|m: int|
                    0 <= m < j && in_reach(idx as int, m) && #[trigger] is_dead(self@[m]),
            decreases 81 - j,
        {
            proof {
                self.lemma_view();
            }
            let ghost prev = self@;
            let mut dead = false;
            if j == idx || peer(idx, j) {
                let mut c = self.numbers[j];
                assert(c@ == self@[j as int]);
                assert(in_reach(idx as int, j as int));
                dead = c.remove_candidate(v);
                self.numbers.set(j, c);
                proof {
                    self.lemma_view();
                    assert(self@[j as int] == c@);
                }
            }
            proof {
                self.lemma_view();
                assert forall|m: int| 0 <= m < 81 && m != j implies #[trigger] self@[m] == prev[m] by {}
                assert(dead == (in_reach(idx as int, j as int) && is_dead(self@[j as int])));
                if error_occured {
                    let m = choose|m: int| 0 <= m < j && in_reach(idx as int, m) && #[trigger] is_dead(prev[m]);
                    assert(self@[m] == prev[m]);
                    assert(is_dead(self@[m]));
                }
                if exists|m: int| 0 <= m < j + 1 && in_reach(idx as int, m) && #[trigger] is_dead(self@[m]) {
                    let m = choose|m: int| 0 <= m < j + 1 && in_reach(idx as int, m) && #[trigger] is_dead(self@[m]);
                    if m < j {
                        assert(self@[m] == prev[m]);
                        assert(is_dead(prev[m]));
                    }
                }
            }
            if dead {
                error_occured = true;
            }
            j += 1;
        }
        error_occured
    }

    /// Writes `val` into the cell at `row`, `column`, or clears it, and keeps
    /// the counters of the cell and of its peers in step. The result tells
    /// whether a peer is left empty with no candidate.
    pub fn set(&mut self, row: usize, column: usize, val: Option<u8>) -> (r: bool)
        requires
            old(self).inv(),
            row < 9,
            column < 9,
            val matches Some(v) ==> 1 <= v <= 9,
            !(val is None && is_given(old(self)@[row * 9 + column].states)),
        ensures
            final(self).inv(),
            final(self).highlight() == old(self).highlight(),
            after_set(old(self)@, row * 9 + column, val, old(self).highlight(), final(self)@),
            r == (val is Some && exists|j: int|
                is_peer(row * 9 + column, j) && #[trigger] is_dead(final(self)@[j])),
    {
        let idx = row * 9 + column;
        let ghost s0 = self@;
        proof {
            self.lemma_view();
        }
        if let Some(v) = self.numbers[idx].selected() {
            proof {
                assert(s0[idx as int] == self.numbers@[idx as int]@);
                assert forall|m: int|
                    #[trigger] in_reach(idx as int, m) && !is_given(s0[m].states) implies s0[m].counts[v as int]
                    <= 0 by {
                    assert(s0[idx as int].selected == Some(v));
                    assert(1 <= v <= 9);
                    lemma_holders_positive(s0, m, v, idx as int, 81);
                    assert(holding(s0, m, v) >= 1);
                    assert(s0[m].counts[v as int] == 1 - holding(s0, m, v));
                }
            }
            self.restore_around(idx, v);
        }
        let ghost s1 = self@;
        let ghost s1n = s1.update(
            idx as int,
            CellView { selected: None, counts: s1[idx as int].counts, states: s1[idx as int].states },
        );
        proof {
            self.lemma_view();
            assert forall|m: int, w: u8|
                0 <= m < 81 && 1 <= w <= 9 && !is_given(s1[m].states) implies s1[m].counts[w as int]
                == 1 - #[trigger] holding(s1n, m, w) by {
                assert(s1[m].states == s0[m].states);
                assert(s0[m].counts[w as int] == 1 - holding(s0, m, w));
                lemma_holders_change(s0, s1n, m, w, idx as int, 81);
            }
        }
        let highlight = match val {
            Some(_) => same_value(self.current_highlight, val),
            None => false,
        };
        let mut c = self.numbers[idx];
        assert(c@ == s1[idx as int]);
        c.set_select(val);
        if highlight {
            c.set_states(c.states().union(CellStates::high_light()));
        } else {
            c.set_states(c.states().difference(CellStates::high_light()));
        }
        let ghost c2 = c@;
        proof {
            lemma_given_bits(s0[idx as int].states);
            assert(s1[idx as int].states == s0[idx as int].states);
            if !is_given(c2.states) {
                assert(c2.counts == s1[idx as int].counts);
            }
        }
        let mut error_occured = false;
        match val {
            Some(v) => {
                c.set_states(c.states().union(CellStates::filled()));
                self.numbers.set(idx, c);
                let ghost s2 = self@;
                proof {
                    self.lemma_view();
                    assert forall|m: int|
                        #[trigger] in_reach(idx as int, m) && !is_given(s2[m].states) implies s2[m].counts[v as int]
                        > i8::MIN by {
                        lemma_holders_bounds(s1n, m, v, 81);
                        if m != idx {
                            assert(s2[m] == s1[m]);
                        } else {
                            assert(s2[m] == c@);
                            assert(!is_given(c2.states));
                        }
                        assert(s1[m].counts[v as int] == 1 - holding(s1n, m, v));
                    }
                }
                error_occured = self.take_around(idx, v);
                proof {
                    self.lemma_view();
                    let s3 = self@;
                    assert forall|m: int, w: u8|
                        0 <= m < 81 && 1 <= w <= 9 && !is_given(s3[m].states) implies s3[m].counts[w as int]
                        == 1 - #[trigger] holding(s3, m, w) by {
                        lemma_holders_change(s1n, s3, m, w, idx as int, 81);
                        assert(s3[m].states == s2[m].states);
                        if m != idx {
                            assert(s2[m] == s1[m]);
                        } else {
                            assert(s2[m] == c@);
                            assert(!is_given(c2.states));
                        }
                        assert(s1[m].counts[w as int] == 1 - holding(s1n, m, w));
                    }
                    if error_occured {
                        let m = choose|m: int| in_reach(idx as int, m) && #[trigger] is_dead(s3[m]);
                        assert(m != idx);
                        assert(is_peer(idx as int, m));
                    }
                    assert(s3[idx as int].selected == val);
                    assert(s3[idx as int].states == s2[idx as int].states);
                    if is_given(s3[idx as int].states) {
                        assert(s3[idx as int].counts == s2[idx as int].counts);
                    }
                    assert(s2[idx as int] == c@);
                    assert forall|j: int| 0 <= j < 81 && j != idx implies {
                        &&& (#[trigger] s3[j]).selected == s0[j].selected
                        &&& s3[j].states == s0[j].states
                        &&& is_given(s0[j].states) ==> s3[j].counts == s0[j].counts
                    } by {
                        assert(s2[j] == s1[j]);
                    }
                    assert(well_formed(s3));
                }
            },
            None => {
                c.set_states(c.states().difference(CellStates::filled()));
                self.numbers.set(idx, c);
                proof {
                    self.lemma_view();
                    let s2 = self@;
                    assert forall|m: int, w: u8|
                        0 <= m < 81 && 1 <= w <= 9 && !is_given(s2[m].states) implies s2[m].counts[w as int]
                        == 1 - #[trigger] holding(s2, m, w) by {
                        lemma_holders_same_numbers(s1n, s2, m, w, 81);
                        if m != idx {
                            assert(s2[m] == s1[m]);
                        } else {
                            assert(s2[m] == c@);
                            assert(!is_given(c2.states));
                        }
                        assert(s1[m].counts[w as int] == 1 - holding(s1n, m, w));
                    }
                    assert(s2[idx as int] == c@);
                    assert forall|j: int| 0 <= j < 81 && j != idx implies {
                        &&& (#[trigger] s2[j]).selected == s0[j].selected
                        &&& s2[j].states == s0[j].states
                        &&& is_given(s0[j].states) ==> s2[j].counts == s0[j].counts
                    } by {
                        assert(s2[j] == s1[j]);
                    }
                    assert(well_formed(s2));
                }
            },
        }
        error_occured
    }

    /// Completes the grid by depth-first search over the empty cells in
    /// row-major order; a cell resumes from above the number it last tried.
    /// When `bounded`, the search gives up after a fixed number of attempts.
    /// Every step lowers the rank of the search state, so the search ends
    /// either way. On success every cell holds a number, the numbers already
    /// there are kept, no conflict is introduced, and the grid is the first
    /// solution in row-major order.
    fn search(&mut self, bounded: bool) -> (r: Resolution)
        requires
            well_formed(old(self)@),
            !complete(old(self)@) ==> consistent(old(self)@),
            forall|i: int|
                0 <= i < 81 && (#[trigger] old(self)@[i]).selected is None ==> !is_given(
                    old(self)@[i].states | FILLED,
                ),
        ensures
            final(self).highlight() == old(self).highlight(),
            search_outcome(old(self)@, final(self)@, old(self).highlight(), r),
            !bounded ==> r != Resolution::GaveUp,
    {
        let ghost start = self@;
        proof {
            self.lemma_view();
        }
        let mut filled: Vec<bool> = Vec::new();
        let mut k: usize = 0;
        while k < 81
            invariant
                k <= 81,
                self.numbers@.len() == 81,
                start == self@,
                filled@.len() == k,
                forall|i: int| 0 <= i < k ==> #[trigger] filled@[i] == (start[i].selected is Some),
            decreases 81 - k,
        {
            proof {
                self.lemma_view();
            }
            filled.push(self.numbers[k].selected().is_some());
            k += 1;
        }
        let mut current: usize = 0;
        let mut rollback = false;
        let mut try_times: usize = 0;
        while current < 81
            invariant
                current <= 81,
                try_times <= 10001,
                start == old(self)@,
                start.len() == 81,
                well_formed(self@),
                !complete(start) ==> consistent(self@),
                self.highlight() == old(self).highlight(),
                conflict_free(start) ==> conflict_free(self@),
                filled@.len() == 81,
                forall|i: int| 0 <= i < 81 ==> #[trigger] filled@[i] == (start[i].selected is Some),
                forall|i: int|
                    0 <= i < 81 && (#[trigger] start[i]).selected is Some ==> self@[i].selected
                        == start[i].selected,
                forall|i: int|
                    0 <= i < 81 && (#[trigger] start[i]).selected is None ==> !is_given(
                        self@[i].states | FILLED,
                    ),
                forall|i: int| 0 <= i < current ==> (#[trigger] self@[i]).selected is Some,
                forall|i: int|
                    0 <= i < 81 && (#[trigger] start[i]).selected is Some ==> self@[i].states
                        == start[i].states,
                forall|i: int|
                    0 <= i < 81 && (#[trigger] start[i]).selected is None ==> flags_follow(start[i], self@[i], old(self).highlight()),
                complete(start) ==> !rollback && self@ == start,
                current == 81 ==> !rollback,
                rollback ==> current < 81 && start[current as int].selected is None,
                forall|q: int|
                    current < q < 81 && (#[trigger] start[q]).selected is None ==> self@[q].selected is None,
                !rollback && current < 81 && start[current as int].selected is None ==> self@[current as int].selected is None,
                forall|sol: Seq<CellView>, q: int|
                    solves(sol, start) && 0 <= q < 81 && q < current + (if rollback { 1int } else { 0int })
                        && start[q].selected is None && #[trigger] agrees_below(sol, self@, start, q)
                        ==> value_of(sol[q]) >= value_of(self@[q]),
                rollback ==> forall|sol: Seq<CellView>|
                    #[trigger] solves(sol, start) ==> !agrees_below(sol, self@, start, current + 1),
            decreases weigh(search_digits(self@, start, current as int, rollback), 81), 81 - current,
        {
            let ghost rank_before = search_digits(self@, start, current as int, rollback);
            if filled[current] {
                proof {
                    let c = current as int;
                    assert(start[c].selected is Some);
                    assert forall|sol: Seq<CellView>|
                        agrees_below(sol, self@, start, c) implies agrees_below(sol, self@, start, c + 1) by {
                        assert forall|q: int|
                            0 <= q < c + 1 && q < 81 && (#[trigger] start[q]).selected is None implies sol[q].selected
                            == self@[q].selected by {
                            assert(q != c);
                        }
                    }
                }
                current += 1;
                proof {
                    assert(search_digits(self@, start, current as int, rollback) =~= rank_before);
                }
            } else {
                if try_times > 10000 {
                    if bounded {
                        return Resolution::GaveUp;
                    }
                } else {
                    try_times += 1;
                }
                let ghost was_rollback = rollback;
                rollback = false;
                proof {
                    self.lemma_view();
                }
                let available = self.numbers[current].best_candidates();
                let ghost p = current as int;
                proof {
                    assert(!filled@[p]);
                    assert(!complete(start));
                    assert(start[p].selected is None);
                    lemma_unmarked_kept(self@[p].states, None, None);
                    assert(!is_given(self@[p].states));
                    assert forall|n: int| 0 <= n < available@.len() implies #[trigger] holding(
                        self@,
                        p,
                        available@[n],
                    ) == 0 by {
                        lemma_holders_bounds(self@, p, available@[n], 81);
                        assert(self@[p].counts[available@[n] as int] == 1 - holding(self@, p, available@[n]));
                    }
                }
                let ghost base = self@;
                proof {
                    assert forall|sol: Seq<CellView>|
                        #[trigger] solves(sol, start) && agrees_below(sol, base, start, p) implies exists|m: int|
                        0 <= m < available@.len() && sol[p].selected == Some(available@[m]) by {
                        assert(sol[p].selected is Some);
                        let w = sol[p].selected->0;
                        assert(1 <= w <= 9);
                        if was_rollback {
                            assert(agrees_below(sol, self@, start, p));
                            assert(value_of(sol[p]) >= value_of(self@[p]));
                            if sol[p].selected == self@[p].selected {
                                assert(agrees_below(sol, self@, start, p + 1));
                            }
                        }
                        assert(w > lower_bound(base[p]));
                        assert forall|h: int|
                            0 <= h < 81 && h != p && (#[trigger] base[h]).selected is Some implies sol[h].selected
                            == base[h].selected by {
                            if start[h].selected is Some {
                            } else if h < p {
                            } else {
                            }
                        }
                        if !admits(base[p], w as int) {
                            lemma_not_admitted_excluded(base, sol, p, w);
                        }
                        assert(available@.contains(w));
                    }
                }
                let mut placed = false;
                let mut n: usize = 0;
                while n < available.len() && !placed
                    invariant
                        n <= available@.len(),
                        p == current as int,
                        start == old(self)@,
                        start.len() == 81,
                        forall|a: int, b: int|
                            0 <= a < b < available@.len() ==> available@[a] < available@[b],
                        current < 81,
                        start[p].selected is None,
                        self.inv(),
                        self.highlight() == old(self).highlight(),
                        conflict_free(start) ==> conflict_free(self@),
                        forall|i: int|
                            0 <= i < 81 && (#[trigger] start[i]).selected is Some ==> self@[i].selected
                                == start[i].selected,
                        forall|i: int|
                            0 <= i < 81 && (#[trigger] start[i]).selected is None ==> !is_given(
                                self@[i].states | FILLED,
                            ),
                        forall|i: int| 0 <= i < current ==> (#[trigger] self@[i]).selected is Some,
                        forall|i: int|
                            0 <= i < 81 && (#[trigger] start[i]).selected is Some ==> self@[i].states
                                == start[i].states,
                        forall|i: int|
                            0 <= i < 81 && (#[trigger] start[i]).selected is None ==> flags_follow(start[i], self@[i], old(self).highlight()),
                        !complete(start),
                        forall|m: int| 0 <= m < available@.len() ==> 1 <= #[trigger] available@[m] <= 9,
                        !placed ==> forall|m: int|
                            n <= m < available@.len() ==> holding(self@, p, #[trigger] available@[m]) == 0,
                        placed ==> self@[p].selected is Some,
                        placed ==> value_of(self@[p]) > lower_bound(base[p]),
                        forall|m: int| 0 <= m < available@.len() ==> #[trigger] available@[m] > lower_bound(base[p]),
                        base.len() == 81,
                        forall|q: int| 0 <= q < 81 && q != p ==> #[trigger] self@[q].selected == base[q].selected,
                        forall|q: int|
                            current < q < 81 && (#[trigger] start[q]).selected is None ==> base[q].selected is None,
                        forall|i: int|
                            0 <= i < 81 && (#[trigger] start[i]).selected is Some ==> base[i].selected
                                == start[i].selected,
                        !placed ==> forall|sol: Seq<CellView>|
                            #[trigger] solves(sol, start) && agrees_below(sol, base, start, p) ==> exists|m: int|
                                n <= m < available@.len() && sol[p].selected == Some(available@[m]),
                        placed ==> forall|sol: Seq<CellView>|
                            #[trigger] solves(sol, start) && agrees_below(sol, base, start, p) ==> value_of(sol[p])
                                >= value_of(self@[p]),
                    decreases available@.len() - n,
                {
                    let ghost before = self@;
                    let v = available[n];
                    proof {
                        lemma_unmarked_kept(before[p].states, Some(v), self.highlight());
                    }
                    let dead = self.set(current / 9, current % 9, Some(v));
                    if !dead {
                        placed = true;
                    }
                    proof {
                        let after = self@;
                        if dead {
                        assert forall|sol: Seq<CellView>|
                            #[trigger] solves(sol, start) && agrees_below(sol, base, start, p) implies exists|m: int|
                            n + 1 <= m < available@.len() && sol[p].selected == Some(available@[m]) by {
                            let m = choose|m: int| n <= m < available@.len() && sol[p].selected == Some(available@[m]);
                            if m == n {
                                let j = choose|j: int| is_peer(p, j) && #[trigger] is_dead(after[j]);
                                assert forall|h: int|
                                    0 <= h < 81 && h != -1 && (#[trigger] after[h]).selected is Some implies sol[h].selected
                                    == after[h].selected by {
                                    if h != p {
                                        assert(after[h].selected == base[h].selected);
                                        if start[h].selected is None && h < p {
                                            assert(sol[h].selected == base[h].selected);
                                        }
                                    }
                                }
                                lemma_dead_excluded(after, sol, j);
                            }
                            assert(n + 1 <= m);
                        }
                        }
                        if !dead {
                            assert forall|sol: Seq<CellView>|
                                #[trigger] solves(sol, start) && agrees_below(sol, base, start, p) implies value_of(sol[p])
                                >= value_of(after[p]) by {
                                let m = choose|m: int| n <= m < available@.len() && sol[p].selected == Some(available@[m]);
                                if m > n {
                                    assert(available@[n as int] < available@[m]);
                                }
                            }
                        }
                        if conflict_free(start) {
                            lemma_place_keeps_conflict_free(before, after, p, v);
                        }
                        assert forall|m: int| n + 1 <= m < available@.len() implies holding(
                            after,
                            p,
                            #[trigger] available@[m],
                        ) == 0 by {
                            assert(available@[n as int] < available@[m]);
                            lemma_holders_change(before, after, p, available@[m], p, 81);
                            lemma_holders_bounds(after, p, available@[m], 81);
                        }
                        assert forall|i: int|
                            0 <= i < 81 && (#[trigger] start[i]).selected is None implies !is_given(
                                after[i].states | FILLED,
                            ) by {
                            if i != p {
                                assert(after[i].states == before[i].states);
                            }
                        }
                        lemma_states_compose(start[p].states, before[p].selected, Some(v), old(self).highlight());
                        assert forall|i: int|
                            0 <= i < 81 && (#[trigger] start[i]).selected is None implies flags_follow(start[i], after[i], old(self).highlight()) by {
                            if i != p {
                                assert(after[i].states == before[i].states);
                                assert(after[i].selected == before[i].selected);
                            }
                        }
                    }
                    n += 1;
                }
                if placed {
                    proof {
                        assert forall|sol: Seq<CellView>|
                            agrees_below(sol, self@, start, p) implies agrees_below(sol, base, start, p) by {
                            assert forall|q: int|
                                0 <= q < p && q < 81 && (#[trigger] start[q]).selected is None implies sol[q].selected
                                == base[q].selected by {
                                assert(self@[q].selected == base[q].selected);
                            }
                        }
                        assert forall|sol: Seq<CellView>, q: int|
                            solves(sol, start) && 0 <= q < 81 && q < p + 1 && start[q].selected is None
                                && #[trigger] agrees_below(sol, self@, start, q) implies value_of(sol[q])
                            >= value_of(self@[q]) by {
                            if q < p {
                                assert(agrees_below(sol, base, start, q));
                                assert(self@[q].selected == base[q].selected);
                            }
                        }
                    }
                    current += 1;
                    proof {
                        let d2 = search_digits(self@, start, current as int, false);
                        assert forall|r: int| 0 <= r < p implies #[trigger] d2[r] == rank_before[r] by {
                            assert(self@[r].selected == base[r].selected);
                        }
                        assert(self@[p].selected is Some);
                        assert(value_of(self@[p]) > value_of(base[p]));
                        lemma_digits_range(self@, start, current as int, false);
                        lemma_digits_range(base, start, p, was_rollback);
                        lemma_weigh_less(rank_before, d2, p, 81);
                        lemma_weigh_nonneg(d2, 81);
                    }
                } else {
                    let ghost before = self@;
                    proof {
                        lemma_unmarked_kept(before[p].states, None, self.highlight());
                    }
                    self.set(current / 9, current % 9, None);
                    proof {
                        let after = self@;
                        if conflict_free(start) {
                            lemma_place_keeps_conflict_free(before, after, p, 1);
                        }
                        assert forall|i: int|
                            0 <= i < 81 && (#[trigger] start[i]).selected is None implies !is_given(
                                after[i].states | FILLED,
                            ) by {
                            if i != p {
                                assert(after[i].states == before[i].states);
                            }
                        }
                        lemma_states_compose(start[p].states, before[p].selected, None, old(self).highlight());
                        assert forall|i: int|
                            0 <= i < 81 && (#[trigger] start[i]).selected is None implies flags_follow(start[i], after[i], old(self).highlight()) by {
                            if i != p {
                                assert(after[i].states == before[i].states);
                                assert(after[i].selected == before[i].selected);
                            }
                        }
                    }
                    proof {
                        let after = self@;
                        assert forall|sol: Seq<CellView>| #[trigger] solves(sol, start) implies !agrees_below(
                            sol,
                            after,
                            start,
                            p,
                        ) by {
                            if agrees_below(sol, after, start, p) {
                                assert forall|q: int|
                                    0 <= q < p && q < 81 && (#[trigger] start[q]).selected is None implies sol[q].selected
                                    == base[q].selected by {
                                    assert(after[q].selected == base[q].selected);
                                }
                                assert(agrees_below(sol, base, start, p));
                            }
                        }
                        assert forall|sol: Seq<CellView>, q: int|
                            solves(sol, start) && 0 <= q < 81 && q < p && start[q].selected is None
                                && #[trigger] agrees_below(sol, after, start, q) implies value_of(sol[q])
                            >= value_of(after[q]) by {
                            assert(agrees_below(sol, base, start, q));
                            assert(after[q].selected == base[q].selected);
                        }
                    }
                    rollback = true;
                    let mut q: usize = current;
                    while q > 0 && filled[q - 1]
                        invariant
                            q <= p,
                            p < 81,
                            filled@.len() == 81,
                            forall|i: int| 0 <= i < 81 ==> #[trigger] filled@[i] == (start[i].selected is Some),
                            forall|r: int| q <= r < p ==> (#[trigger] start[r]).selected is Some,
                        decreases q,
                    {
                        q -= 1;
                    }
                    proof {
                        assert forall|sol: Seq<CellView>| agrees_below(sol, self@, start, q as int) implies #[trigger] agrees_below(sol, self@, start, p) by {
                            assert forall|r: int| 0 <= r < p && r < 81 && (#[trigger] start[r]).selected is None implies sol[r].selected
                                == self@[r].selected by {
                                assert(r < q);
                            }
                        }
                    }
                    if q == 0 {
                        proof {
                            assert forall|sol: Seq<CellView>| !solves(sol, start) by {
                                if solves(sol, start) {
                                    assert(agrees_below(sol, self@, start, 0));
                                    assert(agrees_below(sol, self@, start, p));
                                }
                            }
                        }
                        return Resolution::Unsolvable;
                    }
                    current = q - 1;
                    proof {
                        let a = current as int;
                        assert(!filled@[a]);
                        let d2 = search_digits(self@, start, a, true);
                        assert forall|r: int| 0 <= r < a implies #[trigger] d2[r] == rank_before[r] by {
                            assert(self@[r].selected == base[r].selected);
                        }
                        assert(self@[a].selected == base[a].selected);
                        lemma_digits_range(self@, start, a, true);
                        lemma_digits_range(base, start, p, was_rollback);
                        lemma_weigh_less(rank_before, d2, a, 81);
                        lemma_weigh_nonneg(d2, 81);
                    }
                }
            }
        }
        Resolution::Solved
    }

    /// Completes the grid by depth-first search over the empty cells in
    /// row-major order, trying numbers in ascending order; a cell resumes
    /// from above the number it last tried. The search gives up after a
    /// bounded number of attempts.
    pub fn resolve(&mut self) -> (r: Resolution)
        requires
            well_formed(old(self)@),
            !complete(old(self)@) ==> consistent(old(self)@),
            forall|i: int|
                0 <= i < 81 && (#[trigger] old(self)@[i]).selected is None ==> !is_given(
                    old(self)@[i].states | FILLED,
                ),
        ensures
            final(self).highlight() == old(self).highlight(),
            search_outcome(old(self)@, final(self)@, old(self).highlight(), r),
    {
        self.search(true)
    }

    /// The same search with no bound on the attempts: it always ends, and on
    /// a grid free of conflicts it solves it exactly when a solution exists.
    pub fn solve(&mut self) -> (r: Resolution)
        requires
            well_formed(old(self)@),
            !complete(old(self)@) ==> consistent(old(self)@),
            forall|i: int|
                0 <= i < 81 && (#[trigger] old(self)@[i]).selected is None ==> !is_given(
                    old(self)@[i].states | FILLED,
                ),
        ensures
            final(self).highlight() == old(self).highlight(),
            search_outcome(old(self)@, final(self)@, old(self).highlight(), r),
            r != Resolution::GaveUp,
            conflict_free(old(self)@) ==> (r == Resolution::Solved <==> exists|sol: Seq<CellView>|
                solves(sol, old(self)@)),
    {
        let r = self.search(false);
        proof {
            if conflict_free(old(self)@) && r == Resolution::Solved {
                assert(solves(self@, old(self)@));
            }
        }
        r
    }

    /// Completes the grid by the search of `resolve`; true when it solved it.
    pub fn try_resolve(&mut self) -> (r: bool)
        requires
            well_formed(old(self)@),
            !complete(old(self)@) ==> consistent(old(self)@),
            forall|i: int|
                0 <= i < 81 && (#[trigger] old(self)@[i]).selected is None ==> !is_given(
                    old(self)@[i].states | FILLED,
                ),
        ensures
            well_formed(final(self)@),
            consistent(old(self)@) ==> consistent(final(self)@),
            final(self).highlight() == old(self).highlight(),
            conflict_free(old(self)@) ==> conflict_free(final(self)@),
            forall|i: int|
                0 <= i < 81 && (#[trigger] old(self)@[i]).selected is Some ==> final(self)@[i].selected
                    == old(self)@[i].selected && final(self)@[i].states == old(self)@[i].states,
            forall|i: int|
                0 <= i < 81 && (#[trigger] old(self)@[i]).selected is None ==> flags_follow(
                    old(self)@[i],
                    final(self)@[i],
                    old(self).highlight(),
                ),
            r ==> complete(final(self)@),
            r ==> least_completion(final(self)@, old(self)@),
            complete(old(self)@) ==> r && final(self)@ == old(self)@,
    {
        matches!(self.resolve(), Resolution::Solved)
    }

    /// Empties the grid, then places givens at random: a random cell and a
    /// random number, kept when the cell is empty and still admits the
    /// number, until 11 are placed or the draws run out. The givens never
    /// conflict. Returns whether all 11 were placed.
    pub fn initialize(&mut self) -> (r: bool)
        requires
            well_formed(old(self)@),
        ensures
            final(self).inv(),
            final(self).highlight() == old(self).highlight(),
            conflict_free(final(self)@),
            seeded(final(self)@),
            bare_givens(final(self)@),
            forall|i: int|
                0 <= i < 81 && (#[trigger] final(self)@[i]).selected is Some ==> final(self)@[i].states
                    == PRE_FILLED,
            r == (givens(final(self)@, 81) == SEED_CELLS),
            givens(final(self)@, 81) <= SEED_CELLS,
    {
        proof {
            self.lemma_view();
        }
        let mut k: usize = 0;
        while k < 81
            invariant
                k <= 81,
                self.numbers@.len() == 81,
                self.highlight() == old(self).highlight(),
                forall|j: int|
                    0 <= j < k ==> {
                        &&& (#[trigger] self@[j]).selected is None
                        &&& self@[j].states == 0
                        &&& forall|v: int| 0 <= v < 10 ==> self@[j].counts[v] == 1
                    },
            decreases 81 - k,
        {
            proof {
                self.lemma_view();
            }
            let ghost prev = self@;
            let mut c = self.numbers[k];
            c.reset_candidate();
            c.set_select(None);
            proof {
                assert(!is_given(0)) by (bit_vector);
            }
            c.set_states(CellStates::none());
            self.numbers.set(k, c);
            proof {
                self.lemma_view();
                assert forall|j: int| 0 <= j < 81 && j != k implies #[trigger] self@[j] == prev[j] by {}
                assert(self@[k as int] == c@);
            }
            k += 1;
        }
        proof {
            self.lemma_view();
            assert forall|i: int, v: u8| 0 <= i < 81 && 1 <= v <= 9 implies #[trigger] holding(
                self@,
                i,
                v,
            ) == 0 by {
                lemma_holders_empty(self@, i, v, 81);
            }
            assert(!is_given(0)) by (bit_vector);
            lemma_givens_none(self@, 81);
            assert(conflict_free(self@));
        }
        let mut generated: usize = 0;
        let mut attempts: usize = 0;
        while generated != SEED_CELLS && attempts < SEED_ATTEMPTS
            invariant
                self.inv(),
                self.highlight() == old(self).highlight(),
                conflict_free(self@),
                seeded(self@),
                bare_givens(self@),
                forall|i: int| 0 <= i < 81 && (#[trigger] self@[i]).selected is Some ==> self@[i].states == PRE_FILLED,
                givens(self@, 81) == generated,
                generated <= SEED_CELLS,
            decreases SEED_ATTEMPTS - attempts,
        {
            attempts += 1;
            let pos = random_in(0, 81);
            let candidate = random_in(1, 10) as u8;
            let ghost before = self@;
            proof {
                assert(before[pos as int].selected is None ==> before[pos as int].states == 0);
                assert(before[pos as int].selected is None ==> !is_given(before[pos as int].states))
                    by {
                    assert(!is_given(0)) by (bit_vector);
                }
            }
            if self.place_given(pos, candidate) {
                proof {
                    assert((0u32 | 0x21u32) == 0x21u32) by (bit_vector);
                    assert forall|i: int| 0 <= i < 81 implies {
                        &&& ((#[trigger] self@[i]).selected is Some ==> is_given(self@[i].states))
                        &&& (self@[i].selected is None ==> self@[i].states == 0)
                    } by {
                        if i != pos {
                            assert(self@[i].selected == before[i].selected);
                        } else {
                            assert(self@[i].states == PRE_FILLED);
                            assert(is_given(0x21)) by (bit_vector);
                        }
                    }
                }
                generated += 1;
            }
        }
        generated == SEED_CELLS
    }

    /// Makes number `v` a given of the cell at `pos` when that cell is empty
    /// and still admits `v`: the number is written as `set` writes it, then
    /// the cell is marked a given. Otherwise nothing changes.
    pub fn place_given(&mut self, pos: usize, v: u8) -> (placed: bool)
        requires
            old(self).inv(),
            pos < 81,
            1 <= v <= 9,
        ensures
            placed == (old(self)@[pos as int].selected is None && admits(old(self)@[pos as int], v as int)),
            !placed ==> final(self)@ == old(self)@,
            final(self).inv(),
            final(self).highlight() == old(self).highlight(),
            placed ==> final(self)@[pos as int].selected == Some(v),
            placed ==> final(self)@[pos as int].states == old(self)@[pos as int].states | PRE_FILLED,
            placed ==> forall|w: int| 0 <= w < 10 ==> final(self)@[pos as int].counts[w] == 0,
            placed ==> forall|j: int|
                0 <= j < 81 && j != pos ==> {
                    &&& (#[trigger] final(self)@[j]).selected == old(self)@[j].selected
                    &&& final(self)@[j].states == old(self)@[j].states
                    &&& is_given(old(self)@[j].states) ==> final(self)@[j].counts == old(self)@[j].counts
                },
            placed && !is_given(old(self)@[pos as int].states) ==> givens(final(self)@, 81) == givens(
                old(self)@,
                81,
            ) + 1,
            conflict_free(old(self)@) && !is_given(old(self)@[pos as int].states) ==> conflict_free(
                final(self)@,
            ),
    {
        proof {
            self.lemma_view();
        }
        let cell = self.numbers[pos];
        if cell.selected().is_some() || !cell.has_candidate(v) {
            return false;
        }
        let ghost before = self@;
        proof {
            lemma_holders_bounds(before, pos as int, v, 81);
            if !is_given(before[pos as int].states) {
                assert(before[pos as int].counts[v as int] == 1 - holding(before, pos as int, v));
            } else {
                assert(before[pos as int].counts[v as int] > 0);
            }
        }
        self.set(pos / 9, pos % 9, Some(v));
        let ghost mid = self@;
        proof {
            self.lemma_view();
        }
        let mut c = self.numbers[pos];
        c.set_states(cell.states().union(CellStates::pre_filled()));
        self.numbers.set(pos, c);
        proof {
            self.lemma_view();
            let after = self@;
            assert(forall|t: u32| #[trigger] ((t | 0x21u32) & 0x21u32) == 0x21u32) by (bit_vector);
            assert(is_given(before[pos as int].states | PRE_FILLED));
            assert forall|j: int| 0 <= j < 81 && j != pos implies #[trigger] after[j] == mid[j] by {}
            lemma_givens_change(before, after, pos as int, 81);
            assert forall|i: int, w: u8|
                0 <= i < 81 && 1 <= w <= 9 && !is_given(after[i].states) implies after[i].counts[w as int]
                == 1 - #[trigger] holding(after, i, w) by {
                lemma_holders_same_numbers(mid, after, i, w, 81);
                assert(mid[i].counts[w as int] == 1 - holding(mid, i, w));
            }
            assert(well_formed(after));
            if conflict_free(before) && !is_given(before[pos as int].states) {
                lemma_place_keeps_conflict_free(before, mid, pos as int, v);
                assert forall|i: int, j: int|
                    #[trigger] is_peer(i, j) && after[i].selected is Some implies after[j].selected
                    != after[i].selected by {
                    assert(after[i].selected == mid[i].selected);
                    assert(after[j].selected == mid[j].selected);
                    assert(is_peer(i, j));
                }
            }
        }
        true
    }

    /// Trades the cells of rows `a` and `b` (columns when `rows` is false).
    fn swap_lines(&mut self, rows: bool, a: usize, b: usize)
        requires
            old(self).numbers@.len() == 81,
            same_band(a as int, b as int),
        ensures
            final(self).numbers@.len() == 81,
            final(self).highlight() == old(self).highlight(),
            forall|p: int|
                0 <= p < 81 ==> #[trigger] final(self)@[p] == old(self)@[swapped(p, rows, a as int, b as int)],
    {
        let ghost start = self@;
        let mut i: usize = 0;
        proof {
            self.lemma_view();
        }
        while i < 9
            invariant
                i <= 9,
                same_band(a as int, b as int),
                self.numbers@.len() == 81,
                self.highlight() == old(self).highlight(),
                start == old(self)@,
                forall|p: int|
                    0 <= p < 81 ==> #[trigger] self@[p] == start[if (if rows {
                        p % 9
                    } else {
                        p / 9
                    }) < i {
                        swapped(p, rows, a as int, b as int)
                    } else {
                        p
                    }],
            decreases 9 - i,
        {
            let ghost prev = self@;
            let x = if rows { a * 9 + i } else { i * 9 + a };
            let y = if rows { b * 9 + i } else { i * 9 + b };
            proof {
                self.lemma_view();
                lemma_position(a as int, i as int);
                lemma_position(b as int, i as int);
                lemma_position(i as int, a as int);
                lemma_position(i as int, b as int);
            }
            let cx = self.numbers[x];
            let cy = self.numbers[y];
            self.numbers.set(x, cy);
            self.numbers.set(y, cx);
            proof {
                self.lemma_view();
                assert forall|p: int| 0 <= p < 81 implies #[trigger] self@[p] == start[if (if rows {
                    p % 9
                } else {
                    p / 9
                }) < i + 1 {
                    swapped(p, rows, a as int, b as int)
                } else {
                    p
                }] by {
                    lemma_split(p);
                    lemma_swapped_coords(p, rows, a as int, b as int);
                    lemma_split(x as int);
                    lemma_split(y as int);
                    if p == y {
                        assert(self@[p] == cx@);
                        assert(prev[x as int] == start[x as int]);
                    } else if p == x {
                        assert(self@[p] == cy@);
                        assert(prev[y as int] == start[y as int]);
                    } else {
                        assert(self@[p] == prev[p]);
                    }
                }
            }
            i += 1;
        }
    }

    /// Applies `pass_count` random passes; each trades two rows of one band
    /// of three, or two columns of one, and does nothing when both picks
    /// coincide. The counters are not touched. A complete grid free of
    /// conflicts stays complete and free of conflicts.
    pub fn randomize(&mut self, pass_count: usize)
        requires
            well_formed(old(self)@),
        ensures
            well_formed(final(self)@),
            final(self).highlight() == old(self).highlight(),
            complete(old(self)@) && conflict_free(old(self)@) ==> complete(final(self)@) && conflict_free(
                final(self)@,
            ),
            exists|rows: Seq<int>, cols: Seq<int>|
                #[trigger] band_permutation(rows) && #[trigger] band_permutation(cols) && forall|p: int|
                    0 <= p < 81 ==> #[trigger] final(self)@[p] == old(self)@[rows[p / 9] * 9 + cols[p
                        % 9]],
            pass_count == 0 ==> final(self)@ == old(self)@,
            consistent(old(self)@) ==> consistent(final(self)@),
    {
        let mut pass: usize = 0;
        let ghost mut rows: Seq<int> = Seq::new(9, |i: int| i);
        let ghost mut cols: Seq<int> = Seq::new(9, |i: int| i);
        proof {
            self.lemma_view();
            assert forall|p: int| 0 <= p < 81 implies #[trigger] self@[p] == old(self)@[rows[p / 9] * 9
                + cols[p % 9]] by {
                lemma_split(p);
            }
        }
        while pass < pass_count
            invariant
                pass <= pass_count,
                self.numbers@.len() == 81,
                well_formed(self@),
                self.highlight() == old(self).highlight(),
                complete(old(self)@) && conflict_free(old(self)@) ==> complete(self@) && conflict_free(
                    self@,
                ),
                band_permutation(rows),
                band_permutation(cols),
                pass == 0 ==> self@ == old(self)@,
                consistent(old(self)@) ==> consistent(self@),
                forall|p: int|
                    0 <= p < 81 ==> #[trigger] self@[p] == old(self)@[rows[p / 9] * 9 + cols[p % 9]],
            decreases pass_count - pass,
        {
            let row_or_column = random_in(0, 2) == 0;
            let block = random_in(0, 3);
            let pick1 = random_in(0, 3);
            let pick2 = random_in(0, 3);
            if pick1 != pick2 {
                let ghost before = self@;
                self.swap_lines(row_or_column, block * 3 + pick1, block * 3 + pick2);
                proof {
                    self.lemma_view();
                    let a = (block * 3 + pick1) as int;
                    let b = (block * 3 + pick2) as int;
                    assert forall|p: int| 0 <= p < 81 implies (#[trigger] self@[p]).counts.len() == 10
                        && (self@[p].selected matches Some(v) ==> 1 <= v <= 9) by {
                        lemma_swapped_coords(p, row_or_column, a, b);
                        assert(self@[p] == before[swapped(p, row_or_column, a, b)]);
                    }
                    if complete(before) && conflict_free(before) {
                        lemma_swap_keeps_solution(before, self@, row_or_column, a, b);
                    }
                    if consistent(before) {
                        lemma_swap_keeps_consistent(before, self@, row_or_column, a, b);
                    }
                    let new_rows = if row_or_column {
                        rows.update(a, rows[b]).update(b, rows[a])
                    } else {
                        rows
                    };
                    let new_cols = if row_or_column {
                        cols
                    } else {
                        cols.update(a, cols[b]).update(b, cols[a])
                    };
                    assert forall|p: int| 0 <= p < 81 implies #[trigger] self@[p] == old(self)@[new_rows[p
                        / 9] * 9 + new_cols[p % 9]] by {
                        lemma_swapped_coords(p, row_or_column, a, b);
                        lemma_split(p);
                        let q = swapped(p, row_or_column, a, b);
                        assert(self@[p] == before[q]);
                        assert(before[q] == old(self)@[rows[q / 9] * 9 + cols[q % 9]]);
                    }
                    lemma_band_swap(rows, a, b);
                    lemma_band_swap(cols, a, b);
                    rows = new_rows;
                    cols = new_cols;
                }
            }
            pass += 1;
        }
    }

    /// Empties `count` cells drawn at random among those that hold a number,
    /// or all of them when fewer hold one, by clearing the number alone
    /// (counters and flags are left as they are). Returns how many were
    /// emptied.
    fn random_remove(&mut self, count: u32) -> (removed: u32)
        requires
            well_formed(old(self)@),
        ensures
            well_formed(final(self)@),
            final(self).highlight() == old(self).highlight(),
            removed == if count as int <= filled(old(self)@, 81) {
                count as int
            } else {
                filled(old(self)@, 81)
            },
            filled(final(self)@, 81) == filled(old(self)@, 81) - removed,
            forall|p: int|
                0 <= p < 81 ==> {
                    &&& (#[trigger] final(self)@[p]).selected is None || final(self)@[p].selected
                        == old(self)@[p].selected
                    &&& final(self)@[p].states == old(self)@[p].states
                    &&& final(self)@[p].counts == old(self)@[p].counts
                },
    {
        let mut removed: u32 = 0;
        while removed < count
            invariant
                removed <= count,
                well_formed(self@),
                self.highlight() == old(self).highlight(),
                filled(self@, 81) == filled(old(self)@, 81) - removed,
                forall|p: int|
                    0 <= p < 81 ==> {
                        &&& (#[trigger] self@[p]).selected is None || self@[p].selected == old(
                            self,
                        )@[p].selected
                        &&& self@[p].states == old(self)@[p].states
                        &&& self@[p].counts == old(self)@[p].counts
                    },
            decreases count - removed,
        {
            let positions = self.filled_positions();
            if positions.len() == 0 {
                proof {
                    lemma_filled_bounds(old(self)@, 81);
                }
                return removed;
            }
            let pick = positions[random_in(0, positions.len())];
            let cleared = self.clear_number(pick);
            assert(cleared);
            removed += 1;
        }
        proof {
            lemma_filled_bounds(self@, 81);
        }
        removed
    }

    /// The positions of the cells that hold a number.
    fn filled_positions(&self) -> (r: Vec<usize>)
        requires
            well_formed(self@),
        ensures
            r@.len() == filled(self@, 81),
            forall|k: int| 0 <= k < r@.len() ==> #[trigger] r@[k] < 81 && self@[r@[k] as int].selected is Some,
    {
        proof {
            self.lemma_view();
        }
        let mut r: Vec<usize> = Vec::new();
        let mut i: usize = 0;
        while i < 81
            invariant
                i <= 81,
                well_formed(self@),
                self.numbers@.len() == 81,
                r@.len() == filled(self@, i as int),
                forall|k: int| 0 <= k < r@.len() ==> #[trigger] r@[k] < i && self@[r@[k] as int].selected is Some,
            decreases 81 - i,
        {
            proof {
                self.lemma_view();
            }
            if self.numbers[i].selected().is_some() {
                r.push(i);
            }
            i += 1;
        }
        r
    }

    /// Clears the number of the cell at `pos`, if it holds one, and leaves
    /// everything else as it is. The result tells whether a number was cleared.
    fn clear_number(&mut self, pos: usize) -> (cleared: bool)
        requires
            well_formed(old(self)@),
            pos < 81,
        ensures
            cleared == old(self)@[pos as int].selected is Some,
            well_formed(final(self)@),
            final(self).highlight() == old(self).highlight(),
            filled(final(self)@, 81) == filled(old(self)@, 81) - if cleared {
                1int
            } else {
                0int
            },
            final(self)@[pos as int].selected is None,
            final(self)@[pos as int].states == old(self)@[pos as int].states,
            final(self)@[pos as int].counts == old(self)@[pos as int].counts,
            forall|j: int| 0 <= j < 81 && j != pos ==> #[trigger] final(self)@[j] == old(self)@[j],
    {
        proof {
            self.lemma_view();
        }
        if self.numbers[pos].selected().is_none() {
            proof {
                lemma_filled_change(self@, self@, pos as int, 81);
            }
            return false;
        }
        let ghost prev = self@;
        let mut c = self.numbers[pos];
        assert(c@ == prev[pos as int]);
        c.set_select(None);
        self.numbers.set(pos, c);
        proof {
            self.lemma_view();
            assert forall|j: int| 0 <= j < 81 && j != pos implies #[trigger] self@[j] == prev[j] by {}
            assert(self@[pos as int] == c@);
            lemma_filled_change(prev, self@, pos as int, 81);
        }
        true
    }

    /// Rebuilds every cell from scratch: each cell that holds a number
    /// becomes a given holding it, the others are open with all numbers
    /// available.
    fn reset_init_state(&mut self)
        requires
            well_formed(old(self)@),
        ensures
            final(self).inv(),
            final(self).highlight() == old(self).highlight(),
            same_numbers(final(self)@, old(self)@),
            seeded(final(self)@),
            bare_givens(final(self)@),
            forall|i: int|
                0 <= i < 81 && (#[trigger] final(self)@[i]).selected is Some ==> final(self)@[i].states
                    == states_after_set(PRE_FILLED, final(self)@[i].selected, old(self).highlight()),
    {
        let ghost start = self@;
        proof {
            self.lemma_view();
        }
        let mut selected: Vec<Option<u8>> = Vec::new();
        let mut k: usize = 0;
        while k < 81
            invariant
                k <= 81,
                self.numbers@.len() == 81,
                start == self@,
                selected@.len() == k,
                forall|i: int| 0 <= i < k ==> #[trigger] selected@[i] == start[i].selected,
            decreases 81 - k,
        {
            proof {
                self.lemma_view();
            }
            selected.push(self.numbers[k].selected());
            k += 1;
        }
        let fresh = Board::empty();
        self.numbers = fresh.numbers;
        proof {
            self.lemma_view();
            fresh.lemma_view();
            assert(self@ == fresh@);
            assert(!is_given(0)) by (bit_vector);
            assert(is_given(PRE_FILLED)) by (bit_vector);
        }
        let mut k: usize = 0;
        while k < 81
            invariant
                k <= 81,
                self.inv(),
                self.highlight() == old(self).highlight(),
                start == old(self)@,
                well_formed(start),
                selected@.len() == 81,
                forall|i: int| 0 <= i < 81 ==> #[trigger] selected@[i] == start[i].selected,
                forall|i: int|
                    0 <= i < 81 ==> {
                        &&& (#[trigger] self@[i]).selected == if i < k {
                            start[i].selected
                        } else {
                            None
                        }
                        &&& (self@[i].selected is Some ==> is_given(self@[i].states))
                        &&& (self@[i].selected is Some ==> self@[i].states == states_after_set(
                            PRE_FILLED,
                            self@[i].selected,
                            old(self).highlight(),
                        ))
                        &&& (self@[i].selected is None ==> self@[i].states == 0)
                    },
                bare_givens(self@),
            decreases 81 - k,
        {
            proof {
                assert(selected@[k as int] == start[k as int].selected);
            }
            if let Some(v) = selected[k] {
                proof {
                    self.lemma_view();
                }
                let ghost prev = self@;
                let mut c = self.numbers[k];
                assert(c@ == prev[k as int]);
                c.set_states(c.states().union(CellStates::pre_filled()));
                self.numbers.set(k, c);
                proof {
                    self.lemma_view();
                    assert((0u32 | 0x21u32) == 0x21u32) by (bit_vector);
                    assert(is_given(PRE_FILLED)) by (bit_vector);
                    assert(self@[k as int] == c@);
                    assert forall|j: int| 0 <= j < 81 && j != k implies #[trigger] self@[j] == prev[j] by {}
                    assert forall|i: int, w: u8|
                        0 <= i < 81 && 1 <= w <= 9 && !is_given(self@[i].states) implies self@[i].counts[w as int]
                        == 1 - #[trigger] holding(self@, i, w) by {
                        lemma_holders_same_numbers(prev, self@, i, w, 81);
                        assert(prev[i].counts[w as int] == 1 - holding(prev, i, w));
                    }
                    assert(start[k as int].selected == Some(v));
                    assert(well_formed(self@));
                }
                let ghost mid = self@;
                self.set(k / 9, k % 9, Some(v));
                proof {
                    self.lemma_view();
                    lemma_given_bits(mid[k as int].states);
                    lemma_given_bits(mid[k as int].states | HIGH_LIGHT);
                    lemma_given_bits(mid[k as int].states & !HIGH_LIGHT);
                }
            }
            k += 1;
        }
        proof {
            self.lemma_view();
        }
    }

    /// Makes a new puzzle: seeds givens and completes them by search, with a
    /// fresh seed after each failure; shuffles the solved grid; empties 50
    /// of its cells; and turns each cell still holding a number into a
    /// given. On success the puzzle has a solution. Gives up, returning
    /// false, when no seed could be completed within the bound.
    pub fn generate(&mut self) -> (r: bool)
        requires
            well_formed(old(self)@),
        ensures
            final(self).inv(),
            final(self).highlight() == old(self).highlight(),
            conflict_free(final(self)@),
            r ==> seeded(final(self)@),
            r ==> bare_givens(final(self)@),
            r ==> givens(final(self)@, 81) == 81 - REMOVED_CELLS,
            r ==> exists|sol: Seq<CellView>| solves(sol, final(self)@),
    {
        self.initialize();
        proof {
            assert(!is_given(0u32 | FILLED)) by (bit_vector);
        }
        let mut resolved = self.try_resolve();
        let mut attempt: usize = 1;
        while !resolved && attempt < GENERATE_ATTEMPTS
            invariant
                self.inv(),
                self.highlight() == old(self).highlight(),
                conflict_free(self@),
                resolved ==> complete(self@),
            decreases GENERATE_ATTEMPTS - attempt,
        {
            self.initialize();
            proof {
                assert(!is_given(0u32 | FILLED)) by (bit_vector);
            }
            resolved = self.try_resolve();
            attempt += 1;
        }
        if !resolved {
            return false;
        }
        let pass_count = random_in(MIN_PASSES, MAX_PASSES);
        self.randomize(pass_count);
        let ghost solution = self@;
        let removed = self.random_remove(REMOVED_CELLS);
        let ghost cleared = self@;
        self.reset_init_state();
        proof {
            lemma_filled_complete(solution, 81);
            lemma_filled_same_numbers(self@, cleared, 81);
            assert(!is_given(0)) by (bit_vector);
            assert forall|j: int| 0 <= j < 81 implies (is_given((#[trigger] self@[j]).states)
                <==> self@[j].selected is Some) by {
                if self@[j].selected is None {
                    assert(self@[j].states == 0);
                }
            }
            lemma_givens_are_filled(self@, 81);
            assert(solves(solution, self@));
            assert forall|i: int, j: int|
                #[trigger] is_peer(i, j) && self@[i].selected is Some implies self@[j].selected
                != self@[i].selected by {
                assert(cleared[i].selected == self@[i].selected);
                assert(cleared[j].selected == self@[j].selected);
                assert(is_peer(i, j));
            }
        }
        removed == REMOVED_CELLS
    }

    /// Makes `high_light` the highlighted number: cells holding the old one
    /// lose the highlight flag, cells holding the new one gain it.
    pub fn set_current_highlight(&mut self, high_light: Option<u8>)
        requires
            old(self).inv(),
        ensures
            final(self).inv(),
            final(self).highlight() == high_light,
            same_numbers(final(self)@, old(self)@),
            forall|j: int|
                0 <= j < 81 ==> {
                    &&& (#[trigger] final(self)@[j]).states == states_after_highlight(
                        old(self)@[j].states,
                        old(self)@[j].selected,
                        old(self).highlight(),
                        high_light,
                    )
                    &&& !is_given(old(self)@[j].states) ==> final(self)@[j].counts == old(
                        self,
                    )@[j].counts
                },
            old(self).highlight() == high_light ==> final(self)@ == old(self)@,
            bare_givens(old(self)@) ==> forall|j: int|
                0 <= j < 81 ==> #[trigger] final(self)@[j].counts == old(self)@[j].counts,
    {
        proof {
            self.lemma_view();
        }
        if same_value(self.current_highlight, high_light) {
            return;
        }
        let ghost start = self@;
        let mut k: usize = 0;
        while k < 81
            invariant
                k <= 81,
                self.numbers@.len() == 81,
                start == old(self)@,
                self.current_highlight == old(self).highlight(),
                self.current_highlight != high_light,
                well_formed(start),
                consistent(start),
                forall|j: int|
                    0 <= j < 81 ==> {
                        &&& (#[trigger] self@[j]).selected == start[j].selected
                        &&& self@[j].states == if j < k {
                            states_after_highlight(
                                start[j].states,
                                start[j].selected,
                                old(self).highlight(),
                                high_light,
                            )
                        } else {
                            start[j].states
                        }
                        &&& is_given(self@[j].states) == is_given(start[j].states)
                        &&& !is_given(start[j].states) ==> self@[j].counts == start[j].counts
                        &&& bare_givens(start) ==> self@[j].counts == start[j].counts
                        &&& self@[j].counts.len() == 10
                    },
            decreases 81 - k,
        {
            proof {
                self.lemma_view();
            }
            let ghost prev = self@;
            let mut cell = self.numbers[k];
            assert(cell@ == prev[k as int]);
            proof {
                lemma_given_bits(cell@.states);
            }
            if self.current_highlight.is_some() && same_value(self.current_highlight, cell.selected()) {
                cell.set_states(cell.states().difference(CellStates::high_light()));
            }
            proof {
                lemma_given_bits(cell@.states);
            }
            if high_light.is_some() && same_value(high_light, cell.selected()) {
                cell.set_states(cell.states().union(CellStates::high_light()));
            }
            self.numbers.set(k, cell);
            proof {
                self.lemma_view();
                assert(self@[k as int] == cell@);
                if bare_givens(start) && is_given(start[k as int].states) {
                    assert(self@[k as int].counts =~= start[k as int].counts);
                }
                assert forall|j: int| 0 <= j < 81 && j != k implies #[trigger] self@[j] == prev[j] by {}
            }
            k += 1;
        }
        proof {
            self.lemma_view();
            assert(k == 81);
            assert forall|i: int, w: u8|
                0 <= i < 81 && 1 <= w <= 9 && !is_given(self@[i].states) implies self@[i].counts[w as int]
                == 1 - #[trigger] holding(self@, i, w) by {
                lemma_holders_same_numbers(start, self@, i, w, 81);
                assert(start[i].counts[w as int] == 1 - holding(start, i, w));
            }
        }
        let ghost cells = self@;
        self.current_highlight = high_light;
        proof {
            self.lemma_view();
            assert(self@ == cells);
        }
    }

    /// The positions of the 20 peers of the cell at `row`, `column`.
    pub fn effect_cell_indexes(&self, row: usize, column: usize) -> (r: [usize; 20])
        requires
            row < 9,
            column < 9,
        ensures
            forall|k: int| 0 <= k < 20 ==> #[trigger] r@[k] == effect_at(row as int, column as int, k),
            forall|k: int| 0 <= k < 20 ==> is_peer(row * 9 + column, #[trigger] r@[k] as int),
            forall|k: int, l: int| 0 <= k < l < 20 ==> r@[k] != r@[l],
            forall|j: int|
                #[trigger] is_peer(row * 9 + column, j) ==> exists|k: int| 0 <= k < 20 && r@[k] == j,
    {
        let mut indexes = [0usize; 20];
        let mut index: usize = 0;
        let mut i: usize = 0;
        while i <= 8
            invariant
                row < 9,
                column < 9,
                i <= 9,
                index == if i <= column {
                    i
                } else {
                    (i - 1) as usize
                },
                forall|k: int| 0 <= k < index ==> #[trigger] indexes@[k] == effect_at(row as int, column as int, k),
            decreases 9 - i,
        {
            if i != column {
                indexes[index] = row * 9 + i;
                index += 1;
            }
            i += 1;
        }
        let mut i: usize = 0;
        while i <= 8
            invariant
                row < 9,
                column < 9,
                i <= 9,
                index == 8 + if i <= row {
                    i
                } else {
                    (i - 1) as usize
                },
                forall|k: int| 0 <= k < index ==> #[trigger] indexes@[k] == effect_at(row as int, column as int, k),
            decreases 9 - i,
        {
            if i != row {
                indexes[index] = i * 9 + column;
                index += 1;
            }
            i += 1;
        }
        let br = (row / 3) * 3;
        let bc = (column / 3) * 3;
        let mut r: usize = 0;
        while r <= 2
            invariant
                row < 9,
                column < 9,
                br == (row / 3) * 3,
                bc == (column / 3) * 3,
                r <= 3,
                index == 16 + 2 * if r <= row - br {
                    r
                } else {
                    (r - 1) as usize
                },
                forall|k: int| 0 <= k < index ==> #[trigger] indexes@[k] == effect_at(row as int, column as int, k),
            decreases 3 - r,
        {
            let mut c: usize = 0;
            while c <= 2
                invariant
                    row < 9,
                    column < 9,
                    br == (row / 3) * 3,
                    bc == (column / 3) * 3,
                    r <= 2,
                    c <= 3,
                    index == 16 + 2 * (if r <= row - br {
                        r
                    } else {
                        (r - 1) as usize
                    }) + if br + r == row {
                        0
                    } else if c <= column - bc {
                        c
                    } else {
                        (c - 1) as usize
                    },
                    forall|k: int| 0 <= k < index ==> #[trigger] indexes@[k] == effect_at(row as int, column as int, k),
                decreases 3 - c,
            {
                let cr = br + r;
                let cc = bc + c;
                if cr != row && cc != column {
                    indexes[index] = cr * 9 + cc;
                    index += 1;
                }
                c += 1;
            }
            r += 1;
        }
        proof {
            assert(index == 20);
            lemma_effect_at_peers(row as int, column as int);
            assert forall|j: int| #[trigger] is_peer(row * 9 + column, j) implies exists|k: int|
                0 <= k < 20 && indexes@[k] == j by {
                let k = choose|k: int| 0 <= k < 20 && effect_at(row as int, column as int, k) == j;
                assert(indexes@[k] == effect_at(row as int, column as int, k));
            }
        }
        indexes
    }
}

/// A cell without the given mark keeps it off through `set`.
proof fn lemma_unmarked_kept(s: u32, val: Option<u8>, hl: Option<u8>)
    requires
        !is_given(s | FILLED),
    ensures
        !is_given(states_after_set(s, val, hl) | FILLED),
        !is_given(states_after_set(s, val, hl)),
        !is_given(s),
{
    assert(!((s | 0x01u32) & 0x21u32 == 0x21u32) ==> !((((s | 0x08u32) | 0x01u32) | 0x01u32)
        & 0x21u32 == 0x21u32)) by (bit_vector);
    assert(!((s | 0x01u32) & 0x21u32 == 0x21u32) ==> !((((s & !0x08u32) | 0x01u32) | 0x01u32)
        & 0x21u32 == 0x21u32)) by (bit_vector);
    assert(!((s | 0x01u32) & 0x21u32 == 0x21u32) ==> !((((s & !0x08u32) & !0x01u32) | 0x01u32)
        & 0x21u32 == 0x21u32)) by (bit_vector);
    assert(!((s | 0x01u32) & 0x21u32 == 0x21u32) ==> !((((s | 0x08u32) & !0x01u32) | 0x01u32)
        & 0x21u32 == 0x21u32)) by (bit_vector);
    assert(!((s | 0x01u32) & 0x21u32 == 0x21u32) ==> !(s & 0x21u32 == 0x21u32)) by (bit_vector);
    assert(forall|x: u32| !((x | 0x01u32) & 0x21u32 == 0x21u32) ==> !(x & 0x21u32 == 0x21u32))
        by (bit_vector);
}

/// The flags after `set`, written as one shape: highlight bit `m`, fill bit `f`.
proof fn lemma_states_shape(s: u32, val: Option<u8>, hl: Option<u8>)
    ensures
        states_after_set(s, val, hl) == ((((s & !0x08u32) | (if val is Some && hl == val {
            0x08u32
        } else {
            0u32
        })) & !0x01u32) | (if val is Some {
            0x01u32
        } else {
            0u32
        })),
{
    assert(forall|t: u32|
        #![auto]
        ((t | 0x08u32) | 0x01u32) == ((((t & !0x08u32) | 0x08u32) & !0x01u32) | 0x01u32) && ((t
            & !0x08u32) | 0x01u32) == ((((t & !0x08u32) | 0u32) & !0x01u32) | 0x01u32) && ((t
            | 0x08u32) & !0x01u32) == ((((t & !0x08u32) | 0x08u32) & !0x01u32) | 0u32) && ((t
            & !0x08u32) & !0x01u32) == ((((t & !0x08u32) | 0u32) & !0x01u32) | 0u32)) by (bit_vector);
}

/// Two writes in a row leave the flags the second alone would leave.
proof fn lemma_states_compose(s: u32, x: Option<u8>, y: Option<u8>, hl: Option<u8>)
    ensures
        states_after_set(states_after_set(s, x, hl), y, hl) == states_after_set(s, y, hl),
{
    lemma_states_shape(s, x, hl);
    lemma_states_shape(states_after_set(s, x, hl), y, hl);
    lemma_states_shape(s, y, hl);
    let m1: u32 = if x is Some && hl == x { 0x08u32 } else { 0u32 };
    let f1: u32 = if x is Some { 0x01u32 } else { 0u32 };
    let m2: u32 = if y is Some && hl == y { 0x08u32 } else { 0u32 };
    let f2: u32 = if y is Some { 0x01u32 } else { 0u32 };
    assert(((((((((s & !0x08u32) | m1) & !0x01u32) | f1) & !0x08u32) | m2) & !0x01u32) | f2) == ((((s
        & !0x08u32) | m2) & !0x01u32) | f2)) by (bit_vector)
        requires
            m1 == 0 || m1 == 8,
            m2 == 0 || m2 == 8,
            f1 == 0 || f1 == 1,
            f2 == 0 || f2 == 1,
    ;
}

/// Facts on the flag bits that `set` changes.
proof fn lemma_given_bits(s: u32)
    ensures
        is_given(s | HIGH_LIGHT) == is_given(s),
        is_given(s & !HIGH_LIGHT) == is_given(s),
        is_given(s) ==> is_given(s | FILLED),
        !is_given(s & !FILLED),
        is_given((s & !HIGH_LIGHT) & !FILLED) == false,
        is_given((s | HIGH_LIGHT) | FILLED) == is_given(s | FILLED),
        is_given((s & !HIGH_LIGHT) | FILLED) == is_given(s | FILLED),
{
    assert(((s | 0x08u32) & 0x21u32 == 0x21u32) == (s & 0x21u32 == 0x21u32)) by (bit_vector);
    assert(((s & !0x08u32) & 0x21u32 == 0x21u32) == (s & 0x21u32 == 0x21u32)) by (bit_vector);
    assert((s & 0x21u32 == 0x21u32) ==> ((s | 0x01u32) & 0x21u32 == 0x21u32)) by (bit_vector);
    assert(!((s & !0x01u32) & 0x21u32 == 0x21u32)) by (bit_vector);
    assert(!(((s & !0x08u32) & !0x01u32) & 0x21u32 == 0x21u32)) by (bit_vector);
    assert((((s | 0x08u32) | 0x01u32) & 0x21u32 == 0x21u32) == ((s | 0x01u32) & 0x21u32 == 0x21u32))
        by (bit_vector);
    assert((((s & !0x08u32) | 0x01u32) & 0x21u32 == 0x21u32) == ((s | 0x01u32) & 0x21u32 == 0x21u32))
        by (bit_vector);
}

/// The list of `effect_at` holds each peer of the cell exactly once.
pub proof fn lemma_effect_at_peers(row: int, col: int)
    requires
        0 <= row < 9,
        0 <= col < 9,
    ensures
        forall|k: int| 0 <= k < 20 ==> is_peer(row * 9 + col, #[trigger] effect_at(row, col, k)),
        forall|k: int, l: int| 0 <= k < l < 20 ==> effect_at(row, col, k) != effect_at(row, col, l),
        forall|j: int|
            #[trigger] is_peer(row * 9 + col, j) ==> exists|k: int| 0 <= k < 20 && effect_at(row, col, k) == j,
{
    lemma_position(row, col);
    assert forall|k: int| 0 <= k < 20 implies is_peer(row * 9 + col, #[trigger] effect_at(row, col, k)) by {
        lemma_effect_at_coords(row, col, k);
    }
    assert forall|k: int, l: int| 0 <= k < l < 20 implies effect_at(row, col, k) != effect_at(row, col, l) by {
        lemma_effect_at_coords(row, col, k);
        lemma_effect_at_coords(row, col, l);
    }
    assert forall|j: int| #[trigger] is_peer(row * 9 + col, j) implies exists|k: int|
        0 <= k < 20 && effect_at(row, col, k) == j by {
        lemma_split(j);
        let jr = j / 9;
        let jc = j % 9;
        let br = (row / 3) * 3;
        let bc = (col / 3) * 3;
        let k = if jr == row {
            if jc < col {
                jc
            } else {
                jc - 1
            }
        } else if jc == col {
            8 + if jr < row {
                jr
            } else {
                jr - 1
            }
        } else {
            16 + 2 * (if jr - br < row - br {
                jr - br
            } else {
                jr - br - 1
            }) + if jc - bc < col - bc {
                jc - bc
            } else {
                jc - bc - 1
            }
        };
        lemma_effect_at_coords(row, col, k);
        assert(effect_at(row, col, k) == j);
    }
}

/// The row and column of entry `k` of the list.
proof fn lemma_effect_at_coords(row: int, col: int, k: int)
    requires
        0 <= row < 9,
        0 <= col < 9,
        0 <= k < 20,
    ensures
        0 <= effect_at(row, col, k) < 81,
        k < 8 ==> effect_at(row, col, k) / 9 == row && effect_at(row, col, k) % 9 == (if k < col {
            k
        } else {
            k + 1
        }),
        8 <= k < 16 ==> effect_at(row, col, k) % 9 == col && effect_at(row, col, k) / 9 == (if k - 8
            < row {
            k - 8
        } else {
            k - 7
        }),
        16 <= k ==> effect_at(row, col, k) / 9 == (row / 3) * 3 + (if (k - 16) / 2 < row - (row / 3)
            * 3 {
            (k - 16) / 2
        } else {
            (k - 16) / 2 + 1
        }),
        16 <= k ==> effect_at(row, col, k) % 9 == (col / 3) * 3 + (if (k - 16) % 2 < col - (col / 3)
            * 3 {
            (k - 16) % 2
        } else {
            (k - 16) % 2 + 1
        }),
{
    let br = (row / 3) * 3;
    let bc = (col / 3) * 3;
    if k < 8 {
        lemma_position(row, if k < col { k } else { k + 1 });
    } else if k < 16 {
        lemma_position(if k - 8 < row { k - 8 } else { k - 7 }, col);
    } else {
        let a = (k - 16) / 2;
        let b = (k - 16) % 2;
        lemma_position(br + if a < row - br { a } else { a + 1 }, bc + if b < col - bc { b } else { b + 1 });
    }
}

/// On a fresh grid (no numbers, no flags), writing `v` at `row`, `column`
/// leaves `v` a candidate exactly of the cells outside the reach of that cell.
pub proof fn lemma_set_on_fresh_grid(
    before: Seq<CellView>,
    after: Seq<CellView>,
    row: int,
    column: int,
    v: u8,
    hl: Option<u8>,
)
    requires
        well_formed(before),
        consistent(before),
        forall|j: int| 0 <= j < 81 ==> (#[trigger] before[j]).selected is None && before[j].states == 0,
        0 <= row < 9,
        0 <= column < 9,
        1 <= v <= 9,
        after_set(before, row * 9 + column, Some(v), hl, after),
    ensures
        forall|j: int| 0 <= j < 81 ==> (admits(#[trigger] after[j], v as int) <==> !in_reach(row * 9 + column, j)),
{
    let idx = row * 9 + column;
    assert(!is_given(0u32 | FILLED)) by (bit_vector);
    lemma_unmarked_kept(0, Some(v), hl);
    assert forall|j: int| 0 <= j < 81 implies (admits(#[trigger] after[j], v as int) <==> !in_reach(idx, j)) by {
        lemma_holders_empty(before, j, v, 81);
        lemma_holders_change(before, after, j, v, idx, 81);
        assert(!is_given(after[j].states));
        assert(after[j].counts[v as int] == 1 - holding(after, j, v));
    }
}

/// Clearing a cell right after writing into it, while it was empty and not
/// a given, brings every counter of every cell back to where it was.
pub proof fn lemma_clear_undoes_set(
    b0: Seq<CellView>,
    b1: Seq<CellView>,
    b2: Seq<CellView>,
    row: int,
    column: int,
    v: u8,
    hl: Option<u8>,
)
    requires
        well_formed(b0),
        consistent(b0),
        0 <= row < 9,
        0 <= column < 9,
        1 <= v <= 9,
        b0[row * 9 + column].selected is None,
        !is_given(b0[row * 9 + column].states | FILLED),
        after_set(b0, row * 9 + column, Some(v), hl, b1),
        after_set(b1, row * 9 + column, None, hl, b2),
    ensures
        forall|j: int, w: int| 0 <= j < 81 && 1 <= w <= 9 ==> #[trigger] b2[j].counts[w] == b0[j].counts[w],
{
    let idx = row * 9 + column;
    lemma_unmarked_kept(b0[idx].states, Some(v), hl);
    lemma_unmarked_kept(b1[idx].states, None, hl);
    assert forall|j: int, w: int| 0 <= j < 81 && 1 <= w <= 9 implies #[trigger] b2[j].counts[w]
        == b0[j].counts[w] by {
        if j != idx && is_given(b0[j].states) {
        } else {
            let x = w as u8;
            assert(!is_given(b2[j].states));
            assert(!is_given(b0[j].states));
            lemma_holders_same_numbers(b0, b2, j, x, 81);
            assert(b0[j].counts[x as int] == 1 - holding(b0, j, x));
            assert(b2[j].counts[x as int] == 1 - holding(b2, j, x));
        }
    }
}

/// A positive count has a holder in reach.
proof fn lemma_holder_exists(cells: Seq<CellView>, i: int, v: u8, n: int)
    requires
        0 <= n <= 81,
        holders(cells, i, v, n) >= 1,
    ensures
        exists|k: int| 0 <= k < n && #[trigger] in_reach(i, k) && cells[k].selected == Some(v),
    decreases n,
{
    if holders(cells, i, v, n - 1) >= 1 {
        lemma_holder_exists(cells, i, v, n - 1);
    } else {
        assert(in_reach(i, n - 1) && cells[n - 1].selected == Some(v));
    }
}

/// A grid that holds every number of `cells` except perhaps at cell `c` is
/// no solution when it writes into `c` a number that cell `c` does not admit.
proof fn lemma_not_admitted_excluded(cells: Seq<CellView>, sol: Seq<CellView>, c: int, w: u8)
    requires
        well_formed(cells),
        consistent(cells),
        0 <= c < 81,
        1 <= w <= 9,
        !is_given(cells[c].states),
        !admits(cells[c], w as int),
        cells[c].selected != Some(w),
        extends_except(sol, cells, c),
        sol.len() == 81,
        sol[c].selected == Some(w),
    ensures
        !conflict_free(sol),
{
    assert(cells[c].counts[w as int] == 1 - holding(cells, c, w));
    lemma_holder_exists(cells, c, w, 81);
    let h = choose|k: int| 0 <= k < 81 && #[trigger] in_reach(c, k) && cells[k].selected == Some(w);
    assert(h != c);
    assert(sol[h].selected == Some(w));
    assert(is_peer(c, h));
}

/// A grid that holds every number of `cells` is no solution when `cells`
/// has an open cell with no candidate left.
proof fn lemma_dead_excluded(cells: Seq<CellView>, sol: Seq<CellView>, j: int)
    requires
        well_formed(cells),
        consistent(cells),
        0 <= j < 81,
        is_dead(cells[j]),
        extends_except(sol, cells, -1),
        well_formed(sol),
        complete(sol),
    ensures
        !conflict_free(sol),
{
    assert(sol[j].selected is Some);
    let u = sol[j].selected->0;
    assert(1 <= u <= 9);
    assert(cells[j].counts[u as int] == 1 - holding(cells, j, u));
    lemma_holder_exists(cells, j, u, 81);
    let h = choose|k: int| 0 <= k < 81 && #[trigger] in_reach(j, k) && cells[k].selected == Some(u);
    assert(h != j);
    assert(sol[h].selected == Some(u));
    assert(is_peer(j, h));
}

} // verus!
