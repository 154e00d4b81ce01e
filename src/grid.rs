use vstd::prelude::*;

use crate::cell::CellView;

verus! {

/// Cells `i` and `j` are distinct positions of the grid that share a row,
/// a column or a 3x3 block.
pub open spec fn is_peer(i: int, j: int) -> bool {
    &&& 0 <= i < 81
    &&& 0 <= j < 81
    &&& i != j
    &&& (i / 9 == j / 9 || i % 9 == j % 9 || ((i / 9) / 3 == (j / 9) / 3 && (i % 9) / 3 == (j % 9) / 3))
}

/// Cell `j` is cell `i` itself or one of its peers.
pub open spec fn in_reach(i: int, j: int) -> bool {
    (i == j && 0 <= i < 81) || is_peer(i, j)
}

/// How many of the first `n` cells lie in reach of cell `i` and hold `v`.
pub open spec fn holders(cells: Seq<CellView>, i: int, v: u8, n: int) -> int
    decreases n,
{
    if n <= 0 {
        0
    } else {
        holders(cells, i, v, n - 1) + if in_reach(i, n - 1) && cells[n - 1].selected == Some(v) {
            1int
        } else {
            0int
        }
    }
}

/// How many cells in reach of cell `i` hold `v`.
pub open spec fn holding(cells: Seq<CellView>, i: int, v: u8) -> int {
    holders(cells, i, v, 81)
}

/// Every cell has ten counters and holds, if anything, a number from 1 to 9.
pub open spec fn well_formed(cells: Seq<CellView>) -> bool {
    &&& cells.len() == 81
    &&& forall|j: int|
        0 <= j < 81 ==> {
            &&& (#[trigger] cells[j]).counts.len() == 10
            &&& (cells[j].selected matches Some(v) ==> 1 <= v <= 9)
        }
}

/// The counter of each number in each open cell is one less the number of
/// cells in its reach that hold that number.
pub open spec fn consistent(cells: Seq<CellView>) -> bool {
    forall|i: int, v: u8|
        0 <= i < 81 && 1 <= v <= 9 && !crate::cell::is_given(cells[i].states) ==> cells[i].counts[v as int]
            == 1 - #[trigger] holding(cells, i, v)
}

/// No cell holds the number of one of its peers.
pub open spec fn conflict_free(cells: Seq<CellView>) -> bool {
    forall|i: int, j: int|
        #[trigger] is_peer(i, j) && cells[i].selected is Some ==> cells[j].selected != cells[i].selected
}

/// Every cell holds a number.
pub open spec fn complete(cells: Seq<CellView>) -> bool {
    forall|i: int| 0 <= i < 81 ==> (#[trigger] cells[i]).selected is Some
}

/// The two grids hold the same numbers in the same cells.
pub open spec fn same_numbers(a: Seq<CellView>, b: Seq<CellView>) -> bool {
    &&& a.len() == b.len()
    &&& forall|j: int| 0 <= j < a.len() ==> (#[trigger] a[j]).selected == b[j].selected
}

/// The count is at least zero and at most `n`.
pub proof fn lemma_holders_bounds(cells: Seq<CellView>, i: int, v: u8, n: int)
    requires
        n >= 0,
    ensures
        0 <= holders(cells, i, v, n) <= n,
    decreases n,
{
    if n > 0 {
        lemma_holders_bounds(cells, i, v, n - 1);
    }
}

/// A cell in reach that holds `v` is counted.
pub proof fn lemma_holders_positive(cells: Seq<CellView>, i: int, v: u8, k: int, n: int)
    requires
        0 <= k < n,
        in_reach(i, k),
        cells[k].selected == Some(v),
    ensures
        holders(cells, i, v, n) >= 1,
    decreases n,
{
    if k < n - 1 {
        lemma_holders_positive(cells, i, v, k, n - 1);
    } else {
        lemma_holders_bounds(cells, i, v, n - 1);
    }
}

/// The count reads the numbers alone.
pub proof fn lemma_holders_same_numbers(a: Seq<CellView>, b: Seq<CellView>, i: int, v: u8, n: int)
    requires
        0 <= n <= a.len(),
        same_numbers(a, b),
    ensures
        holders(a, i, v, n) == holders(b, i, v, n),
    decreases n,
{
    if n > 0 {
        lemma_holders_same_numbers(a, b, i, v, n - 1);
    }
}

/// Changing the number of one cell `k` changes each count by at most one.
pub proof fn lemma_holders_change(a: Seq<CellView>, b: Seq<CellView>, i: int, v: u8, k: int, n: int)
    requires
        0 <= n <= a.len(),
        a.len() == b.len(),
        forall|j: int| 0 <= j < a.len() && j != k ==> (#[trigger] a[j]).selected == b[j].selected,
    ensures
        holders(b, i, v, n) == holders(a, i, v, n) - (if 0 <= k < n && in_reach(i, k)
            && a[k].selected == Some(v) {
            1int
        } else {
            0int
        }) + (if 0 <= k < n && in_reach(i, k) && b[k].selected == Some(v) {
            1int
        } else {
            0int
        }),
    decreases n,
{
    if n > 0 {
        lemma_holders_change(a, b, i, v, k, n - 1);
    }
}

/// A grid whose cells are all empty counts no holder anywhere.
pub proof fn lemma_holders_empty(cells: Seq<CellView>, i: int, v: u8, n: int)
    requires
        0 <= n <= cells.len(),
        forall|j: int| 0 <= j < cells.len() ==> (#[trigger] cells[j]).selected is None,
    ensures
        holders(cells, i, v, n) == 0,
    decreases n,
{
    if n > 0 {
        lemma_holders_empty(cells, i, v, n - 1);
    }
}

/// Whether positions `i` and `j` are peers.
pub fn peer(i: usize, j: usize) -> (r: bool)
    requires
        i < 81,
        j < 81,
    ensures
        r == is_peer(i as int, j as int),
{
    i != j && (i / 9 == j / 9 || i % 9 == j % 9 || ((i / 9) / 3 == (j / 9) / 3 && (i % 9) / 3 == (j % 9) / 3))
}

/// With no holder counted, no cell in reach holds `v`.
pub proof fn lemma_holding_zero(cells: Seq<CellView>, i: int, v: u8)
    requires
        holding(cells, i, v) == 0,
    ensures
        forall|j: int| 0 <= j < 81 && #[trigger] in_reach(i, j) ==> cells[j].selected != Some(v),
{
    assert forall|j: int| 0 <= j < 81 && #[trigger] in_reach(i, j) implies cells[j].selected != Some(
        v,
    ) by {
        if cells[j].selected == Some(v) {
            lemma_holders_positive(cells, i, v, j, 81);
        }
    }
}

/// Writing into cell `p` a number that no cell in its reach holds keeps the
/// grid free of conflicts.
pub proof fn lemma_place_keeps_conflict_free(a: Seq<CellView>, b: Seq<CellView>, p: int, v: u8)
    requires
        a.len() == 81,
        b.len() == 81,
        0 <= p < 81,
        conflict_free(a),
        b[p].selected is None || (b[p].selected == Some(v) && holding(a, p, v) == 0),
        forall|j: int| 0 <= j < 81 && j != p ==> (#[trigger] b[j]).selected == a[j].selected,
    ensures
        conflict_free(b),
{
    if b[p].selected is Some {
        lemma_holding_zero(a, p, v);
    }
    assert forall|i: int, j: int|
        #[trigger] is_peer(i, j) && b[i].selected is Some implies b[j].selected != b[i].selected by {
        if i == p {
            assert(in_reach(p, j));
        } else if j == p {
            assert(in_reach(p, i));
        } else {
            assert(b[i].selected == a[i].selected);
            assert(b[j].selected == a[j].selected);
        }
    }
}

/// How many of the first `n` cells are givens.
pub open spec fn givens(cells: Seq<CellView>, n: int) -> int
    decreases n,
{
    if n <= 0 {
        0
    } else {
        givens(cells, n - 1) + if crate::cell::is_given(cells[n - 1].states) {
            1int
        } else {
            0int
        }
    }
}

/// Changing the flags of one cell `k` changes the number of givens by at most one.
pub proof fn lemma_givens_change(a: Seq<CellView>, b: Seq<CellView>, k: int, n: int)
    requires
        0 <= n <= a.len(),
        a.len() == b.len(),
        forall|j: int| 0 <= j < a.len() && j != k ==> (#[trigger] a[j]).states == b[j].states,
    ensures
        givens(b, n) == givens(a, n) - (if 0 <= k < n && crate::cell::is_given(a[k].states) {
            1int
        } else {
            0int
        }) + (if 0 <= k < n && crate::cell::is_given(b[k].states) {
            1int
        } else {
            0int
        }),
    decreases n,
{
    if n > 0 {
        lemma_givens_change(a, b, k, n - 1);
    }
}

/// A grid with no given counts none.
pub proof fn lemma_givens_none(cells: Seq<CellView>, n: int)
    requires
        0 <= n <= cells.len(),
        forall|j: int| 0 <= j < cells.len() ==> !crate::cell::is_given(#[trigger] cells[j].states),
    ensures
        givens(cells, n) == 0,
    decreases n,
{
    if n > 0 {
        lemma_givens_none(cells, n - 1);
    }
}

/// Where the cell at position `i` comes from when lines `a` and `b` trade
/// places: rows when `rows` holds, else columns.
pub open spec fn swapped(i: int, rows: bool, a: int, b: int) -> int {
    if rows {
        if i / 9 == a {
            b * 9 + i % 9
        } else if i / 9 == b {
            a * 9 + i % 9
        } else {
            i
        }
    } else {
        if i % 9 == a {
            (i / 9) * 9 + b
        } else if i % 9 == b {
            (i / 9) * 9 + a
        } else {
            i
        }
    }
}

/// Lines `a` and `b` are distinct and lie in the same band of three.
pub open spec fn same_band(a: int, b: int) -> bool {
    0 <= a < 9 && 0 <= b < 9 && a / 3 == b / 3
}

pub proof fn lemma_position(r: int, c: int)
    requires
        0 <= r < 9,
        0 <= c < 9,
    ensures
        (r * 9 + c) / 9 == r,
        (r * 9 + c) % 9 == c,
        0 <= r * 9 + c < 81,
{
    assert((r * 9 + c) / 9 == r) by (nonlinear_arith)
        requires
            0 <= r < 9,
            0 <= c < 9,
    ;
    assert((r * 9 + c) % 9 == c) by (nonlinear_arith)
        requires
            0 <= r < 9,
            0 <= c < 9,
    ;
}

pub proof fn lemma_split(i: int)
    requires
        0 <= i < 81,
    ensures
        i == (i / 9) * 9 + i % 9,
        0 <= i / 9 < 9,
        0 <= i % 9 < 9,
{
}

/// The row and column of the position a swap reads from.
pub proof fn lemma_swapped_coords(i: int, rows: bool, a: int, b: int)
    requires
        0 <= i < 81,
        same_band(a, b),
    ensures
        0 <= swapped(i, rows, a, b) < 81,
        rows ==> swapped(i, rows, a, b) % 9 == i % 9,
        rows ==> swapped(i, rows, a, b) / 9 == (if i / 9 == a {
            b
        } else if i / 9 == b {
            a
        } else {
            i / 9
        }),
        !rows ==> swapped(i, rows, a, b) / 9 == i / 9,
        !rows ==> swapped(i, rows, a, b) % 9 == (if i % 9 == a {
            b
        } else if i % 9 == b {
            a
        } else {
            i % 9
        }),
{
    lemma_split(i);
    lemma_position(i / 9, i % 9);
    lemma_position(a, i % 9);
    lemma_position(b, i % 9);
    lemma_position(i / 9, a);
    lemma_position(i / 9, b);
}

/// Trading two rows, or two columns, of one band keeps which cells are peers.
pub proof fn lemma_swap_keeps_peers(i: int, j: int, rows: bool, a: int, b: int)
    requires
        0 <= i < 81,
        0 <= j < 81,
        same_band(a, b),
    ensures
        is_peer(swapped(i, rows, a, b), swapped(j, rows, a, b)) == is_peer(i, j),
{
    lemma_swapped_coords(i, rows, a, b);
    lemma_swapped_coords(j, rows, a, b);
    lemma_split(i);
    lemma_split(j);
    let si = swapped(i, rows, a, b);
    let sj = swapped(j, rows, a, b);
    lemma_split(si);
    lemma_split(sj);
}

/// A grid that is complete and free of conflicts stays so when two rows,
/// or two columns, of one band trade places.
pub proof fn lemma_swap_keeps_solution(x: Seq<CellView>, y: Seq<CellView>, rows: bool, a: int, b: int)
    requires
        x.len() == 81,
        y.len() == 81,
        same_band(a, b),
        forall|p: int| 0 <= p < 81 ==> #[trigger] y[p] == x[swapped(p, rows, a, b)],
        complete(x),
        conflict_free(x),
    ensures
        complete(y),
        conflict_free(y),
{
    assert forall|p: int| 0 <= p < 81 implies (#[trigger] y[p]).selected is Some by {
        lemma_swapped_coords(p, rows, a, b);
    }
    assert forall|i: int, j: int|
        #[trigger] is_peer(i, j) && y[i].selected is Some implies y[j].selected != y[i].selected by {
        lemma_swap_keeps_peers(i, j, rows, a, b);
        assert(is_peer(swapped(i, rows, a, b), swapped(j, rows, a, b)));
    }
}

/// How many of the first `n` cells hold a number.
pub open spec fn filled(cells: Seq<CellView>, n: int) -> int
    decreases n,
{
    if n <= 0 {
        0
    } else {
        filled(cells, n - 1) + if cells[n - 1].selected is Some {
            1int
        } else {
            0int
        }
    }
}

/// Changing the number of one cell `k` changes the count of filled cells by at most one.
pub proof fn lemma_filled_change(a: Seq<CellView>, b: Seq<CellView>, k: int, n: int)
    requires
        0 <= n <= a.len(),
        a.len() == b.len(),
        forall|j: int| 0 <= j < a.len() && j != k ==> (#[trigger] a[j]).selected == b[j].selected,
    ensures
        filled(b, n) == filled(a, n) - (if 0 <= k < n && a[k].selected is Some {
            1int
        } else {
            0int
        }) + (if 0 <= k < n && b[k].selected is Some {
            1int
        } else {
            0int
        }),
    decreases n,
{
    if n > 0 {
        lemma_filled_change(a, b, k, n - 1);
    }
}

/// The count of filled cells reads the numbers alone.
pub proof fn lemma_filled_same_numbers(a: Seq<CellView>, b: Seq<CellView>, n: int)
    requires
        0 <= n <= a.len(),
        same_numbers(a, b),
    ensures
        filled(a, n) == filled(b, n),
    decreases n,
{
    if n > 0 {
        lemma_filled_same_numbers(a, b, n - 1);
    }
}

/// In a complete grid every cell counts.
pub proof fn lemma_filled_complete(cells: Seq<CellView>, n: int)
    requires
        cells.len() == 81,
        0 <= n <= 81,
        complete(cells),
    ensures
        filled(cells, n) == n,
    decreases n,
{
    if n > 0 {
        lemma_filled_complete(cells, n - 1);
    }
}

/// Where the givens are exactly the filled cells, the two counts agree.
pub proof fn lemma_givens_are_filled(cells: Seq<CellView>, n: int)
    requires
        0 <= n <= cells.len(),
        forall|j: int|
            0 <= j < cells.len() ==> (crate::cell::is_given((#[trigger] cells[j]).states) <==> cells[j].selected is Some),
    ensures
        givens(cells, n) == filled(cells, n),
    decreases n,
{
    if n > 0 {
        lemma_givens_are_filled(cells, n - 1);
    }
}

/// The count of filled cells lies between 0 and `n`.
pub proof fn lemma_filled_bounds(cells: Seq<CellView>, n: int)
    requires
        n >= 0,
    ensures
        0 <= filled(cells, n) <= n,
    decreases n,
{
    if n > 0 {
        lemma_filled_bounds(cells, n - 1);
    }
}

/// How many of the first `n` positions satisfy `f`.
pub open spec fn count_where(f: spec_fn(int) -> bool, n: int) -> int
    decreases n,
{
    if n <= 0 {
        0
    } else {
        count_where(f, n - 1) + if f(n - 1) {
            1int
        } else {
            0int
        }
    }
}

/// The holder count is a count of positions.
pub proof fn lemma_holders_count(cells: Seq<CellView>, i: int, v: u8, n: int)
    requires
        n >= 0,
    ensures
        holders(cells, i, v, n) == count_where(|x: int| in_reach(i, x) && cells[x].selected == Some(v), n),
    decreases n,
{
    if n > 0 {
        lemma_holders_count(cells, i, v, n - 1);
    }
}

/// Changing the predicate at one position changes the count by at most one.
pub proof fn lemma_count_change(f: spec_fn(int) -> bool, g: spec_fn(int) -> bool, k: int, n: int)
    requires
        n >= 0,
        forall|x: int| x != k ==> #[trigger] f(x) == g(x),
    ensures
        count_where(g, n) == count_where(f, n) - (if 0 <= k < n && f(k) {
            1int
        } else {
            0int
        }) + (if 0 <= k < n && g(k) {
            1int
        } else {
            0int
        }),
    decreases n,
{
    if n > 0 {
        lemma_count_change(f, g, k, n - 1);
    }
}

/// Reading a predicate through the exchange of two positions keeps its count.
pub proof fn lemma_count_transpose(f: spec_fn(int) -> bool, a: int, b: int, n: int)
    requires
        0 <= a < n,
        0 <= b < n,
    ensures
        count_where(|x: int| f(if x == a { b } else if x == b { a } else { x }), n) == count_where(f, n),
{
    let g = |x: int| f(if x == a { b } else if x == b { a } else { x });
    if a != b {
        let h = |x: int| if x == a { f(b) } else { f(x) };
        lemma_count_change(f, h, a, n);
        lemma_count_change(h, g, b, n);
    } else {
        assert forall|x: int| #[trigger] g(x) == f(x) by {}
        lemma_count_change(f, g, a, n);
    }
}

/// The positions a partial swap of lines `a` and `b` reads from: only the
/// cells whose other coordinate is below `k` have traded places.
pub open spec fn swapped_upto(i: int, rows: bool, a: int, b: int, k: int) -> int {
    if 0 <= i < 81 && (if rows { i % 9 } else { i / 9 }) < k {
        swapped(i, rows, a, b)
    } else {
        i
    }
}

/// A count read through a full swap of two lines of one band is unchanged.
pub proof fn lemma_count_swap(f: spec_fn(int) -> bool, rows: bool, a: int, b: int, k: int)
    requires
        same_band(a, b),
        0 <= k <= 9,
    ensures
        count_where(|x: int| f(swapped_upto(x, rows, a, b, k)), 81) == count_where(f, 81),
    decreases k,
{
    if k == 0 {
        assert forall|x: int| #[trigger] f(swapped_upto(x, rows, a, b, 0)) == f(x) by {
            if 0 <= x < 81 {
                lemma_split(x);
            }
        }
        let g = |x: int| f(swapped_upto(x, rows, a, b, 0));
        lemma_count_change(f, g, 0, 81);
    } else {
        let j = k - 1;
        lemma_count_swap(f, rows, a, b, j);
        let pa = if rows { a * 9 + j } else { j * 9 + a };
        let pb = if rows { b * 9 + j } else { j * 9 + b };
        lemma_position(a, j);
        lemma_position(b, j);
        lemma_position(j, a);
        lemma_position(j, b);
        let fj = |x: int| f(swapped_upto(x, rows, a, b, j));
        lemma_count_transpose(fj, pa, pb, 81);
        let gk = |x: int| f(swapped_upto(x, rows, a, b, k));
        let tj = |x: int| fj(if x == pa { pb } else if x == pb { pa } else { x });
        assert forall|x: int| #[trigger] gk(x) == tj(x) by {
            if 0 <= x < 81 {
                lemma_split(x);
                lemma_swapped_coords(x, rows, a, b);
                if x == pa || x == pb {
                    lemma_split(pa);
                    lemma_split(pb);
                }
            } else {
                assert(x != pa && x != pb);
            }
        }
        lemma_count_change(tj, gk, -1, 81);
    }
}

/// Trading two rows, or two columns, of one band moves whole cells and
/// keeps the counters in step with the numbers.
pub proof fn lemma_swap_keeps_consistent(x: Seq<CellView>, y: Seq<CellView>, rows: bool, a: int, b: int)
    requires
        well_formed(x),
        consistent(x),
        y.len() == 81,
        same_band(a, b),
        forall|p: int| 0 <= p < 81 ==> #[trigger] y[p] == x[swapped(p, rows, a, b)],
    ensures
        consistent(y),
{
    assert forall|p: int, v: u8|
        0 <= p < 81 && 1 <= v <= 9 && !crate::cell::is_given(y[p].states) implies y[p].counts[v as int]
        == 1 - #[trigger] holding(y, p, v) by {
        let sp = swapped(p, rows, a, b);
        lemma_swapped_coords(p, rows, a, b);
        assert(y[p] == x[sp]);
        assert(x[sp].counts[v as int] == 1 - holding(x, sp, v));
        let f = |u: int| in_reach(sp, u) && x[u].selected == Some(v);
        let g = |t: int| in_reach(p, t) && y[t].selected == Some(v);
        let h = |t: int| f(swapped_upto(t, rows, a, b, 9));
        lemma_count_swap(f, rows, a, b, 9);
        assert forall|t: int| #[trigger] h(t) == g(t) by {
            if 0 <= t < 81 {
                lemma_swapped_coords(t, rows, a, b);
                lemma_swap_keeps_peers(p, t, rows, a, b);
                let st = swapped(t, rows, a, b);
                lemma_split(t);
                lemma_split(p);
                lemma_split(st);
                lemma_split(sp);
                assert(y[t] == x[st]);
                assert((sp == st) == (p == t));
            }
        }
        lemma_count_change(h, g, -1, 81);
        lemma_holders_count(y, p, v, 81);
        lemma_holders_count(x, sp, v, 81);
    }
}

} // verus!
