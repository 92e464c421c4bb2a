use vstd::prelude::*;

use crate::game::{after_move, collapse_scan, collapsed, grid_line, line_cell, line_of_cell, place_of_cell, pad_line, Direction};

verus! {

/// The value a cell adds to a sum: its tile's value, or zero.
pub open spec fn value_or_zero(c: Option<nat>) -> nat {
    match c {
        Some(v) => v,
        None => 0,
    }
}

/// The sum of the values of the first `n` cells.
pub open spec fn sum_first(s: Seq<Option<nat>>, n: int) -> nat
    decreases n,
{
    if n <= 0 {
        0
    } else {
        sum_first(s, n - 1) + value_or_zero(s[n - 1])
    }
}

/// The sum of all tile values in a sequence of cells.
pub open spec fn cells_sum(s: Seq<Option<nat>>) -> nat {
    sum_first(s, s.len() as int)
}

/// The sum of the first `n` values.
pub open spec fn sum_values(s: Seq<nat>, n: int) -> nat
    decreases n,
{
    if n <= 0 {
        0
    } else {
        sum_values(s, n - 1) + s[n - 1]
    }
}

/// Adjacent tiles of the sequence all differ.
pub open spec fn no_equal_neighbours(s: Seq<nat>) -> bool {
    forall|k: int| 0 <= k && k + 1 < s.len() ==> #[trigger] s[k] != s[k + 1]
}

proof fn lemma_sum_first_agree(a: Seq<Option<nat>>, b: Seq<Option<nat>>, n: int)
    requires
        forall|i: int| 0 <= i < n ==> a[i] == b[i],
    ensures
        sum_first(a, n) == sum_first(b, n),
    decreases n,
{
    if n > 0 {
        lemma_sum_first_agree(a, b, n - 1);
    }
}

proof fn lemma_sum_values_agree(a: Seq<nat>, b: Seq<nat>, n: int)
    requires
        forall|i: int| 0 <= i < n ==> a[i] == b[i],
    ensures
        sum_values(a, n) == sum_values(b, n),
    decreases n,
{
    if n > 0 {
        lemma_sum_values_agree(a, b, n - 1);
    }
}

proof fn lemma_scan_sum(line: Seq<Option<nat>>)
    ensures
        sum_values(collapse_scan(line).0, collapse_scan(line).0.len() as int) == cells_sum(line),
        collapse_scan(line).0.len() <= line.len(),
        collapse_scan(line).1 ==> collapse_scan(line).0.len() > 0,
    decreases line.len(),
{
    if line.len() > 0 {
        let h = line.drop_last();
        lemma_scan_sum(h);
        lemma_sum_first_agree(line, h, h.len() as int);
        let (out, merged) = collapse_scan(h);
        let n = out.len() as int;
        if let Some(v) = line.last() {
            if !merged && out.len() > 0 && out.last() == v {
                let o2 = out.update(n - 1, 2 * v);
                lemma_sum_values_agree(o2, out, n - 1);
            } else {
                let o2 = out.push(v);
                lemma_sum_values_agree(o2, out, n);
            }
        }
    }
}

proof fn lemma_pad_sum(out: Seq<nat>)
    requires
        out.len() <= 4,
    ensures
        cells_sum(pad_line(out)) == sum_values(out, out.len() as int),
{
    reveal_with_fuel(sum_first, 5);
    reveal_with_fuel(sum_values, 5);
}

/// Collapsing a line keeps the sum of its tile values: each merge turns two
/// equal tiles into one of twice the value.
pub proof fn lemma_collapse_keeps_sum(line: Seq<Option<nat>>)
    requires
        line.len() == 4,
    ensures
        cells_sum(collapsed(line)) == cells_sum(line),
{
    lemma_scan_sum(line);
    lemma_pad_sum(collapse_scan(line).0);
}

proof fn lemma_sum_4(s: Seq<Option<nat>>)
    requires
        s.len() == 4,
    ensures
        cells_sum(s) == value_or_zero(s[0]) + value_or_zero(s[1]) + value_or_zero(s[2]) + value_or_zero(s[3]),
{
    reveal_with_fuel(sum_first, 5);
}

proof fn lemma_sum_16(g: Seq<Option<nat>>)
    requires
        g.len() == 16,
    ensures
        cells_sum(g) == value_or_zero(g[0]) + value_or_zero(g[1]) + value_or_zero(g[2]) + value_or_zero(g[3]) + value_or_zero(g[4]) + value_or_zero(g[5]) + value_or_zero(g[6]) + value_or_zero(g[7]) + value_or_zero(g[8]) + value_or_zero(g[9]) + value_or_zero(g[10]) + value_or_zero(g[11]) + value_or_zero(g[12]) + value_or_zero(g[13]) + value_or_zero(g[14]) + value_or_zero(g[15]),
{
    reveal_with_fuel(sum_first, 17);
}

proof fn lemma_sum_by_lines(g: Seq<Option<nat>>, d: Direction)
    requires
        g.len() == 16,
    ensures
        cells_sum(g) == cells_sum(grid_line(g, d, 0)) + cells_sum(grid_line(g, d, 1)) + cells_sum(
            grid_line(g, d, 2),
        ) + cells_sum(grid_line(g, d, 3)),
{
    lemma_sum_16(g);
    lemma_sum_4(grid_line(g, d, 0));
    lemma_sum_4(grid_line(g, d, 1));
    lemma_sum_4(grid_line(g, d, 2));
    lemma_sum_4(grid_line(g, d, 3));
}

/// A move in any direction keeps the sum of all tile values on the grid.
pub proof fn lemma_move_keeps_sum(g: Seq<Option<nat>>, d: Direction)
    requires
        g.len() == 16,
    ensures
        cells_sum(after_move(g, d)) == cells_sum(g),
{
    let h = after_move(g, d);
    lemma_sum_by_lines(g, d);
    lemma_sum_by_lines(h, d);
    assert forall|k: int| 0 <= k < 4 implies #[trigger] grid_line(h, d, k) == collapsed(grid_line(g, d, k)) by {
        assert forall|j: int| 0 <= j < 4 implies grid_line(h, d, k)[j] == collapsed(grid_line(g, d, k))[j] by {
            let i = line_cell(d, k, j);
            assert(0 <= i < 16 && line_of_cell(d, i) == k && place_of_cell(d, i) == j);
        }
        assert(grid_line(h, d, k) =~= collapsed(grid_line(g, d, k)));
    }
    lemma_collapse_keeps_sum(grid_line(g, d, 0));
    lemma_collapse_keeps_sum(grid_line(g, d, 1));
    lemma_collapse_keeps_sum(grid_line(g, d, 2));
    lemma_collapse_keeps_sum(grid_line(g, d, 3));
}

proof fn lemma_rescan_prefix(out: Seq<nat>, m: int)
    requires
        0 <= m <= 4,
        out.len() <= 4,
        no_equal_neighbours(out),
    ensures
        m <= out.len() ==> collapse_scan(pad_line(out).take(m)) == (out.take(m), false),
        m > out.len() ==> collapse_scan(pad_line(out).take(m)) == (out, false),
    decreases m,
{
    let c = pad_line(out);
    if m == 0 {
        assert(c.take(0) =~= Seq::<Option<nat>>::empty());
        assert(out.take(0) =~= Seq::<nat>::empty());
    } else {
        let p = m - 1;
        lemma_rescan_prefix(out, p);
        assert(c.take(m).drop_last() == c.take(p));
        if p < out.len() {
            assert(c.take(m).last() == Some(out[p]));
            if p > 0 {
                assert(out.take(p).last() == out[p - 1]);
                assert(out[p - 1] != out[p]);
            }
            assert(out.take(p).push(out[p]) == out.take(m));
        } else {
            assert(c.take(m).last() is None);
            if p == out.len() {
                assert(out.take(p) == out);
            }
        }
    }
}

/// Collapsing again a collapsed line whose tiles hold no equal neighbours
/// changes nothing.
pub proof fn lemma_collapse_idempotent(line: Seq<Option<nat>>)
    requires
        line.len() == 4,
        no_equal_neighbours(collapse_scan(line).0),
    ensures
        collapsed(collapsed(line)) == collapsed(line),
{
    let out = collapse_scan(line).0;
    let c = collapsed(line);
    lemma_scan_sum(line);
    lemma_rescan_prefix(out, 4);
    assert(c.take(4) == c);
    if out.len() == 4 {
        assert(out.take(4) == out);
    }
}

} // verus!
