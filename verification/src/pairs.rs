//! Walking the cross product of two index ranges, row by row.

use itertools::Itertools;
use itertools::Product;
use std::ops::Range;
use vstd::prelude::*;

verus! {

/// `itertools::Product`, the iterator over a cartesian product. Its inside
/// is not looked at; `pending` stands for what it holds.
#[verifier::external_type_specification]
#[verifier::external_body]
#[verifier::reject_recursive_types(I)]
#[verifier::reject_recursive_types(J)]
pub struct ExProduct<I: Iterator, J>(Product<I, J>);

/// The pairs that a product of two index ranges has yet to yield, in the
/// order in which it will yield them.
pub uninterp spec fn pending(p: Product<Range<usize>, Range<usize>>) -> Seq<(usize, usize)>;

/// All pairs of a row below `rows` and a column below `columns`: the first
/// row with every column in turn, then the second row, and so on.
pub open spec fn grid(rows: nat, columns: nat) -> Seq<(usize, usize)> {
    Seq::new(
        rows * columns,
        |k: int| ((k / columns as int) as usize, (k % columns as int) as usize),
    )
}

/// `Itertools::cartesian_product` on the ranges `0..rows` and `0..columns`.
/// The contract claims that the iterator will yield every pair of the two
/// ranges, with the second component running fastest.
#[verifier::external_body]
pub(crate) fn index_pairs(rows: usize, columns: usize) -> (p: Product<Range<usize>, Range<usize>>)
    ensures
        pending(p) == grid(rows as nat, columns as nat),
{
    (0..rows).cartesian_product(0..columns)
}

/// `Iterator::next` on a product of two index ranges. The contract claims
/// that it hands out the first pending pair and leaves the rest pending,
/// and that it yields nothing, and stays empty, once no pair is pending.
#[verifier::external_body]
pub(crate) fn next_pair(p: &mut Product<Range<usize>, Range<usize>>) -> (r: Option<(usize, usize)>)
    ensures
        pending(*old(p)).len() == 0 ==> r is None && pending(*final(p)).len() == 0,
        pending(*old(p)).len() > 0 ==> r == Some(pending(*old(p))[0]) && pending(*final(p))
            == pending(*old(p)).skip(1),
{
    p.next()
}

/// The `k`-th of `rows * columns` cells, counted row by row, lies in row
/// `k / columns` and column `k % columns`, both inside the grid.
pub proof fn lemma_cell(rows: int, columns: int, k: int)
    requires
        0 <= rows,
        0 <= columns,
        0 <= k < rows * columns,
    ensures
        0 <= k / columns < rows,
        0 <= k % columns < columns,
        (k / columns) * columns + k % columns == k,
{
    assert(columns > 0) by (nonlinear_arith)
        requires
            0 <= k < rows * columns,
            columns >= 0,
    ;
    let row = k / columns;
    let column = k % columns;
    assert(0 <= column < columns && row * columns + column == k && 0 <= row) by (nonlinear_arith)
        requires
            columns > 0,
            k >= 0,
            row == k / columns,
            column == k % columns,
    ;
    assert(row < rows) by (nonlinear_arith)
        requires
            row * columns + column == k,
            0 <= column,
            k < rows * columns,
            columns > 0,
    ;
}

/// The `k`-th pair of the grid is the `k`-th cell.
pub proof fn lemma_grid_entry(rows: usize, columns: usize, k: int)
    requires
        0 <= k < rows * columns,
    ensures
        grid(rows as nat, columns as nat).len() == rows * columns,
        grid(rows as nat, columns as nat)[k].0 == k / (columns as int),
        grid(rows as nat, columns as nat)[k].1 == k % (columns as int),
{
    lemma_cell(rows as int, columns as int, k);
}

} // verus!
