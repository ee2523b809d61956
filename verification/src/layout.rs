use vstd::prelude::*;

verus! {

/// The columns of the print grid for `n` parts: the smallest `c` with
/// `c * c >= n` (the ceiling of the square root of `n`).
pub open spec fn is_grid_columns(n: nat, c: nat) -> bool {
    &&& c * c >= n
    &&& c == 0 || (c - 1) * (c - 1) < n
}

/// Whether `c * c < n`.
fn square_below(c: u64, n: usize) -> (r: bool)
    ensures
        r == (c * c < n),
{
    proof {
        assert((c as u128) * (c as u128) <= u128::MAX) by (nonlinear_arith)
            requires
                c <= u64::MAX,
        ;
    }
    (c as u128) * (c as u128) < n as u128
}

/// The number of columns of the print grid for `n` parts: the ceiling of
/// the square root of `n`, so the grid is as close to square as it gets.
pub fn print_grid_columns(n: usize) -> (c: usize)
    ensures
        is_grid_columns(n as nat, c as nat),
{
    let mut c: u64 = 0;
    while square_below(c, n)
        invariant
            c <= n,
            c == 0 || (c - 1) * (c - 1) < n,
        decreases n - c,
    {
        proof {
            assert(c < n) by (nonlinear_arith)
                requires
                    c * c < n,
            ;
        }
        c = c + 1;
    }
    c as usize
}

/// The grid cell (column, row) of part `i` on a grid `c` columns wide, in
/// reading order.
pub open spec fn grid_cell(i: nat, c: nat) -> (usize, usize) {
    ((i % c) as usize, (i / c) as usize)
}

proof fn lemma_cells_distinct(i: nat, j: nat, c: nat)
    requires
        c > 0,
        i != j,
        i <= usize::MAX,
        j <= usize::MAX,
    ensures
        grid_cell(i, c) != grid_cell(j, c),
{
    vstd::arithmetic::div_mod::lemma_fundamental_div_mod(i as int, c as int);
    vstd::arithmetic::div_mod::lemma_fundamental_div_mod(j as int, c as int);
    vstd::arithmetic::div_mod::lemma_mod_bound(i as int, c as int);
    vstd::arithmetic::div_mod::lemma_mod_bound(j as int, c as int);
    assert(0 <= i / c);
    assert(0 <= j / c);
    assert(i / c <= i) by {
        vstd::arithmetic::div_mod::lemma_div_is_ordered_by_denominator(i as int, 1, c as int);
    }
    assert(j / c <= j) by {
        vstd::arithmetic::div_mod::lemma_div_is_ordered_by_denominator(j as int, 1, c as int);
    }
    if grid_cell(i, c) == grid_cell(j, c) {
        assert((i % c) as usize == (j % c) as usize);
        assert((i / c) as usize == (j / c) as usize);
        assert(i % c == j % c);
        assert(i / c == j / c);
        assert(false) by (nonlinear_arith)
            requires
                i == c * (i / c) + i % c,
                j == c * (j / c) + j % c,
                i % c == j % c,
                i / c == j / c,
                i != j,
        ;
    }
}

/// The print layout of `n` parts: part `i` goes to grid cell
/// `(i % c, i / c)`, `c` being `print_grid_columns(n)`. No two parts share
/// a cell, and every row index stays below `c`, so the layout fits a
/// `c` x `c` square.
pub fn print_layout(n: usize) -> (r: Vec<(usize, usize)>)
    ensures
        r@.len() == n,
        exists|c: nat| is_grid_columns(n as nat, c) && forall|i: int| 0 <= i < n ==> #[trigger] r@[i] == grid_cell(i as nat, c),
        forall|i: int, j: int| 0 <= i < j < n ==> #[trigger] r@[i] != #[trigger] r@[j],
        forall|i: int| 0 <= i < n ==> (#[trigger] r@[i]).0 < n && r@[i].1 < n,
{
    let c = print_grid_columns(n);
    let mut out: Vec<(usize, usize)> = Vec::new();
    let mut i: usize = 0;
    while i < n
        invariant
            is_grid_columns(n as nat, c as nat),
            i <= n,
            out@.len() == i,
            forall|k: int| 0 <= k < i ==> #[trigger] out@[k] == grid_cell(k as nat, c as nat),
        decreases n - i,
    {
        proof {
            assert(c > 0) by (nonlinear_arith)
                requires
                    c * c >= n,
                    i < n,
            ;
        }
        out.push((i % c, i / c));
        i = i + 1;
    }
    proof {
        if n > 0 {
            assert(c > 0) by (nonlinear_arith)
                requires
                    c * c >= n,
                    n > 0,
            ;
            assert forall|a: int, b: int| 0 <= a < b < n implies #[trigger] out@[a] != #[trigger] out@[b] by {
                lemma_cells_distinct(a as nat, b as nat, c as nat);
            }
            assert forall|a: int| 0 <= a < n implies (#[trigger] out@[a]).0 < n && out@[a].1 < n by {
                vstd::arithmetic::div_mod::lemma_mod_bound(a, c as int);
                vstd::arithmetic::div_mod::lemma_div_is_ordered_by_denominator(a, 1, c as int);
                assert(c <= n) by (nonlinear_arith)
                    requires
                        c == 0 || (c - 1) * (c - 1) < n,
                        c > 0,
                ;
            }
        }
    }
    out
}

} // verus!
