//! Choosing the filter for a row.

use vstd::prelude::*;
use crate::filter::{FilterType, residual, opt_view, prev_fits, residual_at};

verus! {

/// How the filter of each row is chosen.
#[derive(Clone, Copy, Debug, PartialEq, Eq, Structural)]
pub enum SelectionPolicy {
    /// The filter whose residuals have the least total magnitude.
    Heuristic,
    /// Always the given filter.
    Fixed(FilterType),
}

/// `min(r, 256 - r)`: the size of a residual read as a signed byte.
pub open spec fn magnitude(r: u8) -> int {
    if r as int <= 256 - r { r as int } else { 256 - r }
}

/// The summed magnitude of the first `n` residuals of `raw` under `t`.
pub open spec fn row_cost(t: FilterType, raw: Seq<u8>, prev: Option<Seq<u8>>, bpp: int, n: nat) -> int
    decreases n,
{
    if n == 0 {
        0
    } else {
        row_cost(t, raw, prev, bpp, (n - 1) as nat) + magnitude(residual(t, raw, prev, bpp, n - 1))
    }
}

pub open spec fn cost_of(t: FilterType, raw: Seq<u8>, prev: Option<Seq<u8>>, bpp: int) -> int {
    row_cost(t, raw, prev, bpp, raw.len())
}

/// `t` where it costs strictly less than `best`, else `best`.
pub open spec fn cheaper(best: FilterType, t: FilterType, raw: Seq<u8>, prev: Option<Seq<u8>>, bpp: int) -> FilterType {
    if cost_of(t, raw, prev, bpp) < cost_of(best, raw, prev, bpp) { t } else { best }
}

/// The cheapest filter, ties going to the earlier of None, Sub, Up, Average, Paeth.
#[verifier::opaque]
pub open spec fn heuristic_choice(raw: Seq<u8>, prev: Option<Seq<u8>>, bpp: int) -> FilterType {
    let c1 = cheaper(FilterType::NoFilter, FilterType::Sub, raw, prev, bpp);
    let c2 = cheaper(c1, FilterType::Up, raw, prev, bpp);
    let c3 = cheaper(c2, FilterType::Avg, raw, prev, bpp);
    cheaper(c3, FilterType::Paeth, raw, prev, bpp)
}

pub open spec fn choice_spec(policy: SelectionPolicy, raw: Seq<u8>, prev: Option<Seq<u8>>, bpp: int) -> FilterType {
    match policy {
        SelectionPolicy::Heuristic => heuristic_choice(raw, prev, bpp),
        SelectionPolicy::Fixed(t) => t,
    }
}

fn magnitude_of(r: u8) -> (m: u128)
    ensures
        m == magnitude(r),
        m <= 128,
{
    if r <= 128 {
        r as u128
    } else {
        256 - r as u128
    }
}

/// The filter that `policy` picks for row `cur` below `prev`.
pub fn select_filter(policy: SelectionPolicy, cur: &[u8], prev: Option<&[u8]>, bpp: usize) -> (r: FilterType)
    requires
        prev_fits(prev, cur@.len() as int),
    ensures
        r == choice_spec(policy, cur@, opt_view(prev), bpp as int),
{
    match policy {
        SelectionPolicy::Heuristic => heuristic_filter(cur, prev, bpp),
        SelectionPolicy::Fixed(t) => t,
    }
}

/// The filter of least summed residual magnitude, earliest on ties.
pub fn heuristic_filter(cur: &[u8], prev: Option<&[u8]>, bpp: usize) -> (r: FilterType)
    requires
        prev_fits(prev, cur@.len() as int),
    ensures
        r == heuristic_choice(cur@, opt_view(prev), bpp as int),
{
    let ghost pv = opt_view(prev);
    let ghost b = bpp as int;
    let n = cur.len();
    let mut c0: u128 = 0;
    let mut c1: u128 = 0;
    let mut c2: u128 = 0;
    let mut c3: u128 = 0;
    let mut c4: u128 = 0;
    let mut x: usize = 0;
    while x < n
        invariant
            n == cur@.len(),
            x <= n,
            prev_fits(prev, n as int),
            pv == opt_view(prev),
            b == bpp as int,
            c0 == row_cost(FilterType::NoFilter, cur@, pv, b, x as nat),
            c1 == row_cost(FilterType::Sub, cur@, pv, b, x as nat),
            c2 == row_cost(FilterType::Up, cur@, pv, b, x as nat),
            c3 == row_cost(FilterType::Avg, cur@, pv, b, x as nat),
            c4 == row_cost(FilterType::Paeth, cur@, pv, b, x as nat),
            c0 <= 128 * x,
            c1 <= 128 * x,
            c2 <= 128 * x,
            c3 <= 128 * x,
            c4 <= 128 * x,
        decreases n - x,
    {
        c0 = c0 + magnitude_of(residual_at(FilterType::NoFilter, cur, prev, bpp, x));
        c1 = c1 + magnitude_of(residual_at(FilterType::Sub, cur, prev, bpp, x));
        c2 = c2 + magnitude_of(residual_at(FilterType::Up, cur, prev, bpp, x));
        c3 = c3 + magnitude_of(residual_at(FilterType::Avg, cur, prev, bpp, x));
        c4 = c4 + magnitude_of(residual_at(FilterType::Paeth, cur, prev, bpp, x));
        x += 1;
    }
    reveal(heuristic_choice);
    let mut best = FilterType::NoFilter;
    let mut least = c0;
    if c1 < least {
        best = FilterType::Sub;
        least = c1;
    }
    if c2 < least {
        best = FilterType::Up;
        least = c2;
    }
    if c3 < least {
        best = FilterType::Avg;
        least = c3;
    }
    if c4 < least {
        best = FilterType::Paeth;
    }
    best
}

} // verus!
