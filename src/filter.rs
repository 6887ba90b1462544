//! The five byte predictors of a scanline, forward and inverse.

use vstd::prelude::*;

verus! {

/// The predictor applied to one row; its tag byte leads the row on the wire.
#[derive(Clone, Copy, Debug, PartialEq, Eq, Structural)]
pub enum FilterType {
    NoFilter,
    Sub,
    Up,
    Avg,
    Paeth,
}

impl FilterType {
    pub open spec fn tag_spec(self) -> u8 {
        match self {
            FilterType::NoFilter => 0,
            FilterType::Sub => 1,
            FilterType::Up => 2,
            FilterType::Avg => 3,
            FilterType::Paeth => 4,
        }
    }

    pub open spec fn from_tag_spec(b: u8) -> Option<FilterType> {
        if b == 0 {
            Some(FilterType::NoFilter)
        } else if b == 1 {
            Some(FilterType::Sub)
        } else if b == 2 {
            Some(FilterType::Up)
        } else if b == 3 {
            Some(FilterType::Avg)
        } else if b == 4 {
            Some(FilterType::Paeth)
        } else {
            None
        }
    }

    /// The tag byte written in front of a row filtered with `self`.
    pub fn tag(self) -> (r: u8)
        ensures
            r == self.tag_spec(),
    {
        match self {
            FilterType::NoFilter => 0,
            FilterType::Sub => 1,
            FilterType::Up => 2,
            FilterType::Avg => 3,
            FilterType::Paeth => 4,
        }
    }

    /// The filter that a tag byte names, if any.
    pub fn from_tag(b: u8) -> (r: Option<FilterType>)
        ensures
            r == FilterType::from_tag_spec(b),
    {
        match b {
            0 => Some(FilterType::NoFilter),
            1 => Some(FilterType::Sub),
            2 => Some(FilterType::Up),
            3 => Some(FilterType::Avg),
            4 => Some(FilterType::Paeth),
            _ => None,
        }
    }
}

/// `x - y` modulo 256.
pub open spec fn wrap_sub(x: u8, y: u8) -> u8 {
    ((x - y) % 256) as u8
}

/// `x + y` modulo 256.
pub open spec fn wrap_add(x: u8, y: u8) -> u8 {
    ((x + y) % 256) as u8
}

pub open spec fn abs_diff(x: int, y: int) -> int {
    if x >= y { x - y } else { y - x }
}

/// Whichever of `a`, `b`, `c` lies closest to `a + b - c`, ties going to `a`, then `b`.
pub open spec fn paeth_spec(a: u8, b: u8, c: u8) -> u8 {
    let p = a + b - c;
    let pa = abs_diff(p, a as int);
    let pb = abs_diff(p, b as int);
    let pc = abs_diff(p, c as int);
    if pa <= pb && pa <= pc {
        a
    } else if pb <= pc {
        b
    } else {
        c
    }
}

/// The byte that filter `t` predicts from the left byte `a`, the byte above `b`
/// and the byte above-left `c`.
pub open spec fn predict_spec(t: FilterType, a: u8, b: u8, c: u8) -> u8 {
    match t {
        FilterType::NoFilter => 0,
        FilterType::Sub => a,
        FilterType::Up => b,
        FilterType::Avg => ((a + b) / 2) as u8,
        FilterType::Paeth => paeth_spec(a, b, c),
    }
}

/// The byte `bpp` positions to the left of `x` in `row`, or 0 before the row starts.
pub open spec fn left_of(row: Seq<u8>, x: int, bpp: int) -> u8 {
    if x >= bpp { row[x - bpp] } else { 0 }
}

/// The byte above position `x`; a missing row above reads as zeros.
pub open spec fn above(prev: Option<Seq<u8>>, x: int) -> u8 {
    match prev {
        Some(p) => p[x],
        None => 0,
    }
}

/// The byte above and `bpp` positions to the left of `x`, or 0.
pub open spec fn above_left(prev: Option<Seq<u8>>, x: int, bpp: int) -> u8 {
    if x >= bpp { above(prev, x - bpp) } else { 0 }
}

/// The residual that filter `t` writes for byte `x` of `raw`.
pub open spec fn residual(t: FilterType, raw: Seq<u8>, prev: Option<Seq<u8>>, bpp: int, x: int) -> u8 {
    wrap_sub(raw[x], predict_spec(t, left_of(raw, x, bpp), above(prev, x), above_left(prev, x, bpp)))
}

/// The whole row `raw` filtered with `t`.
#[verifier::opaque]
pub open spec fn filter_row_spec(t: FilterType, raw: Seq<u8>, prev: Option<Seq<u8>>, bpp: int) -> Seq<u8> {
    Seq::new(raw.len(), |x: int| residual(t, raw, prev, bpp, x))
}

/// The first `n` bytes rebuilt from the filtered row `filt`, left to right, each
/// from its residual and the bytes already rebuilt.
pub open spec fn unfilter_row_spec(
    t: FilterType,
    filt: Seq<u8>,
    prev: Option<Seq<u8>>,
    bpp: int,
    n: nat,
) -> Seq<u8>
    decreases n,
{
    if n == 0 {
        Seq::empty()
    } else {
        let r = unfilter_row_spec(t, filt, prev, bpp, (n - 1) as nat);
        let x = n - 1;
        r.push(
            wrap_add(
                filt[x],
                predict_spec(t, left_of(r, x, bpp), above(prev, x), above_left(prev, x, bpp)),
            ),
        )
    }
}

pub open spec fn opt_view(prev: Option<&[u8]>) -> Option<Seq<u8>> {
    match prev {
        Some(p) => Some(p@),
        None => None,
    }
}

/// A row above, where there is one, is as long as the current row.
pub open spec fn prev_fits(prev: Option<&[u8]>, len: int) -> bool {
    match prev {
        Some(p) => p@.len() == len,
        None => true,
    }
}

/// The Paeth predictor of `a` (left), `b` (above) and `c` (above-left).
pub fn paeth_predictor(a: u8, b: u8, c: u8) -> (r: u8)
    ensures
        r == paeth_spec(a, b, c),
{
    let p: i16 = a as i16 + b as i16 - c as i16;
    let pa: i16 = if p >= a as i16 { p - a as i16 } else { a as i16 - p };
    let pb: i16 = if p >= b as i16 { p - b as i16 } else { b as i16 - p };
    let pc: i16 = if p >= c as i16 { p - c as i16 } else { c as i16 - p };
    if pa <= pb && pa <= pc {
        a
    } else if pb <= pc {
        b
    } else {
        c
    }
}

/// The byte that filter `t` predicts from its three neighbours.
pub fn predict(t: FilterType, a: u8, b: u8, c: u8) -> (r: u8)
    ensures
        r == predict_spec(t, a, b, c),
{
    match t {
        FilterType::NoFilter => 0,
        FilterType::Sub => a,
        FilterType::Up => b,
        FilterType::Avg => ((a as u16 + b as u16) / 2) as u8,
        FilterType::Paeth => paeth_predictor(a, b, c),
    }
}

pub(crate) fn above_at(prev: Option<&[u8]>, x: usize) -> (r: u8)
    requires
        match prev {
            Some(p) => x < p@.len(),
            None => true,
        },
    ensures
        r == above(opt_view(prev), x as int),
{
    match prev {
        Some(p) => p[x],
        None => 0,
    }
}

pub(crate) fn left_at(row: &[u8], x: usize, bpp: usize) -> (r: u8)
    requires
        x < row@.len(),
    ensures
        r == left_of(row@, x as int, bpp as int),
{
    if x >= bpp {
        row[x - bpp]
    } else {
        0
    }
}

pub(crate) fn above_left_at(prev: Option<&[u8]>, x: usize, bpp: usize) -> (r: u8)
    requires
        match prev {
            Some(p) => x < p@.len(),
            None => true,
        },
    ensures
        r == above_left(opt_view(prev), x as int, bpp as int),
{
    if x >= bpp {
        above_at(prev, x - bpp)
    } else {
        0
    }
}

/// Adding back what was subtracted, modulo 256, restores the byte.
proof fn lemma_wrap_sub_add(x: u8, y: u8)
    ensures
        wrap_sub(x, y) == (x as int - y as int) % 256,
        wrap_sub(x, 0) == x,
        wrap_add(wrap_sub(x, y), y) == x,
{
}

/// Appends `cur` filtered with Sub: each byte minus the byte `bpp` to its left.
pub fn filter_sub(cur: &[u8], bpp: usize, out: &mut Vec<u8>)
    requires
        bpp >= 1,
    ensures
        final(out)@ == old(out)@ + filter_row_spec(FilterType::Sub, cur@, None, bpp as int),
{
    let ghost start = out@;
    reveal(filter_row_spec);
    let ghost want = filter_row_spec(FilterType::Sub, cur@, None, bpp as int);
    let n = cur.len();
    let mut x: usize = 0;
    while x < n
        invariant
            n == cur@.len(),
            x <= n,
            want == filter_row_spec(FilterType::Sub, cur@, None, bpp as int),
            want.len() == n,
            out@ == start + want.subrange(0, x as int),
        decreases n - x,
    {
        let a = left_at(cur, x, bpp);
        out.push(cur[x].wrapping_sub(a));
        proof {
            reveal(filter_row_spec);
            lemma_wrap_sub_add(cur@[x as int], a);
            assert(want[x as int] == wrap_sub(cur@[x as int], a));
            assert(out@ =~= start + want.subrange(0, x + 1));
        }
        x += 1;
    }
    proof {
        assert(want.subrange(0, n as int) =~= want);
    }
}

/// Appends `cur` filtered with Up: each byte minus the byte above it.
pub fn filter_up(cur: &[u8], prev: Option<&[u8]>, out: &mut Vec<u8>)
    requires
        prev_fits(prev, cur@.len() as int),
    ensures
        final(out)@ == old(out)@ + filter_row_spec(FilterType::Up, cur@, opt_view(prev), 1),
{
    let ghost start = out@;
    reveal(filter_row_spec);
    let ghost want = filter_row_spec(FilterType::Up, cur@, opt_view(prev), 1);
    let n = cur.len();
    let mut x: usize = 0;
    while x < n
        invariant
            n == cur@.len(),
            x <= n,
            prev_fits(prev, n as int),
            want == filter_row_spec(FilterType::Up, cur@, opt_view(prev), 1),
            want.len() == n,
            out@ == start + want.subrange(0, x as int),
        decreases n - x,
    {
        let b = above_at(prev, x);
        out.push(cur[x].wrapping_sub(b));
        proof {
            reveal(filter_row_spec);
            lemma_wrap_sub_add(cur@[x as int], b);
            assert(want[x as int] == wrap_sub(cur@[x as int], b));
            assert(out@ =~= start + want.subrange(0, x + 1));
        }
        x += 1;
    }
    proof {
        assert(want.subrange(0, n as int) =~= want);
    }
}

/// Appends `cur` filtered with Average: each byte minus the floor of the mean of
/// the byte `bpp` to its left and the byte above it.
pub fn filter_avg(cur: &[u8], prev: Option<&[u8]>, bpp: usize, out: &mut Vec<u8>)
    requires
        bpp >= 1,
        prev_fits(prev, cur@.len() as int),
    ensures
        final(out)@ == old(out)@ + filter_row_spec(FilterType::Avg, cur@, opt_view(prev), bpp as int),
{
    let ghost start = out@;
    reveal(filter_row_spec);
    let ghost want = filter_row_spec(FilterType::Avg, cur@, opt_view(prev), bpp as int);
    let n = cur.len();
    let mut x: usize = 0;
    while x < n
        invariant
            n == cur@.len(),
            x <= n,
            prev_fits(prev, n as int),
            want == filter_row_spec(FilterType::Avg, cur@, opt_view(prev), bpp as int),
            want.len() == n,
            out@ == start + want.subrange(0, x as int),
        decreases n - x,
    {
        let a = left_at(cur, x, bpp);
        let b = above_at(prev, x);
        let m = ((a as u16 + b as u16) / 2) as u8;
        out.push(cur[x].wrapping_sub(m));
        proof {
            reveal(filter_row_spec);
            lemma_wrap_sub_add(cur@[x as int], m);
            assert(want[x as int] == wrap_sub(cur@[x as int], m));
            assert(out@ =~= start + want.subrange(0, x + 1));
        }
        x += 1;
    }
    proof {
        assert(want.subrange(0, n as int) =~= want);
    }
}

/// Appends `cur` filtered with Paeth: each byte minus the Paeth predictor of its
/// left, above and above-left neighbours.
pub fn filter_paeth(cur: &[u8], prev: Option<&[u8]>, bpp: usize, out: &mut Vec<u8>)
    requires
        bpp >= 1,
        prev_fits(prev, cur@.len() as int),
    ensures
        final(out)@ == old(out)@ + filter_row_spec(FilterType::Paeth, cur@, opt_view(prev), bpp as int),
{
    let ghost start = out@;
    reveal(filter_row_spec);
    let ghost want = filter_row_spec(FilterType::Paeth, cur@, opt_view(prev), bpp as int);
    let n = cur.len();
    let mut x: usize = 0;
    while x < n
        invariant
            n == cur@.len(),
            x <= n,
            prev_fits(prev, n as int),
            want == filter_row_spec(FilterType::Paeth, cur@, opt_view(prev), bpp as int),
            want.len() == n,
            out@ == start + want.subrange(0, x as int),
        decreases n - x,
    {
        let a = left_at(cur, x, bpp);
        let b = above_at(prev, x);
        let c = above_left_at(prev, x, bpp);
        let p = paeth_predictor(a, b, c);
        out.push(cur[x].wrapping_sub(p));
        proof {
            reveal(filter_row_spec);
            lemma_wrap_sub_add(cur@[x as int], p);
            assert(want[x as int] == wrap_sub(cur@[x as int], p));
            assert(out@ =~= start + want.subrange(0, x + 1));
        }
        x += 1;
    }
    proof {
        assert(want.subrange(0, n as int) =~= want);
    }
}

/// Rebuilds a row from its residuals `filt`, given the filter that made them and
/// the already rebuilt row above.
pub fn unfilter_row(t: FilterType, filt: &[u8], prev: Option<&[u8]>, bpp: usize) -> (r: Vec<u8>)
    requires
        bpp >= 1,
        prev_fits(prev, filt@.len() as int),
    ensures
        r@ == unfilter_row_spec(t, filt@, opt_view(prev), bpp as int, filt@.len()),
{
    reveal(unfilter_row_spec);
    let n = filt.len();
    let mut r: Vec<u8> = Vec::new();
    let mut x: usize = 0;
    while x < n
        invariant
            n == filt@.len(),
            x <= n,
            bpp >= 1,
            prev_fits(prev, n as int),
            r@.len() == x,
            r@ == unfilter_row_spec(t, filt@, opt_view(prev), bpp as int, x as nat),
        decreases n - x,
    {
        let a = if x >= bpp { r[x - bpp] } else { 0 };
        let b = above_at(prev, x);
        let c = above_left_at(prev, x, bpp);
        let p = predict(t, a, b, c);
        r.push(filt[x].wrapping_add(p));
        x += 1;
    }
    r
}

/// A filtered row is as long as the raw row.
pub proof fn lemma_filter_row_len(t: FilterType, raw: Seq<u8>, prev: Option<Seq<u8>>, bpp: int)
    ensures
        filter_row_spec(t, raw, prev, bpp).len() == raw.len(),
{
    reveal(filter_row_spec);
}

/// Rebuilding `n` bytes gives `n` bytes.
pub proof fn lemma_unfilter_row_len(t: FilterType, filt: Seq<u8>, prev: Option<Seq<u8>>, bpp: int, n: nat)
    ensures
        unfilter_row_spec(t, filt, prev, bpp, n).len() == n,
    decreases n,
{
    reveal(unfilter_row_spec);
    if n > 0 {
        lemma_unfilter_row_len(t, filt, prev, bpp, (n - 1) as nat);
    }
}

/// Rebuilding a filtered row gives back the raw row, for every filter.
pub proof fn lemma_row_round_trip(t: FilterType, raw: Seq<u8>, prev: Option<Seq<u8>>, bpp: int, n: nat)
    requires
        bpp >= 1,
        n <= raw.len(),
    ensures
        unfilter_row_spec(t, filter_row_spec(t, raw, prev, bpp), prev, bpp, n) == raw.subrange(0, n as int),
    decreases n,
{
    reveal(filter_row_spec);
    reveal(unfilter_row_spec);
    if n > 0 {
        lemma_row_round_trip(t, raw, prev, bpp, (n - 1) as nat);
        let filt = filter_row_spec(t, raw, prev, bpp);
        let r = unfilter_row_spec(t, filt, prev, bpp, (n - 1) as nat);
        let x = n - 1;
        assert(left_of(r, x, bpp) == left_of(raw, x, bpp));
        let p = predict_spec(t, left_of(raw, x, bpp), above(prev, x), above_left(prev, x, bpp));
        lemma_wrap_sub_add(raw[x], p);
        assert(unfilter_row_spec(t, filt, prev, bpp, n) =~= raw.subrange(0, n as int));
    }
}

} // verus!

verus! {

/// The residual that filter `t` gives byte `x` of `cur`.
pub(crate) fn residual_at(t: FilterType, cur: &[u8], prev: Option<&[u8]>, bpp: usize, x: usize) -> (r: u8)
    requires
        x < cur@.len(),
        prev_fits(prev, cur@.len() as int),
    ensures
        r == residual(t, cur@, opt_view(prev), bpp as int, x as int),
{
    let a = left_at(cur, x, bpp);
    let b = above_at(prev, x);
    let c = above_left_at(prev, x, bpp);
    let p = predict(t, a, b, c);
    proof {
        lemma_wrap_sub_add(cur@[x as int], p);
    }
    cur[x].wrapping_sub(p)
}

/// Appends `cur` unchanged, as the None filter does.
pub fn filter_none(cur: &[u8], out: &mut Vec<u8>)
    ensures
        final(out)@ == old(out)@ + filter_row_spec(FilterType::NoFilter, cur@, None, 1),
{
    let ghost start = out@;
    reveal(filter_row_spec);
    let ghost want = filter_row_spec(FilterType::NoFilter, cur@, None, 1);
    let n = cur.len();
    let mut x: usize = 0;
    while x < n
        invariant
            n == cur@.len(),
            x <= n,
            want == filter_row_spec(FilterType::NoFilter, cur@, None, 1),
            want.len() == n,
            out@ == start + want.subrange(0, x as int),
        decreases n - x,
    {
        out.push(cur[x]);
        proof {
            reveal(filter_row_spec);
            lemma_wrap_sub_add(cur@[x as int], 0);
            assert(want[x as int] == cur@[x as int]);
            assert(out@ =~= start + want.subrange(0, x + 1));
        }
        x += 1;
    }
    proof {
        assert(want.subrange(0, n as int) =~= want);
    }
}

/// Appends `cur` filtered with `t`.
pub fn filter_row(t: FilterType, cur: &[u8], prev: Option<&[u8]>, bpp: usize, out: &mut Vec<u8>)
    requires
        bpp >= 1,
        prev_fits(prev, cur@.len() as int),
    ensures
        final(out)@ == old(out)@ + filter_row_spec(t, cur@, opt_view(prev), bpp as int),
{
    reveal(filter_row_spec);
    let ghost want = filter_row_spec(t, cur@, opt_view(prev), bpp as int);
    match t {
        FilterType::NoFilter => {
            filter_none(cur, out);
            assert(filter_row_spec(t, cur@, None, 1) =~= want);
        },
        FilterType::Sub => {
            filter_sub(cur, bpp, out);
            assert(filter_row_spec(t, cur@, None, bpp as int) =~= want);
        },
        FilterType::Up => {
            filter_up(cur, prev, out);
            assert(filter_row_spec(t, cur@, opt_view(prev), 1) =~= want);
        },
        FilterType::Avg => filter_avg(cur, prev, bpp, out),
        FilterType::Paeth => filter_paeth(cur, prev, bpp, out),
    }
}

} // verus!
