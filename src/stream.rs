//! Whole-image filtering: a raster into a tagged filtered stream, and back.

use vstd::prelude::*;
use vstd::slice::slice_subrange;
use crate::filter::{
    residual, above, above_left,
    FilterType, filter_row_spec, unfilter_row_spec, opt_view, filter_row, unfilter_row,
    lemma_row_round_trip, lemma_filter_row_len, lemma_unfilter_row_len,
};
use crate::geometry::{FilterError, ImageGeometry};
use crate::select::{SelectionPolicy, choice_spec, select_filter};

verus! {

/// Row `i` of a raster whose rows are `stride` bytes.
pub open spec fn row_of(buf: Seq<u8>, stride: int, i: int) -> Seq<u8> {
    buf.subrange(i * stride, i * stride + stride)
}

/// The row above row `i`; row 0 has none.
pub open spec fn prev_of(buf: Seq<u8>, stride: int, i: int) -> Option<Seq<u8>> {
    if i == 0 { None } else { Some(row_of(buf, stride, i - 1)) }
}

/// The filter that `policy` picks for row `i` of `buf`.
pub open spec fn chosen_filter(buf: Seq<u8>, stride: int, bpp: int, policy: SelectionPolicy, i: int) -> FilterType {
    choice_spec(policy, row_of(buf, stride, i), prev_of(buf, stride, i), bpp)
}

/// The first `n` rows of `buf` filtered: each row's tag byte, then its residuals.
pub open spec fn filtered_rows(buf: Seq<u8>, stride: int, bpp: int, policy: SelectionPolicy, n: nat) -> Seq<u8>
    decreases n,
{
    if n == 0 {
        Seq::empty()
    } else {
        let i = n - 1;
        let t = chosen_filter(buf, stride, bpp, policy, i);
        filtered_rows(buf, stride, bpp, policy, (n - 1) as nat) + seq![t.tag_spec()]
            + filter_row_spec(t, row_of(buf, stride, i), prev_of(buf, stride, i), bpp)
    }
}

/// Where row `i` starts in a filtered stream.
pub open spec fn tag_pos(stride: int, i: int) -> int {
    i * (stride + 1)
}

/// The filter that the tag of row `i` of stream `s` names (None where it names none).
pub open spec fn tag_of(s: Seq<u8>, stride: int, i: int) -> FilterType {
    match FilterType::from_tag_spec(s[tag_pos(stride, i)]) {
        Some(t) => t,
        None => FilterType::NoFilter,
    }
}

/// The residuals of row `i` of stream `s`.
pub open spec fn residuals_of(s: Seq<u8>, stride: int, i: int) -> Seq<u8> {
    s.subrange(tag_pos(stride, i) + 1, tag_pos(stride, i) + 1 + stride)
}

/// The first `n` rows rebuilt from stream `s`, top to bottom, each from the row
/// rebuilt above it.
pub open spec fn unfiltered_rows(s: Seq<u8>, stride: int, bpp: int, n: nat) -> Seq<u8>
    decreases n,
{
    if n == 0 {
        Seq::empty()
    } else {
        let i = n - 1;
        let done = unfiltered_rows(s, stride, bpp, (n - 1) as nat);
        done + unfilter_row_spec(
            tag_of(s, stride, i),
            residuals_of(s, stride, i),
            prev_of(done, stride, i),
            bpp,
            stride as nat,
        )
    }
}

/// What filtering `buf` under geometry `g` and `policy` gives.
pub open spec fn filter_result(buf: Seq<u8>, g: ImageGeometry, policy: SelectionPolicy) -> Result<Seq<u8>, FilterError> {
    if !g.is_valid() {
        Err(FilterError::InvalidGeometry)
    } else if buf.len() != g.height * g.stride_spec() {
        Err(FilterError::LengthMismatch)
    } else {
        Ok(filtered_rows(buf, g.stride_spec(), g.unit_spec(), policy, g.height as nat))
    }
}

/// Every row of `s` leads with a tag that names a filter.
pub open spec fn tags_valid(s: Seq<u8>, stride: int, height: int) -> bool {
    forall|i: int| 0 <= i < height ==> #[trigger] s[tag_pos(stride, i)] <= 4
}

/// What rebuilding the raster from stream `s` under geometry `g` gives.
pub open spec fn unfilter_result(s: Seq<u8>, g: ImageGeometry) -> Result<Seq<u8>, FilterError> {
    if !g.is_valid() {
        Err(FilterError::InvalidGeometry)
    } else if s.len() != g.height * (g.stride_spec() + 1) {
        Err(FilterError::LengthMismatch)
    } else if !tags_valid(s, g.stride_spec(), g.height as int) {
        Err(FilterError::InvalidFilterTag)
    } else {
        Ok(unfiltered_rows(s, g.stride_spec(), g.unit_spec(), g.height as nat))
    }
}

pub open spec fn result_view(r: Result<Vec<u8>, FilterError>) -> Result<Seq<u8>, FilterError> {
    match r {
        Ok(v) => Ok(v@),
        Err(e) => Err(e),
    }
}

proof fn lemma_row_arith(i: int, h: int, w: int)
    requires
        0 <= i < h,
        0 <= w,
    ensures
        0 <= i * w,
        i * w + w == (i + 1) * w,
        forall|j: int| j == i + 1 ==> i * w + w == #[trigger] (j * w),
        (i + 1) * w <= h * w,
{
    assert(0 <= i * w) by (nonlinear_arith)
        requires
            0 <= i,
            0 <= w,
    ;
    assert(i * w + w == (i + 1) * w) by (nonlinear_arith);
    let j = i + 1;
    assert(i * w + w == j * w) by (nonlinear_arith)
        requires
            j == i + 1,
    ;
    assert((i + 1) * w <= h * w) by (nonlinear_arith)
        requires
            i + 1 <= h,
            0 <= w,
    ;
}

proof fn lemma_zero_mul(n: int, w: int)
    requires
        n == 0,
    ensures
        n * w == 0,
{
    assert(n * w == 0) by (nonlinear_arith)
        requires
            n == 0,
    ;
}

proof fn lemma_stride_positive(g: ImageGeometry)
    requires
        g.is_valid(),
    ensures
        g.stride_spec() >= 1,
        g.height * g.stride_spec() >= g.stride_spec(),
{
    assert(g.width * g.bits_per_pixel >= 1) by (nonlinear_arith)
        requires
            g.width >= 1,
            g.bits_per_pixel >= 1,
    ;
    let s = g.stride_spec();
    assert(g.height * s >= s) by (nonlinear_arith)
        requires
            g.height >= 1,
            s >= 1,
    ;
}

proof fn lemma_filtered_len(buf: Seq<u8>, stride: int, bpp: int, policy: SelectionPolicy, n: nat)
    requires
        stride >= 0,
        n * stride <= buf.len(),
    ensures
        filtered_rows(buf, stride, bpp, policy, n).len() == n * (stride + 1),
    decreases n,
{
    if n > 0 {
        let i = n - 1;
        lemma_row_arith(i, n as int, stride);
        lemma_filtered_len(buf, stride, bpp, policy, i as nat);
        lemma_row_arith(i, n as int, stride + 1);
        let t = chosen_filter(buf, stride, bpp, policy, i);
        assert(row_of(buf, stride, i).len() == stride);
        lemma_filter_row_len(t, row_of(buf, stride, i), prev_of(buf, stride, i), bpp);
        assert(filtered_rows(buf, stride, bpp, policy, n) == filtered_rows(buf, stride, bpp, policy, i as nat) + seq![t.tag_spec()]
            + filter_row_spec(t, row_of(buf, stride, i), prev_of(buf, stride, i), bpp));
    } else {
        lemma_zero_mul(n as int, stride + 1);
    }
}

proof fn lemma_filtered_prefix(buf: Seq<u8>, stride: int, bpp: int, policy: SelectionPolicy, m: nat, n: nat)
    requires
        stride >= 0,
        m <= n,
        n * stride <= buf.len(),
    ensures
        filtered_rows(buf, stride, bpp, policy, n).subrange(0, m * (stride + 1))
            == filtered_rows(buf, stride, bpp, policy, m),
    decreases n,
{
    lemma_filtered_len(buf, stride, bpp, policy, n);
    if m == n {
        assert(filtered_rows(buf, stride, bpp, policy, n).subrange(0, m * (stride + 1))
            =~= filtered_rows(buf, stride, bpp, policy, m));
    } else {
        lemma_row_arith(n - 1, n as int, stride);
        lemma_filtered_len(buf, stride, bpp, policy, (n - 1) as nat);
        lemma_filtered_prefix(buf, stride, bpp, policy, m, (n - 1) as nat);
        assert(m * (stride + 1) <= (n - 1) * (stride + 1)) by (nonlinear_arith)
            requires
                m <= n - 1,
                stride >= 0,
        ;
        assert(filtered_rows(buf, stride, bpp, policy, n).subrange(0, m * (stride + 1))
            =~= filtered_rows(buf, stride, bpp, policy, (n - 1) as nat).subrange(0, m * (stride + 1)));
    }
}

/// Row `i` of the filtered stream holds the tag and the residuals of the filter
/// chosen for row `i`.
proof fn lemma_filtered_row(buf: Seq<u8>, stride: int, bpp: int, policy: SelectionPolicy, n: nat, i: int)
    requires
        stride >= 0,
        0 <= i < n,
        n * stride <= buf.len(),
    ensures
        ({
            let s = filtered_rows(buf, stride, bpp, policy, n);
            let t = chosen_filter(buf, stride, bpp, policy, i);
            &&& s[tag_pos(stride, i)] == t.tag_spec()
            &&& residuals_of(s, stride, i) == filter_row_spec(t, row_of(buf, stride, i), prev_of(buf, stride, i), bpp)
        }),
{
    let s = filtered_rows(buf, stride, bpp, policy, n);
    lemma_row_arith(i, n as int, stride);
    lemma_row_arith(i, n as int, stride + 1);
    lemma_filtered_prefix(buf, stride, bpp, policy, (i + 1) as nat, n);
    lemma_filtered_len(buf, stride, bpp, policy, i as nat);
    lemma_filtered_len(buf, stride, bpp, policy, n);
    let t = chosen_filter(buf, stride, bpp, policy, i);
    let f = filtered_rows(buf, stride, bpp, policy, i as nat);
    let row = filter_row_spec(t, row_of(buf, stride, i), prev_of(buf, stride, i), bpp);
    let p = filtered_rows(buf, stride, bpp, policy, (i + 1) as nat);
    let k = tag_pos(stride, i);
    lemma_filter_row_len(t, row_of(buf, stride, i), prev_of(buf, stride, i), bpp);
    assert(row.len() == stride);
    assert(p == f + seq![t.tag_spec()] + row);
    assert(f.len() == k);
    assert(s.subrange(0, k + 1 + stride) == p);
    assert(p[k] == t.tag_spec());
    assert(s[k] == p[k]);
    assert(p.subrange(k + 1, k + 1 + stride) =~= row);
    assert(residuals_of(s, stride, i) =~= p.subrange(k + 1, k + 1 + stride));
}

proof fn lemma_unfiltered_len(s: Seq<u8>, stride: int, bpp: int, n: nat)
    requires
        stride >= 0,
    ensures
        unfiltered_rows(s, stride, bpp, n).len() == n * stride,
    decreases n,
{
    if n > 0 {
        let i = n - 1;
        lemma_unfiltered_len(s, stride, bpp, i as nat);
        lemma_row_arith(i, n as int, stride);
        let done = unfiltered_rows(s, stride, bpp, i as nat);
        let row = unfilter_row_spec(tag_of(s, stride, i), residuals_of(s, stride, i), prev_of(done, stride, i), bpp, stride as nat);
        lemma_unfilter_row_len(tag_of(s, stride, i), residuals_of(s, stride, i), prev_of(done, stride, i), bpp, stride as nat);
        assert(unfiltered_rows(s, stride, bpp, n) == done + row);
    } else {
        lemma_zero_mul(n as int, stride);
    }
}

/// Rebuilding the first `n` rows of a filtered raster gives its first `n` rows.
proof fn lemma_rows_round_trip(buf: Seq<u8>, stride: int, bpp: int, policy: SelectionPolicy, h: nat, n: nat)
    requires
        stride >= 0,
        bpp >= 1,
        n <= h,
        buf.len() == h * stride,
    ensures
        unfiltered_rows(filtered_rows(buf, stride, bpp, policy, h), stride, bpp, n)
            == buf.subrange(0, n * stride),
    decreases n,
{
    let s = filtered_rows(buf, stride, bpp, policy, h);
    if n == 0 {
        lemma_zero_mul(n as int, stride);
        assert(buf.subrange(0, 0) =~= Seq::<u8>::empty());
    } else {
        let i = n - 1;
        lemma_rows_round_trip(buf, stride, bpp, policy, h, (n - 1) as nat);
        lemma_row_arith(i, h as int, stride);
        lemma_filtered_row(buf, stride, bpp, policy, h, i);
        let t = chosen_filter(buf, stride, bpp, policy, i);
        assert(FilterType::from_tag_spec(t.tag_spec()) == Some(t));
        let done = unfiltered_rows(s, stride, bpp, (n - 1) as nat);
        if i > 0 {
            lemma_row_arith(i - 1, h as int, stride);
            assert(row_of(done, stride, i - 1) =~= row_of(buf, stride, i - 1));
        }
        assert(prev_of(done, stride, i) == prev_of(buf, stride, i));
        lemma_row_round_trip(t, row_of(buf, stride, i), prev_of(buf, stride, i), bpp, stride as nat);
        assert(row_of(buf, stride, i).subrange(0, stride) =~= row_of(buf, stride, i));
        assert(done + row_of(buf, stride, i) =~= buf.subrange(0, n * stride));
    }
}

/// Rebuilding a filtered raster gives back the raster, whatever filters were chosen.
pub proof fn lemma_round_trip(buf: Seq<u8>, g: ImageGeometry, policy: SelectionPolicy)
    requires
        filter_result(buf, g, policy) is Ok,
    ensures
        unfilter_result(filter_result(buf, g, policy)->Ok_0, g) == Ok::<Seq<u8>, FilterError>(buf),
{
    let stride = g.stride_spec();
    let bpp = g.unit_spec();
    let h = g.height as nat;
    lemma_stride_positive(g);
    let s = filtered_rows(buf, stride, bpp, policy, h);
    lemma_filtered_len(buf, stride, bpp, policy, h);
    lemma_tags_valid(buf, g, policy);
    lemma_rows_round_trip(buf, stride, bpp, policy, h, h);
    assert(buf.subrange(0, h * stride) =~= buf);
}

/// Every row of a filtered raster leads with the tag of one of the five filters.
pub proof fn lemma_tags_valid(buf: Seq<u8>, g: ImageGeometry, policy: SelectionPolicy)
    requires
        filter_result(buf, g, policy) is Ok,
    ensures
        tags_valid(filter_result(buf, g, policy)->Ok_0, g.stride_spec(), g.height as int),
{
    let stride = g.stride_spec();
    let bpp = g.unit_spec();
    let h = g.height as nat;
    lemma_stride_positive(g);
    let s = filtered_rows(buf, stride, bpp, policy, h);
    assert forall|i: int| 0 <= i < g.height implies
        #[trigger] s[tag_pos(stride, i)] <= 4 by {
        lemma_filtered_row(buf, stride, bpp, policy, h, i);
    }
}

/// A filtered raster is one tag byte plus one stride of residuals per row.
pub proof fn lemma_filtered_length(buf: Seq<u8>, g: ImageGeometry, policy: SelectionPolicy)
    requires
        filter_result(buf, g, policy) is Ok,
    ensures
        filter_result(buf, g, policy)->Ok_0.len() == g.height * (1 + g.stride_spec()),
{
    lemma_stride_positive(g);
    lemma_filtered_len(buf, g.stride_spec(), g.unit_spec(), policy, g.height as nat);
}

/// Two runs of the filter on the same raster, geometry and policy give the same
/// stream: the result is a function of those three alone.
pub proof fn lemma_deterministic(
    buf: Seq<u8>,
    g: ImageGeometry,
    policy: SelectionPolicy,
    r1: Result<Vec<u8>, FilterError>,
    r2: Result<Vec<u8>, FilterError>,
)
    requires
        result_view(r1) == filter_result(buf, g, policy),
        result_view(r2) == filter_result(buf, g, policy),
    ensures
        result_view(r1) == result_view(r2),
{
}

/// Under Up, the first row of a filtered raster holds the raw bytes of that row:
/// the missing row above reads as zeros.
pub proof fn lemma_first_row_up(buf: Seq<u8>, g: ImageGeometry)
    requires
        filter_result(buf, g, SelectionPolicy::Fixed(FilterType::Up)) is Ok,
    ensures
        ({
            let s = filter_result(buf, g, SelectionPolicy::Fixed(FilterType::Up))->Ok_0;
            &&& s[0] == FilterType::Up.tag_spec()
            &&& residuals_of(s, g.stride_spec(), 0) == row_of(buf, g.stride_spec(), 0)
        }),
{
    let stride = g.stride_spec();
    let policy = SelectionPolicy::Fixed(FilterType::Up);
    lemma_stride_positive(g);
    lemma_filtered_row(buf, stride, g.unit_spec(), policy, g.height as nat, 0);
    lemma_zero_mul(0, stride);
    lemma_zero_mul(0, stride + 1);
    lemma_first_row_zero_above(FilterType::Up, row_of(buf, stride, 0), g.unit_spec());
    reveal(filter_row_spec);
    assert(filter_row_spec(FilterType::Up, row_of(buf, stride, 0), None, g.unit_spec()) =~= row_of(buf, stride, 0));
}

/// Filtering the first row, which has none above it, is filtering it below a row
/// of zeros, for every filter.
pub proof fn lemma_first_row_zero_above(t: FilterType, raw: Seq<u8>, bpp: int)
    requires
        bpp >= 1,
    ensures
        filter_row_spec(t, raw, None, bpp)
            == filter_row_spec(t, raw, Some(Seq::new(raw.len(), |x: int| 0u8)), bpp),
{
    reveal(filter_row_spec);
    let zeros = Some(Seq::new(raw.len(), |x: int| 0u8));
    assert forall|x: int| 0 <= x < raw.len() implies
        #[trigger] residual(t, raw, None, bpp, x) == residual(t, raw, zeros, bpp, x) by {
        assert(above(zeros, x) == 0);
        assert(above_left(zeros, x, bpp) == 0);
    }
    assert(filter_row_spec(t, raw, None, bpp) =~= filter_row_spec(t, raw, zeros, bpp));
}

/// Filters every row of `buffer`, top to bottom, each with the filter that
/// `policy` picks for it, and lays the rows out as tag byte then residuals.
pub fn filtering(buffer: &[u8], geometry: &ImageGeometry, policy: SelectionPolicy) -> (r: Result<Vec<u8>, FilterError>)
    ensures
        result_view(r) == filter_result(buffer@, *geometry, policy),
{
    let len = buffer.len();
    if geometry.width == 0 || geometry.height == 0 || geometry.bits_per_pixel == 0 {
        return Err(FilterError::InvalidGeometry);
    }
    proof {
        lemma_stride_positive(*geometry);
    }
    let stride = match geometry.row_stride() {
        Some(s) => s,
        None => return Err(FilterError::LengthMismatch),
    };
    let total = match geometry.height.checked_mul(stride) {
        Some(t) => t,
        None => return Err(FilterError::LengthMismatch),
    };
    if len != total {
        return Err(FilterError::LengthMismatch);
    }
    let bpp = geometry.bytes_per_pixel_unit();
    let height = geometry.height;
    let ghost st = stride as int;
    let mut out: Vec<u8> = Vec::new();
    let mut i: usize = 0;
    while i < height
        invariant
            i <= height,
            height == geometry.height,
            st == stride,
            st == geometry.stride_spec(),
            st >= 1,
            bpp == geometry.unit_spec(),
            bpp >= 1,
            buffer@.len() == height * st,
            buffer@.len() <= usize::MAX,
            out@ == filtered_rows(buffer@, st, bpp as int, policy, i as nat),
        decreases height - i,
    {
        proof {
            lemma_row_arith(i as int, height as int, st);
        }
        let start = i * stride;
        let cur = slice_subrange(buffer, start, start + stride);
        let prev = if i == 0 {
            None
        } else {
            proof {
                lemma_row_arith(i - 1, height as int, st);
            }
            Some(slice_subrange(buffer, start - stride, start))
        };
        assert(cur@ == row_of(buffer@, st, i as int));
        assert(opt_view(prev) == prev_of(buffer@, st, i as int));
        let t = select_filter(policy, cur, prev, bpp);
        out.push(t.tag());
        filter_row(t, cur, prev, bpp, &mut out);
        i += 1;
    }
    Ok(out)
}

/// Rebuilds the raster from a filtered stream, top to bottom, each row from its
/// tag, its residuals and the row rebuilt above it.
pub fn unfiltering(stream: &[u8], geometry: &ImageGeometry) -> (r: Result<Vec<u8>, FilterError>)
    ensures
        result_view(r) == unfilter_result(stream@, *geometry),
{
    let len = stream.len();
    if geometry.width == 0 || geometry.height == 0 || geometry.bits_per_pixel == 0 {
        return Err(FilterError::InvalidGeometry);
    }
    proof {
        lemma_stride_positive(*geometry);
        let g = *geometry;
        assert(g.height * (g.stride_spec() + 1) >= g.stride_spec() + 1) by (nonlinear_arith)
            requires
                g.height >= 1,
                g.stride_spec() >= 1,
        ;
    }
    let stride = match geometry.row_stride() {
        Some(s) => s,
        None => return Err(FilterError::LengthMismatch),
    };
    if stride == usize::MAX {
        return Err(FilterError::LengthMismatch);
    }
    let total = match geometry.height.checked_mul(stride + 1) {
        Some(t) => t,
        None => return Err(FilterError::LengthMismatch),
    };
    if len != total {
        return Err(FilterError::LengthMismatch);
    }
    let bpp = geometry.bytes_per_pixel_unit();
    let height = geometry.height;
    let ghost st = stride as int;
    proof {
        assert(height * st <= height * (st + 1)) by (nonlinear_arith)
            requires
                height >= 1,
                st >= 1,
        ;
        lemma_zero_mul(0, st);
    }
    let mut out: Vec<u8> = Vec::new();
    let mut i: usize = 0;
    while i < height
        invariant
            i <= height,
            height == geometry.height,
            st == stride,
            st == geometry.stride_spec(),
            st >= 1,
            bpp == geometry.unit_spec(),
            bpp >= 1,
            stream@.len() == height * (st + 1),
            stream@.len() <= usize::MAX,
            height * st <= stream@.len(),
            out@ == unfiltered_rows(stream@, st, bpp as int, i as nat),
            out@.len() == i * st,
            tags_valid(stream@, st, i as int),
        decreases height - i,
    {
        proof {
            lemma_row_arith(i as int, height as int, st + 1);
            lemma_row_arith(i as int, height as int, st);
        }
        let pos = i * (stride + 1);
        let t = match FilterType::from_tag(stream[pos]) {
            Some(t) => t,
            None => {
                assert(!tags_valid(stream@, st, height as int));
                return Err(FilterError::InvalidFilterTag);
            },
        };
        let filt = slice_subrange(stream, pos + 1, pos + 1 + stride);
        assert(filt@ == residuals_of(stream@, st, i as int));
        assert(t == tag_of(stream@, st, i as int));
        let mut row = if i == 0 {
            unfilter_row(t, filt, None, bpp)
        } else {
            proof {
                lemma_row_arith(i - 1, height as int, st);
            }
            let prev = slice_subrange(out.as_slice(), (i - 1) * stride, i * stride);
            assert(prev@ == row_of(out@, st, i - 1));
            unfilter_row(t, filt, Some(prev), bpp)
        };
        proof {
            lemma_unfilter_row_len(t, filt@, prev_of(out@, st, i as int), bpp as int, st as nat);
        }
        out.append(&mut row);
        i += 1;
    }
    Ok(out)
}

} // verus!
