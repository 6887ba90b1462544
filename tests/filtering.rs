use kompres::filter::{
    filter_avg, filter_none, filter_paeth, filter_row, filter_sub, filter_up, paeth_predictor,
    predict, unfilter_row, FilterType,
};
use kompres::geometry::{FilterError, ImageGeometry};
use kompres::select::{heuristic_filter, select_filter, SelectionPolicy};
use kompres::stream::{filtering, unfiltering};

const ALL: [FilterType; 5] = [
    FilterType::NoFilter,
    FilterType::Sub,
    FilterType::Up,
    FilterType::Avg,
    FilterType::Paeth,
];

fn sample(len: usize) -> Vec<u8> {
    let mut v = Vec::new();
    let mut x: u32 = 17;
    for _ in 0..len {
        x = x.wrapping_mul(1103515245).wrapping_add(12345);
        v.push((x >> 16) as u8);
    }
    v
}

#[test]
fn scenario_sub_then_up_two_by_two() {
    let mut out = Vec::new();
    filter_sub(&[10, 20], 1, &mut out);
    assert_eq!(out, vec![10, 10]);
    let mut out = Vec::new();
    filter_up(&[15, 25], Some(&[10, 20]), &mut out);
    assert_eq!(out, vec![5, 5]);
}

#[test]
fn scenario_two_by_two_streams() {
    let g = ImageGeometry::new(2, 2, 8);
    let buf = vec![10, 20, 15, 25];
    let sub = filtering(&buf, &g, SelectionPolicy::Fixed(FilterType::Sub)).unwrap();
    assert_eq!(sub, vec![1, 10, 10, 1, 15, 10]);
    let up = filtering(&buf, &g, SelectionPolicy::Fixed(FilterType::Up)).unwrap();
    assert_eq!(up, vec![2, 10, 20, 2, 5, 5]);
}

#[test]
fn scenario_paeth_exact_match_wins() {
    assert_eq!(paeth_predictor(50, 60, 55), 55);
    assert_eq!(predict(FilterType::Paeth, 50, 60, 55), 55);
}

#[test]
fn paeth_ties_prefer_left_then_above() {
    // p = 10 + 10 - 10 = 10: all distances 0 except none differ, left wins
    assert_eq!(paeth_predictor(10, 10, 10), 10);
    // p = 20 + 10 - 0 = 30: pa = 10, pb = 20, pc = 30
    assert_eq!(paeth_predictor(20, 10, 0), 20);
    // p = 0 + 20 - 10 = 10: pa = 10, pb = 10, pc = 0 -> c
    assert_eq!(paeth_predictor(0, 20, 10), 10);
    // p = 5 + 9 - 7 = 7: pa = 2, pb = 2, pc = 0 -> c
    assert_eq!(paeth_predictor(5, 9, 7), 7);
    // p = 100 + 3 - 50 = 53: pa = 47, pb = 50, pc = 3 -> c
    assert_eq!(paeth_predictor(100, 3, 50), 50);
    // p = 3 + 9 - 3 = 9: pa = 6, pb = 0 -> b
    assert_eq!(paeth_predictor(3, 9, 3), 9);
}

#[test]
fn scenario_sub_byte_depth() {
    let g = ImageGeometry::new(3, 1, 4);
    assert_eq!(g.row_stride(), Some(2));
    assert_eq!(g.bytes_per_pixel_unit(), 1);
    let buf = vec![0x12, 0x34];
    let sub = filtering(&buf, &g, SelectionPolicy::Fixed(FilterType::Sub)).unwrap();
    assert_eq!(sub, vec![1, 0x12, 0x22]);
    let avg = filtering(&buf, &g, SelectionPolicy::Fixed(FilterType::Avg)).unwrap();
    assert_eq!(avg, vec![3, 0x12, 0x34 - 0x09]);
    let paeth = filtering(&buf, &g, SelectionPolicy::Fixed(FilterType::Paeth)).unwrap();
    assert_eq!(paeth, vec![4, 0x12, 0x22]);
}

#[test]
fn stride_rounds_up() {
    assert_eq!(ImageGeometry::new(1, 1, 1).row_stride(), Some(1));
    assert_eq!(ImageGeometry::new(9, 1, 1).row_stride(), Some(2));
    assert_eq!(ImageGeometry::new(5, 1, 2).row_stride(), Some(2));
    assert_eq!(ImageGeometry::new(4, 1, 24).row_stride(), Some(12));
    assert_eq!(ImageGeometry::new(4, 1, 24).bytes_per_pixel_unit(), 3);
    assert_eq!(ImageGeometry::new(4, 1, 8).bytes_per_pixel_unit(), 1);
    assert_eq!(ImageGeometry::new(usize::MAX, 1, 16).row_stride(), None);
}

#[test]
fn multi_byte_pixels_step_by_unit() {
    let mut out = Vec::new();
    filter_sub(&[1, 2, 3, 5, 7, 9], 3, &mut out);
    assert_eq!(out, vec![1, 2, 3, 4, 5, 6]);
}

#[test]
fn residuals_wrap_modulo_256() {
    let mut out = Vec::new();
    filter_sub(&[200, 10], 1, &mut out);
    assert_eq!(out, vec![200, 66]);
    let mut out = Vec::new();
    filter_up(&[0], Some(&[1]), &mut out);
    assert_eq!(out, vec![255]);
}

#[test]
fn average_uses_floor() {
    let mut out = Vec::new();
    filter_avg(&[9, 20], Some(&[4, 7]), 1, &mut out);
    // x = 0: left 0, above 4 -> 2; x = 1: left 9, above 7 -> 8
    assert_eq!(out, vec![7, 12]);
}

#[test]
fn paeth_row_below_another() {
    let mut out = Vec::new();
    filter_paeth(&[15, 25], Some(&[10, 20]), 1, &mut out);
    // x = 0: a 0, b 10, c 0 -> p 10, pick b = 10; x = 1: a 15, b 20, c 10 -> p 25, pa 10, pb 5, pc 15 -> b
    assert_eq!(out, vec![5, 5]);
}

#[test]
fn none_filter_copies() {
    let mut out = vec![9];
    filter_none(&[1, 2, 3], &mut out);
    assert_eq!(out, vec![9, 1, 2, 3]);
}

#[test]
fn first_row_up_keeps_raw_bytes() {
    let g = ImageGeometry::new(4, 1, 8);
    let buf = vec![3, 250, 0, 77];
    let s = filtering(&buf, &g, SelectionPolicy::Fixed(FilterType::Up)).unwrap();
    assert_eq!(s, vec![2, 3, 250, 0, 77]);
}

#[test]
fn first_row_reads_zeros_above() {
    let raw = [40u8, 90, 13, 200];
    let zeros = [0u8; 4];
    for t in ALL {
        let mut a = Vec::new();
        filter_row(t, &raw, None, 1, &mut a);
        let mut b = Vec::new();
        filter_row(t, &raw, Some(&zeros), 1, &mut b);
        assert_eq!(a, b);
    }
}

#[test]
fn round_trip_every_fixed_filter() {
    for &(w, h, bits) in &[(5usize, 4usize, 24u32), (3, 3, 4), (7, 2, 8), (2, 5, 32), (11, 3, 1)] {
        let g = ImageGeometry::new(w, h, bits);
        let stride = g.row_stride().unwrap();
        let buf = sample(stride * h);
        for t in ALL {
            let s = filtering(&buf, &g, SelectionPolicy::Fixed(t)).unwrap();
            assert_eq!(unfiltering(&s, &g).unwrap(), buf);
        }
    }
}

#[test]
fn round_trip_heuristic() {
    let g = ImageGeometry::new(16, 8, 8);
    let mut buf = sample(16 * 8);
    for i in 0..16 {
        buf[16 + i] = (i * 3) as u8;
        buf[32 + i] = 7;
    }
    let s = filtering(&buf, &g, SelectionPolicy::Heuristic).unwrap();
    assert_eq!(unfiltering(&s, &g).unwrap(), buf);
}

#[test]
fn unfilter_row_inverts_each_filter() {
    let raw = [1u8, 200, 33, 4, 250, 6];
    let prev = [9u8, 8, 7, 6, 5, 4];
    for t in ALL {
        let mut f = Vec::new();
        filter_row(t, &raw, Some(&prev), 2, &mut f);
        assert_eq!(unfilter_row(t, &f, Some(&prev), 2), raw.to_vec());
    }
}

#[test]
fn determinism_of_fixed_and_heuristic() {
    let g = ImageGeometry::new(6, 5, 16);
    let buf = sample(12 * 5);
    for policy in [
        SelectionPolicy::Heuristic,
        SelectionPolicy::Fixed(FilterType::NoFilter),
        SelectionPolicy::Fixed(FilterType::Sub),
        SelectionPolicy::Fixed(FilterType::Up),
        SelectionPolicy::Fixed(FilterType::Avg),
        SelectionPolicy::Fixed(FilterType::Paeth),
    ] {
        assert_eq!(filtering(&buf, &g, policy), filtering(&buf, &g, policy));
    }
}

#[test]
fn tags_valid_and_length() {
    let g = ImageGeometry::new(9, 6, 8);
    let buf = sample(9 * 6);
    let s = filtering(&buf, &g, SelectionPolicy::Heuristic).unwrap();
    assert_eq!(s.len(), 6 * (1 + 9));
    for i in 0..6 {
        assert!(s[i * 10] <= 4);
    }
}

#[test]
fn heuristic_prefers_sub_on_flat_row() {
    // costs: None 28, Sub 7, Up 28, Average 19, Paeth 7: Sub wins the tie with Paeth
    assert_eq!(heuristic_filter(&[7, 7, 7, 7], None, 1), FilterType::Sub);
    assert_eq!(
        select_filter(SelectionPolicy::Heuristic, &[7, 7, 7, 7], None, 1),
        FilterType::Sub
    );
}

#[test]
fn heuristic_prefers_none_on_zero_row() {
    assert_eq!(heuristic_filter(&[0, 0, 0], None, 1), FilterType::NoFilter);
}

#[test]
fn heuristic_prefers_up_on_repeated_row() {
    let prev = [10u8, 200, 30, 140];
    assert_eq!(heuristic_filter(&prev, Some(&prev), 1), FilterType::Up);
}

#[test]
fn heuristic_reads_residuals_as_signed() {
    // None: 255 -> 1 each; Sub: 255, 0, 0 -> 1
    assert_eq!(heuristic_filter(&[255, 255, 255], None, 1), FilterType::Sub);
    assert_eq!(heuristic_filter(&[255, 0], None, 1), FilterType::NoFilter);
}

#[test]
fn fixed_policy_returns_its_filter() {
    for t in ALL {
        assert_eq!(select_filter(SelectionPolicy::Fixed(t), &[1, 2, 3], None, 1), t);
    }
}

#[test]
fn tag_bytes() {
    for (i, t) in ALL.iter().enumerate() {
        assert_eq!(t.tag(), i as u8);
        assert_eq!(FilterType::from_tag(i as u8), Some(*t));
    }
    assert_eq!(FilterType::from_tag(5), None);
}

#[test]
fn invalid_geometry_is_refused() {
    let buf = vec![1, 2, 3];
    for g in [ImageGeometry::new(0, 1, 8), ImageGeometry::new(3, 0, 8), ImageGeometry::new(3, 1, 0)] {
        assert_eq!(filtering(&buf, &g, SelectionPolicy::Heuristic), Err(FilterError::InvalidGeometry));
        assert_eq!(unfiltering(&buf, &g), Err(FilterError::InvalidGeometry));
    }
}

#[test]
fn length_mismatch_is_refused() {
    let g = ImageGeometry::new(2, 2, 8);
    assert_eq!(filtering(&[1, 2, 3], &g, SelectionPolicy::Heuristic), Err(FilterError::LengthMismatch));
    assert_eq!(unfiltering(&[0, 1, 2, 0, 3], &g), Err(FilterError::LengthMismatch));
    let huge = ImageGeometry::new(usize::MAX, 2, 16);
    assert_eq!(filtering(&[1], &huge, SelectionPolicy::Heuristic), Err(FilterError::LengthMismatch));
    assert_eq!(unfiltering(&[1], &huge), Err(FilterError::LengthMismatch));
}

#[test]
fn bad_tag_is_refused() {
    let g = ImageGeometry::new(2, 2, 8);
    assert_eq!(unfiltering(&[0, 1, 2, 5, 3, 4], &g), Err(FilterError::InvalidFilterTag));
    assert_eq!(unfiltering(&[0, 1, 2, 1, 3, 4], &g), Ok(vec![1, 2, 3, 7]));
}
