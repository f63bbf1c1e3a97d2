use cactus_sift::sift::coords::to_input_scale;
use cactus_sift::sift::descriptor::{descriptor_slot, DESCRIPTOR_HIST_LEN};
use cactus_sift::sift::orientation::{histogram_max, orientation_peaks, spread_orientations};
use cactus_sift::sift::refine::{advance_extremum, drop_marked};
use cactus_sift::sift::{draw_match, to_input_coordinates, PointPair, RgbCanvas, SIFTKeyPoint};

fn keypoint(x: u32, y: u32, octave: usize) -> SIFTKeyPoint {
    SIFTKeyPoint {
        x,
        y,
        size: 1.5f32.to_bits(),
        angle: 0,
        response: 7,
        octave,
        scale: 2,
        feature: [3u8; 128],
    }
}

fn bits(values: &[(usize, f32)]) -> [u32; 36] {
    let mut h = [0u32; 36];
    for &(i, v) in values {
        h[i] = v.to_bits();
    }
    h
}

#[test]
fn octave_one_keeps_coordinates() {
    assert_eq!(to_input_scale(100, 1), 100);
    assert_eq!(to_input_scale(0, 1), 0);
}

#[test]
fn octave_zero_halves_coordinates() {
    assert_eq!(to_input_scale(101, 0), 50);
    assert_eq!(to_input_scale(1, 0), 0);
}

#[test]
fn higher_octaves_double_coordinates() {
    assert_eq!(to_input_scale(100, 2), 200);
    assert_eq!(to_input_scale(100, 3), 400);
    assert_eq!(to_input_scale(3, 10), 1536);
}

#[test]
fn large_coordinates_round_to_f32() {
    assert_eq!(to_input_scale(16_777_217, 1), 16_777_216);
    assert_eq!(to_input_scale(16_777_219, 1), 16_777_220);
    assert_eq!(to_input_scale(0xffff_ff7f, 1), 0xffff_ff00);
}

#[test]
fn coordinates_saturate() {
    assert_eq!(to_input_scale(0xffff_ffff, 1), u32::MAX);
    assert_eq!(to_input_scale(0x1000_0000, 5), u32::MAX);
    assert_eq!(to_input_scale(1, 40), u32::MAX);
}

#[test]
fn octaves_wrap_as_i32() {
    assert_eq!(to_input_scale(1000, 0x1_0000_0001), 1000);
    assert_eq!(to_input_scale(1000, 0x8000_0001), 0);
}

#[test]
fn to_input_coordinates_maps_only_positions() {
    let mut kps = vec![keypoint(10, 20, 0), keypoint(10, 20, 1), keypoint(10, 20, 3)];
    to_input_coordinates(&mut kps);
    let pos: Vec<(u32, u32)> = kps.iter().map(|k| (k.x, k.y)).collect();
    assert_eq!(pos, vec![(5, 10), (10, 20), (40, 80)]);
    let octaves: Vec<usize> = kps.iter().map(|k| k.octave).collect();
    assert_eq!(octaves, vec![0, 1, 3]);
    for k in kps.iter() {
        assert_eq!((k.size, k.angle, k.response, k.scale), (1.5f32.to_bits(), 0, 7, 2));
        assert_eq!(k.feature, [3u8; 128]);
    }
}

#[test]
fn advance_moves_the_point() {
    assert_eq!(advance_extremum(10, 10, 1, 1, 2, 1, 20, 20), Some((11, 12, 2)));
}

#[test]
fn advance_rejects_the_left_and_top_border() {
    assert_eq!(advance_extremum(3, 10, 1, 0, 0, 0, 20, 20), None);
    assert_eq!(advance_extremum(10, 4, 1, 0, 0, 0, 20, 20), None);
}

#[test]
fn advance_keeps_the_last_column_and_row() {
    assert_eq!(advance_extremum(15, 15, 1, 0, 0, 0, 20, 20), Some((15, 15, 1)));
    assert_eq!(advance_extremum(15, 10, 1, 1, 0, 0, 20, 20), None);
    assert_eq!(advance_extremum(10, 15, 1, 0, 1, 0, 20, 20), None);
}

#[test]
fn advance_keeps_scales_one_to_three() {
    assert_eq!(advance_extremum(10, 10, 0, 0, 0, 0, 20, 20), None);
    assert_eq!(advance_extremum(10, 10, 1, 0, 0, 2, 20, 20), Some((10, 10, 3)));
    assert_eq!(advance_extremum(10, 10, 3, 0, 0, 1, 20, 20), None);
}

#[test]
fn drop_marked_removes_marked_indices() {
    let kps = vec![keypoint(1, 0, 0), keypoint(2, 0, 0), keypoint(3, 0, 0)];
    let kept = drop_marked(kps, &vec![1]);
    let xs: Vec<u32> = kept.iter().map(|k| k.x).collect();
    assert_eq!(xs, vec![1, 3]);
}

#[test]
fn drop_marked_with_nothing_marked_keeps_all() {
    let kps = vec![keypoint(1, 0, 0), keypoint(2, 0, 0)];
    let kept = drop_marked(kps, &Vec::new());
    let xs: Vec<u32> = kept.iter().map(|k| k.x).collect();
    assert_eq!(xs, vec![1, 2]);
}

#[test]
fn drop_marked_ignores_repeats_and_strays() {
    let kps = vec![keypoint(1, 0, 0), keypoint(2, 0, 0), keypoint(3, 0, 0)];
    let kept = drop_marked(kps, &vec![0, 2, 2, 7]);
    let xs: Vec<u32> = kept.iter().map(|k| k.x).collect();
    assert_eq!(xs, vec![2]);
}

#[test]
fn histogram_max_of_zeros_is_zero() {
    assert_eq!(histogram_max(&[0u32; 36]), 0);
}

#[test]
fn histogram_max_finds_the_largest_entry() {
    let h = bits(&[(3, 1.0), (10, 2.0), (20, 0.5)]);
    assert_eq!(histogram_max(&h), 2.0f32.to_bits());
}

#[test]
fn histogram_max_starts_from_zero() {
    let h = bits(&[(3, -1.0), (10, -0.0)]);
    assert_eq!(histogram_max(&h), 0);
}

#[test]
fn histogram_max_ignores_nans() {
    let h = bits(&[(0, f32::NAN), (5, 1.5), (6, f32::NAN)]);
    assert_eq!(histogram_max(&h), 1.5f32.to_bits());
}

#[test]
fn peaks_above_the_threshold() {
    let h = bits(&[(3, 1.0), (20, 0.9)]);
    assert_eq!(orientation_peaks(&h, 0.8f32.to_bits()), vec![3, 20]);
    assert_eq!(orientation_peaks(&h, 0.95f32.to_bits()), vec![3]);
}

#[test]
fn peaks_at_the_threshold_count() {
    let h = bits(&[(3, 1.0)]);
    assert_eq!(orientation_peaks(&h, 1.0f32.to_bits()), vec![3]);
}

#[test]
fn peaks_wrap_around() {
    assert_eq!(orientation_peaks(&bits(&[(0, 1.0)]), 0), vec![0]);
    assert_eq!(orientation_peaks(&bits(&[(35, 1.0)]), 0), vec![35]);
}

#[test]
fn at_most_every_other_bin_is_a_peak() {
    let mut values = Vec::new();
    for k in 0..36 {
        values.push((k, if k % 2 == 0 { 1.0 } else { 0.5 }));
    }
    let peaks = orientation_peaks(&bits(&values), 0);
    assert_eq!(peaks.len(), 18);
    assert_eq!(peaks, (0..36).step_by(2).collect::<Vec<usize>>());
}

#[test]
fn plateaus_are_not_peaks() {
    let h = bits(&[(3, 1.0), (4, 1.0)]);
    assert!(orientation_peaks(&h, 0).is_empty());
}

#[test]
fn spread_appends_further_orientations() {
    let kps = vec![keypoint(1, 1, 0), keypoint(2, 2, 0)];
    let angles = vec![vec![10, 20, 30], Vec::new()];
    let res = spread_orientations(kps, &angles);
    let got: Vec<(u32, u32)> = res.iter().map(|k| (k.x, k.angle)).collect();
    assert_eq!(got, vec![(1, 10), (2, 0), (1, 20), (1, 30)]);
    for k in res.iter() {
        assert_eq!((k.size, k.response, k.scale), (1.5f32.to_bits(), 7, 2));
    }
}

#[test]
fn spread_keeps_points_without_orientations() {
    let kps = vec![keypoint(1, 1, 0), keypoint(2, 2, 0)];
    let angles = vec![Vec::new(), vec![5, 6]];
    let res = spread_orientations(kps, &angles);
    let got: Vec<(u32, u32)> = res.iter().map(|k| (k.x, k.angle)).collect();
    assert_eq!(got, vec![(1, 0), (2, 5), (2, 6)]);
}

#[test]
fn canvas_from_raw_needs_three_bytes_per_pixel() {
    assert!(RgbCanvas::from_raw(2, 1, vec![0; 5]).is_none());
    let c = RgbCanvas::from_raw(2, 1, vec![1, 2, 3, 4, 5, 6, 7]).unwrap();
    assert_eq!(c.dimensions(), (2, 1));
    assert_eq!(c.into_raw(), vec![1, 2, 3, 4, 5, 6, 7]);
}

#[test]
fn draw_match_lays_out_the_images() {
    let img1 = RgbCanvas::from_raw(2, 1, vec![1, 2, 3, 4, 5, 6]).unwrap();
    let img2 = RgbCanvas::from_raw(2, 1, vec![7, 8, 9, 10, 11, 12]).unwrap();
    let res = draw_match(&img1, &img2, &Vec::new());
    assert_eq!(res.dimensions(), (4, 2));
    assert_eq!(
        res.into_raw(),
        vec![
            1, 2, 3, 4, 5, 6, 0, 0, 0, 0, 0, 0, //
            0, 0, 0, 0, 0, 0, 7, 8, 9, 10, 11, 12,
        ]
    );
}

#[test]
fn draw_match_draws_a_red_line() {
    let img1 = RgbCanvas::from_raw(4, 1, vec![10; 12]).unwrap();
    let img2 = RgbCanvas::from_raw(4, 1, (20..32).collect()).unwrap();
    let pairs = vec![PointPair { x1: 0, y1: 1, x2: 2, y2: 0 }];
    let res = draw_match(&img1, &img2, &pairs);
    assert_eq!(res.dimensions(), (8, 2));
    let bytes = res.into_raw();
    let mut expected: Vec<u8> = vec![10; 12];
    expected.extend(vec![0u8; 12]);
    for _ in 0..7 {
        expected.extend([255u8, 0, 0]);
    }
    expected.extend([29u8, 30, 31]);
    assert_eq!(bytes, expected);
}

#[test]
fn draw_match_accepts_far_line_ends() {
    let img1 = RgbCanvas::from_raw(1, 1, vec![5, 6, 7]).unwrap();
    let img2 = RgbCanvas::from_raw(1, 1, vec![8, 9, 10]).unwrap();
    let pairs = vec![PointPair { x1: 1 << 21, y1: 0, x2: 0, y2: 0 }];
    let res = draw_match(&img1, &img2, &pairs);
    assert_eq!(res.dimensions(), (2, 2));
    assert_eq!(res.into_raw(), vec![5, 6, 7, 0, 0, 0, 0, 0, 0, 255, 0, 0]);
}

#[test]
fn pixels_off_the_lines_show_the_images() {
    let img1 = RgbCanvas::from_raw(3, 3, (1..28).collect()).unwrap();
    let img2 = RgbCanvas::from_raw(3, 3, (101..128).collect()).unwrap();
    // A line from (1, 0) to (4, 5): steep, drawn along rows 0 to 5.
    let pairs = vec![PointPair { x1: 1, y1: 0, x2: 1, y2: 2 }];
    let res = draw_match(&img1, &img2, &pairs);
    assert_eq!(res.dimensions(), (6, 6));
    let bytes = res.into_raw();
    assert_eq!(bytes.len(), 108);
    // Every pixel is in a drawn row, so compare a picture with no lines on
    // the pixels the routine leaves alone: those two or more columns away
    // from the segment's column at their row.
    let plain = draw_match(&img1, &img2, &Vec::new()).into_raw();
    for py in 0..6usize {
        let x_on_line = 1.0 + 3.0 * (py as f32) / 5.0;
        for px in 0..6usize {
            if (px as f32 - x_on_line).abs() >= 2.0 {
                let k = 3 * (py * 6 + px);
                assert_eq!(bytes[k..k + 3], plain[k..k + 3]);
            }
        }
    }
}

#[test]
fn descriptor_slots_span_the_histogram() {
    assert_eq!(DESCRIPTOR_HIST_LEN, 360);
    assert_eq!(descriptor_slot(-1, -1, 0, 0, 0, 0), Some(0));
    assert_eq!(descriptor_slot(0, 0, 3, 0, 1, 1), Some(60 + 20 + 4));
    assert_eq!(descriptor_slot(3, 3, 8, 1, 1, 1), Some(359));
}

#[test]
fn descriptor_slots_outside_the_histogram_are_refused() {
    assert_eq!(descriptor_slot(3, 3, 9, 1, 1, 1), None);
    assert_eq!(descriptor_slot(-1, -1, -1, 0, 0, 0), None);
    assert_eq!(descriptor_slot(0, 0, i32::MAX, 0, 0, 1), None);
}

#[test]
fn canvas_of_zero_height_holds_no_bytes() {
    let c = RgbCanvas::from_raw(4, 0, Vec::new()).unwrap();
    assert_eq!(c.dimensions(), (4, 0));
    assert!(c.into_raw().is_empty());
}
