use cactus_sift::sift::extrema::{is_scannable, EXTREMUM_THRESHOLD_BITS};
use cactus_sift::sift::{find_keypoints, DoGComputed, LumaBits};

fn flat(width: u32, height: u32, value: f32) -> LumaBits {
    LumaBits {
        width,
        height,
        data: vec![value.to_bits(); (width * height) as usize],
    }
}

fn with_sample(mut img: LumaBits, x: u32, y: u32, value: f32) -> LumaBits {
    let i = (y * img.width + x) as usize;
    img.data[i] = value.to_bits();
    img
}

fn one_octave(scales: Vec<LumaBits>) -> DoGComputed {
    DoGComputed {
        octave_cnt: 1,
        pyr_g: Vec::new(),
        pyr_dog: vec![scales],
    }
}

fn positions(dog: DoGComputed) -> Vec<(u32, u32, usize, usize)> {
    assert!(is_scannable(&dog.pyr_dog));
    let res = find_keypoints(dog);
    res.keypoints.iter().map(|k| (k.x, k.y, k.octave, k.scale)).collect()
}

#[test]
fn threshold_bits_are_those_of_the_contrast_threshold() {
    assert_eq!(EXTREMUM_THRESHOLD_BITS, ((0.5 * 0.04 / 3.0) as f32).to_bits());
}

#[test]
fn a_bright_spike_is_a_keypoint() {
    let dog = one_octave(vec![
        flat(11, 11, 0.0),
        with_sample(flat(11, 11, 0.0), 5, 5, 1.0),
        flat(11, 11, 0.0),
    ]);
    assert_eq!(positions(dog), vec![(5, 5, 0, 1)]);
}

#[test]
fn a_dark_spike_is_a_keypoint() {
    let dog = one_octave(vec![
        flat(11, 11, 0.0),
        with_sample(flat(11, 11, 0.0), 5, 5, -0.5),
        flat(11, 11, 0.0),
    ]);
    assert_eq!(positions(dog), vec![(5, 5, 0, 1)]);
}

#[test]
fn a_weak_spike_is_not_a_keypoint() {
    let dog = one_octave(vec![
        flat(11, 11, 0.0),
        with_sample(flat(11, 11, 0.0), 5, 5, 0.001),
        flat(11, 11, 0.0),
    ]);
    assert!(positions(dog).is_empty());
}

#[test]
fn a_flat_image_holds_plateau_keypoints() {
    // Every sample equals its neighbours, so each is both a maximum and a
    // minimum of its block once it reaches the threshold.
    let dog = one_octave(vec![flat(12, 11, 0.5), flat(12, 11, 0.5), flat(12, 11, 0.5)]);
    assert_eq!(positions(dog), vec![(5, 5, 0, 1), (6, 5, 0, 1)]);
}

#[test]
fn a_spike_outdone_in_the_next_scale_is_not_a_keypoint() {
    let dog = one_octave(vec![
        flat(11, 11, 0.0),
        with_sample(flat(11, 11, 0.0), 5, 5, 1.0),
        with_sample(flat(11, 11, 0.0), 6, 4, 2.0),
    ]);
    assert!(positions(dog).is_empty());
}

#[test]
fn a_nan_sample_is_not_a_keypoint() {
    let dog = one_octave(vec![
        flat(11, 11, 0.0),
        with_sample(flat(11, 11, 0.0), 5, 5, f32::NAN),
        flat(11, 11, 0.0),
    ]);
    assert!(positions(dog).is_empty());
}

#[test]
fn nan_neighbours_are_ignored() {
    let dog = one_octave(vec![
        with_sample(flat(11, 11, 0.0), 6, 6, f32::NAN),
        with_sample(with_sample(flat(11, 11, 0.0), 5, 5, 1.0), 4, 4, f32::NAN),
        flat(11, 11, 0.0),
    ]);
    assert_eq!(positions(dog), vec![(5, 5, 0, 1)]);
}

#[test]
fn a_neighbour_scale_of_nans_rules_out_a_keypoint() {
    let dog = one_octave(vec![
        flat(11, 11, f32::NAN),
        with_sample(flat(11, 11, 0.0), 5, 5, 1.0),
        flat(11, 11, 0.0),
    ]);
    assert!(positions(dog).is_empty());
}

#[test]
fn keypoints_come_in_scan_order() {
    let img = with_sample(with_sample(flat(13, 13, 0.0), 7, 5, 1.0), 5, 7, 1.0);
    let dog = DoGComputed {
        octave_cnt: 2,
        pyr_g: vec![vec![flat(1, 1, 3.0)]],
        pyr_dog: vec![
            vec![flat(13, 13, 0.0), img, flat(13, 13, 0.0), with_sample(flat(13, 13, 0.0), 6, 6, -1.0), flat(13, 13, 0.0)],
            vec![flat(11, 11, 0.0), with_sample(flat(11, 11, 0.0), 5, 5, 1.0), flat(11, 11, 0.0)],
        ],
    };
    assert!(is_scannable(&dog.pyr_dog));
    let res = find_keypoints(dog);
    let found: Vec<(u32, u32, usize, usize)> =
        res.keypoints.iter().map(|k| (k.x, k.y, k.octave, k.scale)).collect();
    assert_eq!(found, vec![(7, 5, 0, 1), (5, 7, 0, 1), (6, 6, 0, 3), (5, 5, 1, 1)]);
    assert_eq!(res.octave_cnt, 2);
    assert_eq!(res.pyr_g.len(), 1);
    assert_eq!(res.pyr_g[0][0].data, vec![3.0f32.to_bits()]);
    assert_eq!(res.pyr_dog.len(), 2);
    for k in res.keypoints.iter() {
        assert_eq!((k.size, k.angle, k.response), (0, 0, 0));
        assert_eq!(k.feature, [0u8; 128]);
    }
}

#[test]
fn the_border_is_never_scanned() {
    let dog = one_octave(vec![
        flat(11, 11, 0.0),
        with_sample(flat(11, 11, 0.0), 4, 5, 1.0),
        flat(11, 11, 0.0),
    ]);
    assert!(positions(dog).is_empty());
}

#[test]
fn octaves_without_inner_scales_hold_no_keypoints() {
    let dog = one_octave(vec![flat(11, 11, 1.0), flat(11, 11, 1.0)]);
    assert!(positions(dog).is_empty());
}

#[test]
fn small_images_are_scannable_and_empty() {
    let dog = one_octave(vec![flat(1, 1, 0.0), flat(10, 10, 1.0), flat(1, 1, 0.0)]);
    assert!(positions(dog).is_empty());
}

#[test]
fn an_empty_octave_is_not_scannable() {
    let pyr: Vec<Vec<LumaBits>> = vec![Vec::new()];
    assert!(!is_scannable(&pyr));
}

#[test]
fn a_short_buffer_is_not_scannable() {
    let mut img = flat(11, 11, 0.0);
    img.data.pop();
    let pyr = vec![vec![flat(11, 11, 0.0), img, flat(11, 11, 0.0)]];
    assert!(!is_scannable(&pyr));
}

#[test]
fn an_image_too_short_for_its_border_is_not_scannable() {
    let pyr = vec![vec![flat(11, 11, 0.0), flat(11, 4, 0.0), flat(11, 11, 0.0)]];
    assert!(!is_scannable(&pyr));
}

#[test]
fn a_smaller_neighbour_scale_read_by_the_scan_is_not_scannable() {
    // The plateau passes the maximum test on its own scale, so the scan reads
    // the narrower scale before it, one column past its edge.
    let pyr = vec![vec![flat(6, 11, 0.5), flat(11, 11, 0.5), flat(11, 11, 0.5)]];
    assert!(!is_scannable(&pyr));
}

#[test]
fn small_neighbour_scales_never_read_are_scannable() {
    // No sample reaches the threshold, so the scales around are never read.
    let dog = one_octave(vec![flat(1, 1, 0.0), flat(11, 11, 0.0), flat(1, 1, 0.0)]);
    assert!(positions(dog).is_empty());
}

#[test]
fn a_spike_beaten_on_its_own_scale_reads_no_neighbour() {
    // The sample is neither the largest nor the smallest of its own block.
    let img = with_sample(with_sample(flat(11, 11, 0.0), 5, 5, 1.0), 6, 6, 2.0);
    let img = with_sample(img, 4, 4, -1.0);
    let dog = one_octave(vec![flat(1, 1, 0.0), img, flat(1, 1, 0.0)]);
    assert!(positions(dog).is_empty());
}

#[test]
fn a_next_scale_read_only_after_the_previous_passes() {
    // The maximum test passes on the middle scale but fails on the previous
    // one, and the minimum test fails at once: the small next scale is
    // never read.
    let img = with_sample(flat(11, 11, 0.0), 5, 5, 1.0);
    let prev = with_sample(flat(11, 11, 0.0), 5, 5, 3.0);
    let dog = one_octave(vec![prev, img, flat(1, 1, 0.0)]);
    assert!(positions(dog).is_empty());
}

#[test]
fn a_small_next_scale_read_by_the_scan_is_not_scannable() {
    let img = with_sample(flat(11, 11, 0.0), 5, 5, 1.0);
    let pyr = vec![vec![flat(11, 11, 0.0), img, flat(1, 1, 0.0)]];
    assert!(!is_scannable(&pyr));
}

#[test]
fn an_empty_pyramid_is_scannable_and_empty() {
    let dog = DoGComputed { octave_cnt: 0, pyr_g: Vec::new(), pyr_dog: Vec::new() };
    assert!(positions(dog).is_empty());
}
