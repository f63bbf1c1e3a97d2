use cactus_sift::sift::{dist, match_1nn, match_2nn, DoGAndKPComputed, PointPair, SIFTKeyPoint};

fn feature_with(entries: &[(usize, u8)]) -> [u8; 128] {
    let mut f = [0u8; 128];
    for &(i, v) in entries {
        f[i] = v;
    }
    f
}

fn keypoint(x: u32, y: u32, feature: [u8; 128]) -> SIFTKeyPoint {
    SIFTKeyPoint {
        x,
        y,
        size: 0,
        angle: 0,
        response: 0,
        octave: 0,
        scale: 1,
        feature,
    }
}

fn with_keypoints(keypoints: Vec<SIFTKeyPoint>) -> DoGAndKPComputed {
    DoGAndKPComputed {
        octave_cnt: 0,
        pyr_g: Vec::new(),
        pyr_dog: Vec::new(),
        keypoints,
    }
}

fn pair(x1: u32, y1: u32, x2: u32, y2: u32) -> PointPair {
    PointPair { x1, y1, x2, y2 }
}

#[test]
fn dist_of_identical_descriptors_is_zero() {
    let f = feature_with(&[(0, 17), (5, 200), (127, 255)]);
    assert_eq!(dist(&f, &f), 0);
}

#[test]
fn dist_of_one_differing_entry() {
    let a = feature_with(&[(10, 3)]);
    let b = feature_with(&[]);
    assert_eq!(dist(&a, &b), 3);
}

#[test]
fn dist_is_euclidean() {
    let a = feature_with(&[(0, 3), (64, 4)]);
    let b = feature_with(&[]);
    assert_eq!(dist(&a, &b), 5);
}

#[test]
fn dist_rounds_the_root_down() {
    let a = feature_with(&[(0, 1), (1, 1)]);
    let b = feature_with(&[]);
    assert_eq!(dist(&a, &b), 1);
    let c = feature_with(&[(0, 2), (1, 2), (2, 2)]);
    assert_eq!(dist(&c, &b), 3);
}

#[test]
fn dist_of_extreme_descriptors() {
    let a = [255u8; 128];
    let b = [0u8; 128];
    // sqrt(128 * 255^2) = 2884.99...
    assert_eq!(dist(&a, &b), 2884);
}

#[test]
fn dist_is_symmetric() {
    let a = feature_with(&[(0, 9), (3, 100), (90, 7)]);
    let b = feature_with(&[(0, 200), (4, 1), (90, 70)]);
    assert_eq!(dist(&a, &b), dist(&b, &a));
}

#[test]
fn match_1nn_pairs_each_point_with_its_nearest() {
    let dog1 = with_keypoints(vec![
        keypoint(1, 2, feature_with(&[(0, 10)])),
        keypoint(3, 4, feature_with(&[(0, 100)])),
    ]);
    let dog2 = with_keypoints(vec![
        keypoint(50, 60, feature_with(&[(0, 95)])),
        keypoint(70, 80, feature_with(&[(0, 12)])),
    ]);
    let pairs = match_1nn(&dog1, &dog2);
    assert_eq!(pairs, vec![pair(1, 2, 70, 80), pair(3, 4, 50, 60)]);
}

#[test]
fn match_1nn_without_candidates_pairs_with_origin() {
    let dog1 = with_keypoints(vec![keypoint(7, 8, feature_with(&[(0, 1)]))]);
    let dog2 = with_keypoints(Vec::new());
    assert_eq!(match_1nn(&dog1, &dog2), vec![pair(7, 8, 0, 0)]);
}

#[test]
fn match_1nn_takes_the_first_of_equally_near_candidates() {
    let dog1 = with_keypoints(vec![keypoint(0, 0, feature_with(&[(0, 50)]))]);
    let dog2 = with_keypoints(vec![
        keypoint(10, 10, feature_with(&[(0, 60)])),
        keypoint(20, 20, feature_with(&[(0, 40)])),
        keypoint(30, 30, feature_with(&[(0, 70)])),
    ]);
    assert_eq!(match_1nn(&dog1, &dog2), vec![pair(0, 0, 10, 10)]);
}

#[test]
fn match_1nn_of_no_points_is_empty() {
    let dog1 = with_keypoints(Vec::new());
    let dog2 = with_keypoints(vec![keypoint(1, 1, feature_with(&[]))]);
    assert!(match_1nn(&dog1, &dog2).is_empty());
}

#[test]
fn match_1nn_of_a_set_with_itself_pairs_each_point_with_itself() {
    let kps = vec![
        keypoint(1, 1, feature_with(&[(0, 1)])),
        keypoint(2, 2, feature_with(&[(1, 1)])),
        keypoint(3, 3, feature_with(&[(2, 1)])),
    ];
    let dog1 = with_keypoints(kps.clone());
    let dog2 = with_keypoints(kps);
    assert_eq!(
        match_1nn(&dog1, &dog2),
        vec![pair(1, 1, 1, 1), pair(2, 2, 2, 2), pair(3, 3, 3, 3)]
    );
}

#[test]
fn match_2nn_keeps_a_single_candidate() {
    let dog1 = with_keypoints(vec![keypoint(4, 5, feature_with(&[(0, 30)]))]);
    let dog2 = with_keypoints(vec![keypoint(6, 7, feature_with(&[(0, 90)]))]);
    assert_eq!(match_2nn(&dog1, &dog2), vec![pair(4, 5, 6, 7)]);
}

#[test]
fn match_2nn_drops_points_without_candidates() {
    let dog1 = with_keypoints(vec![keypoint(4, 5, feature_with(&[(0, 30)]))]);
    let dog2 = with_keypoints(Vec::new());
    assert!(match_2nn(&dog1, &dog2).is_empty());
}

#[test]
fn match_2nn_keeps_a_clearly_nearer_candidate() {
    // distances 10 then 4: 4 < 0.8 * 10
    let dog1 = with_keypoints(vec![keypoint(1, 1, feature_with(&[(0, 100)]))]);
    let dog2 = with_keypoints(vec![
        keypoint(2, 2, feature_with(&[(0, 110)])),
        keypoint(3, 3, feature_with(&[(0, 104)])),
    ]);
    assert_eq!(match_2nn(&dog1, &dog2), vec![pair(1, 1, 3, 3)]);
}

#[test]
fn match_2nn_drops_at_the_ratio_boundary() {
    // distances 5 then 4: 4 is not below 0.8 * 5
    let dog1 = with_keypoints(vec![keypoint(1, 1, feature_with(&[(0, 100)]))]);
    let dog2 = with_keypoints(vec![
        keypoint(2, 2, feature_with(&[(0, 105)])),
        keypoint(3, 3, feature_with(&[(0, 104)])),
    ]);
    assert!(match_2nn(&dog1, &dog2).is_empty());
}

#[test]
fn match_2nn_compares_only_with_candidates_before_the_nearest() {
    // distances 4 then 5: the nearest comes first, nothing precedes it
    let dog1 = with_keypoints(vec![keypoint(1, 1, feature_with(&[(0, 100)]))]);
    let dog2 = with_keypoints(vec![
        keypoint(2, 2, feature_with(&[(0, 104)])),
        keypoint(3, 3, feature_with(&[(0, 105)])),
    ]);
    assert_eq!(match_2nn(&dog1, &dog2), vec![pair(1, 1, 2, 2)]);
}

#[test]
fn match_2nn_keeps_order_and_subset_of_match_1nn() {
    let dog1 = with_keypoints(vec![
        keypoint(1, 1, feature_with(&[(0, 100)])),
        keypoint(2, 2, feature_with(&[(0, 200)])),
        keypoint(3, 3, feature_with(&[(0, 10)])),
    ]);
    let dog2 = with_keypoints(vec![
        keypoint(10, 10, feature_with(&[(0, 105)])),
        keypoint(20, 20, feature_with(&[(0, 104)])),
        keypoint(30, 30, feature_with(&[(0, 12)])),
    ]);
    let one = match_1nn(&dog1, &dog2);
    let two = match_2nn(&dog1, &dog2);
    assert_eq!(one, vec![pair(1, 1, 20, 20), pair(2, 2, 10, 10), pair(3, 3, 30, 30)]);
    assert_eq!(two, vec![pair(2, 2, 10, 10), pair(3, 3, 30, 30)]);
    assert!(two.iter().all(|p| one.contains(p)));
}

#[test]
fn point_pair_default_is_zero() {
    assert_eq!(PointPair::default(), pair(0, 0, 0, 0));
}
