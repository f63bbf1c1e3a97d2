//! Matching keypoints of two images by the distance of their descriptors.
use vstd::prelude::*;

use super::keypoint::{DoGAndKPComputed, PointPair, SIFTKeyPoint};

verus! {

/// `x * x`.
pub open spec fn square(x: int) -> int {
    x * x
}

/// The sum of squared differences of the first `n` entries of `a` and `b`.
pub open spec fn sq_dist_prefix(a: Seq<u8>, b: Seq<u8>, n: nat) -> int
    decreases n,
{
    if n == 0 {
        0
    } else {
        sq_dist_prefix(a, b, (n - 1) as nat) + square(a[n - 1] - b[n - 1])
    }
}

/// The squared Euclidean distance of two descriptors.
pub open spec fn sq_dist(a: Seq<u8>, b: Seq<u8>) -> int {
    sq_dist_prefix(a, b, a.len())
}

/// `r` is the integer square root of `n`.
pub open spec fn is_floor_sqrt(n: int, r: int) -> bool {
    0 <= r && r * r <= n < (r + 1) * (r + 1)
}

/// The integer square root of `n >= 0`: the largest `r` with `r * r <= n`.
pub open spec fn floor_sqrt(n: int) -> int {
    choose|r: int| is_floor_sqrt(n, r)
}

/// The integer square root is unique.
pub proof fn lemma_floor_sqrt_unique(n: int, r: int, s: int)
    requires
        is_floor_sqrt(n, r),
        is_floor_sqrt(n, s),
    ensures
        r == s,
{
    if r < s {
        assert((r + 1) * (r + 1) <= s * s) by (nonlinear_arith)
            requires
                0 <= r,
                r + 1 <= s,
        ;
    } else if s < r {
        assert((s + 1) * (s + 1) <= r * r) by (nonlinear_arith)
            requires
                0 <= s,
                s + 1 <= r,
        ;
    }
}

/// `floor_sqrt` is the integer square root wherever one exists.
pub proof fn lemma_floor_sqrt_is(n: int, r: int)
    requires
        is_floor_sqrt(n, r),
    ensures
        floor_sqrt(n) == r,
{
    lemma_floor_sqrt_unique(n, r, floor_sqrt(n));
}

/// The distance of two descriptors as `dist` computes it: the integer square
/// root of the sum of squared differences.
pub open spec fn feature_dist(a: Seq<u8>, b: Seq<u8>) -> int {
    floor_sqrt(sq_dist(a, b))
}

/// The descriptor distance of two keypoints.
pub open spec fn kp_dist(k1: SIFTKeyPoint, k2: SIFTKeyPoint) -> int {
    feature_dist(k1.feature@, k2.feature@)
}

/// The largest sum of squared differences of two descriptors: 128 * 255^2.
pub const MAX_SQ_DIST: i64 = 8_323_200;

/// The integer square root of `n`.
fn isqrt(n: i64) -> (r: i64)
    requires
        n >= 0,
    ensures
        is_floor_sqrt(n as int, r as int),
{
    let mut lo: i64 = 0;
    let mut hi: i64 = 3_037_000_500;
    assert(3_037_000_500int * 3_037_000_500int > i64::MAX);
    while hi - lo > 1
        invariant
            0 <= lo < hi <= 3_037_000_500,
            lo * lo <= n,
            n < hi * hi,
        decreases hi - lo,
    {
        let mid = lo + (hi - lo) / 2;
        assert(0 <= mid * mid <= 3_037_000_500int * 3_037_000_500int) by (nonlinear_arith)
            requires
                0 <= mid <= 3_037_000_500,
        ;
        let sq = (mid as i128) * (mid as i128);
        if sq <= n as i128 {
            lo = mid;
        } else {
            hi = mid;
        }
    }
    lo
}


/// The squared difference of two bytes is at most 255^2.
proof fn lemma_byte_square(a: u8, b: u8)
    ensures
        0 <= square(a - b) <= 65025,
{
    assert(0 <= (a - b) * (a - b) <= 65025) by (nonlinear_arith)
        requires
            -255 <= a - b <= 255,
    ;
}

/// The distance of two descriptors: the integer square root of the sum of
/// the squared differences of their entries.
pub fn dist(f1: &[u8; 128], f2: &[u8; 128]) -> (d: i64)
    ensures
        d == feature_dist(f1@, f2@),
{
    let mut acc: i64 = 0;
    let mut i: usize = 0;
    while i < 128
        invariant
            i <= 128,
            f1@.len() == 128,
            f2@.len() == 128,
            acc == sq_dist_prefix(f1@, f2@, i as nat),
            0 <= acc <= i * 65025,
        decreases 128 - i,
    {
        let d = f1[i] as i64 - f2[i] as i64;
        proof {
            lemma_byte_square(f1@[i as int], f2@[i as int]);
        }
        acc = acc + d * d;
        i += 1;
    }
    let r = isqrt(acc);
    proof {
        lemma_floor_sqrt_is(acc as int, r as int);
    }
    r
}

/// `j` is the first of the first `n` candidates nearest to `k`.
pub open spec fn is_first_nearest_in(k: SIFTKeyPoint, cands: Seq<SIFTKeyPoint>, n: int, j: int) -> bool {
    &&& 0 <= j < n <= cands.len()
    &&& forall|m: int| 0 <= m < n ==> kp_dist(k, cands[j]) <= kp_dist(k, #[trigger] cands[m])
    &&& forall|m: int| 0 <= m < j ==> kp_dist(k, cands[j]) < kp_dist(k, #[trigger] cands[m])
}

/// The index of the first of the first `n` candidates nearest to `k`.
pub open spec fn first_nearest_in(k: SIFTKeyPoint, cands: Seq<SIFTKeyPoint>, n: int) -> int {
    choose|j: int| is_first_nearest_in(k, cands, n, j)
}

/// The index of the first candidate nearest to `k`.
pub open spec fn first_nearest(k: SIFTKeyPoint, cands: Seq<SIFTKeyPoint>) -> int {
    first_nearest_in(k, cands, cands.len() as int)
}

/// The first nearest candidate is unique.
pub proof fn lemma_first_nearest_unique(k: SIFTKeyPoint, cands: Seq<SIFTKeyPoint>, n: int, a: int, b: int)
    requires
        is_first_nearest_in(k, cands, n, a),
        is_first_nearest_in(k, cands, n, b),
    ensures
        a == b,
{
    if a < b {
        assert(kp_dist(k, cands[b]) < kp_dist(k, cands[a]));
        assert(kp_dist(k, cands[a]) <= kp_dist(k, cands[b]));
    } else if b < a {
        assert(kp_dist(k, cands[a]) < kp_dist(k, cands[b]));
        assert(kp_dist(k, cands[b]) <= kp_dist(k, cands[a]));
    }
}

/// `first_nearest_in` picks the first nearest candidate wherever one is known.
pub proof fn lemma_first_nearest_is(k: SIFTKeyPoint, cands: Seq<SIFTKeyPoint>, n: int, j: int)
    requires
        is_first_nearest_in(k, cands, n, j),
    ensures
        first_nearest_in(k, cands, n) == j,
{
    lemma_first_nearest_unique(k, cands, n, j, first_nearest_in(k, cands, n));
}

/// Among the first `n >= 1` candidates there is a first nearest one.
pub proof fn lemma_first_nearest_exists(k: SIFTKeyPoint, cands: Seq<SIFTKeyPoint>, n: int)
    requires
        1 <= n <= cands.len(),
    ensures
        is_first_nearest_in(k, cands, n, first_nearest_in(k, cands, n)),
    decreases n,
{
    if n == 1 {
        assert(is_first_nearest_in(k, cands, n, 0));
    } else {
        lemma_first_nearest_exists(k, cands, n - 1);
        let p = first_nearest_in(k, cands, n - 1);
        if kp_dist(k, cands[n - 1]) < kp_dist(k, cands[p]) {
            assert(is_first_nearest_in(k, cands, n, n - 1));
        } else {
            assert(is_first_nearest_in(k, cands, n, p));
        }
    }
}

/// The pair `match_1nn` makes for `k`: `k`'s position with that of its first
/// nearest candidate, or with `(0, 0)` when there is no candidate.
pub open spec fn nn_pair(k: SIFTKeyPoint, cands: Seq<SIFTKeyPoint>) -> PointPair {
    if cands.len() == 0 {
        PointPair { x1: k.x, y1: k.y, x2: 0, y2: 0 }
    } else {
        let j = first_nearest(k, cands);
        PointPair { x1: k.x, y1: k.y, x2: cands[j].x, y2: cands[j].y }
    }
}

/// The distance from `k` to its nearest candidate; `i64::MAX` when there is
/// none.
pub open spec fn nearest_dist(k: SIFTKeyPoint, cands: Seq<SIFTKeyPoint>) -> int {
    if cands.len() == 0 {
        i64::MAX as int
    } else {
        kp_dist(k, cands[first_nearest(k, cands)])
    }
}

/// The distance `match_2nn` compares the nearest one with: the smallest
/// distance among the candidates before the first nearest one; `i64::MAX`
/// when there is none.
pub open spec fn runner_up_dist(k: SIFTKeyPoint, cands: Seq<SIFTKeyPoint>) -> int {
    let j = first_nearest(k, cands);
    if cands.len() == 0 || j == 0 {
        i64::MAX as int
    } else {
        kp_dist(k, cands[first_nearest_in(k, cands, j)])
    }
}

/// The ratio test: the nearest distance is less than 0.8 times the runner-up
/// distance, decided exactly as `5 * nearest < 4 * runner_up`.
pub open spec fn passes_ratio_test(k: SIFTKeyPoint, cands: Seq<SIFTKeyPoint>) -> bool {
    5 * nearest_dist(k, cands) < 4 * runner_up_dist(k, cands)
}

/// The keypoints of `kps1` that pass the ratio test against `kps2`.
pub open spec fn ratio_kept(kps1: Seq<SIFTKeyPoint>, kps2: Seq<SIFTKeyPoint>) -> Seq<SIFTKeyPoint> {
    kps1.filter(|k: SIFTKeyPoint| passes_ratio_test(k, kps2))
}

/// The pairs `match_1nn` makes: one per keypoint of `kps1`, in order.
pub open spec fn one_nn_pairs(kps1: Seq<SIFTKeyPoint>, kps2: Seq<SIFTKeyPoint>) -> Seq<PointPair> {
    kps1.map_values(|k: SIFTKeyPoint| nn_pair(k, kps2))
}

/// The pairs `match_2nn` makes: one per keypoint of `kps1` that passes the
/// ratio test, in order.
pub open spec fn two_nn_pairs(kps1: Seq<SIFTKeyPoint>, kps2: Seq<SIFTKeyPoint>) -> Seq<PointPair> {
    ratio_kept(kps1, kps2).map_values(|k: SIFTKeyPoint| nn_pair(k, kps2))
}

/// Searches the candidates for the first one nearest to `k`, also keeping
/// the nearest distance seen before it.
fn search_nearest(k: &SIFTKeyPoint, cands: &Vec<SIFTKeyPoint>) -> (res: (i64, i64, PointPair))
    ensures
        res.0 == nearest_dist(*k, cands@),
        res.1 == runner_up_dist(*k, cands@),
        res.2 == nn_pair(*k, cands@),
{
    let mut min_dist = i64::MAX;
    let mut min2_dist = i64::MAX;
    let mut pp = PointPair::default();
    pp.x1 = k.x;
    pp.y1 = k.y;
    let ghost mut best: int = 0;
    let ghost mut best2: int = 0;
    let n = cands.len();
    let mut m: usize = 0;
    while m < n
        invariant
            n == cands@.len(),
            m <= n,
            pp.x1 == k.x,
            pp.y1 == k.y,
            m == 0 ==> min_dist == i64::MAX && min2_dist == i64::MAX && pp.x2 == 0 && pp.y2 == 0,
            m > 0 ==> {
                &&& is_first_nearest_in(*k, cands@, m as int, best)
                &&& min_dist == kp_dist(*k, cands@[best])
                &&& pp.x2 == cands@[best].x
                &&& pp.y2 == cands@[best].y
                &&& best == 0 ==> min2_dist == i64::MAX
                &&& best > 0 ==> is_first_nearest_in(*k, cands@, best, best2) && min2_dist == kp_dist(
                    *k,
                    cands@[best2],
                )
            },
        decreases n - m,
    {
        let new_dist = dist(&k.feature, &cands[m].feature);
        proof {
            lemma_dist_bound(k.feature@, cands@[m as int].feature@);
        }
        if new_dist < min_dist {
            min2_dist = min_dist;
            min_dist = new_dist;
            pp.x2 = cands[m].x;
            pp.y2 = cands[m].y;
            proof {
                best2 = best;
                best = m as int;
            }
        }
        m += 1;
    }
    if n > 0 {
        proof {
            lemma_first_nearest_is(*k, cands@, n as int, best);
            if best > 0 {
                lemma_first_nearest_is(*k, cands@, best, best2);
            }
        }
    }
    (min_dist, min2_dist, pp)
}

/// Every descriptor distance is at most 2885, the integer square root of
/// `MAX_SQ_DIST`.
pub proof fn lemma_dist_bound(a: Seq<u8>, b: Seq<u8>)
    requires
        a.len() == 128,
        b.len() == 128,
    ensures
        0 <= feature_dist(a, b) <= 2885,
{
    lemma_sq_dist_prefix_bound(a, b, 128);
    let s = sq_dist(a, b);
    let r = feature_dist(a, b);
    lemma_floor_sqrt_exists(s);
    if r > 2885 {
        assert(2886 * 2886 <= r * r) by (nonlinear_arith)
            requires
                r >= 2886,
        ;
    }
}

/// The sum of squared differences of `n` entries is at most `n * 255^2`.
proof fn lemma_sq_dist_prefix_bound(a: Seq<u8>, b: Seq<u8>, n: nat)
    requires
        n <= a.len(),
        n <= b.len(),
    ensures
        0 <= sq_dist_prefix(a, b, n) <= n * 65025,
    decreases n,
{
    if n > 0 {
        lemma_sq_dist_prefix_bound(a, b, (n - 1) as nat);
        lemma_byte_square(a[n - 1], b[n - 1]);
    }
}

/// Every `n >= 0` has an integer square root.
pub proof fn lemma_floor_sqrt_exists(n: int)
    requires
        n >= 0,
    ensures
        is_floor_sqrt(n, floor_sqrt(n)),
    decreases n,
{
    if n == 0 {
        assert(is_floor_sqrt(0, 0));
    } else {
        lemma_floor_sqrt_exists(n - 1);
        let r = floor_sqrt(n - 1);
        if (r + 1) * (r + 1) <= n {
            assert((r + 1) * (r + 1) == r * r + 2 * r + 1) by (nonlinear_arith);
            assert((r + 2) * (r + 2) == r * r + 4 * r + 4) by (nonlinear_arith);
            assert(is_floor_sqrt(n, r + 1));
        } else {
            assert(is_floor_sqrt(n, r));
        }
    }
}

/// Pairs every keypoint of `dog1` with its first nearest keypoint of `dog2`.
pub fn match_1nn(dog1: &DoGAndKPComputed, dog2: &DoGAndKPComputed) -> (ret: Vec<PointPair>)
    ensures
        ret@ == one_nn_pairs(dog1.keypoints@, dog2.keypoints@),
{
    let mut ret: Vec<PointPair> = Vec::new();
    let n = dog1.keypoints.len();
    let mut i: usize = 0;
    while i < n
        invariant
            n == dog1.keypoints@.len(),
            i <= n,
            ret@ == dog1.keypoints@.take(i as int).map_values(
                |k: SIFTKeyPoint| nn_pair(k, dog2.keypoints@),
            ),
        decreases n - i,
    {
        let (_, _, pp) = search_nearest(&dog1.keypoints[i], &dog2.keypoints);
        ret.push(pp);
        assert(dog1.keypoints@.take(i + 1) =~= dog1.keypoints@.take(i as int).push(dog1.keypoints@[i as int]));
        i += 1;
    }
    assert(dog1.keypoints@.take(n as int) =~= dog1.keypoints@);
    ret
}

/// Pairs the keypoints of `dog1` that pass the ratio test with their first
/// nearest keypoint of `dog2`.
pub fn match_2nn(dog1: &DoGAndKPComputed, dog2: &DoGAndKPComputed) -> (ret: Vec<PointPair>)
    ensures
        ret@ == two_nn_pairs(dog1.keypoints@, dog2.keypoints@),
{
    let ghost pred = |k: SIFTKeyPoint| passes_ratio_test(k, dog2.keypoints@);
    let ghost f = |k: SIFTKeyPoint| nn_pair(k, dog2.keypoints@);
    let mut ret: Vec<PointPair> = Vec::new();
    let n = dog1.keypoints.len();
    let mut i: usize = 0;
    while i < n
        invariant
            n == dog1.keypoints@.len(),
            i <= n,
            pred == (|k: SIFTKeyPoint| passes_ratio_test(k, dog2.keypoints@)),
            f == (|k: SIFTKeyPoint| nn_pair(k, dog2.keypoints@)),
            ret@ == dog1.keypoints@.take(i as int).filter(pred).map_values(f),
        decreases n - i,
    {
        let (min_dist, min2_dist, pp) = search_nearest(&dog1.keypoints[i], &dog2.keypoints);
        let ghost prefix = dog1.keypoints@.take(i as int);
        let ghost k = dog1.keypoints@[i as int];
        assert(dog1.keypoints@.take(i + 1) =~= prefix.push(k));
        reveal_with_fuel(Seq::filter, 1);
        assert(prefix.push(k).drop_last() =~= prefix);
        if (min_dist as i128) * 5 < (min2_dist as i128) * 4 {
            ret.push(pp);
            assert(prefix.push(k).filter(pred) == prefix.filter(pred).push(k));
            assert(ret@ =~= prefix.push(k).filter(pred).map_values(f));
        } else {
            assert(prefix.push(k).filter(pred) == prefix.filter(pred));
        }
        i += 1;
    }
    assert(dog1.keypoints@.take(n as int) =~= dog1.keypoints@);
    ret
}


/// The sum of squared differences is symmetric.
proof fn lemma_sq_dist_prefix_symmetric(a: Seq<u8>, b: Seq<u8>, n: nat)
    requires
        n <= a.len(),
        n <= b.len(),
    ensures
        sq_dist_prefix(a, b, n) == sq_dist_prefix(b, a, n),
    decreases n,
{
    if n > 0 {
        lemma_sq_dist_prefix_symmetric(a, b, (n - 1) as nat);
        assert(square(a[n - 1] - b[n - 1]) == square(b[n - 1] - a[n - 1])) by (nonlinear_arith);
    }
}

/// Law: the descriptor distance is symmetric.
pub proof fn lemma_dist_symmetric(a: Seq<u8>, b: Seq<u8>)
    requires
        a.len() == b.len(),
    ensures
        feature_dist(a, b) == feature_dist(b, a),
{
    lemma_sq_dist_prefix_symmetric(a, b, a.len());
}

/// Law: a descriptor is at distance zero from itself.
pub proof fn lemma_dist_self(a: Seq<u8>)
    ensures
        feature_dist(a, a) == 0,
{
    lemma_sq_dist_prefix_self(a, a.len());
    assert(is_floor_sqrt(0, 0));
    lemma_floor_sqrt_is(0, 0);
}

proof fn lemma_sq_dist_prefix_self(a: Seq<u8>, n: nat)
    requires
        n <= a.len(),
    ensures
        sq_dist_prefix(a, a, n) == 0,
    decreases n,
{
    if n > 0 {
        lemma_sq_dist_prefix_self(a, (n - 1) as nat);
    }
}

/// A zero sum of squared differences means equal entries.
proof fn lemma_sq_dist_prefix_zero(a: Seq<u8>, b: Seq<u8>, n: nat)
    requires
        n <= a.len(),
        n <= b.len(),
        sq_dist_prefix(a, b, n) == 0,
    ensures
        forall|t: int| 0 <= t < n ==> a[t] == b[t],
    decreases n,
{
    if n > 0 {
        lemma_sq_dist_prefix_bound(a, b, (n - 1) as nat);
        lemma_byte_square(a[n - 1], b[n - 1]);
        lemma_sq_dist_prefix_zero(a, b, (n - 1) as nat);
        assert(a[n - 1] == b[n - 1]) by (nonlinear_arith)
            requires
                square(a[n - 1] - b[n - 1]) == 0,
        ;
    }
}

/// Law: descriptors at distance zero are equal.
pub proof fn lemma_dist_zero_equal(a: Seq<u8>, b: Seq<u8>)
    requires
        a.len() == b.len(),
        a.len() <= 128,
        feature_dist(a, b) == 0,
    ensures
        a == b,
{
    let s = sq_dist(a, b);
    lemma_sq_dist_prefix_bound(a, b, a.len());
    lemma_floor_sqrt_exists(s);
    assert(s == 0);
    lemma_sq_dist_prefix_zero(a, b, a.len());
    assert(a =~= b);
}

/// Law: matching keypoints against a set that holds them pairs each with the
/// first keypoint of that set whose descriptor is identical to its own, which
/// comes no later than itself.
pub proof fn lemma_self_match(kps: Seq<SIFTKeyPoint>, i: int)
    requires
        0 <= i < kps.len(),
    ensures
        0 <= first_nearest(kps[i], kps) <= i,
        kps[first_nearest(kps[i], kps)].feature@ == kps[i].feature@,
        forall|m: int| 0 <= m < first_nearest(kps[i], kps) ==> kps[m].feature@ != kps[i].feature@,
{
    let k = kps[i];
    lemma_first_nearest_exists(k, kps, kps.len() as int);
    let j = first_nearest(k, kps);
    lemma_dist_self(k.feature@);
    assert(kp_dist(k, kps[i]) == 0);
    assert(kp_dist(k, kps[j]) <= 0);
    lemma_dist_bound(k.feature@, kps[j].feature@);
    lemma_dist_zero_equal(k.feature@, kps[j].feature@);
    assert forall|m: int| 0 <= m < j implies kps[m].feature@ != k.feature@ by {
        if kps[m].feature@ == k.feature@ {
            lemma_dist_self(k.feature@);
            assert(kp_dist(k, kps[m]) == 0);
        }
    }
    if j > i {
        assert(kp_dist(k, kps[j]) < kp_dist(k, kps[i]));
    }
}

/// Law: every pair that `match_2nn` keeps is one `match_1nn` makes, and it
/// makes no more pairs.
pub proof fn lemma_2nn_within_1nn(kps1: Seq<SIFTKeyPoint>, kps2: Seq<SIFTKeyPoint>)
    ensures
        two_nn_pairs(kps1, kps2).len() <= one_nn_pairs(kps1, kps2).len(),
        forall|t: int|
            0 <= t < two_nn_pairs(kps1, kps2).len() ==> one_nn_pairs(kps1, kps2).contains(
                #[trigger] two_nn_pairs(kps1, kps2)[t],
            ),
{
    let pred = |k: SIFTKeyPoint| passes_ratio_test(k, kps2);
    let f = |k: SIFTKeyPoint| nn_pair(k, kps2);
    let kept = kps1.filter(pred);
    assert(kept == ratio_kept(kps1, kps2));
    kps1.lemma_filter_len(pred);
    assert forall|t: int| 0 <= t < two_nn_pairs(kps1, kps2).len() implies one_nn_pairs(kps1, kps2).contains(
        #[trigger] two_nn_pairs(kps1, kps2)[t],
    ) by {
        assert(kept.contains(kept[t]));
        kps1.lemma_filter_contains_rev(pred, kept[t]);
        let j = choose|j: int| 0 <= j < kps1.len() && kps1[j] == kept[t];
        assert(one_nn_pairs(kps1, kps2)[j] == two_nn_pairs(kps1, kps2)[t]);
    }
}

/// Law: `match_1nn` makes one pair per keypoint of the first set, in its
/// order, each starting at that keypoint's position.
pub proof fn lemma_1nn_one_pair_each(kps1: Seq<SIFTKeyPoint>, kps2: Seq<SIFTKeyPoint>)
    ensures
        one_nn_pairs(kps1, kps2).len() == kps1.len(),
        forall|i: int|
            0 <= i < kps1.len() ==> (#[trigger] one_nn_pairs(kps1, kps2)[i]).x1 == kps1[i].x
                && one_nn_pairs(kps1, kps2)[i].y1 == kps1[i].y,
{
}

/// The indices of the first `n` keypoints of `kps1` that pass the ratio test
/// against `kps2`, in increasing order.
pub open spec fn ratio_kept_indices(kps1: Seq<SIFTKeyPoint>, kps2: Seq<SIFTKeyPoint>, n: nat) -> Seq<int>
    decreases n,
{
    if n == 0 {
        Seq::empty()
    } else if passes_ratio_test(kps1[n - 1], kps2) {
        ratio_kept_indices(kps1, kps2, (n - 1) as nat).push(n - 1)
    } else {
        ratio_kept_indices(kps1, kps2, (n - 1) as nat)
    }
}

/// The keypoints among the first `n` that pass the ratio test are those at
/// `ratio_kept_indices`, which increase and stay below `n`.
proof fn lemma_ratio_kept_indices(kps1: Seq<SIFTKeyPoint>, kps2: Seq<SIFTKeyPoint>, n: nat)
    requires
        n <= kps1.len(),
    ensures
        ratio_kept_indices(kps1, kps2, n).len() == kps1.take(n as int).filter(
            |k: SIFTKeyPoint| passes_ratio_test(k, kps2),
        ).len(),
        forall|t: int|
            0 <= t < ratio_kept_indices(kps1, kps2, n).len() ==> 0 <= #[trigger] ratio_kept_indices(
                kps1,
                kps2,
                n,
            )[t] < n && kps1.take(n as int).filter(|k: SIFTKeyPoint| passes_ratio_test(k, kps2))[t]
                == kps1[ratio_kept_indices(kps1, kps2, n)[t]],
        forall|a: int, b: int|
            0 <= a < b < ratio_kept_indices(kps1, kps2, n).len() ==> #[trigger] ratio_kept_indices(
                kps1,
                kps2,
                n,
            )[a] < #[trigger] ratio_kept_indices(kps1, kps2, n)[b],
    decreases n,
{
    let pred = |k: SIFTKeyPoint| passes_ratio_test(k, kps2);
    if n == 0 {
        assert(kps1.take(0) =~= Seq::<SIFTKeyPoint>::empty());
        assert(kps1.take(0).filter(pred) =~= Seq::<SIFTKeyPoint>::empty()) by {
            reveal_with_fuel(Seq::filter, 1);
        }
    } else {
        lemma_ratio_kept_indices(kps1, kps2, (n - 1) as nat);
        let prefix = kps1.take(n - 1);
        let k = kps1[n - 1];
        assert(kps1.take(n as int) =~= prefix.push(k));
        reveal_with_fuel(Seq::filter, 1);
        assert(prefix.push(k).drop_last() =~= prefix);
        let prev = ratio_kept_indices(kps1, kps2, (n - 1) as nat);
        let cur = ratio_kept_indices(kps1, kps2, n);
        if passes_ratio_test(k, kps2) {
            assert(prefix.push(k).filter(pred) == prefix.filter(pred).push(k));
            assert(cur == prev.push(n - 1));
            assert forall|t: int| 0 <= t < cur.len() implies 0 <= #[trigger] cur[t] < n && kps1.take(
                n as int,
            ).filter(pred)[t] == kps1[cur[t]] by {
                if t < prev.len() {
                    assert(cur[t] == prev[t]);
                }
            }
            assert forall|a: int, b: int| 0 <= a < b < cur.len() implies #[trigger] cur[a] < #[trigger] cur[b] by {
                assert(cur[a] == prev[a]);
                if b < prev.len() {
                    assert(cur[b] == prev[b]);
                }
            }
        } else {
            assert(prefix.push(k).filter(pred) == prefix.filter(pred));
            assert(cur == prev);
        }
    }
}

/// Law: the pairs `match_2nn` keeps are those `match_1nn` makes at the
/// increasing positions `ratio_kept_indices`: an ordered subsequence.
pub proof fn lemma_2nn_subsequence_of_1nn(kps1: Seq<SIFTKeyPoint>, kps2: Seq<SIFTKeyPoint>)
    ensures
        ratio_kept_indices(kps1, kps2, kps1.len()).len() == two_nn_pairs(kps1, kps2).len(),
        forall|t: int|
            0 <= t < two_nn_pairs(kps1, kps2).len() ==> 0 <= #[trigger] ratio_kept_indices(
                kps1,
                kps2,
                kps1.len(),
            )[t] < one_nn_pairs(kps1, kps2).len() && two_nn_pairs(kps1, kps2)[t] == one_nn_pairs(
                kps1,
                kps2,
            )[ratio_kept_indices(kps1, kps2, kps1.len())[t]],
        forall|a: int, b: int|
            0 <= a < b < two_nn_pairs(kps1, kps2).len() ==> #[trigger] ratio_kept_indices(
                kps1,
                kps2,
                kps1.len(),
            )[a] < #[trigger] ratio_kept_indices(kps1, kps2, kps1.len())[b],
{
    lemma_ratio_kept_indices(kps1, kps2, kps1.len());
    assert(kps1.take(kps1.len() as int) =~= kps1);
    let idx = ratio_kept_indices(kps1, kps2, kps1.len());
    assert forall|t: int| 0 <= t < two_nn_pairs(kps1, kps2).len() implies 0 <= #[trigger] idx[t] < one_nn_pairs(
        kps1,
        kps2,
    ).len() && two_nn_pairs(kps1, kps2)[t] == one_nn_pairs(kps1, kps2)[idx[t]] by {
        assert(ratio_kept(kps1, kps2)[t] == kps1[idx[t]]);
    }
}

/// Law: the runner-up distance is the smallest distance among the candidates
/// before the first nearest one (`i64::MAX` when there are none), and a
/// keypoint that passes the ratio test has a nearest distance below 0.8 times
/// the distance of every one of those candidates.
pub proof fn lemma_ratio_beats_earlier(k: SIFTKeyPoint, cands: Seq<SIFTKeyPoint>)
    requires
        cands.len() > 0,
    ensures
        first_nearest(k, cands) == 0 ==> runner_up_dist(k, cands) == i64::MAX,
        forall|m: int|
            0 <= m < first_nearest(k, cands) ==> runner_up_dist(k, cands) <= kp_dist(k, #[trigger] cands[m]),
        first_nearest(k, cands) > 0 ==> exists|m: int|
            0 <= m < first_nearest(k, cands) && runner_up_dist(k, cands) == kp_dist(k, #[trigger] cands[m]),
        passes_ratio_test(k, cands) ==> forall|m: int|
            0 <= m < first_nearest(k, cands) ==> 5 * kp_dist(k, cands[first_nearest(k, cands)]) < 4 * kp_dist(
                k,
                #[trigger] cands[m],
            ),
{
    lemma_first_nearest_exists(k, cands, cands.len() as int);
    let j = first_nearest(k, cands);
    if j > 0 {
        lemma_first_nearest_exists(k, cands, j);
        let b = first_nearest_in(k, cands, j);
        assert(0 <= b < j && runner_up_dist(k, cands) == kp_dist(k, cands[b]));
    }
}

} // verus!
