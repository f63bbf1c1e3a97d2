//! The integer and ordering steps of assigning orientations to keypoints:
//! the maximum and the peaks of a smoothed 36-bin gradient histogram, and the
//! expansion of a keypoint with several peaks into one keypoint per peak.
use vstd::prelude::*;

use super::float_bits::{bits_le, bits_lt, is_nan, le, lt, order_key};
use super::keypoint::SIFTKeyPoint;

verus! {

/// The number of orientation bins.
pub const ORIENTATION_BINS: usize = 36;

/// `m` is the running maximum of the histogram started from `0.0` and replaced
/// by every entry greater than it: the entry of largest value when some entry
/// is greater than zero, else `0.0`.
pub open spec fn is_histogram_max(hist: Seq<u32>, m: u32) -> bool {
    if exists|k: int| 0 <= k < hist.len() && lt(0u32, #[trigger] hist[k]) {
        &&& exists|k: int| 0 <= k < hist.len() && #[trigger] hist[k] == m
        &&& lt(0u32, m)
        &&& forall|k: int| 0 <= k < hist.len() && !is_nan(#[trigger] hist[k]) ==> order_key(hist[k]) <= order_key(m)
    } else {
        m == 0
    }
}

/// The largest entry of a smoothed orientation histogram, or `0.0` when no
/// entry is greater than zero.
pub fn histogram_max(hist: &[u32; 36]) -> (m: u32)
    ensures
        is_histogram_max(hist@, m),
{
    let mut m: u32 = 0;
    let mut k: usize = 0;
    while k < ORIENTATION_BINS
        invariant
            k <= 36,
            hist@.len() == 36,
            is_histogram_max(hist@.take(k as int), m),
        decreases 36 - k,
    {
        let v = hist[k];
        let ghost pre = hist@.take(k as int);
        let ghost post = hist@.take(k + 1);
        assert(post =~= pre.push(v));
        assert(forall|t: int| 0 <= t < pre.len() ==> post[t] == pre[t]);
        if bits_lt(m, v) {
            m = v;
            assert(post[k as int] == v);
            assert forall|t: int| 0 <= t < post.len() && !is_nan(#[trigger] post[t]) implies order_key(
                post[t],
            ) <= order_key(m) by {
                if t < k {
                    assert(post[t] == pre[t]);
                }
            }
        } else {
            proof {
                if lt(0u32, v) {
                    assert(exists|t: int| 0 <= t < pre.len() && lt(0u32, #[trigger] pre[t]));
                }
            }
            assert forall|t: int| 0 <= t < post.len() && lt(0u32, #[trigger] post[t]) implies exists|t2: int|
                0 <= t2 < pre.len() && lt(0u32, #[trigger] pre[t2]) by {
                if t < k {
                    assert(post[t] == pre[t]);
                }
            }
            proof {
                if exists|t: int| 0 <= t < pre.len() && lt(0u32, #[trigger] pre[t]) {
                    let w = choose|t: int| 0 <= t < pre.len() && #[trigger] pre[t] == m;
                    assert(post[w] == m);
                    assert forall|t: int| 0 <= t < post.len() && !is_nan(#[trigger] post[t]) implies order_key(
                        post[t],
                    ) <= order_key(m) by {
                        if t < k {
                            assert(post[t] == pre[t]);
                        }
                    }
                }
            }
        }
        k += 1;
    }
    assert(hist@.take(36) =~= hist@);
    m
}

/// Bin `k` of the circular histogram is a peak: greater than both neighbours
/// and at least `threshold`.
pub open spec fn is_peak(hist: Seq<u32>, k: int, threshold: u32) -> bool {
    let kl = if k > 0 {
        k - 1
    } else {
        35
    };
    let kr = if k < 35 {
        k + 1
    } else {
        0
    };
    lt(hist[kl], hist[k]) && lt(hist[kr], hist[k]) && le(threshold, hist[k])
}

/// The bins `0 .. 36`.
pub open spec fn all_bins() -> Seq<usize> {
    Seq::new(36, |k: int| k as usize)
}

/// The peaks of a smoothed orientation histogram, in increasing order.
pub fn orientation_peaks(hist: &[u32; 36], threshold: u32) -> (peaks: Vec<usize>)
    ensures
        peaks@ == all_bins().filter(|k: usize| is_peak(hist@, k as int, threshold)),
        peaks@.len() <= 18,
{
    let ghost pred = |k: usize| is_peak(hist@, k as int, threshold);
    let mut peaks: Vec<usize> = Vec::new();
    let mut prev_peak = false;
    let mut k: usize = 0;
    while k < ORIENTATION_BINS
        invariant
            k <= 36,
            hist@.len() == 36,
            pred == (|k: usize| is_peak(hist@, k as int, threshold)),
            peaks@ == all_bins().take(k as int).filter(pred),
            prev_peak == (k > 0 && is_peak(hist@, k - 1, threshold)),
            peaks@.len() <= (k + 1) / 2,
            !prev_peak ==> peaks@.len() <= k / 2,
        decreases 36 - k,
    {
        let kl = if k > 0 {
            k - 1
        } else {
            35
        };
        let kr = if k < 35 {
            k + 1
        } else {
            0
        };
        let ghost pre = all_bins().take(k as int);
        assert(all_bins().take(k + 1) =~= pre.push(k));
        reveal_with_fuel(Seq::filter, 1);
        assert(pre.push(k).drop_last() =~= pre);
        if bits_lt(hist[kl], hist[k]) && bits_lt(hist[kr], hist[k]) && bits_le(threshold, hist[k]) {
            // Neighbouring bins cannot both be peaks: each would exceed the other.
            assert(!prev_peak);
            peaks.push(k);
            assert(pre.push(k).filter(pred) == pre.filter(pred).push(k));
            prev_peak = true;
        } else {
            assert(pre.push(k).filter(pred) == pre.filter(pred));
            prev_peak = false;
        }
        k += 1;
    }
    assert(all_bins().take(36) =~= all_bins());
    peaks
}

/// The keypoint with its orientation set to `angle`.
pub open spec fn with_angle(k: SIFTKeyPoint, angle: u32) -> SIFTKeyPoint {
    SIFTKeyPoint { angle, ..k }
}

/// Each keypoint with its first angle, when it has one.
pub open spec fn main_oriented(kps: Seq<SIFTKeyPoint>, angles: Seq<Vec<u32>>) -> Seq<SIFTKeyPoint> {
    Seq::new(
        kps.len(),
        |i: int|
            if angles[i]@.len() > 0 {
                with_angle(kps[i], angles[i]@[0])
            } else {
                kps[i]
            },
    )
}

/// The angles after the first.
pub open spec fn further_angles(a: Seq<u32>) -> Seq<u32> {
    if a.len() == 0 {
        Seq::empty()
    } else {
        a.skip(1)
    }
}

/// For each of the first `n` keypoints in turn, a copy with each of its
/// further angles.
pub open spec fn extra_oriented(kps: Seq<SIFTKeyPoint>, angles: Seq<Vec<u32>>, n: nat) -> Seq<SIFTKeyPoint>
    decreases n,
{
    if n == 0 {
        Seq::empty()
    } else {
        extra_oriented(kps, angles, (n - 1) as nat) + further_angles(angles[n - 1]@).map_values(
            |a: u32| with_angle(kps[n - 1], a),
        )
    }
}

/// Gives every keypoint its orientations: the first angle of `angles[i]`
/// becomes the angle of keypoint `i`, and each further angle adds a copy of the
/// keypoint with that angle after all the keypoints, in order.
pub fn spread_orientations(keypoints: Vec<SIFTKeyPoint>, angles: &Vec<Vec<u32>>) -> (res: Vec<SIFTKeyPoint>)
    requires
        angles@.len() == keypoints@.len(),
    ensures
        res@ == main_oriented(keypoints@, angles@) + extra_oriented(keypoints@, angles@, keypoints@.len()),
{
    let ghost orig = keypoints@;
    let mut keypoints = keypoints;
    let mut added: Vec<SIFTKeyPoint> = Vec::new();
    let n = keypoints.len();
    let mut i: usize = 0;
    while i < n
        invariant
            n == orig.len(),
            angles@.len() == n,
            keypoints@.len() == n,
            i <= n,
            forall|t: int| i <= t < n ==> #[trigger] keypoints@[t] == orig[t],
            forall|t: int| 0 <= t < i ==> #[trigger] keypoints@[t] == main_oriented(orig, angles@)[t],
            added@ == extra_oriented(orig, angles@, i as nat),
        decreases n - i,
    {
        let a = &angles[i];
        let kpt = keypoints[i];
        let m = a.len();
        if m > 0 {
            let mut p: usize = 1;
            let ghost before = added@;
            while p < m
                invariant
                    1 <= p <= m,
                    m == a@.len(),
                    added@ == before + a@.skip(1).take(p - 1).map_values(|x: u32| with_angle(kpt, x)),
                decreases m - p,
            {
                added.push(SIFTKeyPoint { angle: a[p], ..kpt });
                assert(a@.skip(1).take(p as int) =~= a@.skip(1).take(p - 1).push(a@[p as int]));
                p += 1;
            }
            assert(a@.skip(1).take(m - 1) =~= a@.skip(1));
            keypoints[i] = SIFTKeyPoint { angle: a[0], ..kpt };
        }
        assert(angles@[i as int] == *a);
        assert(extra_oriented(orig, angles@, (i + 1) as nat) == extra_oriented(orig, angles@, i as nat)
            + further_angles(angles@[i as int]@).map_values(|x: u32| with_angle(orig[i as int], x)));
        assert(added@ =~= extra_oriented(orig, angles@, (i + 1) as nat));
        i += 1;
    }
    let ghost main = keypoints@;
    keypoints.append(&mut added);
    assert(main =~= main_oriented(orig, angles@));
    keypoints
}

/// Every copy made for the first `n` keypoints is one of them with one of its
/// further angles.
proof fn lemma_extra_from(kps: Seq<SIFTKeyPoint>, angles: Seq<Vec<u32>>, n: nat)
    requires
        n <= kps.len(),
        n <= angles.len(),
    ensures
        forall|u: int|
            0 <= u < extra_oriented(kps, angles, n).len() ==> exists|i: int|
                0 <= i < n && angles[i]@.len() > 0 && angles[i]@.contains(
                    (#[trigger] extra_oriented(kps, angles, n)[u]).angle,
                ) && extra_oriented(kps, angles, n)[u] == with_angle(kps[i], extra_oriented(kps, angles, n)[u].angle),
    decreases n,
{
    if n > 0 {
        lemma_extra_from(kps, angles, (n - 1) as nat);
        let prev = extra_oriented(kps, angles, (n - 1) as nat);
        let a = angles[n - 1]@;
        let added = further_angles(a).map_values(|x: u32| with_angle(kps[n - 1], x));
        let cur = extra_oriented(kps, angles, n);
        assert(cur == prev + added);
        assert forall|u: int| 0 <= u < cur.len() implies exists|i: int|
            0 <= i < n && angles[i]@.len() > 0 && angles[i]@.contains((#[trigger] cur[u]).angle) && cur[u]
                == with_angle(kps[i], cur[u].angle) by {
            if u < prev.len() {
                assert(cur[u] == prev[u]);
                let i = choose|i: int|
                    0 <= i < n - 1 && angles[i]@.len() > 0 && angles[i]@.contains(prev[u].angle) && prev[u]
                        == with_angle(kps[i], prev[u].angle);
                assert(0 <= i < n);
            } else {
                let v = u - prev.len();
                assert(a.len() > 0);
                assert(cur[u] == added[v]);
                assert(added[v] == with_angle(kps[n - 1], a[v + 1]));
                assert(a[v + 1] == cur[u].angle);
                assert(angles[n - 1]@.contains(cur[u].angle));
            }
        }
    }
}

/// Law: assigning orientations changes nothing of a keypoint but its angle.
/// Every keypoint that comes out is a keypoint that went in, with its angle
/// unchanged when it was given no angle and otherwise set to one of the angles
/// it was given; one comes out per keypoint and per further angle.
pub proof fn lemma_orientations_only_angles(kps: Seq<SIFTKeyPoint>, angles: Seq<Vec<u32>>)
    requires
        angles.len() == kps.len(),
    ensures
        forall|t: int|
            0 <= t < (main_oriented(kps, angles) + extra_oriented(kps, angles, kps.len())).len() ==> {
                let k = #[trigger] (main_oriented(kps, angles) + extra_oriented(kps, angles, kps.len()))[t];
                exists|i: int|
                    0 <= i < kps.len() && k == with_angle(kps[i], k.angle) && (angles[i]@.len() == 0 ==> k
                        == kps[i]) && (angles[i]@.len() > 0 ==> angles[i]@.contains(k.angle))
            },
{
    let main = main_oriented(kps, angles);
    let extra = extra_oriented(kps, angles, kps.len());
    let all = main + extra;
    lemma_extra_from(kps, angles, kps.len());
    assert forall|t: int| 0 <= t < all.len() implies {
        let k = #[trigger] all[t];
        exists|i: int|
            0 <= i < kps.len() && k == with_angle(kps[i], k.angle) && (angles[i]@.len() == 0 ==> k == kps[i])
                && (angles[i]@.len() > 0 ==> angles[i]@.contains(k.angle))
    } by {
        if t < main.len() {
            assert(all[t] == main[t]);
            if angles[t]@.len() > 0 {
                assert(angles[t]@[0] == all[t].angle);
                assert(angles[t]@.contains(all[t].angle));
            }
            assert(all[t] == with_angle(kps[t], all[t].angle));
        } else {
            let u = t - main.len();
            assert(all[t] == extra[u]);
            let i = choose|i: int|
                0 <= i < kps.len() && angles[i]@.len() > 0 && angles[i]@.contains(extra[u].angle) && extra[u]
                    == with_angle(kps[i], extra[u].angle);
            assert(0 <= i < kps.len());
        }
    }
}

/// Law: bin `k` is a peak exactly when it exceeds both its neighbours on the
/// circle of 36 bins, `(k + 35) % 36` and `(k + 1) % 36`, and reaches the
/// threshold.
pub proof fn lemma_peak_neighbours(hist: Seq<u32>, k: int, threshold: u32)
    requires
        0 <= k < 36,
    ensures
        is_peak(hist, k, threshold) <==> lt(hist[(k + 35) % 36], hist[k]) && lt(hist[(k + 1) % 36], hist[k])
            && le(threshold, hist[k]),
{
}

/// Bin `k` is among the peaks `orientation_peaks` returns exactly when it is a
/// peak.
proof fn lemma_peak_member(hist: Seq<u32>, threshold: u32, k: int)
    requires
        0 <= k < 36,
    ensures
        all_bins().filter(|q: usize| is_peak(hist, q as int, threshold)).contains(k as usize) <==> is_peak(
            hist,
            k,
            threshold,
        ),
{
    let pred = |q: usize| is_peak(hist, q as int, threshold);
    let f = all_bins().filter(pred);
    if f.contains(k as usize) {
        let i = choose|i: int| 0 <= i < f.len() && f[i] == k as usize;
        all_bins().lemma_filter_pred(pred, i);
    }
    if is_peak(hist, k, threshold) {
        assert(all_bins()[k] == k as usize);
        all_bins().lemma_filter_contains(pred, k);
    }
}

/// Law: turning the histogram one bin around the circle, so that bin `k` of
/// `turned` holds bin `(k + 35) % 36` of `hist`, turns the peaks by one bin:
/// `k` is a peak of `hist` exactly when `(k + 1) % 36` is a peak of `turned`.
pub proof fn lemma_peaks_turn_with_histogram(hist: Seq<u32>, turned: Seq<u32>, threshold: u32)
    requires
        hist.len() == 36,
        turned.len() == 36,
        forall|k: int| 0 <= k < 36 ==> #[trigger] turned[k] == hist[(k + 35) % 36],
    ensures
        forall|k: int|
            0 <= k < 36 ==> (#[trigger] is_peak(hist, k, threshold) <==> is_peak(turned, (k + 1) % 36, threshold)),
        forall|k: int|
            0 <= k < 36 ==> (all_bins().filter(|q: usize| is_peak(hist, q as int, threshold)).contains(
                #[trigger] (k as usize),
            ) <==> all_bins().filter(|q: usize| is_peak(turned, q as int, threshold)).contains(
                ((k + 1) % 36) as usize,
            )),
{
    assert forall|k: int| 0 <= k < 36 implies (#[trigger] is_peak(hist, k, threshold) <==> is_peak(
        turned,
        (k + 1) % 36,
        threshold,
    )) by {
        let k2 = (k + 1) % 36;
        lemma_peak_neighbours(hist, k, threshold);
        lemma_peak_neighbours(turned, k2, threshold);
        assert(turned[k2] == hist[k]);
        assert(turned[(k2 + 35) % 36] == hist[(k + 35) % 36]);
        assert(turned[(k2 + 1) % 36] == hist[(k + 1) % 36]);
    }
    assert forall|k: int| 0 <= k < 36 implies (all_bins().filter(|q: usize| is_peak(hist, q as int, threshold)).contains(
        #[trigger] (k as usize),
    ) <==> all_bins().filter(|q: usize| is_peak(turned, q as int, threshold)).contains(((k + 1) % 36) as usize)) by {
        lemma_peak_member(hist, threshold, k);
        lemma_peak_member(turned, threshold, (k + 1) % 36);
    }
}

} // verus!
