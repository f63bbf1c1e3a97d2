//! Detection of scale-space extrema in a difference-of-Gaussians pyramid.
use vstd::prelude::*;

use super::float_bits::{bits_is_nan, bits_order_key, is_nan, magnitude, order_key, SIGN_BIT};
use super::keypoint::{lemma_row_major_index, DoGAndKPComputed, DoGComputed, LumaBits, SIFTKeyPoint};

verus! {

/// Pixels this close to an image edge are never keypoints.
pub const IMG_BORDER: usize = 5;

/// The bits of `(0.5 * 0.04 / 3.0) as f32`: half the contrast threshold
/// divided by the scales per octave. A sample of smaller magnitude is skipped.
pub const EXTREMUM_THRESHOLD_BITS: u32 = 0x3bda_740e;

/// The `k`-th of the nine samples around `(x, y)`: columns `x - 1 ..= x + 1`
/// in turn, each with rows `y - 1 ..= y + 1`.
pub open spec fn neighbour(img: LumaBits, x: int, y: int, k: int) -> u32 {
    img.at(x + k / 3 - 1, y + k % 3 - 1)
}

/// The largest of the nine samples around `(x, y)` (NaNs ignored; NaN when all
/// are NaN) is `<= v`.
pub open spec fn around_max_le(img: LumaBits, x: int, y: int, v: u32) -> bool {
    &&& !is_nan(v)
    &&& exists|k: int| 0 <= k < 9 && !is_nan(#[trigger] neighbour(img, x, y, k))
    &&& forall|k: int|
        0 <= k < 9 ==> is_nan(#[trigger] neighbour(img, x, y, k)) || order_key(neighbour(img, x, y, k))
            <= order_key(v)
}

/// The smallest of the nine samples around `(x, y)` (NaNs ignored; NaN when
/// all are NaN) is `>= v`.
pub open spec fn around_min_ge(img: LumaBits, x: int, y: int, v: u32) -> bool {
    &&& !is_nan(v)
    &&& exists|k: int| 0 <= k < 9 && !is_nan(#[trigger] neighbour(img, x, y, k))
    &&& forall|k: int|
        0 <= k < 9 ==> is_nan(#[trigger] neighbour(img, x, y, k)) || order_key(neighbour(img, x, y, k))
            >= order_key(v)
}

/// The sample at column `c`, row `r` of scale `j` of an octave is a keypoint:
/// its magnitude reaches the threshold and it is a maximum, or a minimum, of the
/// 3x3x3 block around it in scales `j - 1`, `j`, `j + 1`.
pub open spec fn is_candidate(oct: Seq<LumaBits>, j: int, r: int, c: int) -> bool {
    let img = oct[j];
    let prev = oct[j - 1];
    let next = oct[j + 1];
    let v = img.at(c, r);
    &&& !(magnitude(v) < EXTREMUM_THRESHOLD_BITS)
    &&& {
        ||| around_max_le(img, c, r, v) && around_max_le(prev, c, r, v) && around_max_le(next, c, r, v)
        ||| around_min_ge(img, c, r, v) && around_min_ge(prev, c, r, v) && around_min_ge(next, c, r, v)
    }
}

/// `(i, j, r, c)` is a position that is scanned: octave `i`, an inner scale
/// `j`, and a pixel at least `IMG_BORDER` away from the edges of that image.
pub open spec fn is_scanned(pyr: Seq<Vec<LumaBits>>, i: int, j: int, r: int, c: int) -> bool {
    &&& 0 <= i < pyr.len()
    &&& 1 <= j < pyr[i]@.len() - 1
    &&& IMG_BORDER <= r < pyr[i]@[j].height - IMG_BORDER
    &&& IMG_BORDER <= c < pyr[i]@[j].width - IMG_BORDER
}

/// The pyramid can be scanned without reading outside an image: every octave
/// holds an image, and every inner scale meets what the scan of it needs.
pub open spec fn scannable(pyr: Seq<Vec<LumaBits>>) -> bool {
    forall|i: int|
        0 <= i < pyr.len() ==> {
            &&& (#[trigger] pyr[i])@.len() >= 1
            &&& forall|j: int| 1 <= j < pyr[i]@.len() - 1 ==> inner_scale_ok(pyr[i]@, j)
        }
}

/// The 3x3 block around column `c`, row `r` lies inside the image.
pub open spec fn holds_block(img: LumaBits, c: int, r: int) -> bool {
    c + 1 < img.width && r + 1 < img.height
}

/// Testing the sample at column `c`, row `r` of scale `j` reads only inside
/// the images. The scales around it are read only as far as the test gets:
/// a sample below the threshold reads neither; the maximum test reads scale
/// `j - 1` when scale `j` passes it and scale `j + 1` when scale `j - 1` passes
/// too; the minimum test, made when the maximum test fails, reads them in the
/// same way.
pub open spec fn pixel_reads_ok(oct: Seq<LumaBits>, j: int, r: int, c: int) -> bool {
    let img = oct[j];
    let prev = oct[j - 1];
    let next = oct[j + 1];
    let v = img.at(c, r);
    ||| magnitude(v) < EXTREMUM_THRESHOLD_BITS
    ||| {
        &&& around_max_le(img, c, r, v) ==> holds_block(prev, c, r) && (around_max_le(prev, c, r, v)
            ==> holds_block(next, c, r))
        &&& !(around_max_le(img, c, r, v) && around_max_le(prev, c, r, v) && around_max_le(next, c, r, v))
            ==> (around_min_ge(img, c, r, v) ==> holds_block(prev, c, r) && (around_min_ge(prev, c, r, v)
            ==> holds_block(next, c, r)))
    }
}

/// Scale `j` of an octave meets what the scan of it needs: it and the scales
/// around it hold one sample per pixel, it is tall enough that its border can
/// be cut (and, when a row is scanned, wide enough), and testing each scanned
/// sample reads only inside the images.
pub open spec fn inner_scale_ok(oct: Seq<LumaBits>, j: int) -> bool {
    let img = oct[j];
    &&& oct[j - 1].wf()
    &&& img.wf()
    &&& oct[j + 1].wf()
    &&& img.height >= IMG_BORDER
    &&& img.height >= 2 * IMG_BORDER + 1 ==> img.width >= IMG_BORDER
    &&& forall|r: int, c: int|
        IMG_BORDER <= r < img.height - IMG_BORDER && IMG_BORDER <= c < img.width - IMG_BORDER
            ==> #[trigger] pixel_reads_ok(oct, j, r, c)
}

/// The keypoint sits at octave `i`, scale `j`, row `r`, column `c`.
pub open spec fn located_at(k: SIFTKeyPoint, i: int, j: int, r: int, c: int) -> bool {
    k.octave == i && k.scale == j && k.y == r && k.x == c
}

/// `(i, j, r, c)` comes before `(i2, j2, r2, c2)` in scan order.
pub open spec fn scan_before(i: int, j: int, r: int, c: int, i2: int, j2: int, r2: int, c2: int) -> bool {
    ||| i < i2
    ||| i == i2 && j < j2
    ||| i == i2 && j == j2 && r < r2
    ||| i == i2 && j == j2 && r == r2 && c < c2
}

/// The keypoint `k` comes before `k2` in scan order.
pub open spec fn kp_before(k: SIFTKeyPoint, k2: SIFTKeyPoint) -> bool {
    scan_before(
        k.octave as int,
        k.scale as int,
        k.y as int,
        k.x as int,
        k2.octave as int,
        k2.scale as int,
        k2.y as int,
        k2.x as int,
    )
}

/// A freshly detected keypoint: every other field is zero.
pub open spec fn is_fresh(k: SIFTKeyPoint) -> bool {
    k.size == 0 && k.angle == 0 && k.response == 0 && forall|t: int|
        0 <= t < 128 ==> #[trigger] k.feature@[t] == 0u8
}

/// Every keypoint is a fresh keypoint at a scanned candidate position.
pub open spec fn all_candidates(kps: Seq<SIFTKeyPoint>, pyr: Seq<Vec<LumaBits>>) -> bool {
    forall|t: int|
        0 <= t < kps.len() ==> {
            let k = #[trigger] kps[t];
            &&& is_scanned(pyr, k.octave as int, k.scale as int, k.y as int, k.x as int)
            &&& is_candidate(pyr[k.octave as int]@, k.scale as int, k.y as int, k.x as int)
            &&& is_fresh(k)
        }
}

/// The keypoints come in strictly increasing scan order.
pub open spec fn in_scan_order(kps: Seq<SIFTKeyPoint>) -> bool {
    forall|a: int, b: int| 0 <= a < b < kps.len() ==> kp_before(#[trigger] kps[a], #[trigger] kps[b])
}

/// Every keypoint lies before position `(i, j, r, c)`.
pub open spec fn all_before(kps: Seq<SIFTKeyPoint>, i: int, j: int, r: int, c: int) -> bool {
    forall|t: int|
        0 <= t < kps.len() ==> scan_before(
            (#[trigger] kps[t]).octave as int,
            kps[t].scale as int,
            kps[t].y as int,
            kps[t].x as int,
            i,
            j,
            r,
            c,
        )
}

/// Every scanned candidate position before `(i, j, r, c)` holds a keypoint.
pub open spec fn covers_before(kps: Seq<SIFTKeyPoint>, pyr: Seq<Vec<LumaBits>>, i: int, j: int, r: int, c: int) -> bool {
    forall|i2: int, j2: int, r2: int, c2: int|
        #![trigger is_candidate(pyr[i2]@, j2, r2, c2)]
        is_scanned(pyr, i2, j2, r2, c2) && is_candidate(pyr[i2]@, j2, r2, c2) && scan_before(
            i2,
            j2,
            r2,
            c2,
            i,
            j,
            r,
            c,
        ) ==> exists|t: int| 0 <= t < kps.len() && located_at(#[trigger] kps[t], i2, j2, r2, c2)
}

/// The scan has found exactly the keypoints before `(i, j, r, c)`, in order.
pub open spec fn scanned_up_to(kps: Seq<SIFTKeyPoint>, pyr: Seq<Vec<LumaBits>>, i: int, j: int, r: int, c: int) -> bool {
    &&& all_candidates(kps, pyr)
    &&& in_scan_order(kps)
    &&& all_before(kps, i, j, r, c)
    &&& covers_before(kps, pyr, i, j, r, c)
}

/// The nine samples around `(x, y)`, in the order of `neighbour`.
fn around(img: &LumaBits, x: usize, y: usize) -> (a: [u32; 9])
    requires
        img.wf(),
        1 <= x < img.width - 1,
        1 <= y < img.height - 1,
    ensures
        forall|k: int| 0 <= k < 9 ==> a@[k] == neighbour(*img, x as int, y as int, k),
{
    let x = x as u32;
    let y = y as u32;
    let a = [
        img.get_pixel(x - 1, y - 1),
        img.get_pixel(x - 1, y),
        img.get_pixel(x - 1, y + 1),
        img.get_pixel(x, y - 1),
        img.get_pixel(x, y),
        img.get_pixel(x, y + 1),
        img.get_pixel(x + 1, y - 1),
        img.get_pixel(x + 1, y),
        img.get_pixel(x + 1, y + 1),
    ];
    assert forall|k: int| 0 <= k < 9 implies a@[k] == neighbour(*img, x as int, y as int, k) by {
        if k == 0 {
        } else if k == 1 {
        } else if k == 2 {
        } else if k == 3 {
        } else if k == 4 {
        } else if k == 5 {
        } else if k == 6 {
        } else if k == 7 {
        } else {
        }
    }
    a
}

/// Whether the largest of the samples around `(x, y)` is `<= v`.
fn around_max_at_most(img: &LumaBits, x: usize, y: usize, v: u32) -> (b: bool)
    requires
        img.wf(),
        1 <= x < img.width - 1,
        1 <= y < img.height - 1,
    ensures
        b == around_max_le(*img, x as int, y as int, v),
{
    let a = around(img, x, y);
    if bits_is_nan(v) {
        return false;
    }
    let kv = bits_order_key(v);
    let mut any = false;
    let mut all = true;
    let mut k: usize = 0;
    while k < 9
        invariant
            k <= 9,
            !is_nan(v),
            kv == order_key(v),
            forall|t: int| 0 <= t < 9 ==> a@[t] == neighbour(*img, x as int, y as int, t),
            any == exists|t: int| 0 <= t < k && !is_nan(#[trigger] neighbour(*img, x as int, y as int, t)),
            all == forall|t: int|
                0 <= t < k ==> is_nan(#[trigger] neighbour(*img, x as int, y as int, t)) || order_key(
                    neighbour(*img, x as int, y as int, t),
                ) <= order_key(v),
        decreases 9 - k,
    {
        let u = a[k];
        if !bits_is_nan(u) {
            any = true;
            if bits_order_key(u) > kv {
                all = false;
            }
        }
        k += 1;
    }
    any && all
}

/// Whether the smallest of the samples around `(x, y)` is `>= v`.
fn around_min_at_least(img: &LumaBits, x: usize, y: usize, v: u32) -> (b: bool)
    requires
        img.wf(),
        1 <= x < img.width - 1,
        1 <= y < img.height - 1,
    ensures
        b == around_min_ge(*img, x as int, y as int, v),
{
    let a = around(img, x, y);
    if bits_is_nan(v) {
        return false;
    }
    let kv = bits_order_key(v);
    let mut any = false;
    let mut all = true;
    let mut k: usize = 0;
    while k < 9
        invariant
            k <= 9,
            !is_nan(v),
            kv == order_key(v),
            forall|t: int| 0 <= t < 9 ==> a@[t] == neighbour(*img, x as int, y as int, t),
            any == exists|t: int| 0 <= t < k && !is_nan(#[trigger] neighbour(*img, x as int, y as int, t)),
            all == forall|t: int|
                0 <= t < k ==> is_nan(#[trigger] neighbour(*img, x as int, y as int, t)) || order_key(
                    neighbour(*img, x as int, y as int, t),
                ) >= order_key(v),
        decreases 9 - k,
    {
        let u = a[k];
        if !bits_is_nan(u) {
            any = true;
            if bits_order_key(u) < kv {
                all = false;
            }
        }
        k += 1;
    }
    any && all
}


/// No scanned candidate position lies from `(i, j, r, c)` up to, but not
/// including, `(i2, j2, r2, c2)`.
pub open spec fn no_candidate_between(
    pyr: Seq<Vec<LumaBits>>,
    i: int,
    j: int,
    r: int,
    c: int,
    i2: int,
    j2: int,
    r2: int,
    c2: int,
) -> bool {
    forall|a: int, b: int, y: int, x: int|
        #![trigger is_candidate(pyr[a]@, b, y, x)]
        is_scanned(pyr, a, b, y, x) && is_candidate(pyr[a]@, b, y, x) && scan_before(a, b, y, x, i2, j2, r2, c2)
            ==> scan_before(a, b, y, x, i, j, r, c)
}

/// Moving the scan position past positions that hold no candidate keeps
/// the scan state.
proof fn lemma_skip(
    kps: Seq<SIFTKeyPoint>,
    pyr: Seq<Vec<LumaBits>>,
    i: int,
    j: int,
    r: int,
    c: int,
    i2: int,
    j2: int,
    r2: int,
    c2: int,
)
    requires
        scanned_up_to(kps, pyr, i, j, r, c),
        scan_before(i, j, r, c, i2, j2, r2, c2) || (i == i2 && j == j2 && r == r2 && c == c2),
        no_candidate_between(pyr, i, j, r, c, i2, j2, r2, c2),
    ensures
        scanned_up_to(kps, pyr, i2, j2, r2, c2),
{
    assert forall|a: int, b: int, y: int, x: int|
        #![trigger is_candidate(pyr[a]@, b, y, x)]
        is_scanned(pyr, a, b, y, x) && is_candidate(pyr[a]@, b, y, x) && scan_before(a, b, y, x, i2, j2, r2, c2)
        implies exists|t: int| 0 <= t < kps.len() && located_at(#[trigger] kps[t], a, b, y, x) by {
        assert(scan_before(a, b, y, x, i, j, r, c));
    }
}

/// Recording the keypoint at the scan position and moving to the next
/// column keeps the scan state.
proof fn lemma_record(
    kps: Seq<SIFTKeyPoint>,
    pyr: Seq<Vec<LumaBits>>,
    i: int,
    j: int,
    r: int,
    c: int,
    k: SIFTKeyPoint,
)
    requires
        scanned_up_to(kps, pyr, i, j, r, c),
        is_scanned(pyr, i, j, r, c),
        is_candidate(pyr[i]@, j, r, c),
        located_at(k, i, j, r, c),
        is_fresh(k),
    ensures
        scanned_up_to(kps.push(k), pyr, i, j, r, c + 1),
{
    let n = kps.push(k);
    assert(n[kps.len() as int] == k);
    assert forall|t: int| 0 <= t < kps.len() implies n[t] == kps[t] by {}
    assert forall|a: int, b: int| 0 <= a < b < n.len() implies kp_before(#[trigger] n[a], #[trigger] n[b]) by {
        if b == kps.len() {
            assert(n[a] == kps[a]);
        } else {
            assert(n[a] == kps[a] && n[b] == kps[b]);
        }
    }
    assert forall|t: int| 0 <= t < n.len() implies {
        let q = #[trigger] n[t];
        &&& is_scanned(pyr, q.octave as int, q.scale as int, q.y as int, q.x as int)
        &&& is_candidate(pyr[q.octave as int]@, q.scale as int, q.y as int, q.x as int)
        &&& is_fresh(q)
    } by {
        if t < kps.len() {
            assert(n[t] == kps[t]);
        }
    }
    assert forall|t: int| 0 <= t < n.len() implies scan_before(
        (#[trigger] n[t]).octave as int,
        n[t].scale as int,
        n[t].y as int,
        n[t].x as int,
        i,
        j,
        r,
        c + 1,
    ) by {
        if t < kps.len() {
            assert(n[t] == kps[t]);
        }
    }
    assert forall|a: int, b: int, y: int, x: int|
        #![trigger is_candidate(pyr[a]@, b, y, x)]
        is_scanned(pyr, a, b, y, x) && is_candidate(pyr[a]@, b, y, x) && scan_before(a, b, y, x, i, j, r, c + 1)
        implies exists|t: int| 0 <= t < n.len() && located_at(#[trigger] n[t], a, b, y, x) by {
        if scan_before(a, b, y, x, i, j, r, c) {
            let t = choose|t: int| 0 <= t < kps.len() && located_at(#[trigger] kps[t], a, b, y, x);
            assert(n[t] == kps[t]);
        } else {
            assert(located_at(n[kps.len() as int], a, b, y, x));
        }
    }
}


/// Whether the sample at column `c`, row `r` of scale `j` is a keypoint.
fn check_pixel(oct: &Vec<LumaBits>, j: usize, r: usize, c: usize) -> (b: bool)
    requires
        1 <= j < oct@.len() - 1,
        inner_scale_ok(oct@, j as int),
        IMG_BORDER <= r < oct@[j as int].height - IMG_BORDER,
        IMG_BORDER <= c < oct@[j as int].width - IMG_BORDER,
        pixel_reads_ok(oct@, j as int, r as int, c as int),
    ensures
        b == is_candidate(oct@, j as int, r as int, c as int),
{
    // Reading the length bounds it by `usize::MAX`, so `j + 1` cannot overflow.
    let _n = oct.len();
    let img = &oct[j];
    let prev = &oct[j - 1];
    let next = &oct[j + 1];
    let v = img.get_pixel(c as u32, r as u32);
    if v % 0x8000_0000 < EXTREMUM_THRESHOLD_BITS {
        return false;
    }
    (around_max_at_most(img, c, r, v) && around_max_at_most(prev, c, r, v) && around_max_at_most(
        next,
        c,
        r,
        v,
    )) || (around_min_at_least(img, c, r, v) && around_min_at_least(prev, c, r, v)
        && around_min_at_least(next, c, r, v))
}

/// A keypoint found at column `c`, row `r` of scale `j` in octave `i`.
fn fresh_keypoint(i: usize, j: usize, r: usize, c: usize) -> (k: SIFTKeyPoint)
    requires
        r <= u32::MAX,
        c <= u32::MAX,
    ensures
        located_at(k, i as int, j as int, r as int, c as int),
        is_fresh(k),
{
    let k = SIFTKeyPoint {
        x: c as u32,
        y: r as u32,
        size: 0,
        angle: 0,
        response: 0,
        octave: i,
        scale: j,
        feature: [0u8; 128],
    };
    k
}


/// Every scanned candidate position of the pyramid holds a keypoint.
pub open spec fn covers_all(kps: Seq<SIFTKeyPoint>, pyr: Seq<Vec<LumaBits>>) -> bool {
    forall|i: int, j: int, r: int, c: int|
        #![trigger is_candidate(pyr[i]@, j, r, c)]
        is_scanned(pyr, i, j, r, c) && is_candidate(pyr[i]@, j, r, c) ==> exists|t: int|
            0 <= t < kps.len() && located_at(#[trigger] kps[t], i, j, r, c)
}

/// Scans row `r` of scale `j` of octave `i`.
fn scan_row(pyr: &Vec<Vec<LumaBits>>, i: usize, j: usize, r: usize, keypoints: &mut Vec<SIFTKeyPoint>)
    requires
        scannable(pyr@),
        i < pyr@.len(),
        1 <= j < pyr@[i as int]@.len() - 1,
        IMG_BORDER <= r < pyr@[i as int]@[j as int].height - IMG_BORDER,
        scanned_up_to(old(keypoints)@, pyr@, i as int, j as int, r as int, 0),
    ensures
        scanned_up_to(final(keypoints)@, pyr@, i as int, j as int, r + 1, 0),
{
    let oct = &pyr[i];
    assert(inner_scale_ok(oct@, j as int));
    let end = oct[j].width as usize - IMG_BORDER;
    proof {
        lemma_skip(
            keypoints@,
            pyr@,
            i as int,
            j as int,
            r as int,
            0,
            i as int,
            j as int,
            r as int,
            IMG_BORDER as int,
        );
    }
    let mut c = IMG_BORDER;
    while c < end
        invariant
            scannable(pyr@),
            oct == pyr@[i as int],
            i < pyr@.len(),
            1 <= j < oct@.len() - 1,
            inner_scale_ok(oct@, j as int),
            IMG_BORDER <= r < oct@[j as int].height - IMG_BORDER,
            end == oct@[j as int].width - IMG_BORDER,
            IMG_BORDER <= c,
            scanned_up_to(keypoints@, pyr@, i as int, j as int, r as int, c as int),
        decreases end - c,
    {
        if check_pixel(oct, j, r, c) {
            let k = fresh_keypoint(i, j, r, c);
            proof {
                lemma_record(keypoints@, pyr@, i as int, j as int, r as int, c as int, k);
            }
            keypoints.push(k);
        } else {
            proof {
                lemma_skip(
                    keypoints@,
                    pyr@,
                    i as int,
                    j as int,
                    r as int,
                    c as int,
                    i as int,
                    j as int,
                    r as int,
                    c + 1,
                );
            }
        }
        c += 1;
    }
    proof {
        lemma_skip(
            keypoints@,
            pyr@,
            i as int,
            j as int,
            r as int,
            c as int,
            i as int,
            j as int,
            r + 1,
            0,
        );
    }
}

/// Scans scale `j` of octave `i`.
fn scan_scale(pyr: &Vec<Vec<LumaBits>>, i: usize, j: usize, keypoints: &mut Vec<SIFTKeyPoint>)
    requires
        scannable(pyr@),
        i < pyr@.len(),
        1 <= j < pyr@[i as int]@.len() - 1,
        scanned_up_to(old(keypoints)@, pyr@, i as int, j as int, 0, 0),
    ensures
        scanned_up_to(final(keypoints)@, pyr@, i as int, j as int + 1, 0, 0),
{
    let oct = &pyr[i];
    assert(inner_scale_ok(oct@, j as int));
    let end = oct[j].height as usize - IMG_BORDER;
    proof {
        lemma_skip(
            keypoints@,
            pyr@,
            i as int,
            j as int,
            0,
            0,
            i as int,
            j as int,
            IMG_BORDER as int,
            0,
        );
    }
    let mut r = IMG_BORDER;
    while r < end
        invariant
            scannable(pyr@),
            oct == pyr@[i as int],
            i < pyr@.len(),
            1 <= j < oct@.len() - 1,
            end == oct@[j as int].height - IMG_BORDER,
            IMG_BORDER <= r,
            scanned_up_to(keypoints@, pyr@, i as int, j as int, r as int, 0),
        decreases end - r,
    {
        scan_row(pyr, i, j, r, keypoints);
        r += 1;
    }
    proof {
        lemma_skip(keypoints@, pyr@, i as int, j as int, r as int, 0, i as int, j + 1, 0, 0);
    }
}

/// Scans octave `i`.
fn scan_octave(pyr: &Vec<Vec<LumaBits>>, i: usize, keypoints: &mut Vec<SIFTKeyPoint>)
    requires
        scannable(pyr@),
        i < pyr@.len(),
        scanned_up_to(old(keypoints)@, pyr@, i as int, 0, 0, 0),
    ensures
        scanned_up_to(final(keypoints)@, pyr@, i + 1, 0, 0, 0),
{
    let oct = &pyr[i];
    assert(oct@.len() >= 1);
    let end = oct.len() - 1;
    proof {
        lemma_skip(keypoints@, pyr@, i as int, 0, 0, 0, i as int, 1, 0, 0);
    }
    let mut j: usize = 1;
    while j < end
        invariant
            scannable(pyr@),
            oct == pyr@[i as int],
            i < pyr@.len(),
            end == oct@.len() - 1,
            1 <= j,
            scanned_up_to(keypoints@, pyr@, i as int, j as int, 0, 0),
        decreases end - j,
    {
        scan_scale(pyr, i, j, keypoints);
        j += 1;
    }
    proof {
        lemma_skip(keypoints@, pyr@, i as int, j as int, 0, 0, i + 1, 0, 0, 0);
    }
}

/// Finds the keypoints of a difference-of-Gaussians pyramid: every pixel at
/// least `IMG_BORDER` inside an inner scale of an octave whose sample reaches
/// the threshold in magnitude and is a maximum or a minimum of its 3x3x3
/// neighbourhood. They come in order of octave, scale, row and column, and the
/// pyramids are handed on unchanged.
pub fn find_keypoints(dog: DoGComputed) -> (res: DoGAndKPComputed)
    requires
        scannable(dog.pyr_dog@),
    ensures
        res.octave_cnt == dog.octave_cnt,
        res.pyr_g == dog.pyr_g,
        res.pyr_dog == dog.pyr_dog,
        all_candidates(res.keypoints@, dog.pyr_dog@),
        in_scan_order(res.keypoints@),
        covers_all(res.keypoints@, dog.pyr_dog@),
{
    let DoGComputed { octave_cnt, pyr_g, pyr_dog } = dog;
    let mut keypoints: Vec<SIFTKeyPoint> = Vec::new();
    let n = pyr_dog.len();
    let mut i: usize = 0;
    while i < n
        invariant
            scannable(pyr_dog@),
            n == pyr_dog@.len(),
            scanned_up_to(keypoints@, pyr_dog@, i as int, 0, 0, 0),
        decreases n - i,
    {
        scan_octave(&pyr_dog, i, &mut keypoints);
        i += 1;
    }
    assert forall|a: int, b: int, y: int, x: int|
        #![trigger is_candidate(pyr_dog@[a]@, b, y, x)]
        is_scanned(pyr_dog@, a, b, y, x) && is_candidate(pyr_dog@[a]@, b, y, x) implies exists|t: int|
        0 <= t < keypoints@.len() && located_at(#[trigger] keypoints@[t], a, b, y, x) by {
        assert(scan_before(a, b, y, x, i as int, 0, 0, 0));
    }
    DoGAndKPComputed { octave_cnt, pyr_g, pyr_dog, keypoints }
}


/// Whether an image buffer holds one sample per pixel.
fn image_wf(img: &LumaBits) -> (b: bool)
    ensures
        b == img.wf(),
{
    let w = img.width as u64;
    let h = img.height as u64;
    assert(w * h <= 0xffff_ffff * 0xffff_ffff) by (nonlinear_arith)
        requires
            w <= 0xffff_ffff,
            h <= 0xffff_ffff,
    ;
    img.data.len() as u64 == w * h
}

/// Whether the 3x3 block around column `c`, row `r` lies inside the image.
fn block_inside(img: &LumaBits, c: usize, r: usize) -> (b: bool)
    requires
        c <= u32::MAX,
        r <= u32::MAX,
    ensures
        b == holds_block(*img, c as int, r as int),
{
    (c as u64) + 1 < img.width as u64 && (r as u64) + 1 < img.height as u64
}

/// Whether testing the sample at column `c`, row `r` of scale `j` reads only
/// inside the images.
fn check_pixel_reads(oct: &Vec<LumaBits>, j: usize, r: usize, c: usize) -> (b: bool)
    requires
        1 <= j < oct@.len() - 1,
        oct@[j - 1].wf(),
        oct@[j as int].wf(),
        oct@[j + 1].wf(),
        IMG_BORDER <= r < oct@[j as int].height - IMG_BORDER,
        IMG_BORDER <= c < oct@[j as int].width - IMG_BORDER,
    ensures
        b == pixel_reads_ok(oct@, j as int, r as int, c as int),
{
    // Reading the length bounds it by `usize::MAX`, so `j + 1` cannot overflow.
    let _n = oct.len();
    let img = &oct[j];
    let prev = &oct[j - 1];
    let next = &oct[j + 1];
    let v = img.get_pixel(c as u32, r as u32);
    if v % 0x8000_0000 < EXTREMUM_THRESHOLD_BITS {
        return true;
    }
    let mut max_all = false;
    if around_max_at_most(img, c, r, v) {
        if !block_inside(prev, c, r) {
            return false;
        }
        if around_max_at_most(prev, c, r, v) {
            if !block_inside(next, c, r) {
                return false;
            }
            max_all = around_max_at_most(next, c, r, v);
        }
    }
    if !max_all {
        if around_min_at_least(img, c, r, v) {
            if !block_inside(prev, c, r) {
                return false;
            }
            if around_min_at_least(prev, c, r, v) {
                if !block_inside(next, c, r) {
                    return false;
                }
            }
        }
    }
    true
}

/// Whether scale `j` of an octave meets what the scan of it needs.
fn check_inner_scale(oct: &Vec<LumaBits>, j: usize) -> (b: bool)
    requires
        1 <= j < oct@.len() - 1,
    ensures
        b == inner_scale_ok(oct@, j as int),
{
    // Reading the length bounds it by `usize::MAX`, so `j + 1` cannot overflow.
    let _n = oct.len();
    let img = &oct[j];
    let prev = &oct[j - 1];
    let next = &oct[j + 1];
    if !image_wf(prev) || !image_wf(img) || !image_wf(next) {
        return false;
    }
    let b5 = IMG_BORDER as u32;
    let b11 = 2 * IMG_BORDER as u32 + 1;
    if img.height < b5 {
        return false;
    }
    if img.height >= b11 && img.width < b5 {
        return false;
    }
    let r_end = (img.height - b5) as usize;
    let mut r = IMG_BORDER;
    while r < r_end
        invariant
            1 <= j < oct@.len() - 1,
            *img == oct@[j as int],
            oct@[j - 1].wf(),
            img.wf(),
            oct@[j + 1].wf(),
            img.height >= IMG_BORDER,
            img.height >= 2 * IMG_BORDER + 1 ==> img.width >= IMG_BORDER,
            r_end == img.height - IMG_BORDER,
            IMG_BORDER <= r,
            forall|r2: int, c2: int|
                IMG_BORDER <= r2 < r && r2 < img.height - IMG_BORDER && IMG_BORDER <= c2 < img.width - IMG_BORDER
                    ==> #[trigger] pixel_reads_ok(oct@, j as int, r2, c2),
        decreases r_end - r,
    {
        let c_end = (img.width - IMG_BORDER as u32) as usize;
        let mut c = IMG_BORDER;
        while c < c_end
            invariant
                1 <= j < oct@.len() - 1,
                *img == oct@[j as int],
                oct@[j - 1].wf(),
                img.wf(),
                oct@[j + 1].wf(),
                IMG_BORDER <= r < img.height - IMG_BORDER,
                c_end == img.width - IMG_BORDER,
                IMG_BORDER <= c,
                forall|c2: int|
                    IMG_BORDER <= c2 < c && c2 < img.width - IMG_BORDER ==> #[trigger] pixel_reads_ok(
                        oct@,
                        j as int,
                        r as int,
                        c2,
                    ),
            decreases c_end - c,
        {
            if !check_pixel_reads(oct, j, r, c) {
                return false;
            }
            c += 1;
        }
        assert forall|r2: int, c2: int|
            IMG_BORDER <= r2 < r + 1 && r2 < img.height - IMG_BORDER && IMG_BORDER <= c2 < img.width - IMG_BORDER
                implies #[trigger] pixel_reads_ok(oct@, j as int, r2, c2) by {
            if r2 == r {
            }
        }
        r += 1;
    }
    true
}

/// Whether `find_keypoints` can scan the pyramid.
pub fn is_scannable(pyr: &Vec<Vec<LumaBits>>) -> (b: bool)
    ensures
        b == scannable(pyr@),
{
    let n = pyr.len();
    let mut i: usize = 0;
    while i < n
        invariant
            n == pyr@.len(),
            i <= n,
            forall|a: int|
                0 <= a < i ==> {
                    &&& (#[trigger] pyr@[a])@.len() >= 1
                    &&& forall|j: int| 1 <= j < pyr@[a]@.len() - 1 ==> inner_scale_ok(pyr@[a]@, j)
                },
        decreases n - i,
    {
        let oct = &pyr[i];
        let m = oct.len();
        if m == 0 {
            assert(!scannable(pyr@)) by {
                assert(pyr@[i as int]@.len() < 1);
            }
            return false;
        }
        let mut j: usize = 1;
        while j < m - 1
            invariant
                n == pyr@.len(),
                i < n,
                m == oct@.len(),
                m >= 1,
                oct == pyr@[i as int],
                1 <= j,
                forall|t: int| 1 <= t < j && t < m - 1 ==> inner_scale_ok(oct@, t),
            decreases m - j,
        {
            if !check_inner_scale(oct, j) {
                assert(!scannable(pyr@)) by {
                    assert(!inner_scale_ok(pyr@[i as int]@, j as int));
                }
                return false;
            }
            j += 1;
        }
        i += 1;
    }
    true
}

/// Law: keypoints in scan order sit at pairwise different positions, so no
/// position is reported twice.
pub proof fn lemma_keypoints_distinct(kps: Seq<SIFTKeyPoint>)
    requires
        in_scan_order(kps),
    ensures
        forall|a: int, b: int|
            0 <= a < b < kps.len() ==> !located_at(
                #[trigger] kps[b],
                (#[trigger] kps[a]).octave as int,
                kps[a].scale as int,
                kps[a].y as int,
                kps[a].x as int,
            ),
{
    assert forall|a: int, b: int| 0 <= a < b < kps.len() implies !located_at(
        #[trigger] kps[b],
        (#[trigger] kps[a]).octave as int,
        kps[a].scale as int,
        kps[a].y as int,
        kps[a].x as int,
    ) by {
        assert(kp_before(kps[a], kps[b]));
    }
}

/// Law: every keypoint found sits on a sample whose absolute value reaches the
/// contrast threshold, whether the sample is positive or negative: it is a
/// number, and it is at least the threshold or at most its negative.
pub proof fn lemma_detected_reach_threshold(kps: Seq<SIFTKeyPoint>, pyr: Seq<Vec<LumaBits>>)
    requires
        all_candidates(kps, pyr),
    ensures
        forall|t: int|
            0 <= t < kps.len() ==> {
                let k = #[trigger] kps[t];
                let v = pyr[k.octave as int]@[k.scale as int].at(k.x as int, k.y as int);
                &&& !is_nan(v)
                &&& order_key(v) >= order_key(EXTREMUM_THRESHOLD_BITS) || order_key(v) <= -order_key(
                    EXTREMUM_THRESHOLD_BITS,
                )
            },
{
}

/// The float with the opposite sign: the sign bit flipped.
pub open spec fn negated_bits(b: u32) -> u32 {
    if b >= SIGN_BIT {
        (b - SIGN_BIT) as u32
    } else {
        (b + SIGN_BIT) as u32
    }
}

/// `neg` is `img` with every sample negated.
pub open spec fn is_negated_image(img: LumaBits, neg: LumaBits) -> bool {
    &&& neg.width == img.width
    &&& neg.height == img.height
    &&& neg.data@.len() == img.data@.len()
    &&& forall|i: int| 0 <= i < img.data@.len() ==> #[trigger] neg.data@[i] == negated_bits(img.data@[i])
}

/// Negating a float keeps whether it is a NaN and its magnitude, and negates
/// its order.
proof fn lemma_negated_bits(b: u32)
    ensures
        is_nan(negated_bits(b)) == is_nan(b),
        magnitude(negated_bits(b)) == magnitude(b),
        order_key(negated_bits(b)) == -order_key(b),
{
}

/// The nine samples around `(c, r)` of a negated image are the negated samples.
proof fn lemma_negated_neighbours(img: LumaBits, neg: LumaBits, c: int, r: int)
    requires
        is_negated_image(img, neg),
        img.wf(),
        1 <= c,
        1 <= r,
        holds_block(img, c, r),
    ensures
        forall|k: int| 0 <= k < 9 ==> #[trigger] neighbour(neg, c, r, k) == negated_bits(neighbour(img, c, r, k)),
{
    assert forall|k: int| 0 <= k < 9 implies #[trigger] neighbour(neg, c, r, k) == negated_bits(
        neighbour(img, c, r, k),
    ) by {
        let x = c + k / 3 - 1;
        let y = r + k % 3 - 1;
        assert(0 <= x < img.width && 0 <= y < img.height) by {
            if k == 0 {
            } else if k == 1 {
            } else if k == 2 {
            } else if k == 3 {
            } else if k == 4 {
            } else if k == 5 {
            } else if k == 6 {
            } else if k == 7 {
            } else {
            }
        }
        lemma_row_major_index(x, y, img.width as int, img.height as int);
    }
}

/// Around a negated image, "no sample above `v`" becomes "no sample below
/// `-v`", and the other way round.
proof fn lemma_negated_extremes(img: LumaBits, neg: LumaBits, c: int, r: int, v: u32)
    requires
        forall|k: int| 0 <= k < 9 ==> #[trigger] neighbour(neg, c, r, k) == negated_bits(neighbour(img, c, r, k)),
    ensures
        around_max_le(img, c, r, v) == around_min_ge(neg, c, r, negated_bits(v)),
        around_min_ge(img, c, r, v) == around_max_le(neg, c, r, negated_bits(v)),
{
    lemma_negated_bits(v);
    let nv = negated_bits(v);
    assert forall|k: int|
        #![trigger neighbour(neg, c, r, k)]
        #![trigger neighbour(img, c, r, k)]
        0 <= k < 9 implies is_nan(neighbour(neg, c, r, k)) == is_nan(neighbour(img, c, r, k)) && order_key(
            neighbour(neg, c, r, k),
        ) == -order_key(neighbour(img, c, r, k)) by {
        lemma_negated_bits(neighbour(img, c, r, k));
    }
    assert((exists|k: int| 0 <= k < 9 && !is_nan(#[trigger] neighbour(img, c, r, k))) <==> (exists|k: int|
        0 <= k < 9 && !is_nan(#[trigger] neighbour(neg, c, r, k))));
    assert((forall|k: int|
        0 <= k < 9 ==> is_nan(#[trigger] neighbour(img, c, r, k)) || order_key(neighbour(img, c, r, k)) <= order_key(
            v,
        )) <==> (forall|k: int|
        0 <= k < 9 ==> is_nan(#[trigger] neighbour(neg, c, r, k)) || order_key(neighbour(neg, c, r, k)) >= order_key(
            nv,
        )));
    assert((forall|k: int|
        0 <= k < 9 ==> is_nan(#[trigger] neighbour(img, c, r, k)) || order_key(neighbour(img, c, r, k)) >= order_key(
            v,
        )) <==> (forall|k: int|
        0 <= k < 9 ==> is_nan(#[trigger] neighbour(neg, c, r, k)) || order_key(neighbour(neg, c, r, k)) <= order_key(
            nv,
        )));
}

/// Law: detection is symmetric in sign. In an octave whose every scale is
/// negated, a sample is a keypoint exactly when it is one in the original
/// octave (a minimum of the differences is a maximum of their negation).
pub proof fn lemma_detection_sign_symmetric(oct: Seq<LumaBits>, neg: Seq<LumaBits>, j: int, r: int, c: int)
    requires
        neg.len() == oct.len(),
        forall|s: int| 0 <= s < oct.len() ==> is_negated_image(#[trigger] oct[s], neg[s]),
        1 <= j < oct.len() - 1,
        1 <= r,
        1 <= c,
        forall|s: int| j - 1 <= s <= j + 1 ==> (#[trigger] oct[s]).wf() && holds_block(oct[s], c, r),
    ensures
        is_candidate(neg, j, r, c) == is_candidate(oct, j, r, c),
{
    assert(is_negated_image(oct[j - 1], neg[j - 1]) && oct[j - 1].wf() && holds_block(oct[j - 1], c, r));
    assert(is_negated_image(oct[j], neg[j]) && oct[j].wf() && holds_block(oct[j], c, r));
    assert(is_negated_image(oct[j + 1], neg[j + 1]) && oct[j + 1].wf() && holds_block(oct[j + 1], c, r));
    lemma_negated_neighbours(oct[j - 1], neg[j - 1], c, r);
    lemma_negated_neighbours(oct[j], neg[j], c, r);
    lemma_negated_neighbours(oct[j + 1], neg[j + 1], c, r);
    let v = oct[j].at(c, r);
    assert(neighbour(oct[j], c, r, 4) == v);
    assert(neighbour(neg[j], c, r, 4) == neg[j].at(c, r));
    let nv = neg[j].at(c, r);
    assert(nv == negated_bits(v));
    lemma_negated_bits(v);
    lemma_negated_extremes(oct[j - 1], neg[j - 1], c, r, v);
    lemma_negated_extremes(oct[j], neg[j], c, r, v);
    lemma_negated_extremes(oct[j + 1], neg[j + 1], c, r, v);
}

/// Law: a sample that reaches the contrast threshold in absolute value, among
/// 27 samples around it (its own scale and the two around, none a NaN), is a
/// keypoint when no other of them exceeds it, and also when none is below it.
pub proof fn lemma_local_extremum_detected(oct: Seq<LumaBits>, j: int, r: int, c: int)
    requires
        1 <= j < oct.len() - 1,
        forall|s: int, k: int|
            j - 1 <= s <= j + 1 && 0 <= k < 9 ==> !is_nan(#[trigger] neighbour(oct[s], c, r, k)),
        order_key(oct[j].at(c, r)) >= order_key(EXTREMUM_THRESHOLD_BITS) || order_key(oct[j].at(c, r))
            <= -order_key(EXTREMUM_THRESHOLD_BITS),
        (forall|s: int, k: int|
            j - 1 <= s <= j + 1 && 0 <= k < 9 ==> order_key(#[trigger] neighbour(oct[s], c, r, k)) <= order_key(
                oct[j].at(c, r),
            )) || (forall|s: int, k: int|
            j - 1 <= s <= j + 1 && 0 <= k < 9 ==> order_key(#[trigger] neighbour(oct[s], c, r, k)) >= order_key(
                oct[j].at(c, r),
            )),
    ensures
        is_candidate(oct, j, r, c),
{
    let v = oct[j].at(c, r);
    assert(neighbour(oct[j], c, r, 4) == v);
    assert(!is_nan(neighbour(oct[j - 1], c, r, 4)));
    assert(!is_nan(neighbour(oct[j + 1], c, r, 4)));
}

} // verus!
