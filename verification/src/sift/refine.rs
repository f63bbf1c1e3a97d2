//! The integer steps of refining keypoints: moving a candidate by the rounded
//! offset of its interpolated extremum, and dropping the rejected ones.
use vstd::prelude::*;

use super::extrema::IMG_BORDER;
use super::keypoint::SIFTKeyPoint;

verus! {

/// A refined keypoint must stay at a scale from 1 to this, the scales per
/// octave.
pub const MAX_REFINED_SCALE: usize = 3;

/// Where one refinement step moves the candidate at column `x`, row `y`,
/// scale `scale` of a `width` x `height` image, given the rounded offsets
/// `dx`, `dy`, `ds`: `None` when the moved point is closer than `IMG_BORDER` to
/// an edge (a distance of exactly `IMG_BORDER` to the right or bottom edge is
/// kept) or its scale leaves `1 ..= MAX_REFINED_SCALE`.
pub open spec fn advanced(
    x: u32,
    y: u32,
    scale: usize,
    dx: u32,
    dy: u32,
    ds: usize,
    width: u32,
    height: u32,
) -> Option<(u32, u32, usize)> {
    let nx = x + dx;
    let ny = y + dy;
    let ns = scale + ds;
    if nx < IMG_BORDER || nx > width - IMG_BORDER || ny < IMG_BORDER || ny > height - IMG_BORDER || ns < 1
        || ns > MAX_REFINED_SCALE {
        None
    } else {
        Some((nx as u32, ny as u32, ns as usize))
    }
}

/// One refinement step: moves the candidate by the rounded offsets and checks
/// that it stays inside the region where keypoints are kept.
pub fn advance_extremum(
    x: u32,
    y: u32,
    scale: usize,
    dx: u32,
    dy: u32,
    ds: usize,
    width: u32,
    height: u32,
) -> (r: Option<(u32, u32, usize)>)
    requires
        x + dx <= u32::MAX,
        y + dy <= u32::MAX,
        scale + ds <= usize::MAX,
        x + dx >= IMG_BORDER ==> width >= IMG_BORDER,
        (x + dx >= IMG_BORDER && x + dx <= width - IMG_BORDER && y + dy >= IMG_BORDER) ==> height
            >= IMG_BORDER,
    ensures
        r == advanced(x, y, scale, dx, dy, ds, width, height),
{
    let nx = x + dx;
    let ny = y + dy;
    let ns = scale + ds;
    let border = IMG_BORDER as u32;
    if nx < border || nx > width - border || ny < border || ny > height - border || ns < 1 || ns
        > MAX_REFINED_SCALE {
        None
    } else {
        Some((nx, ny, ns))
    }
}

/// The first `n` keypoints whose index is not marked, in order.
pub open spec fn kept(kps: Seq<SIFTKeyPoint>, marked: Seq<usize>, n: nat) -> Seq<SIFTKeyPoint>
    decreases n,
{
    if n == 0 {
        Seq::empty()
    } else if marked.contains((n - 1) as usize) {
        kept(kps, marked, (n - 1) as nat)
    } else {
        kept(kps, marked, (n - 1) as nat).push(kps[n - 1])
    }
}

/// Whether `i` is among the marked indices.
fn is_marked(marked: &Vec<usize>, i: usize) -> (b: bool)
    ensures
        b == marked@.contains(i),
{
    let n = marked.len();
    let mut t: usize = 0;
    while t < n
        invariant
            n == marked@.len(),
            t <= n,
            forall|u: int| 0 <= u < t ==> marked@[u] != i,
        decreases n - t,
    {
        if marked[t] == i {
            return true;
        }
        t += 1;
    }
    false
}

/// The keypoints whose index is not marked, in their order.
pub fn drop_marked(keypoints: Vec<SIFTKeyPoint>, marked: &Vec<usize>) -> (res: Vec<SIFTKeyPoint>)
    ensures
        res@ == kept(keypoints@, marked@, keypoints@.len()),
{
    let mut res: Vec<SIFTKeyPoint> = Vec::new();
    let n = keypoints.len();
    let mut i: usize = 0;
    while i < n
        invariant
            n == keypoints@.len(),
            i <= n,
            res@ == kept(keypoints@, marked@, i as nat),
        decreases n - i,
    {
        if !is_marked(marked, i) {
            res.push(keypoints[i]);
        }
        i += 1;
    }
    res
}


/// Law: with no index marked every keypoint is kept.
pub proof fn lemma_nothing_marked(kps: Seq<SIFTKeyPoint>, n: nat)
    requires
        n <= kps.len(),
    ensures
        kept(kps, Seq::empty(), n) == kps.take(n as int),
    decreases n,
{
    if n > 0 {
        lemma_nothing_marked(kps, (n - 1) as nat);
        assert(!Seq::<usize>::empty().contains((n - 1) as usize));
        assert(kps.take(n as int) =~= kps.take(n - 1).push(kps[n - 1]));
    } else {
        assert(kps.take(0) =~= Seq::<SIFTKeyPoint>::empty());
    }
}

/// Law: a keypoint is kept exactly when its index is not marked, and no more
/// keypoints come out than go in.
pub proof fn lemma_kept_members(kps: Seq<SIFTKeyPoint>, marked: Seq<usize>, n: nat)
    requires
        n <= kps.len(),
        kps.len() <= usize::MAX,
    ensures
        kept(kps, marked, n).len() <= n,
        forall|i: int|
            0 <= i < n && !marked.contains(i as usize) ==> kept(kps, marked, n).contains(#[trigger] kps[i]),
        forall|t: int|
            0 <= t < kept(kps, marked, n).len() ==> kept_from_unmarked(kps, marked, n, #[trigger] kept(kps, marked, n)[t]),
    decreases n,
{
    if n > 0 {
        lemma_kept_members(kps, marked, (n - 1) as nat);
        let prev = kept(kps, marked, (n - 1) as nat);
        let cur = kept(kps, marked, n);
        assert forall|k: SIFTKeyPoint| kept_from_unmarked(kps, marked, (n - 1) as nat, k) implies kept_from_unmarked(kps, marked, n, k) by {
            let i = choose|i: int| 0 <= i < n - 1 && !marked.contains(i as usize) && kps[i] == k;
            assert(0 <= i < n && !marked.contains(i as usize) && kps[i] == k);
        }
        if !marked.contains((n - 1) as usize) {
            assert(cur == prev.push(kps[n - 1]));
            assert forall|i: int|
                0 <= i < n && !marked.contains(i as usize) implies cur.contains(#[trigger] kps[i]) by {
                if i < n - 1 {
                    let t = choose|t: int| 0 <= t < prev.len() && prev[t] == kps[i];
                    assert(cur[t] == kps[i]);
                } else {
                    assert(cur[prev.len() as int] == kps[i]);
                }
            }
            assert forall|t: int| 0 <= t < cur.len() implies kept_from_unmarked(kps, marked, n, #[trigger] cur[t]) by {
                if t < prev.len() {
                    assert(cur[t] == prev[t]);
                } else {
                    assert(cur[t] == kps[n - 1]);
                    assert(0 <= n - 1 < n && !marked.contains((n - 1) as usize) && kps[n - 1] == cur[t]);
                }
            }
        } else {
            assert(cur == prev);
        }
    }
}

/// `k` is one of the first `n` keypoints whose index is not marked.
pub open spec fn kept_from_unmarked(kps: Seq<SIFTKeyPoint>, marked: Seq<usize>, n: nat, k: SIFTKeyPoint) -> bool {
    exists|i: int| 0 <= i < n && !marked.contains(i as usize) && kps[i] == k
}

/// Law: the step treats rows and columns alike. Swapping the two coordinates,
/// their offsets and the image's width and height swaps the coordinates of the
/// result; so a row is checked against the height, a column against the width.
pub proof fn lemma_advance_transpose(
    x: u32,
    y: u32,
    scale: usize,
    dx: u32,
    dy: u32,
    ds: usize,
    width: u32,
    height: u32,
)
    ensures
        advanced(x, y, scale, dx, dy, ds, width, height) == match advanced(y, x, scale, dy, dx, ds, height, width) {
            Some(t) => Some((t.1, t.0, t.2)),
            None => None,
        },
{
}

/// Law: a step is kept exactly when the moved point lies from `IMG_BORDER` to
/// `IMG_BORDER` short of the far edge in each direction, and its scale from 1
/// to `MAX_REFINED_SCALE`; it then lands where the offsets take it.
pub proof fn lemma_advance_kept_inside(
    x: u32,
    y: u32,
    scale: usize,
    dx: u32,
    dy: u32,
    ds: usize,
    width: u32,
    height: u32,
)
    requires
        x + dx <= u32::MAX,
        y + dy <= u32::MAX,
        scale + ds <= usize::MAX,
    ensures
        advanced(x, y, scale, dx, dy, ds, width, height) is Some <==> {
            &&& IMG_BORDER <= x + dx && x + dx + IMG_BORDER <= width
            &&& IMG_BORDER <= y + dy && y + dy + IMG_BORDER <= height
            &&& 1 <= scale + ds <= MAX_REFINED_SCALE
        },
        advanced(x, y, scale, dx, dy, ds, width, height) matches Some(t) ==> t.0 == x + dx && t.1 == y + dy
            && t.2 == scale + ds,
{
}

} // verus!
