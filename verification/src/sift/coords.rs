//! Mapping keypoint coordinates from their octave back to the input image.
//!
//! A keypoint found in octave `o` has coordinates in an image scaled by
//! `2^(1 - o)` from the input (octave 0 is the input doubled). The mapping
//! multiplies each coordinate, as an `f32`, by `2^(o - 1)` and truncates the
//! product back to `u32`; the specification below states that computation
//! exactly over the integers.
use vstd::arithmetic::div_mod::lemma_div_denominator;
use vstd::arithmetic::power2::{lemma_pow2_adds, lemma_pow2_pos, lemma_pow2_unfold, pow2};
use vstd::prelude::*;

use super::keypoint::SIFTKeyPoint;

verus! {

/// The spacing of the `f32` values around `x`: 1 below `2^24`, doubling at
/// each further power of two.
pub open spec fn f32_spacing(x: u32) -> int {
    if x < 0x100_0000 {
        1
    } else if x < 0x200_0000 {
        2
    } else if x < 0x400_0000 {
        4
    } else if x < 0x800_0000 {
        8
    } else if x < 0x1000_0000 {
        16
    } else if x < 0x2000_0000 {
        32
    } else if x < 0x4000_0000 {
        64
    } else if x < 0x8000_0000 {
        128
    } else {
        256
    }
}

/// The value of `x as f32`: `x` rounded to a multiple of the spacing, to the
/// nearest one, ties to the one whose quotient is even.
pub open spec fn round_to_f32(x: u32) -> int {
    let u = f32_spacing(x);
    let q = x as int / u;
    let rem = x as int % u;
    if 2 * rem > u || (2 * rem == u && q % 2 == 1) {
        (q + 1) * u
    } else {
        q * u
    }
}

/// The exponent `octave as i32 - 1` of the scale factor: the octave's low 32
/// bits read as a signed number, minus one.
pub open spec fn octave_exponent(octave: usize) -> int {
    let low = octave as int % 0x1_0000_0000;
    (if low >= 0x8000_0000 {
        low - 0x1_0000_0000
    } else {
        low
    }) - 1
}

/// The coordinate `c` of a keypoint in octave `octave`, mapped to the input
/// image: `(c as f32 * 2^e) as u32` with `e = octave_exponent(octave)`, the
/// product saturating at `u32::MAX`.
pub open spec fn input_coordinate(c: u32, octave: usize) -> int {
    let r = round_to_f32(c);
    let e = octave_exponent(octave);
    if r == 0 {
        0
    } else if e >= 0 {
        if r * pow2(e as nat) > u32::MAX {
            u32::MAX as int
        } else {
            r * pow2(e as nat)
        }
    } else {
        r / (pow2((-e) as nat) as int)
    }
}

/// The octave exponent does not overflow `i32`.
pub open spec fn octave_in_range(octave: usize) -> bool {
    octave as int % 0x1_0000_0000 != 0x8000_0000
}

/// `x as f32`, as an integer.
fn to_f32_value(x: u32) -> (r: u64)
    ensures
        r == round_to_f32(x),
        r <= 0x1_0000_0000,
{
    let u: u64 = if x < 0x100_0000 {
        1
    } else if x < 0x200_0000 {
        2
    } else if x < 0x400_0000 {
        4
    } else if x < 0x800_0000 {
        8
    } else if x < 0x1000_0000 {
        16
    } else if x < 0x2000_0000 {
        32
    } else if x < 0x4000_0000 {
        64
    } else if x < 0x8000_0000 {
        128
    } else {
        256
    };
    let x64 = x as u64;
    let q = x64 / u;
    let rem = x64 % u;
    assert(q * u <= x64) by (nonlinear_arith)
        requires
            q == x64 / u,
            u > 0,
    ;
    if 2 * rem > u || (2 * rem == u && q % 2 == 1) {
        assert((q + 1) * u <= 0x1_0000_0000) by (nonlinear_arith)
            requires
                q == x64 / u,
                1 <= u <= 256,
                x64 < 0x1_0000_0000,
                u == 1 ==> x64 < 0x100_0000,
                u == 2 ==> x64 < 0x200_0000,
                u == 4 ==> x64 < 0x400_0000,
                u == 8 ==> x64 < 0x800_0000,
                u == 16 ==> x64 < 0x1000_0000,
                u == 32 ==> x64 < 0x2000_0000,
                u == 64 ==> x64 < 0x4000_0000,
                u == 128 ==> x64 < 0x8000_0000,
                u == 1 || u == 2 || u == 4 || u == 8 || u == 16 || u == 32 || u == 64 || u == 128
                    || u == 256,
        ;
        (q + 1) * u
    } else {
        q * u
    }
}


/// Maps one coordinate of a keypoint in octave `octave` to the input image.
pub fn to_input_scale(c: u32, octave: usize) -> (r: u32)
    requires
        octave_in_range(octave),
    ensures
        r == input_coordinate(c, octave),
{
    let v = to_f32_value(c);
    let low = (octave as u64) % 0x1_0000_0000;
    let signed: i64 = if low >= 0x8000_0000 {
        low as i64 - 0x1_0000_0000
    } else {
        low as i64
    };
    let e = signed - 1;
    assert(e == octave_exponent(octave));
    if v == 0 {
        return 0;
    }
    if e >= 0 {
        let mut w: u64 = v;
        let mut t: i64 = 0;
        proof {
            lemma_pow2_pos(0);
            assert(pow2(0) == 1) by {
                vstd::arithmetic::power2::lemma2_to64();
            }
            assert(v * pow2(0) == v) by (nonlinear_arith)
                requires
                    pow2(0) == 1,
            ;
            assert(w == v * pow2(t as nat));
        }
        while t < e && w <= 0xffff_ffff
            invariant
                0 <= t <= e,
                1 <= v <= 0x1_0000_0000,
                w == v * pow2(t as nat),
                w <= 0x1_ffff_fffe || t == 0,
            decreases e - t,
        {
            proof {
                lemma_pow2_unfold((t + 1) as nat);
                assert(w * 2 == v * pow2((t + 1) as nat)) by (nonlinear_arith)
                    requires
                        w == v * pow2(t as nat),
                        pow2((t + 1) as nat) == 2 * pow2(t as nat),
                ;
            }
            w = w * 2;
            t += 1;
        }
        if w > 0xffff_ffff {
            proof {
                lemma_pow2_adds(t as nat, (e - t) as nat);
                lemma_pow2_pos((e - t) as nat);
                assert(v * pow2(e as nat) >= w) by (nonlinear_arith)
                    requires
                        w == v * pow2(t as nat),
                        pow2(e as nat) == pow2(t as nat) * pow2((e - t) as nat),
                        pow2((e - t) as nat) >= 1,
                        v >= 1,
                ;
            }
            u32::MAX
        } else {
            w as u32
        }
    } else {
        let k: i64 = -e;
        let mut w: u64 = v;
        let mut t: i64 = 0;
        proof {
            assert(pow2(0) == 1) by {
                vstd::arithmetic::power2::lemma2_to64();
            }
            assert(v as int / 1 == v);
            assert(w == v as int / (pow2(t as nat) as int));
        }
        while t < k && w > 0
            invariant
                0 <= t <= k,
                1 <= v <= 0x1_0000_0000,
                w == v as int / (pow2(t as nat) as int),
                t > 0 ==> w <= 0x8000_0000,
            decreases k - t,
        {
            proof {
                lemma_pow2_unfold((t + 1) as nat);
                lemma_pow2_pos(t as nat);
                lemma_div_denominator(v as int, pow2(t as nat) as int, 2);
                assert(pow2(t as nat) * 2 == pow2((t + 1) as nat));
            }
            w = w / 2;
            t += 1;
        }
        if t < k {
            proof {
                lemma_pow2_adds(t as nat, (k - t) as nat);
                lemma_pow2_pos(t as nat);
                lemma_pow2_pos((k - t) as nat);
                lemma_div_denominator(v as int, pow2(t as nat) as int, pow2((k - t) as nat) as int);
                assert(0int / (pow2((k - t) as nat) as int) == 0);
            }
        }
        w as u32
    }
}

/// Maps the coordinates of every keypoint from its octave to the input image,
/// leaving the other fields as they are.
pub fn to_input_coordinates(keypoints: &mut Vec<SIFTKeyPoint>)
    requires
        forall|t: int| 0 <= t < old(keypoints)@.len() ==> octave_in_range(#[trigger] old(keypoints)@[t].octave),
    ensures
        final(keypoints)@.len() == old(keypoints)@.len(),
        forall|t: int|
            0 <= t < old(keypoints)@.len() ==> #[trigger] final(keypoints)@[t] == (SIFTKeyPoint {
                x: input_coordinate(old(keypoints)@[t].x, old(keypoints)@[t].octave) as u32,
                y: input_coordinate(old(keypoints)@[t].y, old(keypoints)@[t].octave) as u32,
                ..old(keypoints)@[t]
            }),
{
    let n = keypoints.len();
    let mut i: usize = 0;
    while i < n
        invariant
            n == old(keypoints)@.len(),
            keypoints@.len() == n,
            i <= n,
            forall|t: int| i <= t < n ==> #[trigger] keypoints@[t] == old(keypoints)@[t],
            forall|t: int| 0 <= t < n ==> octave_in_range(#[trigger] old(keypoints)@[t].octave),
            forall|t: int|
                0 <= t < i ==> #[trigger] keypoints@[t] == (SIFTKeyPoint {
                    x: input_coordinate(old(keypoints)@[t].x, old(keypoints)@[t].octave) as u32,
                    y: input_coordinate(old(keypoints)@[t].y, old(keypoints)@[t].octave) as u32,
                    ..old(keypoints)@[t]
                }),
        decreases n - i,
    {
        let mut k = keypoints[i];
        let x = to_input_scale(k.x, k.octave);
        let y = to_input_scale(k.y, k.octave);
        k.x = x;
        k.y = y;
        keypoints[i] = k;
        i += 1;
    }
}


/// Law: every coordinate below `2^24` is an `f32` exactly, so a keypoint of
/// octave 1, which has the input's resolution, keeps its coordinates.
pub proof fn lemma_octave_one_keeps(c: u32)
    requires
        c < 0x100_0000,
    ensures
        round_to_f32(c) == c,
        input_coordinate(c, 1) == c,
{
    assert(pow2(0) == 1) by {
        vstd::arithmetic::power2::lemma2_to64();
    }
}

/// Law: a keypoint of octave 0, found in the input doubled, has its
/// coordinates halved, rounding down.
pub proof fn lemma_octave_zero_halves(c: u32)
    requires
        c < 0x100_0000,
    ensures
        input_coordinate(c, 0) == c / 2,
{
    assert(pow2(1) == 2) by {
        vstd::arithmetic::power2::lemma2_to64();
    }
}

} // verus!
