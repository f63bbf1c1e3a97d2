//! Index arithmetic of the descriptor histogram: 6 x 6 spatial cells (the
//! 4 x 4 cells of the descriptor with a margin on each side), each with 10
//! orientation slots (the 8 orientation bins with room to wrap).
use vstd::prelude::*;

verus! {

/// The number of slots of the descriptor histogram.
pub const DESCRIPTOR_HIST_LEN: usize = 360;

/// The slot of spatial cell `(x0 + 1 + dx, y0 + 1 + dy)` and orientation
/// `o0 + dob`, where `(x0, y0, o0)` is the floored bin position of a sample.
pub open spec fn slot_value(x0: i32, y0: i32, o0: i32, dx: u8, dy: u8, dob: u8) -> int {
    60 * (x0 + 1 + dx) + 10 * (y0 + 1 + dy) + o0 + dob
}

/// The histogram slot a sample with floored bin position `(x0, y0, o0)`
/// contributes to at corner `(dx, dy, dob)` of its trilinear interpolation,
/// each of them 0 or 1; `None` when that slot lies outside the histogram.
pub fn descriptor_slot(x0: i32, y0: i32, o0: i32, dx: u8, dy: u8, dob: u8) -> (r: Option<usize>)
    requires
        dx <= 1,
        dy <= 1,
        dob <= 1,
    ensures
        r is Some <==> 0 <= slot_value(x0, y0, o0, dx, dy, dob) < DESCRIPTOR_HIST_LEN,
        r matches Some(i) ==> i == slot_value(x0, y0, o0, dx, dy, dob),
{
    let v: i64 = 60 * (x0 as i64 + 1 + dx as i64) + 10 * (y0 as i64 + 1 + dy as i64) + o0 as i64 + dob as i64;
    if 0 <= v && v < DESCRIPTOR_HIST_LEN as i64 {
        Some(v as usize)
    } else {
        None
    }
}

/// Law: the slots of a sample's eight interpolation corners step through the
/// histogram's layout: the next spatial column is 60 slots on, the next
/// spatial row 10, the next orientation 1; the first corner of a sample at
/// bin position `(x0, y0, o0)` is cell `(x0 + 1, y0 + 1)`, orientation `o0`.
pub proof fn lemma_slot_steps(x0: i32, y0: i32, o0: i32, dx: u8, dy: u8, dob: u8)
    requires
        dx <= 1,
        dy <= 1,
        dob <= 1,
    ensures
        slot_value(x0, y0, o0, 0, 0, 0) == 60 * (x0 + 1) + 10 * (y0 + 1) + o0,
        slot_value(x0, y0, o0, 1, dy, dob) == slot_value(x0, y0, o0, 0, dy, dob) + 60,
        slot_value(x0, y0, o0, dx, 1, dob) == slot_value(x0, y0, o0, dx, 0, dob) + 10,
        slot_value(x0, y0, o0, dx, dy, 1) == slot_value(x0, y0, o0, dx, dy, 0) + 1,
{
}

} // verus!
