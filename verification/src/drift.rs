use vstd::prelude::*;

verus! {

/// The number of frames averaged at each end of a trajectory when measuring
/// the secular energy drift: a tenth of the frames, and at least one.
pub fn averaging_window(n_frames: usize) -> (k: usize)
    ensures
        k == (if n_frames / 10 >= 1 { n_frames / 10 } else { 1 }),
        n_frames >= 1 ==> 1 <= k <= n_frames,
{
    let tenth = n_frames / 10;
    if tenth >= 1 {
        tenth
    } else {
        1
    }
}

} // verus!
