//! The integer side of deflicker: which neighbouring measurements each
//! frame's brightness target is averaged over.
use vstd::prelude::*;

verus! {

/// The positions `lo..=hi` (among `count` measured frames) that the target
/// of position `pos` averages over: `window / 2` on each side (a window of
/// 0 counts as 1), clipped to the measured range.
pub fn window_bounds(pos: usize, count: usize, window: usize) -> (r: (usize, usize))
    requires
        pos < count,
    ensures
        r.0 as int == if pos >= (if window == 0 { 1 } else { window }) / 2 {
            pos - (if window == 0 { 1 } else { window }) / 2
        } else {
            0
        },
        r.1 as int == if pos + (if window == 0 { 1 } else { window }) / 2 <= count - 1 {
            pos + (if window == 0 { 1 } else { window }) / 2
        } else {
            count - 1
        },
        r.0 <= pos <= r.1 < count,
{
    let w = if window == 0 {
        1
    } else {
        window
    };
    let half = w / 2;
    let lo = if pos >= half {
        pos - half
    } else {
        0
    };
    let last = count - 1;
    let hi = if half <= last - pos {
        pos + half
    } else {
        last
    };
    (lo, hi)
}

} // verus!
