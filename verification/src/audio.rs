//! Frame arithmetic of decoded audio.

use vstd::prelude::*;

verus! {

/// Frames of an interleaved buffer: samples per channel, 0 without channels.
pub fn frames(samples: usize, channels: usize) -> (r: usize)
    ensures
        r == if channels == 0 {
            0
        } else {
            samples / channels
        },
{
    if channels == 0 {
        0
    } else {
        samples / channels
    }
}

/// Whole milliseconds of `frames` at `sample_rate`; 0 for a zero rate.
pub fn duration_ms(frames: usize, sample_rate: u32) -> (r: u64)
    requires
        sample_rate != 0 ==> frames * 1000 <= u64::MAX,
    ensures
        r == if sample_rate == 0 {
            0
        } else {
            (frames * 1000) / (sample_rate as int)
        },
{
    if sample_rate == 0 {
        0
    } else {
        (frames as u64) * 1000 / (sample_rate as u64)
    }
}

} // verus!

verus! {

/// The region a play request covers in audio of `total` frames: both ends
/// clamped to the audio, and the end never before the start.
pub fn clamp_region(start: usize, end: usize, total: usize) -> (r: (usize, usize))
    ensures
        r.0 == if start < total { start } else { total },
        r.1 == if end < total {
            if end < r.0 { r.0 } else { end }
        } else {
            total
        },
        r.0 <= r.1 <= total,
{
    let s = if start < total {
        start
    } else {
        total
    };
    let e = if end < total {
        end
    } else {
        total
    };
    (s, if e < s {
        s
    } else {
        e
    })
}

} // verus!
