//! Whisper's log-mel front end, as far as it is integers: the window, the hop,
//! and which sample a frame reads.
//!
//! A window of `CHUNK` samples is padded by reflection with `N_FFT / 2` samples
//! on each side, as torch's `pad(mode="reflect")` does; frame `t` then starts at
//! `t * HOP`.

use vstd::prelude::*;

verus! {

pub const SAMPLE_RATE: usize = 16_000;

pub const N_FFT: usize = 400;

pub const HOP: usize = 160;

/// Whisper always encodes a 30 s window.
pub const CHUNK: usize = 30 * SAMPLE_RATE;

pub const N_FRAMES: usize = CHUNK / HOP;

pub const N_BINS: usize = 1 + N_FFT / 2;

/// A place mirrored at the first sample or at the last one, where it lies
/// outside the window.
pub open spec fn mirrored(at: int) -> int {
    if at < 0 {
        -at
    } else if at < CHUNK {
        at
    } else {
        2 * (CHUNK - 1) - at
    }
}

/// Beyond its ends the window is read backwards: as far in as it is out, without
/// the end sample twice. The window is 30 s at 16 kHz.
pub proof fn law_the_window_is_mirrored(k: int)
    ensures
        0 <= k < 480_000 ==> mirrored(k) == k,
        0 <= k < 480_000 ==> mirrored(-k) == k,
        0 <= k < 480_000 ==> mirrored(479_999 + k) == 479_999 - k,
{
}

/// The sample of the window that value `i` of frame `t` reads.
pub fn frame_sample(t: usize, i: usize) -> (r: usize)
    requires
        t < N_FRAMES,
        i < N_FFT,
    ensures
        r < CHUNK,
        r == mirrored(t * HOP + i - N_FFT / 2),
{
    let half: usize = N_FFT / 2;
    let at: usize = t * HOP + i;
    if at < half {
        half - at
    } else if at - half < CHUNK {
        at - half
    } else {
        2 * (CHUNK - 1) - (at - half)
    }
}

} // verus!
