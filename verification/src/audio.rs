//! Microphone capture, as far as it is decided here: how much is kept, and how
//! it is handed to the resampler.
//!
//! Push-to-talk utterances are short, so the device's native rate is captured
//! into a plain buffer and resampled once on stop.

use crate::asr::SAMPLE_RATE;
use vstd::prelude::*;

verus! {

/// The longest capture: five minutes. Guards against a stuck hotkey, or a latch
/// that was walked away from, eating memory.
pub const MAX_SECONDS: u32 = 300;

/// The most samples that are kept at a sample rate.
pub fn max_samples(rate: u32) -> (r: u64)
    ensures
        r == rate * MAX_SECONDS,
{
    assert(rate as int * MAX_SECONDS as int <= 0xFFFF_FFFF * 300) by (nonlinear_arith)
        requires
            0 <= rate as int <= 0xFFFF_FFFF,
            MAX_SECONDS == 300,
    ;
    rate as u64 * MAX_SECONDS as u64
}

/// How much a capture has kept.
#[derive(Debug, Clone, Copy, PartialEq, Eq, Structural)]
pub struct Level {
    /// Samples kept.
    pub len: u64,
    /// Set when the ceiling was hit, so the UI can explain the truncation.
    pub truncated: bool,
}

impl Default for Level {
    fn default() -> (r: Level)
        ensures
            r == (Level { len: 0, truncated: false }),
    {
        Level { len: 0, truncated: false }
    }
}

impl Level {
    /// Whether the ceiling is reached.
    pub open spec fn full(self, rate: u32) -> bool {
        self.len >= rate * MAX_SECONDS
    }

    /// What a capture has kept after a block of `frames` samples: the block whole
    /// where the ceiling was not reached before it, and otherwise none of it.
    pub open spec fn after(self, rate: u32, frames: u64) -> Level {
        if self.full(rate) {
            Level { truncated: true, ..self }
        } else {
            Level { len: (self.len + frames) as u64, ..self }
        }
    }
}

/// Takes a block of samples, and says whether it is kept.
pub fn take_block(level: &mut Level, rate: u32, frames: u64) -> (kept: bool)
    requires
        old(level).len + frames <= u64::MAX,
    ensures
        kept == !old(level).full(rate),
        *final(level) == old(level).after(rate, frames),
{
    if level.len >= max_samples(rate) {
        level.truncated = true;
        return false;
    }
    level.len = level.len + frames;
    true
}

/// A capture never runs on past the ceiling: what is kept exceeds it by less than
/// one block; truncation is reported only there; and from then on nothing more is
/// kept.
pub proof fn law_a_capture_is_bounded(level: Level, rate: u32, frames: u64)
    requires
        level.len + frames <= u64::MAX,
        level.truncated ==> level.full(rate),
    ensures
        level.after(rate, frames).truncated ==> level.after(rate, frames).full(rate),
        level.after(rate, frames).len <= level.len || level.after(rate, frames).len < rate
            * MAX_SECONDS + frames,
        level.full(rate) ==> level.after(rate, frames) == (Level { truncated: true, ..level }),
{
}

/// A block is kept whole as long as five minutes are not reached, and is not kept
/// at all from then on; only that is reported as truncation.
pub proof fn law_blocks_are_kept_for_five_minutes(level: Level, rate: u32, frames: u64)
    requires
        level.len + frames <= u64::MAX,
    ensures
        level.len < rate * 300 ==> level.after(rate, frames).len == level.len + frames,
        level.len < rate * 300 ==> level.after(rate, frames).truncated == level.truncated,
        level.len >= rate * 300 ==> level.after(rate, frames).len == level.len,
        level.len >= rate * 300 ==> level.after(rate, frames).truncated,
{
}

/// What is done to get a buffer to 16 kHz.
#[derive(Debug, Clone, Copy, PartialEq, Eq, Structural)]
pub enum Resampling {
    /// It is already there.
    Copy,
    /// There is nothing in it.
    Nothing,
    /// It goes through the resampler.
    Convert,
}

/// What is done to get a buffer of `len` samples to 16 kHz.
pub fn resampling(len: usize, rate: u32) -> (r: Resampling)
    ensures
        r == (if rate == SAMPLE_RATE {
            Resampling::Copy
        } else if len == 0 {
            Resampling::Nothing
        } else {
            Resampling::Convert
        }),
{
    if rate == SAMPLE_RATE {
        Resampling::Copy
    } else if len == 0 {
        Resampling::Nothing
    } else {
        Resampling::Convert
    }
}

/// A stretch of the buffer for the resampler.
#[derive(Debug, Clone, Copy, PartialEq, Eq, Structural)]
pub struct Chunk {
    pub start: usize,
    pub end: usize,
    /// Whether it is as long as the resampler asked for; a short one ends the
    /// buffer and flushes the tail.
    pub whole: bool,
}

/// The next stretch for a resampler that asks for `need` samples; `None` at the
/// end of the buffer. Each starts where the one before ended, so that together
/// they are the buffer.
pub fn next_chunk(pos: usize, len: usize, need: usize) -> (r: Option<Chunk>)
    requires
        need > 0,
        pos <= len,
    ensures
        r is None <==> pos == len,
        r matches Some(c) ==> {
            &&& c.start == pos
            &&& pos < c.end <= len
            &&& c.end == (if pos + need < len {
                pos + need
            } else {
                len as int
            })
            &&& c.whole == (c.end - pos == need)
            &&& !c.whole ==> c.end == len
        },
{
    if pos >= len {
        return None;
    }
    let end: usize = if need < len - pos {
        pos + need
    } else {
        len
    };
    Some(Chunk { start: pos, end, whole: end - pos == need })
}

} // verus!
