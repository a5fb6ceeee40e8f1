//! Short audible cues for capture start, capture stop, and a dictation that
//! produced nothing.
//!
//! Two notes, rising for start and falling for stop, each short enough to finish
//! before the first word. The third cue exists because the overlay is not an
//! accessible surface: without a sound, a failed dictation is identical, to
//! anyone not watching the pill, to one that worked.
//!
//! The samples themselves are floats and belong to the caller; pitch, length and
//! envelope are decided here.

use vstd::prelude::*;

verus! {

/// The cues.
#[derive(Debug, Clone, Copy, PartialEq, Eq, Structural)]
pub enum Tone {
    Start,
    Stop,
    /// The utterance ended with nothing inserted: no speech, an engine error, or
    /// text that polished away to nothing.
    Failed,
}

/// How long the start and stop cues last.
pub const DURATION_MS: u32 = 70;

/// Linear ramp either end so the tone starts and stops without a click.
pub const FADE_MS: u32 = 6;

/// How long a stream is held open past its tone, so the tail is not cut off.
pub const TAIL_MS: u32 = 60;

impl Tone {
    /// The pitch, in hundredths of a hertz: A5, D5, and E4, nearly an octave
    /// under the stop cue.
    pub open spec fn pitch(self) -> u32 {
        match self {
            Tone::Start => 88_000,
            Tone::Stop => 58_733,
            Tone::Failed => 32_963,
        }
    }

    /// How long it lasts, in milliseconds.
    pub open spec fn length(self) -> u32 {
        match self {
            Tone::Failed => 180,
            _ => DURATION_MS,
        }
    }

    /// The pitch, in hundredths of a hertz.
    pub fn centihertz(self) -> (r: u32)
        ensures
            r == self.pitch(),
    {
        match self {
            Tone::Start => 88_000,
            Tone::Stop => 58_733,
            Tone::Failed => 32_963,
        }
    }

    /// The failure cue is longer as well as lower. Someone who cannot see the
    /// pill should not have to compare two pitches from memory to work out
    /// whether their words landed.
    pub fn duration_ms(self) -> (r: u32)
        ensures
            r == self.length(),
    {
        match self {
            Tone::Failed => 180,
            _ => DURATION_MS,
        }
    }
}

/// The cues are told apart by ear: start is above stop, and failure is lower and
/// longer than either.
pub proof fn law_cues_sound_apart(other: Tone)
    ensures
        Tone::Start.pitch() > Tone::Stop.pitch(),
        other != Tone::Failed ==> Tone::Failed.pitch() < other.pitch() && Tone::Failed.length()
            > other.length(),
{
}

/// How many samples a stretch of time takes.
pub fn sample_count(rate: u32, ms: u32) -> (r: u64)
    ensures
        r == (rate * ms) / 1000,
{
    assert(rate as int * ms as int <= 0xFFFF_FFFF * 0xFFFF_FFFF) by (nonlinear_arith)
        requires
            0 <= rate as int <= 0xFFFF_FFFF,
            0 <= ms as int <= 0xFFFF_FFFF,
    ;
    rate as u64 * ms as u64 / 1000
}

/// How many samples a ramp takes: at least one.
pub fn fade_count(rate: u32) -> (r: u64)
    ensures
        r == (if (rate * FADE_MS) / 1000 < 1 {
            1
        } else {
            (rate * FADE_MS) / 1000
        }),
{
    let n: u64 = sample_count(rate, FADE_MS);
    if n < 1 {
        1
    } else {
        n
    }
}

/// How loud sample `i` of `n` is, as parts of `fade`: a ramp up, full, and a
/// ramp down.
pub open spec fn envelope_of(i: int, n: int, fade: int) -> int {
    if i < fade {
        i
    } else if i + fade >= n {
        n - i
    } else {
        fade
    }
}

/// How loud a sample is, as parts of `fade`.
pub fn envelope(i: u64, n: u64, fade: u64) -> (r: u64)
    requires
        i < n,
        fade > 0,
    ensures
        r == envelope_of(i as int, n as int, fade as int),
{
    if i < fade {
        i
    } else if fade >= n - i {
        n - i
    } else {
        fade
    }
}

/// Between its ramps a tone is at full strength, and the ramps mirror each other
/// but for the sample that each starts from.
pub proof fn law_tones_are_full_between_ramps(i: int, n: int, fade: int)
    requires
        0 <= i < n,
        0 < fade,
        2 * fade <= n,
    ensures
        fade <= i < n - fade ==> envelope_of(i, n, fade) == fade,
        i < fade ==> envelope_of(i, n, fade) == i && envelope_of(n - 1 - i, n, fade) == i + 1,
{
}

/// A tone never exceeds its amplitude, starts from nothing, and neither starts
/// nor ends with a jump: neighbours differ by one part at most, and the last
/// sample of a tone that is longer than its ramp is one part.
pub proof fn law_tones_ramp(i: int, n: int, fade: int)
    requires
        0 <= i < n,
        fade > 0,
    ensures
        0 <= envelope_of(i, n, fade) <= fade,
        envelope_of(0, n, fade) == 0,
        n > fade ==> envelope_of(n - 1, n, fade) == 1,
        n >= 2 * fade && i + 1 < n ==> -1 <= envelope_of(i + 1, n, fade) - envelope_of(i, n, fade)
            <= 1,
{
}

} // verus!
