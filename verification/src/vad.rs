//! Silence trimming.
//!
//! Push-to-talk gives clean utterance boundaries already, so this is not a
//! speech *detector*: it trims the dead air either side of the press, and cuts
//! long audio where it is quietest. How loud a stretch is, the caller says.

use vstd::prelude::*;

verus! {

/// 20 ms analysis window.
pub const FRAME: usize = 320;

/// Keep this many frames either side so words aren't clipped at the edges:
/// 160 ms.
pub const HANGOVER_FRAMES: usize = 8;

/// How many frames a clip has, the last one possibly short.
pub open spec fn frame_count(len: int) -> int {
    (len + FRAME - 1) / (FRAME as int)
}

/// Whether a frame is the first voiced one.
pub open spec fn is_first(voiced: Seq<bool>, i: int) -> bool {
    0 <= i < voiced.len() && voiced[i] && forall|j: int| 0 <= j < i ==> !#[trigger] voiced[j]
}

/// Whether a frame is the last voiced one.
pub open spec fn is_last(voiced: Seq<bool>, i: int) -> bool {
    0 <= i < voiced.len() && voiced[i] && forall|j: int|
        i < j < voiced.len() ==> !#[trigger] voiced[j]
}

/// Where the kept part starts, by the first voiced frame.
pub open spec fn kept_start(first: int) -> int {
    if first < HANGOVER_FRAMES {
        0
    } else {
        (first - HANGOVER_FRAMES) * FRAME
    }
}

/// Where the kept part ends, by the last voiced frame.
pub open spec fn kept_end(last: int, len: int) -> int {
    if (last + 1 + HANGOVER_FRAMES) * FRAME < len {
        (last + 1 + HANGOVER_FRAMES) * FRAME
    } else {
        len
    }
}

/// The speech-bearing part of a clip of `len` samples, as a range, or `None` if
/// the clip is all silence or shorter than a frame. `voiced` says of each frame
/// whether it is louder than silence.
pub fn trim(voiced: &[bool], len: usize) -> (r: Option<(usize, usize)>)
    requires
        voiced.len() == frame_count(len as int),
    ensures
        r is Some <==> len >= FRAME && voiced@.contains(true),
        r matches Some((start, end)) ==> exists|first: int, last: int| #[trigger]
            is_first(voiced@, first) && #[trigger] is_last(voiced@, last) && start == kept_start(
                first,
            ) && end == kept_end(last, len as int),
{
    if len < FRAME {
        return None;
    }
    let n: usize = voiced.len();
    let mut first: usize = 0;
    while first < n && !voiced[first]
        invariant
            n == voiced.len(),
            first <= n,
            forall|j: int| 0 <= j < first ==> !#[trigger] voiced@[j],
        decreases n - first,
    {
        first += 1;
    }
    if first == n {
        return None;
    }
    let mut last: usize = n - 1;
    while !voiced[last]
        invariant
            n == voiced.len(),
            first <= last < n,
            voiced@[first as int],
            forall|j: int| last < j < n ==> !#[trigger] voiced@[j],
        decreases last,
    {
        last -= 1;
    }
    assert(voiced@[first as int]);
    assert(is_first(voiced@, first as int));
    assert(is_last(voiced@, last as int));
    let start: usize = if first < HANGOVER_FRAMES {
        0
    } else {
        (first - HANGOVER_FRAMES) * FRAME
    };
    let whole: usize = len / FRAME;
    let end: usize = if last + 1 + HANGOVER_FRAMES <= whole {
        (last + 1 + HANGOVER_FRAMES) * FRAME
    } else {
        len
    };
    Some((start, end))
}

/// Trimming keeps every voiced frame, and nothing but silence goes; what is left
/// is a stretch of the clip that is not empty.
pub proof fn law_trimming_keeps_the_speech(voiced: Seq<bool>, len: int, first: int, last: int, f: int)
    requires
        len >= FRAME,
        voiced.len() == frame_count(len),
        is_first(voiced, first),
        is_last(voiced, last),
        0 <= f < voiced.len(),
    ensures
        0 <= kept_start(first) < kept_end(last, len) <= len,
        voiced[f] ==> kept_start(first) <= f * FRAME && (f * FRAME + FRAME <= kept_end(last, len)
            || kept_end(last, len) == len),
{
    assert(voiced[first] && voiced[last]);
    assert(first <= last) by {
        if last < first {
            assert(!voiced[first]);
        }
    }
    if voiced[f] {
        assert(first <= f <= last) by {
            if f < first {
                assert(!voiced[f]);
            }
            if last < f {
                assert(!voiced[f]);
            }
        }
    }
}

/// What is kept reaches from 160 ms before the first voiced frame to 160 ms behind
/// the last, as far as the clip does: frames have 320 samples, and 2560 are 160 ms.
pub proof fn law_a_margin_is_kept(len: int, first: int, last: int)
    requires
        0 <= first,
    ensures
        kept_start(first) == (if 320 * first < 2560 {
            0
        } else {
            320 * first - 2560
        }),
        kept_end(last, len) == (if 320 * (last + 1) + 2560 < len {
            320 * (last + 1) + 2560
        } else {
            len
        }),
{
}

// ---------------------------------------------------------------------------
// Windows
// ---------------------------------------------------------------------------

/// How far before a window's limit the quietest cut is looked for, in samples:
/// 5 s.
pub const CUT_SEARCH: usize = 80_000;

/// The largest loudness that counts: the bits of the largest finite 32-bit
/// float.
pub const LOUDEST: u32 = 0x7F7F_FFFF;

/// Where the search for a cut begins, for a window that starts at `start` and
/// may be `max_len` long.
pub open spec fn search_start(start: int, max_len: int) -> int {
    let limit = start + max_len;
    if limit - CUT_SEARCH > start + FRAME {
        limit - CUT_SEARCH
    } else {
        start + FRAME
    }
}

/// How many frames are searched for a cut.
pub open spec fn searched(start: int, max_len: int) -> int {
    let room = start + max_len - search_start(start, max_len);
    if room < FRAME {
        0
    } else {
        room / (FRAME as int)
    }
}

/// The sample where a searched frame starts.
pub open spec fn searched_at(start: int, max_len: int, k: int) -> int {
    search_start(start, max_len) + k * FRAME
}

/// Whether a window is cut right, by how loud each searched frame is: in the
/// middle of the quietest one, the first where several are equal; at the limit
/// where there is none.
pub open spec fn is_cut(start: int, max_len: int, loudness: Seq<u32>, cut: int) -> bool {
    if exists|k: int| quietest(loudness, k) {
        exists|k: int| #[trigger]
            quietest(loudness, k) && cut == searched_at(start, max_len, k) + FRAME / 2
    } else {
        cut == start + max_len
    }
}

/// Whether a frame is the quietest.
pub open spec fn quietest(loudness: Seq<u32>, k: int) -> bool {
    &&& 0 <= k < loudness.len()
    &&& loudness[k] < LOUDEST
    &&& forall|j: int| 0 <= j < loudness.len() ==> loudness[k] <= #[trigger] loudness[j]
    &&& forall|j: int| 0 <= j < k ==> loudness[k] < #[trigger] loudness[j]
}

/// Whether `loudness` may be what is heard of the searched frames.
pub open spec fn heard<F: Fn(usize) -> u32>(
    listen: F,
    start: int,
    max_len: int,
    loudness: Seq<u32>,
) -> bool {
    &&& loudness.len() == searched(start, max_len)
    &&& forall|k: int|
        0 <= k < loudness.len() ==> listen.ensures(
            (searched_at(start, max_len, k) as usize,),
            #[trigger] loudness[k],
        )
}

/// Whether there is such a cut for what is heard.
pub open spec fn cut_heard<F: Fn(usize) -> u32>(
    listen: F,
    start: int,
    max_len: int,
    cut: int,
) -> bool {
    exists|loudness: Seq<u32>| #[trigger]
        heard(listen, start, max_len, loudness) && is_cut(start, max_len, loudness, cut)
}

/// Where a window is cut.
fn find_cut<F: Fn(usize) -> u32>(listen: &F, start: usize, max_len: usize) -> (cut: usize)
    requires
        max_len > 0,
        start + max_len <= usize::MAX,
        forall|at: usize| start < at && at + FRAME <= start + max_len ==> listen.requires((at,)),
    ensures
        start < cut <= start + max_len,
        cut_heard(*listen, start as int, max_len as int, cut as int),
{
    let limit: usize = start + max_len;
    let mut best: u32 = LOUDEST;
    let mut cut: usize = limit;
    let ghost mut loudness: Seq<u32> = Seq::empty();
    let ghost mut found: Option<int> = None;
    let ghost (s, m) = (start as int, max_len as int);
    if max_len >= FRAME {
        let from: usize = if max_len > CUT_SEARCH && limit - CUT_SEARCH > start + FRAME {
            limit - CUT_SEARCH
        } else {
            start + FRAME
        };
        assert(from == search_start(s, m));
        let mut at: usize = from;
        while limit - at >= FRAME
            invariant
                (s, m) == (start as int, max_len as int),
                limit == start + max_len,
                from == search_start(s, m),
                start < from <= at <= limit,
                at == searched_at(s, m, loudness.len() as int),
                loudness.len() <= searched(s, m),
                forall|at: usize|
                    start < at && at + FRAME <= start + max_len ==> listen.requires((at,)),
                forall|k: int|
                    0 <= k < loudness.len() ==> listen.ensures(
                        (searched_at(s, m, k) as usize,),
                        #[trigger] loudness[k],
                    ),
                best <= LOUDEST,
                match found {
                    Some(k) => quietest(loudness, k) && best == loudness[k] && cut == searched_at(
                        s,
                        m,
                        k,
                    ) + FRAME / 2,
                    None => best == LOUDEST && cut == limit && forall|j: int|
                        0 <= j < loudness.len() ==> #[trigger] loudness[j] >= LOUDEST,
                },
                start < cut <= limit,
            decreases limit - at,
        {
            let e: u32 = listen(at);
            let ghost before = loudness;
            let ghost k = loudness.len() as int;
            proof {
                loudness = loudness.push(e);
                assert forall|j: int| 0 <= j < loudness.len() implies listen.ensures(
                    (searched_at(s, m, j) as usize,),
                    #[trigger] loudness[j],
                ) by {
                    if j < k {
                        assert(loudness[j] == before[j]);
                    }
                }
            }
            if e < best {
                best = e;
                cut = at + FRAME / 2;
                proof {
                    match found {
                        Some(q) => {
                            assert forall|j: int| 0 <= j < k implies e < #[trigger] loudness[j] by {
                                assert(before[j] == loudness[j]);
                            }
                        },
                        None => {
                            assert forall|j: int| 0 <= j < k implies e < #[trigger] loudness[j] by {
                                assert(before[j] == loudness[j]);
                            }
                        },
                    }
                    found = Some(k);
                    assert(quietest(loudness, k));
                }
            } else {
                proof {
                    match found {
                        Some(q) => {
                            assert(loudness[q] == before[q]);
                            assert forall|j: int| 0 <= j < loudness.len() implies loudness[q]
                                <= #[trigger] loudness[j] by {
                                if j < k {
                                    assert(before[j] == loudness[j]);
                                }
                            }
                            assert forall|j: int| 0 <= j < q implies loudness[q]
                                < #[trigger] loudness[j] by {
                                assert(before[j] == loudness[j]);
                            }
                            assert(quietest(loudness, q));
                        },
                        None => {
                            assert forall|j: int| 0 <= j < loudness.len() implies #[trigger] loudness[j]
                                >= LOUDEST by {
                                if j < k {
                                    assert(before[j] == loudness[j]);
                                }
                            }
                        },
                    }
                }
            }
            at += FRAME;
        }
    }
    proof {
        assert(loudness.len() == searched(s, m));
        assert(heard(*listen, s, m, loudness));
        match found {
            Some(k) => {
                assert(quietest(loudness, k));
            },
            None => {
                assert forall|k: int| !quietest(loudness, k) by {
                    if 0 <= k < loudness.len() {
                        assert(loudness[k] >= LOUDEST);
                    }
                }
            },
        }
        assert(is_cut(s, m, loudness, cut as int));
    }
    cut
}

/// A long window is cut in its last five seconds, which have 250 frames of 20 ms:
/// in the middle of the first of the quietest, or at its limit where none is less
/// loud than can be.
pub proof fn law_cuts_are_near_the_limit(start: int, max_len: int, loudness: Seq<u32>, cut: int)
    requires
        max_len > 80_320,
        loudness.len() == searched(start, max_len),
        is_cut(start, max_len, loudness, cut),
    ensures
        loudness.len() == 250,
        start + max_len - 80_000 <= cut <= start + max_len,
        cut == start + max_len || exists|k: int|
            0 <= k < 250 && #[trigger] loudness[k] < 0x7F7F_FFFF && cut == start + max_len - 80_000
                + 320 * k + 160 && (forall|j: int|
                0 <= j < 250 ==> loudness[k] <= #[trigger] loudness[j]) && forall|j: int|
                0 <= j < k ==> loudness[k] < #[trigger] loudness[j],
        (exists|k: int| 0 <= k < 250 && #[trigger] loudness[k] < 0x7F7F_FFFF) ==> cut < start + max_len,
{
    if exists|k: int| 0 <= k < 250 && #[trigger] loudness[k] < 0x7F7F_FFFF {
        let k = choose|k: int| 0 <= k < 250 && #[trigger] loudness[k] < 0x7F7F_FFFF;
        lemma_some_frame_is_quietest(loudness, k);
    }
    if exists|k: int| quietest(loudness, k) {
        let k = choose|k: int| #[trigger]
            quietest(loudness, k) && cut == searched_at(start, max_len, k) + FRAME / 2;
        assert(loudness[k] < 0x7F7F_FFFF);
    }
}

/// Where a frame is less loud than can be, there is a quietest.
proof fn lemma_some_frame_is_quietest(loudness: Seq<u32>, k: int)
    requires
        0 <= k < loudness.len(),
        loudness[k] < LOUDEST,
    ensures
        exists|j: int| quietest(loudness, j),
    decreases loudness[k], k,
{
    if exists|j: int| 0 <= j < loudness.len() && #[trigger] loudness[j] < loudness[k] {
        let j = choose|j: int| 0 <= j < loudness.len() && #[trigger] loudness[j] < loudness[k];
        lemma_some_frame_is_quietest(loudness, j);
    } else if exists|j: int| 0 <= j < k && #[trigger] loudness[j] <= loudness[k] {
        let j = choose|j: int| 0 <= j < k && #[trigger] loudness[j] <= loudness[k];
        lemma_some_frame_is_quietest(loudness, j);
    } else {
        assert(quietest(loudness, k));
    }
}

/// Whether ranges lie end to end from the first sample to the last.
pub open spec fn tile(ranges: Seq<(usize, usize)>, len: int) -> bool {
    &&& ranges.len() > 0
    &&& ranges[0].0 == 0
    &&& ranges.last().1 == len
    &&& forall|i: int| 0 <= i < ranges.len() ==> (#[trigger] ranges[i]).0 <= ranges[i].1
    &&& forall|i: int, j: int|
        #![trigger ranges[i], ranges[j]]
        0 <= i && j == i + 1 && j < ranges.len() ==> ranges[i].1 == ranges[j].0
}

/// Splits a clip of `len` samples into windows no longer than `max_len`, each cut
/// at the quietest 20 ms in the last 5 s before the limit rather than at the
/// limit itself, so a word is never halved. A clip within the limit comes back
/// whole. `listen` says how loud the frame at a sample is: the bits of a float
/// that is not negative.
pub fn windows<F: Fn(usize) -> u32>(len: usize, max_len: usize, listen: F) -> (r: Vec<(usize, usize)>)
    requires
        max_len > 0 || len == 0,
        forall|at: usize| at + FRAME <= len ==> listen.requires((at,)),
    ensures
        tile(r@, len as int),
        len <= max_len ==> r@ == seq![(0usize, len)],
        forall|i: int| 0 <= i < r.len() ==> (#[trigger] r@[i]).1 - r@[i].0 <= max_len,
        forall|i: int|
            0 <= i < r.len() - 1 ==> len - (#[trigger] r@[i]).0 > max_len && cut_heard(
                listen,
                r@[i].0 as int,
                max_len as int,
                r@[i].1 as int,
            ),
{
    let mut out: Vec<(usize, usize)> = Vec::new();
    let mut start: usize = 0;
    while len - start > max_len
        invariant
            start <= len,
            max_len > 0 || len == 0,
            forall|at: usize| at + FRAME <= len ==> listen.requires((at,)),
            out.len() == 0 ==> start == 0,
            len <= max_len ==> out.len() == 0,
            out.len() > 0 ==> out@[0].0 == 0 && out@.last().1 == start,
            forall|i: int| 0 <= i < out.len() ==> (#[trigger] out@[i]).0 <= out@[i].1,
            forall|i: int, j: int|
                #![trigger out@[i], out@[j]]
                0 <= i && j == i + 1 && j < out.len() ==> out@[i].1 == out@[j].0,
            forall|i: int| 0 <= i < out.len() ==> (#[trigger] out@[i]).1 - out@[i].0 <= max_len,
            forall|i: int|
                0 <= i < out.len() ==> len - (#[trigger] out@[i]).0 > max_len && cut_heard(
                    listen,
                    out@[i].0 as int,
                    max_len as int,
                    out@[i].1 as int,
                ),
        decreases len - start,
    {
        let cut: usize = find_cut(&listen, start, max_len);
        out.push((start, cut));
        start = cut;
    }
    out.push((start, len));
    assert(len <= max_len ==> out@ == seq![(0usize, len)]);
    out
}

} // verus!
