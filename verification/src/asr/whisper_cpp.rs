//! What becomes of whisper.cpp's output. The engine itself belongs to the
//! caller.

use crate::text::{append_str, flat, is_white, lemma_trimmed, string_of, texts, trim, trimmed};
use vstd::prelude::*;

verus! {

/// Human-readable name, shown in settings and logs.
pub const NAME: &'static str = "whisper.cpp";

/// The segments follow each other as they were heard, with nothing between: the
/// text is what they say one after the other, but for whitespace at its ends.
pub proof fn law_segments_stay_in_order(segments: Seq<Seq<char>>) -> (from: int)
    ensures
        0 <= from,
        from + trimmed(flat(segments)).len() <= segments.flatten().len(),
        trimmed(flat(segments)) == segments.flatten().subrange(
            from,
            from + trimmed(flat(segments)).len(),
        ),
        forall|i: int| 0 <= i < from ==> is_white(#[trigger] segments.flatten()[i]),
        forall|i: int|
            from + trimmed(flat(segments)).len() <= i < segments.flatten().len() ==> is_white(
                #[trigger] segments.flatten()[i],
            ),
        trimmed(flat(segments)).len() > 0 ==> !is_white(trimmed(flat(segments))[0]) && !is_white(
            trimmed(flat(segments)).last(),
        ),
{
    lemma_flat_is_flatten(segments);
    lemma_trimmed(flat(segments))
}

proof fn lemma_flat_is_flatten(parts: Seq<Seq<char>>)
    ensures
        flat(parts) == parts.flatten(),
    decreases parts.len(),
{
    if parts.len() > 0 {
        lemma_flat_is_flatten(parts.drop_last());
        parts.drop_last().lemma_flatten_push(parts.last());
        assert(parts.drop_last().push(parts.last()) == parts);
    }
}

/// The text of an utterance: its segments in a row, trimmed.
pub fn join_segments(segments: &Vec<String>) -> (r: String)
    ensures
        r@ == trimmed(flat(texts(segments@))),
{
    let ghost all = texts(segments@);
    let mut text: Vec<char> = Vec::new();
    let mut i: usize = 0;
    while i < segments.len()
        invariant
            i <= segments.len(),
            all == texts(segments@),
            text@ == flat(all.take(i as int)),
        decreases segments.len() - i,
    {
        append_str(&mut text, segments[i].as_str());
        proof {
            assert(all.take(i as int + 1).drop_last() == all.take(i as int));
            assert(all.take(i as int + 1).last() == segments@[i as int]@);
        }
        i += 1;
    }
    assert(all.take(i as int) == all);
    string_of(trim(text.as_slice()).as_slice())
}

} // verus!
