//! Which application has focus, so insertion can be tuned to it.
//!
//! One global insertion strategy cannot be right everywhere: some Electron apps
//! drop synthesised keystrokes, and fields that refuse a paste need exactly those
//! keystrokes.

use crate::text::{chars_of, lower_text, part, string_of};
use vstd::prelude::*;

verus! {

/// Whether a character separates path segments.
pub open spec fn is_separator(c: char) -> bool {
    c == '\\' || c == '/'
}

/// Whether the last segment of a path starts at `i`.
pub open spec fn last_segment_at(path: Seq<char>, i: int) -> bool {
    &&& 0 <= i <= path.len()
    &&& i > 0 ==> is_separator(path[i - 1])
    &&& forall|j: int| i <= j < path.len() ==> !is_separator(#[trigger] path[j])
}

/// The last segment of a path.
pub open spec fn last_segment(path: Seq<char>) -> Seq<char>
    decreases path.len(),
{
    if path.len() == 0 || is_separator(path.last()) {
        Seq::empty()
    } else {
        last_segment(path.drop_last()).push(path.last())
    }
}

proof fn lemma_last_segment(path: Seq<char>, i: int)
    requires
        last_segment_at(path, i),
    ensures
        last_segment(path) == path.skip(i),
    decreases path.len() - i,
{
    if i < path.len() {
        let front = path.drop_last();
        assert forall|j: int| i <= j < front.len() implies !is_separator(#[trigger] front[j]) by {
            assert(front[j] == path[j]);
        }
        assert(!is_separator(path[path.len() - 1]));
        lemma_last_segment(front, i);
        assert(front.skip(i).push(path.last()) == path.skip(i));
    } else {
        assert(path.skip(i) == Seq::<char>::empty());
    }
}

/// The last segment is the end of the path behind its last slash or backslash, or
/// all of it where there is none.
pub proof fn law_the_last_segment_ends_the_path(path: Seq<char>)
    ensures
        last_segment(path).len() <= path.len(),
        path.skip(path.len() - last_segment(path).len()) == last_segment(path),
        forall|i: int|
            0 <= i < last_segment(path).len() ==> #[trigger] last_segment(path)[i] != '/'
                && last_segment(path)[i] != '\\',
        last_segment(path).len() < path.len() ==> path[path.len() - last_segment(path).len() - 1]
            == '/' || path[path.len() - last_segment(path).len() - 1] == '\\',
    decreases path.len(),
{
    if path.len() > 0 && !is_separator(path.last()) {
        let front = path.drop_last();
        law_the_last_segment_ends_the_path(front);
        let n = front.len() - last_segment(front).len();
        assert(path.skip(n) == front.skip(n).push(path.last()));
    }
}

/// Last path segment, lowercased, so a profile key matches however Windows
/// happens to report the path.
pub fn exe_name(path: &str) -> (r: String)
    ensures
        r@ == lower_text(last_segment(path@)),
{
    let chars: Vec<char> = chars_of(path);
    let mut i: usize = chars.len();
    while i > 0 && chars[i - 1] != '\\' && chars[i - 1] != '/'
        invariant
            i <= chars.len(),
            forall|j: int| i <= j < chars.len() ==> !is_separator(#[trigger] chars@[j]),
        decreases i,
    {
        i -= 1;
    }
    proof {
        lemma_last_segment(chars@, i as int);
    }
    let name: String = string_of(part(chars.as_slice(), i, chars.len()).as_slice());
    assert(name@ == chars@.skip(i as int));
    name.as_str().to_lowercase()
}

/// Lowercased file name of the foreground window's executable, for example
/// `windowsterminal.exe`, by its path. `None` when there is no foreground window
/// or its process cannot be queried; callers fall back to the global strategy.
pub fn foreground_exe(path: Option<&str>) -> (r: Option<String>)
    ensures
        r is Some <==> path is Some,
        r matches Some(name) ==> name@ == lower_text(last_segment(path->0@)),
{
    match path {
        Some(p) => Some(exe_name(p)),
        None => None,
    }
}

} // verus!
