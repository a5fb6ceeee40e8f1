//! What sits beside the caret in the focused field, so dictated text does not run
//! into it. Dictating mid-sentence should read "...the report today" and not
//! "...the reporttoday". Apps that expose no text pattern (terminals, some
//! Electron apps) simply get the text unchanged.

use crate::text::{append, chars_of, is_white, is_word_char, string_of};
use vstd::prelude::*;

verus! {

#[derive(Debug, Clone, Copy, PartialEq, Eq, Structural)]
pub struct Neighbours {
    /// The character immediately before the caret (or the selection).
    pub before: Option<char>,
    /// The character immediately after.
    pub after: Option<char>,
}

impl Default for Neighbours {
    fn default() -> (r: Neighbours)
        ensures
            r == (Neighbours { before: None, after: None }),
    {
        Neighbours { before: None, after: None }
    }
}

/// The neighbours of a caret, by the text on either side of it: what stands at
/// the near end of each. Either side may be unknown.
pub fn neighbours(before: Option<&str>, after: Option<&str>) -> (r: Neighbours)
    ensures
        r.before == match before {
            Some(s) => if s@.len() > 0 {
                Some(s@.last())
            } else {
                None
            },
            None => None,
        },
        r.after == match after {
            Some(s) => if s@.len() > 0 {
                Some(s@[0])
            } else {
                None
            },
            None => None,
        },
{
    let left: Option<char> = match before {
        Some(s) => {
            let chars: Vec<char> = chars_of(s);
            if chars.len() > 0 {
                Some(chars[chars.len() - 1])
            } else {
                None
            }
        },
        None => None,
    };
    let right: Option<char> = match after {
        Some(s) => {
            let chars: Vec<char> = chars_of(s);
            if chars.len() > 0 {
                Some(chars[0])
            } else {
                None
            }
        },
        None => None,
    };
    Neighbours { before: left, after: right }
}

/// Characters that text follows directly: brackets, quotes, slashes, dashes.
pub open spec fn is_opener(c: char) -> bool {
    c == '(' || c == '[' || c == '{' || c == '"' || c == '\'' || c == '\u{201C}' || c == '\u{2018}'
        || c == '/' || c == '-' || c == '\u{2013}' || c == '\u{2014}' || c == '<'
}

/// Characters that follow text directly.
pub open spec fn is_closer(c: char) -> bool {
    c == '.' || c == ',' || c == ';' || c == ':' || c == '!' || c == '?' || c == ')' || c == ']'
        || c == '}' || c == '"' || c == '\'' || c == '\u{201D}' || c == '\u{2019}' || c == '>'
}

fn opener(c: char) -> (r: bool)
    ensures
        r == is_opener(c),
{
    c == '(' || c == '[' || c == '{' || c == '"' || c == '\'' || c == '\u{201C}' || c == '\u{2018}'
        || c == '/' || c == '-' || c == '\u{2013}' || c == '\u{2014}' || c == '<'
}

fn closer(c: char) -> (r: bool)
    ensures
        r == is_closer(c),
{
    c == '.' || c == ',' || c == ';' || c == ':' || c == '!' || c == '?' || c == ')' || c == ']'
        || c == '}' || c == '"' || c == '\'' || c == '\u{201D}' || c == '\u{2019}' || c == '>'
}

/// Whether text gets a space in front: it would touch a word or closing
/// punctuation, and starts with a word or an opener itself.
pub open spec fn spaced_before(text: Seq<char>, before: Option<char>) -> bool {
    match before {
        Some(c) => !is_white(c) && !is_opener(c) && (is_word_char(text[0]) || is_opener(text[0])),
        None => false,
    }
}

/// Whether text gets a space behind: it would touch anything but closing
/// punctuation, and does not end in whitespace itself.
pub open spec fn spaced_after(text: Seq<char>, after: Option<char>) -> bool {
    match after {
        Some(c) => !is_white(c) && !is_closer(c) && !is_white(text.last()),
        None => false,
    }
}

/// A space, or nothing.
pub open spec fn space_if(wanted: bool) -> Seq<char> {
    if wanted {
        seq![' ']
    } else {
        Seq::empty()
    }
}

/// The text as it is inserted.
pub open spec fn padded(text: Seq<char>, n: Neighbours) -> Seq<char> {
    if text.len() == 0 {
        text
    } else {
        space_if(spaced_before(text, n.before)) + text + space_if(spaced_after(text, n.after))
    }
}

/// Text that starts with a word never fuses with one on its left, and text that
/// does not end in whitespace never fuses with one on its right; whitespace is
/// never doubled.
pub proof fn law_words_never_fuse(text: Seq<char>, n: Neighbours)
    requires
        text.len() > 0,
    ensures
        n.before matches Some(c) && is_word_char(c) && !is_white(c) && !is_opener(c) && is_word_char(
            text[0],
        ) ==> padded(text, n)[0] == ' ',
        n.after matches Some(c) && is_word_char(c) && !is_white(c) && !is_closer(c) && !is_white(
            text.last(),
        ) ==> padded(text, n).last() == ' ',
        n.before matches Some(c) && is_white(c) ==> !spaced_before(text, n.before),
        n.after matches Some(c) && is_white(c) ==> !spaced_after(text, n.after),
        is_white(text.last()) ==> !spaced_after(text, n.after),
{
}

/// Padding adds nothing but a space on either side, and just where it is wanted.
/// In front: the text starts with a word or with a bracket, quote, slash or dash
/// that opens something, and what stands there is neither whitespace nor such an
/// opening. Behind: what stands there is neither whitespace nor punctuation that
/// closes something, and the text does not end in whitespace.
pub proof fn law_padding_adds_spaces_alone(text: Seq<char>, n: Neighbours)
    requires
        text.len() > 0,
    ensures
        ({
            let opening = seq![
                '(', '[', '{', '"', '\'', '\u{201C}', '\u{2018}', '/', '-', '\u{2013}', '\u{2014}', '<',
            ];
            let closing = seq![
                '.', ',', ';', ':', '!', '?', ')', ']', '}', '"', '\'', '\u{201D}', '\u{2019}', '>',
            ];
            let front = n.before is Some && !is_white(n.before->0) && !opening.contains(n.before->0)
                && (is_word_char(text[0]) || opening.contains(text[0]));
            let back = n.after is Some && !is_white(n.after->0) && !closing.contains(n.after->0)
                && !is_white(text[text.len() - 1]);
            padded(text, n) == (if front {
                seq![' '] + text
            } else {
                text
            }) + (if back {
                seq![' ']
            } else {
                Seq::empty()
            })
        }),
{
    let opening = seq![
        '(', '[', '{', '"', '\'', '\u{201C}', '\u{2018}', '/', '-', '\u{2013}', '\u{2014}', '<',
    ];
    let closing = seq![
        '.', ',', ';', ':', '!', '?', ')', ']', '}', '"', '\'', '\u{201D}', '\u{2019}', '>',
    ];
    assert forall|c: char| opening.contains(c) <==> #[trigger] is_opener(c) by {
        if is_opener(c) {
            assert(opening[0] == '(' && opening[1] == '[' && opening[2] == '{' && opening[3] == '"'
                && opening[4] == '\'' && opening[5] == '\u{201C}' && opening[6] == '\u{2018}'
                && opening[7] == '/' && opening[8] == '-' && opening[9] == '\u{2013}' && opening[10]
                == '\u{2014}' && opening[11] == '<');
        }
    }
    assert forall|c: char| closing.contains(c) <==> #[trigger] is_closer(c) by {
        if is_closer(c) {
            assert(closing[0] == '.' && closing[1] == ',' && closing[2] == ';' && closing[3] == ':'
                && closing[4] == '!' && closing[5] == '?' && closing[6] == ')' && closing[7] == ']'
                && closing[8] == '}' && closing[9] == '"' && closing[10] == '\'' && closing[11]
                == '\u{201D}' && closing[12] == '\u{2019}' && closing[13] == '>');
        }
    }
    if n.before is Some {
        assert(is_opener(n.before->0) == opening.contains(n.before->0));
    }
    assert(is_opener(text[0]) == opening.contains(text[0]));
    if n.after is Some {
        assert(is_closer(n.after->0) == closing.contains(n.after->0));
    }
}

/// `text` with a space on either side where it would otherwise touch a word or
/// closing punctuation. Openers on the left ("(", a quote, a dash) and closers
/// on the right (".", ",", ")") are left snug.
pub fn pad(text: &str, n: &Neighbours) -> (r: String)
    ensures
        r@ == padded(text@, *n),
{
    let chars: Vec<char> = chars_of(text);
    if chars.len() == 0 {
        return string_of(chars.as_slice());
    }
    let first: char = chars[0];
    let last: char = chars[chars.len() - 1];
    let space_before: bool = match n.before {
        Some(c) => !c.is_whitespace() && !opener(c) && (first.is_alphanumeric() || opener(first)),
        None => false,
    };
    let space_after: bool = match n.after {
        Some(c) => !c.is_whitespace() && !closer(c) && !last.is_whitespace(),
        None => false,
    };
    let mut out: Vec<char> = Vec::new();
    if space_before {
        out.push(' ');
    }
    append(&mut out, chars.as_slice());
    if space_after {
        out.push(' ');
    }
    assert(out@ == padded(text@, *n));
    string_of(out.as_slice())
}

} // verus!
