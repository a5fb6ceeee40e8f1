//! Raw transcript -> text a person would have typed.
//!
//! Deliberately rule-based: fillers out, spoken punctuation in, dictionary
//! corrections, capitals at sentence starts, tidy whitespace.

use crate::dictionary::{corrected, Dictionary};
use crate::text::{
    append, append_str, ascii_capital, ascii_lower, char_to_lowercase, char_to_uppercase, chars_of,
    find, first_at, is_ascii_char, is_ascii_text, is_letter, is_white, is_word_char, join, joined,
    lemma_words_push, lemma_words_trimmed, lower_char, lower_text, occurs_at, same, small, split_words, string_of, trim, trimmed, upper_char, views, words,
};
use vstd::prelude::*;

verus! {

// ---------------------------------------------------------------------------
// Fillers
// ---------------------------------------------------------------------------

/// Disfluencies, removed when they stand alone as whole words.
pub open spec fn is_filler(word: Seq<char>) -> bool {
    ||| word == "um"@
    ||| word == "uh"@
    ||| word == "erm"@
    ||| word == "uhh"@
    ||| word == "umm"@
    ||| word == "er"@
    ||| word == "ah"@
}

/// A word's letters and digits, lowercased.
pub open spec fn bare(word: Seq<char>) -> Seq<char>
    decreases word.len(),
{
    if word.len() == 0 {
        Seq::empty()
    } else if is_word_char(word.last()) {
        bare(word.drop_last()) + lower_char(word.last())
    } else {
        bare(word.drop_last())
    }
}

/// Whether a word ends in a comma.
pub open spec fn has_comma(word: Seq<char>) -> bool {
    word.len() > 0 && word.last() == ','
}

/// The words without the fillers. Speech puts fillers between commas
/// ("probably, uh, move"): when a removed filler was comma-delimited on both
/// sides, one of the two commas goes with it.
pub open spec fn without_fillers(ws: Seq<Seq<char>>) -> Seq<Seq<char>>
    decreases ws.len(),
{
    if ws.len() == 0 {
        Seq::empty()
    } else {
        let before = without_fillers(ws.drop_last());
        let word = ws.last();
        if !is_filler(bare(word)) {
            before.push(word)
        } else if has_comma(word) && before.len() > 0 && has_comma(before.last()) {
            before.drop_last().push(before.last().drop_last())
        } else {
            before
        }
    }
}

/// The text without its fillers.
pub open spec fn stripped(text: Seq<char>) -> Seq<char> {
    joined(without_fillers(words(text)), seq![' '])
}

/// The words that are no fillers.
pub open spec fn spoken_words(ws: Seq<Seq<char>>) -> Seq<Seq<char>>
    decreases ws.len(),
{
    if ws.len() == 0 {
        Seq::empty()
    } else if is_filler(bare(ws.last())) {
        spoken_words(ws.drop_last())
    } else {
        spoken_words(ws.drop_last()).push(ws.last())
    }
}

/// Whether one word is another, or that without commas at its end.
pub open spec fn same_but_for_commas(word: Seq<char>, whole: Seq<char>) -> bool {
    &&& word.len() <= whole.len()
    &&& word == whole.take(word.len() as int)
    &&& forall|i: int| word.len() <= i < whole.len() ==> whole[i] == ','
}

/// A comma at the end of a word is no part of its letters.
proof fn lemma_bare_comma(word: Seq<char>)
    requires
        has_comma(word),
    ensures
        bare(word.drop_last()) == bare(word),
{
}

/// Only whole-word fillers go, and all of them: every other word stays, in its
/// place, and loses no more than commas at its end.
pub proof fn law_only_fillers_go(ws: Seq<Seq<char>>)
    ensures
        without_fillers(ws).len() == spoken_words(ws).len(),
        forall|i: int|
            0 <= i < without_fillers(ws).len() ==> same_but_for_commas(
                #[trigger] without_fillers(ws)[i],
                spoken_words(ws)[i],
            ) && !is_filler(bare(without_fillers(ws)[i])),
    decreases ws.len(),
{
    if ws.len() > 0 {
        law_only_fillers_go(ws.drop_last());
        let before = without_fillers(ws.drop_last());
        let now = without_fillers(ws);
        assert forall|i: int| 0 <= i < now.len() implies same_but_for_commas(
            #[trigger] now[i],
            spoken_words(ws)[i],
        ) && !is_filler(bare(now[i])) by {
            let whole = spoken_words(ws)[i];
            if i < before.len() {
                let was = before[i];
                assert(same_but_for_commas(was, spoken_words(ws.drop_last())[i]));
                assert(whole == spoken_words(ws.drop_last())[i]);
                if now[i] != was {
                    assert(now[i] == was.drop_last());
                    lemma_bare_comma(was);
                    assert(now[i] == whole.take(now[i].len() as int));
                    assert(whole[was.len() - 1] == was.last());
                }
            } else {
                assert(whole.take(whole.len() as int) == whole);
            }
        }
    }
}

/// Text without fillers keeps all of its words.
pub proof fn law_no_fillers_no_change(ws: Seq<Seq<char>>)
    requires
        forall|i: int| 0 <= i < ws.len() ==> !is_filler(bare(#[trigger] ws[i])),
    ensures
        without_fillers(ws) == ws,
    decreases ws.len(),
{
    if ws.len() > 0 {
        assert forall|i: int| 0 <= i < ws.len() - 1 implies !is_filler(
            bare(#[trigger] ws.drop_last()[i]),
        ) by {
            assert(ws.drop_last()[i] == ws[i]);
        }
        assert(ws[ws.len() - 1] == ws.last());
        law_no_fillers_no_change(ws.drop_last());
        assert(ws.drop_last().push(ws.last()) == ws);
    }
}

/// The letters and digits of an ASCII word are kept in their order, small.
pub proof fn law_bare_words_are_small_letters(word: Seq<char>)
    requires
        is_ascii_text(word),
    ensures
        bare(word) == small(word.filter(|c: char| is_word_char(c))),
    decreases word.len(),
{
    reveal(Seq::filter);
    let kept = word.filter(|c: char| is_word_char(c));
    if word.len() > 0 {
        let front = word.drop_last();
        let c = word[word.len() - 1];
        assert forall|i: int| 0 <= i < front.len() implies is_ascii_char(#[trigger] front[i]) by {
            assert(front[i] == word[i]);
        }
        law_bare_words_are_small_letters(front);
        assert(is_ascii_char(c));
        let before = front.filter(|c: char| is_word_char(c));
        if is_word_char(c) {
            assert(kept == before.push(c));
            assert(small(kept) == small(before) + lower_char(c));
        }
    } else {
        assert(small(kept) == bare(word));
    }
}

/// The fillers are these words, in whatever case and with whatever punctuation. A
/// filler goes, and with it the comma in front of it where it has one behind it
/// too; every other word stays.
pub proof fn law_fillers_are_these(ws: Seq<Seq<char>>, word: Seq<char>)
    ensures
        ({
            let said = bare(word);
            let filler = said == "um"@ || said == "uh"@ || said == "erm"@ || said == "uhh"@ || said
                == "umm"@ || said == "er"@ || said == "ah"@;
            let before = without_fillers(ws);
            let n = before.len() as int;
            let commas = word.len() > 0 && word[word.len() - 1] == ',' && n > 0 && before[n - 1].len()
                > 0 && before[n - 1][before[n - 1].len() - 1] == ',';
            without_fillers(ws.push(word)) == (if !filler {
                before + seq![word]
            } else if commas {
                before.update(n - 1, before[n - 1].take(before[n - 1].len() - 1))
            } else {
                before
            })
        }),
        without_fillers(Seq::empty()) == Seq::<Seq<char>>::empty(),
{
    assert(ws.push(word).drop_last() == ws);
    let before = without_fillers(ws);
    let n = before.len() as int;
    if n > 0 && before[n - 1].len() > 0 {
        let less = before[n - 1].take(before[n - 1].len() - 1);
        assert(less == before.last().drop_last());
        assert(before.update(n - 1, less) == before.drop_last().push(less));
    }
}

fn is_filler_word(word: &[char]) -> (r: bool)
    ensures
        r == is_filler(word@),
{
    same(word, chars_of("um").as_slice()) || same(word, chars_of("uh").as_slice()) || same(
        word,
        chars_of("erm").as_slice(),
    ) || same(word, chars_of("uhh").as_slice()) || same(word, chars_of("umm").as_slice()) || same(
        word,
        chars_of("er").as_slice(),
    ) || same(word, chars_of("ah").as_slice())
}

fn bare_word(word: &[char]) -> (r: Vec<char>)
    ensures
        r@ == bare(word@),
{
    let mut out: Vec<char> = Vec::new();
    let mut i: usize = 0;
    while i < word.len()
        invariant
            i <= word.len(),
            out@ == bare(word@.take(i as int)),
        decreases word.len() - i,
    {
        proof {
            assert(word@.take(i as int + 1).drop_last() == word@.take(i as int));
            assert(word@.take(i as int + 1).last() == word@[i as int]);
        }
        if word[i].is_alphanumeric() {
            append(&mut out, char_to_lowercase(word[i]).as_slice());
        }
        i += 1;
    }
    assert(word@.take(i as int) == word@);
    out
}

/// Removes fillers, only as standalone words: "umbrella" and "another" survive.
pub fn strip_fillers(text: &[char]) -> (r: Vec<char>)
    ensures
        r@ == stripped(text@),
{
    let split: Vec<Vec<char>> = split_words(text);
    let ghost all = views(split@);
    let mut out: Vec<Vec<char>> = Vec::new();
    let mut i: usize = 0;
    while i < split.len()
        invariant
            i <= split.len(),
            all == views(split@),
            views(out@) == without_fillers(all.take(i as int)),
        decreases split.len() - i,
    {
        let word: &Vec<char> = &split[i];
        let ghost before = views(out@);
        proof {
            assert(all.take(i as int + 1).drop_last() == all.take(i as int));
            assert(all.take(i as int + 1).last() == word@);
        }
        if !is_filler_word(bare_word(word.as_slice()).as_slice()) {
            let copy: Vec<char> = crate::text::part(word.as_slice(), 0, word.len());
            assert(copy@ == word@);
            out.push(copy);
            assert(views(out@) == before.push(word@));
        } else if word.len() > 0 && word[word.len() - 1] == ',' {
            match out.pop() {
                Some(prev) => {
                    let mut prev = prev;
                    let ghost last = prev@;
                    assert(views(out@) == before.drop_last());
                    assert(last == before.last());
                    if prev.len() > 0 && prev[prev.len() - 1] == ',' {
                        let _ = prev.pop();
                        assert(prev@ == last.drop_last());
                    }
                    let ghost shorter = prev@;
                    let ghost front = views(out@);
                    out.push(prev);
                    assert(views(out@) == front.push(shorter));
                    assert(before.drop_last().push(last) == before);
                },
                None => {},
            }
        }
        i += 1;
    }
    assert(all.take(i as int) == all);
    let mut sep: Vec<char> = Vec::new();
    sep.push(' ');
    assert(sep@ == seq![' ']);
    join(&out, sep.as_slice())
}

// ---------------------------------------------------------------------------
// Spoken punctuation
// ---------------------------------------------------------------------------

/// The text with `literal` for the `spoken` that stands at `i`.
pub open spec fn replaced_at(s: Seq<char>, i: int, spoken: Seq<char>, literal: Seq<char>) -> Seq<
    char,
> {
    s.take(i) + literal + s.skip(i + spoken.len())
}

/// The text with `literal` for the first `spoken`, in whatever ASCII case,
/// again and again until there is none left.
pub open spec fn replaced(s: Seq<char>, spoken: Seq<char>, literal: Seq<char>) -> Seq<char>
    decreases s.len(),
{
    if literal.len() < spoken.len() && exists|i: int| first_at(small(s), spoken, i) {
        let i = choose|i: int| first_at(small(s), spoken, i);
        replaced(replaced_at(s, i, spoken, literal), spoken, literal)
    } else {
        s
    }
}

/// Spoken punctuation and what it stands for, in the order of replacement.
pub open spec fn spoken_rules() -> Seq<(Seq<char>, Seq<char>)> {
    seq![
        (" new line "@, "\n"@),
        (" new paragraph "@, "\n\n"@),
        (" comma "@, ", "@),
        (" full stop "@, ". "@),
        (" period "@, ". "@),
        (" question mark "@, "? "@),
        (" exclamation mark "@, "! "@),
    ]
}

/// The text after the first `n` rules.
pub open spec fn after_rules(s: Seq<char>, n: int) -> Seq<char>
    decreases n,
{
    if n <= 0 {
        s
    } else {
        replaced(after_rules(s, n - 1), spoken_rules()[n - 1].0, spoken_rules()[n - 1].1)
    }
}

/// The text with its spoken punctuation applied. It is padded first, so that
/// what is spoken first or last has a space on either side too.
pub open spec fn punctuated(text: Seq<char>) -> Seq<char> {
    trimmed(after_rules(seq![' '] + text + seq![' '], 7))
}

/// Nothing that a rule replaces is left once it has been applied.
pub proof fn law_nothing_spoken_is_left(s: Seq<char>, spoken: Seq<char>, literal: Seq<char>)
    requires
        literal.len() < spoken.len(),
    ensures
        forall|i: int| !occurs_at(small(replaced(s, spoken, literal)), spoken, i),
    decreases s.len(),
{
    if exists|i: int| first_at(small(s), spoken, i) {
        let i = choose|i: int| first_at(small(s), spoken, i);
        let next = replaced_at(s, i, spoken, literal);
        law_nothing_spoken_is_left(next, spoken, literal);
        assert(replaced(s, spoken, literal) == replaced(next, spoken, literal));
    } else {
        assert(replaced(s, spoken, literal) == s);
        assert forall|i: int| !occurs_at(small(s), spoken, i) by {
            if occurs_at(small(s), spoken, i) {
                lemma_first_occurrence(small(s), spoken, i);
            }
        }
    }
}

/// Where there is an occurrence, there is a first one.
proof fn lemma_first_occurrence(s: Seq<char>, pat: Seq<char>, i: int)
    requires
        occurs_at(s, pat, i),
    ensures
        exists|j: int| first_at(s, pat, j),
    decreases i,
{
    if exists|j: int| 0 <= j < i && occurs_at(s, pat, j) {
        let j = choose|j: int| 0 <= j < i && occurs_at(s, pat, j);
        lemma_first_occurrence(s, pat, j);
    } else {
        assert(first_at(s, pat, i));
    }
}

/// Whether a text is all small letters and spaces.
pub open spec fn is_phrase(pat: Seq<char>) -> bool {
    forall|k: int| 0 <= k < pat.len() ==> 'a' <= #[trigger] pat[k] <= 'z' || pat[k] == ' '
}

/// Whether a rule puts marks, none of them a letter or a space, in the place of a
/// phrase, and behind them as much as it keeps of the phrase's end.
pub open spec fn puts_marks(spoken: Seq<char>, literal: Seq<char>, marks: int) -> bool {
    &&& 0 < marks <= literal.len() < spoken.len()
    &&& forall|k: int|
        0 <= k < marks ==> !('a' <= #[trigger] literal[k] <= 'z') && !('A' <= literal[k] <= 'Z')
            && literal[k] != ' '
    &&& literal.skip(marks) == spoken.skip(spoken.len() - (literal.len() - marks))
    &&& is_phrase(spoken)
}

/// Replacing a phrase by marks brings no other phrase about: one that starts
/// behind the marks stood there before, and none holds a mark.
proof fn lemma_replacing_adds_nothing(
    s: Seq<char>,
    idx: int,
    spoken: Seq<char>,
    literal: Seq<char>,
    marks: int,
    pat: Seq<char>,
)
    requires
        occurs_at(small(s), spoken, idx),
        puts_marks(spoken, literal, marks),
        is_phrase(pat),
        pat.len() > 0,
        forall|i: int| !occurs_at(small(s), pat, i),
    ensures
        forall|i: int| !occurs_at(small(replaced_at(s, idx, spoken, literal)), pat, i),
{
    let low = small(s);
    let next = replaced_at(s, idx, spoken, literal);
    let r = small(next);
    let shift = spoken.len() - literal.len();
    let keep = literal.len() - marks;
    assert forall|k: int| 0 <= k < idx implies #[trigger] r[k] == low[k] by {
        assert(next[k] == s[k]);
    }
    assert forall|k: int| idx <= k < idx + marks implies #[trigger] r[k] == literal[k - idx] by {
        assert(next[k] == literal[k - idx]);
    }
    assert forall|k: int| idx + marks <= k < r.len() implies #[trigger] r[k] == low[k + shift] by {
        if k < idx + literal.len() {
            let m = k - idx;
            assert(next[k] == literal[m]);
            assert(literal.skip(marks)[m - marks] == literal[m]);
            assert(spoken.skip(spoken.len() - keep)[m - marks] == spoken[m + shift]);
            assert(low.subrange(idx, idx + spoken.len())[m + shift] == low[k + shift]);
            assert('a' <= spoken[m + shift] <= 'z' || spoken[m + shift] == ' ');
        } else {
            assert(next[k] == s[k + shift]);
        }
    }
    assert forall|i: int| !occurs_at(r, pat, i) by {
        if occurs_at(r, pat, i) {
            assert forall|k: int| 0 <= k < pat.len() implies #[trigger] pat[k] == r[i + k] by {
                assert(r.subrange(i, i + pat.len())[k] == r[i + k]);
            }
            if i + pat.len() <= idx {
                assert(low.subrange(i, i + pat.len()) == pat);
                assert(occurs_at(low, pat, i));
            } else if i >= idx + marks {
                assert(low.subrange(i + shift, i + shift + pat.len()) == pat);
                assert(occurs_at(low, pat, i + shift));
            } else {
                let k = if i <= idx {
                    idx
                } else {
                    i
                };
                assert(pat[k - i] == r[k]);
                assert(r[k] == literal[k - idx]);
            }
        }
    }
}

/// Applying a rule to the end brings no other phrase about.
proof fn lemma_replaced_adds_nothing(
    s: Seq<char>,
    spoken: Seq<char>,
    literal: Seq<char>,
    marks: int,
    pat: Seq<char>,
)
    requires
        puts_marks(spoken, literal, marks),
        is_phrase(pat),
        pat.len() > 0,
        forall|i: int| !occurs_at(small(s), pat, i),
    ensures
        forall|i: int| !occurs_at(small(replaced(s, spoken, literal)), pat, i),
    decreases s.len(),
{
    if exists|i: int| first_at(small(s), spoken, i) {
        let i = choose|i: int| first_at(small(s), spoken, i);
        let next = replaced_at(s, i, spoken, literal);
        lemma_replacing_adds_nothing(s, i, spoken, literal, marks, pat);
        lemma_replaced_adds_nothing(next, spoken, literal, marks, pat);
        assert(replaced(s, spoken, literal) == replaced(next, spoken, literal));
    }
}

/// How many marks a rule puts.
spec fn marks_of(j: int) -> int {
    if j == 1 {
        2
    } else {
        1
    }
}

/// Every rule puts marks in the place of a phrase.
proof fn lemma_rules(j: int)
    requires
        0 <= j < 7,
    ensures
        puts_marks(spoken_rules()[j].0, spoken_rules()[j].1, marks_of(j)),
        spoken_rules()[j].0.len() > 0,
{
    reveal_strlit(" new line ");
    reveal_strlit("\n");
    reveal_strlit(" new paragraph ");
    reveal_strlit("\n\n");
    reveal_strlit(" comma ");
    reveal_strlit(", ");
    reveal_strlit(" full stop ");
    reveal_strlit(". ");
    reveal_strlit(" period ");
    reveal_strlit(" question mark ");
    reveal_strlit("? ");
    reveal_strlit(" exclamation mark ");
    reveal_strlit("! ");
    let (spoken, literal) = spoken_rules()[j];
    assert(is_phrase(spoken));
    assert(literal.skip(marks_of(j)) == spoken.skip(
        spoken.len() - (literal.len() - marks_of(j)),
    ));
}

/// Nothing that one of the first `n` rules replaces is left after them.
proof fn lemma_after_rules(s: Seq<char>, n: int, j: int)
    requires
        0 <= j < n <= 7,
    ensures
        forall|i: int| !occurs_at(small(after_rules(s, n)), spoken_rules()[j].0, i),
    decreases n,
{
    let before = after_rules(s, n - 1);
    let (spoken, literal) = spoken_rules()[n - 1];
    lemma_rules(n - 1);
    lemma_rules(j);
    if j == n - 1 {
        law_nothing_spoken_is_left(before, spoken, literal);
    } else {
        lemma_after_rules(s, n - 1, j);
        lemma_replaced_adds_nothing(before, spoken, literal, marks_of(n - 1), spoken_rules()[j].0);
    }
}

/// No spoken punctuation is left once all of it has been applied.
pub proof fn law_no_spoken_phrase_is_left(text: Seq<char>, j: int)
    requires
        0 <= j < 7,
    ensures
        forall|i: int| !occurs_at(small(punctuated(text)), spoken_rules()[j].0, i),
{
    let whole = after_rules(seq![' '] + text + seq![' '], 7);
    let pat = spoken_rules()[j].0;
    lemma_after_rules(seq![' '] + text + seq![' '], 7, j);
    let from = crate::text::lemma_trimmed(whole);
    let t = punctuated(text);
    assert forall|i: int| !occurs_at(small(t), pat, i) by {
        if occurs_at(small(t), pat, i) {
            assert forall|k: int| 0 <= k < pat.len() implies #[trigger] pat[k] == small(whole)[from
                + i + k] by {
                assert(small(t).subrange(i, i + pat.len())[k] == small(t)[i + k]);
                assert(t[i + k] == whole[from + i + k]);
            }
            assert(small(whole).subrange(from + i, from + i + pat.len()) == pat);
            assert(occurs_at(small(whole), pat, from + i));
        }
    }
}

/// Text in which nothing is spoken stays as it is.
pub proof fn law_nothing_spoken_no_change(s: Seq<char>, spoken: Seq<char>, literal: Seq<char>)
    requires
        forall|i: int| !occurs_at(small(s), spoken, i),
    ensures
        replaced(s, spoken, literal) == s,
{
}

/// Rules that have nothing to do leave the text as it is.
proof fn lemma_idle_rules(s: Seq<char>, from: int, to: int)
    requires
        0 <= from <= to <= 7,
        forall|j: int, i: int|
            from <= j < to ==> !#[trigger] occurs_at(small(after_rules(s, from)), spoken_rules()[j].0, i),
    ensures
        after_rules(s, to) == after_rules(s, from),
    decreases to - from,
{
    if from < to {
        lemma_idle_rules(s, from, to - 1);
        let now = after_rules(s, to - 1);
        let pat = spoken_rules()[to - 1].0;
        assert forall|i: int| !occurs_at(small(now), pat, i) by {
            assert(!occurs_at(small(after_rules(s, from)), spoken_rules()[to - 1].0, i));
        }
        law_nothing_spoken_no_change(now, pat, spoken_rules()[to - 1].1);
    }
}

/// A mark is spoken between spaces, in whatever case: where it is all that is
/// spoken, what stands on either side stays, and its sign stands between.
pub proof fn law_a_spoken_mark_is_written(
    before: Seq<char>,
    spoken: Seq<char>,
    after: Seq<char>,
    j: int,
)
    requires
        0 <= j < 7,
        small(spoken) == spoken_rules()[j].0,
        first_at(small(before + spoken + after), spoken_rules()[j].0, before.len() as int),
        forall|k: int, i: int|
            0 <= k < 7 && k != j ==> !#[trigger] occurs_at(
                small(before + spoken + after),
                spoken_rules()[k].0,
                i,
            ),
        forall|k: int, i: int|
            0 <= k < 7 ==> !#[trigger] occurs_at(
                small(before + spoken_rules()[j].1 + after),
                spoken_rules()[k].0,
                i,
            ),
    ensures
        after_rules(before + spoken + after, 7) == before + spoken_rules()[j].1 + after,
{
    let s = before + spoken + after;
    let (pat, literal) = spoken_rules()[j];
    let done = before + literal + after;
    lemma_rules(j);
    assert(after_rules(s, 0) == s);
    lemma_idle_rules(s, 0, j);
    let i = choose|i: int| first_at(small(s), pat, i);
    assert(i == before.len()) by {
        if i < before.len() {
            assert(occurs_at(small(s), pat, i));
        } else if i > before.len() {
            assert(occurs_at(small(s), pat, before.len() as int));
        }
    }
    assert(small(spoken).len() == spoken.len());
    assert(replaced_at(s, i, pat, literal) == done) by {
        assert(s.take(i) == before);
        assert(s.skip(i + pat.len()) == after);
    }
    assert forall|i: int| !occurs_at(small(done), pat, i) by {
        assert(!occurs_at(small(done), spoken_rules()[j].0, i));
    }
    law_nothing_spoken_no_change(done, pat, literal);
    assert(after_rules(s, j + 1) == done);
    lemma_idle_rules(s, j + 1, 7);
}

/// The same of a whole text, whose ends count as spaces: a mark may be spoken first
/// or last.
pub proof fn law_a_spoken_mark_is_applied(
    text: Seq<char>,
    before: Seq<char>,
    spoken: Seq<char>,
    after: Seq<char>,
    j: int,
)
    requires
        seq![' '] + text + seq![' '] == before + spoken + after,
        0 <= j < 7,
        small(spoken) == spoken_rules()[j].0,
        first_at(small(before + spoken + after), spoken_rules()[j].0, before.len() as int),
        forall|k: int, i: int|
            0 <= k < 7 && k != j ==> !#[trigger] occurs_at(
                small(before + spoken + after),
                spoken_rules()[k].0,
                i,
            ),
        forall|k: int, i: int|
            0 <= k < 7 ==> !#[trigger] occurs_at(
                small(before + spoken_rules()[j].1 + after),
                spoken_rules()[k].0,
                i,
            ),
    ensures
        punctuated(text) == trimmed(before + spoken_rules()[j].1 + after),
{
    law_a_spoken_mark_is_written(before, spoken, after, j);
}

/// The marks that can be spoken, and what is written for them.
pub proof fn law_these_marks_are_spoken()
    ensures
        spoken_rules() == seq![
            (" new line "@, seq!['\n']),
            (" new paragraph "@, seq!['\n', '\n']),
            (" comma "@, seq![',', ' ']),
            (" full stop "@, seq!['.', ' ']),
            (" period "@, seq!['.', ' ']),
            (" question mark "@, seq!['?', ' ']),
            (" exclamation mark "@, seq!['!', ' ']),
        ],
{
    reveal_strlit("\n");
    reveal_strlit("\n\n");
    reveal_strlit(", ");
    reveal_strlit(". ");
    reveal_strlit("? ");
    reveal_strlit("! ");
    assert("\n"@ == seq!['\n']);
    assert("\n\n"@ == seq!['\n', '\n']);
    assert(", "@ == seq![',', ' ']);
    assert(". "@ == seq!['.', ' ']);
    assert("? "@ == seq!['?', ' ']);
    assert("! "@ == seq!['!', ' ']);
}

/// Text in which no mark is spoken between spaces only loses the whitespace at its
/// ends.
pub proof fn law_no_marks_no_change(text: Seq<char>)
    requires
        forall|k: int, i: int|
            0 <= k < 7 ==> !#[trigger] occurs_at(
                small(seq![' '] + text + seq![' ']),
                spoken_rules()[k].0,
                i,
            ),
    ensures
        punctuated(text) == trimmed(seq![' '] + text + seq![' ']),
{
    let s = seq![' '] + text + seq![' '];
    assert(after_rules(s, 0) == s);
    lemma_idle_rules(s, 0, 7);
}

fn small_of(v: &[char]) -> (r: Vec<char>)
    ensures
        r@ == small(v@),
{
    let mut r: Vec<char> = Vec::new();
    let mut i: usize = 0;
    while i < v.len()
        invariant
            i <= v.len(),
            r@ == small(v@).take(i as int),
        decreases v.len() - i,
    {
        r.push(ascii_lower(v[i]));
        i += 1;
    }
    assert(small(v@).take(i as int) == small(v@));
    r
}

/// Applies one rule.
fn apply_rule(text: Vec<char>, spoken: &str, literal: &str) -> (r: Vec<char>)
    requires
        literal@.len() < spoken@.len(),
    ensures
        r@ == replaced(text@, spoken@, literal@),
{
    let pat: Vec<char> = chars_of(spoken);
    let mut out = text;
    let ghost end = replaced(text@, spoken@, literal@);
    loop
        invariant
            pat@ == spoken@,
            literal@.len() < spoken@.len(),
            replaced(out@, spoken@, literal@) == end,
        ensures
            out@ == end,
        decreases out.len(),
    {
        match find(small_of(out.as_slice()).as_slice(), pat.as_slice()) {
            Some(idx) => {
                proof {
                    let i = choose|i: int| first_at(small(out@), spoken@, i);
                    assert(i == idx) by {
                        if i < idx {
                            assert(occurs_at(small(out@), spoken@, i));
                        } else if idx < i {
                            assert(occurs_at(small(out@), spoken@, idx as int));
                        }
                    }
                }
                let ghost before = out@;
                let mut next: Vec<char> = crate::text::part(out.as_slice(), 0, idx);
                append_str(&mut next, literal);
                let rest: Vec<char> = crate::text::part(
                    out.as_slice(),
                    idx + pat.len(),
                    out.len(),
                );
                append(&mut next, rest.as_slice());
                assert(next@ == replaced_at(before, idx as int, spoken@, literal@));
                out = next;
            },
            None => {
                break;
            },
        }
    }
    out
}

/// Applies spoken punctuation. Whisper already emits most punctuation, but
/// people who come from other dictation tools reach for these out of habit.
pub fn apply_spoken_commands(text: &[char]) -> (r: Vec<char>)
    ensures
        r@ == punctuated(text@),
{
    proof {
        reveal_strlit(" new line ");
        reveal_strlit("\n");
        reveal_strlit(" new paragraph ");
        reveal_strlit("\n\n");
        reveal_strlit(" comma ");
        reveal_strlit(", ");
        reveal_strlit(" full stop ");
        reveal_strlit(". ");
        reveal_strlit(" period ");
        reveal_strlit(" question mark ");
        reveal_strlit("? ");
        reveal_strlit(" exclamation mark ");
        reveal_strlit("! ");
        reveal_with_fuel(after_rules, 8);
    }
    let mut padded: Vec<char> = Vec::new();
    padded.push(' ');
    append(&mut padded, text);
    padded.push(' ');
    let ghost start = padded@;
    assert(start == seq![' '] + text@ + seq![' ']);
    let out: Vec<char> = apply_rule(padded, " new line ", "\n");
    let out: Vec<char> = apply_rule(out, " new paragraph ", "\n\n");
    let out: Vec<char> = apply_rule(out, " comma ", ", ");
    let out: Vec<char> = apply_rule(out, " full stop ", ". ");
    let out: Vec<char> = apply_rule(out, " period ", ". ");
    let out: Vec<char> = apply_rule(out, " question mark ", "? ");
    let out: Vec<char> = apply_rule(out, " exclamation mark ", "! ");
    assert(out@ == after_rules(start, 7));
    trim(out.as_slice())
}

// ---------------------------------------------------------------------------
// Capitals
// ---------------------------------------------------------------------------

/// Where capitalising has got to.
#[verifier::ext_equal]
pub ghost struct Sentences {
    pub out: Seq<char>,
    /// A sentence is about to begin.
    pub start: bool,
    /// A full stop, question mark or exclamation mark was just seen; only a
    /// following space confirms that it ended a sentence.
    pub pending: bool,
}

/// Whether a character can end a sentence.
pub open spec fn is_terminal(c: char) -> bool {
    c == '.' || c == '?' || c == '!'
}

/// One more character. The first letter of a sentence is capitalised. A line
/// break, or whitespace right after terminal punctuation, begins a sentence; a
/// letter or digit is sentence content, so that a later letter is left alone
/// ("3.0s", not "3.0S"). Opening brackets and quotes begin nothing and end
/// nothing.
pub open spec fn capitalise_next(st: Sentences, c: char) -> Sentences {
    if st.start && is_letter(c) {
        Sentences { out: st.out + upper_char(c), start: false, pending: false }
    } else if c == '\n' {
        Sentences { out: st.out.push(c), start: true, pending: false }
    } else if is_terminal(c) {
        Sentences { out: st.out.push(c), start: st.start, pending: true }
    } else if is_white(c) {
        Sentences { out: st.out.push(c), start: st.start || st.pending, pending: false }
    } else {
        Sentences { out: st.out.push(c), start: st.start && !is_word_char(c), pending: false }
    }
}

/// Where capitalising has got to after `s`.
pub open spec fn sentences(s: Seq<char>) -> Sentences
    decreases s.len(),
{
    if s.len() == 0 {
        Sentences { out: Seq::empty(), start: true, pending: false }
    } else {
        capitalise_next(sentences(s.drop_last()), s.last())
    }
}

/// The text with a capital at the start of each sentence.
pub open spec fn capitalised(s: Seq<char>) -> Seq<char> {
    sentences(s).out
}

/// A sentence break takes terminal punctuation followed by whitespace, or a line
/// break: after any other character, a letter that follows sentence content is
/// left as it is.
pub proof fn law_only_breaks_begin_a_sentence(s: Seq<char>, c: char)
    requires
        !sentences(s).start,
        c != '\n',
        !(is_white(c) && s.len() > 0 && is_terminal(s.last())),
    ensures
        !sentences(s.push(c)).start,
        sentences(s.push(c)).out == sentences(s).out.push(c),
{
    assert(s.push(c).drop_last() == s);
    if s.len() > 0 {
        let before = sentences(s.drop_last());
        assert(sentences(s) == capitalise_next(before, s.last()));
    }
}

/// More text never changes what has been written.
proof fn lemma_written_stays(s: Seq<char>, n: int)
    requires
        0 <= n <= s.len(),
    ensures
        capitalised(s.take(n)).len() <= capitalised(s).len(),
        capitalised(s.take(n)) == capitalised(s).take(capitalised(s.take(n)).len() as int),
    decreases s.len(),
{
    if n == s.len() {
        assert(s.take(n) == s);
        assert(capitalised(s).take(capitalised(s).len() as int) == capitalised(s));
    } else {
        let front = s.drop_last();
        lemma_written_stays(front, n);
        assert(front.take(n) == s.take(n));
        let (a, b, c) = (capitalised(s.take(n)), capitalised(front), capitalised(s));
        assert(b.len() <= c.len() && c.take(b.len() as int) == b);
        assert(a == b.take(a.len() as int));
        assert(a == c.take(a.len() as int));
    }
}

/// A text that starts with a letter comes out with a capital.
pub proof fn law_the_first_letter_is_capitalised(s: Seq<char>)
    requires
        s.len() > 0,
        is_letter(s[0]),
    ensures
        upper_char(s[0]).len() <= capitalised(s).len(),
        capitalised(s).take(upper_char(s[0]).len() as int) == upper_char(s[0]),
{
    reveal_with_fuel(sentences, 2);
    let one = s.take(1);
    assert(one.drop_last() == Seq::<char>::empty());
    assert(one.last() == s[0]);
    assert(capitalised(one) == upper_char(s[0]));
    lemma_written_stays(s, 1);
}

/// A letter after a sentence break is capitalised: behind a line break, or behind
/// whitespace that follows terminal punctuation.
pub proof fn law_a_sentence_begins_with_a_capital(s: Seq<char>, gap: char, c: char)
    requires
        gap == '\n' || (is_white(gap) && !is_letter(gap) && s.len() > 0 && is_terminal(s.last())),
        is_letter(c),
    ensures
        capitalised(s.push(gap).push(c)) == capitalised(s.push(gap)) + upper_char(c),
{
    assert(s.push(gap).drop_last() == s);
    assert(s.push(gap).push(c).drop_last() == s.push(gap));
    if s.len() > 0 {
        assert(sentences(s) == capitalise_next(sentences(s.drop_last()), s.last()));
    }
}

/// Whether a sentence break ends at `i`: a line break, or whitespace right after
/// terminal punctuation.
pub open spec fn is_break(s: Seq<char>, i: int) -> bool {
    s[i] == '\n' || (i > 0 && is_white(s[i]) && (s[i - 1] == '.' || s[i - 1] == '?' || s[i - 1]
        == '!'))
}

/// Whether a sentence is about to begin behind `s`: no letter or digit stands
/// since the last break, or since the start.
pub open spec fn is_open(s: Seq<char>) -> bool {
    exists|b: int| #[trigger]
        opens_at(s, b)
}

/// Whether a break ends at `b`, or the text starts there, with no letter or digit
/// from there on.
pub open spec fn opens_at(s: Seq<char>, b: int) -> bool {
    &&& 0 <= b <= s.len()
    &&& b > 0 ==> is_break(s, b - 1)
    &&& forall|k: int| b <= k < s.len() ==> !is_word_char(#[trigger] s[k])
}

/// What capitalising remembers of ASCII text is what the text says.
proof fn lemma_sentences(s: Seq<char>)
    requires
        is_ascii_text(s),
    ensures
        sentences(s).start == is_open(s),
        sentences(s).pending == (s.len() > 0 && is_terminal(s.last())),
        sentences(s).out.len() == s.len(),
    decreases s.len(),
{
    if s.len() == 0 {
        assert(opens_at(s, 0));
    } else {
        let front = s.drop_last();
        let c = s.last();
        assert forall|i: int| 0 <= i < front.len() implies is_ascii_char(#[trigger] front[i]) by {
            assert(front[i] == s[i]);
        }
        lemma_sentences(front);
        assert(is_ascii_char(s[s.len() - 1]));
        let before = sentences(front);
        let now = sentences(s);
        if is_break(s, s.len() - 1) {
            assert(opens_at(s, s.len() as int));
            if s.len() > 1 {
                assert(front.last() == s[s.len() - 2]);
            }
        } else if is_word_char(c) {
            assert forall|b: int| !#[trigger] opens_at(s, b) by {
                if opens_at(s, b) {
                    if b < s.len() {
                        assert(!is_word_char(s[s.len() - 1]));
                    }
                }
            }
        } else {
            assert forall|b: int| #[trigger] opens_at(s, b) implies opens_at(front, b) by {
                assert(b < s.len());
                assert forall|k: int| b <= k < front.len() implies !is_word_char(
                    #[trigger] front[k],
                ) by {
                    assert(front[k] == s[k]);
                }
            }
            assert forall|b: int| #[trigger] opens_at(front, b) implies opens_at(s, b) by {
                assert forall|k: int| b <= k < s.len() implies !is_word_char(#[trigger] s[k]) by {
                    if k < front.len() {
                        assert(front[k] == s[k]);
                    }
                }
            }
            if before.start {
                let b = choose|b: int| opens_at(front, b);
                assert(opens_at(s, b));
            }
            if is_open(s) {
                let b = choose|b: int| opens_at(s, b);
                assert(opens_at(front, b));
            }
            if s.len() > 1 {
                assert(front.last() == s[s.len() - 2]);
            }
        }
    }
}

/// A letter is capitalised exactly where no letter or digit stands since the last
/// break, and nothing else changes.
pub proof fn law_capitals_stand_behind_breaks(s: Seq<char>, i: int)
    requires
        is_ascii_text(s),
        0 <= i < s.len(),
    ensures
        capitalised(s).len() == s.len(),
        capitalised(s)[i] == (if is_letter(s[i]) && is_open(s.take(i)) {
            ascii_capital(s[i])
        } else {
            s[i]
        }),
    decreases s.len(),
{
    lemma_sentences(s);
    let front = s.drop_last();
    assert forall|k: int| 0 <= k < front.len() implies is_ascii_char(#[trigger] front[k]) by {
        assert(front[k] == s[k]);
    }
    lemma_sentences(front);
    if i < front.len() {
        law_capitals_stand_behind_breaks(front, i);
        assert(front.take(i) == s.take(i));
        assert(front[i] == s[i]);
    } else {
        assert(s.take(i) == front);
        assert(is_ascii_char(s[i]));
    }
}

/// Capitals at the start of each sentence and of the text.
pub fn capitalise_sentences(text: &[char]) -> (r: Vec<char>)
    ensures
        r@ == capitalised(text@),
{
    let mut out: Vec<char> = Vec::new();
    let mut start_of_sentence: bool = true;
    let mut pending_break: bool = false;
    let mut i: usize = 0;
    while i < text.len()
        invariant
            i <= text.len(),
            sentences(text@.take(i as int)) == (Sentences {
                out: out@,
                start: start_of_sentence,
                pending: pending_break,
            }),
        decreases text.len() - i,
    {
        let ch: char = text[i];
        proof {
            assert(text@.take(i as int + 1).drop_last() == text@.take(i as int));
            assert(text@.take(i as int + 1).last() == ch);
        }
        i += 1;
        if start_of_sentence && ch.is_alphabetic() {
            append(&mut out, char_to_uppercase(ch).as_slice());
            start_of_sentence = false;
            pending_break = false;
            continue;
        }
        out.push(ch);
        if ch == '\n' {
            start_of_sentence = true;
            pending_break = false;
        } else if ch == '.' || ch == '?' || ch == '!' {
            pending_break = true;
        } else if ch.is_whitespace() {
            if pending_break {
                start_of_sentence = true;
                pending_break = false;
            }
        } else {
            pending_break = false;
            if ch.is_alphanumeric() {
                start_of_sentence = false;
            }
        }
    }
    assert(text@.take(i as int) == text@);
    out
}

// ---------------------------------------------------------------------------
// Whitespace
// ---------------------------------------------------------------------------

/// The text with single spaces, up to its ends, and whether it ends in
/// whitespace. Newlines are meaningful and stay; other whitespace becomes one
/// space, or nothing behind a space or a newline.
pub open spec fn squeezed(s: Seq<char>) -> (Seq<char>, bool)
    decreases s.len(),
{
    if s.len() == 0 {
        (Seq::empty(), false)
    } else {
        let (out, spaced) = squeezed(s.drop_last());
        let c = s.last();
        if c == '\n' {
            (out.push(c), true)
        } else if is_white(c) {
            if spaced {
                (out, true)
            } else {
                (out.push(' '), true)
            }
        } else {
            (out.push(c), false)
        }
    }
}

/// The text with tidy whitespace.
pub open spec fn collapsed(s: Seq<char>) -> Seq<char> {
    trimmed(squeezed(s).0)
}

/// Tidy whitespace: no space or newline at either end, none but spaces and
/// newlines inside, and no space behind a space or a newline.
pub open spec fn is_tidy(s: Seq<char>) -> bool {
    &&& s.len() > 0 ==> !is_white(s[0]) && !is_white(s.last())
    &&& forall|i: int| 0 <= i < s.len() && is_white(#[trigger] s[i]) ==> s[i] == ' ' || s[i] == '\n'
    &&& forall|i: int| 0 < i < s.len() && #[trigger] s[i] == ' ' ==> !is_white(s[i - 1])
}

proof fn lemma_squeezed(s: Seq<char>)
    ensures
        ({
            let (out, spaced) = squeezed(s);
            &&& forall|i: int|
                0 <= i < out.len() && is_white(#[trigger] out[i]) ==> out[i] == ' ' || out[i] == '\n'
            &&& forall|i: int| 0 < i < out.len() && #[trigger] out[i] == ' ' ==> !is_white(out[i - 1])
            &&& !spaced && out.len() > 0 ==> !is_white(out.last())
        }),
    decreases s.len(),
{
    if s.len() > 0 {
        lemma_squeezed(s.drop_last());
        let before = squeezed(s.drop_last()).0;
        let out = squeezed(s).0;
        if out != before {
            assert(out.drop_last() == before);
            assert forall|i: int| 0 < i < out.len() && #[trigger] out[i] == ' ' implies !is_white(
                out[i - 1],
            ) by {
                if i < before.len() {
                    assert(before[i] == ' ');
                    assert(out[i - 1] == before[i - 1]);
                } else {
                    assert(out[i - 1] == before.last());
                }
            }
            assert forall|i: int| 0 <= i < out.len() && is_white(#[trigger] out[i]) implies out[i]
                == ' ' || out[i] == '\n' by {
                if i < before.len() {
                    assert(out[i] == before[i]);
                }
            }
        }
    }
}

/// The end of polishing always leaves tidy whitespace.
pub proof fn law_collapsed_is_tidy(s: Seq<char>)
    ensures
        is_tidy(collapsed(s)),
{
    let out = squeezed(s).0;
    lemma_squeezed(s);
    let from = crate::text::lemma_trimmed(out);
    let t = collapsed(s);
    assert forall|i: int| 0 <= i < t.len() && is_white(#[trigger] t[i]) implies t[i] == ' ' || t[i]
        == '\n' by {
        assert(t[i] == out[from + i]);
    }
    assert forall|i: int| 0 < i < t.len() && #[trigger] t[i] == ' ' implies !is_white(t[i - 1]) by {
        assert(t[i] == out[from + i]);
        assert(t[i - 1] == out[from + i - 1]);
    }
}

/// Squeezing keeps the words.
proof fn lemma_squeezed_words(s: Seq<char>)
    ensures
        words(squeezed(s).0) == words(s),
        squeezed(s).1 == (s.len() > 0 && is_white(s.last())),
        s.len() == 0 ==> squeezed(s).0.len() == 0,
        s.len() > 0 ==> squeezed(s).0.len() > 0 && is_white(squeezed(s).0.last()) == is_white(
            s.last(),
        ),
    decreases s.len(),
{
    if s.len() > 0 {
        let front = s.drop_last();
        let c = s.last();
        lemma_squeezed_words(front);
        let out = squeezed(front).0;
        assert(front.push(c) == s);
        lemma_words_push(front, c);
        lemma_words_push(out, c);
        lemma_words_push(out, ' ');
    }
}

/// Squeezing tidy text changes nothing.
proof fn lemma_squeezed_tidy(s: Seq<char>)
    requires
        forall|i: int| 0 <= i < s.len() && is_white(#[trigger] s[i]) ==> s[i] == ' ' || s[i] == '\n',
        forall|i: int| 0 < i < s.len() && #[trigger] s[i] == ' ' ==> !is_white(s[i - 1]),
    ensures
        squeezed(s).0 == s,
        squeezed(s).1 == (s.len() > 0 && is_white(s.last())),
    decreases s.len(),
{
    if s.len() > 0 {
        let front = s.drop_last();
        assert forall|i: int| 0 <= i < front.len() && is_white(#[trigger] front[i]) implies front[i]
            == ' ' || front[i] == '\n' by {
            assert(front[i] == s[i]);
        }
        assert forall|i: int| 0 < i < front.len() && #[trigger] front[i] == ' ' implies !is_white(
            front[i - 1],
        ) by {
            assert(s[i] == ' ');
        }
        lemma_squeezed_tidy(front);
        assert(front.push(s.last()) == s);
        assert(s[s.len() - 1] == s.last());
        if front.len() > 0 {
            assert(front.last() == s[s.len() - 2]);
        }
    }
}

/// Tidying whitespace keeps the words, and has nothing left to do the second
/// time.
pub proof fn law_collapsing_keeps_the_words(s: Seq<char>)
    ensures
        words(collapsed(s)) == words(s),
        collapsed(collapsed(s)) == collapsed(s),
{
    let out = squeezed(s).0;
    lemma_squeezed_words(s);
    lemma_words_trimmed(out);
    let t = collapsed(s);
    law_collapsed_is_tidy(s);
    lemma_squeezed_tidy(t);
    assert(trimmed(t) == t);
}

/// Squeezing keeps line breaks, and everything but whitespace, in their order.
proof fn lemma_squeezed_marks(s: Seq<char>)
    ensures
        squeezed(s).0.filter(|c: char| c == '\n' || !is_white(c)) == s.filter(
            |c: char| c == '\n' || !is_white(c),
        ),
        s.len() > 0 ==> squeezed(s).0.len() > 0 && (!is_white(s[0]) ==> squeezed(s).0[0] == s[0]),
    decreases s.len(),
{
    reveal(Seq::filter);
    if s.len() > 0 {
        let front = s.drop_last();
        lemma_squeezed_marks(front);
        let out = squeezed(front).0;
        let now = squeezed(s).0;
        if now != out {
            assert(now.drop_last() == out);
        }
        if front.len() > 0 {
            assert(front[0] == s[0]);
        } else {
            assert(out.len() == 0);
            assert(!squeezed(front).1);
        }
    }
}

/// Tidying whitespace keeps every line break inside the text, and every other
/// character but whitespace, in their order; and tidy text stays as it is.
pub proof fn law_tidying_keeps_line_breaks(s: Seq<char>)
    ensures
        s.len() > 0 && !is_white(s[0]) && !is_white(s.last()) ==> collapsed(s).filter(
            |c: char| c == '\n' || !is_white(c),
        ) == s.filter(|c: char| c == '\n' || !is_white(c)),
        s.len() > 0 && !is_white(s[0]) && !is_white(s.last()) && (forall|i: int|
            0 <= i < s.len() && is_white(#[trigger] s[i]) ==> s[i] == '\n' || (s[i] == ' '
                && !is_white(s[i - 1]))) ==> collapsed(s) == s,
{
    if s.len() > 0 && !is_white(s[0]) && !is_white(s.last()) {
        lemma_squeezed_marks(s);
        lemma_squeezed_words(s);
        let out = squeezed(s).0;
        assert(!is_white(out[0]) && !is_white(out.last()));
        assert(trimmed(out) == out);
        if forall|i: int|
            0 <= i < s.len() && is_white(#[trigger] s[i]) ==> s[i] == '\n' || (s[i] == ' '
                && !is_white(s[i - 1])) {
            assert forall|i: int| 0 < i < s.len() && #[trigger] s[i] == ' ' implies !is_white(
                s[i - 1],
            ) by {
                assert(is_white(s[i]));
            }
            lemma_squeezed_tidy(s);
        }
    }
}

/// Tidies whitespace.
pub fn collapse_whitespace(text: &[char]) -> (r: Vec<char>)
    ensures
        r@ == collapsed(text@),
{
    let mut out: Vec<char> = Vec::new();
    let mut last_was_space: bool = false;
    let mut i: usize = 0;
    while i < text.len()
        invariant
            i <= text.len(),
            squeezed(text@.take(i as int)) == (out@, last_was_space),
        decreases text.len() - i,
    {
        let ch: char = text[i];
        proof {
            assert(text@.take(i as int + 1).drop_last() == text@.take(i as int));
            assert(text@.take(i as int + 1).last() == ch);
        }
        if ch == '\n' {
            out.push(ch);
            last_was_space = true;
        } else if ch.is_whitespace() {
            if !last_was_space {
                out.push(' ');
            }
            last_was_space = true;
        } else {
            out.push(ch);
            last_was_space = false;
        }
        i += 1;
    }
    assert(text@.take(i as int) == text@);
    trim(out.as_slice())
}

// ---------------------------------------------------------------------------
// All of it
// ---------------------------------------------------------------------------

/// The text that is typed for a raw transcript.
pub open spec fn polished(raw: Seq<char>, dict: Map<Seq<char>, Seq<char>>) -> Seq<char> {
    let text = trimmed(raw);
    if text.len() == 0 {
        text
    } else {
        collapsed(capitalised(corrected(dict, punctuated(stripped(text)))))
    }
}

/// Whatever was said, the text has tidy whitespace; where nothing was said, it
/// is empty.
pub proof fn law_polished_is_tidy(raw: Seq<char>, dict: Map<Seq<char>, Seq<char>>)
    ensures
        is_tidy(polished(raw, dict)),
        (forall|i: int| 0 <= i < raw.len() ==> is_white(#[trigger] raw[i])) ==> polished(
            raw,
            dict,
        ).len() == 0,
{
    law_collapsed_is_tidy(capitalised(corrected(dict, punctuated(stripped(trimmed(raw))))));
    if forall|i: int| 0 <= i < raw.len() ==> is_white(#[trigger] raw[i]) {
        let from = crate::text::lemma_trimmed(raw);
        let t = trimmed(raw);
        if t.len() > 0 {
            assert(t[0] == raw[from]);
        }
    }
}

/// Whether a character's capital stays within its sentence: it begins with a
/// letter or digit that is no small letter, and holds no whitespace and no
/// terminal punctuation. In ASCII every letter's does.
pub open spec fn capital_stays(c: char) -> bool {
    let u = upper_char(c);
    &&& u.len() > 0
    &&& is_word_char(u[0]) && !('a' <= u[0] <= 'z')
    &&& forall|k: int|
        0 <= k < u.len() ==> !is_white(#[trigger] u[k]) && u[k] != '.' && u[k] != '?' && u[k] != '!'
}

/// Whether a character is written as sentences need it: whitespace is no letter
/// or digit, and a letter's capital stays within its sentence.
pub open spec fn is_regular(c: char) -> bool {
    &&& is_white(c) ==> !is_word_char(c)
    &&& is_letter(c) ==> capital_stays(c)
}

/// Whether no small letter stands where a sentence is about to begin.
pub open spec fn begins_well(s: Seq<char>) -> bool {
    forall|i: int| 0 <= i < s.len() && 'a' <= #[trigger] s[i] <= 'z' ==> !is_open(s.take(i))
}

/// Where a sentence is about to begin with one more character.
proof fn lemma_open_push(s: Seq<char>, c: char)
    ensures
        is_open(s.push(c)) <==> is_break(s.push(c), s.len() as int) || (is_open(s)
            && !is_word_char(c)),
{
    let t = s.push(c);
    let n = s.len() as int;
    if is_break(t, n) {
        assert(opens_at(t, n + 1));
    }
    if is_open(s) && !is_word_char(c) {
        let b = choose|b: int| opens_at(s, b);
        assert forall|k: int| b <= k < t.len() implies !is_word_char(#[trigger] t[k]) by {
            if k < n {
                assert(t[k] == s[k]);
            }
        }
        assert(opens_at(t, b));
    }
    if is_open(t) {
        let b = choose|b: int| opens_at(t, b);
        if b <= n {
            assert(!is_word_char(t[n]));
            assert forall|k: int| b <= k < n implies !is_word_char(#[trigger] s[k]) by {
                assert(t[k] == s[k]);
            }
            assert(opens_at(s, b));
        }
    }
}

/// One more character keeps sentences well begun, unless it is a small letter
/// where one is about to begin.
proof fn lemma_begins_push(s: Seq<char>, c: char)
    requires
        begins_well(s),
        'a' <= c <= 'z' ==> !is_open(s),
    ensures
        begins_well(s.push(c)),
{
    let t = s.push(c);
    assert forall|i: int| 0 <= i < t.len() && 'a' <= #[trigger] t[i] <= 'z' implies !is_open(
        t.take(i),
    ) by {
        if i < s.len() {
            assert(t[i] == s[i]);
            assert(t.take(i) == s.take(i));
        } else {
            assert(t.take(i) == s);
        }
    }
}

/// Well begun text is so from its start.
proof fn lemma_begins_front(s: Seq<char>)
    requires
        begins_well(s),
        s.len() > 0,
    ensures
        begins_well(s.drop_last()),
{
    let front = s.drop_last();
    assert forall|i: int| 0 <= i < front.len() && 'a' <= #[trigger] front[i] <= 'z' implies !is_open(
        front.take(i),
    ) by {
        assert(front[i] == s[i]);
        assert(front.take(i) == s.take(i));
    }
}

/// The capital of the letter that begins a sentence is part of it.
proof fn lemma_capital_begins(s: Seq<char>, u: Seq<char>, k: int)
    requires
        begins_well(s),
        0 < k <= u.len(),
        is_word_char(u[0]),
        !('a' <= u[0] <= 'z'),
        forall|j: int| 0 <= j < u.len() ==> !is_white(#[trigger] u[j]),
    ensures
        begins_well(s + u.take(k)),
        !is_open(s + u.take(k)),
    decreases k,
{
    let before = s + u.take(k - 1);
    if k == 1 {
        assert(before == s);
    } else {
        lemma_capital_begins(s, u, k - 1);
    }
    assert(s + u.take(k) == before.push(u[k - 1]));
    assert(!is_white(u[k - 1]));
    lemma_begins_push(before, u[k - 1]);
    lemma_open_push(before, u[k - 1]);
}

/// Capitalised text is well begun.
proof fn lemma_capitals_begin(s: Seq<char>)
    requires
        forall|i: int| 0 <= i < s.len() ==> is_regular(#[trigger] s[i]),
    ensures
        begins_well(sentences(s).out),
        is_open(sentences(s).out) ==> sentences(s).start,
        sentences(s).out.len() > 0 && is_terminal(sentences(s).out.last())
            ==> sentences(s).pending,
    decreases s.len(),
{
    if s.len() > 0 {
        let front = s.drop_last();
        let c = s.last();
        assert forall|i: int| 0 <= i < front.len() implies is_regular(#[trigger] front[i]) by {
            assert(front[i] == s[i]);
        }
        lemma_capitals_begin(front);
        assert(is_regular(s[s.len() - 1]));
        let before = sentences(front);
        if before.start && is_letter(c) {
            let u = upper_char(c);
            lemma_capital_begins(before.out, u, u.len() as int);
            assert(u.take(u.len() as int) == u);
            assert((before.out + u).last() == u[u.len() - 1]);
        } else {
            lemma_begins_push(before.out, c);
            lemma_open_push(before.out, c);
        }
    }
}

/// Tidying whitespace leaves sentences where they begin.
proof fn lemma_squeezed_begins(s: Seq<char>)
    requires
        begins_well(s),
        forall|i: int| 0 <= i < s.len() && is_white(#[trigger] s[i]) ==> !is_word_char(s[i]),
    ensures
        begins_well(squeezed(s).0),
        is_open(squeezed(s).0) ==> is_open(s),
        s.len() > 0 && !squeezed(s).1 ==> squeezed(s).0.len() > 0 && squeezed(s).0.last()
            == s.last(),
        s.len() == 0 ==> squeezed(s).0.len() == 0,
    decreases s.len(),
{
    if s.len() > 0 {
        let front = s.drop_last();
        let c = s.last();
        let out = squeezed(front).0;
        lemma_begins_front(s);
        assert forall|i: int| 0 <= i < front.len() && is_white(
            #[trigger] front[i],
        ) implies !is_word_char(front[i]) by {
            assert(front[i] == s[i]);
        }
        lemma_squeezed_begins(front);
        assert(s[s.len() - 1] == c);
        assert(s.take(s.len() - 1) == front);
        assert(front.push(c) == s);
        lemma_open_push(front, c);
        lemma_open_push(out, c);
        lemma_open_push(out, ' ');
        if c == '\n' || !is_white(c) {
            lemma_begins_push(out, c);
        } else {
            lemma_begins_push(out, ' ');
        }
        if front.len() > 0 {
            assert(s[s.len() - 2] == front.last());
            if out.len() > 0 {
                assert(out.push(' ')[out.len() - 1] == out.last());
                assert(out.push(c)[out.len() - 1] == out.last());
            }
        }
    } else {
        assert(squeezed(s).0 == s);
    }
}

/// Trimming leaves sentences where they begin.
proof fn lemma_trimmed_begins(s: Seq<char>)
    requires
        begins_well(s),
        forall|i: int| 0 <= i < s.len() && is_white(#[trigger] s[i]) ==> !is_word_char(s[i]),
    ensures
        begins_well(trimmed(s)),
{
    let from = crate::text::lemma_trimmed(s);
    let t = trimmed(s);
    assert forall|i: int| 0 <= i < t.len() && 'a' <= #[trigger] t[i] <= 'z' implies !is_open(
        t.take(i),
    ) by {
        let (x, y) = (t.take(i), s.take(from + i));
        assert(t[i] == s[from + i]);
        assert(!is_open(y));
        if is_open(x) {
            let b = choose|b: int| opens_at(x, b);
            let start = if b == 0 {
                0
            } else {
                from + b
            };
            assert forall|k: int| start <= k < y.len() implies !is_word_char(#[trigger] y[k]) by {
                if k < from {
                    assert(is_white(s[k]));
                } else {
                    assert(y[k] == x[k - from]);
                }
            }
            if b > 0 {
                assert(y[from + b - 1] == x[b - 1]);
                if b > 1 {
                    assert(y[from + b - 2] == x[b - 2]);
                }
            }
            assert(opens_at(y, start));
        }
    }
}

/// What is capitalised stays so to the end.
proof fn lemma_polished_begins(s: Seq<char>)
    requires
        forall|i: int| 0 <= i < s.len() ==> is_regular(#[trigger] s[i]),
        forall|c: char| #[trigger] is_white(c) ==> !is_word_char(c),
    ensures
        begins_well(collapsed(capitalised(s))),
{
    lemma_capitals_begin(s);
    lemma_squeezed_begins(capitalised(s));
    lemma_trimmed_begins(squeezed(capitalised(s)).0);
}

/// Whatever the dictionary, every sentence begins with a capital: no small letter
/// stands at the start of the text, behind a line break, or behind whitespace that
/// follows a full stop, question mark or exclamation mark, with no letter or digit
/// in between. Case beyond ASCII is taken to be regular.
pub proof fn law_sentences_begin_with_capitals(
    raw: Seq<char>,
    dict: Map<Seq<char>, Seq<char>>,
    b: int,
    i: int,
)
    requires
        forall|c: char| !is_ascii_char(c) ==> #[trigger] is_regular(c),
        0 <= b <= i < polished(raw, dict).len(),
        b == 0 || polished(raw, dict)[b - 1] == '\n' || (b > 1 && is_white(
            polished(raw, dict)[b - 1],
        ) && (polished(raw, dict)[b - 2] == '.' || polished(raw, dict)[b - 2] == '?' || polished(
            raw,
            dict,
        )[b - 2] == '!')),
        forall|k: int| b <= k < i ==> !is_word_char(#[trigger] polished(raw, dict)[k]),
    ensures
        !('a' <= polished(raw, dict)[i] <= 'z'),
{
    let t = polished(raw, dict);
    let s = corrected(dict, punctuated(stripped(trimmed(raw))));
    assert forall|k: int| 0 <= k < s.len() implies is_regular(#[trigger] s[k]) by {
        lemma_ascii_is_regular(s[k]);
    }
    assert forall|c: char| #[trigger] is_white(c) implies !is_word_char(c) by {
        if !is_ascii_char(c) {
            assert(is_regular(c));
        }
    }
    lemma_polished_begins(s);
    assert(opens_at(t.take(i), b)) by {
        assert forall|k: int| b <= k < i implies !is_word_char(#[trigger] t.take(i)[k]) by {
            assert(t.take(i)[k] == t[k]);
        }
    }
}

/// ASCII is regular.
proof fn lemma_ascii_is_regular(c: char)
    ensures
        is_ascii_char(c) ==> is_regular(c),
{
}

/// Whether a text is made of such characters alone.
pub open spec fn made_of(s: Seq<char>, ok: spec_fn(char) -> bool) -> bool {
    forall|i: int| 0 <= i < s.len() ==> ok(#[trigger] s[i])
}

proof fn lemma_words_made_of(s: Seq<char>, ok: spec_fn(char) -> bool)
    requires
        made_of(s, ok),
    ensures
        forall|j: int| 0 <= j < words(s).len() ==> made_of(#[trigger] words(s)[j], ok),
    decreases s.len(),
{
    if s.len() > 0 {
        if is_white(s[0]) {
            let rest = s.skip(1);
            assert forall|i: int| 0 <= i < rest.len() implies ok(#[trigger] rest[i]) by {
                assert(rest[i] == s[i + 1]);
            }
            lemma_words_made_of(rest, ok);
            assert(words(s) == words(rest));
        } else {
            let n = crate::text::word_len(s) as int;
            crate::text::lemma_word_len(s);
            let (word, rest) = (s.take(n), s.skip(n));
            assert forall|i: int| 0 <= i < rest.len() implies ok(#[trigger] rest[i]) by {
                assert(rest[i] == s[i + n]);
            }
            assert forall|i: int| 0 <= i < word.len() implies ok(#[trigger] word[i]) by {
                assert(word[i] == s[i]);
            }
            assert(n > 0);
            lemma_words_made_of(rest, ok);
            assert(words(s) == seq![word] + words(rest));
            assert forall|j: int| 0 <= j < words(s).len() implies made_of(
                #[trigger] words(s)[j],
                ok,
            ) by {
                if j == 0 {
                    assert(words(s)[0] == word);
                } else {
                    assert(words(s)[j] == words(rest)[j - 1]);
                }
            }
        }
    }
}

proof fn lemma_fillers_made_of(ws: Seq<Seq<char>>, ok: spec_fn(char) -> bool)
    requires
        forall|j: int| 0 <= j < ws.len() ==> made_of(#[trigger] ws[j], ok),
    ensures
        forall|j: int|
            0 <= j < without_fillers(ws).len() ==> made_of(#[trigger] without_fillers(ws)[j], ok),
    decreases ws.len(),
{
    if ws.len() > 0 {
        let front = ws.drop_last();
        assert forall|j: int| 0 <= j < front.len() implies made_of(#[trigger] front[j], ok) by {
            assert(front[j] == ws[j]);
        }
        lemma_fillers_made_of(front, ok);
        assert(made_of(ws[ws.len() - 1], ok));
        let before = without_fillers(front);
        if before.len() > 0 && has_comma(before.last()) {
            let last = before[before.len() - 1];
            assert(made_of(last, ok));
            assert forall|i: int| 0 <= i < last.drop_last().len() implies ok(
                #[trigger] last.drop_last()[i],
            ) by {
                assert(last.drop_last()[i] == last[i]);
            }
        }
        let now = without_fillers(ws);
        assert forall|j: int| 0 <= j < now.len() implies made_of(#[trigger] now[j], ok) by {
            if j < before.len() {
                assert(made_of(before[j], ok));
            }
        }
    }
}

proof fn lemma_joined_made_of(
    parts: Seq<Seq<char>>,
    sep: Seq<char>,
    ok: spec_fn(char) -> bool,
)
    requires
        forall|j: int| 0 <= j < parts.len() ==> made_of(#[trigger] parts[j], ok),
        made_of(sep, ok),
    ensures
        made_of(joined(parts, sep), ok),
    decreases parts.len(),
{
    if parts.len() > 0 {
        let front = parts.drop_last();
        let last = parts[parts.len() - 1];
        assert(made_of(last, ok));
        assert(made_of(parts[0], ok));
        assert forall|j: int| 0 <= j < front.len() implies made_of(#[trigger] front[j], ok) by {
            assert(front[j] == parts[j]);
        }
        lemma_joined_made_of(front, sep, ok);
    }
}

proof fn lemma_replaced_made_of(
    s: Seq<char>,
    spoken: Seq<char>,
    literal: Seq<char>,
    ok: spec_fn(char) -> bool,
)
    requires
        made_of(s, ok),
        made_of(literal, ok),
    ensures
        made_of(replaced(s, spoken, literal), ok),
    decreases s.len(),
{
    if literal.len() < spoken.len() && exists|i: int| first_at(small(s), spoken, i) {
        let i = choose|i: int| first_at(small(s), spoken, i);
        let next = replaced_at(s, i, spoken, literal);
        assert forall|k: int| 0 <= k < next.len() implies ok(#[trigger] next[k]) by {
            if k < i {
                assert(next[k] == s[k]);
            } else if k < i + literal.len() {
                assert(next[k] == literal[k - i]);
            } else {
                assert(next[k] == s[k - literal.len() + spoken.len()]);
            }
        }
        lemma_replaced_made_of(next, spoken, literal, ok);
    }
}

proof fn lemma_rules_made_of(s: Seq<char>, n: int, ok: spec_fn(char) -> bool)
    requires
        0 <= n <= 7,
        made_of(s, ok),
        ok(' '),
        ok('\n'),
        ok(','),
        ok('.'),
        ok('?'),
        ok('!'),
    ensures
        made_of(after_rules(s, n), ok),
    decreases n,
{
    if n > 0 {
        lemma_rules_made_of(s, n - 1, ok);
        reveal_strlit("\n");
        reveal_strlit("\n\n");
        reveal_strlit(", ");
        reveal_strlit(". ");
        reveal_strlit("? ");
        reveal_strlit("! ");
        let (spoken, literal) = spoken_rules()[n - 1];
        assert(made_of(literal, ok));
        lemma_replaced_made_of(after_rules(s, n - 1), spoken, literal, ok);
    }
}

proof fn lemma_trimmed_made_of(s: Seq<char>, ok: spec_fn(char) -> bool)
    requires
        made_of(s, ok),
    ensures
        made_of(trimmed(s), ok),
{
    let from = crate::text::lemma_trimmed(s);
    let t = trimmed(s);
    assert forall|i: int| 0 <= i < t.len() implies ok(#[trigger] t[i]) by {
        assert(t[i] == s[from + i]);
    }
}

proof fn lemma_corrected_made_of(
    dict: Map<Seq<char>, Seq<char>>,
    s: Seq<char>,
    ok: spec_fn(char) -> bool,
)
    requires
        made_of(s, ok),
        forall|key: Seq<char>| #[trigger] dict.contains_key(key) ==> made_of(dict[key], ok),
    ensures
        made_of(corrected(dict, s), ok),
    decreases s.len(),
{
    if s.len() > 0 {
        let n = crate::text::word_len(s) as int;
        crate::text::lemma_word_len(s);
        let word = s.take(n);
        assert forall|i: int| 0 <= i < word.len() implies ok(#[trigger] word[i]) by {
            assert(word[i] == s[i]);
        }
        let fixed = crate::dictionary::corrected_word(dict, word);
        crate::dictionary::lemma_core_bounds(word);
        let (a, b) = crate::dictionary::core_bounds(word);
        assert forall|i: int| 0 <= i < fixed.len() implies ok(#[trigger] fixed[i]) by {
            let key = crate::dictionary::core_key(word);
            if dict.contains_key(key) {
                let want = dict[key];
                if i < a {
                    assert(fixed[i] == word[i]);
                } else if i < a + want.len() {
                    assert(fixed[i] == want[i - a]);
                } else {
                    assert(fixed[i] == word[i - a - want.len() + b]);
                }
            }
        }
        if n < s.len() {
            let rest = s.skip(n + 1);
            assert forall|i: int| 0 <= i < rest.len() implies ok(#[trigger] rest[i]) by {
                assert(rest[i] == s[i + n + 1]);
            }
            lemma_corrected_made_of(dict, rest, ok);
            assert(ok(s[n]));
        } else {
            assert(word == s);
        }
    }
}

/// What there is before capitals comes from the transcript, the dictionary and
/// the marks that are spoken.
proof fn lemma_spoken_made_of(
    raw: Seq<char>,
    dict: Map<Seq<char>, Seq<char>>,
    ok: spec_fn(char) -> bool,
)
    requires
        made_of(raw, ok),
        forall|key: Seq<char>| #[trigger] dict.contains_key(key) ==> made_of(dict[key], ok),
        ok(' '),
        ok('\n'),
        ok(','),
        ok('.'),
        ok('?'),
        ok('!'),
    ensures
        made_of(corrected(dict, punctuated(stripped(trimmed(raw)))), ok),
{
    lemma_trimmed_made_of(raw, ok);
    let text = trimmed(raw);
    lemma_words_made_of(text, ok);
    lemma_fillers_made_of(words(text), ok);
    lemma_joined_made_of(without_fillers(words(text)), seq![' '], ok);
    let padded = seq![' '] + stripped(text) + seq![' '];
    assert forall|i: int| 0 <= i < padded.len() implies ok(#[trigger] padded[i]) by {
        if 0 < i < padded.len() - 1 {
            assert(padded[i] == stripped(text)[i - 1]);
        }
    }
    lemma_rules_made_of(padded, 7, ok);
    lemma_trimmed_made_of(after_rules(padded, 7), ok);
    lemma_corrected_made_of(dict, punctuated(stripped(text)), ok);
}

proof fn lemma_capitals_made_of(s: Seq<char>, ok: spec_fn(char) -> bool)
    requires
        made_of(s, ok),
        forall|c: char| #[trigger] ok(c) && is_letter(c) ==> made_of(upper_char(c), ok),
    ensures
        made_of(capitalised(s), ok),
    decreases s.len(),
{
    if s.len() > 0 {
        let front = s.drop_last();
        assert forall|i: int| 0 <= i < front.len() implies ok(#[trigger] front[i]) by {
            assert(front[i] == s[i]);
        }
        lemma_capitals_made_of(front, ok);
        assert(ok(s[s.len() - 1]));
    }
}

proof fn lemma_squeezed_made_of(s: Seq<char>, ok: spec_fn(char) -> bool)
    requires
        made_of(s, ok),
        ok(' '),
    ensures
        made_of(squeezed(s).0, ok),
    decreases s.len(),
{
    if s.len() > 0 {
        let front = s.drop_last();
        assert forall|i: int| 0 <= i < front.len() implies ok(#[trigger] front[i]) by {
            assert(front[i] == s[i]);
        }
        lemma_squeezed_made_of(front, ok);
        assert(ok(s[s.len() - 1]));
    }
}

/// Nothing is typed but what was said: each character of the text is one of the
/// transcript or of a dictionary entry, the capital of one, or a space, a line
/// break or a mark that can be spoken.
pub proof fn law_nothing_else_is_typed(
    raw: Seq<char>,
    dict: Map<Seq<char>, Seq<char>>,
    ok: spec_fn(char) -> bool,
)
    requires
        made_of(raw, ok),
        forall|key: Seq<char>| #[trigger] dict.contains_key(key) ==> made_of(dict[key], ok),
        forall|c: char| #[trigger] ok(c) && is_letter(c) ==> made_of(upper_char(c), ok),
        ok(' '),
        ok('\n'),
        ok(','),
        ok('.'),
        ok('?'),
        ok('!'),
    ensures
        made_of(polished(raw, dict), ok),
{
    lemma_spoken_made_of(raw, dict, ok);
    lemma_trimmed_made_of(raw, ok);
    let s = corrected(dict, punctuated(stripped(trimmed(raw))));
    lemma_capitals_made_of(s, ok);
    lemma_squeezed_made_of(capitalised(s), ok);
    lemma_trimmed_made_of(squeezed(capitalised(s)).0, ok);
}

/// Of ASCII, whatever the dictionary replaces, every sentence begins with a
/// capital: no small letter stands at the start of the text, behind a line break,
/// or behind whitespace that follows a full stop, question mark or exclamation
/// mark, with no letter or digit in between.
pub proof fn law_ascii_sentences_begin_with_capitals(
    raw: Seq<char>,
    dict: Map<Seq<char>, Seq<char>>,
    b: int,
    i: int,
)
    requires
        is_ascii_text(raw),
        forall|key: Seq<char>| #[trigger] dict.contains_key(key) ==> is_ascii_text(dict[key]),
        0 <= b <= i < polished(raw, dict).len(),
        b == 0 || polished(raw, dict)[b - 1] == '\n' || (b > 1 && is_white(
            polished(raw, dict)[b - 1],
        ) && (polished(raw, dict)[b - 2] == '.' || polished(raw, dict)[b - 2] == '?' || polished(
            raw,
            dict,
        )[b - 2] == '!')),
        forall|k: int| b <= k < i ==> !is_word_char(#[trigger] polished(raw, dict)[k]),
    ensures
        !('a' <= polished(raw, dict)[i] <= 'z'),
{
    let ok = |c: char| is_ascii_char(c);
    let t = polished(raw, dict);
    let s = corrected(dict, punctuated(stripped(trimmed(raw))));
    lemma_spoken_made_of(raw, dict, ok);
    assert forall|k: int| 0 <= k < s.len() implies is_regular(#[trigger] s[k]) by {
        assert(ok(s[k]));
        lemma_ascii_is_regular(s[k]);
    }
    let c = capitalised(s);
    lemma_capitals_begin(s);
    lemma_capitals_made_of(s, ok);
    assert forall|k: int| 0 <= k < c.len() && is_white(#[trigger] c[k]) implies !is_word_char(
        c[k],
    ) by {
        assert(ok(c[k]));
    }
    lemma_squeezed_begins(c);
    let out = squeezed(c).0;
    lemma_squeezed(c);
    assert forall|k: int| 0 <= k < out.len() && is_white(#[trigger] out[k]) implies !is_word_char(
        out[k],
    ) by {}
    lemma_trimmed_begins(out);
    assert(opens_at(t.take(i), b)) by {
        assert forall|k: int| b <= k < i implies !is_word_char(#[trigger] t.take(i)[k]) by {
            assert(t.take(i)[k] == t[k]);
        }
    }
}

/// Fillers go before anything else is looked at: transcripts that differ in
/// fillers alone are typed alike, also where a filler stood inside a spoken mark.
pub proof fn law_fillers_never_matter(
    a: Seq<char>,
    b: Seq<char>,
    dict: Map<Seq<char>, Seq<char>>,
)
    requires
        without_fillers(words(a)) == without_fillers(words(b)),
        words(a).len() > 0,
        words(b).len() > 0,
    ensures
        polished(a, dict) == polished(b, dict),
{
    lemma_words_trimmed(a);
    lemma_words_trimmed(b);
}

/// No mark is spoken in a single word, unless it is the word for one.
proof fn lemma_one_word_is_no_mark(word: Seq<char>, k: int, i: int)
    requires
        0 <= k < 7,
        forall|j: int| 0 <= j < word.len() ==> !is_white(#[trigger] word[j]),
        small(word) != "comma"@,
        small(word) != "period"@,
    ensures
        !occurs_at(small(seq![' '] + word + seq![' ']), spoken_rules()[k].0, i),
{
    reveal_strlit(" new line ");
    reveal_strlit(" new paragraph ");
    reveal_strlit(" comma ");
    reveal_strlit(" full stop ");
    reveal_strlit(" period ");
    reveal_strlit(" question mark ");
    reveal_strlit(" exclamation mark ");
    reveal_strlit("comma");
    reveal_strlit("period");
    let padded = seq![' '] + word + seq![' '];
    let low = small(padded);
    let pat = spoken_rules()[k].0;
    if occurs_at(low, pat, i) {
        assert forall|j: int| 0 <= j < pat.len() implies #[trigger] pat[j] == low[i + j] by {
            assert(low.subrange(i, i + pat.len())[j] == low[i + j]);
        }
        assert forall|j: int| 0 < j < low.len() - 1 implies #[trigger] low[j] != ' ' by {
            assert(padded[j] == word[j - 1]);
            assert(!is_white(word[j - 1]));
        }
        assert(pat[0] == ' ' && pat[pat.len() - 1] == ' ');
        assert(low[i] == ' ');
        assert(low[i + pat.len() - 1] == ' ');
        assert(i == 0 && pat.len() == low.len());
        let gap = if k == 0 || k == 1 {
            4int
        } else if k == 3 {
            5
        } else if k == 5 {
            9
        } else {
            12
        };
        if k == 2 || k == 4 {
            let plain = if k == 2 {
                "comma"@
            } else {
                "period"@
            };
            assert forall|j: int| 0 <= j < word.len() implies small(word)[j] == plain[j] by {
                assert(pat[j + 1] == low[j + 1]);
                assert(padded[j + 1] == word[j]);
            }
            assert(small(word) == plain);
        } else {
            assert(pat[gap] == ' ');
            assert(low[gap] == ' ');
        }
    }
}

/// What the dictionary puts in is capitalised and tidied, and nothing else is done
/// to it: it is not taken for a filler or for a spoken mark, whatever it says.
pub proof fn law_a_replacement_stays(
    lead: Seq<char>,
    core: Seq<char>,
    trail: Seq<char>,
    dict: Map<Seq<char>, Seq<char>>,
)
    requires
        core.len() > 0,
        is_word_char(core[0]) || core[0] == '\'',
        is_word_char(core.last()) || core.last() == '\'',
        forall|i: int|
            0 <= i < lead.len() ==> !is_word_char(#[trigger] lead[i]) && lead[i] != '\''
                && !is_white(lead[i]),
        forall|i: int|
            0 <= i < trail.len() ==> !is_word_char(#[trigger] trail[i]) && trail[i] != '\''
                && !is_white(trail[i]),
        forall|i: int| 0 <= i < core.len() ==> !is_white(#[trigger] core[i]),
        dict.contains_key(lower_text(core)),
        !is_filler(bare(lead + core + trail)),
        small(lead + core + trail) != "comma"@,
        small(lead + core + trail) != "period"@,
    ensures
        polished(lead + core + trail, dict) == collapsed(
            capitalised(lead + dict[lower_text(core)] + trail),
        ),
{
    let word = lead + core + trail;
    let (a, b) = (lead.len() as int, (lead.len() + core.len()) as int);
    assert forall|i: int| 0 <= i < word.len() implies !is_white(#[trigger] word[i]) by {
        if i < a {
            assert(word[i] == lead[i]);
        } else if i < b {
            assert(word[i] == core[i - a]);
        } else {
            assert(word[i] == trail[i - b]);
        }
    }
    let n = word.len() as int;
    assert(!is_white(word[0]) && !is_white(word[n - 1]));
    assert(trimmed(word) == word);
    crate::text::lemma_word_len_is(word, n);
    assert(word.take(n) == word);
    assert(word.skip(n).len() == 0);
    assert(words(word) == seq![word] + words(word.skip(n)));
    assert(words(word) == seq![word]);
    assert(seq![word].drop_last() == Seq::<Seq<char>>::empty());
    assert(without_fillers(seq![word]) == seq![word]) by {
        assert(without_fillers(Seq::empty()) == Seq::<Seq<char>>::empty());
        assert(seq![word].last() == word);
    }
    assert(stripped(word) == word);
    assert forall|k: int, i: int| 0 <= k < 7 implies !#[trigger] occurs_at(
        small(seq![' '] + word + seq![' ']),
        spoken_rules()[k].0,
        i,
    ) by {
        lemma_one_word_is_no_mark(word, k, i);
    }
    law_no_marks_no_change(word);
    let padded = seq![' '] + word + seq![' '];
    assert(trimmed(padded) == word) by {
        let from = crate::text::lemma_trimmed(padded);
        let t = trimmed(padded);
        if t.len() == 0 {
            assert(padded[1] == word[0]);
            assert(is_white(padded[1]));
        } else {
            assert(t[0] == padded[from]);
            assert(t.last() == padded[from + t.len() - 1]);
            if from > 1 {
                assert(is_white(padded[1]));
                assert(padded[1] == word[0]);
            }
            if from + t.len() < n + 1 {
                assert(is_white(padded[n]));
                assert(padded[n] == word[n - 1]);
            }
            assert(from == 1 && t.len() == n);
            assert(padded.subrange(1, n + 1) == word);
        }
    }
    crate::dictionary::law_punctuation_is_kept(dict, lead, core, trail);
}

/// Words hold no whitespace.
proof fn lemma_words_are_dark(s: Seq<char>)
    ensures
        forall|j: int|
            0 <= j < words(s).len() ==> (#[trigger] words(s)[j]).len() > 0 && made_of(
                words(s)[j],
                |c: char| !is_white(c),
            ),
    decreases s.len(),
{
    if s.len() > 0 {
        if is_white(s[0]) {
            lemma_words_are_dark(s.skip(1));
            assert(words(s) == words(s.skip(1)));
        } else {
            let n = crate::text::word_len(s) as int;
            crate::text::lemma_word_len(s);
            assert(n > 0);
            let (word, rest) = (s.take(n), s.skip(n));
            lemma_words_are_dark(rest);
            assert(words(s) == seq![word] + words(rest));
            let dark = |c: char| !is_white(c);
            assert forall|i: int| 0 <= i < word.len() implies dark(#[trigger] word[i]) by {
                assert(word[i] == s[i]);
            }
            assert forall|j: int| 0 <= j < words(s).len() implies (#[trigger] words(s)[j]).len() > 0
                && made_of(words(s)[j], |c: char| !is_white(c)) by {
                if j == 0 {
                    assert(words(s)[0] == word);
                } else {
                    assert(words(s)[j] == words(rest)[j - 1]);
                }
            }
        }
    }
}

/// Words with a space between two are those words.
proof fn lemma_words_of_joined(ws: Seq<Seq<char>>)
    requires
        forall|j: int|
            0 <= j < ws.len() ==> (#[trigger] ws[j]).len() > 0 && made_of(
                ws[j],
                |c: char| !is_white(c),
            ),
    ensures
        words(joined(ws, seq![' '])) == ws,
    decreases ws.len(),
{
    if ws.len() > 0 {
        let front = ws.drop_last();
        let word = ws[ws.len() - 1];
        let dark = |c: char| !is_white(c);
        assert(word.len() > 0 && made_of(word, dark));
        assert forall|i: int| 0 <= i < word.len() implies !is_white(#[trigger] word[i]) by {
            assert(dark(word[i]));
        }
        let n = word.len() as int;
        crate::text::lemma_word_len_is(word, n);
        assert(word.take(n) == word);
        assert(word.skip(n).len() == 0);
        assert(words(word) == seq![word] + words(word.skip(n)));
        assert(words(word) == seq![word]);
        if ws.len() == 1 {
            assert(ws == seq![word]);
        } else {
            assert forall|j: int| 0 <= j < front.len() implies (#[trigger] front[j]).len() > 0
                && made_of(front[j], |c: char| !is_white(c)) by {
                assert(front[j] == ws[j]);
            }
            lemma_words_of_joined(front);
            let before = joined(front, seq![' ']);
            crate::text::lemma_words_apart(before, ' ', word);
            assert(joined(ws, seq![' ']) == before.push(' ') + word);
            assert(front + seq![word] == ws);
        }
    } else {
        assert(words(joined(ws, seq![' '])) == ws);
    }
}

/// What is left without the fillers is the other words, with their order, as words
/// of their own.
pub proof fn law_stripping_keeps_words_apart(text: Seq<char>)
    requires
        forall|j: int|
            0 <= j < without_fillers(words(text)).len() ==> (#[trigger] without_fillers(
                words(text),
            )[j]).len() > 0,
    ensures
        words(stripped(text)) == without_fillers(words(text)),
{
    lemma_words_are_dark(text);
    lemma_fillers_made_of(words(text), |c: char| !is_white(c));
    lemma_words_of_joined(without_fillers(words(text)));
}

/// Raw transcript -> text a person would have typed.
pub fn polish(raw: &str, dict: &Dictionary) -> (r: String)
    ensures
        r@ == polished(raw@, dict@),
{
    let text: Vec<char> = trim(chars_of(raw).as_slice());
    if text.len() == 0 {
        return string_of(text.as_slice());
    }
    let text: Vec<char> = strip_fillers(text.as_slice());
    let text: Vec<char> = apply_spoken_commands(text.as_slice());
    let text: Vec<char> = dict.apply_chars(text.as_slice());
    let text: Vec<char> = capitalise_sentences(text.as_slice());
    let text: Vec<char> = collapse_whitespace(text.as_slice());
    string_of(text.as_slice())
}

} // verus!
