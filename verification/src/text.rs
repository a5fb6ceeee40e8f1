//! Text as sequences of characters.
//!
//! Everything that edits text works on `&[char]` and `Vec<char>`; a `String`
//! is taken apart at the way in and put together again at the way out. The
//! specification functions below say what the usual string operations mean on
//! a `Seq<char>`.

use vstd::prelude::*;
use vstd::utf8::encode_utf8;

verus! {

// ---------------------------------------------------------------------------
// Character properties
// ---------------------------------------------------------------------------

/// Whether a character is in ASCII.
pub open spec fn is_ascii_char(c: char) -> bool {
    c <= '\u{7F}'
}

/// Whether a character counts as whitespace, by the Unicode `White_Space`
/// property: the space, the controls from tab to carriage return and the next
/// line, and the spaces and separators beyond ASCII.
pub open spec fn is_white(c: char) -> bool {
    ||| c == ' '
    ||| '\t' <= c <= '\r'
    ||| c == '\u{85}'
    ||| c == '\u{A0}'
    ||| c == '\u{1680}'
    ||| '\u{2000}' <= c <= '\u{200A}'
    ||| c == '\u{2028}'
    ||| c == '\u{2029}'
    ||| c == '\u{202F}'
    ||| c == '\u{205F}'
    ||| c == '\u{3000}'
}

/// `char::is_whitespace`: whether the character has the Unicode `White_Space`
/// property.
pub assume_specification[ char::is_whitespace ](c: char) -> (r: bool)
    ensures
        r == is_white(c),
;

/// The Unicode `Alphabetic` property beyond ASCII.
pub uninterp spec fn letter_beyond_ascii(c: char) -> bool;

/// Whether a character is a letter.
pub open spec fn is_letter(c: char) -> bool {
    if is_ascii_char(c) {
        'a' <= c <= 'z' || 'A' <= c <= 'Z'
    } else {
        letter_beyond_ascii(c)
    }
}

/// `char::is_alphabetic`: the Unicode `Alphabetic` property. In ASCII the letters
/// have it; of every other character is stated that the answer depends on it
/// alone.
pub assume_specification[ char::is_alphabetic ](c: char) -> (r: bool)
    ensures
        r == (if is_ascii_char(c) {
            'a' <= c <= 'z' || 'A' <= c <= 'Z'
        } else {
            letter_beyond_ascii(c)
        }),
;

/// The Unicode numeric general categories beyond ASCII.
pub uninterp spec fn number_beyond_ascii(c: char) -> bool;

/// Whether a character is a number.
pub open spec fn is_number(c: char) -> bool {
    if is_ascii_char(c) {
        '0' <= c <= '9'
    } else {
        number_beyond_ascii(c)
    }
}

/// `char::is_numeric`: the Unicode numeric general categories. In ASCII the
/// digits are in them; of every other character is stated that the answer
/// depends on it alone.
pub assume_specification[ char::is_numeric ](c: char) -> (r: bool)
    ensures
        r == (if is_ascii_char(c) {
            '0' <= c <= '9'
        } else {
            number_beyond_ascii(c)
        }),
;

/// A letter or a number.
pub open spec fn is_word_char(c: char) -> bool {
    is_letter(c) || is_number(c)
}

/// `char::is_alphanumeric`: `is_alphabetic` or `is_numeric`.
pub assume_specification[ char::is_alphanumeric ](c: char) -> (r: bool)
    ensures
        r == is_word_char(c),
;

/// An ASCII capital turned small; every other character unchanged.
pub open spec fn ascii_small(c: char) -> char {
    if 'A' <= c <= 'Z' {
        ((c as u32) + 32) as char
    } else {
        c
    }
}

/// A small ASCII letter turned capital; every other character unchanged.
pub open spec fn ascii_capital(c: char) -> char {
    if 'a' <= c <= 'z' {
        ((c as u32) - 32) as char
    } else {
        c
    }
}

/// The Unicode lowercase mapping of one character beyond ASCII, which may be
/// several.
pub uninterp spec fn lower_beyond_ascii(c: char) -> Seq<char>;

/// The lowercase of one character.
pub open spec fn lower_char(c: char) -> Seq<char> {
    if is_ascii_char(c) {
        seq![ascii_small(c)]
    } else {
        lower_beyond_ascii(c)
    }
}

/// `char::to_lowercase`, its iterator collected: the lowercase mapping of the
/// character. In ASCII capitals become small and nothing else changes; beyond, a
/// function of the character alone.
#[verifier::external_body]
pub(crate) fn char_to_lowercase(c: char) -> (r: Vec<char>)
    ensures
        r@ == (if is_ascii_char(c) {
            seq![ascii_small(c)]
        } else {
            lower_beyond_ascii(c)
        }),
{
    c.to_lowercase().collect()
}

/// The Unicode uppercase mapping of one character beyond ASCII, which may be
/// several.
pub uninterp spec fn upper_beyond_ascii(c: char) -> Seq<char>;

/// The uppercase of one character.
pub open spec fn upper_char(c: char) -> Seq<char> {
    if is_ascii_char(c) {
        seq![ascii_capital(c)]
    } else {
        upper_beyond_ascii(c)
    }
}

/// `char::to_uppercase`, its iterator collected: the uppercase mapping of the
/// character. In ASCII small letters become capitals and nothing else changes;
/// beyond, a function of the character alone.
#[verifier::external_body]
pub(crate) fn char_to_uppercase(c: char) -> (r: Vec<char>)
    ensures
        r@ == (if is_ascii_char(c) {
            seq![ascii_capital(c)]
        } else {
            upper_beyond_ascii(c)
        }),
{
    c.to_uppercase().collect()
}

/// Whether a text is all ASCII.
pub open spec fn is_ascii_text(s: Seq<char>) -> bool {
    forall|i: int| 0 <= i < s.len() ==> is_ascii_char(#[trigger] s[i])
}

/// The text with its ASCII capitals made small.
pub open spec fn small(s: Seq<char>) -> Seq<char> {
    Seq::new(s.len(), |i: int| ascii_small(s[i]))
}

/// The lowercase of a string that is not all ASCII, in which a character's
/// mapping may depend on its place in a word.
pub uninterp spec fn lower_text_beyond_ascii(s: Seq<char>) -> Seq<char>;

/// The lowercase of a string.
pub open spec fn lower_text(s: Seq<char>) -> Seq<char> {
    if is_ascii_text(s) {
        small(s)
    } else {
        lower_text_beyond_ascii(s)
    }
}

/// `str::to_lowercase`: the lowercase of the string. Where it is all ASCII,
/// capitals become small and nothing else changes; of other strings is stated
/// that the result depends on their characters alone.
pub assume_specification[ str::to_lowercase ](s: &str) -> (r: String)
    ensures
        r@ == (if is_ascii_text(s@) {
            small(s@)
        } else {
            lower_text_beyond_ascii(s@)
        }),
;

/// `String::push`: appends one character.
pub assume_specification[ String::push ](s: &mut String, c: char)
    ensures
        final(s)@ == old(s)@.push(c),
;

/// `char::from_u32`: the character with that code point, if it is one.
pub assume_specification[ char::from_u32 ](i: u32) -> (r: Option<char>)
    ensures
        r is Some <==> (i <= 0xD7FF || 0xE000 <= i <= 0x10FFFF),
        r matches Some(c) ==> c as u32 == i,
;

/// Lowers an ASCII capital.
pub fn ascii_lower(c: char) -> (r: char)
    ensures
        r == ascii_small(c),
{
    if 'A' <= c && c <= 'Z' {
        ((c as u8) + 32) as char
    } else {
        c
    }
}

// ---------------------------------------------------------------------------
// Strings and vectors of characters
// ---------------------------------------------------------------------------

/// The characters of a string.
pub fn chars_of(s: &str) -> (v: Vec<char>)
    ensures
        v@ == s@,
{
    let mut v: Vec<char> = Vec::new();
    for c in it: s.chars()
        invariant
            v@ == it.seq().take(it.index() as int),
            it.seq() == s@,
    {
        v.push(c);
    }
    v
}

/// The string with the given characters.
pub fn string_of(v: &[char]) -> (s: String)
    ensures
        s@ == v@,
{
    let mut s = String::new();
    for i in 0..v.len()
        invariant
            s@ == v@.take(i as int),
    {
        s.push(v[i]);
    }
    s
}

/// A copy of part of a slice.
pub fn part(v: &[char], from: usize, to: usize) -> (r: Vec<char>)
    requires
        from <= to <= v.len(),
    ensures
        r@ == v@.subrange(from as int, to as int),
{
    let mut r: Vec<char> = Vec::new();
    let mut i: usize = from;
    while i < to
        invariant
            from <= i <= to <= v.len(),
            r@ == v@.subrange(from as int, i as int),
        decreases to - i,
    {
        r.push(v[i]);
        i += 1;
    }
    r
}

/// Appends a copy of `more`.
pub fn append(v: &mut Vec<char>, more: &[char])
    ensures
        final(v)@ == old(v)@ + more@,
{
    let ghost start = v@;
    for i in 0..more.len()
        invariant
            v@ == start + more@.take(i as int),
    {
        v.push(more[i]);
    }
    assert(more@.take(more@.len() as int) == more@);
}

/// Appends a string.
pub fn append_str(v: &mut Vec<char>, more: &str)
    ensures
        final(v)@ == old(v)@ + more@,
{
    let chars: Vec<char> = chars_of(more);
    append(v, chars.as_slice());
}

/// Whether two slices hold the same characters.
pub fn same(a: &[char], b: &[char]) -> (r: bool)
    ensures
        r == (a@ == b@),
{
    if a.len() != b.len() {
        return false;
    }
    let mut i: usize = 0;
    while i < a.len()
        invariant
            a.len() == b.len(),
            i <= a.len(),
            forall|j: int| 0 <= j < i ==> a@[j] == b@[j],
        decreases a.len() - i,
    {
        if a[i] != b[i] {
            return false;
        }
        i += 1;
    }
    assert(a@ =~= b@);
    true
}

/// The contents of a vector of strings of characters.
pub open spec fn views(parts: Seq<Vec<char>>) -> Seq<Seq<char>> {
    Seq::new(parts.len(), |i: int| parts[i]@)
}

/// The contents of a vector of strings.
pub open spec fn texts(parts: Seq<String>) -> Seq<Seq<char>> {
    Seq::new(parts.len(), |i: int| parts[i]@)
}

/// All parts, one after the other.
pub open spec fn flat(parts: Seq<Seq<char>>) -> Seq<char>
    decreases parts.len(),
{
    if parts.len() == 0 {
        Seq::empty()
    } else {
        flat(parts.drop_last()) + parts.last()
    }
}

/// One part alone.
pub proof fn lemma_flat_one(one: Seq<char>)
    ensures
        flat(seq![one]) == one,
{
    reveal_with_fuel(flat, 2);
    assert(seq![one].drop_last() == Seq::<Seq<char>>::empty());
    assert(flat(seq![one]) == Seq::<char>::empty() + one);
}

/// Appending a part to a sequence of parts appends it to the whole.
pub proof fn lemma_flat_push(parts: Seq<Seq<char>>, last: Seq<char>)
    ensures
        flat(parts.push(last)) == flat(parts) + last,
{
    assert(parts.push(last).drop_last() == parts);
}

/// The parts of two sequences in a row.
pub proof fn lemma_flat_concat(a: Seq<Seq<char>>, b: Seq<Seq<char>>)
    ensures
        flat(a + b) == flat(a) + flat(b),
    decreases b.len(),
{
    if b.len() == 0 {
        assert(a + b == a);
        assert(flat(a) + flat(b) == flat(a));
    } else {
        assert((a + b).drop_last() == a + b.drop_last());
        lemma_flat_concat(a, b.drop_last());
        assert(flat(a) + (flat(b.drop_last()) + b.last()) == (flat(a) + flat(b.drop_last())) + b.last());
    }
}

// ---------------------------------------------------------------------------
// Trimming
// ---------------------------------------------------------------------------

/// Without the whitespace at the front.
pub open spec fn trim_front(s: Seq<char>) -> Seq<char>
    decreases s.len(),
{
    if s.len() > 0 && is_white(s[0]) {
        trim_front(s.skip(1))
    } else {
        s
    }
}

/// Without the whitespace at the back.
pub open spec fn trim_back(s: Seq<char>) -> Seq<char>
    decreases s.len(),
{
    if s.len() > 0 && is_white(s.last()) {
        trim_back(s.drop_last())
    } else {
        s
    }
}

/// Without the whitespace at either end.
pub open spec fn trimmed(s: Seq<char>) -> Seq<char> {
    trim_back(trim_front(s))
}

/// Where the trimmed text lies.
pub fn trim_bounds(v: &[char]) -> (r: (usize, usize))
    ensures
        r.0 <= r.1 <= v.len(),
        v@.subrange(r.0 as int, r.1 as int) == trimmed(v@),
{
    let mut a: usize = 0;
    assert(v@.skip(0) == v@);
    while a < v.len() && v[a].is_whitespace()
        invariant
            a <= v.len(),
            trim_front(v@.skip(a as int)) == trim_front(v@),
        decreases v.len() - a,
    {
        assert(v@.skip(a as int).skip(1) == v@.skip(a as int + 1));
        a += 1;
    }
    assert(trim_front(v@) == v@.skip(a as int));
    let mut b: usize = v.len();
    assert(v@.subrange(a as int, b as int) == v@.skip(a as int));
    while b > a && v[b - 1].is_whitespace()
        invariant
            a <= b <= v.len(),
            trim_back(v@.subrange(a as int, b as int)) == trimmed(v@),
        decreases b,
    {
        assert(v@.subrange(a as int, b as int).drop_last() == v@.subrange(a as int, b as int - 1));
        b -= 1;
    }
    (a, b)
}

/// A trimmed copy.
pub fn trim(v: &[char]) -> (r: Vec<char>)
    ensures
        r@ == trimmed(v@),
{
    let (a, b): (usize, usize) = trim_bounds(v);
    part(v, a, b)
}

/// Trimming the back never uncovers whitespace at the front.
pub proof fn lemma_trim_back(s: Seq<char>)
    ensures
        trim_back(s).len() <= s.len(),
        trim_back(s) == s.take(trim_back(s).len() as int),
        trim_back(s).len() > 0 ==> !is_white(trim_back(s).last()),
        forall|i: int| trim_back(s).len() <= i < s.len() ==> is_white(#[trigger] s[i]),
    decreases s.len(),
{
    if s.len() > 0 && is_white(s.last()) {
        lemma_trim_back(s.drop_last());
        let t = trim_back(s);
        assert(s.drop_last().take(t.len() as int) == s.take(t.len() as int));
        assert forall|i: int| t.len() <= i < s.len() implies is_white(#[trigger] s[i]) by {
            if i < s.len() - 1 {
                assert(s.drop_last()[i] == s[i]);
            }
        }
    } else {
        assert(s.take(s.len() as int) == s);
    }
}

/// What trimming the front removes, and what it stops at.
pub proof fn lemma_trim_front(s: Seq<char>)
    ensures
        trim_front(s).len() <= s.len(),
        trim_front(s) == s.skip(s.len() - trim_front(s).len()),
        trim_front(s).len() > 0 ==> !is_white(trim_front(s)[0]),
        forall|i: int| 0 <= i < s.len() - trim_front(s).len() ==> is_white(#[trigger] s[i]),
    decreases s.len(),
{
    if s.len() > 0 && is_white(s[0]) {
        lemma_trim_front(s.skip(1));
        let t = trim_front(s);
        assert(s.skip(1).skip(s.len() - 1 - t.len()) == s.skip(s.len() - t.len()));
        assert forall|i: int| 0 <= i < s.len() - t.len() implies is_white(#[trigger] s[i]) by {
            if i > 0 {
                assert(s.skip(1)[i - 1] == s[i]);
            }
        }
    } else {
        assert(s.skip(0) == s);
    }
}

/// Trimmed text begins and ends with something other than whitespace, and
/// what was removed is whitespace throughout.
pub proof fn lemma_trimmed(s: Seq<char>) -> (from: int)
    ensures
        0 <= from,
        from + trimmed(s).len() <= s.len(),
        trimmed(s) == s.subrange(from, from + trimmed(s).len()),
        trimmed(s).len() > 0 ==> !is_white(trimmed(s)[0]) && !is_white(trimmed(s).last()),
        forall|i: int| 0 <= i < from ==> is_white(#[trigger] s[i]),
        forall|i: int| from + trimmed(s).len() <= i < s.len() ==> is_white(#[trigger] s[i]),
{
    let f = trim_front(s);
    lemma_trim_front(s);
    lemma_trim_back(f);
    let from = s.len() - f.len();
    let t = trimmed(s);
    assert(t == s.subrange(from, from + t.len()));
    if t.len() > 0 {
        assert(t[0] == f[0]);
    }
    assert forall|i: int| from + t.len() <= i < s.len() implies is_white(#[trigger] s[i]) by {
        assert(f[i - from] == s[i]);
    }
    from
}

// ---------------------------------------------------------------------------
// Words
// ---------------------------------------------------------------------------

/// How many characters precede the first whitespace.
pub open spec fn word_len(s: Seq<char>) -> nat
    decreases s.len(),
{
    if s.len() > 0 && !is_white(s[0]) {
        1 + word_len(s.skip(1))
    } else {
        0
    }
}

/// The first word reaches up to whitespace or to the end.
pub proof fn lemma_word_len(s: Seq<char>)
    ensures
        word_len(s) <= s.len(),
        forall|i: int| 0 <= i < word_len(s) ==> !is_white(#[trigger] s[i]),
        word_len(s) < s.len() ==> is_white(s[word_len(s) as int]),
    decreases s.len(),
{
    if s.len() > 0 && !is_white(s[0]) {
        let t = s.skip(1);
        lemma_word_len(t);
        assert forall|i: int| 0 <= i < word_len(s) implies !is_white(#[trigger] s[i]) by {
            if i > 0 {
                assert(t[i - 1] == s[i]);
            }
        }
        if word_len(s) < s.len() {
            assert(t[word_len(t) as int] == s[word_len(s) as int]);
        }
    }
}

/// The length of a first word, from its characters.
pub proof fn lemma_word_len_is(s: Seq<char>, n: int)
    requires
        0 <= n <= s.len(),
        forall|i: int| 0 <= i < n ==> !is_white(#[trigger] s[i]),
        n < s.len() ==> is_white(s[n]),
    ensures
        word_len(s) == n,
    decreases n,
{
    if n > 0 {
        let t = s.skip(1);
        assert forall|i: int| 0 <= i < n - 1 implies !is_white(#[trigger] t[i]) by {
            assert(t[i] == s[i + 1]);
        }
        lemma_word_len_is(t, n - 1);
        assert(!is_white(s[0]));
    }
}

/// The stretches between whitespace.
pub open spec fn words(s: Seq<char>) -> Seq<Seq<char>>
    decreases s.len(),
{
    if s.len() == 0 {
        Seq::empty()
    } else if is_white(s[0]) {
        words(s.skip(1))
    } else {
        let n = word_len(s) as int;
        proof {
            lemma_word_len(s);
        }
        seq![s.take(n)] + words(s.skip(n))
    }
}

/// The words with one more character behind: whitespace adds nothing, another
/// character begins a word or goes on with the last.
pub proof fn lemma_words_push(s: Seq<char>, c: char)
    ensures
        is_white(c) ==> words(s.push(c)) == words(s),
        !is_white(c) && (s.len() == 0 || is_white(s.last())) ==> words(s.push(c)) == words(s).push(
            seq![c],
        ),
        !is_white(c) && s.len() > 0 && !is_white(s.last()) ==> words(s).len() > 0 && words(
            s.push(c),
        ) == words(s).drop_last().push(words(s).last().push(c)),
    decreases s.len(),
{
    let t = s.push(c);
    if s.len() == 0 {
        assert(t[0] == c);
        if is_white(c) {
            assert(t.skip(1) == s);
        } else {
            lemma_word_len_is(t, 1);
            assert(t.take(1) == seq![c]);
            assert(t.skip(1).len() == 0);
            assert(words(t) == seq![seq![c]] + words(t.skip(1)));
            assert(words(t) == words(s).push(seq![c]));
        }
    } else if is_white(s[0]) {
        let rest = s.skip(1);
        assert(t[0] == s[0]);
        assert(t.skip(1) == rest.push(c));
        if rest.len() > 0 {
            assert(rest.last() == s.last());
        } else {
            assert(s.last() == s[0]);
        }
        lemma_words_push(rest, c);
    } else {
        let n = word_len(s) as int;
        lemma_word_len(s);
        assert(t[0] == s[0]);
        assert(n > 0);
        assert forall|i: int| 0 <= i < n implies !is_white(#[trigger] t[i]) by {
            assert(t[i] == s[i]);
        }
        if n < s.len() {
            let rest = s.skip(n);
            lemma_word_len_is(t, n);
            assert(t.take(n) == s.take(n));
            assert(t.skip(n) == rest.push(c));
            assert(rest.last() == s.last());
            lemma_words_push(rest, c);
            let one = seq![s.take(n)];
            assert(words(s) == one + words(rest));
            assert(words(t) == one + words(rest.push(c)));
            if is_white(c) {
            } else if is_white(s.last()) {
                assert(one + words(rest).push(seq![c]) == (one + words(rest)).push(seq![c]));
            } else {
                let w = words(rest);
                assert((one + w).last() == w.last());
                assert(one + w.drop_last().push(w.last().push(c)) == (one + w).drop_last().push(
                    (one + w).last().push(c),
                ));
            }
        } else {
            assert(s.take(n) == s);
            assert(s.skip(n).len() == 0);
            assert(words(s) == seq![s] + words(s.skip(n)));
            assert(words(s) == seq![s]);
            assert(!is_white(s[s.len() - 1]));
            if is_white(c) {
                lemma_word_len_is(t, n);
                assert(t.take(n) == s);
                assert(t.skip(n) == seq![c]);
                assert(seq![c].skip(1).len() == 0);
                assert(words(seq![c]) == words(seq![c].skip(1)));
                assert(words(t) == seq![s] + words(seq![c]));
                assert(words(t) == seq![s]);
            } else {
                lemma_word_len_is(t, n + 1);
                assert(t.take(n + 1) == t);
                assert(t.skip(n + 1).len() == 0);
                assert(words(t) == seq![t] + words(t.skip(n + 1)));
                assert(words(t) == seq![t]);
                assert(words(s).drop_last().push(words(s).last().push(c)) == seq![t]);
            }
        }
    }
}

/// Whitespace parts words: those of a text are the words in front of it and then
/// the words behind it.
pub proof fn lemma_words_apart(a: Seq<char>, w: char, b: Seq<char>)
    requires
        is_white(w),
    ensures
        words(a.push(w) + b) == words(a) + words(b),
    decreases b.len(),
{
    let s = a.push(w) + b;
    if b.len() == 0 {
        lemma_words_push(a, w);
        assert(s == a.push(w));
        assert(words(a) + words(b) == words(a));
    } else {
        let front = b.drop_last();
        let c = b.last();
        let t = a.push(w) + front;
        lemma_words_apart(a, w, front);
        lemma_words_push(t, c);
        lemma_words_push(front, c);
        assert(s == t.push(c));
        assert(b == front.push(c));
        let (x, y) = (words(a), words(front));
        if is_white(c) {
        } else if front.len() == 0 {
            assert(t.last() == w);
            assert((x + y).push(seq![c]) == x + y.push(seq![c]));
        } else {
            assert(t.last() == front.last());
            if is_white(front.last()) {
                assert((x + y).push(seq![c]) == x + y.push(seq![c]));
            } else {
                assert((x + y).last() == y.last());
                assert((x + y).drop_last().push(y.last().push(c)) == x + y.drop_last().push(
                    y.last().push(c),
                ));
            }
        }
    }
}

/// Trimming keeps the words.
pub proof fn lemma_words_trimmed(s: Seq<char>)
    ensures
        words(trimmed(s)) == words(s),
{
    lemma_words_trim_front(s);
    lemma_words_trim_back(trim_front(s));
}

proof fn lemma_words_trim_front(s: Seq<char>)
    ensures
        words(trim_front(s)) == words(s),
    decreases s.len(),
{
    if s.len() > 0 && is_white(s[0]) {
        lemma_words_trim_front(s.skip(1));
    }
}

proof fn lemma_words_trim_back(s: Seq<char>)
    ensures
        words(trim_back(s)) == words(s),
    decreases s.len(),
{
    if s.len() > 0 && is_white(s.last()) {
        lemma_words_trim_back(s.drop_last());
        lemma_words_push(s.drop_last(), s.last());
        assert(s.drop_last().push(s.last()) == s);
    }
}

/// Splits at whitespace.
pub fn split_words(v: &[char]) -> (r: Vec<Vec<char>>)
    ensures
        views(r@) == words(v@),
{
    let mut r: Vec<Vec<char>> = Vec::new();
    let mut i: usize = 0;
    assert(v@.skip(0) == v@);
    assert(views(r@) + words(v@) == words(v@));
    while i < v.len()
        invariant
            i <= v.len(),
            views(r@) + words(v@.skip(i as int)) == words(v@),
        decreases v.len() - i,
    {
        let ghost rest = v@.skip(i as int);
        if v[i].is_whitespace() {
            assert(rest.skip(1) == v@.skip(i as int + 1));
            i += 1;
        } else {
            let from: usize = i;
            while i < v.len() && !v[i].is_whitespace()
                invariant
                    from <= i <= v.len(),
                    forall|j: int| from <= j < i ==> !is_white(#[trigger] v@[j]),
                decreases v.len() - i,
            {
                i += 1;
            }
            let ghost n = i - from;
            let ghost before = views(r@);
            proof {
                assert(n > 0);
                assert forall|j: int| 0 <= j < n implies !is_white(#[trigger] rest[j]) by {
                    assert(rest[j] == v@[from + j]);
                }
                lemma_word_len_is(rest, n);
            }
            let w: Vec<char> = part(v, from, i);
            r.push(w);
            proof {
                assert(w@ == rest.take(n));
                assert(rest.skip(n) == v@.skip(i as int));
                assert(views(r@) == before.push(w@));
                assert(words(rest) == seq![w@] + words(v@.skip(i as int)));
                assert(before.push(w@) + words(v@.skip(i as int)) == before + (seq![w@] + words(
                    v@.skip(i as int),
                )));
            }
        }
    }
    assert(v@.skip(i as int).len() == 0);
    assert(views(r@) + words(v@.skip(i as int)) == views(r@));
    r
}

/// The parts with a separator between each two.
pub open spec fn joined(parts: Seq<Seq<char>>, sep: Seq<char>) -> Seq<char>
    decreases parts.len(),
{
    if parts.len() == 0 {
        Seq::empty()
    } else if parts.len() == 1 {
        parts[0]
    } else {
        joined(parts.drop_last(), sep) + sep + parts.last()
    }
}

/// Joining two lists is joining each, with the separator between.
pub proof fn law_joining_goes_on(a: Seq<Seq<char>>, b: Seq<Seq<char>>, sep: Seq<char>)
    requires
        a.len() > 0,
        b.len() > 0,
    ensures
        joined(a + b, sep) == joined(a, sep) + sep + joined(b, sep),
        a.len() == 1 ==> joined(a, sep) == a[0],
    decreases b.len(),
{
    let all = a + b;
    if b.len() == 1 {
        assert(all.drop_last() == a);
        assert(all.last() == b[0]);
    } else {
        let front = b.drop_last();
        law_joining_goes_on(a, front, sep);
        assert(all.drop_last() == a + front);
        assert(all.last() == b.last());
        let (x, y) = (joined(a, sep), joined(front, sep));
        assert(x + sep + (y + sep + b.last()) == x + sep + y + sep + b.last());
    }
}

/// Joins with a separator.
pub fn join(parts: &Vec<Vec<char>>, sep: &[char]) -> (r: Vec<char>)
    ensures
        r@ == joined(views(parts@), sep@),
{
    let mut r: Vec<char> = Vec::new();
    let mut i: usize = 0;
    let ghost all = views(parts@);
    while i < parts.len()
        invariant
            i <= parts.len(),
            all == views(parts@),
            r@ == joined(all.take(i as int), sep@),
        decreases parts.len() - i,
    {
        if i > 0 {
            append(&mut r, sep);
        }
        append(&mut r, parts[i].as_slice());
        proof {
            let now = all.take(i as int + 1);
            assert(now.drop_last() == all.take(i as int));
            assert(now.last() == parts@[i as int]@);
            if i == 0 {
                assert(r@ == parts@[0]@);
            }
        }
        i += 1;
    }
    assert(all.take(i as int) == all);
    r
}

// ---------------------------------------------------------------------------
// Fields and lines
// ---------------------------------------------------------------------------

/// How many characters precede the first `c`.
pub open spec fn run_until(s: Seq<char>, c: char) -> nat
    decreases s.len(),
{
    if s.len() > 0 && s[0] != c {
        1 + run_until(s.skip(1), c)
    } else {
        0
    }
}

/// The length of a run, from its characters.
pub proof fn lemma_run_until_is(s: Seq<char>, c: char, n: int)
    requires
        0 <= n <= s.len(),
        forall|i: int| 0 <= i < n ==> #[trigger] s[i] != c,
        n < s.len() ==> s[n] == c,
    ensures
        run_until(s, c) == n,
    decreases n,
{
    if n > 0 {
        let t = s.skip(1);
        assert forall|i: int| 0 <= i < n - 1 implies #[trigger] t[i] != c by {
            assert(t[i] == s[i + 1]);
        }
        lemma_run_until_is(t, c, n - 1);
        assert(s[0] != c);
    }
}

/// The first place of `c` from `from` on, or the end.
pub fn index_of(v: &[char], from: usize, c: char) -> (r: usize)
    requires
        from <= v.len(),
    ensures
        r == from + run_until(v@.skip(from as int), c),
        from <= r <= v.len(),
        forall|i: int| from <= i < r ==> #[trigger] v@[i] != c,
        r < v.len() ==> v@[r as int] == c,
{
    let mut i: usize = from;
    while i < v.len() && v[i] != c
        invariant
            from <= i <= v.len(),
            forall|j: int| from <= j < i ==> #[trigger] v@[j] != c,
        decreases v.len() - i,
    {
        i += 1;
    }
    proof {
        let s = v@.skip(from as int);
        assert forall|j: int| 0 <= j < i - from implies #[trigger] s[j] != c by {
            assert(s[j] == v@[from + j]);
        }
        if i < v.len() {
            assert(s[i - from] == v@[i as int]);
        }
        lemma_run_until_is(s, c, i - from);
    }
    i
}

/// Without a carriage return at the end.
pub open spec fn without_return(s: Seq<char>) -> Seq<char> {
    if s.len() > 0 && s.last() == '\r' {
        s.drop_last()
    } else {
        s
    }
}

/// The lines of a text: a line ends at a line feed, which a carriage return
/// may precede; the last line need not be ended.
pub open spec fn lines(s: Seq<char>) -> Seq<Seq<char>>
    decreases s.len(),
{
    let n = run_until(s, '\n') as int;
    if s.len() == 0 {
        Seq::empty()
    } else if n >= s.len() {
        seq![s]
    } else {
        seq![without_return(s.take(n))] + lines(s.skip(n + 1))
    }
}

/// A line feed ends a line, and a carriage return right in front of it goes with
/// it; what is behind is read on its own. Without a line feed all is one line.
pub proof fn law_lines_end_at_line_feeds(line: Seq<char>, rest: Seq<char>)
    requires
        forall|i: int| 0 <= i < line.len() ==> #[trigger] line[i] != '\n',
    ensures
        line.len() > 0 ==> lines(line) == seq![line],
        line.len() == 0 || line[line.len() - 1] != '\r' ==> lines(line.push('\n') + rest) == seq![
            line,
        ] + lines(rest),
        lines(line.push('\r').push('\n') + rest) == seq![line] + lines(rest),
{
    let n = line.len() as int;
    lemma_run_until_is(line, '\n', n);
    let s = line.push('\n') + rest;
    assert forall|i: int| 0 <= i < n implies #[trigger] s[i] != '\n' by {
        assert(s[i] == line[i]);
    }
    assert(s[n] == '\n');
    lemma_run_until_is(s, '\n', n);
    assert(s.take(n) == line);
    assert(s.skip(n + 1) == rest);
    let t = line.push('\r').push('\n') + rest;
    assert forall|i: int| 0 <= i < n + 1 implies #[trigger] t[i] != '\n' by {
        if i < n {
            assert(t[i] == line[i]);
        }
    }
    assert(t[n + 1] == '\n');
    lemma_run_until_is(t, '\n', n + 1);
    assert(t.take(n + 1) == line.push('\r'));
    assert(line.push('\r').drop_last() == line);
    assert(t.skip(n + 2) == rest);
}

/// Splits into lines.
pub fn split_lines(v: &[char]) -> (r: Vec<Vec<char>>)
    ensures
        views(r@) == lines(v@),
{
    let mut r: Vec<Vec<char>> = Vec::new();
    let mut i: usize = 0;
    assert(v@.skip(0) == v@);
    assert(views(r@) + lines(v@) == lines(v@));
    while i < v.len()
        invariant
            i <= v.len(),
            views(r@) + lines(v@.skip(i as int)) == lines(v@),
        decreases v.len() - i,
    {
        let ghost rest = v@.skip(i as int);
        let ghost before = views(r@);
        let e: usize = index_of(v, i, '\n');
        let mut w: Vec<char> = part(v, i, e);
        if e == v.len() {
            r.push(w);
            proof {
                assert(w@ == rest);
                assert(views(r@) == before.push(rest));
                assert(lines(v@.skip(e as int)) == Seq::<Seq<char>>::empty());
                assert(lines(rest) == seq![rest]);
                assert(before.push(rest) + Seq::<Seq<char>>::empty() == before + seq![rest]);
            }
            i = e;
        } else {
            assert(w@ == rest.take(e - i));
            if w.len() > 0 && w[w.len() - 1] == '\r' {
                w.pop();
            }
            r.push(w);
            proof {
                assert(w@ == without_return(rest.take(e - i)));
                assert(views(r@) == before.push(w@));
                assert(rest.skip(e - i + 1) == v@.skip(e as int + 1));
                assert(before.push(w@) + lines(v@.skip(e as int + 1)) == before + (seq![w@]
                    + lines(v@.skip(e as int + 1))));
            }
            i = e + 1;
        }
    }
    assert(views(r@) + lines(v@.skip(i as int)) == views(r@));
    r
}

// ---------------------------------------------------------------------------
// Searching
// ---------------------------------------------------------------------------

/// Whether `pat` stands in `s` at `i`.
pub open spec fn occurs_at(s: Seq<char>, pat: Seq<char>, i: int) -> bool {
    0 <= i && i + pat.len() <= s.len() && s.subrange(i, i + pat.len()) == pat
}

/// Whether `i` is the first place where `pat` stands in `s`.
pub open spec fn first_at(s: Seq<char>, pat: Seq<char>, i: int) -> bool {
    occurs_at(s, pat, i) && forall|j: int| 0 <= j < i ==> !#[trigger] occurs_at(s, pat, j)
}

/// Whether `pat` stands at `i`.
pub fn occurs(v: &[char], pat: &[char], i: usize) -> (r: bool)
    ensures
        r == occurs_at(v@, pat@, i as int),
{
    if i > v.len() || pat.len() > v.len() - i {
        return false;
    }
    let mut j: usize = 0;
    while j < pat.len()
        invariant
            j <= pat.len(),
            i + pat.len() <= v.len(),
            forall|k: int| 0 <= k < j ==> v@[i + k] == #[trigger] pat@[k],
        decreases pat.len() - j,
    {
        if v[i + j] != pat[j] {
            assert(v@.subrange(i as int, i + pat@.len())[j as int] == v@[i + j]);
            return false;
        }
        j += 1;
    }
    assert(v@.subrange(i as int, i + pat@.len()) =~= pat@);
    true
}

/// The first place where `pat` stands.
pub fn find(v: &[char], pat: &[char]) -> (r: Option<usize>)
    ensures
        match r {
            Some(i) => first_at(v@, pat@, i as int),
            None => forall|i: int| !occurs_at(v@, pat@, i),
        },
{
    let mut i: usize = 0;
    while i < v.len()
        invariant
            i <= v.len(),
            forall|j: int| 0 <= j < i ==> !#[trigger] occurs_at(v@, pat@, j),
        decreases v.len() - i,
    {
        if occurs(v, pat, i) {
            return Some(i);
        }
        i += 1;
    }
    if occurs(v, pat, i) {
        return Some(i);
    }
    None
}

// ---------------------------------------------------------------------------
// Order
// ---------------------------------------------------------------------------

/// Lexicographic order by code point, which is also the order of the UTF-8
/// encodings.
pub open spec fn precedes(a: Seq<char>, b: Seq<char>) -> bool
    decreases a.len(),
{
    if b.len() == 0 {
        false
    } else if a.len() == 0 {
        true
    } else if a[0] != b[0] {
        a[0] < b[0]
    } else {
        precedes(a.skip(1), b.skip(1))
    }
}

/// No text precedes itself.
pub proof fn lemma_precedes_irreflexive(a: Seq<char>)
    ensures
        !precedes(a, a),
    decreases a.len(),
{
    if a.len() > 0 {
        lemma_precedes_irreflexive(a.skip(1));
    }
}

/// The order is transitive.
pub proof fn lemma_precedes_transitive(a: Seq<char>, b: Seq<char>, c: Seq<char>)
    requires
        precedes(a, b),
        precedes(b, c),
    ensures
        precedes(a, c),
    decreases a.len(),
{
    if a.len() > 0 && a[0] == b[0] && b[0] == c[0] {
        lemma_precedes_transitive(a.skip(1), b.skip(1), c.skip(1));
    }
}

/// Of two different texts one precedes the other.
pub proof fn lemma_precedes_total(a: Seq<char>, b: Seq<char>)
    ensures
        a == b || precedes(a, b) || precedes(b, a),
    decreases a.len(),
{
    if a.len() == 0 || b.len() == 0 {
        if a.len() == 0 && b.len() == 0 {
            assert(a =~= b);
        }
    } else if a[0] == b[0] {
        lemma_precedes_total(a.skip(1), b.skip(1));
        if a.skip(1) == b.skip(1) {
            assert forall|i: int| 0 <= i < a.len() implies a[i] == b[i] by {
                if i > 0 {
                    assert(a.skip(1)[i - 1] == b.skip(1)[i - 1]);
                }
            }
            assert(a.len() == a.skip(1).len() + 1);
            assert(b.len() == b.skip(1).len() + 1);
            assert(a =~= b);
        }
    }
}

/// How two texts compare.
#[derive(Debug, Clone, Copy, PartialEq, Eq, Structural)]
pub enum Order {
    Before,
    Same,
    After,
}

/// Compares two texts by code point.
pub fn order(a: &[char], b: &[char]) -> (r: Order)
    ensures
        match r {
            Order::Before => precedes(a@, b@),
            Order::Same => a@ == b@,
            Order::After => precedes(b@, a@),
        },
{
    let mut i: usize = 0;
    assert(a@.skip(0) == a@);
    assert(b@.skip(0) == b@);
    while i < a.len() && i < b.len()
        invariant
            i <= a.len(),
            i <= b.len(),
            forall|j: int| 0 <= j < i ==> a@[j] == b@[j],
            precedes(a@, b@) == precedes(a@.skip(i as int), b@.skip(i as int)),
            precedes(b@, a@) == precedes(b@.skip(i as int), a@.skip(i as int)),
        decreases a.len() - i,
    {
        let x: char = a[i];
        let y: char = b[i];
        proof {
            assert(a@.skip(i as int)[0] == x);
            assert(b@.skip(i as int)[0] == y);
            assert(a@.skip(i as int).skip(1) == a@.skip(i as int + 1));
            assert(b@.skip(i as int).skip(1) == b@.skip(i as int + 1));
        }
        if x < y {
            return Order::Before;
        }
        if y < x {
            return Order::After;
        }
        i += 1;
    }
    if i < b.len() {
        Order::Before
    } else if i < a.len() {
        Order::After
    } else {
        assert(a@ =~= b@);
        Order::Same
    }
}

// ---------------------------------------------------------------------------
// Numbers
// ---------------------------------------------------------------------------

/// The decimal digit with that value.
pub open spec fn digit(d: nat) -> char {
    (48 + d) as char
}

/// A number in decimal, without leading zeros.
pub open spec fn decimal(n: nat) -> Seq<char>
    decreases n,
{
    if n < 10 {
        seq![digit(n)]
    } else {
        decimal(n / 10).push(digit(n % 10))
    }
}

/// Numbers that are written alike are the same.
pub proof fn lemma_decimal_tells_apart(a: nat, b: nat)
    requires
        decimal(a) == decimal(b),
    ensures
        a == b,
    decreases a,
{
    assert(decimal(a).last() == digit(a % 10));
    assert(decimal(b).last() == digit(b % 10));
    if a >= 10 && b >= 10 {
        assert(decimal(a).drop_last() == decimal(a / 10));
        assert(decimal(b).drop_last() == decimal(b / 10));
        lemma_decimal_tells_apart(a / 10, b / 10);
    } else if a >= 10 {
        lemma_decimal_len(a / 10);
    } else if b >= 10 {
        lemma_decimal_len(b / 10);
    }
}

proof fn lemma_decimal_len(n: nat)
    ensures
        decimal(n).len() > 0,
{
}

/// A number in decimal.
pub fn decimal_of(n: u64) -> (r: Vec<char>)
    ensures
        r@ == decimal(n as nat),
    decreases n,
{
    let d: u8 = (n % 10) as u8;
    let c: char = (48 + d) as char;
    if n < 10 {
        let mut r: Vec<char> = Vec::new();
        r.push(c);
        assert(r@ =~= decimal(n as nat));
        r
    } else {
        let mut r: Vec<char> = decimal_of(n / 10);
        r.push(c);
        r
    }
}

/// A number in decimal, with zeros in front up to the given width.
pub open spec fn zero_padded(n: nat, width: nat) -> Seq<char> {
    let digits = decimal(n);
    if digits.len() < width {
        Seq::new((width - digits.len()) as nat, |i: int| '0') + digits
    } else {
        digits
    }
}

/// A number in decimal, at least `width` characters wide.
pub fn zero_padded_of(n: u64, width: usize) -> (r: Vec<char>)
    ensures
        r@ == zero_padded(n as nat, width as nat),
{
    let digits: Vec<char> = decimal_of(n);
    let mut r: Vec<char> = Vec::new();
    if digits.len() < width {
        let missing: usize = width - digits.len();
        let mut i: usize = 0;
        while i < missing
            invariant
                i <= missing,
                r@ == Seq::new(i as nat, |k: int| '0'),
            decreases missing - i,
        {
            r.push('0');
            i += 1;
        }
    }
    append(&mut r, digits.as_slice());
    assert(r@ =~= zero_padded(n as nat, width as nat));
    r
}

/// A hexadecimal digit, in capitals.
pub open spec fn hex_digit(d: nat) -> char {
    if d < 10 {
        ('0' as nat + d) as char
    } else {
        ('A' as nat + (d - 10)) as char
    }
}

/// A number in hexadecimal, in capitals, with zeros in front up to a width.
pub open spec fn hex(n: nat, width: nat) -> Seq<char>
    decreases n, width,
{
    if n < 16 && width <= 1 {
        seq![hex_digit(n)]
    } else {
        hex(
            n / 16,
            if width > 0 {
                (width - 1) as nat
            } else {
                0
            },
        ).push(hex_digit(n % 16))
    }
}

/// Writes a number in hexadecimal.
pub fn hex_of(n: u64, width: usize) -> (r: Vec<char>)
    ensures
        r@ == hex(n as nat, width as nat),
    decreases n, width,
{
    let d: u8 = (n % 16) as u8;
    let c: char = if d < 10 {
        (48 + d) as char
    } else {
        (55 + d) as char
    };
    assert(c == hex_digit((n % 16) as nat));
    if n < 16 && width <= 1 {
        let mut r: Vec<char> = Vec::new();
        r.push(c);
        assert(r@ =~= hex(n as nat, width as nat));
        r
    } else {
        let mut r: Vec<char> = hex_of(
            n / 16,
            if width > 0 {
                width - 1
            } else {
                0
            },
        );
        r.push(c);
        r
    }
}

/// The number that decimal digits write; `None` if there is anything else.
pub open spec fn decimal_value(s: Seq<char>) -> Option<nat>
    decreases s.len(),
{
    if s.len() == 0 {
        Some(0)
    } else {
        let c = s.last();
        match decimal_value(s.drop_last()) {
            Some(n) => if '0' <= c <= '9' {
                Some(10 * n + (c as nat - '0' as nat) as nat)
            } else {
                None
            },
            None => None,
        }
    }
}

/// The number that a text writes as `usize` reads it: decimal digits, at least
/// one, behind an optional plus sign, of a value that fits.
pub open spec fn number(s: Seq<char>) -> Option<usize> {
    let digits = if s.len() > 0 && s[0] == '+' {
        s.skip(1)
    } else {
        s
    };
    match decimal_value(digits) {
        Some(n) => if digits.len() > 0 && n <= usize::MAX {
            Some(n as usize)
        } else {
            None
        },
        None => None,
    }
}

/// Zeros in front do not count.
proof fn lemma_leading_zeros(zeros: nat, s: Seq<char>)
    ensures
        decimal_value(Seq::new(zeros, |i: int| '0') + s) == decimal_value(s),
    decreases s.len(), zeros,
{
    let z = Seq::new(zeros, |i: int| '0');
    if s.len() > 0 {
        lemma_leading_zeros(zeros, s.drop_last());
        assert((z + s).drop_last() == z + s.drop_last());
        assert((z + s).last() == s.last());
    } else {
        assert(z + s == z);
        if zeros > 0 {
            let fewer = (zeros - 1) as nat;
            lemma_leading_zeros(fewer, s);
            assert(z.drop_last() == Seq::new(fewer, |i: int| '0'));
            assert(Seq::new(fewer, |i: int| '0') + s == Seq::new(fewer, |i: int| '0'));
            assert(z.last() == '0');
        }
    }
}

/// A number that is written down reads back as itself, whatever width it is
/// brought to; without that, it starts with no zero unless it is zero.
pub proof fn law_numbers_read_back(n: nat, width: nat)
    ensures
        decimal_value(decimal(n)) == Some(n),
        decimal(n).len() > 0,
        n > 0 ==> decimal(n)[0] != '0',
        n == 0 ==> decimal(n) == seq!['0'],
        decimal_value(zero_padded(n, width)) == Some(n),
        zero_padded(n, width).len() == if decimal(n).len() < width {
            width
        } else {
            decimal(n).len()
        },
    decreases n,
{
    let d = decimal(n);
    if n < 10 {
        assert(d.drop_last().len() == 0);
        assert(decimal_value(d.drop_last()) == Some(0nat));
        assert(d.last() == digit(n));
    } else {
        law_numbers_read_back(n / 10, 0);
        assert(d.drop_last() == decimal(n / 10));
        assert(d.last() == digit(n % 10));
        assert(d[0] == decimal(n / 10)[0]);
    }
    if d.len() < width {
        lemma_leading_zeros((width - d.len()) as nat, d);
    }
}

/// How wide a small number is.
pub proof fn lemma_decimal_width(n: nat)
    ensures
        n < 10 ==> decimal(n).len() == 1,
        n < 100 ==> decimal(n).len() <= 2,
        n < 1000 ==> decimal(n).len() <= 3,
        n < 10_000 ==> decimal(n).len() <= 4,
{
    reveal_with_fuel(decimal, 5);
}

/// The number that hexadecimal digits write.
pub open spec fn hex_value(s: Seq<char>) -> nat
    decreases s.len(),
{
    if s.len() == 0 {
        0
    } else {
        let c = s.last();
        let d = if '0' <= c <= '9' {
            c as nat - '0' as nat
        } else {
            10 + (c as nat - 'A' as nat)
        };
        (16 * hex_value(s.drop_last()) + d) as nat
    }
}

/// A number in hexadecimal reads back as itself, in digits and capitals up to F,
/// at least as many as the width.
pub proof fn law_hex_reads_back(n: nat, width: nat)
    ensures
        hex_value(hex(n, width)) == n,
        hex(n, width).len() >= width,
        hex(n, width).len() > 0,
        forall|i: int|
            0 <= i < hex(n, width).len() ==> '0' <= #[trigger] hex(n, width)[i] <= '9' || 'A' <= hex(
                n,
                width,
            )[i] <= 'F',
    decreases n, width,
{
    let h = hex(n, width);
    if n < 16 && width <= 1 {
        assert(h.drop_last().len() == 0);
        assert(hex_value(h.drop_last()) == 0);
        assert(h.last() == hex_digit(n));
    } else {
        let w = if width > 0 {
            (width - 1) as nat
        } else {
            0
        };
        law_hex_reads_back(n / 16, w);
        assert(h.drop_last() == hex(n / 16, w));
        assert(h.last() == hex_digit(n % 16));
        assert forall|i: int| 0 <= i < h.len() implies '0' <= #[trigger] h[i] <= '9' || 'A' <= h[i]
            <= 'F' by {
            if i < h.len() - 1 {
                assert(h[i] == hex(n / 16, w)[i]);
            }
        }
    }
}

/// More digits never write a smaller number.
proof fn lemma_decimal_value_grows(s: Seq<char>, n: int)
    requires
        0 <= n <= s.len(),
        decimal_value(s) is Some,
    ensures
        decimal_value(s.take(n)) is Some,
        decimal_value(s.take(n))->0 <= decimal_value(s)->0,
    decreases s.len(),
{
    if n == s.len() {
        assert(s.take(n) == s);
    } else {
        assert(s.take(n) == s.drop_last().take(n));
        lemma_decimal_value_grows(s.drop_last(), n);
    }
}

/// Reads a number.
pub fn parse_number(v: &[char]) -> (r: Option<usize>)
    ensures
        r == number(v@),
{
    let start: usize = if v.len() > 0 && v[0] == '+' {
        1
    } else {
        0
    };
    let ghost digits = v@.skip(start as int);
    assert(v@.skip(0) == v@);
    if v.len() == start {
        return None;
    }
    let mut n: usize = 0;
    let mut i: usize = start;
    assert(digits.take(0).len() == 0);
    while i < v.len()
        invariant
            start <= i <= v.len(),
            start < v.len(),
            digits == v@.skip(start as int),
            decimal_value(digits.take(i - start)) == Some(n as nat),
            number(v@) == match decimal_value(digits) {
                Some(m) => if m <= usize::MAX {
                    Some(m as usize)
                } else {
                    None
                },
                None => None,
            },
        decreases v.len() - i,
    {
        let c: char = v[i];
        proof {
            let more = digits.take(i + 1 - start);
            assert(more.drop_last() == digits.take(i - start));
            assert(more.last() == c);
            if decimal_value(digits) is Some {
                lemma_decimal_value_grows(digits, i + 1 - start);
            }
        }
        if c < '0' || '9' < c {
            return None;
        }
        let d: usize = (c as u32 - '0' as u32) as usize;
        if n > usize::MAX / 10 {
            return None;
        }
        let tens: usize = 10 * n;
        if d > usize::MAX - tens {
            return None;
        }
        n = tens + d;
        i += 1;
    }
    assert(digits.take(i - start) == digits);
    Some(n)
}

/// The encoding of two texts in a row.
pub proof fn lemma_encode_concat(a: Seq<char>, b: Seq<char>)
    ensures
        encode_utf8(a + b) == encode_utf8(a) + encode_utf8(b),
    decreases a.len(),
{
    if a.len() == 0 {
        assert(a + b == b);
        assert(encode_utf8(a) + encode_utf8(b) == encode_utf8(b));
    } else {
        lemma_encode_concat(a.drop_first(), b);
        assert((a + b).drop_first() == a.drop_first() + b);
        assert((a + b)[0] == a[0]);
        let head = vstd::utf8::encode_scalar(a[0] as u32);
        assert(head + (encode_utf8(a.drop_first()) + encode_utf8(b)) == (head + encode_utf8(
            a.drop_first(),
        )) + encode_utf8(b));
    }
}

} // verus!
