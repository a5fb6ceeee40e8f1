//! Whisper's tokenizer: GPT-2 byte-level byte-pair encoding, both directions.
//!
//! Token strings in `vocab.json` are byte sequences mapped through GPT-2's
//! printable-unicode table (space is U+0120, and so on). Decoding is that table
//! run backwards, then UTF-8. Encoding needs the merge rules of `merges.txt`;
//! without them the tokenizer still decodes.

use crate::text::{
    append, chars_of, flat, is_letter, is_number, is_white, lemma_encode_concat, lemma_flat_concat, lemma_flat_one, lemma_flat_push,
    index_of, lines, occurs, occurs_at, part, run_until, split_lines, string_of, texts, trimmed,
    trim_bounds, views,
};
use crate::json::{entry_views, parse_ids, parsed_ids};
use std::collections::HashMap;
use vstd::hash_map::StringHashMap;
use vstd::prelude::*;
use vstd::utf8::{decode_utf8, encode_utf8, valid_utf8};

verus! {

// ---------------------------------------------------------------------------
// The byte table
// ---------------------------------------------------------------------------

/// Bytes that stand for themselves in the table.
pub open spec fn printable(b: int) -> bool {
    0x21 <= b <= 0x7E || 0xA1 <= b <= 0xAC || 0xAE <= b <= 0xFF
}

/// How many of the bytes below `b` are not printable.
pub open spec fn unprintable_below(b: int) -> int
    decreases b,
{
    if b <= 0 {
        0
    } else if printable(b - 1) {
        unprintable_below(b - 1)
    } else {
        1 + unprintable_below(b - 1)
    }
}

/// The character that stands for a byte: the byte's own code point where it is
/// printable, and otherwise the next code point from 256 on.
pub open spec fn byte_code(b: int) -> int {
    if printable(b) {
        b
    } else {
        256 + unprintable_below(b)
    }
}

/// The character that stands for a byte.
pub open spec fn byte_char(b: u8) -> char {
    byte_code(b as int) as char
}

/// The byte that a character stands for, if any.
pub open spec fn char_byte(c: char) -> Option<u8> {
    if exists|b: u8| byte_char(b) == c {
        Some(choose|b: u8| byte_char(b) == c)
    } else {
        None
    }
}

/// The count of unprintable bytes, written out.
proof fn lemma_unprintable_below(b: int)
    requires
        0 <= b <= 256,
    ensures
        b <= 0x21 ==> unprintable_below(b) == b,
        0x21 <= b <= 0x7F ==> unprintable_below(b) == 0x21,
        0x7F <= b <= 0xA1 ==> unprintable_below(b) == 0x21 + (b - 0x7F),
        0xA1 <= b <= 0xAD ==> unprintable_below(b) == 0x43,
        0xAE <= b ==> unprintable_below(b) == 0x44,
    decreases b,
{
    if b > 0 {
        lemma_unprintable_below(b - 1);
    }
}

/// Different bytes have different characters.
proof fn lemma_byte_char_injective(a: u8, b: u8)
    requires
        byte_char(a) == byte_char(b),
    ensures
        a == b,
{
    lemma_unprintable_below(a as int);
    lemma_unprintable_below(b as int);
}

/// The table run backwards undoes the table.
pub proof fn lemma_char_byte_of_byte_char(b: u8)
    ensures
        char_byte(byte_char(b)) == Some(b),
{
    let c = byte_char(b);
    assert(exists|x: u8| byte_char(x) == c);
    let x = choose|x: u8| byte_char(x) == c;
    lemma_byte_char_injective(x, b);
}

/// Every byte has a character of its own: the printable ones stand for themselves,
/// and the others, in their order, have the code points from 256 on.
pub proof fn law_bytes_have_these_characters(b: u8)
    ensures
        0x21 <= b <= 0x7E || 0xA1 <= b <= 0xAC || 0xAE <= b ==> byte_code(b as int) == b,
        b <= 0x20 ==> byte_code(b as int) == 256 + b,
        0x7F <= b <= 0xA0 ==> byte_code(b as int) == 256 + 33 + (b - 0x7F),
        b == 0xAD ==> byte_code(b as int) == 256 + 67,
        char_byte(byte_char(b)) == Some(b),
{
    lemma_unprintable_below(b as int);
    lemma_char_byte_of_byte_char(b);
}

/// GPT-2's `bytes_to_unicode`: the 256 byte values as printable characters.
pub fn bytes_to_unicode() -> (table: Vec<char>)
    ensures
        table.len() == 256,
        forall|b: u8| #[trigger] table@[b as int] == byte_char(b),
{
    let mut table: Vec<char> = Vec::new();
    let mut next: u32 = 256;
    let mut b: u32 = 0;
    while b < 256
        invariant
            b <= 256,
            table.len() == b,
            next == 256 + unprintable_below(b as int),
            forall|x: int| 0 <= x < b ==> #[trigger] table@[x] == byte_code(x) as char,
        decreases 256 - b,
    {
        proof {
            lemma_unprintable_below(b as int);
            lemma_unprintable_below(b as int + 1);
        }
        let code: u32 = if (0x21 <= b && b <= 0x7E) || (0xA1 <= b && b <= 0xAC) || 0xAE <= b {
            b
        } else {
            next += 1;
            next - 1
        };
        match char::from_u32(code) {
            Some(c) => {
                proof {
                    vstd::utf8::char_u32_cast(c, code);
                }
                assert(c == byte_code(b as int) as char);
                table.push(c);
            },
            None => {
                assert(false);
            },
        }
        b += 1;
    }
    table
}

/// The byte that a character stands for.
pub fn byte_of(c: char) -> (r: Option<u8>)
    ensures
        r == char_byte(c),
{
    let code: u32 = c as u32;
    let found: Option<u8> = if (0x21 <= code && code <= 0x7E) || (0xA1 <= code && code <= 0xAC) || (
    0xAE <= code && code <= 0xFF) {
        Some(code as u8)
    } else if 0x100 <= code && code <= 0x120 {
        Some((code - 0x100) as u8)
    } else if 0x121 <= code && code <= 0x142 {
        Some((code - 0x121 + 0x7F) as u8)
    } else if code == 0x143 {
        Some(0xADu8)
    } else {
        None
    };
    proof {
        match found {
            Some(b) => {
                lemma_unprintable_below(b as int);
                assert(byte_char(b) == c);
                lemma_char_byte_of_byte_char(b);
            },
            None => {
                if exists|b: u8| byte_char(b) == c {
                    let b = choose|b: u8| byte_char(b) == c;
                    lemma_unprintable_below(b as int);
                    assert(false);
                }
            },
        }
    }
    found
}

// ---------------------------------------------------------------------------
// The pre-tokenizer
// ---------------------------------------------------------------------------

/// The character classes of the pre-tokenizer pattern.
#[derive(Debug, PartialEq, Eq, Clone, Copy, Structural)]
pub enum Class {
    Letter,
    Number,
    Space,
    Other,
}

/// Circled and squared letters, which are symbols though they count as
/// alphabetic.
pub open spec fn is_enclosed(c: char) -> bool {
    ||| '\u{24B6}' <= c <= '\u{24E9}'
    ||| '\u{1F130}' <= c <= '\u{1F149}'
    ||| '\u{1F150}' <= c <= '\u{1F169}'
    ||| '\u{1F170}' <= c <= '\u{1F189}'
}

/// The class of a character, by its Unicode category. A number that also counts
/// as alphabetic, such as a Roman numeral, is a number, and an enclosed letter is
/// a symbol. Letters are otherwise told by the `Alphabetic` property, which takes
/// in some combining marks beside them.
pub open spec fn class_of(c: char) -> Class {
    if is_number(c) {
        Class::Number
    } else if is_letter(c) && !is_enclosed(c) {
        Class::Letter
    } else if is_white(c) {
        Class::Space
    } else {
        Class::Other
    }
}

/// The class of a character.
pub fn char_class(c: char) -> (r: Class)
    ensures
        r == class_of(c),
{
    if c.is_numeric() {
        Class::Number
    } else if c.is_alphabetic() && !enclosed(c) {
        Class::Letter
    } else if c.is_whitespace() {
        Class::Space
    } else {
        Class::Other
    }
}

fn enclosed(c: char) -> (r: bool)
    ensures
        r == is_enclosed(c),
{
    ('\u{24B6}' <= c && c <= '\u{24E9}') || ('\u{1F130}' <= c && c <= '\u{1F149}') || (
    '\u{1F150}' <= c && c <= '\u{1F169}') || ('\u{1F170}' <= c && c <= '\u{1F189}')
}

/// How many characters of the class stand at the front.
pub open spec fn class_run(s: Seq<char>, class: Class) -> nat
    decreases s.len(),
{
    if s.len() > 0 && class_of(s[0]) == class {
        1 + class_run(s.skip(1), class)
    } else {
        0
    }
}

/// How many whitespace characters stand at the front.
pub open spec fn white_run(s: Seq<char>) -> nat
    decreases s.len(),
{
    if s.len() > 0 && is_white(s[0]) {
        1 + white_run(s.skip(1))
    } else {
        0
    }
}

/// The length of the contraction at the front (`'s`, `'t`, `'re`, `'ve`, `'m`,
/// `'ll`, `'d`), or 0.
pub open spec fn contraction_len(s: Seq<char>) -> nat {
    if s.len() >= 1 && s[0] == '\'' {
        if s.len() >= 3 && ((s[1] == 'r' && s[2] == 'e') || (s[1] == 'v' && s[2] == 'e') || (s[1]
            == 'l' && s[2] == 'l')) {
            3
        } else if s.len() >= 2 && (s[1] == 's' || s[1] == 't' || s[1] == 'm' || s[1] == 'd') {
            2
        } else {
            0
        }
    } else {
        0
    }
}

/// The length of the first piece, by GPT-2's pattern
/// `'s|'t|'re|'ve|'m|'ll|'d| ?\p{L}+| ?\p{N}+| ?[^\s\p{L}\p{N}]+|\s+(?!\S)|\s+`:
/// a contraction; else an optional space and a run of one class; else a run of
/// whitespace, of which the last character is left to the next piece if
/// something follows.
pub open spec fn first_piece_len(s: Seq<char>) -> nat {
    let lead: int = if s[0] == ' ' && s.len() > 1 {
        1
    } else {
        0
    };
    let class = class_of(s[lead]);
    if contraction_len(s) > 0 {
        contraction_len(s)
    } else if class != Class::Space {
        (lead + class_run(s.skip(lead), class)) as nat
    } else if white_run(s) < s.len() && white_run(s) > 1 {
        (white_run(s) - 1) as nat
    } else {
        white_run(s)
    }
}

/// A run counted from its characters.
proof fn lemma_class_run(s: Seq<char>, class: Class)
    ensures
        class_run(s, class) <= s.len(),
    decreases s.len(),
{
    if s.len() > 0 && class_of(s[0]) == class {
        lemma_class_run(s.skip(1), class);
    }
}

proof fn lemma_class_run_is(s: Seq<char>, class: Class, n: int)
    requires
        0 <= n <= s.len(),
        forall|i: int| 0 <= i < n ==> class_of(#[trigger] s[i]) == class,
        n < s.len() ==> class_of(s[n]) != class,
    ensures
        class_run(s, class) == n,
    decreases n,
{
    if n > 0 {
        let t = s.skip(1);
        assert forall|i: int| 0 <= i < n - 1 implies class_of(#[trigger] t[i]) == class by {
            assert(t[i] == s[i + 1]);
        }
        lemma_class_run_is(t, class, n - 1);
        assert(class_of(s[0]) == class);
    }
}

proof fn lemma_white_run(s: Seq<char>)
    ensures
        white_run(s) <= s.len(),
    decreases s.len(),
{
    if s.len() > 0 && is_white(s[0]) {
        lemma_white_run(s.skip(1));
    }
}

proof fn lemma_white_run_is(s: Seq<char>, n: int)
    requires
        0 <= n <= s.len(),
        forall|i: int| 0 <= i < n ==> is_white(#[trigger] s[i]),
        n < s.len() ==> !is_white(s[n]),
    ensures
        white_run(s) == n,
    decreases n,
{
    if n > 0 {
        let t = s.skip(1);
        assert forall|i: int| 0 <= i < n - 1 implies is_white(#[trigger] t[i]) by {
            assert(t[i] == s[i + 1]);
        }
        lemma_white_run_is(t, n - 1);
        assert(is_white(s[0]));
    }
}

/// A piece is never empty and never reaches past the end.
pub proof fn lemma_first_piece_len(s: Seq<char>)
    requires
        s.len() > 0,
    ensures
        1 <= first_piece_len(s) <= s.len(),
{
    let lead: int = if s[0] == ' ' && s.len() > 1 {
        1
    } else {
        0
    };
    let class = class_of(s[lead]);
    lemma_class_run(s.skip(lead), class);
    lemma_white_run(s);
    assert(s.skip(lead)[0] == s[lead]);
    if class == Class::Space {
        assert(is_white(s[0]));
    }
}

/// The pieces of a text.
pub open spec fn pieces(s: Seq<char>) -> Seq<Seq<char>>
    decreases s.len(),
{
    if s.len() == 0 {
        Seq::empty()
    } else {
        let n = first_piece_len(s) as int;
        proof {
            lemma_first_piece_len(s);
        }
        seq![s.take(n)] + pieces(s.skip(n))
    }
}

/// The pieces of a text are the text: nothing is lost and nothing is added.
pub proof fn law_pieces_are_the_text(s: Seq<char>)
    ensures
        flat(pieces(s)) == s,
        forall|i: int| 0 <= i < pieces(s).len() ==> #[trigger] pieces(s)[i].len() > 0,
    decreases s.len(),
{
    if s.len() > 0 {
        let n = first_piece_len(s) as int;
        lemma_first_piece_len(s);
        law_pieces_are_the_text(s.skip(n));
        let head = seq![s.take(n)];
        lemma_flat_concat(head, pieces(s.skip(n)));
        lemma_flat_one(s.take(n));
        assert(s.take(n) + s.skip(n) == s);
        assert forall|i: int| 0 <= i < pieces(s).len() implies #[trigger] pieces(s)[i].len()
            > 0 by {
            if i > 0 {
                assert(pieces(s)[i] == pieces(s.skip(n))[i - 1]);
            }
        }
    }
}

proof fn lemma_class_run_all(s: Seq<char>, class: Class)
    ensures
        class_run(s, class) <= s.len(),
        forall|i: int| 0 <= i < class_run(s, class) ==> class_of(#[trigger] s[i]) == class,
        class_run(s, class) < s.len() ==> class_of(s[class_run(s, class) as int]) != class,
    decreases s.len(),
{
    if s.len() > 0 && class_of(s[0]) == class {
        let t = s.skip(1);
        lemma_class_run_all(t, class);
        assert forall|i: int| 0 <= i < class_run(s, class) implies class_of(#[trigger] s[i])
            == class by {
            if i > 0 {
                assert(t[i - 1] == s[i]);
            }
        }
        if class_run(s, class) < s.len() {
            assert(t[class_run(t, class) as int] == s[class_run(s, class) as int]);
        }
    }
}

proof fn lemma_white_run_all(s: Seq<char>)
    ensures
        white_run(s) <= s.len(),
        forall|i: int| 0 <= i < white_run(s) ==> is_white(#[trigger] s[i]),
        white_run(s) < s.len() ==> !is_white(s[white_run(s) as int]),
    decreases s.len(),
{
    if s.len() > 0 && is_white(s[0]) {
        let t = s.skip(1);
        lemma_white_run_all(t);
        assert forall|i: int| 0 <= i < white_run(s) implies is_white(#[trigger] s[i]) by {
            if i > 0 {
                assert(t[i - 1] == s[i]);
            }
        }
        if white_run(s) < s.len() {
            assert(t[white_run(t) as int] == s[white_run(s) as int]);
        }
    }
}

/// What a piece is. A contraction is a piece of its own. Otherwise a piece is a
/// whole run of letters, of numbers or of other marks, with the space right in
/// front of it; or whitespace alone, all there is but for the last character where
/// something else follows.
pub proof fn law_a_piece_is_a_run(s: Seq<char>, k: int)
    requires
        s.len() > 0,
        0 <= k < first_piece_len(s),
    ensures
        ({
            let n = first_piece_len(s) as int;
            let lead = if s[0] == ' ' && s.len() > 1 {
                1int
            } else {
                0
            };
            let contracted = s.len() > 1 && s[0] == '\'' && (s[1] == 's' || s[1] == 't' || s[1] == 'm'
                || s[1] == 'd');
            let contracted_long = s.len() > 2 && s[0] == '\'' && ((s[1] == 'r' && s[2] == 'e') || (
            s[1] == 'v' && s[2] == 'e') || (s[1] == 'l' && s[2] == 'l'));
            let marked = class_of(s[lead]) != Class::Space;
            &&& contracted ==> n == 2
            &&& contracted_long ==> n == 3
            &&& !contracted && !contracted_long && marked ==> {
                &&& n > lead
                &&& k >= lead ==> class_of(s[k]) == class_of(s[lead])
                &&& n < s.len() ==> class_of(s[n]) != class_of(s[lead])
            }
            &&& !contracted && !contracted_long && !marked ==> {
                &&& is_white(s[k])
                &&& n < s.len() && is_white(s[n]) ==> n + 1 < s.len() && !is_white(s[n + 1])
                &&& n < s.len() && !is_white(s[n]) ==> n == 1
            }
        }),
{
    let lead = if s[0] == ' ' && s.len() > 1 {
        1int
    } else {
        0
    };
    let class = class_of(s[lead]);
    let t = s.skip(lead);
    lemma_first_piece_len(s);
    lemma_class_run_all(t, class);
    lemma_white_run_all(s);
    if contraction_len(s) == 0 && class != Class::Space {
        let n = first_piece_len(s) as int;
        if k >= lead {
            assert(t[k - lead] == s[k]);
        }
        if n < s.len() {
            assert(t[n - lead] == s[n]);
        }
        assert(t[0] == s[lead]);
    }
}

/// Where the piece that starts at `i` ends.
fn piece_end(v: &[char], i: usize) -> (e: usize)
    requires
        i < v.len(),
    ensures
        e == i + first_piece_len(v@.skip(i as int)),
        i < e <= v.len(),
{
    let n: usize = v.len();
    let c: char = v[i];
    let ghost s = v@.skip(i as int);
    proof {
        lemma_first_piece_len(s);
        assert(s[0] == c);
    }
    if c == '\'' {
        if n - i >= 3 {
            let (x, y): (char, char) = (v[i + 1], v[i + 2]);
            assert(s[1] == x && s[2] == y);
            if (x == 'r' && y == 'e') || (x == 'v' && y == 'e') || (x == 'l' && y == 'l') {
                return i + 3;
            }
        }
        if n - i >= 2 {
            let x: char = v[i + 1];
            assert(s[1] == x);
            if x == 's' || x == 't' || x == 'm' || x == 'd' {
                return i + 2;
            }
        }
    }
    // An optional single space, then a run of one class.
    let word: usize = if c == ' ' && n - i > 1 {
        i + 1
    } else {
        i
    };
    let class: Class = char_class(v[word]);
    assert(s[word - i] == v@[word as int]);
    if class != Class::Space {
        let mut j: usize = word;
        while j < n && char_class(v[j]) == class
            invariant
                word <= j <= n,
                n == v.len(),
                forall|k: int| word <= k < j ==> class_of(#[trigger] v@[k]) == class,
            decreases n - j,
        {
            j += 1;
        }
        proof {
            let t = s.skip(word - i);
            assert forall|k: int| 0 <= k < j - word implies class_of(#[trigger] t[k]) == class by {
                assert(t[k] == v@[word + k]);
            }
            if j < n {
                assert(t[j - word] == v@[j as int]);
            }
            lemma_class_run_is(t, class, j - word);
        }
        return j;
    }
    // Whitespace. The last of it is left to the next piece, if there is one.
    let mut j: usize = i;
    while j < n && v[j].is_whitespace()
        invariant
            i <= j <= n,
            n == v.len(),
            forall|k: int| i <= k < j ==> is_white(#[trigger] v@[k]),
        decreases n - j,
    {
        j += 1;
    }
    proof {
        assert forall|k: int| 0 <= k < j - i implies is_white(#[trigger] s[k]) by {
            assert(s[k] == v@[i + k]);
        }
        if j < n {
            assert(s[j - i] == v@[j as int]);
        }
        lemma_white_run_is(s, j - i);
    }
    if j < n && j - i > 1 {
        j - 1
    } else {
        j
    }
}

/// The pieces of a text, as characters.
fn split_pieces(v: &[char]) -> (r: Vec<Vec<char>>)
    ensures
        views(r@) == pieces(v@),
{
    let mut r: Vec<Vec<char>> = Vec::new();
    let mut i: usize = 0;
    assert(v@.skip(0) == v@);
    assert(views(r@) + pieces(v@) == pieces(v@));
    while i < v.len()
        invariant
            i <= v.len(),
            views(r@) + pieces(v@.skip(i as int)) == pieces(v@),
        decreases v.len() - i,
    {
        let e: usize = piece_end(v, i);
        let w: Vec<char> = part(v, i, e);
        let ghost before = views(r@);
        let ghost rest = v@.skip(i as int);
        r.push(w);
        proof {
            assert(w@ == rest.take(e - i));
            assert(rest.skip(e - i) == v@.skip(e as int));
            assert(views(r@) == before.push(w@));
            assert(before.push(w@) + pieces(v@.skip(e as int)) == before + (seq![w@] + pieces(
                v@.skip(e as int),
            )));
        }
        i = e;
    }
    assert(v@.skip(i as int).len() == 0);
    assert(views(r@) + pieces(v@.skip(i as int)) == views(r@));
    r
}

/// GPT-2's pre-tokenizer.
pub fn pre_tokenize(text: &str) -> (r: Vec<String>)
    ensures
        texts(r@) == pieces(text@),
{
    let v: Vec<char> = chars_of(text);
    let split: Vec<Vec<char>> = split_pieces(v.as_slice());
    let mut r: Vec<String> = Vec::new();
    let mut i: usize = 0;
    while i < split.len()
        invariant
            i <= split.len(),
            texts(r@) == views(split@).take(i as int),
        decreases split.len() - i,
    {
        let w: String = string_of(split[i].as_slice());
        let ghost before = texts(r@);
        r.push(w);
        proof {
            assert(texts(r@) == before.push(w@));
        }
        i += 1;
    }
    assert(views(split@).take(i as int) == views(split@));
    r
}

// ---------------------------------------------------------------------------
// Merge rules
// ---------------------------------------------------------------------------

/// Two symbols as one key. Neither symbol of a rule holds a space, so the key
/// names the pair.
pub open spec fn pair_key(a: Seq<char>, b: Seq<char>) -> Seq<char> {
    a.push(' ') + b
}

/// The merge rules of `merges.txt`: pairs of symbols by rank.
pub struct Merges {
    ranks: StringHashMap<usize>,
}

impl View for Merges {
    type V = Map<(Seq<char>, Seq<char>), usize>;

    closed spec fn view(&self) -> Map<(Seq<char>, Seq<char>), usize> {
        Map::new(
            |p: (Seq<char>, Seq<char>)| self.ranks@.contains_key(pair_key(p.0, p.1)),
            |p: (Seq<char>, Seq<char>)| self.ranks@[pair_key(p.0, p.1)],
        )
    }
}

/// A rule's key is the key of no other pair.
proof fn lemma_pair_key(a: Seq<char>, b: Seq<char>, l: Seq<char>, r: Seq<char>)
    requires
        pair_key(a, b) == pair_key(l, r),
        forall|i: int| 0 <= i < l.len() ==> l[i] != ' ',
        forall|i: int| 0 <= i < r.len() ==> r[i] != ' ',
    ensures
        a == l,
        b == r,
{
    let k = pair_key(a, b);
    assert(k.len() == a.len() + 1 + b.len());
    assert(k.len() == l.len() + 1 + r.len());
    assert(k[a.len() as int] == ' ');
    assert(k[l.len() as int] == ' ');
    if a.len() < l.len() {
        assert(pair_key(l, r)[a.len() as int] == l[a.len() as int]);
    } else if a.len() > l.len() {
        assert(pair_key(l, r)[a.len() as int] == r[a.len() - l.len() - 1]);
    }
    assert(a == k.take(a.len() as int));
    assert(l == k.take(l.len() as int));
    assert(b == k.skip(a.len() as int + 1));
    assert(r == k.skip(l.len() as int + 1));
}

impl Merges {
    /// No rules.
    pub fn new() -> (m: Merges)
        ensures
            m@ == Map::<(Seq<char>, Seq<char>), usize>::empty(),
    {
        let m = Merges { ranks: StringHashMap::new() };
        assert(m@ =~= Map::<(Seq<char>, Seq<char>), usize>::empty());
        m
    }

    /// Records the rank of a pair, in place of an earlier one.
    fn insert(&mut self, l: &[char], r: &[char], rank: usize)
        requires
            forall|i: int| 0 <= i < l@.len() ==> l@[i] != ' ',
            forall|i: int| 0 <= i < r@.len() ==> r@[i] != ' ',
        ensures
            final(self)@ == old(self)@.insert((l@, r@), rank),
    {
        let mut key: Vec<char> = Vec::new();
        append(&mut key, l);
        key.push(' ');
        append(&mut key, r);
        assert(key@ == pair_key(l@, r@));
        let ghost before = self.ranks@;
        self.ranks.insert(string_of(key.as_slice()), rank);
        proof {
            assert forall|p: (Seq<char>, Seq<char>)|
                p != (l@, r@) implies pair_key(p.0, p.1) != pair_key(l@, r@) by {
                if pair_key(p.0, p.1) == pair_key(l@, r@) {
                    lemma_pair_key(p.0, p.1, l@, r@);
                }
            }
            assert(self@ =~= old(self)@.insert((l@, r@), rank));
        }
    }

    /// The rank of a pair, if there is a rule for it.
    pub fn rank(&self, a: &[char], b: &[char]) -> (r: Option<usize>)
        ensures
            r is Some <==> self@.contains_key((a@, b@)),
            r matches Some(rank) ==> rank == self@[(a@, b@)],
    {
        let mut key: Vec<char> = Vec::new();
        append(&mut key, a);
        key.push(' ');
        append(&mut key, b);
        assert(key@ == pair_key(a@, b@));
        let key: String = string_of(key.as_slice());
        match self.ranks.get(key.as_str()) {
            Some(rank) => Some(*rank),
            None => None,
        }
    }
}

/// Whether a line of `merges.txt` counts: it is neither the version header nor
/// blank.
pub open spec fn is_rule(line: Seq<char>) -> bool {
    !occurs_at(line, "#version"@, 0) && trimmed(line).len() > 0
}

/// The two symbols of a rule: the first two fields between single spaces.
pub open spec fn rule_pair(line: Seq<char>) -> Option<(Seq<char>, Seq<char>)> {
    let n = run_until(line, ' ') as int;
    if n >= line.len() {
        None
    } else {
        let rest = line.skip(n + 1);
        Some((line.take(n), rest.take(run_until(rest, ' ') as int)))
    }
}

/// How many lines count.
pub open spec fn rule_count(lines: Seq<Seq<char>>) -> nat
    decreases lines.len(),
{
    if lines.len() == 0 {
        0
    } else if is_rule(lines.last()) {
        rule_count(lines.drop_last()) + 1
    } else {
        rule_count(lines.drop_last())
    }
}

/// The rank of each pair: how many lines that count precede it. The last line
/// for a pair decides.
pub open spec fn rule_ranks(lines: Seq<Seq<char>>) -> Map<(Seq<char>, Seq<char>), usize>
    decreases lines.len(),
{
    if lines.len() == 0 {
        Map::empty()
    } else {
        let before = rule_ranks(lines.drop_last());
        let line = lines.last();
        if is_rule(line) && rule_pair(line) is Some {
            before.insert(rule_pair(line)->0, rule_count(lines.drop_last()) as usize)
        } else {
            before
        }
    }
}

/// A rule is ranked by how many lines count before it. A line of two symbols and a
/// space between them is the rule for that pair; the version header and blank lines
/// are no rules and do not count.
pub proof fn law_rules_rank_by_their_line(
    lines: Seq<Seq<char>>,
    a: Seq<char>,
    b: Seq<char>,
    line: Seq<char>,
)
    requires
        forall|i: int| 0 <= i < a.len() ==> #[trigger] a[i] != ' ',
        forall|i: int| 0 <= i < b.len() ==> #[trigger] b[i] != ' ',
    ensures
        line.len() >= 8 && line.take(8) == "#version"@ || (forall|i: int|
            0 <= i < line.len() ==> is_white(#[trigger] line[i])) ==> rule_ranks(lines.push(line))
            == rule_ranks(lines) && rule_count(lines.push(line)) == rule_count(lines),
        !(a.len() >= 8 && a.take(8) == "#version"@) && (exists|i: int|
            0 <= i < a.len() && !is_white(#[trigger] a[i])) ==> rule_ranks(
            lines.push(a.push(' ') + b),
        ) == rule_ranks(lines).insert((a, b), rule_count(lines) as usize) && rule_count(
            lines.push(a.push(' ') + b),
        ) == rule_count(lines) + 1,
{
    reveal_strlit("#version");
    let header = "#version"@;
    assert(lines.push(line).drop_last() == lines);
    if line.len() >= 8 && line.take(8) == header {
        assert(line.subrange(0, 8) == header);
        assert(occurs_at(line, header, 0));
    }
    if forall|i: int| 0 <= i < line.len() ==> is_white(#[trigger] line[i]) {
        let from = crate::text::lemma_trimmed(line);
        if trimmed(line).len() > 0 {
            assert(trimmed(line)[0] == line[from]);
        }
    }
    let rule = a.push(' ') + b;
    assert(lines.push(rule).drop_last() == lines);
    if !(a.len() >= 8 && a.take(8) == header) && exists|i: int|
        0 <= i < a.len() && !is_white(#[trigger] a[i]) {
        if occurs_at(rule, header, 0) {
            assert forall|i: int| 0 <= i < 8 implies rule[i] == #[trigger] header[i] by {
                assert(rule.subrange(0, 8)[i] == rule[i]);
            }
            if a.len() < 8 {
                assert(rule[a.len() as int] == ' ');
                assert(header[a.len() as int] != ' ');
            } else {
                assert(a.take(8) == header);
            }
        }
        let i = choose|i: int| 0 <= i < a.len() && !is_white(#[trigger] a[i]);
        let from = crate::text::lemma_trimmed(rule);
        assert(rule[i] == a[i]);
        if trimmed(rule).len() == 0 {
            assert(is_white(rule[i]));
        }
        let n = a.len() as int;
        assert forall|j: int| 0 <= j < n implies #[trigger] rule[j] != ' ' by {
            assert(rule[j] == a[j]);
        }
        assert(rule[n] == ' ');
        crate::text::lemma_run_until_is(rule, ' ', n);
        assert(rule.take(n) == a);
        assert(rule.skip(n + 1) == b);
        crate::text::lemma_run_until_is(b, ' ', b.len() as int);
        assert(b.take(b.len() as int) == b);
        assert(rule_pair(rule) == Some((a, b)));
    }
}

/// Reads the merge rules.
pub fn parse_merges(text: &str) -> (r: Merges)
    ensures
        r@ == rule_ranks(lines(text@)),
{
    let v: Vec<char> = chars_of(text);
    let split: Vec<Vec<char>> = split_lines(v.as_slice());
    let header: Vec<char> = chars_of("#version");
    let mut r: Merges = Merges::new();
    let mut count: usize = 0;
    let mut i: usize = 0;
    let ghost all = views(split@);
    while i < split.len()
        invariant
            i <= split.len(),
            all == views(split@),
            header@ == "#version"@,
            count <= i,
            count == rule_count(all.take(i as int)),
            r@ == rule_ranks(all.take(i as int)),
        decreases split.len() - i,
    {
        let line: &[char] = split[i].as_slice();
        proof {
            assert(all.take(i as int + 1).drop_last() == all.take(i as int));
            assert(all.take(i as int + 1).last() == line@);
        }
        let (a, b): (usize, usize) = trim_bounds(line);
        assert(trimmed(line@).len() == b - a);
        if !occurs(line, header.as_slice(), 0) && a < b {
            let n: usize = index_of(line, 0, ' ');
            assert(line@.skip(0) == line@);
            if n < line.len() {
                let e: usize = index_of(line, n + 1, ' ');
                let left: Vec<char> = part(line, 0, n);
                let right: Vec<char> = part(line, n + 1, e);
                proof {
                    let rest = line@.skip(n as int + 1);
                    assert(left@ == line@.take(n as int));
                    assert(right@ == rest.take(e - (n + 1)));
                }
                r.insert(left.as_slice(), right.as_slice(), count);
            }
            count += 1;
        }
        i += 1;
    }
    assert(all.take(i as int) == all);
    r
}

/// Whether the pair at `i` has a rule.
pub open spec fn has_rule(
    word: Seq<Seq<char>>,
    ranks: Map<(Seq<char>, Seq<char>), usize>,
    i: int,
) -> bool {
    0 <= i < word.len() - 1 && ranks.contains_key((word[i], word[i + 1]))
}

/// The rank of the pair at `i`.
pub open spec fn rank_at(
    word: Seq<Seq<char>>,
    ranks: Map<(Seq<char>, Seq<char>), usize>,
    i: int,
) -> usize {
    ranks[(word[i], word[i + 1])]
}

/// Whether the pair at `i` is merged next: the lowest rank, and of equal ranks
/// the leftmost.
pub open spec fn merges_next(
    word: Seq<Seq<char>>,
    ranks: Map<(Seq<char>, Seq<char>), usize>,
    i: int,
) -> bool {
    &&& has_rule(word, ranks, i)
    &&& forall|j: int| #[trigger]
        has_rule(word, ranks, j) ==> rank_at(word, ranks, i) < rank_at(word, ranks, j) || (rank_at(
            word,
            ranks,
            i,
        ) == rank_at(word, ranks, j) && i <= j)
}

/// The word with the symbols at `i` and `i + 1` merged.
pub open spec fn merged_at(word: Seq<Seq<char>>, i: int) -> Seq<Seq<char>> {
    word.take(i).push(word[i] + word[i + 1]) + word.skip(i + 2)
}

/// A word's symbols after all merges, lowest-ranked pair first.
pub open spec fn merged(
    word: Seq<Seq<char>>,
    ranks: Map<(Seq<char>, Seq<char>), usize>,
) -> Seq<Seq<char>>
    decreases word.len(),
{
    if exists|i: int| merges_next(word, ranks, i) {
        let i = choose|i: int| merges_next(word, ranks, i);
        merged(merged_at(word, i), ranks)
    } else {
        word
    }
}

/// Merging two neighbours keeps the characters.
proof fn lemma_flat_merged_at(word: Seq<Seq<char>>, i: int)
    requires
        0 <= i < word.len() - 1,
    ensures
        flat(merged_at(word, i)) == flat(word),
{
    let head = word.take(i);
    let tail = word.skip(i + 2);
    lemma_flat_concat(head.push(word[i] + word[i + 1]), tail);
    lemma_flat_push(head, word[i] + word[i + 1]);
    lemma_flat_push(head, word[i]);
    lemma_flat_push(head.push(word[i]), word[i + 1]);
    lemma_flat_concat(head.push(word[i]).push(word[i + 1]), tail);
    assert(head.push(word[i]).push(word[i + 1]) + tail == word);
    assert((flat(head) + word[i]) + word[i + 1] == flat(head) + (word[i] + word[i + 1]));
}

/// Merging keeps the characters of a word, in order.
pub proof fn law_merging_keeps_the_characters(
    word: Seq<Seq<char>>,
    ranks: Map<(Seq<char>, Seq<char>), usize>,
)
    ensures
        flat(merged(word, ranks)) == flat(word),
    decreases word.len(),
{
    if exists|i: int| merges_next(word, ranks, i) {
        let i = choose|i: int| merges_next(word, ranks, i);
        lemma_flat_merged_at(word, i);
        law_merging_keeps_the_characters(merged_at(word, i), ranks);
    }
}

/// Merging goes by rank: of the neighbours that have a rule, those with the lowest
/// rank are joined first, the leftmost of them where several have it; and it goes
/// on until no neighbours have a rule.
pub proof fn law_merging_goes_by_rank(
    word: Seq<Seq<char>>,
    ranks: Map<(Seq<char>, Seq<char>), usize>,
    i: int,
)
    requires
        0 <= i < word.len() - 1,
        ranks.contains_key((word[i], word[i + 1])),
        forall|j: int|
            0 <= j < word.len() - 1 && ranks.contains_key((#[trigger] word[j], word[j + 1])) ==> ranks[(
                word[i],
                word[i + 1],
            )] < ranks[(word[j], word[j + 1])] || (ranks[(word[i], word[i + 1])] == ranks[(
                word[j],
                word[j + 1],
            )] && i <= j),
    ensures
        merged(word, ranks) == merged(
            word.subrange(0, i) + seq![word[i] + word[i + 1]] + word.subrange(
                i + 2,
                word.len() as int,
            ),
            ranks,
        ),
{
    assert(merges_next(word, ranks, i)) by {
        assert(has_rule(word, ranks, i));
        assert forall|j: int| #[trigger] has_rule(word, ranks, j) implies rank_at(word, ranks, i)
            < rank_at(word, ranks, j) || (rank_at(word, ranks, i) == rank_at(word, ranks, j) && i
            <= j) by {
            let left = word[j];
            assert(ranks.contains_key((left, word[j + 1])));
        }
    }
    let c = choose|c: int| merges_next(word, ranks, c);
    lemma_merges_next_unique(word, ranks, c, i);
    assert(merged_at(word, i) == word.subrange(0, i) + seq![word[i] + word[i + 1]] + word.subrange(
        i + 2,
        word.len() as int,
    ));
}

/// A place with the lowest rank, the leftmost of those, there is wherever there is
/// a rule.
proof fn lemma_some_merge_is_next(
    word: Seq<Seq<char>>,
    ranks: Map<(Seq<char>, Seq<char>), usize>,
    i: int,
)
    requires
        has_rule(word, ranks, i),
    ensures
        exists|j: int| merges_next(word, ranks, j),
    decreases rank_at(word, ranks, i), i,
{
    if !merges_next(word, ranks, i) {
        let j = choose|j: int| #[trigger]
            has_rule(word, ranks, j) && !(rank_at(word, ranks, i) < rank_at(word, ranks, j) || (
            rank_at(word, ranks, i) == rank_at(word, ranks, j) && i <= j));
        lemma_some_merge_is_next(word, ranks, j);
    }
}

/// No neighbours that have a rule are left.
pub proof fn law_merging_goes_to_the_end(
    word: Seq<Seq<char>>,
    ranks: Map<(Seq<char>, Seq<char>), usize>,
    i: int,
)
    requires
        0 <= i < merged(word, ranks).len() - 1,
    ensures
        !ranks.contains_key((merged(word, ranks)[i], merged(word, ranks)[i + 1])),
    decreases word.len(),
{
    if exists|j: int| merges_next(word, ranks, j) {
        let j = choose|j: int| merges_next(word, ranks, j);
        law_merging_goes_to_the_end(merged_at(word, j), ranks, i);
    } else if has_rule(word, ranks, i) {
        lemma_some_merge_is_next(word, ranks, i);
    }
}

/// The pair that is merged next, if any.
fn next_merge(word: &Vec<Vec<char>>, ranks: &Merges) -> (r: Option<usize>)
    ensures
        match r {
            Some(i) => merges_next(views(word@), ranks@, i as int),
            None => forall|i: int| !has_rule(views(word@), ranks@, i),
        },
{
    let ghost w = views(word@);
    let mut best: Option<(usize, usize)> = None;
    let mut i: usize = 0;
    while i + 1 < word.len()
        invariant
            i == 0 || i + 1 <= word.len(),
            w == views(word@),
            match best {
                Some((rank, at)) => {
                    &&& has_rule(w, ranks@, at as int)
                    &&& rank == rank_at(w, ranks@, at as int)
                    &&& at < i
                    &&& forall|j: int|
                        #![trigger has_rule(w, ranks@, j)]
                        j < i && has_rule(w, ranks@, j) ==> rank < rank_at(w, ranks@, j) || (rank
                            == rank_at(w, ranks@, j) && at <= j)
                },
                None => forall|j: int| j < i ==> !#[trigger] has_rule(w, ranks@, j),
            },
        decreases word.len() - i,
    {
        assert(w[i as int] == word@[i as int]@);
        assert(w[i as int + 1] == word@[i as int + 1]@);
        match ranks.rank(word[i].as_slice(), word[i + 1].as_slice()) {
            Some(rank) => {
                assert(has_rule(w, ranks@, i as int));
                match best {
                    Some((low, _)) => {
                        if rank < low {
                            best = Some((rank, i));
                        }
                    },
                    None => {
                        best = Some((rank, i));
                    },
                }
            },
            None => {
                assert(!has_rule(w, ranks@, i as int));
            },
        }
        i += 1;
    }
    match best {
        Some((_, at)) => Some(at),
        None => None,
    }
}

/// At most one pair is merged next.
proof fn lemma_merges_next_unique(
    word: Seq<Seq<char>>,
    ranks: Map<(Seq<char>, Seq<char>), usize>,
    i: int,
    j: int,
)
    requires
        merges_next(word, ranks, i),
        merges_next(word, ranks, j),
    ensures
        i == j,
{
    assert(has_rule(word, ranks, i));
    assert(has_rule(word, ranks, j));
}

/// Byte-pair merges a word's symbols, lowest-ranked pair first.
pub fn bpe(word: Vec<Vec<char>>, ranks: &Merges) -> (r: Vec<Vec<char>>)
    ensures
        views(r@) == merged(views(word@), ranks@),
{
    let mut word = word;
    let ghost start = views(word@);
    loop
        invariant
            merged(views(word@), ranks@) == merged(start, ranks@),
        ensures
            views(word@) == merged(start, ranks@),
        decreases word.len(),
    {
        match next_merge(&word, ranks) {
            Some(i) => {
                let ghost before = views(word@);
                proof {
                    let c = choose|c: int| merges_next(before, ranks@, c);
                    lemma_merges_next_unique(before, ranks@, c, i as int);
                }
                let mut both: Vec<char> = word.remove(i);
                let right: Vec<char> = word.remove(i);
                assert(both@ == before[i as int]);
                assert(right@ == before[i as int + 1]);
                append(&mut both, right.as_slice());
                word.insert(i, both);
                assert(views(word@) =~= merged_at(before, i as int));
            },
            None => {
                break;
            },
        }
    }
    word
}

// ---------------------------------------------------------------------------
// The tokenizer
// ---------------------------------------------------------------------------

/// The text of bytes that are not UTF-8 throughout.
pub uninterp spec fn repaired_text(bytes: Seq<u8>) -> Seq<char>;

/// The text of bytes: what they encode, where they are UTF-8.
pub open spec fn lossy_text(bytes: Seq<u8>) -> Seq<char> {
    if valid_utf8(bytes) {
        decode_utf8(bytes)
    } else {
        repaired_text(bytes)
    }
}

/// `String::from_utf8_lossy`, as an owned string: the text that the bytes
/// encode, and of bytes that are not UTF-8 a text that depends on them alone.
#[verifier::external_body]
fn utf8_lossy(bytes: &[u8]) -> (r: String)
    ensures
        r@ == (if valid_utf8(bytes@) {
            decode_utf8(bytes@)
        } else {
            repaired_text(bytes@)
        }),
{
    String::from_utf8_lossy(bytes).into_owned()
}

/// The bytes that a token's characters stand for; other characters stand for
/// nothing.
pub open spec fn token_bytes(token: Seq<char>) -> Seq<u8>
    decreases token.len(),
{
    if token.len() == 0 {
        Seq::empty()
    } else {
        match char_byte(token.last()) {
            Some(b) => token_bytes(token.drop_last()).push(b),
            None => token_bytes(token.drop_last()),
        }
    }
}

/// The bytes of a sequence of token ids. Ids from `first_special` on, and ids
/// without a token, give nothing.
pub open spec fn ids_bytes(
    tokens: Map<u32, Seq<char>>,
    ids: Seq<u32>,
    first_special: u32,
) -> Seq<u8>
    decreases ids.len(),
{
    if ids.len() == 0 {
        Seq::empty()
    } else {
        let before = ids_bytes(tokens, ids.drop_last(), first_special);
        let id = ids.last();
        if id < first_special && tokens.contains_key(id) {
            before + token_bytes(tokens[id])
        } else {
            before
        }
    }
}

/// Ids are read one after the other; those of special tokens, which come last in
/// the vocabulary, and those without a token say nothing.
pub proof fn law_ids_are_read_in_turn(
    tokens: Map<u32, Seq<char>>,
    a: Seq<u32>,
    id: u32,
    b: Seq<u32>,
    first_special: u32,
)
    ensures
        id >= first_special || !tokens.contains_key(id) ==> ids_bytes(
            tokens,
            a.push(id) + b,
            first_special,
        ) == ids_bytes(tokens, a, first_special) + ids_bytes(tokens, b, first_special),
        id < first_special && tokens.contains_key(id) ==> ids_bytes(
            tokens,
            a.push(id) + b,
            first_special,
        ) == ids_bytes(tokens, a, first_special) + token_bytes(tokens[id]) + ids_bytes(
            tokens,
            b,
            first_special,
        ),
    decreases b.len(),
{
    let s = a.push(id) + b;
    let said = |x: Seq<u32>| ids_bytes(tokens, x, first_special);
    if b.len() == 0 {
        assert(s.drop_last() == a);
        assert(s.last() == id);
        assert(said(b).len() == 0);
        assert(said(a) + said(b) == said(a));
        if tokens.contains_key(id) {
            assert(said(a) + token_bytes(tokens[id]) + said(b) == said(a) + token_bytes(tokens[id]));
        }
    } else {
        let front = b.drop_last();
        law_ids_are_read_in_turn(tokens, a, id, front, first_special);
        assert(s.drop_last() == a.push(id) + front);
        assert(s.last() == b.last());
        let t = tokens[b.last()];
        assert(said(a) + (said(front) + token_bytes(t)) == said(a) + said(front) + token_bytes(t));
        let own = token_bytes(tokens[id]);
        assert(said(a) + own + (said(front) + token_bytes(t)) == said(a) + own + said(front)
            + token_bytes(t));
    }
}

/// The ids of single characters; characters without one are left out.
pub open spec fn char_ids(vocab: Map<Seq<char>, u32>, sym: Seq<char>) -> Seq<u32>
    decreases sym.len(),
{
    if sym.len() == 0 {
        Seq::empty()
    } else {
        let before = char_ids(vocab, sym.drop_last());
        let one = seq![sym.last()];
        if vocab.contains_key(one) {
            before.push(vocab[one])
        } else {
            before
        }
    }
}

/// The ids of a symbol: its own, or those of its characters.
pub open spec fn symbol_ids(vocab: Map<Seq<char>, u32>, sym: Seq<char>) -> Seq<u32> {
    if vocab.contains_key(sym) {
        seq![vocab[sym]]
    } else {
        char_ids(vocab, sym)
    }
}

/// The ids of several symbols.
pub open spec fn symbols_ids(vocab: Map<Seq<char>, u32>, syms: Seq<Seq<char>>) -> Seq<u32>
    decreases syms.len(),
{
    if syms.len() == 0 {
        Seq::empty()
    } else {
        symbols_ids(vocab, syms.drop_last()) + symbol_ids(vocab, syms.last())
    }
}

/// The symbols of some bytes: one character for each.
pub open spec fn byte_symbols(bytes: Seq<u8>) -> Seq<Seq<char>> {
    Seq::new(bytes.len(), |i: int| seq![byte_char(bytes[i])])
}

/// The ids of a piece.
pub open spec fn piece_ids(
    vocab: Map<Seq<char>, u32>,
    ranks: Map<(Seq<char>, Seq<char>), usize>,
    piece: Seq<char>,
) -> Seq<u32> {
    symbols_ids(vocab, merged(byte_symbols(encode_utf8(piece)), ranks))
}

/// The ids of several pieces.
pub open spec fn pieces_ids(
    vocab: Map<Seq<char>, u32>,
    ranks: Map<(Seq<char>, Seq<char>), usize>,
    parts: Seq<Seq<char>>,
) -> Seq<u32>
    decreases parts.len(),
{
    if parts.len() == 0 {
        Seq::empty()
    } else {
        pieces_ids(vocab, ranks, parts.drop_last()) + piece_ids(vocab, ranks, parts.last())
    }
}

/// The ids of a text.
pub open spec fn text_ids(
    vocab: Map<Seq<char>, u32>,
    ranks: Map<(Seq<char>, Seq<char>), usize>,
    text: Seq<char>,
) -> Seq<u32> {
    pieces_ids(vocab, ranks, pieces(text))
}

/// A symbol of the vocabulary has the one id that it has there, and symbols have
/// their ids in their order; the ids of a text are those of its pieces in turn.
pub proof fn law_symbols_have_their_own_ids(
    vocab: Map<Seq<char>, u32>,
    ranks: Map<(Seq<char>, Seq<char>), usize>,
    syms: Seq<Seq<char>>,
    text: Seq<char>,
)
    ensures
        (forall|i: int| 0 <= i < syms.len() ==> vocab.contains_key(#[trigger] syms[i]))
            ==> symbols_ids(vocab, syms) == syms.map_values(|sym: Seq<char>| vocab[sym]),
        text_ids(vocab, ranks, text) == pieces(text).map_values(
            |piece: Seq<char>| piece_ids(vocab, ranks, piece),
        ).flatten(),
{
    if forall|i: int| 0 <= i < syms.len() ==> vocab.contains_key(#[trigger] syms[i]) {
        lemma_known_symbols(vocab, syms);
    }
    lemma_pieces_in_turn(vocab, ranks, pieces(text));
}

proof fn lemma_known_symbols(vocab: Map<Seq<char>, u32>, syms: Seq<Seq<char>>)
    requires
        forall|i: int| 0 <= i < syms.len() ==> vocab.contains_key(#[trigger] syms[i]),
    ensures
        symbols_ids(vocab, syms) == syms.map_values(|sym: Seq<char>| vocab[sym]),
    decreases syms.len(),
{
    let own = |sym: Seq<char>| vocab[sym];
    if syms.len() > 0 {
        let front = syms.drop_last();
        assert forall|i: int| 0 <= i < front.len() implies vocab.contains_key(#[trigger] front[i]) by {
            assert(front[i] == syms[i]);
        }
        lemma_known_symbols(vocab, front);
        assert(vocab.contains_key(syms[syms.len() - 1]));
        assert(syms.map_values(own) == front.map_values(own) + seq![vocab[syms.last()]]);
    } else {
        assert(symbols_ids(vocab, syms) == syms.map_values(own));
    }
}

proof fn lemma_pieces_in_turn(
    vocab: Map<Seq<char>, u32>,
    ranks: Map<(Seq<char>, Seq<char>), usize>,
    parts: Seq<Seq<char>>,
)
    ensures
        pieces_ids(vocab, ranks, parts) == parts.map_values(
            |piece: Seq<char>| piece_ids(vocab, ranks, piece),
        ).flatten(),
    decreases parts.len(),
{
    let own = |piece: Seq<char>| piece_ids(vocab, ranks, piece);
    if parts.len() > 0 {
        let front = parts.drop_last();
        lemma_pieces_in_turn(vocab, ranks, front);
        assert(parts.map_values(own) == front.map_values(own).push(own(parts.last())));
        front.map_values(own).lemma_flatten_push(own(parts.last()));
    } else {
        assert(parts.map_values(own).len() == 0);
    }
}

/// A symbol that is not in the vocabulary is spelt: each of its characters that is
/// there has its id, in their order.
pub proof fn law_unknown_symbols_are_spelt(vocab: Map<Seq<char>, u32>, sym: Seq<char>)
    requires
        !vocab.contains_key(sym),
        forall|i: int| 0 <= i < sym.len() ==> vocab.contains_key(seq![#[trigger] sym[i]]),
    ensures
        symbol_ids(vocab, sym) == sym.map_values(|c: char| vocab[seq![c]]),
{
    lemma_spelt(vocab, sym);
}

proof fn lemma_spelt(vocab: Map<Seq<char>, u32>, sym: Seq<char>)
    requires
        forall|i: int| 0 <= i < sym.len() ==> vocab.contains_key(seq![#[trigger] sym[i]]),
    ensures
        char_ids(vocab, sym) == sym.map_values(|c: char| vocab[seq![c]]),
    decreases sym.len(),
{
    let own = |c: char| vocab[seq![c]];
    if sym.len() > 0 {
        let front = sym.drop_last();
        assert forall|i: int| 0 <= i < front.len() implies vocab.contains_key(
            seq![#[trigger] front[i]],
        ) by {
            assert(front[i] == sym[i]);
        }
        lemma_spelt(vocab, front);
        assert(vocab.contains_key(seq![sym[sym.len() - 1]]));
        assert(sym.map_values(own) == front.map_values(own).push(own(sym.last())));
    } else {
        assert(char_ids(vocab, sym) == sym.map_values(own));
    }
}

/// The vocabulary that a list of entries describes. The last entry for a token
/// decides.
pub open spec fn vocab_of(entries: Seq<(Seq<char>, u32)>) -> Map<Seq<char>, u32>
    decreases entries.len(),
{
    if entries.len() == 0 {
        Map::empty()
    } else {
        vocab_of(entries.drop_last()).insert(entries.last().0, entries.last().1)
    }
}

/// The last entry for a token decides, and only what has an entry is a token.
pub proof fn law_the_last_entry_decides(entries: Seq<(Seq<char>, u32)>, i: int, token: Seq<char>)
    requires
        0 <= i < entries.len(),
        forall|j: int| i < j < entries.len() ==> (#[trigger] entries[j]).0 != entries[i].0,
    ensures
        vocab_of(entries).contains_key(entries[i].0),
        vocab_of(entries)[entries[i].0] == entries[i].1,
        (forall|j: int| 0 <= j < entries.len() ==> (#[trigger] entries[j]).0 != token)
            ==> !vocab_of(entries).contains_key(token),
    decreases entries.len(),
{
    let front = entries.drop_last();
    if i < front.len() {
        assert forall|j: int| i < j < front.len() implies (#[trigger] front[j]).0 != front[i].0 by {
            assert(front[j] == entries[j]);
        }
        law_the_last_entry_decides(front, i, token);
        assert(entries[entries.len() - 1].0 != entries[i].0);
    }
    if forall|j: int| 0 <= j < entries.len() ==> (#[trigger] entries[j]).0 != token {
        lemma_no_entry(entries, token);
    }
}

proof fn lemma_no_entry(entries: Seq<(Seq<char>, u32)>, token: Seq<char>)
    requires
        forall|j: int| 0 <= j < entries.len() ==> (#[trigger] entries[j]).0 != token,
    ensures
        !vocab_of(entries).contains_key(token),
    decreases entries.len(),
{
    if entries.len() > 0 {
        let front = entries.drop_last();
        assert forall|j: int| 0 <= j < front.len() implies (#[trigger] front[j]).0 != token by {
            assert(front[j] == entries[j]);
        }
        lemma_no_entry(front, token);
        assert(entries[entries.len() - 1].0 != token);
    }
}

/// Whether `tokens` is the vocabulary read backwards: every id in use has a
/// token with that id.
pub open spec fn reads_back(tokens: Map<u32, Seq<char>>, vocab: Map<Seq<char>, u32>) -> bool {
    &&& forall|id: u32| #[trigger]
        tokens.contains_key(id) ==> vocab.contains_key(tokens[id]) && vocab[tokens[id]] == id
    &&& forall|t: Seq<char>| #[trigger] vocab.contains_key(t) ==> tokens.contains_key(vocab[t])
}

/// Why a tokenizer could not be read.
#[derive(Debug, Clone, Copy, PartialEq, Eq, Structural)]
pub enum TokenizerError {
    /// `vocab.json` is not a JSON object of token ids.
    Vocabulary,
}

impl TokenizerError {
    /// What is said of it.
    pub fn message(self) -> (r: &'static str)
        ensures
            r@ == match self {
                TokenizerError::Vocabulary => "parse vocab.json"@,
            },
    {
        match self {
            TokenizerError::Vocabulary => "parse vocab.json",
        }
    }
}

/// Whisper's tokenizer.
pub struct Tokenizer {
    tokens: HashMap<u32, String>,
    vocab: StringHashMap<u32>,
    /// `None` without `merges.txt`.
    merges: Option<Merges>,
    /// The byte table.
    table: Vec<char>,
}

impl Tokenizer {
    #[verifier::type_invariant]
    spec fn well_formed(self) -> bool {
        &&& self.table.len() == 256
        &&& forall|b: u8| #[trigger] self.table@[b as int] == byte_char(b)
        &&& reads_back(self.tokens(), self.vocab())
    }

    /// The token of each id.
    pub closed spec fn tokens(self) -> Map<u32, Seq<char>> {
        Map::new(|id: u32| self.tokens@.contains_key(id), |id: u32| self.tokens@[id]@)
    }

    /// The id of each token.
    pub closed spec fn vocab(self) -> Map<Seq<char>, u32> {
        self.vocab@
    }

    /// The merge rules, if there are any.
    pub closed spec fn merges(self) -> Option<Map<(Seq<char>, Seq<char>), usize>> {
        match self.merges {
            Some(m) => Some(m@),
            None => None,
        }
    }

    /// A tokenizer from the contents of `vocab.json` and, where there is one,
    /// of `merges.txt`.
    pub fn load(vocab_json: &str, merges_txt: Option<&str>) -> (r: Result<Tokenizer, TokenizerError>)
        ensures
            r is Ok <==> parsed_ids(vocab_json@) is Some,
            r matches Ok(t) ==> {
                &&& t.vocab() == vocab_of(parsed_ids(vocab_json@)->0)
                &&& reads_back(t.tokens(), t.vocab())
                &&& match merges_txt {
                    Some(m) => t.merges() == Some(rule_ranks(lines(m@))),
                    None => t.merges() is None,
                }
            },
    {
        match parse_ids(vocab_json) {
            Ok(entries) => {
                let merges: Option<Merges> = match merges_txt {
                    Some(m) => Some(parse_merges(m)),
                    None => None,
                };
                Ok(Tokenizer::from_parts(entries, merges))
            },
            Err(_) => Err(TokenizerError::Vocabulary),
        }
    }

    /// A tokenizer from its vocabulary and merge rules. Where two tokens share
    /// an id, either may be the one that the id is read back as.
    pub fn from_parts(entries: Vec<(String, u32)>, merges: Option<Merges>) -> (r: Tokenizer)
        ensures
            r.vocab() == vocab_of(entry_views(entries@)),
            reads_back(r.tokens(), r.vocab()),
            match merges {
                Some(m) => r.merges() == Some(m@),
                None => r.merges() is None,
            },
    {
        broadcast use vstd::std_specs::hash::group_hash_axioms;

        let ghost all = entry_views(entries@);
        let mut vocab: StringHashMap<u32> = StringHashMap::new();
        let mut i: usize = 0;
        while i < entries.len()
            invariant
                i <= entries.len(),
                all == entry_views(entries@),
                vocab@ == vocab_of(all.take(i as int)),
                forall|t: Seq<char>| #[trigger]
                    vocab@.contains_key(t) ==> exists|j: int|
                        0 <= j < i && #[trigger] all[j] == (t, vocab@[t]),
            decreases entries.len() - i,
        {
            let ghost before = vocab@;
            vocab.insert(entries[i].0.clone(), entries[i].1);
            proof {
                assert(all.take(i as int + 1).drop_last() == all.take(i as int));
                assert(all.take(i as int + 1).last() == all[i as int]);
                assert forall|t: Seq<char>| #[trigger] vocab@.contains_key(t) implies exists|j: int|
                    0 <= j < i + 1 && #[trigger] all[j] == (t, vocab@[t]) by {
                    if t == all[i as int].0 {
                        assert(all[i as int] == (t, vocab@[t]));
                    } else {
                        assert(before.contains_key(t));
                        let j = choose|j: int| 0 <= j < i && #[trigger] all[j] == (t, before[t]);
                        assert(all[j] == (t, vocab@[t]));
                    }
                }
            }
            i += 1;
        }
        assert(all.take(i as int) == all);
        let mut tokens: HashMap<u32, String> = HashMap::new();
        let mut k: usize = 0;
        while k < entries.len()
            invariant
                k <= entries.len(),
                all == entry_views(entries@),
                forall|id: u32| #[trigger]
                    tokens@.contains_key(id) ==> vocab@.contains_key(tokens@[id]@)
                        && vocab@[tokens@[id]@] == id,
                forall|j: int|
                    #![trigger all[j]]
                    0 <= j < k && vocab@.contains_key(all[j].0) && vocab@[all[j].0] == all[j].1
                        ==> tokens@.contains_key(all[j].1),
            decreases entries.len() - k,
        {
            broadcast use vstd::std_specs::hash::group_hash_axioms;

            let token: String = entries[k].0.clone();
            let id: u32 = entries[k].1;
            assert(all[k as int] == (token@, id));
            match vocab.get(token.as_str()) {
                Some(found) => {
                    if *found == id {
                        tokens.insert(id, token);
                    }
                },
                None => {},
            }
            k += 1;
        }
        let table: Vec<char> = bytes_to_unicode();
        proof {
            let back = Map::new(|id: u32| tokens@.contains_key(id), |id: u32| tokens@[id]@);
            assert forall|t: Seq<char>| #[trigger] vocab@.contains_key(t) implies back.contains_key(
                vocab@[t],
            ) by {
                let j = choose|j: int| 0 <= j < entries@.len() && #[trigger] all[j] == (t, vocab@[t]);
                assert(tokens@.contains_key(all[j].1));
            }
        }
        Tokenizer { tokens, vocab, merges, table }
    }

    /// Whether `encode` is available.
    pub fn can_encode(&self) -> (r: bool)
        ensures
            r == (self.merges() is Some),
    {
        self.merges.is_some()
    }

    /// Text for a token sequence, dropping every id at or above `first_special`
    /// (whisper keeps all its control tokens at the top of the vocabulary,
    /// starting at end-of-text).
    pub fn decode(&self, ids: &[u32], first_special: u32) -> (r: String)
        ensures
            r@ == lossy_text(ids_bytes(self.tokens(), ids@, first_special)),
    {
        broadcast use vstd::std_specs::hash::group_hash_axioms;

        let mut bytes: Vec<u8> = Vec::new();
        let mut i: usize = 0;
        while i < ids.len()
            invariant
                i <= ids.len(),
                bytes@ == ids_bytes(self.tokens(), ids@.take(i as int), first_special),
            decreases ids.len() - i,
        {
            broadcast use vstd::std_specs::hash::group_hash_axioms;

            let id: u32 = ids[i];
            proof {
                assert(ids@.take(i as int + 1).drop_last() == ids@.take(i as int));
                assert(ids@.take(i as int + 1).last() == id);
            }
            if id < first_special {
                match self.tokens.get(&id) {
                    Some(token) => {
                        let chars: Vec<char> = chars_of(token.as_str());
                        let ghost before = bytes@;
                        let mut j: usize = 0;
                        assert(before + token_bytes(chars@.take(0)) == before);
                        while j < chars.len()
                            invariant
                                j <= chars.len(),
                                bytes@ == before + token_bytes(chars@.take(j as int)),
                            decreases chars.len() - j,
                        {
                            proof {
                                assert(chars@.take(j as int + 1).drop_last() == chars@.take(
                                    j as int,
                                ));
                                assert(chars@.take(j as int + 1).last() == chars@[j as int]);
                            }
                            match byte_of(chars[j]) {
                                Some(b) => {
                                    bytes.push(b);
                                },
                                None => {},
                            }
                            j += 1;
                        }
                        assert(chars@.take(j as int) == chars@);
                    },
                    None => {},
                }
            }
            i += 1;
        }
        assert(ids@.take(i as int) == ids@);
        utf8_lossy(bytes.as_slice())
    }

    /// Appends the ids of one symbol.
    fn push_symbol(&self, out: &mut Vec<u32>, sym: &[char])
        ensures
            final(out)@ == old(out)@ + symbol_ids(self.vocab(), sym@),
    {
        let whole: String = string_of(sym);
        match self.vocab.get(whole.as_str()) {
            Some(id) => {
                out.push(*id);
            },
            None => {
                // A merge produced a token that the vocabulary lacks.
                let ghost before = out@;
                let mut i: usize = 0;
                assert(before + char_ids(self.vocab(), sym@.take(0)) == before);
                while i < sym.len()
                    invariant
                        i <= sym.len(),
                        out@ == before + char_ids(self.vocab(), sym@.take(i as int)),
                    decreases sym.len() - i,
                {
                    let mut one: String = String::new();
                    one.push(sym[i]);
                    proof {
                        assert(sym@.take(i as int + 1).drop_last() == sym@.take(i as int));
                        assert(sym@.take(i as int + 1).last() == sym@[i as int]);
                        assert(one@ == seq![sym@[i as int]]);
                    }
                    match self.vocab.get(one.as_str()) {
                        Some(id) => {
                            out.push(*id);
                        },
                        None => {},
                    }
                    i += 1;
                }
                assert(sym@.take(i as int) == sym@);
            },
        }
    }

    /// Token ids for `text`, as GPT-2's encoder produces them. `None` without
    /// merge rules. Whisper expects prompt text to start with a space.
    pub fn encode(&self, text: &str) -> (r: Option<Vec<u32>>)
        ensures
            r is Some <==> self.merges() is Some,
            r matches Some(ids) ==> ids@ == text_ids(self.vocab(), self.merges()->0, text@),
    {
        let merges: &Merges = match &self.merges {
            Some(m) => m,
            None => {
                return None;
            },
        };
        let split: Vec<String> = pre_tokenize(text);
        let ghost all = texts(split@);
        let ghost vocab = self.vocab();
        let mut out: Vec<u32> = Vec::new();
        let mut i: usize = 0;
        while i < split.len()
            invariant
                i <= split.len(),
                all == texts(split@),
                vocab == self.vocab(),
                out@ == pieces_ids(vocab, merges@, all.take(i as int)),
            decreases split.len() - i,
        {
            let bytes: &[u8] = split[i].as_str().as_bytes();
            let ghost piece = split@[i as int]@;
            let mut symbols: Vec<Vec<char>> = Vec::new();
            let mut j: usize = 0;
            proof {
                use_type_invariant(self);
            }
            while j < bytes.len()
                invariant
                    j <= bytes.len(),
                    views(symbols@) == byte_symbols(bytes@).take(j as int),
                    self.table.len() == 256,
                    forall|b: u8| #[trigger] self.table@[b as int] == byte_char(b),
                decreases bytes.len() - j,
            {
                let b: u8 = bytes[j];
                let mut one: Vec<char> = Vec::new();
                one.push(self.table[b as usize]);
                let ghost before = views(symbols@);
                symbols.push(one);
                proof {
                    assert(self.table@[b as int] == byte_char(b));
                    assert(one@ == seq![byte_char(b)]);
                    assert(views(symbols@) == before.push(one@));
                }
                j += 1;
            }
            assert(views(symbols@) == byte_symbols(encode_utf8(piece)));
            let done: Vec<Vec<char>> = bpe(symbols, merges);
            let ghost syms = views(done@);
            let ghost before = out@;
            let mut k: usize = 0;
            assert(before + symbols_ids(vocab, syms.take(0)) == before);
            while k < done.len()
                invariant
                    k <= done.len(),
                    syms == views(done@),
                    vocab == self.vocab(),
                    out@ == before + symbols_ids(vocab, syms.take(k as int)),
                decreases done.len() - k,
            {
                self.push_symbol(&mut out, done[k].as_slice());
                proof {
                    let now = syms.take(k as int + 1);
                    assert(now.drop_last() == syms.take(k as int));
                    assert(now.last() == done@[k as int]@);
                    assert((before + symbols_ids(vocab, syms.take(k as int))) + symbol_ids(
                        vocab,
                        now.last(),
                    ) == before + (symbols_ids(vocab, syms.take(k as int)) + symbol_ids(
                        vocab,
                        now.last(),
                    )));
                }
                k += 1;
            }
            proof {
                assert(syms.take(k as int) == syms);
                assert(all.take(i as int + 1).drop_last() == all.take(i as int));
                assert(all.take(i as int + 1).last() == piece);
            }
            i += 1;
        }
        assert(all.take(i as int) == all);
        Some(out)
    }
}

// ---------------------------------------------------------------------------
// Decoding undoes encoding
// ---------------------------------------------------------------------------

/// Whether every character stands for a byte.
pub open spec fn in_table(s: Seq<char>) -> bool {
    forall|i: int| 0 <= i < s.len() ==> exists|b: u8| #[trigger] s[i] == byte_char(b)
}

/// Whether every byte has a token of its own.
pub open spec fn covers_bytes(vocab: Map<Seq<char>, u32>) -> bool {
    forall|b: u8| vocab.contains_key(seq![#[trigger] byte_char(b)])
}

/// Whether no two tokens share an id.
pub open spec fn distinct_ids(vocab: Map<Seq<char>, u32>) -> bool {
    forall|s: Seq<char>, t: Seq<char>|
        #![trigger vocab.contains_key(s), vocab.contains_key(t)]
        vocab.contains_key(s) && vocab.contains_key(t) && vocab[s] == vocab[t] ==> s == t
}

/// Whether every id is below `first_special`.
pub open spec fn all_below(ids: Seq<u32>, first_special: u32) -> bool {
    forall|i: int| 0 <= i < ids.len() ==> #[trigger] ids[i] < first_special
}

proof fn lemma_token_bytes_concat(a: Seq<char>, b: Seq<char>)
    ensures
        token_bytes(a + b) == token_bytes(a) + token_bytes(b),
    decreases b.len(),
{
    if b.len() == 0 {
        assert(a + b == a);
        assert(token_bytes(a) + token_bytes(b) == token_bytes(a));
    } else {
        lemma_token_bytes_concat(a, b.drop_last());
        assert((a + b).drop_last() == a + b.drop_last());
        assert((a + b).last() == b.last());
        match char_byte(b.last()) {
            Some(x) => {
                assert((token_bytes(a) + token_bytes(b.drop_last())).push(x) == token_bytes(a)
                    + token_bytes(b.drop_last()).push(x));
            },
            None => {},
        }
    }
}

proof fn lemma_ids_bytes_concat(
    tokens: Map<u32, Seq<char>>,
    a: Seq<u32>,
    b: Seq<u32>,
    first_special: u32,
)
    ensures
        ids_bytes(tokens, a + b, first_special) == ids_bytes(tokens, a, first_special) + ids_bytes(
            tokens,
            b,
            first_special,
        ),
    decreases b.len(),
{
    let left = ids_bytes(tokens, a, first_special);
    if b.len() == 0 {
        assert(a + b == a);
        assert(left + ids_bytes(tokens, b, first_special) == left);
    } else {
        lemma_ids_bytes_concat(tokens, a, b.drop_last(), first_special);
        assert((a + b).drop_last() == a + b.drop_last());
        assert((a + b).last() == b.last());
        let mid = ids_bytes(tokens, b.drop_last(), first_special);
        let last = token_bytes(tokens[b.last()]);
        assert((left + mid) + last == left + (mid + last));
    }
}

/// What a single token's id reads back as.
proof fn lemma_one_id(
    tokens: Map<u32, Seq<char>>,
    vocab: Map<Seq<char>, u32>,
    sym: Seq<char>,
    first_special: u32,
)
    requires
        reads_back(tokens, vocab),
        distinct_ids(vocab),
        vocab.contains_key(sym),
        vocab[sym] < first_special,
    ensures
        ids_bytes(tokens, seq![vocab[sym]], first_special) == token_bytes(sym),
{
    let id = vocab[sym];
    assert(tokens.contains_key(id));
    assert(vocab.contains_key(tokens[id]));
    assert(tokens[id] == sym);
    reveal_with_fuel(ids_bytes, 2);
    assert(seq![id].drop_last() == Seq::<u32>::empty());
    assert(Seq::<u8>::empty() + token_bytes(sym) == token_bytes(sym));
}

/// What the ids of a symbol read back as, character by character.
proof fn lemma_char_ids(
    tokens: Map<u32, Seq<char>>,
    vocab: Map<Seq<char>, u32>,
    sym: Seq<char>,
    first_special: u32,
)
    requires
        reads_back(tokens, vocab),
        distinct_ids(vocab),
        covers_bytes(vocab),
        in_table(sym),
        all_below(char_ids(vocab, sym), first_special),
    ensures
        ids_bytes(tokens, char_ids(vocab, sym), first_special) == token_bytes(sym),
    decreases sym.len(),
{
    if sym.len() > 0 {
        let front = sym.drop_last();
        let one = seq![sym.last()];
        assert(in_table(front)) by {
            assert forall|i: int| 0 <= i < front.len() implies exists|b: u8| #[trigger]
                front[i] == byte_char(b) by {
                assert(front[i] == sym[i]);
            }
        }
        let b = choose|b: u8| sym[sym.len() - 1] == byte_char(b);
        assert(one == seq![byte_char(b)]);
        assert(vocab.contains_key(one));
        let before = char_ids(vocab, front);
        assert(char_ids(vocab, sym) == before.push(vocab[one]));
        assert forall|i: int| 0 <= i < before.len() implies #[trigger] before[i] < first_special by {
            assert(char_ids(vocab, sym)[i] == before[i]);
        }
        assert(char_ids(vocab, sym)[before.len() as int] == vocab[one]);
        lemma_char_ids(tokens, vocab, front, first_special);
        lemma_one_id(tokens, vocab, one, first_special);
        lemma_ids_bytes_concat(tokens, before, seq![vocab[one]], first_special);
        assert(before.push(vocab[one]) == before + seq![vocab[one]]);
        lemma_token_bytes_concat(front, one);
        assert(front + one == sym);
    }
}

/// What the ids of several symbols read back as.
proof fn lemma_symbols_ids(
    tokens: Map<u32, Seq<char>>,
    vocab: Map<Seq<char>, u32>,
    syms: Seq<Seq<char>>,
    first_special: u32,
)
    requires
        reads_back(tokens, vocab),
        distinct_ids(vocab),
        covers_bytes(vocab),
        in_table(flat(syms)),
        all_below(symbols_ids(vocab, syms), first_special),
    ensures
        ids_bytes(tokens, symbols_ids(vocab, syms), first_special) == token_bytes(flat(syms)),
    decreases syms.len(),
{
    if syms.len() > 0 {
        let front = syms.drop_last();
        let sym = syms.last();
        let before = symbols_ids(vocab, front);
        let here = symbol_ids(vocab, sym);
        let all = symbols_ids(vocab, syms);
        assert(all == before + here);
        assert forall|i: int| 0 <= i < flat(front).len() implies exists|b: u8| #[trigger]
            flat(front)[i] == byte_char(b) by {
            assert(flat(syms)[i] == flat(front)[i]);
        }
        assert forall|i: int| 0 <= i < sym.len() implies exists|b: u8| #[trigger]
            sym[i] == byte_char(b) by {
            assert(flat(syms)[flat(front).len() + i] == sym[i]);
        }
        assert forall|i: int| 0 <= i < before.len() implies #[trigger] before[i] < first_special by {
            assert(all[i] == before[i]);
        }
        assert forall|i: int| 0 <= i < here.len() implies #[trigger] here[i] < first_special by {
            assert(all[before.len() + i] == here[i]);
        }
        lemma_symbols_ids(tokens, vocab, front, first_special);
        if vocab.contains_key(sym) {
            assert(here[0] == vocab[sym]);
            lemma_one_id(tokens, vocab, sym, first_special);
        } else {
            lemma_char_ids(tokens, vocab, sym, first_special);
        }
        lemma_ids_bytes_concat(tokens, before, here, first_special);
        lemma_token_bytes_concat(flat(front), sym);
    }
}

/// The characters of some bytes stand for those bytes.
proof fn lemma_byte_symbols(bytes: Seq<u8>)
    ensures
        in_table(flat(byte_symbols(bytes))),
        token_bytes(flat(byte_symbols(bytes))) == bytes,
    decreases bytes.len(),
{
    if bytes.len() > 0 {
        let front = bytes.drop_last();
        let c = byte_char(bytes.last());
        lemma_byte_symbols(front);
        assert(byte_symbols(bytes).drop_last() == byte_symbols(front));
        assert(byte_symbols(bytes).last() == seq![c]);
        let all = flat(byte_symbols(bytes));
        assert(all == flat(byte_symbols(front)).push(c));
        assert forall|i: int| 0 <= i < all.len() implies exists|b: u8| #[trigger]
            all[i] == byte_char(b) by {
            if i < all.len() - 1 {
                assert(all[i] == flat(byte_symbols(front))[i]);
            } else {
                assert(all[i] == byte_char(bytes.last()));
            }
        }
        assert(all.drop_last() == flat(byte_symbols(front)));
        lemma_char_byte_of_byte_char(bytes.last());
        assert(front.push(bytes.last()) == bytes);
    }
}

/// What the ids of several pieces read back as.
proof fn lemma_pieces_ids(
    tokens: Map<u32, Seq<char>>,
    vocab: Map<Seq<char>, u32>,
    ranks: Map<(Seq<char>, Seq<char>), usize>,
    parts: Seq<Seq<char>>,
    first_special: u32,
)
    requires
        reads_back(tokens, vocab),
        distinct_ids(vocab),
        covers_bytes(vocab),
        all_below(pieces_ids(vocab, ranks, parts), first_special),
    ensures
        ids_bytes(tokens, pieces_ids(vocab, ranks, parts), first_special) == encode_utf8(
            flat(parts),
        ),
    decreases parts.len(),
{
    if parts.len() == 0 {
        assert(encode_utf8(flat(parts)) == Seq::<u8>::empty());
    } else {
        let front = parts.drop_last();
        let piece = parts.last();
        let before = pieces_ids(vocab, ranks, front);
        let here = piece_ids(vocab, ranks, piece);
        let all = pieces_ids(vocab, ranks, parts);
        assert(all == before + here);
        assert forall|i: int| 0 <= i < before.len() implies #[trigger] before[i] < first_special by {
            assert(all[i] == before[i]);
        }
        assert forall|i: int| 0 <= i < here.len() implies #[trigger] here[i] < first_special by {
            assert(all[before.len() + i] == here[i]);
        }
        lemma_pieces_ids(tokens, vocab, ranks, front, first_special);
        let start = byte_symbols(encode_utf8(piece));
        lemma_byte_symbols(encode_utf8(piece));
        law_merging_keeps_the_characters(start, ranks);
        lemma_symbols_ids(tokens, vocab, merged(start, ranks), first_special);
        lemma_ids_bytes_concat(tokens, before, here, first_special);
        lemma_encode_concat(flat(front), piece);
    }
}

/// Decoding undoes encoding, whatever the merge rules. It takes a vocabulary
/// that has a token for every byte and no id twice; the ids of the text must
/// not reach the control tokens, which decoding drops.
pub proof fn law_decoding_undoes_encoding(
    tokens: Map<u32, Seq<char>>,
    vocab: Map<Seq<char>, u32>,
    ranks: Map<(Seq<char>, Seq<char>), usize>,
    text: Seq<char>,
    first_special: u32,
)
    requires
        reads_back(tokens, vocab),
        distinct_ids(vocab),
        covers_bytes(vocab),
        all_below(text_ids(vocab, ranks, text), first_special),
    ensures
        lossy_text(ids_bytes(tokens, text_ids(vocab, ranks, text), first_special)) == text,
{
    lemma_pieces_ids(tokens, vocab, ranks, pieces(text), first_special);
    law_pieces_are_the_text(text);
    vstd::utf8::encode_utf8_valid_utf8(text);
    vstd::utf8::encode_utf8_decode_utf8(text);
}

} // verus!
