//! The personal dictionary: case-insensitive whole-word replacements applied
//! after filler removal.
//!
//! This is what makes the app feel personal: whisper will never spell your
//! colleagues' names or your company's jargon right, and correcting the same
//! word twice is the moment a dictation app loses someone.

use crate::text::{
    append, append_str, ascii_small, chars_of, is_ascii_text, is_white, is_word_char, joined,
    lemma_precedes_irreflexive, lemma_precedes_total, lemma_precedes_transitive, lemma_word_len_is,
    lower_text, order, part, precedes, small, string_of, trim, trimmed, views, word_len, words, Order,
};
use vstd::prelude::*;

verus! {

/// What pairs of strings say.
pub open spec fn pair_views(entries: Seq<(String, String)>) -> Seq<(Seq<char>, Seq<char>)> {
    Seq::new(entries.len(), |i: int| (entries[i].0@, entries[i].1@))
}

/// Whether the entries are in the order of their keys, none of them twice.
pub open spec fn sorted(entries: Seq<(Seq<char>, Seq<char>)>) -> bool {
    forall|i: int, j: int|
        #![trigger entries[i], entries[j]]
        0 <= i < j < entries.len() ==> precedes(entries[i].0, entries[j].0)
}

/// Whether an entry has that key.
pub open spec fn has_key(entries: Seq<(Seq<char>, Seq<char>)>, key: Seq<char>) -> bool {
    exists|i: int| 0 <= i < entries.len() && #[trigger] entries[i].0 == key
}

/// Where the entry with that key stands.
pub open spec fn key_place(entries: Seq<(Seq<char>, Seq<char>)>, key: Seq<char>) -> int {
    choose|i: int| 0 <= i < entries.len() && #[trigger] entries[i].0 == key
}

/// The entries as a map.
pub open spec fn keyed(entries: Seq<(Seq<char>, Seq<char>)>) -> Map<Seq<char>, Seq<char>> {
    Map::new(
        |key: Seq<char>| has_key(entries, key),
        |key: Seq<char>| entries[key_place(entries, key)].1,
    )
}

/// In sorted entries no key occurs twice.
proof fn lemma_distinct(entries: Seq<(Seq<char>, Seq<char>)>, i: int, j: int)
    requires
        sorted(entries),
        0 <= i < entries.len(),
        0 <= j < entries.len(),
        entries[i].0 == entries[j].0,
    ensures
        i == j,
{
    lemma_precedes_irreflexive(entries[i].0);
}

/// The value that sorted entries give a key.
proof fn lemma_keyed(entries: Seq<(Seq<char>, Seq<char>)>, i: int)
    requires
        sorted(entries),
        0 <= i < entries.len(),
    ensures
        keyed(entries).contains_key(entries[i].0),
        keyed(entries)[entries[i].0] == entries[i].1,
{
    let key = entries[i].0;
    assert(has_key(entries, key));
    lemma_distinct(entries, i, key_place(entries, key));
}

/// What a dictionary holds settles the order of its entries: two sorted lists
/// with the same contents are the same list, however they came about.
pub proof fn law_contents_settle_the_order(
    a: Seq<(Seq<char>, Seq<char>)>,
    b: Seq<(Seq<char>, Seq<char>)>,
)
    requires
        sorted(a),
        sorted(b),
        keyed(a) == keyed(b),
    ensures
        a == b,
    decreases a.len(),
{
    if a.len() == 0 {
        if b.len() > 0 {
            lemma_keyed(b, 0);
            assert(has_key(a, b[0].0));
        }
    } else if b.len() == 0 {
        lemma_keyed(a, 0);
        assert(has_key(b, a[0].0));
    } else {
        let (x, y) = (a.last(), b.last());
        lemma_keyed(a, a.len() - 1);
        lemma_keyed(b, b.len() - 1);
        assert(has_key(b, x.0));
        assert(has_key(a, y.0));
        let i = choose|i: int| 0 <= i < b.len() && #[trigger] b[i].0 == x.0;
        let j = choose|j: int| 0 <= j < a.len() && #[trigger] a[j].0 == y.0;
        if i < b.len() - 1 {
            assert(precedes(b[i].0, b[b.len() - 1].0));
            if j < a.len() - 1 {
                assert(precedes(a[j].0, a[a.len() - 1].0));
                lemma_precedes_transitive(x.0, y.0, x.0);
            }
            lemma_precedes_irreflexive(x.0);
        }
        assert(x.0 == y.0);
        assert(x == y);
        let (a1, b1) = (a.drop_last(), b.drop_last());
        assert forall|key: Seq<char>| #[trigger] keyed(a1).contains_key(key) implies keyed(
            b1,
        ).contains_key(key) && keyed(a1)[key] == keyed(b1)[key] by {
            lemma_front(a, b, key);
        }
        assert forall|key: Seq<char>| #[trigger] keyed(b1).contains_key(key) implies keyed(
            a1,
        ).contains_key(key) by {
            lemma_front(b, a, key);
        }
        assert(keyed(a1) == keyed(b1));
        law_contents_settle_the_order(a1, b1);
        assert(a1.push(x) == a);
        assert(b1.push(y) == b);
    }
}

proof fn lemma_front(
    a: Seq<(Seq<char>, Seq<char>)>,
    b: Seq<(Seq<char>, Seq<char>)>,
    key: Seq<char>,
)
    requires
        sorted(a),
        sorted(b),
        a.len() > 0,
        b.len() > 0,
        keyed(a) == keyed(b),
        a.last() == b.last(),
        has_key(a.drop_last(), key),
    ensures
        has_key(b.drop_last(), key),
        keyed(a.drop_last())[key] == keyed(b.drop_last())[key],
{
    let (a1, b1) = (a.drop_last(), b.drop_last());
    let i = choose|i: int| 0 <= i < a1.len() && #[trigger] a1[i].0 == key;
    assert(a[i].0 == key);
    lemma_keyed(a, i);
    lemma_keyed(a1, i);
    assert(has_key(b, key));
    let j = choose|j: int| 0 <= j < b.len() && #[trigger] b[j].0 == key;
    lemma_keyed(b, j);
    if j == b.len() - 1 {
        lemma_distinct(a, i, a.len() - 1);
    }
    assert(b1[j] == b[j]);
    lemma_keyed(b1, j);
}

/// The dictionary.
#[derive(Debug)]
pub struct Dictionary {
    /// In the order of the keys.
    entries: Vec<(String, String)>,
}

impl View for Dictionary {
    type V = Map<Seq<char>, Seq<char>>;

    open spec fn view(&self) -> Map<Seq<char>, Seq<char>> {
        keyed(self.entries())
    }
}

impl Default for Dictionary {
    fn default() -> (r: Dictionary)
        ensures
            r.entries().len() == 0,
            r@ == Map::<Seq<char>, Seq<char>>::empty(),
    {
        Dictionary { entries: Vec::new() }
    }
}

impl Dictionary {
    #[verifier::type_invariant]
    spec fn well_formed(self) -> bool {
        sorted(self.entries())
    }

    /// The entries, in the order of their keys.
    pub closed spec fn entries(self) -> Seq<(Seq<char>, Seq<char>)> {
        pair_views(self.entries@)
    }

    /// The first place whose key does not come before `key`.
    fn place(&self, key: &str) -> (r: usize)
        ensures
            r <= self.entries.len(),
            forall|i: int| 0 <= i < r ==> precedes(#[trigger] self.entries()[i].0, key@),
            r < self.entries.len() ==> !precedes(self.entries()[r as int].0, key@),
    {
        let want: Vec<char> = chars_of(key);
        let mut i: usize = 0;
        while i < self.entries.len()
            invariant
                i <= self.entries.len(),
                want@ == key@,
                forall|j: int| 0 <= j < i ==> precedes(#[trigger] self.entries()[j].0, key@),
            decreases self.entries.len() - i,
        {
            match order(chars_of(self.entries[i].0.as_str()).as_slice(), want.as_slice()) {
                Order::Before => {},
                Order::Same => {
                    proof {
                        lemma_precedes_irreflexive(key@);
                    }
                    return i;
                },
                Order::After => {
                    proof {
                        let a = self.entries()[i as int].0;
                        if precedes(a, key@) {
                            lemma_precedes_transitive(a, key@, a);
                            lemma_precedes_irreflexive(a);
                        }
                    }
                    return i;
                },
            }
            assert(precedes(self.entries()[i as int].0, key@));
            i += 1;
        }
        i
    }

    /// What a key is replaced by.
    pub fn get(&self, key: &str) -> (r: Option<&String>)
        ensures
            r is Some <==> self@.contains_key(key@),
            r matches Some(want) ==> want@ == self@[key@],
    {
        proof {
            use_type_invariant(self);
        }
        let ghost all = self.entries();
        let i: usize = self.place(key);
        if i < self.entries.len() {
            let same: bool = crate::text::same(
                chars_of(self.entries[i].0.as_str()).as_slice(),
                chars_of(key).as_slice(),
            );
            assert(all[i as int].0 == self.entries@[i as int].0@);
            if same {
                proof {
                    lemma_keyed(all, i as int);
                }
                return Some(&self.entries[i].1);
            }
        }
        proof {
            if has_key(all, key@) {
                let k = choose|k: int| 0 <= k < all.len() && #[trigger] all[k].0 == key@;
                lemma_precedes_irreflexive(key@);
                if i < k {
                    assert(precedes(all[i as int].0, all[k].0));
                }
            }
        }
        None
    }

    /// Sets what a key is replaced by.
    pub fn insert_key(&mut self, key: String, want: &str)
        ensures
            final(self)@ == old(self)@.insert(key@, want@),
    {
        proof {
            use_type_invariant(&*self);
        }
        let i: usize = self.place(key.as_str());
        let mut entries: Vec<(String, String)> = Vec::new();
        std::mem::swap(&mut entries, &mut self.entries);
        let ghost before = pair_views(entries@);
        let same: bool = i < entries.len() && entries[i].0 == key;
        let ghost k = key@;
        if same {
            assert(before[i as int].0 == k);
            entries.set(i, (key, want.to_string()));
            assert(pair_views(entries@) == before.update(i as int, (k, want@)));
        } else {
            proof {
                if i < entries.len() {
                    assert(before[i as int].0 == entries@[i as int].0@);
                    lemma_precedes_total(before[i as int].0, k);
                }
            }
            entries.insert(i, (key, want.to_string()));
            assert(pair_views(entries@) == before.insert(i as int, (k, want@)));
        }
        let ghost after = pair_views(entries@);
        proof {
            lemma_set(before, after, i as int, k, want@, same);
        }
        self.entries = entries;
    }

    /// Sets what a word is replaced by, whatever its case.
    pub fn insert(&mut self, heard: &str, want: &str)
        ensures
            final(self)@ == old(self)@.insert(lower_text(heard@), want@),
    {
        self.insert_key(heard.to_lowercase(), want);
    }

    /// Forgets a key.
    pub fn remove_key(&mut self, key: &str)
        ensures
            final(self)@ == old(self)@.remove(key@),
    {
        proof {
            use_type_invariant(&*self);
        }
        let i: usize = self.place(key);
        let mut entries: Vec<(String, String)> = Vec::new();
        std::mem::swap(&mut entries, &mut self.entries);
        let ghost before = pair_views(entries@);
        let there: bool = i < entries.len() && crate::text::same(
            chars_of(entries[i].0.as_str()).as_slice(),
            chars_of(key).as_slice(),
        );
        if there {
            assert(before[i as int].0 == key@);
            let _ = entries.remove(i);
            proof {
                let after = pair_views(entries@);
                assert(after == before.remove(i as int));
                lemma_unset(before, after, i as int);
            }
        } else {
            proof {
                if has_key(before, key@) {
                    let j = key_place(before, key@);
                    lemma_precedes_irreflexive(key@);
                    if i < j {
                        assert(precedes(before[i as int].0, before[j].0));
                    } else if j == i {
                        assert(before[i as int].0 == entries@[i as int].0@);
                    }
                }
                assert(keyed(before).remove(key@) == keyed(before));
            }
        }
        self.entries = entries;
    }

    /// Forgets a word, whatever its case.
    pub fn remove(&mut self, heard: &str)
        ensures
            final(self)@ == old(self)@.remove(lower_text(heard@)),
    {
        let key: String = heard.to_lowercase();
        self.remove_key(key.as_str());
    }

    /// The words and what they are replaced by, in the order of the words.
    pub fn iter(&self) -> (r: Vec<(&String, &String)>)
        ensures
            r.len() == self.entries().len(),
            forall|i: int|
                0 <= i < r.len() ==> (#[trigger] r@[i]).0@ == self.entries()[i].0 && r@[i].1@
                    == self.entries()[i].1,
            sorted(self.entries()),
    {
        proof {
            use_type_invariant(self);
        }
        let mut r: Vec<(&String, &String)> = Vec::new();
        let mut i: usize = 0;
        while i < self.entries.len()
            invariant
                i <= self.entries.len(),
                r.len() == i,
                forall|j: int|
                    0 <= j < i ==> (#[trigger] r@[j]).0@ == self.entries()[j].0 && r@[j].1@
                        == self.entries()[j].1,
            decreases self.entries.len() - i,
        {
            let entry: &(String, String) = &self.entries[i];
            r.push((&entry.0, &entry.1));
            i += 1;
        }
        r
    }

    /// Whether there is nothing to replace.
    pub fn is_empty(&self) -> (r: bool)
        ensures
            r == (self.entries().len() == 0),
            r == (self@ == Map::<Seq<char>, Seq<char>>::empty()),
    {
        proof {
            use_type_invariant(self);
            if self.entries().len() > 0 {
                lemma_keyed(self.entries(), 0);
            } else {
                assert(self@ == Map::<Seq<char>, Seq<char>>::empty());
            }
        }
        self.entries.len() == 0
    }
}

impl Clone for Dictionary {
    fn clone(&self) -> (r: Dictionary)
        ensures
            r.entries() == self.entries(),
            r@ == self@,
    {
        proof {
            use_type_invariant(self);
        }
        let mut entries: Vec<(String, String)> = Vec::new();
        let mut i: usize = 0;
        while i < self.entries.len()
            invariant
                i <= self.entries.len(),
                pair_views(entries@) == self.entries().take(i as int),
            decreases self.entries.len() - i,
        {
            let ghost before = pair_views(entries@);
            entries.push((self.entries[i].0.clone(), self.entries[i].1.clone()));
            assert(pair_views(entries@) == before.push(self.entries()[i as int]));
            i += 1;
        }
        assert(self.entries().take(i as int) == self.entries());
        Dictionary { entries }
    }
}

/// Setting an entry at its place keeps the order and sets the key.
proof fn lemma_set(
    before: Seq<(Seq<char>, Seq<char>)>,
    after: Seq<(Seq<char>, Seq<char>)>,
    i: int,
    key: Seq<char>,
    want: Seq<char>,
    same: bool,
)
    requires
        sorted(before),
        0 <= i <= before.len(),
        forall|j: int| 0 <= j < i ==> precedes(#[trigger] before[j].0, key),
        same ==> i < before.len() && before[i].0 == key && after == before.update(i, (key, want)),
        !same ==> after == before.insert(i, (key, want)) && (i < before.len() ==> precedes(
            key,
            before[i].0,
        )),
    ensures
        sorted(after),
        keyed(after) == keyed(before).insert(key, want),
{
    if same {
        assert forall|a: int, b: int|
            #![trigger after[a], after[b]]
            0 <= a < b < after.len() implies precedes(after[a].0, after[b].0) by {
            assert(precedes(before[a].0, before[b].0));
        }
    } else {
        assert forall|a: int, b: int|
            #![trigger after[a], after[b]]
            0 <= a < b < after.len() implies precedes(after[a].0, after[b].0) by {
            if a < i && b < i {
                assert(precedes(before[a].0, before[b].0));
            } else if a < i && b == i {
            } else if a < i {
                assert(precedes(before[a].0, before[b - 1].0));
            } else if a == i {
                if b - 1 > i {
                    assert(precedes(before[i].0, before[b - 1].0));
                    lemma_precedes_transitive(key, before[i].0, before[b - 1].0);
                }
            } else {
                assert(precedes(before[a - 1].0, before[b - 1].0));
            }
        }
    }
    let want_map = keyed(before).insert(key, want);
    assert(after[i] == (key, want));
    lemma_keyed(after, i);
    assert forall|k: Seq<char>| #[trigger] keyed(after).contains_key(k) implies want_map.contains_key(
        k,
    ) && keyed(after)[k] == want_map[k] by {
        let a = key_place(after, k);
        lemma_keyed(after, a);
        if a != i {
            let b = if same || a < i {
                a
            } else {
                a - 1
            };
            assert(after[a] == before[b]);
            lemma_keyed(before, b);
            if k == key {
                lemma_distinct(after, a, i);
            }
        }
    }
    assert forall|k: Seq<char>| #[trigger] want_map.contains_key(k) implies keyed(
        after,
    ).contains_key(k) by {
        if k != key {
            let b = key_place(before, k);
            let a = if same || b < i {
                b
            } else {
                b + 1
            };
            assert(after[a] == before[b]);
        }
    }
    assert(keyed(after) == want_map);
}

/// Taking an entry out keeps the order and forgets its key.
proof fn lemma_unset(
    before: Seq<(Seq<char>, Seq<char>)>,
    after: Seq<(Seq<char>, Seq<char>)>,
    i: int,
)
    requires
        sorted(before),
        0 <= i < before.len(),
        after == before.remove(i),
    ensures
        sorted(after),
        keyed(after) == keyed(before).remove(before[i].0),
{
    assert forall|a: int, b: int|
        #![trigger after[a], after[b]]
        0 <= a < b < after.len() implies precedes(after[a].0, after[b].0) by {
        let x = if a < i {
            a
        } else {
            a + 1
        };
        let y = if b < i {
            b
        } else {
            b + 1
        };
        assert(precedes(before[x].0, before[y].0));
    }
    let want_map = keyed(before).remove(before[i].0);
    assert forall|k: Seq<char>| #[trigger] keyed(after).contains_key(k) implies want_map.contains_key(
        k,
    ) && keyed(after)[k] == want_map[k] by {
        let a = key_place(after, k);
        lemma_keyed(after, a);
        let b = if a < i {
            a
        } else {
            a + 1
        };
        assert(after[a] == before[b]);
        lemma_keyed(before, b);
        if k == before[i].0 {
            lemma_distinct(before, b, i);
        }
    }
    assert forall|k: Seq<char>| #[trigger] want_map.contains_key(k) implies keyed(
        after,
    ).contains_key(k) by {
        let b = key_place(before, k);
        let a = if b < i {
            b
        } else {
            b - 1
        };
        assert(after[a] == before[b]);
    }
    assert(keyed(after) == want_map);
}

// ---------------------------------------------------------------------------
// Corrections
// ---------------------------------------------------------------------------

/// Whether a character belongs to a word's core: letters, digits, apostrophes.
pub open spec fn is_core(c: char) -> bool {
    is_word_char(c) || c == '\''
}

/// How much punctuation a word starts with.
pub open spec fn core_start(word: Seq<char>) -> nat
    decreases word.len(),
{
    if word.len() > 0 && !is_core(word[0]) {
        1 + core_start(word.skip(1))
    } else {
        0
    }
}

/// Where the punctuation at the end of a word starts.
pub open spec fn core_end(word: Seq<char>) -> nat
    decreases word.len(),
{
    if word.len() > 0 && !is_core(word.last()) {
        core_end(word.drop_last())
    } else {
        word.len()
    }
}

/// Where a word's core starts and ends. A word that is all punctuation has an
/// empty core, which stands at its start.
pub open spec fn core_bounds(word: Seq<char>) -> (int, int) {
    if core_start(word) == word.len() {
        (0, 0)
    } else {
        (core_start(word) as int, core_end(word) as int)
    }
}

/// What a word is looked up by: its core, lowercased.
pub open spec fn core_key(word: Seq<char>) -> Seq<char> {
    lower_text(word.subrange(core_bounds(word).0, core_bounds(word).1))
}

/// A word with its core replaced, where the dictionary has it, and the
/// punctuation attached to it kept.
pub open spec fn corrected_word(dict: Map<Seq<char>, Seq<char>>, word: Seq<char>) -> Seq<char> {
    if dict.contains_key(core_key(word)) {
        word.take(core_bounds(word).0) + dict[core_key(word)] + word.skip(core_bounds(word).1)
    } else {
        word
    }
}

/// The text with every word corrected, and its whitespace as it was.
pub open spec fn corrected(dict: Map<Seq<char>, Seq<char>>, s: Seq<char>) -> Seq<char>
    decreases s.len(),
{
    if s.len() == 0 {
        Seq::empty()
    } else {
        let n = word_len(s) as int;
        proof {
            crate::text::lemma_word_len(s);
        }
        if n < s.len() {
            corrected_word(dict, s.take(n)).push(s[n]) + corrected(dict, s.skip(n + 1))
        } else {
            corrected_word(dict, s)
        }
    }
}

proof fn lemma_core_start(word: Seq<char>)
    ensures
        core_start(word) <= word.len(),
        core_start(word) < word.len() ==> is_core(word[core_start(word) as int]),
        forall|i: int| 0 <= i < core_start(word) ==> !is_core(#[trigger] word[i]),
    decreases word.len(),
{
    if word.len() > 0 && !is_core(word[0]) {
        let t = word.skip(1);
        lemma_core_start(t);
        assert forall|i: int| 0 <= i < core_start(word) implies !is_core(#[trigger] word[i]) by {
            if i > 0 {
                assert(t[i - 1] == word[i]);
            }
        }
        if core_start(word) < word.len() {
            assert(t[core_start(t) as int] == word[core_start(word) as int]);
        }
    }
}

proof fn lemma_core_end(word: Seq<char>)
    ensures
        core_end(word) <= word.len(),
        core_end(word) > 0 ==> is_core(word[core_end(word) - 1]),
        forall|i: int| core_end(word) <= i < word.len() ==> !is_core(#[trigger] word[i]),
    decreases word.len(),
{
    if word.len() > 0 && !is_core(word.last()) {
        let t = word.drop_last();
        lemma_core_end(t);
        assert forall|i: int| core_end(word) <= i < word.len() implies !is_core(
            #[trigger] word[i],
        ) by {
            if i < t.len() {
                assert(t[i] == word[i]);
            }
        }
        if core_end(word) > 0 {
            assert(t[core_end(t) - 1] == word[core_end(word) - 1]);
        }
    }
}

proof fn lemma_core_start_is(word: Seq<char>, n: int)
    requires
        0 <= n <= word.len(),
        forall|i: int| 0 <= i < n ==> !is_core(#[trigger] word[i]),
        n < word.len() ==> is_core(word[n]),
    ensures
        core_start(word) == n,
{
    lemma_core_start(word);
    if core_start(word) < n {
        assert(!is_core(word[core_start(word) as int]));
    } else if n < core_start(word) {
        assert(!is_core(word[n]));
    }
}

proof fn lemma_core_end_is(word: Seq<char>, n: int)
    requires
        0 <= n <= word.len(),
        forall|i: int| n <= i < word.len() ==> !is_core(#[trigger] word[i]),
        n > 0 ==> is_core(word[n - 1]),
    ensures
        core_end(word) == n,
{
    lemma_core_end(word);
    if core_end(word) < n {
        assert(!is_core(word[n - 1]));
    } else if n < core_end(word) {
        assert(!is_core(word[core_end(word) - 1]));
    }
}

/// A word changes only where its whole core is an entry: text with none of the
/// dictionary's words in it stays as it is, so a short entry cannot corrupt a
/// longer word.
pub proof fn law_other_words_are_left_alone(dict: Map<Seq<char>, Seq<char>>, s: Seq<char>)
    requires
        !dict.contains_key(core_key(Seq::empty())),
        forall|i: int|
            0 <= i < words(s).len() ==> !dict.contains_key(core_key(#[trigger] words(s)[i])),
    ensures
        corrected(dict, s) == s,
    decreases s.len(),
{
    if s.len() > 0 {
        let n = word_len(s) as int;
        crate::text::lemma_word_len(s);
        let word = s.take(n);
        if n == 0 {
            assert(word == Seq::<char>::empty());
        } else {
            assert(words(s)[0] == word);
        }
        if n < s.len() {
            let rest = s.skip(n + 1);
            assert(s.skip(n)[0] == s[n]);
            assert(s.skip(n).skip(1) == rest);
            assert(words(s.skip(n)) == words(rest));
            assert forall|i: int| 0 <= i < words(rest).len() implies !dict.contains_key(
                core_key(#[trigger] words(rest)[i]),
            ) by {
                if n == 0 {
                    assert(s.skip(0) == s);
                } else {
                    assert(words(s)[i + 1] == words(rest)[i]);
                }
            }
            law_other_words_are_left_alone(dict, rest);
            assert(word.push(s[n]) + rest == s);
        } else {
            assert(word == s);
        }
    }
}

/// Text is corrected apart on either side of whitespace, which stays as it is. An
/// entry for the empty word, which stands between two spaces, is left out.
pub proof fn law_words_are_corrected_apart(
    dict: Map<Seq<char>, Seq<char>>,
    a: Seq<char>,
    w: char,
    b: Seq<char>,
)
    requires
        is_white(w),
        !dict.contains_key(core_key(Seq::empty())) || (a.len() > 0 && !is_white(a.last())),
    ensures
        corrected(dict, a.push(w) + b) == corrected(dict, a).push(w) + corrected(dict, b),
    decreases a.len(),
{
    let s = a.push(w) + b;
    let n = word_len(a) as int;
    crate::text::lemma_word_len(a);
    assert forall|i: int| 0 <= i < n implies !is_white(#[trigger] s[i]) by {
        assert(s[i] == a[i]);
    }
    lemma_word_len_is(s, n);
    assert(s.take(n) == a.take(n));
    if n < a.len() {
        let rest = a.skip(n + 1);
        if rest.len() > 0 {
            assert(rest.last() == a.last());
        } else {
            assert(a.last() == a[n]);
        }
        law_words_are_corrected_apart(dict, rest, w, b);
        assert(s.skip(n + 1) == rest.push(w) + b);
        let word = corrected_word(dict, a.take(n));
        assert(corrected(dict, s) == word.push(a[n]) + (corrected(dict, rest).push(w) + corrected(
            dict,
            b,
        )));
        assert(corrected(dict, a) == word.push(a[n]) + corrected(dict, rest));
        assert(corrected(dict, s) == corrected(dict, a).push(w) + corrected(dict, b));
    } else {
        assert(a.take(n) == a);
        assert(s.skip(n + 1) == b);
        assert(s[n] == w);
        if a.len() == 0 {
            assert(a == Seq::<char>::empty());
            assert(corrected_word(dict, a) == a);
        }
    }
}

/// A corrected word keeps what stands around it. Of a word with anything but
/// letters, digits and apostrophes in front and behind, what lies between is
/// looked up in small letters and replaced whole, and the rest stays; a word that
/// is not found stays as it is.
pub proof fn law_punctuation_is_kept(
    dict: Map<Seq<char>, Seq<char>>,
    lead: Seq<char>,
    core: Seq<char>,
    trail: Seq<char>,
)
    requires
        core.len() > 0,
        is_word_char(core[0]) || core[0] == '\'',
        is_word_char(core.last()) || core.last() == '\'',
        forall|i: int|
            0 <= i < lead.len() ==> !is_word_char(#[trigger] lead[i]) && lead[i] != '\''
                && !is_white(lead[i]),
        forall|i: int|
            0 <= i < trail.len() ==> !is_word_char(#[trigger] trail[i]) && trail[i] != '\''
                && !is_white(trail[i]),
        forall|i: int| 0 <= i < core.len() ==> !is_white(#[trigger] core[i]),
    ensures
        corrected(dict, lead + core + trail) == (if dict.contains_key(lower_text(core)) {
            lead + dict[lower_text(core)] + trail
        } else {
            lead + core + trail
        }),
{
    let word = lead + core + trail;
    let (a, b) = (lead.len() as int, (lead.len() + core.len()) as int);
    assert forall|i: int| 0 <= i < word.len() implies !is_white(#[trigger] word[i]) by {
        if i < a {
            assert(word[i] == lead[i]);
        } else if i < b {
            assert(word[i] == core[i - a]);
        } else {
            assert(word[i] == trail[i - b]);
        }
    }
    lemma_word_len_is(word, word.len() as int);
    assert forall|i: int| 0 <= i < a implies !is_core(#[trigger] word[i]) by {
        assert(word[i] == lead[i]);
    }
    assert(word[a] == core[0]);
    lemma_core_start_is(word, a);
    assert forall|i: int| b <= i < word.len() implies !is_core(#[trigger] word[i]) by {
        assert(word[i] == trail[i - b]);
    }
    assert(word[b - 1] == core.last());
    lemma_core_end_is(word, b);
    assert(word.subrange(a, b) == core);
    assert(word.take(a) == lead);
    assert(word.skip(b) == trail);
}

/// A word that is all punctuation stays as it is, unless there is an entry for
/// the empty word, whose replacement then stands in front.
pub proof fn law_bare_punctuation_is_kept(dict: Map<Seq<char>, Seq<char>>, marks: Seq<char>)
    requires
        marks.len() > 0,
        forall|i: int|
            0 <= i < marks.len() ==> !is_word_char(#[trigger] marks[i]) && marks[i] != '\''
                && !is_white(marks[i]),
    ensures
        corrected(dict, marks) == (if dict.contains_key(Seq::empty()) {
            dict[Seq::empty()] + marks
        } else {
            marks
        }),
{
    lemma_word_len_is(marks, marks.len() as int);
    assert forall|i: int| 0 <= i < marks.len() implies !is_core(#[trigger] marks[i]) by {}
    lemma_core_start_is(marks, marks.len() as int);
    assert(marks.subrange(0, 0) == Seq::<char>::empty());
    assert(small(Seq::empty()) == Seq::<char>::empty());
    assert(marks.take(0) + dict[Seq::empty()] == dict[Seq::empty()]);
    assert(marks.skip(0) == marks);
}

/// A capital and its small letter both belong to a core.
proof fn lemma_small_is_core(c: char)
    requires
        crate::text::is_ascii_char(c),
    ensures
        is_core(ascii_small(c)) == is_core(c),
{
    if 'A' <= c <= 'Z' {
        assert('a' <= ascii_small(c) <= 'z');
    }
}

/// Case does not matter: two ASCII words that differ in case alone are looked up
/// by the same key.
pub proof fn law_case_does_not_matter(a: Seq<char>, b: Seq<char>)
    requires
        is_ascii_text(a),
        is_ascii_text(b),
        small(a) == small(b),
    ensures
        core_key(a) == core_key(b),
{
    assert(small(a).len() == a.len() && small(b).len() == b.len());
    assert forall|i: int|
        #![trigger a[i]]
        #![trigger b[i]]
        0 <= i < a.len() implies is_core(a[i]) == is_core(b[i]) by {
        assert(small(a)[i] == ascii_small(a[i]));
        assert(small(b)[i] == ascii_small(b[i]));
        lemma_small_is_core(a[i]);
        lemma_small_is_core(b[i]);
    }
    lemma_core_start(a);
    lemma_core_start_is(b, core_start(a) as int);
    lemma_core_end(a);
    lemma_core_end_is(b, core_end(a) as int);
    lemma_core_is_inside(a);
    let (x, y) = core_bounds(a);
    let (p, q) = (a.subrange(x, y), b.subrange(x, y));
    assert(small(p) == small(q)) by {
        assert forall|i: int| 0 <= i < p.len() implies small(p)[i] == small(q)[i] by {
            assert(small(a)[x + i] == ascii_small(a[x + i]));
            assert(small(b)[x + i] == ascii_small(b[x + i]));
            assert(small(p)[i] == ascii_small(p[i]));
            assert(small(q)[i] == ascii_small(q[i]));
        }
    }
    assert forall|i: int| 0 <= i < p.len() implies crate::text::is_ascii_char(#[trigger] p[i]) by {
        assert(p[i] == a[x + i]);
    }
    assert forall|i: int| 0 <= i < q.len() implies crate::text::is_ascii_char(#[trigger] q[i]) by {
        assert(q[i] == b[x + i]);
    }
}

/// A core starts before it ends.
proof fn lemma_core_is_inside(word: Seq<char>)
    ensures
        core_start(word) < word.len() ==> core_start(word) < core_end(word) <= word.len(),
{
    lemma_core_start(word);
    lemma_core_end(word);
    if core_start(word) < word.len() && core_end(word) <= core_start(word) {
        assert(!is_core(word[core_start(word) as int]));
    }
}

/// A core lies in its word.
pub proof fn lemma_core_bounds(word: Seq<char>)
    ensures
        0 <= core_bounds(word).0 <= core_bounds(word).1 <= word.len(),
{
    lemma_core_start(word);
    lemma_core_is_inside(word);
}

/// Whether a character belongs to a word's core.
fn in_core(c: char) -> (r: bool)
    ensures
        r == is_core(c),
{
    c.is_alphanumeric() || c == '\''
}

impl Dictionary {
    /// Corrects one word.
    fn correct(&self, word: &[char]) -> (r: Vec<char>)
        ensures
            r@ == corrected_word(self@, word@),
    {
        let mut a: usize = 0;
        while a < word.len() && !in_core(word[a])
            invariant
                a <= word.len(),
                forall|i: int| 0 <= i < a ==> !is_core(#[trigger] word@[i]),
            decreases word.len() - a,
        {
            a += 1;
        }
        proof {
            lemma_core_start_is(word@, a as int);
            lemma_core_is_inside(word@);
            lemma_core_end(word@);
        }
        let mut b: usize = word.len();
        if a == word.len() {
            a = 0;
            b = 0;
        } else {
            while b > 0 && !in_core(word[b - 1])
                invariant
                    b <= word.len(),
                    forall|i: int| b <= i < word.len() ==> !is_core(#[trigger] word@[i]),
                decreases b,
            {
                b -= 1;
            }
            proof {
                lemma_core_end_is(word@, b as int);
            }
        }
        let inner: String = string_of(part(word, a, b).as_slice());
        let key: String = inner.as_str().to_lowercase();
        match self.get(key.as_str()) {
            Some(want) => {
                let mut out: Vec<char> = part(word, 0, a);
                append_str(&mut out, want.as_str());
                append(&mut out, part(word, b, word.len()).as_slice());
                assert(word@.subrange(0, a as int) == word@.take(a as int));
                assert(word@.subrange(b as int, word@.len() as int) == word@.skip(b as int));
                out
            },
            None => {
                let out: Vec<char> = part(word, 0, word.len());
                assert(out@ == word@);
                out
            },
        }
    }

    /// Replaces whole words only, so a short entry can't corrupt a longer word.
    pub fn apply_chars(&self, text: &[char]) -> (r: Vec<char>)
        ensures
            r@ == corrected(self@, text@),
    {
        let ghost dict = self@;
        let mut out: Vec<char> = Vec::new();
        let mut i: usize = 0;
        assert(text@.skip(0) == text@);
        assert(Seq::<char>::empty() + corrected(dict, text@) == corrected(dict, text@));
        while i < text.len()
            invariant
                i <= text.len(),
                dict == self@,
                out@ + corrected(dict, text@.skip(i as int)) == corrected(dict, text@),
            decreases text.len() - i,
        {
            let ghost rest = text@.skip(i as int);
            let ghost start = out@;
            let mut j: usize = i;
            while j < text.len() && !text[j].is_whitespace()
                invariant
                    i <= j <= text.len(),
                    rest == text@.skip(i as int),
                    forall|k: int| 0 <= k < j - i ==> !is_white(#[trigger] rest[k]),
                decreases text.len() - j,
            {
                assert(rest[j - i] == text@[j as int]);
                j += 1;
            }
            proof {
                if j < text.len() {
                    assert(rest[j - i] == text@[j as int]);
                }
                lemma_word_len_is(rest, j - i);
            }
            let word: Vec<char> = part(text, i, j);
            let fixed: Vec<char> = self.correct(word.as_slice());
            append(&mut out, fixed.as_slice());
            assert(word@ == rest.take(j - i));
            if j < text.len() {
                out.push(text[j]);
                proof {
                    let tail = corrected(dict, text@.skip(j as int + 1));
                    assert(rest.skip(j - i + 1) == text@.skip(j as int + 1));
                    assert(corrected(dict, rest) == fixed@.push(text@[j as int]) + tail);
                    assert(out@ + tail == start + (fixed@.push(text@[j as int]) + tail));
                }
                i = j + 1;
            } else {
                proof {
                    assert(word@ == rest);
                    assert(corrected(dict, rest) == fixed@);
                    assert(text@.skip(j as int).len() == 0);
                    assert(out@ + corrected(dict, text@.skip(j as int)) == out@);
                }
                i = j;
            }
        }
        assert(text@.skip(i as int).len() == 0);
        assert(out@ + corrected(dict, text@.skip(i as int)) == out@);
        out
    }

    /// Replaces whole words only, so a short entry can't corrupt a longer word.
    pub fn apply(&self, text: &str) -> (r: String)
        ensures
            r@ == corrected(self@, text@),
    {
        string_of(self.apply_chars(chars_of(text).as_slice()).as_slice())
    }
}

// ---------------------------------------------------------------------------
// The prompt
// ---------------------------------------------------------------------------

/// Whether a spelling is among some, whatever its case.
pub open spec fn listed(terms: Seq<Seq<char>>, term: Seq<char>) -> bool {
    exists|i: int| 0 <= i < terms.len() && lower_text(#[trigger] terms[i]) == lower_text(term)
}

/// The target spellings, trimmed, each once, in the order of the entries.
pub open spec fn terms_of(entries: Seq<(Seq<char>, Seq<char>)>) -> Seq<Seq<char>>
    decreases entries.len(),
{
    if entries.len() == 0 {
        Seq::empty()
    } else {
        let before = terms_of(entries.drop_last());
        let term = trimmed(entries.last().1);
        if term.len() == 0 || listed(before, term) {
            before
        } else {
            before.push(term)
        }
    }
}

/// A list of terms with one more.
pub open spec fn with_term(out: Seq<char>, term: Seq<char>) -> Seq<char> {
    if out.len() == 0 {
        term
    } else {
        out + ", "@ + term
    }
}

/// As many terms as fit behind `out`, with a full stop to come; the first that
/// does not fit ends the list.
pub open spec fn with_terms(out: Seq<char>, terms: Seq<Seq<char>>) -> Seq<char>
    decreases terms.len(),
{
    if terms.len() == 0 || with_term(out, terms[0]).len() + 1 > PROMPT_MAX_CHARS {
        out
    } else {
        with_terms(with_term(out, terms[0]), terms.skip(1))
    }
}

/// The target spellings as text for the engine to treat as preceding context:
/// `Cooee, Hexagon.` `None` when there is nothing to say.
pub open spec fn prompt_of(entries: Seq<(Seq<char>, Seq<char>)>) -> Option<Seq<char>> {
    let out = with_terms(Seq::empty(), terms_of(entries));
    if out.len() == 0 {
        None
    } else {
        Some(out.push('.'))
    }
}

/// Longest prompt handed to the engine, in characters. Whisper's prompt budget is
/// a couple of hundred tokens; well under that, and short enough that a
/// near-silent clip is unlikely to be answered with the prompt itself.
pub const PROMPT_MAX_CHARS: usize = 200;

/// The terms are what the engine is to hear of: none is blank, none stands
/// twice in whatever case, and every target spelling is among them.
pub proof fn law_terms_are_listed_once(entries: Seq<(Seq<char>, Seq<char>)>)
    ensures
        forall|i: int| 0 <= i < terms_of(entries).len() ==> (#[trigger] terms_of(entries)[i]).len() > 0,
        forall|i: int, j: int|
            #![trigger terms_of(entries)[i], terms_of(entries)[j]]
            0 <= i < j < terms_of(entries).len() ==> lower_text(terms_of(entries)[i]) != lower_text(
                terms_of(entries)[j],
            ),
        forall|i: int|
            0 <= i < entries.len() && trimmed(#[trigger] entries[i].1).len() > 0 ==> listed(
                terms_of(entries),
                trimmed(entries[i].1),
            ),
    decreases entries.len(),
{
    if entries.len() > 0 {
        let front = entries.drop_last();
        law_terms_are_listed_once(front);
        let before = terms_of(front);
        let terms = terms_of(entries);
        let last = trimmed(entries.last().1);
        assert forall|i: int|
            0 <= i < entries.len() && trimmed(#[trigger] entries[i].1).len() > 0 implies listed(
            terms,
            trimmed(entries[i].1),
        ) by {
            if i < front.len() {
                assert(front[i] == entries[i]);
                let term = trimmed(entries[i].1);
                assert(listed(before, term));
                let k = choose|k: int|
                    0 <= k < before.len() && lower_text(#[trigger] before[k]) == lower_text(term);
                assert(terms[k] == before[k]);
            } else if terms != before {
                assert(terms[before.len() as int] == last);
            }
        }
    }
}

/// The prompt stays within its budget, its full stop included.
pub proof fn law_the_prompt_fits(entries: Seq<(Seq<char>, Seq<char>)>)
    ensures
        prompt_of(entries) matches Some(p) ==> p.len() <= PROMPT_MAX_CHARS && p.len() > 1 && p.last()
            == '.',
{
    lemma_with_terms(Seq::empty(), terms_of(entries));
}

proof fn lemma_with_terms(out: Seq<char>, terms: Seq<Seq<char>>)
    requires
        out.len() + 1 <= PROMPT_MAX_CHARS,
    ensures
        with_terms(out, terms).len() + 1 <= PROMPT_MAX_CHARS,
    decreases terms.len(),
{
    if terms.len() > 0 && with_term(out, terms[0]).len() + 1 <= PROMPT_MAX_CHARS {
        lemma_with_terms(with_term(out, terms[0]), terms.skip(1));
    }
}

/// Terms with a comma and a space between two.
spec fn listing(terms: Seq<Seq<char>>) -> Seq<char> {
    joined(terms, seq![',', ' '])
}

/// Joining from a list on is joining all of it.
proof fn lemma_with_terms_is(done: Seq<Seq<char>>, terms: Seq<Seq<char>>) -> (k: int)
    requires
        forall|i: int| 0 <= i < done.len() ==> (#[trigger] done[i]).len() > 0,
        forall|i: int| 0 <= i < terms.len() ==> (#[trigger] terms[i]).len() > 0,
    ensures
        0 <= k <= terms.len(),
        with_terms(listing(done), terms) == listing(done + terms.take(k)),
        k < terms.len() ==> listing(done + terms.take(k + 1)).len() + 1 > 200,
    decreases terms.len(),
{
    reveal_strlit(", ");
    assert(", "@ == seq![',', ' ']);
    assert(done + terms.take(0) == done);
    if terms.len() > 0 {
        let more = done.push(terms[0]);
        lemma_listing_says_something(done);
        assert(more.drop_last() == done);
        assert(terms[0].len() > 0);
        assert(listing(more) == with_term(listing(done), terms[0])) by {
            if done.len() == 0 {
                assert(more[0] == terms[0]);
                assert(listing(done).len() == 0);
            } else {
                assert(listing(done).len() > 0);
                assert(more.last() == terms[0]);
            }
        }
        assert(done + terms.take(1) == more);
        if with_term(listing(done), terms[0]).len() + 1 > PROMPT_MAX_CHARS {
            0
        } else {
            let rest = terms.skip(1);
            assert forall|i: int| 0 <= i < rest.len() implies (#[trigger] rest[i]).len() > 0 by {
                assert(rest[i] == terms[i + 1]);
            }
            let k = lemma_with_terms_is(more, rest);
            assert(more + rest.take(k) == done + terms.take(k + 1));
            if k < rest.len() {
                assert(more + rest.take(k + 1) == done + terms.take(k + 2));
            }
            k + 1
        }
    } else {
        0
    }
}

proof fn lemma_listing_says_something(terms: Seq<Seq<char>>)
    requires
        forall|i: int| 0 <= i < terms.len() ==> (#[trigger] terms[i]).len() > 0,
    ensures
        terms.len() > 0 <==> listing(terms).len() > 0,
{
    if terms.len() > 0 {
        assert(terms[0].len() > 0);
        assert(terms[terms.len() - 1].len() > 0);
    }
}

/// The prompt names the first terms, with a comma and a space between two and a
/// full stop behind the last: all of them, or as many as fit in 200 characters.
pub proof fn law_the_prompt_names_the_first_terms(entries: Seq<(Seq<char>, Seq<char>)>) -> (k: int)
    ensures
        0 <= k <= terms_of(entries).len(),
        k > 0 ==> prompt_of(entries) == Some(
            joined(terms_of(entries).take(k), seq![',', ' ']).push('.'),
        ),
        k == 0 ==> prompt_of(entries) is None,
        k < terms_of(entries).len() ==> joined(
            terms_of(entries).take(k + 1),
            seq![',', ' '],
        ).len() + 1 > 200,
{
    let terms = terms_of(entries);
    law_terms_are_listed_once(entries);
    let none = Seq::<Seq<char>>::empty();
    let k = lemma_with_terms_is(none, terms);
    assert(listing(none) == Seq::<char>::empty());
    assert(none + terms.take(k) == terms.take(k));
    if k < terms.len() {
        assert(none + terms.take(k + 1) == terms.take(k + 1));
    }
    assert forall|i: int| 0 <= i < terms.take(k).len() implies (#[trigger] terms.take(k)[i]).len()
        > 0 by {
        assert(terms.take(k)[i] == terms[i]);
    }
    lemma_listing_says_something(terms.take(k));
    k
}

/// One more entry adds its spelling at the end of the terms, or nothing where that
/// is blank or already there in whatever case.
pub proof fn law_terms_come_in_order(entries: Seq<(Seq<char>, Seq<char>)>, entry: (Seq<char>, Seq<char>))
    ensures
        trimmed(entry.1).len() > 0 && (forall|i: int|
            0 <= i < terms_of(entries).len() ==> lower_text(#[trigger] terms_of(entries)[i])
                != lower_text(trimmed(entry.1))) ==> terms_of(entries.push(entry)) == terms_of(
            entries,
        ).push(trimmed(entry.1)),
        trimmed(entry.1).len() == 0 || (exists|i: int|
            0 <= i < terms_of(entries).len() && lower_text(#[trigger] terms_of(entries)[i])
                == lower_text(trimmed(entry.1))) ==> terms_of(entries.push(entry)) == terms_of(
            entries,
        ),
{
    assert(entries.push(entry).drop_last() == entries);
}

/// The target spellings of a dictionary, trimmed, each once.
fn terms(entries: &Vec<(String, String)>) -> (r: Vec<Vec<char>>)
    ensures
        views(r@) == terms_of(pair_views(entries@)),
{
    let ghost all = pair_views(entries@);
    let mut out: Vec<Vec<char>> = Vec::new();
    let mut seen: Vec<String> = Vec::new();
    let mut i: usize = 0;
    while i < entries.len()
        invariant
            i <= entries.len(),
            all == pair_views(entries@),
            views(out@) == terms_of(all.take(i as int)),
            seen.len() == out.len(),
            forall|k: int|
                0 <= k < seen.len() ==> (#[trigger] seen@[k])@ == lower_text(out@[k]@),
        decreases entries.len() - i,
    {
        let ghost before = views(out@);
        proof {
            assert(all.take(i as int + 1).drop_last() == all.take(i as int));
            assert(all.take(i as int + 1).last() == all[i as int]);
            assert(all[i as int].1 == entries@[i as int].1@);
        }
        let want: Vec<char> = trim(chars_of(entries[i].1.as_str()).as_slice());
        let text: String = string_of(want.as_slice());
        let key: String = text.as_str().to_lowercase();
        let mut found: bool = false;
        let mut j: usize = 0;
        while j < seen.len()
            invariant
                j <= seen.len(),
                seen.len() == out.len(),
                before == views(out@),
                key@ == lower_text(want@),
                forall|k: int|
                    0 <= k < seen.len() ==> (#[trigger] seen@[k])@ == lower_text(out@[k]@),
                found ==> listed(before, want@),
                !found ==> forall|k: int|
                    0 <= k < j ==> lower_text(#[trigger] before[k]) != lower_text(want@),
            decreases seen.len() - j,
        {
            assert(before[j as int] == out@[j as int]@);
            if seen[j] == key {
                found = true;
            }
            j += 1;
        }
        if want.len() > 0 && !found {
            assert(!listed(before, want@));
            seen.push(key);
            let ghost term = want@;
            out.push(want);
            assert(views(out@) == before.push(term));
        }
        i += 1;
    }
    assert(all.take(i as int) == all);
    out
}

impl Dictionary {
    /// The target spellings, as text for the engine to treat as preceding
    /// context. Corrections still apply afterwards, so a word the prompt fails
    /// to tip is caught as before. `None` when there is nothing to say.
    pub fn prompt(&self) -> (r: Option<String>)
        ensures
            r is Some <==> prompt_of(self.entries()) is Some,
            r matches Some(p) ==> Some(p@) == prompt_of(self.entries()),
    {
        let list: Vec<Vec<char>> = terms(&self.entries);
        let ghost all = views(list@);
        let ghost end = with_terms(Seq::empty(), all);
        let mut out: Vec<char> = Vec::new();
        let mut i: usize = 0;
        assert(all.skip(0) == all);
        proof {
            reveal_strlit(", ");
        }
        while i < list.len()
            invariant_except_break
                with_terms(out@, all.skip(i as int)) == end,
            invariant
                i <= list.len(),
                all == views(list@),
            ensures
                out@ == end,
            decreases list.len() - i,
        {
            let ghost before = out@;
            let ghost rest = all.skip(i as int);
            let mut longer: Vec<char> = Vec::new();
            append(&mut longer, out.as_slice());
            if out.len() > 0 {
                append_str(&mut longer, ", ");
            }
            append(&mut longer, list[i].as_slice());
            proof {
                assert(rest[0] == list@[i as int]@);
                assert(longer@ == with_term(before, rest[0]));
                assert(rest.skip(1) == all.skip(i as int + 1));
            }
            if longer.len() >= PROMPT_MAX_CHARS {
                break;
            }
            out = longer;
            i += 1;
            proof {
                if i == list.len() {
                    assert(all.skip(i as int).len() == 0);
                }
            }
        }
        if out.len() == 0 {
            return None;
        }
        out.push('.');
        Some(string_of(out.as_slice()))
    }
}

} // verus!
