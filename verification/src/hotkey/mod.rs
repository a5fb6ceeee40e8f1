//! Global push-to-talk: what a keyboard hook makes of a key event.
//!
//! # Chords
//!
//! A [`Hotkey`] is a set of virtual-key codes that must all be held together.
//! The default is Ctrl+Win, which exists on every laptop.
//!
//! The chord *engages* on the key-down that completes it (every other key in the
//! chord already down) and *disengages* on the first key-up of any chord key.
//! Generic modifier codes (`SHIFT`, `CONTROL`, `MENU`) match either side;
//! side-specific codes match only that side.
//!
//! # Swallowing
//!
//! Some keys do something on their own when pressed and released with nothing in
//! between: Win opens Start, Alt focuses the menu bar, Caps Lock toggles. When
//! one of those keys is the one that completes the chord, the hook eats its down
//! *and* its later up, so Windows never sees the key at all. When the chord is
//! completed by some other key, nothing is swallowed: a second key was pressed
//! during the hold, so the solo action is suppressed anyway.

pub mod vk;

use crate::text::{
    append, chars_of, decimal, decimal_of, decimal_value, hex, hex_of, hex_value, join, joined,
    law_hex_reads_back, law_numbers_read_back, string_of, views,
};
use vstd::prelude::*;

verus! {

/// What the pipeline hears of the chord.
#[derive(Debug, Clone, Copy, PartialEq, Eq, Structural)]
pub enum HotkeyEvent {
    Pressed,
    Released,
}

// ---------------------------------------------------------------------------
// The chord
// ---------------------------------------------------------------------------

/// The keys held together to dictate.
#[derive(Debug, Clone, PartialEq, Eq)]
pub struct Hotkey {
    keys: Vec<u32>,
}

/// The most keys in a chord: the hook packs it into one `u64`, one byte per key.
pub const MAX_KEYS: usize = 8;

/// Whether a key has a virtual-key code.
pub open spec fn is_code(key: u32) -> bool {
    1 <= key <= 0xFF
}

/// The keys that are valid, each at its first place.
pub open spec fn valid_keys(keys: Seq<u32>) -> Seq<u32>
    decreases keys.len(),
{
    if keys.len() == 0 {
        Seq::empty()
    } else {
        let before = valid_keys(keys.drop_last());
        if is_code(keys.last()) && !before.contains(keys.last()) {
            before.push(keys.last())
        } else {
            before
        }
    }
}

/// The chord of some keys: the valid ones, each once, up to `MAX_KEYS`.
pub open spec fn chord_of(keys: Seq<u32>) -> Seq<u32> {
    if valid_keys(keys).len() > MAX_KEYS {
        valid_keys(keys).take(MAX_KEYS as int)
    } else {
        valid_keys(keys)
    }
}

/// Whether a chord is one that [`Hotkey::new`] makes.
pub open spec fn is_chord(keys: Seq<u32>) -> bool {
    &&& keys.len() <= MAX_KEYS
    &&& forall|i: int| 0 <= i < keys.len() ==> is_code(#[trigger] keys[i])
    &&& forall|i: int, j: int|
        #![trigger keys[i], keys[j]]
        0 <= i < j < keys.len() ==> keys[i] != keys[j]
}

proof fn lemma_valid_keys(keys: Seq<u32>)
    ensures
        forall|i: int| 0 <= i < valid_keys(keys).len() ==> is_code(#[trigger] valid_keys(keys)[i]),
        forall|i: int, j: int|
            #![trigger valid_keys(keys)[i], valid_keys(keys)[j]]
            0 <= i < j < valid_keys(keys).len() ==> valid_keys(keys)[i] != valid_keys(keys)[j],
    decreases keys.len(),
{
    if keys.len() > 0 {
        lemma_valid_keys(keys.drop_last());
        let before = valid_keys(keys.drop_last());
        let now = valid_keys(keys);
        if now != before {
            assert(now == before.push(keys.last()));
            assert forall|i: int| 0 <= i < now.len() implies is_code(#[trigger] now[i]) by {
                if i < before.len() {
                    assert(now[i] == before[i]);
                }
            }
            assert forall|i: int, j: int|
                #![trigger now[i], now[j]]
                0 <= i < j < now.len() implies now[i] != now[j] by {
                assert(now[i] == before[i]);
                if j < before.len() {
                    assert(now[j] == before[j]);
                } else {
                    assert(before.contains(before[i]));
                }
            }
        }
    }
}

/// Whatever the keys, they make a chord: valid codes, none twice, few enough to
/// be packed; and a chord makes itself.
pub proof fn law_any_keys_make_a_chord(keys: Seq<u32>)
    ensures
        is_chord(chord_of(keys)),
        is_chord(keys) ==> chord_of(keys) == keys,
{
    lemma_valid_keys(keys);
    if is_chord(keys) {
        lemma_valid_keys_of_chord(keys);
    }
}

/// One more key goes last into the chord if it is a code from 1 to 255 that is not
/// there yet, and there are fewer than eight; no key makes no chord.
pub proof fn law_keys_join_in_order(keys: Seq<u32>, key: u32)
    ensures
        chord_of(keys.push(key)) == (if 1 <= key <= 255 && !chord_of(keys).contains(key)
            && chord_of(keys).len() < 8 {
            chord_of(keys).push(key)
        } else {
            chord_of(keys)
        }),
        chord_of(Seq::empty()) == Seq::<u32>::empty(),
{
    assert(keys.push(key).drop_last() == keys);
    let v = valid_keys(keys);
    let w = valid_keys(keys.push(key));
    if v.len() >= 8 {
        assert(w.take(8) == v.take(8));
        assert(v.take(v.len() as int) == v);
        assert(w.take(8) == chord_of(keys)) by {
            if v.len() == 8 {
                assert(v.take(8) == v);
            }
        }
        if w.len() == 8 {
            assert(w.take(8) == w);
        }
    }
}

proof fn lemma_valid_keys_of_chord(keys: Seq<u32>)
    requires
        forall|i: int| 0 <= i < keys.len() ==> is_code(#[trigger] keys[i]),
        forall|i: int, j: int|
            #![trigger keys[i], keys[j]]
            0 <= i < j < keys.len() ==> keys[i] != keys[j],
    ensures
        valid_keys(keys) == keys,
    decreases keys.len(),
{
    if keys.len() > 0 {
        let front = keys.drop_last();
        assert forall|i: int| 0 <= i < front.len() implies is_code(#[trigger] front[i]) by {
            assert(front[i] == keys[i]);
        }
        lemma_valid_keys_of_chord(front);
        assert(keys[keys.len() - 1] == keys.last());
        if front.contains(keys.last()) {
            let i = choose|i: int| 0 <= i < front.len() && front[i] == keys.last();
            assert(keys[i] == keys[keys.len() - 1]);
        }
        assert(front.push(keys.last()) == keys);
    }
}

/// Whether a key is among some.
fn among(keys: &[u32], key: u32) -> (r: bool)
    ensures
        r == keys@.contains(key),
{
    let mut i: usize = 0;
    while i < keys.len()
        invariant
            i <= keys.len(),
            forall|j: int| 0 <= j < i ==> keys@[j] != key,
        decreases keys.len() - i,
    {
        if keys[i] == key {
            assert(keys@[i as int] == key);
            return true;
        }
        i += 1;
    }
    false
}

impl View for Hotkey {
    type V = Seq<u32>;

    closed spec fn view(&self) -> Seq<u32> {
        self.keys@
    }
}

impl Default for Hotkey {
    /// Ctrl+Win.
    fn default() -> (r: Hotkey)
        ensures
            r@ == seq![vk::CONTROL, vk::LWIN],
    {
        let mut keys: Vec<u32> = Vec::new();
        keys.push(vk::CONTROL);
        keys.push(vk::LWIN);
        assert(keys@ == seq![vk::CONTROL, vk::LWIN]);
        Hotkey { keys }
    }
}

impl Hotkey {
    /// Drops invalid codes and duplicates; keeps at most `MAX_KEYS`.
    pub fn new(keys: &[u32]) -> (r: Hotkey)
        ensures
            r@ == chord_of(keys@),
    {
        let mut out: Vec<u32> = Vec::new();
        let mut i: usize = 0;
        while i < keys.len()
            invariant
                i <= keys.len(),
                out@ == valid_keys(keys@.take(i as int)),
            decreases keys.len() - i,
        {
            let k: u32 = keys[i];
            proof {
                assert(keys@.take(i as int + 1).drop_last() == keys@.take(i as int));
                assert(keys@.take(i as int + 1).last() == k);
            }
            if 1 <= k && k <= 0xFF && !among(out.as_slice(), k) {
                out.push(k);
            }
            i += 1;
        }
        assert(keys@.take(i as int) == keys@);
        out.truncate(MAX_KEYS);
        Hotkey { keys: out }
    }

    /// The keys as they are, as a settings file gives them.
    pub fn from_stored(keys: Vec<u32>) -> (r: Hotkey)
        ensures
            r@ == keys@,
    {
        Hotkey { keys }
    }

    /// The keys, in order.
    pub fn keys(&self) -> (r: &[u32])
        ensures
            r@ == self@,
    {
        self.keys.as_slice()
    }

    /// Human-readable, e.g. `Ctrl+Win`. Used by the tray tooltip.
    pub fn label(&self) -> (r: String)
        ensures
            r@ == label_of(self@),
    {
        if self.keys.len() == 0 {
            return "nothing (disabled)".to_string();
        }
        let mut names: Vec<Vec<char>> = Vec::new();
        let mut i: usize = 0;
        while i < self.keys.len()
            invariant
                i <= self.keys.len(),
                views(names@) == names_of(self@).take(i as int),
            decreases self.keys.len() - i,
        {
            let ghost before = views(names@);
            let name: Vec<char> = chars_of(key_name(self.keys[i]).as_str());
            let ghost n = name@;
            names.push(name);
            assert(views(names@) == before.push(n));
            i += 1;
        }
        assert(names_of(self@).take(i as int) == names_of(self@));
        string_of(join(&names, chars_of("+").as_slice()).as_slice())
    }
}

/// The names of some keys.
pub open spec fn names_of(keys: Seq<u32>) -> Seq<Seq<char>> {
    Seq::new(keys.len(), |i: int| name_of(keys[i]))
}

/// What a chord is called.
pub open spec fn label_of(keys: Seq<u32>) -> Seq<char> {
    if keys.len() == 0 {
        "nothing (disabled)"@
    } else {
        joined(names_of(keys), "+"@)
    }
}

/// What a key is called.
pub open spec fn name_of(vk: u32) -> Seq<char> {
    if vk == 0x08 {
        "Backspace"@
    } else if vk == 0x09 {
        "Tab"@
    } else if vk == 0x0D {
        "Enter"@
    } else if vk == 0x10 {
        "Shift"@
    } else if vk == 0x11 {
        "Ctrl"@
    } else if vk == 0x12 {
        "Alt"@
    } else if vk == 0x13 {
        "Pause"@
    } else if vk == 0x14 {
        "Caps Lock"@
    } else if vk == 0x1B {
        "Esc"@
    } else if vk == 0x20 {
        "Space"@
    } else if vk == 0x5B {
        "Win"@
    } else if vk == 0x5C {
        "Right Win"@
    } else if vk == 0x5D {
        "Menu"@
    } else if vk == 0x90 {
        "Num Lock"@
    } else if vk == 0x91 {
        "Scroll Lock"@
    } else if vk == 0xA0 {
        "Left Shift"@
    } else if vk == 0xA1 {
        "Right Shift"@
    } else if vk == 0xA2 {
        "Left Ctrl"@
    } else if vk == 0xA3 {
        "Right Ctrl"@
    } else if vk == 0xA4 {
        "Left Alt"@
    } else if vk == 0xA5 {
        "Right Alt"@
    } else if 0x30 <= vk <= 0x39 || 0x41 <= vk <= 0x5A {
        seq![vk as char]
    } else if 0x70 <= vk <= 0x87 {
        "F"@ + decimal((vk - 0x6F) as nat)
    } else {
        "0x"@ + hex(vk as nat, 2)
    }
}

/// A key without a name of its own is called by its code: digits and letters are
/// themselves, function keys are numbered from 1, and any other key is `0x` and its
/// code in hexadecimal.
pub proof fn law_keys_are_called_by_their_codes(vk: u32)
    ensures
        0x30 <= vk <= 0x39 || 0x41 <= vk <= 0x5A ==> name_of(vk) == seq![vk as char],
        0x70 <= vk <= 0x87 ==> name_of(vk).len() > 1 && name_of(vk)[0] == 'F' && decimal_value(
            name_of(vk).skip(1),
        ) == Some((vk - 0x70 + 1) as nat),
        vk < 0x08 || 0x0A <= vk <= 0x0C || 0x0E <= vk <= 0x0F || 0x15 <= vk <= 0x1A || 0x1C <= vk
            <= 0x1F || 0x21 <= vk <= 0x2F || 0x3A <= vk <= 0x40 || 0x5E <= vk <= 0x6F || 0x88 <= vk
            <= 0x8F || 0x92 <= vk <= 0x9F || vk >= 0xA6 ==> name_of(vk).len() >= 4 && name_of(vk)[0]
            == '0' && name_of(vk)[1] == 'x' && hex_value(name_of(vk).skip(2)) == vk,
{
    reveal_strlit("F");
    reveal_strlit("0x");
    if 0x70 <= vk <= 0x87 {
        let n = (vk - 0x6F) as nat;
        law_numbers_read_back(n, 0);
        assert(("F"@ + decimal(n)).skip(1) == decimal(n));
    }
    let h = hex(vk as nat, 2);
    law_hex_reads_back(vk as nat, 2);
    assert(("0x"@ + h).skip(2) == h);
}

/// The label of a chord names its keys in order, with a plus between two.
pub proof fn law_a_label_names_every_key(keys: Seq<u32>, key: u32)
    ensures
        label_of(seq![key]) == name_of(key),
        keys.len() > 0 ==> label_of(keys.push(key)) == label_of(keys) + seq!['+'] + name_of(key),
{
    reveal_strlit("+");
    assert("+"@ == seq!['+']);
    assert(names_of(seq![key])[0] == name_of(key));
    let all = names_of(keys.push(key));
    assert(all.drop_last() == names_of(keys));
    assert(all.last() == name_of(key));
}

/// Name for a VK code.
pub fn key_name(vk: u32) -> (r: String)
    ensures
        r@ == name_of(vk),
{
    let fixed: &str = match vk {
        0x08 => "Backspace",
        0x09 => "Tab",
        0x0D => "Enter",
        0x10 => "Shift",
        0x11 => "Ctrl",
        0x12 => "Alt",
        0x13 => "Pause",
        0x14 => "Caps Lock",
        0x1B => "Esc",
        0x20 => "Space",
        0x5B => "Win",
        0x5C => "Right Win",
        0x5D => "Menu",
        0x90 => "Num Lock",
        0x91 => "Scroll Lock",
        0xA0 => "Left Shift",
        0xA1 => "Right Shift",
        0xA2 => "Left Ctrl",
        0xA3 => "Right Ctrl",
        0xA4 => "Left Alt",
        0xA5 => "Right Alt",
        _ => {
            if (0x30 <= vk && vk <= 0x39) || (0x41 <= vk && vk <= 0x5A) {
                let mut name: String = String::new();
                name.push((vk as u8) as char);
                assert(name@ == seq![vk as char]);
                return name;
            }
            if 0x70 <= vk && vk <= 0x87 {
                let mut name: Vec<char> = chars_of("F");
                append(&mut name, decimal_of((vk - 0x6F) as u64).as_slice());
                return string_of(name.as_slice());
            }
            let mut name: Vec<char> = chars_of("0x");
            append(&mut name, hex_of(vk as u64, 2).as_slice());
            return string_of(name.as_slice());
        },
    };
    fixed.to_string()
}

// ---------------------------------------------------------------------------
// Packing
// ---------------------------------------------------------------------------

/// One byte of a packed chord.
pub open spec fn packed_byte(packed: u64, i: int) -> u64 {
    (packed >> ((8 * i) as u64)) & 0xFF
}

/// The keys in the first `n` bytes; a zero byte is no key.
pub open spec fn unpacked(packed: u64, n: int) -> Seq<u32>
    decreases n,
{
    if n <= 0 {
        Seq::empty()
    } else if packed_byte(packed, n - 1) == 0 {
        unpacked(packed, n - 1)
    } else {
        unpacked(packed, n - 1).push(packed_byte(packed, n - 1) as u32)
    }
}

/// The keys of a packed chord.
pub open spec fn unpack_of(packed: u64) -> Seq<u32> {
    unpacked(packed, MAX_KEYS as int)
}

/// The keys that are packed: all, or the first `MAX_KEYS`.
pub open spec fn packable(keys: Seq<u32>) -> Seq<u32> {
    if keys.len() > MAX_KEYS {
        keys.take(MAX_KEYS as int)
    } else {
        keys
    }
}

/// Whether a chord is packed: the low byte of each key in a byte of its own.
pub open spec fn is_packed(packed: u64, keys: Seq<u32>) -> bool {
    forall|i: int|
        #![trigger packed_byte(packed, i)]
        0 <= i < MAX_KEYS ==> packed_byte(packed, i) == if i < keys.len() {
            (keys[i] as u64) & 0xFF
        } else {
            0
        }
}

/// Putting a byte where there is none leaves the others.
proof fn lemma_put_byte(acc: u64, x: u64, s: u64, t: u64)
    requires
        x <= 0xFF,
        s <= 56,
        t <= 56,
        s % 8 == 0,
        t % 8 == 0,
        (acc >> s) & 0xFF == 0,
    ensures
        ((acc | (x << s)) >> t) & 0xFF == if t == s {
            x
        } else {
            (acc >> t) & 0xFF
        },
{
    assert(((acc | (x << s)) >> t) & 0xFF == if t == s {
        x
    } else {
        (acc >> t) & 0xFF
    }) by (bit_vector)
        requires
            x <= 0xFF,
            s <= 56,
            t <= 56,
            s % 8 == 0,
            t % 8 == 0,
            (acc >> s) & 0xFF == 0,
    ;
}

impl Hotkey {
    /// The chord in one `u64`. Of a stored chord with more keys than fit, the
    /// first are taken.
    pub fn pack(&self) -> (r: u64)
        ensures
            is_packed(r, packable(self@)),
    {
        let n: usize = if self.keys.len() > MAX_KEYS {
            MAX_KEYS
        } else {
            self.keys.len()
        };
        let ghost all = packable(self@);
        let mut acc: u64 = 0;
        let mut i: usize = 0;
        proof {
            assert forall|j: int| 0 <= j < MAX_KEYS implies #[trigger] packed_byte(0, j) == 0 by {
                let s = (8 * j) as u64;
                assert((0u64 >> s) & 0xFF == 0) by (bit_vector);
            }
        }
        while i < n
            invariant
                i <= n <= self.keys.len(),
                n == all.len() <= MAX_KEYS,
                all == packable(self@),
                is_packed(acc, all.take(i as int)),
            decreases n - i,
        {
            let k: u64 = self.keys[i] as u64 & 0xFF;
            let shift: u64 = 8 * (i as u64);
            let next: u64 = acc | (k << shift);
            proof {
                let key = all[i as int] as u64;
                assert(k <= 0xFF) by (bit_vector)
                    requires
                        k == key & 0xFF,
                ;
                assert(packed_byte(acc, i as int) == 0);
                assert forall|j: int| 0 <= j < MAX_KEYS implies #[trigger] packed_byte(next, j)
                    == if j < i + 1 {
                    (all.take(i + 1)[j] as u64) & 0xFF
                } else {
                    0
                } by {
                    lemma_put_byte(acc, k, shift, (8 * j) as u64);
                    assert(packed_byte(acc, j) == if j < i {
                        (all.take(i as int)[j] as u64) & 0xFF
                    } else {
                        0
                    });
                }
            }
            acc = next;
            i += 1;
        }
        assert(all.take(i as int) == all);
        acc
    }
}

/// The keys of a packed chord, in an array, and how many there are. Allocates
/// nothing.
fn unpack_in_place(packed: u64) -> (r: ([u32; 8], usize))
    ensures
        r.1 <= MAX_KEYS,
        r.0@.take(r.1 as int) == unpack_of(packed),
{
    let mut keys: [u32; 8] = [0, 0, 0, 0, 0, 0, 0, 0];
    let mut n: usize = 0;
    let mut i: usize = 0;
    while i < MAX_KEYS
        invariant
            n <= i <= MAX_KEYS,
            keys@.len() == MAX_KEYS,
            keys@.take(n as int) == unpacked(packed, i as int),
        decreases MAX_KEYS - i,
    {
        let b: u64 = (packed >> (8 * (i as u64))) & 0xFF;
        assert(b == packed_byte(packed, i as int));
        if b != 0 {
            let ghost before = keys@;
            keys[n] = b as u32;
            assert(keys@.take(n + 1) == before.take(n as int).push(b as u32));
            n += 1;
        }
        i += 1;
    }
    (keys, n)
}

/// The keys of a packed chord.
pub fn unpack(packed: u64) -> (r: Vec<u32>)
    ensures
        r@ == unpack_of(packed),
{
    let (keys, n): ([u32; 8], usize) = unpack_in_place(packed);
    let mut r: Vec<u32> = Vec::new();
    let mut i: usize = 0;
    while i < n
        invariant
            i <= n <= MAX_KEYS,
            keys@.len() == MAX_KEYS,
            r@ == keys@.take(i as int),
        decreases n - i,
    {
        r.push(keys[i]);
        assert(keys@.take(i + 1) == keys@.take(i as int).push(keys@[i as int]));
        i += 1;
    }
    r
}

/// What the hook makes of keys: the low byte of each, where it is not zero.
pub open spec fn low_bytes(keys: Seq<u32>) -> Seq<u32>
    decreases keys.len(),
{
    if keys.len() == 0 {
        Seq::empty()
    } else {
        let before = low_bytes(keys.drop_last());
        let b = keys.last() & 0xFF;
        if b == 0 {
            before
        } else {
            before.push(b)
        }
    }
}

/// What packed keys are read back as. Packing loses nothing of a chord, nor of
/// its order.
pub proof fn law_packing_round_trips(keys: Seq<u32>, packed: u64)
    requires
        keys.len() <= MAX_KEYS,
        is_packed(packed, keys),
    ensures
        unpack_of(packed) == low_bytes(keys),
        is_chord(keys) ==> unpack_of(packed) == keys,
{
    lemma_unpacked(keys, packed, MAX_KEYS as int);
    assert(keys.take(keys.len() as int) == keys);
    if is_chord(keys) {
        lemma_low_bytes(keys);
    }
}

proof fn lemma_low_bytes(keys: Seq<u32>)
    requires
        forall|i: int| 0 <= i < keys.len() ==> is_code(#[trigger] keys[i]),
    ensures
        low_bytes(keys) == keys,
    decreases keys.len(),
{
    if keys.len() > 0 {
        let front = keys.drop_last();
        assert forall|i: int| 0 <= i < front.len() implies is_code(#[trigger] front[i]) by {
            assert(front[i] == keys[i]);
        }
        lemma_low_bytes(front);
        let key = keys[keys.len() - 1];
        assert(key & 0xFF == key) by (bit_vector)
            requires
                key <= 0xFF,
        ;
        assert(front.push(key) == keys);
    }
}

proof fn lemma_unpacked(keys: Seq<u32>, packed: u64, n: int)
    requires
        keys.len() <= MAX_KEYS,
        is_packed(packed, keys),
        0 <= n <= MAX_KEYS,
    ensures
        unpacked(packed, n) == low_bytes(
            keys.take(if n < keys.len() {
                n
            } else {
                keys.len() as int
            }),
        ),
    decreases n,
{
    if n > 0 {
        lemma_unpacked(keys, packed, n - 1);
        let b = packed_byte(packed, n - 1);
        if n - 1 < keys.len() {
            let key = keys[n - 1];
            assert(((key as u64) & 0xFF) as u32 == key & 0xFF) by (bit_vector);
            assert(((key as u64) & 0xFF) == 0 <==> key & 0xFF == 0) by (bit_vector);
            assert(b == (key as u64) & 0xFF);
            assert(keys.take(n).drop_last() == keys.take(n - 1));
            assert(keys.take(n).last() == key);
        }
    }
}

// ---------------------------------------------------------------------------
// Matching
// ---------------------------------------------------------------------------

/// Whether a chord entry matches a physical key. The hook always reports
/// side-specific modifier codes; a generic entry accepts either side.
pub open spec fn entry_matches(entry: u32, physical: u32) -> bool {
    ||| entry == physical
    ||| entry == vk::SHIFT && (physical == vk::LSHIFT || physical == vk::RSHIFT)
    ||| entry == vk::CONTROL && (physical == vk::LCONTROL || physical == vk::RCONTROL)
    ||| entry == vk::MENU && (physical == vk::LMENU || physical == vk::RMENU)
}

/// Whether any key of the chord matches.
pub open spec fn chord_has(keys: Seq<u32>, physical: u32) -> bool {
    exists|i: int| 0 <= i < keys.len() && entry_matches(#[trigger] keys[i], physical)
}

/// Either side of a generic modifier counts, and only they; any other key matches
/// itself alone, so that a lone Right Ctrl is never any Ctrl.
pub proof fn law_a_lone_modifier_keeps_its_side(entry: u32, physical: u32)
    ensures
        entry_matches(vk::SHIFT, vk::LSHIFT) && entry_matches(vk::SHIFT, vk::RSHIFT),
        entry_matches(vk::CONTROL, vk::LCONTROL) && entry_matches(vk::CONTROL, vk::RCONTROL),
        entry_matches(vk::MENU, vk::LMENU) && entry_matches(vk::MENU, vk::RMENU),
        entry != vk::SHIFT && entry != vk::CONTROL && entry != vk::MENU ==> (entry_matches(
            entry,
            physical,
        ) <==> entry == physical),
{
}

/// Which keys an entry stands for, by their codes: Shift, Ctrl and Alt for
/// themselves and for either side, and every other key for itself alone.
pub proof fn law_an_entry_stands_for_these_keys(entry: u32, physical: u32)
    ensures
        entry_matches(entry, physical) <==> physical == entry || (entry == 0x10 && 0xA0 <= physical
            <= 0xA1) || (entry == 0x11 && 0xA2 <= physical <= 0xA3) || (entry == 0x12 && 0xA4
            <= physical <= 0xA5),
{
}

/// Does a chord entry match a physical key?
pub fn matches(entry: u32, physical: u32) -> (r: bool)
    ensures
        r == entry_matches(entry, physical),
{
    entry == physical || (entry == vk::SHIFT && (physical == vk::LSHIFT || physical == vk::RSHIFT))
        || (entry == vk::CONTROL && (physical == vk::LCONTROL || physical == vk::RCONTROL)) || (
    entry == vk::MENU && (physical == vk::LMENU || physical == vk::RMENU))
}

/// Does any entry of the chord match a physical key?
pub fn chord_contains(chord: &[u32], physical: u32) -> (r: bool)
    ensures
        r == chord_has(chord@, physical),
{
    let mut i: usize = 0;
    while i < chord.len()
        invariant
            i <= chord.len(),
            forall|j: int| 0 <= j < i ==> !entry_matches(#[trigger] chord@[j], physical),
        decreases chord.len() - i,
    {
        if matches(chord[i], physical) {
            assert(entry_matches(chord@[i as int], physical));
            return true;
        }
        i += 1;
    }
    false
}

/// What [`chord_completed_by`] may answer, given what `is_down` may answer: yes
/// takes an entry that matches, and every other entry reported down; no takes
/// that none matches, or another entry reported up.
pub open spec fn completion<F: Fn(u32) -> bool>(
    is_down: F,
    chord: Seq<u32>,
    physical: u32,
    completed: bool,
) -> bool {
    if completed {
        &&& chord_has(chord, physical)
        &&& forall|i: int|
            0 <= i < chord.len() && !entry_matches(#[trigger] chord[i], physical)
                ==> is_down.ensures((chord[i],), true)
    } else {
        ||| !chord_has(chord, physical)
        ||| exists|i: int|
            0 <= i < chord.len() && !entry_matches(#[trigger] chord[i], physical)
                && is_down.ensures((chord[i],), false)
    }
}

/// Whether the key state can be asked for: of every entry that does not match.
/// The entry that does is the event itself, which the state does not show yet.
pub open spec fn can_ask<F: Fn(u32) -> bool>(is_down: F, chord: Seq<u32>, physical: u32) -> bool {
    forall|i: int|
        0 <= i < chord.len() && !entry_matches(#[trigger] chord[i], physical) ==> is_down.requires(
            (chord[i],),
        )
}

/// Whether `physical` going down completes the chord, by which keys are down: it
/// matches one entry and every other entry is already held.
pub open spec fn completes(chord: Seq<u32>, physical: u32, down: spec_fn(u32) -> bool) -> bool {
    &&& chord_has(chord, physical)
    &&& forall|i: int|
        0 <= i < chord.len() && !entry_matches(#[trigger] chord[i], physical) ==> down(chord[i])
}

/// Where the key state is what it is, so is the answer.
pub proof fn law_key_state_settles_completion<F: Fn(u32) -> bool>(
    is_down: F,
    down: spec_fn(u32) -> bool,
    chord: Seq<u32>,
    physical: u32,
    completed: bool,
)
    requires
        forall|k: u32, b: bool| #[trigger] is_down.ensures((k,), b) ==> b == down(k),
        completion(is_down, chord, physical, completed),
    ensures
        completed == completes(chord, physical, down),
{
    if completed {
        assert forall|i: int|
            0 <= i < chord.len() && !entry_matches(#[trigger] chord[i], physical) implies down(
            chord[i],
        ) by {
            assert(is_down.ensures((chord[i],), true));
        }
    } else if chord_has(chord, physical) {
        let i = choose|i: int|
            0 <= i < chord.len() && !entry_matches(#[trigger] chord[i], physical)
                && is_down.ensures((chord[i],), false);
        assert(!down(chord[i]));
    }
}

/// A chord is completed by a key of its own with every other key down: one entry
/// that the key does not stand for and that is up is enough to hold it back, and so
/// is a key that no entry stands for.
pub proof fn law_every_key_must_be_down(
    chord: Seq<u32>,
    physical: u32,
    down: spec_fn(u32) -> bool,
    i: int,
)
    requires
        0 <= i < chord.len(),
    ensures
        ({
            let stands = |entry: u32|
                entry == physical || (entry == 0x10 && 0xA0 <= physical <= 0xA1) || (entry == 0x11
                    && 0xA2 <= physical <= 0xA3) || (entry == 0x12 && 0xA4 <= physical <= 0xA5);
            &&& !stands(chord[i]) && !down(chord[i]) ==> !completes(chord, physical, down)
            &&& (forall|j: int| 0 <= j < chord.len() ==> !stands(#[trigger] chord[j])) ==> !completes(
                chord,
                physical,
                down,
            )
            &&& stands(chord[i]) && (forall|j: int|
                0 <= j < chord.len() ==> stands(#[trigger] chord[j]) || down(chord[j]))
                ==> completes(chord, physical, down)
        }),
{
    law_an_entry_stands_for_these_keys(chord[i], physical);
    assert forall|j: int| 0 <= j < chord.len() implies (entry_matches(#[trigger] chord[j], physical)
        <==> chord[j] == physical || (chord[j] == 0x10 && 0xA0 <= physical <= 0xA1) || (chord[j]
        == 0x11 && 0xA2 <= physical <= 0xA3) || (chord[j] == 0x12 && 0xA4 <= physical <= 0xA5)) by {
        law_an_entry_stands_for_these_keys(chord[j], physical);
    }
}

/// An empty chord is never completed, whatever is held.
pub proof fn law_an_empty_chord_never_fires(physical: u32, down: spec_fn(u32) -> bool)
    ensures
        !completes(Seq::empty(), physical, down),
{
}

/// With everything else held, the order of the presses does not matter: any key
/// of the chord can be the one that completes it.
pub proof fn law_any_order_completes(chord: Seq<u32>, i: int, down: spec_fn(u32) -> bool)
    requires
        0 <= i < chord.len(),
        forall|j: int| 0 <= j < chord.len() && j != i ==> down(#[trigger] chord[j]),
    ensures
        completes(chord, chord[i], down),
{
    assert(entry_matches(chord[i], chord[i]));
}

/// True when `physical` going down completes the chord: it matches one entry and
/// every other entry is already held according to `is_down`, which is asked of no
/// other key.
pub fn chord_completed_by<F: Fn(u32) -> bool>(chord: &[u32], physical: u32, is_down: F) -> (r: bool)
    requires
        can_ask(is_down, chord@, physical),
    ensures
        completion(is_down, chord@, physical, r),
{
    let mut hit: bool = false;
    let mut i: usize = 0;
    while i < chord.len()
        invariant
            i <= chord.len(),
            can_ask(is_down, chord@, physical),
            hit <==> exists|j: int| 0 <= j < i && entry_matches(#[trigger] chord@[j], physical),
            forall|j: int|
                0 <= j < i && !entry_matches(#[trigger] chord@[j], physical) ==> is_down.ensures(
                    (chord@[j],),
                    true,
                ),
        decreases chord.len() - i,
    {
        let entry: u32 = chord[i];
        if matches(entry, physical) {
            assert(entry_matches(chord@[i as int], physical));
            hit = true;
        } else if !is_down(entry) {
            return false;
        }
        i += 1;
    }
    hit
}

// ---------------------------------------------------------------------------
// Swallowed keys
// ---------------------------------------------------------------------------

/// A bitset over the 256 VK codes: keys whose down was eaten, so that the up is
/// eaten too.
#[derive(Debug, Clone, Copy)]
pub struct Swallowed {
    words: [u64; 4],
}

/// The place of a key in the bitset.
pub open spec fn slot(vk: u32) -> int {
    vk as int % 256
}

/// Whether a bit of a word is set.
pub open spec fn bit(word: u64, b: u64) -> bool {
    word & (1u64 << b) != 0
}

proof fn lemma_set_bit(word: u64, a: u64, b: u64)
    requires
        a < 64,
        b < 64,
    ensures
        bit(word | (1u64 << a), b) == (a == b || bit(word, b)),
{
    assert(((word | (1u64 << a)) & (1u64 << b) != 0) == (a == b || (word & (1u64 << b) != 0)))
        by (bit_vector)
        requires
            a < 64,
            b < 64,
    ;
}

proof fn lemma_clear_bit(word: u64, a: u64, b: u64)
    requires
        a < 64,
        b < 64,
    ensures
        bit(word & !(1u64 << a), b) == (a != b && bit(word, b)),
{
    assert(((word & !(1u64 << a)) & (1u64 << b) != 0) == (a != b && (word & (1u64 << b) != 0)))
        by (bit_vector)
        requires
            a < 64,
            b < 64,
    ;
}

/// The keys of four words of 64 bits, lowest first.
pub open spec fn word_keys(words: Seq<u64>) -> Set<int> {
    Set::new(|s: int| 0 <= s < 256 && bit(words[s / 64], (s % 64) as u64))
}

/// Setting a key's bit adds the key.
proof fn lemma_set_key(words: Seq<u64>, vk: u32)
    requires
        words.len() == 4,
    ensures
        ({
            let i = (vk / 64 % 4) as int;
            let b = (vk % 64) as u64;
            word_keys(words.update(i, words[i] | (1u64 << b))) == word_keys(words).insert(slot(vk))
        }),
{
    let i = (vk / 64 % 4) as int;
    let b = (vk % 64) as u64;
    let after = words.update(i, words[i] | (1u64 << b));
    let want = word_keys(words).insert(slot(vk));
    assert(slot(vk) == 64 * i + b);
    assert forall|s: int| #[trigger] word_keys(after).contains(s) == want.contains(s) by {
        if 0 <= s < 256 {
            if s / 64 == i {
                lemma_set_bit(words[i], b, (s % 64) as u64);
            } else {
                assert(after[s / 64] == words[s / 64]);
            }
        }
    }
    assert(word_keys(after) == want);
}

/// Clearing a key's bit takes the key out.
proof fn lemma_clear_key(words: Seq<u64>, vk: u32)
    requires
        words.len() == 4,
    ensures
        ({
            let i = (vk / 64 % 4) as int;
            let b = (vk % 64) as u64;
            word_keys(words.update(i, words[i] & !(1u64 << b))) == word_keys(words).remove(slot(vk))
        }),
{
    let i = (vk / 64 % 4) as int;
    let b = (vk % 64) as u64;
    let after = words.update(i, words[i] & !(1u64 << b));
    let want = word_keys(words).remove(slot(vk));
    assert(slot(vk) == 64 * i + b);
    assert forall|s: int| #[trigger] word_keys(after).contains(s) == want.contains(s) by {
        if 0 <= s < 256 {
            if s / 64 == i {
                lemma_clear_bit(words[i], b, (s % 64) as u64);
            } else {
                assert(after[s / 64] == words[s / 64]);
            }
        }
    }
    assert(word_keys(after) == want);
}

impl View for Swallowed {
    type V = Set<int>;

    closed spec fn view(&self) -> Set<int> {
        word_keys(self.words@)
    }
}

impl Swallowed {
    /// No key.
    pub fn none() -> (r: Swallowed)
        ensures
            r@ == Set::<int>::empty(),
    {
        proof {
            assert forall|b: u64| b < 64 implies !#[trigger] bit(0, b) by {
                assert(0u64 & (1u64 << b) == 0) by (bit_vector);
            }
        }
        let r: Swallowed = Swallowed { words: [0, 0, 0, 0] };
        assert forall|s: int| !#[trigger] r@.contains(s) by {
            if 0 <= s < 256 {
                assert(r.words@[s / 64] == 0);
            }
        }
        assert(r@ == Set::<int>::empty());
        r
    }

    /// The keys of four words of 64 bits, lowest first.
    pub fn from_words(words: [u64; 4]) -> (r: Swallowed)
        ensures
            r@ == word_keys(words@),
    {
        Swallowed { words }
    }

    /// The four words.
    pub fn words(&self) -> (r: [u64; 4])
        ensures
            self@ == word_keys(r@),
    {
        self.words
    }
}

/// Marks a key as eaten.
pub fn set_swallowed(keys: &mut Swallowed, vk: u32)
    ensures
        final(keys)@ == old(keys)@.insert(slot(vk)),
{
    let i: usize = (vk / 64 % 4) as usize;
    let b: u64 = (vk % 64) as u64;
    let ghost before = keys.words@;
    let word: u64 = keys.words[i] | (1u64 << b);
    keys.words[i] = word;
    proof {
        assert(keys.words@ == before.update(i as int, word));
        lemma_set_key(before, vk);
    }
}

/// Whether a key's down was eaten.
pub fn is_swallowed(keys: &Swallowed, vk: u32) -> (r: bool)
    ensures
        r == keys@.contains(slot(vk)),
{
    let i: usize = (vk / 64 % 4) as usize;
    let b: u64 = (vk % 64) as u64;
    keys.words[i] & (1u64 << b) != 0
}

/// Whether a key's down was eaten, and no longer.
pub fn take_swallowed(keys: &mut Swallowed, vk: u32) -> (r: bool)
    ensures
        r == old(keys)@.contains(slot(vk)),
        final(keys)@ == old(keys)@.remove(slot(vk)),
{
    let i: usize = (vk / 64 % 4) as usize;
    let b: u64 = (vk % 64) as u64;
    let ghost before = keys.words@;
    let had: bool = keys.words[i] & (1u64 << b) != 0;
    let word: u64 = keys.words[i] & !(1u64 << b);
    keys.words[i] = word;
    proof {
        assert(keys.words@ == before.update(i as int, word));
        lemma_clear_key(before, vk);
    }
    had
}

// ---------------------------------------------------------------------------
// The hook
// ---------------------------------------------------------------------------

/// Which way a key went.
#[derive(Debug, Clone, Copy, PartialEq, Eq, Structural)]
pub enum Transition {
    Down,
    Up,
    Other,
}

/// A key event, as the hook hears of it.
#[derive(Debug, Clone, Copy, PartialEq, Eq, Structural)]
pub struct KeyEvent {
    pub vk: u32,
    pub transition: Transition,
    /// Sent by a program. Ctrl+V for a paste comes back through the hook; a
    /// physical hotkey must never be confused with it.
    pub injected: bool,
}

/// What the hook makes of a key event.
#[derive(Debug, Clone, Copy, PartialEq, Eq, Structural)]
pub struct Verdict {
    /// What the pipeline is told.
    pub event: Option<HotkeyEvent>,
    /// Whether Windows is kept from seeing the key.
    pub eaten: bool,
}

/// What the hook remembers.
#[verifier::ext_equal]
pub ghost struct HookView {
    /// The active chord.
    pub chord: Seq<u32>,
    /// Chord currently engaged. Also collapses key auto-repeat to one press.
    pub held: bool,
    /// Keys whose down was eaten.
    pub swallowed: Set<int>,
}

/// Keys with a solo press-release action that must not fire when they were only
/// ever part of the chord.
pub open spec fn has_solo_action(vk: u32) -> bool {
    vk == vk::LWIN || vk == vk::RWIN || vk == vk::LMENU || vk == vk::RMENU || vk == vk::CAPITAL
}

fn solo_action(key: u32) -> (r: bool)
    ensures
        r == has_solo_action(key),
{
    key == vk::LWIN || key == vk::RWIN || key == vk::LMENU || key == vk::RMENU || key == vk::CAPITAL
}

impl HookView {
    /// Whether a key event may engage the chord, so that the key state matters.
    pub open spec fn asks(self, ev: KeyEvent) -> bool {
        !ev.injected && ev.transition is Down && !self.held
    }

    /// What the hook remembers after a key event, and what it makes of it.
    /// `completed` says whether the key completed the chord, where that matters.
    pub open spec fn after(self, ev: KeyEvent, completed: bool) -> (HookView, Verdict) {
        let pass = Verdict { event: None, eaten: false };
        if ev.injected {
            (self, pass)
        } else {
            match ev.transition {
                Transition::Down => if self.held {
                    (self, Verdict { event: None, eaten: self.swallowed.contains(slot(ev.vk)) })
                } else if !completed {
                    (self, pass)
                } else if has_solo_action(ev.vk) {
                    (
                        HookView {
                            held: true,
                            swallowed: self.swallowed.insert(slot(ev.vk)),
                            ..self
                        },
                        Verdict { event: Some(HotkeyEvent::Pressed), eaten: true },
                    )
                } else {
                    (
                        HookView { held: true, ..self },
                        Verdict { event: Some(HotkeyEvent::Pressed), eaten: false },
                    )
                },
                Transition::Up => {
                    let released = self.held && chord_has(self.chord, ev.vk);
                    (
                        HookView {
                            held: self.held && !released,
                            swallowed: self.swallowed.remove(slot(ev.vk)),
                            ..self
                        },
                        Verdict {
                            event: if released {
                                Some(HotkeyEvent::Released)
                            } else {
                                None
                            },
                            eaten: self.swallowed.contains(slot(ev.vk)),
                        },
                    )
                },
                Transition::Other => (self, pass),
            }
        }
    }

    /// What the hook remembers after the chord was replaced, and what the
    /// pipeline is told: if the old chord was engaged, its release would no
    /// longer be recognised, so it is released here.
    pub open spec fn with_chord(self, chord: Seq<u32>) -> (HookView, Option<HotkeyEvent>) {
        (
            HookView { chord, held: false, ..self },
            if self.held {
                Some(HotkeyEvent::Released)
            } else {
                None
            },
        )
    }
}

/// Presses and releases alternate: a press is told only when the chord was not
/// engaged, and engages it; a release only when it was, and disengages it; and
/// nothing else engages or disengages it. Auto-repeat is therefore one press.
pub proof fn law_presses_and_releases_alternate(
    s: HookView,
    ev: KeyEvent,
    completed: bool,
    chord: Seq<u32>,
)
    ensures
        s.after(ev, completed).1.event == Some(HotkeyEvent::Pressed) <==> !s.held && s.after(
            ev,
            completed,
        ).0.held,
        s.after(ev, completed).1.event == Some(HotkeyEvent::Released) <==> s.held && !s.after(
            ev,
            completed,
        ).0.held,
        !s.with_chord(chord).0.held,
        s.with_chord(chord).1 == Some(HotkeyEvent::Released) <==> s.held,
        s.with_chord(chord).1 != Some(HotkeyEvent::Pressed),
{
}

/// What a program sent passes by, and changes nothing.
pub proof fn law_injected_keys_pass(s: HookView, ev: KeyEvent, completed: bool)
    requires
        ev.injected,
    ensures
        s.after(ev, completed) == (s, Verdict { event: None, eaten: false }),
{
}

/// A key is eaten on the way down only where it completed the chord with a solo
/// action of its own, or repeats after that; and what was eaten on the way down
/// is eaten on the way up, once, whatever other keys do in between.
pub proof fn law_a_swallowed_key_is_never_seen(
    s: HookView,
    ev: KeyEvent,
    completed: bool,
    vk: u32,
    later: bool,
)
    ensures
        ({
            let (next, verdict) = s.after(ev, completed);
            let up = KeyEvent { vk, transition: Transition::Up, injected: false };
            &&& verdict.eaten && ev.transition is Down ==> next.swallowed.contains(slot(ev.vk))
            &&& verdict.eaten && ev.transition is Down && !s.swallowed.contains(slot(ev.vk))
                ==> has_solo_action(ev.vk) && verdict.event == Some(HotkeyEvent::Pressed)
            &&& s.swallowed.contains(slot(vk)) && !next.swallowed.contains(slot(vk)) ==> slot(ev.vk)
                == slot(vk) && ev.transition is Up && verdict.eaten
            &&& s.after(up, later).1.eaten == s.swallowed.contains(slot(vk))
            &&& !s.after(up, later).0.swallowed.contains(slot(vk))
        }),
{
}

/// A key that does something of its own when it is tapped (either Windows key,
/// either Alt, Caps Lock) is eaten where it completes the chord, with its
/// repeats, and with its way up, whatever another key did in between. No other
/// key is eaten.
pub proof fn law_a_solo_key_never_acts(
    s: HookView,
    vk: u32,
    other: KeyEvent,
    between: bool,
    later: bool,
)
    requires
        !s.held,
    ensures
        ({
            let solo = vk == 0x5B || vk == 0x5C || vk == 0xA4 || vk == 0xA5 || vk == 0x14;
            let down = KeyEvent { vk, transition: Transition::Down, injected: false };
            let up = KeyEvent { vk, transition: Transition::Up, injected: false };
            let (held, verdict) = s.after(down, true);
            &&& verdict == (Verdict { event: Some(HotkeyEvent::Pressed), eaten: solo })
            &&& held.held && held.chord == s.chord
            &&& solo ==> held.after(up, later).1.eaten
            &&& solo ==> held.after(down, later) == (held, Verdict { event: None, eaten: true })
            &&& solo && vk <= 0xFF && other.vk <= 0xFF && other.vk != vk ==> held.after(
                other,
                between,
            ).0.after(up, later).1.eaten
            &&& !solo ==> held == (HookView { held: true, ..s })
            &&& s.after(down, false) == (s, Verdict { event: None, eaten: false })
        }),
{
}

/// An event of a key changes nothing that the hook remembers of another key.
pub proof fn law_keys_are_remembered_apart(s: HookView, ev: KeyEvent, completed: bool, vk: u32)
    requires
        ev.vk <= 0xFF,
        vk <= 0xFF,
        ev.vk != vk,
    ensures
        s.after(ev, completed).0.swallowed.contains(slot(vk)) == s.swallowed.contains(slot(vk)),
        s.after(ev, completed).0.chord == s.chord,
{
}

/// The chord disengages with the first of its keys to come up, and on no other
/// key.
pub proof fn law_any_chord_key_releases(s: HookView, vk: u32, completed: bool)
    requires
        s.held,
    ensures
        s.after(
            KeyEvent { vk, transition: Transition::Up, injected: false },
            completed,
        ).1.event == (if chord_has(s.chord, vk) {
            Some(HotkeyEvent::Released)
        } else {
            None
        }),
{
}

/// A new chord takes over at once: the old one is let go of, and what was eaten on
/// the way down is still eaten on the way up.
pub proof fn law_a_new_chord_takes_over(s: HookView, chord: Seq<u32>, vk: u32, later: bool)
    ensures
        s.with_chord(chord).0.chord == chord,
        !s.with_chord(chord).0.held,
        s.with_chord(chord).1 == (if s.held {
            Some(HotkeyEvent::Released)
        } else {
            None
        }),
        ({
            let up = KeyEvent { vk, transition: Transition::Up, injected: false };
            s.with_chord(chord).0.after(up, later).1 == (Verdict {
                event: None,
                eaten: s.after(up, later).1.eaten,
            })
        }),
{
}

/// What the hook remembers.
#[derive(Debug, Clone, Copy)]
pub struct HookState {
    chord: u64,
    held: bool,
    swallowed: Swallowed,
}

impl View for HookState {
    type V = HookView;

    closed spec fn view(&self) -> HookView {
        HookView { chord: unpack_of(self.chord), held: self.held, swallowed: self.swallowed@ }
    }
}

impl HookState {
    /// A hook that remembers this much.
    pub fn new(chord: u64, held: bool, swallowed: Swallowed) -> (r: HookState)
        ensures
            r@ == (HookView { chord: unpack_of(chord), held, swallowed: swallowed@ }),
    {
        HookState { chord, held, swallowed }
    }

    /// The active chord, packed.
    pub fn chord(&self) -> (r: u64)
        ensures
            unpack_of(r) == self@.chord,
    {
        self.chord
    }

    /// Whether the chord is engaged.
    pub fn held(&self) -> (r: bool)
        ensures
            r == self@.held,
    {
        self.held
    }

    /// The keys whose down was eaten.
    pub fn swallowed(&self) -> (r: Swallowed)
        ensures
            r@ == self@.swallowed,
    {
        self.swallowed
    }

    /// Takes a key event. `is_down` says which keys went down before it; it is
    /// asked only where the event may engage the chord, and only of the chord's
    /// other keys. Allocates nothing.
    pub fn on_key<F: Fn(u32) -> bool>(&mut self, ev: KeyEvent, is_down: F) -> (r: Verdict)
        requires
            old(self)@.asks(ev) ==> can_ask(is_down, old(self)@.chord, ev.vk),
        ensures
            exists|completed: bool|
                (old(self)@.asks(ev) ==> completion(is_down, old(self)@.chord, ev.vk, completed))
                    && (final(self)@, r) == #[trigger] old(self)@.after(ev, completed),
    {
        let ghost before = self@;
        let mut verdict: Verdict = Verdict { event: None, eaten: false };
        let mut completed: bool = false;
        if !ev.injected {
            match ev.transition {
                Transition::Down => {
                    if self.held {
                        // Auto-repeat of a key that was eaten on the way down.
                        verdict.eaten = is_swallowed(&self.swallowed, ev.vk);
                    } else {
                        let (keys, n): ([u32; 8], usize) = unpack_in_place(self.chord);
                        completed = chord_completed_by(
                            vstd::slice::slice_subrange(keys.as_slice(), 0, n),
                            ev.vk,
                            is_down,
                        );
                        if completed {
                            self.held = true;
                            verdict.event = Some(HotkeyEvent::Pressed);
                            if solo_action(ev.vk) {
                                set_swallowed(&mut self.swallowed, ev.vk);
                                verdict.eaten = true;
                            }
                        }
                    }
                },
                Transition::Up => {
                    if self.held {
                        let (keys, n): ([u32; 8], usize) = unpack_in_place(self.chord);
                        if chord_contains(
                            vstd::slice::slice_subrange(keys.as_slice(), 0, n),
                            ev.vk,
                        ) {
                            self.held = false;
                            verdict.event = Some(HotkeyEvent::Released);
                        }
                    }
                    verdict.eaten = take_swallowed(&mut self.swallowed, ev.vk);
                },
                Transition::Other => {},
            }
        }
        assert((self@, verdict) == before.after(ev, completed));
        verdict
    }
}

/// Replaces the active chord. Takes effect on the next key event. Gives back what
/// the pipeline is to be told.
pub fn set(hook: &mut HookState, hotkey: &Hotkey) -> (r: Option<HotkeyEvent>)
    ensures
        (final(hook)@, r) == old(hook)@.with_chord(low_bytes(packable(hotkey@))),
        is_chord(hotkey@) ==> low_bytes(hotkey@) == hotkey@,
{
    let packed: u64 = hotkey.pack();
    proof {
        law_packing_round_trips(packable(hotkey@), packed);
        if is_chord(hotkey@) {
            lemma_low_bytes(hotkey@);
        }
    }
    hook.chord = packed;
    let was: bool = hook.held;
    hook.held = false;
    if was {
        Some(HotkeyEvent::Released)
    } else {
        None
    }
}

} // verus!
