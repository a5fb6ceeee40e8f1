//! Getting text into whatever window currently has focus.
//!
//! There is no single strategy that works everywhere, so there are two, chosen
//! per utterance:
//!
//! | Strategy      | Good at                               | Fails on                       |
//! |---------------|---------------------------------------|--------------------------------|
//! | Keystrokes    | Any focused control, keeps clipboard  | Slow past a few hundred chars; |
//! |               |                                       | some Electron apps drop chars  |
//! | Clipboard+^V  | Long text, instant, format-preserving | Secure fields that block paste |

use crate::hotkey::vk;
use crate::text::{append, append_str, chars_of, decimal, decimal_of, string_of};
use vstd::prelude::*;

verus! {

/// Above this length, typing char-by-char becomes perceptibly slow.
pub const PASTE_THRESHOLD: usize = 120;

#[derive(Debug, Clone, Copy, PartialEq, Eq, Structural)]
pub enum Strategy {
    /// Synthesise Unicode keystrokes.
    Type,
    /// Stage on the clipboard and send Ctrl+V.
    Paste,
    /// Paste when long, type when short.
    Auto,
}

impl Default for Strategy {
    fn default() -> (r: Strategy)
        ensures
            r == Strategy::Auto,
    {
        Strategy::Auto
    }
}

/// What is sent to get text into a window.
#[derive(Debug, Clone, PartialEq, Eq)]
pub enum Insertion {
    /// There is no text.
    Nothing,
    /// These keystrokes.
    Keystrokes(Vec<KeyStroke>),
    /// The text goes on the clipboard, and then these keys.
    Paste([KeyPress; 4]),
}

/// One Unicode keystroke.
#[derive(Debug, Clone, Copy, PartialEq, Eq, Structural)]
pub struct KeyStroke {
    /// A UTF-16 unit.
    pub unit: u16,
    /// The key comes up rather than goes down.
    pub up: bool,
}

/// One press or release of a key.
#[derive(Debug, Clone, Copy, PartialEq, Eq, Structural)]
pub struct KeyPress {
    pub vk: u32,
    /// The key comes up rather than goes down.
    pub up: bool,
}

/// The virtual-key code of V.
pub const VK_V: u32 = 0x56;

/// Whether text is pasted rather than typed.
pub open spec fn pastes(text: Seq<char>, strategy: Strategy) -> bool {
    match strategy {
        Strategy::Type => false,
        Strategy::Paste => true,
        Strategy::Auto => text.len() > PASTE_THRESHOLD,
    }
}

/// A character in UTF-16: one unit, or a surrogate pair for one beyond the basic
/// plane (emoji).
pub open spec fn utf16_char(c: char) -> Seq<u16> {
    let v = c as u32;
    if v < 0x10000 {
        seq![v as u16]
    } else {
        seq![
            (0xD800 + (v - 0x10000) / 0x400) as u16,
            (0xDC00 + (v - 0x10000) % 0x400) as u16,
        ]
    }
}

/// A text in UTF-16.
pub open spec fn utf16(s: Seq<char>) -> Seq<u16>
    decreases s.len(),
{
    if s.len() == 0 {
        Seq::empty()
    } else {
        utf16(s.drop_last()) + utf16_char(s.last())
    }
}

/// The keystrokes that type some units: each goes down and comes up.
pub open spec fn strokes(units: Seq<u16>) -> Seq<KeyStroke> {
    Seq::new(
        2 * units.len(),
        |i: int| KeyStroke { unit: units[i / 2], up: i % 2 == 1 },
    )
}

/// Ctrl+V.
pub open spec fn paste_keys() -> Seq<KeyPress> {
    seq![
        KeyPress { vk: vk::CONTROL, up: false },
        KeyPress { vk: VK_V, up: false },
        KeyPress { vk: VK_V, up: true },
        KeyPress { vk: vk::CONTROL, up: true },
    ]
}

proof fn lemma_strokes_push(units: Seq<u16>, unit: u16)
    ensures
        strokes(units.push(unit)) == strokes(units).push(KeyStroke { unit, up: false }).push(
            KeyStroke { unit, up: true },
        ),
{
    let all = strokes(units.push(unit));
    let want = strokes(units).push(KeyStroke { unit, up: false }).push(KeyStroke { unit, up: true });
    assert forall|i: int| 0 <= i < all.len() implies all[i] == want[i] by {
        if i < 2 * units.len() {
            assert(units.push(unit)[i / 2] == units[i / 2]);
        }
    }
    assert(all == want);
}

/// Adds the keystrokes of one unit.
fn push_stroke(out: &mut Vec<KeyStroke>, unit: u16, Ghost(units): Ghost<Seq<u16>>)
    requires
        old(out)@ == strokes(units),
    ensures
        final(out)@ == strokes(units.push(unit)),
{
    proof {
        lemma_strokes_push(units, unit);
    }
    out.push(KeyStroke { unit, up: false });
    out.push(KeyStroke { unit, up: true });
}

/// The keystrokes that type a text: each character as Unicode keystrokes.
pub fn type_text(text: &str) -> (r: Vec<KeyStroke>)
    ensures
        r@ == strokes(utf16(text@)),
{
    let chars: Vec<char> = chars_of(text);
    let mut out: Vec<KeyStroke> = Vec::new();
    assert(out@ == strokes(utf16(chars@.take(0))));
    let mut i: usize = 0;
    while i < chars.len()
        invariant
            i <= chars.len(),
            out@ == strokes(utf16(chars@.take(i as int))),
        decreases chars.len() - i,
    {
        let c: char = chars[i];
        let ghost before = utf16(chars@.take(i as int));
        proof {
            assert(chars@.take(i as int + 1).drop_last() == chars@.take(i as int));
            assert(chars@.take(i as int + 1).last() == c);
        }
        let v: u32 = c as u32;
        proof {
            vstd::utf8::char_is_scalar(c);
        }
        if v < 0x10000 {
            push_stroke(&mut out, v as u16, Ghost(before));
            assert(before.push(v as u16) == before + utf16_char(c));
        } else {
            let high: u16 = (0xD800 + (v - 0x10000) / 0x400) as u16;
            let low: u16 = (0xDC00 + (v - 0x10000) % 0x400) as u16;
            push_stroke(&mut out, high, Ghost(before));
            push_stroke(&mut out, low, Ghost(before.push(high)));
            assert(before.push(high).push(low) == before + utf16_char(c));
        }
        i += 1;
    }
    assert(chars@.take(i as int) == chars@);
    out
}

/// The keys that paste.
pub fn paste() -> (r: [KeyPress; 4])
    ensures
        r@ == paste_keys(),
{
    let r: [KeyPress; 4] = [
        KeyPress { vk: vk::CONTROL, up: false },
        KeyPress { vk: VK_V, up: false },
        KeyPress { vk: VK_V, up: true },
        KeyPress { vk: vk::CONTROL, up: true },
    ];
    assert(r@ == paste_keys());
    r
}

/// What is sent to get `text` into the focused window.
pub fn inject(text: &str, strategy: Strategy) -> (r: Insertion)
    ensures
        text@.len() == 0 ==> r is Nothing,
        text@.len() > 0 && pastes(text@, strategy) ==> (r matches Insertion::Paste(keys) && keys@
            == paste_keys()),
        text@.len() > 0 && !pastes(text@, strategy) ==> (r matches Insertion::Keystrokes(s) && s@
            == strokes(utf16(text@))),
{
    let len: usize = chars_of(text).len();
    if len == 0 {
        return Insertion::Nothing;
    }
    let pasted: bool = match strategy {
        Strategy::Auto => len > PASTE_THRESHOLD,
        Strategy::Paste => true,
        Strategy::Type => false,
    };
    if pasted {
        Insertion::Paste(paste())
    } else {
        Insertion::Keystrokes(type_text(text))
    }
}

/// Every key that is sent down is sent up again, right after or, for the modifier
/// of a paste, at the end.
pub proof fn law_every_key_comes_up(units: Seq<u16>, i: int)
    requires
        0 <= i < units.len(),
    ensures
        strokes(units)[2 * i] == (KeyStroke { unit: units[i], up: false }),
        strokes(units)[2 * i + 1] == (KeyStroke { unit: units[i], up: true }),
        forall|k: u32| #[trigger]
            paste_keys().contains(KeyPress { vk: k, up: false }) ==> paste_keys().contains(
                KeyPress { vk: k, up: true },
            ),
{
    let keys = paste_keys();
    assert forall|k: u32| #[trigger] keys.contains(KeyPress { vk: k, up: false }) implies keys.contains(
        KeyPress { vk: k, up: true },
    ) by {
        assert(keys[2].vk == VK_V && keys[3].vk == vk::CONTROL);
    }
}

/// The code points that UTF-16 units stand for: a pair of surrogates for one
/// beyond the basic plane, and any other unit for itself.
pub open spec fn code_points(units: Seq<u16>) -> Seq<int>
    decreases units.len(),
{
    if units.len() == 0 {
        Seq::empty()
    } else if units.len() > 1 && 0xD800 <= units[0] < 0xDC00 && 0xDC00 <= units[1] < 0xE000 {
        seq![0x10000 + (units[0] - 0xD800) * 0x400 + (units[1] - 0xDC00)] + code_points(
            units.skip(2),
        )
    } else {
        seq![units[0] as int] + code_points(units.skip(1))
    }
}

/// Two texts in a row, in UTF-16.
proof fn lemma_utf16_concat(a: Seq<char>, b: Seq<char>)
    ensures
        utf16(a + b) == utf16(a) + utf16(b),
    decreases b.len(),
{
    if b.len() == 0 {
        assert(a + b == a);
        assert(utf16(a) + utf16(b) == utf16(a));
    } else {
        lemma_utf16_concat(a, b.drop_last());
        assert((a + b).drop_last() == a + b.drop_last());
        assert((a + b).last() == b.last());
        assert(utf16(a) + (utf16(b.drop_last()) + utf16_char(b.last())) == utf16(a) + utf16(
            b.drop_last(),
        ) + utf16_char(b.last()));
    }
}

/// The units that are typed read as the text: one after the other, the code
/// points of its characters.
pub proof fn law_typed_units_read_as_the_text(text: Seq<char>)
    ensures
        code_points(utf16(text)) == Seq::new(text.len(), |i: int| text[i] as u32 as int),
    decreases text.len(),
{
    let points = Seq::new(text.len(), |i: int| text[i] as u32 as int);
    if text.len() > 0 {
        let c = text[0];
        let rest = text.skip(1);
        let one = seq![c];
        law_typed_units_read_as_the_text(rest);
        vstd::utf8::char_is_scalar(c);
        assert(one.drop_last().len() == 0);
        assert(utf16(one) == utf16_char(c)) by {
            assert(utf16(one) == utf16(one.drop_last()) + utf16_char(c));
        }
        lemma_utf16_concat(one, rest);
        assert(one + rest == text);
        let units = utf16(text);
        let head = utf16_char(c);
        assert(units == head + utf16(rest));
        assert(units.skip(head.len() as int) == utf16(rest));
        assert(units[0] == head[0]);
        let v = c as u32;
        if v < 0x10000 {
            assert(head.len() == 1 && units[0] == v);
            assert(v < 0xD800 || 0xE000 <= v);
        } else {
            assert(head.len() == 2 && units[1] == head[1]);
            let (h, l) = ((v - 0x10000) / 0x400, (v - 0x10000) % 0x400);
            assert(v <= 0x10FFFF);
            assert(0 <= h < 0x400 && 0 <= l < 0x400);
            assert(units[0] == 0xD800 + h && units[1] == 0xDC00 + l);
            assert(0x10000 + h * 0x400 + l == v);
        }
        assert(code_points(units) == seq![v as int] + code_points(utf16(rest)));
        assert(seq![v as int] + Seq::new(rest.len(), |i: int| rest[i] as u32 as int) == points);
    } else {
        assert(points.len() == 0);
    }
}

/// Two different texts never have the same keystrokes.
pub proof fn law_keystrokes_spell_one_text(a: Seq<char>, b: Seq<char>)
    requires
        strokes(utf16(a)) == strokes(utf16(b)),
    ensures
        a == b,
{
    let (x, y) = (utf16(a), utf16(b));
    assert(strokes(x).len() == 2 * x.len());
    assert(strokes(y).len() == 2 * y.len());
    assert forall|i: int| 0 <= i < x.len() implies x[i] == y[i] by {
        law_every_key_comes_up(x, i);
        law_every_key_comes_up(y, i);
    }
    assert(x == y);
    law_typed_units_read_as_the_text(a);
    law_typed_units_read_as_the_text(b);
    let (p, q) = (
        Seq::new(a.len(), |i: int| a[i] as u32 as int),
        Seq::new(b.len(), |i: int| b[i] as u32 as int),
    );
    assert(p == q);
    assert(p.len() == a.len() && q.len() == b.len());
    assert forall|i: int| 0 <= i < a.len() implies a[i] == b[i] by {
        assert(p[i] == q[i]);
        vstd::utf8::char_u32_cast(a[i], a[i] as u32);
        vstd::utf8::char_u32_cast(b[i], b[i] as u32);
    }
    assert(a == b);
}

/// Where it is left open, text is typed up to 120 characters and pasted beyond;
/// pasting holds Ctrl down while V goes down and comes up.
pub proof fn law_long_text_is_pasted(text: Seq<char>)
    ensures
        pastes(text, Strategy::Auto) <==> text.len() > 120,
        pastes(text, Strategy::Paste) && !pastes(text, Strategy::Type),
        paste_keys() == seq![
            KeyPress { vk: 0x11, up: false },
            KeyPress { vk: 0x56, up: false },
            KeyPress { vk: 0x56, up: true },
            KeyPress { vk: 0x11, up: true },
        ],
{
}

/// What is said of events that were not all sent.
pub open spec fn short_message(sent: nat, expected: nat, pasted: bool) -> Seq<char> {
    "SendInput sent "@ + decimal(sent) + " of "@ + decimal(expected) + if pasted {
        " events for Ctrl+V"@
    } else {
        " events"@
    }
}

/// Whether all events were sent.
pub fn check_sent(sent: u32, expected: usize, pasted: bool) -> (r: Result<(), String>)
    ensures
        r is Ok <==> sent == expected,
        r matches Err(e) ==> e@ == short_message(sent as nat, expected as nat, pasted),
{
    if sent as usize == expected {
        return Ok(());
    }
    let mut e: Vec<char> = chars_of("SendInput sent ");
    append(&mut e, decimal_of(sent as u64).as_slice());
    append_str(&mut e, " of ");
    append(&mut e, decimal_of(expected as u64).as_slice());
    if pasted {
        append_str(&mut e, " events for Ctrl+V");
    } else {
        append_str(&mut e, " events");
    }
    Err(string_of(e.as_slice()))
}

/// What a paste comes to, by how many of its keys were sent, and what is put back
/// on the clipboard: what was `saved` from it before, whether or not the paste
/// worked. Nothing saved means nothing to restore.
pub fn after_paste(sent: u32, saved: Option<String>) -> (r: (Result<(), String>, Option<String>))
    ensures
        r.0 is Ok <==> sent == paste_keys().len(),
        r.0 matches Err(e) ==> e@ == short_message(sent as nat, paste_keys().len(), true),
        r.1 == saved,
{
    (check_sent(sent, paste().len(), true), saved)
}

} // verus!
