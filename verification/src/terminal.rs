//! What the bytes a terminal sends are: keys, mouse reports and pastes.
//!
//! Keys come as plain characters, as the older escape sequences, and as the
//! Kitty keyboard protocol's; the mouse in SGR reports; a paste in brackets. A
//! sequence may arrive in any number of reads, so what does not end yet is held
//! until it does. An escape on its own is held too, and is the Escape key when
//! nothing follows it.
use vstd::prelude::*;
use vstd::slice::slice_subrange;
use vstd::utf8::{
    encode_scalar, last_continuation_byte, leading_byte_width_2, leading_byte_width_3,
    leading_byte_width_4, second_last_continuation_byte, third_last_continuation_byte,
};

use crate::doctor::{latin, latin_chars, lossily, lossy};
use crate::input::{
    Input, Key, KeyAction, KeyInput, Mods, MouseInput, MouseKind, Said, ALT, CTRL, PASTE_LIMIT,
    SHIFT,
};
use crate::bytes::utf8;
use crate::glass::lemma_first_piece;
use crate::strings::{
    char_lists, decimal, is_digit, lemma_decimal, number, parse_number, pieces, split, starts,
    starts_with_word,
};

verus! {

/// What one piece of what the terminal sent is.
#[derive(Debug, Clone, Copy, PartialEq, Eq)]
pub enum What {
    /// It does not end yet.
    More,
    /// Nothing that matters here.
    Nothing,
    Key(KeyInput),
    Mouse(MouseInput),
    /// Whether the mouse is reported in pixels.
    Mode(bool),
    /// A paste begins.
    Paste,
}

/// A key with nothing held.
pub open spec fn struck(key: Key, mods: u32, text: Option<char>) -> What {
    What::Key(KeyInput { key, mods: Mods(mods), action: KeyAction::Press, text })
}

/// A key with nothing held.
fn strike(key: Key, mods: u32, text: Option<char>) -> (r: What)
    ensures
        r == struck(key, mods, text),
{
    What::Key(KeyInput { key, mods: Mods(mods), action: KeyAction::Press, text })
}

// ---- one byte ----

/// The key that a byte of ASCII is.
pub open spec fn byte_key(b: u8, mods: u32) -> What {
    if b == 0x0d {
        struck(Key::Enter, mods, None)
    } else if b == 0x09 {
        struck(Key::Tab, mods, None)
    } else if b == 0x7f || b == 0x08 {
        struck(Key::Backspace, mods, None)
    } else if 1 <= b <= 26 {
        struck(Key::Char((b + 96) as char), mods | CTRL, None)
    } else if b >= 0x20 {
        struck(
            Key::Char(b as char),
            mods,
            if mods == 0 {
                Some(b as char)
            } else {
                None
            },
        )
    } else {
        What::Nothing
    }
}

/// The key that a byte of ASCII is.
fn key_of_byte(b: u8, mods: u32) -> (r: What)
    requires
        b < 0x80,
    ensures
        r == byte_key(b, mods),
{
    if b == 0x0d {
        strike(Key::Enter, mods, None)
    } else if b == 0x09 {
        strike(Key::Tab, mods, None)
    } else if b == 0x7f || b == 0x08 {
        strike(Key::Backspace, mods, None)
    } else if 1 <= b && b <= 26 {
        strike(Key::Char((b + 96) as char), mods | CTRL, None)
    } else if b >= 0x20 {
        let text = if mods == 0 {
            Some(b as char)
        } else {
            None
        };
        strike(Key::Char(b as char), mods, text)
    } else {
        What::Nothing
    }
}

// ---- a character ----

/// How many bytes a character has that starts with a byte; none for a byte
/// that starts none.
pub open spec fn length_of(b: u8) -> int {
    if 0xc2 <= b <= 0xdf {
        2
    } else if 0xe0 <= b <= 0xef {
        3
    } else if 0xf0 <= b <= 0xf4 {
        4
    } else {
        0
    }
}

/// A byte that goes on a character.
pub open spec fn goes_on(b: u8) -> bool {
    0x80 <= b <= 0xbf
}

/// The code point that the bytes of a character are.
pub open spec fn code_point(s: Seq<u8>, n: int) -> int {
    if n == 2 {
        (s[0] - 0xc0) * 64 + (s[1] - 0x80)
    } else if n == 3 {
        (s[0] - 0xe0) * 4096 + (s[1] - 0x80) * 64 + (s[2] - 0x80)
    } else {
        (s[0] - 0xf0) * 262144 + (s[1] - 0x80) * 4096 + (s[2] - 0x80) * 64 + (s[3] - 0x80)
    }
}

/// The least code point that has so many bytes.
pub open spec fn least_of(n: int) -> int {
    if n == 2 {
        0x80
    } else if n == 3 {
        0x800
    } else {
        0x10000
    }
}

/// A code point is a character.
pub open spec fn is_scalar(n: int) -> bool {
    0 <= n <= 0xd7ff || 0xe000 <= n <= 0x10ffff
}

/// The character that stands first, and how many bytes it has. A byte that is
/// part of none is passed over.
pub open spec fn character(s: Seq<u8>) -> (int, What) {
    let n = length_of(s[0]);
    if n == 0 || (s.len() > 1 && !goes_on(s[1])) || (n > 2 && s.len() > 2 && !goes_on(s[2])) || (n
        > 3 && s.len() > 3 && !goes_on(s[3])) {
        (1, What::Nothing)
    } else if s.len() < n {
        (0, What::More)
    } else {
        let code = code_point(s, n);
        if code >= least_of(n) && is_scalar(code) {
            (n, struck(Key::Char(code as char), 0, Some(code as char)))
        } else {
            (1, What::Nothing)
        }
    }
}

/// The character that stands first, and how many bytes it has.
fn read_character(s: &[u8]) -> (r: (usize, What))
    requires
        s@.len() > 0,
    ensures
        (r.0 as int, r.1) == character(s@),
{
    let b = s[0];
    let n: usize = if 0xc2 <= b && b <= 0xdf {
        2
    } else if 0xe0 <= b && b <= 0xef {
        3
    } else if 0xf0 <= b && b <= 0xf4 {
        4
    } else {
        0
    };
    let mut i: usize = 1;
    if n == 0 {
        return (1, What::Nothing);
    }
    while i < s.len() && i < n
        invariant
            1 <= i,
            n == length_of(s@[0]),
            n == 2 || n == 3 || n == 4,
            i <= n,
            s@.len() > 0,
            i <= s@.len(),
            forall|k: int| 1 <= k < i ==> goes_on(#[trigger] s@[k]),
        decreases n - i,
    {
        if s[i] < 0x80 || s[i] > 0xbf {
            proof {
                assert(!goes_on(s@[i as int]));
            }
            return (1, What::Nothing);
        }
        i += 1;
    }
    if s.len() < n {
        return (0, What::More);
    }
    proof {
        assert(goes_on(s@[1]));
        if n > 2 {
            assert(goes_on(s@[2]));
        }
        if n > 3 {
            assert(goes_on(s@[3]));
        }
    }
    let code: u32 = if n == 2 {
        (s[0] as u32 - 0xc0) * 64 + (s[1] as u32 - 0x80)
    } else if n == 3 {
        (s[0] as u32 - 0xe0) * 4096 + (s[1] as u32 - 0x80) * 64 + (s[2] as u32 - 0x80)
    } else {
        (s[0] as u32 - 0xf0) * 262144 + (s[1] as u32 - 0x80) * 4096 + (s[2] as u32 - 0x80) * 64 + (
        s[3] as u32 - 0x80)
    };
    let least: u32 = if n == 2 {
        0x80
    } else if n == 3 {
        0x800
    } else {
        0x10000
    };
    if code < least {
        return (1, What::Nothing);
    }
    match std::char::from_u32(code) {
        Some(c) => (n, strike(Key::Char(c), 0, Some(c))),
        None => (1, What::Nothing),
    }
}

// ---- control sequences ----

/// A number of a control sequence: the `j`th of those between colons, of the
/// `k`th of those between semicolons.
pub open spec fn param(t: Seq<char>, k: int, j: int) -> Option<nat> {
    let fields = pieces(t, ';');
    if k < fields.len() {
        let parts = pieces(fields[k], ':');
        if j < parts.len() {
            number(parts[j], u32::MAX as nat)
        } else {
            None
        }
    } else {
        None
    }
}

/// A number of a control sequence.
fn read_param(t: &[char], k: usize, j: usize) -> (r: Option<u32>)
    ensures
        match r {
            Some(n) => param(t@, k as int, j as int) == Some(n as nat),
            None => param(t@, k as int, j as int) is None,
        },
{
    let fields = split(t, ';');
    proof {
        assert(char_lists(fields@).len() == fields@.len());
    }
    if k >= fields.len() {
        return None;
    }
    proof {
        assert(char_lists(fields@)[k as int] == fields@[k as int]@);
    }
    let parts = split(fields[k].as_slice(), ':');
    proof {
        assert(char_lists(parts@).len() == parts@.len());
    }
    if j >= parts.len() {
        return None;
    }
    proof {
        assert(char_lists(parts@)[j as int] == parts@[j as int]@);
    }
    match parse_number(parts[j].as_slice(), u32::MAX as u64) {
        Some(n) => Some(n as u32),
        None => None,
    }
}

/// The modifiers that a control sequence says are held.
pub open spec fn held_mods(t: Seq<char>) -> u32 {
    match param(t, 1, 0) {
        Some(n) => if n >= 1 {
            ((n - 1) as u32) & 15
        } else {
            0
        },
        None => 0,
    }
}

/// What a control sequence says was done with the key.
pub open spec fn done_with(t: Seq<char>) -> KeyAction {
    match param(t, 1, 1) {
        Some(n) => if n == 2 {
            KeyAction::Repeat
        } else if n == 3 {
            KeyAction::Release
        } else {
            KeyAction::Press
        },
        None => KeyAction::Press,
    }
}

/// The key of a control sequence, with what it says was held and done.
pub open spec fn keyed(t: Seq<char>, key: Key, text: Option<char>) -> What {
    What::Key(KeyInput { key, mods: Mods(held_mods(t)), action: done_with(t), text })
}

/// The key of a control sequence, with what it says was held and done.
fn key_in(t: &[char], key: Key, text: Option<char>) -> (r: What)
    ensures
        r == keyed(t@, key, text),
{
    let mods: u32 = match read_param(t, 1, 0) {
        Some(n) => if n >= 1 {
            (n - 1) & 15
        } else {
            0
        },
        None => 0,
    };
    let action = match read_param(t, 1, 1) {
        Some(n) => if n == 2 {
            KeyAction::Repeat
        } else if n == 3 {
            KeyAction::Release
        } else {
            KeyAction::Press
        },
        None => KeyAction::Press,
    };
    What::Key(KeyInput { key, mods: Mods(mods), action, text })
}

/// The key of a code of the Kitty protocol.
pub open spec fn coded(code: int) -> Key {
    if code == 9 {
        Key::Tab
    } else if code == 13 {
        Key::Enter
    } else if code == 27 {
        Key::Escape
    } else if code == 127 {
        Key::Backspace
    } else if 57376 <= code <= 57398 {
        Key::Function((code - 57363) as u8)
    } else if 0x20 <= code < 57344 && is_scalar(code) || 63744 <= code && is_scalar(code) {
        Key::Char(code as char)
    } else {
        Key::Other(code as u32)
    }
}

/// The key of a code of the Kitty protocol.
fn key_of_code(code: u32) -> (r: Key)
    ensures
        r == coded(code as int),
{
    if code == 9 {
        Key::Tab
    } else if code == 13 {
        Key::Enter
    } else if code == 27 {
        Key::Escape
    } else if code == 127 {
        Key::Backspace
    } else if 57376 <= code && code <= 57398 {
        Key::Function((code - 57363) as u8)
    } else if code < 0x20 || (57344 <= code && code < 63744) {
        Key::Other(code)
    } else {
        match std::char::from_u32(code) {
            Some(c) => Key::Char(c),
            None => Key::Other(code),
        }
    }
}

/// The key of a number before a tilde.
pub open spec fn numbered(n: int) -> Option<Key> {
    if n == 2 {
        Some(Key::Insert)
    } else if n == 3 {
        Some(Key::Delete)
    } else if n == 5 {
        Some(Key::PageUp)
    } else if n == 6 {
        Some(Key::PageDown)
    } else if n == 1 || n == 7 {
        Some(Key::Home)
    } else if n == 4 || n == 8 {
        Some(Key::End)
    } else if 11 <= n <= 15 {
        Some(Key::Function((n - 10) as u8))
    } else if 17 <= n <= 21 {
        Some(Key::Function((n - 11) as u8))
    } else if 23 <= n <= 24 {
        Some(Key::Function((n - 12) as u8))
    } else {
        None
    }
}

/// The key of a number before a tilde.
fn key_of_number(n: u32) -> (r: Option<Key>)
    ensures
        r == numbered(n as int),
{
    if n == 2 {
        Some(Key::Insert)
    } else if n == 3 {
        Some(Key::Delete)
    } else if n == 5 {
        Some(Key::PageUp)
    } else if n == 6 {
        Some(Key::PageDown)
    } else if n == 1 || n == 7 {
        Some(Key::Home)
    } else if n == 4 || n == 8 {
        Some(Key::End)
    } else if 11 <= n && n <= 15 {
        Some(Key::Function((n - 10) as u8))
    } else if 17 <= n && n <= 21 {
        Some(Key::Function((n - 11) as u8))
    } else if 23 <= n && n <= 24 {
        Some(Key::Function((n - 12) as u8))
    } else {
        None
    }
}

/// The key of a letter that ends a sequence.
pub open spec fn lettered(last: u8) -> Option<Key> {
    if last == 0x41 {
        Some(Key::Up)
    } else if last == 0x42 {
        Some(Key::Down)
    } else if last == 0x43 {
        Some(Key::Right)
    } else if last == 0x44 {
        Some(Key::Left)
    } else if last == 0x48 {
        Some(Key::Home)
    } else if last == 0x46 {
        Some(Key::End)
    } else if last == 0x50 {
        Some(Key::Function(1))
    } else if last == 0x51 {
        Some(Key::Function(2))
    } else if last == 0x53 {
        Some(Key::Function(4))
    } else {
        None
    }
}

/// The key of a letter that ends a sequence.
fn key_of_letter(last: u8) -> (r: Option<Key>)
    ensures
        r == lettered(last),
{
    match last {
        0x41 => Some(Key::Up),
        0x42 => Some(Key::Down),
        0x43 => Some(Key::Right),
        0x44 => Some(Key::Left),
        0x48 => Some(Key::Home),
        0x46 => Some(Key::End),
        0x50 => Some(Key::Function(1)),
        0x51 => Some(Key::Function(2)),
        0x53 => Some(Key::Function(4)),
        _ => None,
    }
}

/// A coordinate from zero, out of one from one.
pub open spec fn from_zero(n: nat) -> i32 {
    if n == 0 {
        0
    } else if n - 1 > i32::MAX {
        i32::MAX
    } else {
        (n - 1) as i32
    }
}

/// A coordinate from zero, out of one from one.
fn coordinate(n: u32) -> (r: i32)
    ensures
        r == from_zero(n as nat),
{
    if n == 0 {
        0
    } else if n - 1 > i32::MAX as u32 {
        i32::MAX
    } else {
        (n - 1) as i32
    }
}

/// What the low bits of a wheel report turn, across and down.
pub open spec fn turned(low: u32) -> (i32, i32) {
    if low == 0 {
        (0, -1i32)
    } else if low == 1 {
        (0, 1)
    } else if low == 2 {
        (-1i32, 0)
    } else {
        (1, 0)
    }
}

/// What an SGR mouse report is: the button and the modifiers in one number,
/// then where.
pub open spec fn mouse_report(b: u32, x: i32, y: i32, released: bool) -> MouseInput {
    let low = b & 3;
    let mods = Mods(
        (if b & 4 != 0 {
            SHIFT
        } else {
            0
        }) | (if b & 8 != 0 {
            ALT
        } else {
            0
        }) | (if b & 16 != 0 {
            CTRL
        } else {
            0
        }),
    );
    let button = if low == 3 {
        None
    } else {
        Some(low)
    };
    if b & 64 != 0 {
        MouseInput { kind: MouseKind::Wheel, button: None, x, y, wheel: turned(low), mods }
    } else if b & 32 != 0 {
        MouseInput { kind: MouseKind::Move, button, x, y, wheel: (0, 0), mods }
    } else if released {
        MouseInput { kind: MouseKind::Release, button, x, y, wheel: (0, 0), mods }
    } else {
        MouseInput { kind: MouseKind::Press, button, x, y, wheel: (0, 0), mods }
    }
}

/// What an SGR mouse report is.
fn report_of(b: u32, x: i32, y: i32, released: bool) -> (r: MouseInput)
    ensures
        r == mouse_report(b, x, y, released),
{
    let low = b & 3;
    let shift: u32 = if b & 4 != 0 {
        SHIFT
    } else {
        0
    };
    let alt: u32 = if b & 8 != 0 {
        ALT
    } else {
        0
    };
    let ctrl: u32 = if b & 16 != 0 {
        CTRL
    } else {
        0
    };
    let mods = Mods(shift | alt | ctrl);
    let button = if low == 3 {
        None
    } else {
        Some(low)
    };
    let kind = if b & 64 != 0 {
        let wheel: (i32, i32) = if low == 0 {
            (0, -1)
        } else if low == 1 {
            (0, 1)
        } else if low == 2 {
            (-1, 0)
        } else {
            (1, 0)
        };
        return MouseInput { kind: MouseKind::Wheel, button: None, x, y, wheel, mods };
    } else if b & 32 != 0 {
        MouseKind::Move
    } else if released {
        MouseKind::Release
    } else {
        MouseKind::Press
    };
    MouseInput { kind, button, x, y, wheel: (0, 0), mods }
}

/// What a mouse report says, when it says it whole.
pub open spec fn moused(t: Seq<char>, released: bool) -> What {
    match (param(t, 0, 0), param(t, 1, 0), param(t, 2, 0)) {
        (Some(b), Some(x), Some(y)) => What::Mouse(
            mouse_report(b as u32, from_zero(x), from_zero(y), released),
        ),
        _ => What::Nothing,
    }
}

/// What a control sequence is: its numbers, and the byte that ends it.
pub open spec fn meaning(t: Seq<char>, last: u8) -> What {
    if last == 0x75 {
        match param(t, 0, 0) {
            Some(code) => keyed(
                t,
                coded(code as int),
                match param(t, 2, 0) {
                    Some(c) => if is_scalar(c as int) {
                        Some(c as char)
                    } else {
                        None
                    },
                    None => None,
                },
            ),
            None => What::Nothing,
        }
    } else if last == 0x7e {
        match param(t, 0, 0) {
            Some(n) => if n == 200 {
                What::Paste
            } else {
                match numbered(n as int) {
                    Some(key) => keyed(t, key, None),
                    None => What::Nothing,
                }
            },
            None => What::Nothing,
        }
    } else if last == 0x5a {
        struck(Key::Tab, SHIFT, None)
    } else if (last == 0x4d || last == 0x6d) && starts(t, "<"@) {
        moused(t.skip(1), last == 0x6d)
    } else if last == 0x79 && starts(t, "?1016;"@) {
        What::Mode(starts(t, "?1016;1"@) || starts(t, "?1016;3"@))
    } else {
        match lettered(last) {
            Some(key) => keyed(t, key, None),
            None => What::Nothing,
        }
    }
}

/// What a control sequence is.
fn read_meaning(t: &[char], last: u8) -> (r: What)
    ensures
        r == meaning(t@, last),
{
    if last == 0x75 {
        return match read_param(t, 0, 0) {
            Some(code) => {
                let text = match read_param(t, 2, 0) {
                    Some(c) => std::char::from_u32(c),
                    None => None,
                };
                key_in(t, key_of_code(code), text)
            },
            None => What::Nothing,
        };
    }
    if last == 0x7e {
        return match read_param(t, 0, 0) {
            Some(n) => if n == 200 {
                What::Paste
            } else {
                match key_of_number(n) {
                    Some(key) => key_in(t, key, None),
                    None => What::Nothing,
                }
            },
            None => What::Nothing,
        };
    }
    if last == 0x5a {
        return strike(Key::Tab, SHIFT, None);
    }
    if (last == 0x4d || last == 0x6d) && starts_with_word(t, "<") {
        proof {
            reveal_strlit("<");
            assert(t@.skip(1) =~= t@.subrange(1, t@.len() as int));
        }
        let rest = slice_subrange(t, 1, t.len());
        return match (read_param(rest, 0, 0), read_param(rest, 1, 0), read_param(rest, 2, 0)) {
            (Some(b), Some(x), Some(y)) => What::Mouse(
                report_of(b, coordinate(x), coordinate(y), last == 0x6d),
            ),
            _ => What::Nothing,
        };
    }
    if last == 0x79 && starts_with_word(t, "?1016;") {
        return What::Mode(starts_with_word(t, "?1016;1") || starts_with_word(t, "?1016;3"));
    }
    match key_of_letter(last) {
        Some(key) => key_in(t, key, None),
        None => What::Nothing,
    }
}

// ---- a piece ----

/// Where a control sequence stops being numbers.
pub open spec fn numbers_end(s: Seq<u8>, i: int) -> int
    decreases s.len() - i,
{
    if 0 <= i < s.len() && 0x20 <= s[i] <= 0x3f {
        numbers_end(s, i + 1)
    } else {
        i
    }
}

/// A control sequence, after its `ESC [`. One that is broken off is passed over
/// up to where it was.
pub open spec fn control(s: Seq<u8>) -> (int, What) {
    let end = numbers_end(s, 2);
    if end >= s.len() {
        (0, What::More)
    } else if 0x40 <= s[end] <= 0x7e {
        (end + 1, meaning(latin(s.subrange(2, end)), s[end]))
    } else {
        (end, What::Nothing)
    }
}

/// Where a string that the terminal answers with is over: behind its `ESC \` or
/// its bell; nothing when it is not.
pub open spec fn string_end(s: Seq<u8>, i: int) -> Option<int>
    decreases s.len() - i,
{
    if i < 0 || i >= s.len() {
        None
    } else if s[i] == 7 {
        Some(i + 1)
    } else if s[i] == 0x1b && i + 1 < s.len() && s[i + 1] == 0x5c {
        Some(i + 2)
    } else {
        string_end(s, i + 1)
    }
}

/// What starts with an escape.
pub open spec fn escape(s: Seq<u8>) -> (int, What) {
    if s.len() < 2 {
        (0, What::More)
    } else if s[1] == 0x5b {
        control(s)
    } else if s[1] == 0x4f {
        if s.len() < 3 {
            (0, What::More)
        } else {
            (
                3,
                match lettered(s[2]) {
                    Some(key) => struck(key, 0, None),
                    None => What::Nothing,
                },
            )
        }
    } else if s[1] == 0x5d || s[1] == 0x5f || s[1] == 0x50 {
        match string_end(s, 2) {
            Some(end) => (end, What::Nothing),
            None => (0, What::More),
        }
    } else if s[1] == 0x1b || s[1] >= 0x80 {
        (1, struck(Key::Escape, 0, None))
    } else {
        (2, byte_key(s[1], ALT))
    }
}

/// What stands first, and how many bytes it has.
pub open spec fn token(s: Seq<u8>) -> (int, What) {
    if s[0] == 0x1b {
        escape(s)
    } else if s[0] < 0x80 {
        (1, byte_key(s[0], 0))
    } else {
        character(s)
    }
}

/// Numbers end no earlier than they start.
proof fn lemma_numbers_end(s: Seq<u8>, i: int)
    requires
        0 <= i,
    ensures
        i <= numbers_end(s, i),
        i <= s.len() ==> numbers_end(s, i) <= s.len(),
    decreases s.len() - i,
{
    if i < s.len() && 0x20 <= s[i] <= 0x3f {
        lemma_numbers_end(s, i + 1);
    }
}

/// A string is over behind where it starts.
proof fn lemma_string_end(s: Seq<u8>, i: int)
    requires
        0 <= i,
    ensures
        string_end(s, i) matches Some(end) ==> i < end <= s.len(),
    decreases s.len() - i,
{
    if i < s.len() {
        lemma_string_end(s, i + 1);
    }
}

/// A piece that ends has bytes, and no more than there are.
pub proof fn lemma_token_moves(s: Seq<u8>)
    requires
        s.len() > 0,
    ensures
        token(s).1 != What::More ==> 1 <= token(s).0 <= s.len(),
{
    lemma_numbers_end(s, 2);
    lemma_string_end(s, 2);
}

/// A control sequence.
fn read_control(s: &[u8]) -> (r: (usize, What))
    requires
        s@.len() >= 2,
    ensures
        (r.0 as int, r.1) == control(s@),
{
    let mut end: usize = 2;
    while end < s.len() && 0x20 <= s[end] && s[end] <= 0x3f
        invariant
            2 <= end <= s@.len(),
            numbers_end(s@, 2) == numbers_end(s@, end as int),
        decreases s@.len() - end,
    {
        end += 1;
    }
    if end >= s.len() {
        return (0, What::More);
    }
    if 0x40 <= s[end] && s[end] <= 0x7e {
        let t = latin_chars(slice_subrange(s, 2, end));
        return (end + 1, read_meaning(t.as_slice(), s[end]));
    }
    (end, What::Nothing)
}

/// Where a string that the terminal answers with is over.
fn end_of_string(s: &[u8]) -> (r: Option<usize>)
    requires
        s@.len() >= 2,
    ensures
        match r {
            Some(end) => string_end(s@, 2) == Some(end as int),
            None => string_end(s@, 2) is None,
        },
{
    let mut i: usize = 2;
    while i < s.len()
        invariant
            2 <= i <= s@.len(),
            string_end(s@, 2) == string_end(s@, i as int),
        decreases s@.len() - i,
    {
        if s[i] == 7 {
            return Some(i + 1);
        }
        if s[i] == 0x1b && s.len() - i > 1 && s[i + 1] == 0x5c {
            return Some(i + 2);
        }
        i += 1;
    }
    None
}

/// What stands first, and how many bytes it has.
fn read_token(s: &[u8]) -> (r: (usize, What))
    requires
        s@.len() > 0,
    ensures
        (r.0 as int, r.1) == token(s@),
{
    if s[0] != 0x1b {
        if s[0] < 0x80 {
            return (1, key_of_byte(s[0], 0));
        }
        return read_character(s);
    }
    if s.len() < 2 {
        return (0, What::More);
    }
    if s[1] == 0x5b {
        return read_control(s);
    }
    if s[1] == 0x4f {
        if s.len() < 3 {
            return (0, What::More);
        }
        let what = match key_of_letter(s[2]) {
            Some(key) => strike(key, 0, None),
            None => What::Nothing,
        };
        return (3, what);
    }
    if s[1] == 0x5d || s[1] == 0x5f || s[1] == 0x50 {
        return match end_of_string(s) {
            Some(end) => (end, What::Nothing),
            None => (0, What::More),
        };
    }
    if s[1] == 0x1b || s[1] >= 0x80 {
        return (1, strike(Key::Escape, 0, None));
    }
    (2, key_of_byte(s[1], ALT))
}

// ---- reading ----

/// What ends a paste: `ESC [ 2 0 1 ~`.
pub open spec fn ends_paste(s: Seq<u8>, i: int) -> bool {
    0 <= i && i + 6 <= s.len() && s[i] == 0x1b && s[i + 1] == 0x5b && s[i + 2] == 0x32 && s[i + 3]
        == 0x30 && s[i + 4] == 0x31 && s[i + 5] == 0x7e
}

/// Where what ends a paste stands; nothing when it has not come.
pub open spec fn paste_end(s: Seq<u8>, i: int) -> Option<int>
    decreases s.len() - i,
{
    if i < 0 || i >= s.len() {
        None
    } else if ends_paste(s, i) {
        Some(i)
    } else {
        paste_end(s, i + 1)
    }
}

/// What is read so far: the bytes that are held, whether a paste is open, and
/// whether the mouse is reported in pixels.
#[verifier::ext_equal]
pub struct Reading {
    pub held: Seq<u8>,
    pub pasting: bool,
    pub pixels: bool,
}

/// What a paste is: its text, or that it is over the limit.
pub open spec fn pasted(bytes: Seq<u8>) -> Said {
    if bytes.len() > PASTE_LIMIT {
        Said::PasteRefused { bytes: bytes.len() as usize }
    } else {
        Said::Paste(lossily(bytes))
    }
}

/// What a piece says.
pub open spec fn says(what: What) -> Seq<Said> {
    match what {
        What::Key(key) => seq![Said::Key(key)],
        What::Mouse(report) => seq![Said::Mouse(report)],
        What::Mode(_) => seq![Said::Mode],
        _ => Seq::empty(),
    }
}

/// What is said, put before what is said later.
pub open spec fn before(first: Seq<Said>, rest: (Reading, Seq<Said>)) -> (Reading, Seq<Said>) {
    (rest.0, first + rest.1)
}

impl Reading {
    /// Everything that is whole in what is held, and what is left of it.
    pub open spec fn read(self) -> (Reading, Seq<Said>)
        decreases self.held.len(),
    {
        if self.held.len() == 0 {
            (self, Seq::empty())
        } else if self.pasting {
            match paste_end(self.held, 0) {
                Some(end) => if 0 <= end <= self.held.len() - 6 {
                    before(
                        seq![pasted(self.held.take(end))],
                        (Reading {
                            held: self.held.skip(end + 6),
                            pasting: false,
                            ..self
                        }).read(),
                    )
                } else {
                    (self, Seq::empty())
                },
                None => (self, Seq::empty()),
            }
        } else {
            let (n, what) = token(self.held);
            if what == What::More || n < 1 || n > self.held.len() {
                (self, Seq::empty())
            } else {
                before(
                    says(what),
                    (Reading {
                        held: self.held.skip(n),
                        pasting: what == What::Paste,
                        pixels: match what {
                            What::Mode(pixels) => pixels,
                            _ => self.pixels,
                        },
                    }).read(),
                )
            }
        }
    }

    /// With more bytes.
    pub open spec fn and(self, bytes: Seq<u8>) -> Reading {
        Reading { held: self.held + bytes, ..self }
    }
}

/// What some inputs say.
pub open spec fn said(inputs: Seq<Input>) -> Seq<Said> {
    inputs.map_values(|i: Input| i@)
}

/// What ends a paste stands where it is said to.
proof fn lemma_paste_end(s: Seq<u8>, i: int)
    requires
        0 <= i,
    ensures
        paste_end(s, i) matches Some(end) ==> i <= end <= s.len() - 6 && ends_paste(s, end),
    decreases s.len() - i,
{
    if i < s.len() && !ends_paste(s, i) {
        lemma_paste_end(s, i + 1);
    }
}

/// Where what ends a paste stands.
fn end_of_paste(s: &[u8]) -> (r: Option<usize>)
    ensures
        match r {
            Some(end) => paste_end(s@, 0) == Some(end as int) && end + 6 <= s@.len(),
            None => paste_end(s@, 0) is None,
        },
{
    let mut i: usize = 0;
    while i < s.len()
        invariant
            i <= s@.len(),
            paste_end(s@, 0) == paste_end(s@, i as int),
        decreases s@.len() - i,
    {
        if s.len() - i >= 6 && s[i] == 0x1b && s[i + 1] == 0x5b && s[i + 2] == 0x32 && s[i + 3]
            == 0x30 && s[i + 4] == 0x31 && s[i + 5] == 0x7e {
            return Some(i);
        }
        i += 1;
    }
    None
}

/// The reader of what a terminal sends.
#[derive(Debug)]
pub struct Parser {
    pub held: Vec<u8>,
    pub open: bool,
    pub pixels: bool,
}

impl View for Parser {
    type V = Reading;

    open spec fn view(&self) -> Reading {
        Reading { held: self.held@, pasting: self.open, pixels: self.pixels }
    }
}

impl Parser {
    /// Nothing read yet.
    pub fn new() -> (r: Parser)
        ensures
            r@ == (Reading { held: Seq::empty(), pasting: false, pixels: false }),
    {
        Parser { held: Vec::new(), open: false, pixels: false }
    }

    /// Whether a paste has been opened and not closed.
    pub fn pasting(&self) -> (r: bool)
        ensures
            r == self@.pasting,
    {
        self.open
    }

    /// Whether the mouse is reported in pixels.
    pub fn pixel_coordinates(&self) -> (r: bool)
        ensures
            r == self@.pixels,
    {
        self.pixels
    }

    /// More bytes: everything that is whole now.
    pub fn feed(&mut self, bytes: &[u8]) -> (r: Vec<Input>)
        ensures
            (final(self)@, said(r@)) == old(self)@.and(bytes@).read(),
    {
        crate::bytes::push_bytes(&mut self.held, bytes);
        let ghost whole = self@;
        proof {
            assert(whole =~= old(self)@.and(bytes@));
        }
        let mut out: Vec<Input> = Vec::new();
        let mut at: usize = 0;
        let ghost mut now = whole;
        proof {
            assert(said(out@) =~= Seq::<Said>::empty());
            assert(whole.read().1 =~= said(out@) + now.read().1);
            assert(whole.held.skip(0) =~= whole.held);
        }
        while at < self.held.len()
            invariant
                at <= self.held@.len(),
                self.held@ == whole.held,
                now.held == whole.held.skip(at as int),
                now.pasting == self.open,
                now.pixels == self.pixels,
                whole.read() == before(said(out@), now.read()),
            ensures
                at <= self.held@.len(),
                self.held@ == whole.held,
                now.held == whole.held.skip(at as int),
                now.pasting == self.open,
                now.pixels == self.pixels,
                whole.read() == (now, said(out@)),
            decreases self.held@.len() - at,
        {
            let ghost earlier = said(out@);
            let ghost then = now;
            let rest = slice_subrange(self.held.as_slice(), at, self.held.len());
            proof {
                assert(rest@ =~= now.held);
            }
            if self.open {
                match end_of_paste(rest) {
                    Some(end) => {
                        let text = slice_subrange(rest, 0, end);
                        proof {
                            assert(text@ =~= now.held.take(end as int));
                        }
                        if end > PASTE_LIMIT {
                            out.push(Input::PasteRefused { bytes: end });
                        } else {
                            out.push(Input::Paste(lossy(text)));
                        }
                        self.open = false;
                        at += end + 6;
                        proof {
                            now =
                            Reading {
                                held: then.held.skip(end + 6),
                                pasting: false,
                                ..then
                            };
                            assert(now.held =~= whole.held.skip(at as int));
                            assert(said(out@) =~= earlier + seq![pasted(then.held.take(end as int))]);
                            assert(earlier + (seq![pasted(then.held.take(end as int))]
                                + now.read().1) =~= said(out@) + now.read().1);
                        }
                    },
                    None => {
                        proof {
                            assert(earlier + Seq::<Said>::empty() =~= earlier);
                        }
                        break;
                    },
                }
            } else {
                let (n, what) = read_token(rest);
                proof {
                    lemma_token_moves(rest@);
                }
                match what {
                    What::More => {
                        proof {
                            assert(earlier + Seq::<Said>::empty() =~= earlier);
                        }
                        break;
                    },
                    What::Nothing => {},
                    What::Key(key) => out.push(Input::Key(key)),
                    What::Mouse(report) => out.push(Input::Mouse(report)),
                    What::Mode(pixels) => {
                        self.pixels = pixels;
                        out.push(Input::Mode);
                    },
                    What::Paste => {
                        self.open = true;
                    },
                }
                at += n;
                proof {
                    now =
                    Reading {
                        held: then.held.skip(n as int),
                        pasting: what == What::Paste,
                        pixels: match what {
                            What::Mode(pixels) => pixels,
                            _ => then.pixels,
                        },
                    };
                    assert(now.held =~= whole.held.skip(at as int));
                    assert(said(out@) =~= earlier + says(what));
                    assert(earlier + (says(what) + now.read().1) =~= said(out@) + now.read().1);
                }
            }
            proof {
                if at >= self.held@.len() {
                    assert(now.held.len() == 0);
                    assert(said(out@) + Seq::<Said>::empty() =~= said(out@));
                }
            }
        }
        let left = slice_subrange(self.held.as_slice(), at, self.held.len());
        let mut held: Vec<u8> = Vec::new();
        crate::bytes::push_bytes(&mut held, left);
        self.held = held;
        proof {
            assert(self@ =~= now);
        }
        out
    }

    /// Nothing has arrived for a while: an escape that is held on its own was
    /// the Escape key, and with one byte behind it that key with alt.
    pub fn flush(&mut self) -> (r: Option<Input>)
        ensures
            final(self)@ == old(self)@.flushed().0,
            match r {
                Some(i) => seq![i@] == old(self)@.flushed().1,
                None => old(self)@.flushed().1.len() == 0,
            },
            ({
                let held = old(self)@.held;
                let cleared = Reading { held: Seq::empty(), ..old(self)@ };
                if !old(self)@.pasting && held.len() == 1 && held[0] == 0x1b {
                    final(self)@ == cleared && (r matches Some(i) && seq![i@] == says(
                        struck(Key::Escape, 0, None),
                    ))
                } else if !old(self)@.pasting && held.len() == 2 && held[0] == 0x1b && held[1]
                    < 0x80 && says(byte_key(held[1], ALT)).len() > 0 {
                    final(self)@ == cleared && (r matches Some(i) && seq![i@] == says(
                        byte_key(held[1], ALT),
                    ))
                } else {
                    final(self)@ == old(self)@ && r is None
                }
            }),
    {
        if self.open || self.held.len() == 0 || self.held.len() > 2 || self.held[0] != 0x1b {
            return None;
        }
        let what = if self.held.len() == 1 {
            strike(Key::Escape, 0, None)
        } else if self.held[1] < 0x80 {
            key_of_byte(self.held[1], ALT)
        } else {
            return None;
        };
        match what {
            What::Key(key) => {
                self.held = Vec::new();
                proof {
                    assert(self@ =~= (Reading { held: Seq::empty(), ..old(self)@ }));
                    assert(seq![Input::Key(key)@] =~= says(what));
                }
                Some(Input::Key(key))
            },
            _ => None,
        }
    }

    /// A paste that was opened and has gone quiet is given up: whether there
    /// was one.
    pub fn abandon_paste(&mut self) -> (r: bool)
        ensures
            r == old(self)@.pasting,
            final(self)@ == (if old(self)@.pasting {
                Reading { held: Seq::empty(), pasting: false, ..old(self)@ }
            } else {
                old(self)@
            }),
    {
        if !self.open {
            return false;
        }
        self.open = false;
        self.held = Vec::new();
        proof {
            assert(self@ =~= (Reading { held: Seq::empty(), pasting: false, ..old(self)@ }));
        }
        true
    }
}

// ---- laws ----

/// Numbers that end are not moved by what follows.
proof fn lemma_numbers_stay(s: Seq<u8>, b: Seq<u8>, i: int)
    requires
        0 <= i,
        numbers_end(s, i) < s.len(),
    ensures
        numbers_end(s + b, i) == numbers_end(s, i),
    decreases s.len() - i,
{
    lemma_numbers_end(s, i);
    assert((s + b)[i] == s[i]);
    if 0x20 <= s[i] <= 0x3f {
        lemma_numbers_stay(s, b, i + 1);
    }
}

/// A string that is over is not moved by what follows.
proof fn lemma_string_stays(s: Seq<u8>, b: Seq<u8>, i: int)
    requires
        0 <= i,
        string_end(s, i) is Some,
    ensures
        string_end(s + b, i) == string_end(s, i),
    decreases s.len() - i,
{
    assert((s + b)[i] == s[i]);
    if s[i] == 7 {
    } else if s[i] == 0x1b && i + 1 < s.len() && s[i + 1] == 0x5c {
        assert((s + b)[i + 1] == s[i + 1]);
    } else {
        lemma_string_end(s, i + 1);
        assert(i + 1 < s.len());
        assert((s + b)[i + 1] == s[i + 1]);
        lemma_string_stays(s, b, i + 1);
    }
}

/// A piece that ends is the same piece whatever follows it.
pub proof fn law_what_follows_changes_no_piece(s: Seq<u8>, b: Seq<u8>)
    requires
        s.len() > 0,
        token(s).1 != What::More,
    ensures
        token(s + b) == token(s),
{
    let all = s + b;
    assert forall|k: int| 0 <= k < s.len() implies all[k] == #[trigger] s[k] by {}
    if s[0] == 0x1b {
        if s[1] == 0x5b {
            lemma_numbers_end(s, 2);
            let end = numbers_end(s, 2);
            lemma_numbers_stay(s, b, 2);
            assert(all.subrange(2, end) =~= s.subrange(2, end));
        } else if s[1] == 0x5d || s[1] == 0x5f || s[1] == 0x50 {
            lemma_string_stays(s, b, 2);
        }
    } else if s[0] >= 0x80 {
        let n = length_of(s[0]);
        if s.len() > 1 {
            assert(all[1] == s[1]);
        }
        if s.len() > 2 {
            assert(all[2] == s[2]);
        }
        if s.len() > 3 {
            assert(all[3] == s[3]);
        }
    }
}

/// What ends a paste is not moved by what follows.
proof fn lemma_paste_end_stays(s: Seq<u8>, b: Seq<u8>, i: int)
    requires
        0 <= i,
        paste_end(s, i) is Some,
    ensures
        paste_end(s + b, i) == paste_end(s, i),
    decreases s.len() - i,
{
    lemma_paste_end(s, i);
    let end = paste_end(s, i)->Some_0;
    assert forall|k: int| 0 <= k < s.len() implies (s + b)[k] == #[trigger] s[k] by {}
    if !ends_paste(s, i) {
        assert(i + 6 <= s.len());
        assert(!ends_paste(s + b, i));
        lemma_paste_end_stays(s, b, i + 1);
    }
}

/// What arrives in two reads is what arrives in one: nothing depends on where
/// the terminal's bytes are cut.
pub proof fn law_two_reads_are_one(r: Reading, b: Seq<u8>)
    ensures
        r.and(b).read() == before(r.read().1, r.read().0.and(b).read()),
    decreases r.held.len(),
{
    let whole = r.and(b);
    if r.held.len() == 0 {
        assert(r.read().0.and(b) =~= whole);
        assert(Seq::<Said>::empty() + whole.read().1 =~= whole.read().1);
    } else if r.pasting {
        match paste_end(r.held, 0) {
            Some(end) => {
                lemma_paste_end(r.held, 0);
                lemma_paste_end_stays(r.held, b, 0);
                let next = Reading { held: r.held.skip(end + 6), pasting: false, ..r };
                law_two_reads_are_one(next, b);
                assert(whole.held.take(end) =~= r.held.take(end));
                assert(whole.held.skip(end + 6) =~= next.held + b);
                let first = seq![pasted(r.held.take(end))];
                assert(whole.read() == before(first, next.and(b).read()));
                assert(first + (next.read().1 + next.read().0.and(b).read().1) =~= (first
                    + next.read().1) + next.read().0.and(b).read().1);
            },
            None => {
                assert(Seq::<Said>::empty() + whole.read().1 =~= whole.read().1);
            },
        }
    } else {
        let (n, what) = token(r.held);
        lemma_token_moves(r.held);
        if what == What::More {
            assert(Seq::<Said>::empty() + whole.read().1 =~= whole.read().1);
        } else {
            law_what_follows_changes_no_piece(r.held, b);
            let next = Reading {
                held: r.held.skip(n),
                pasting: what == What::Paste,
                pixels: match what {
                    What::Mode(pixels) => pixels,
                    _ => r.pixels,
                },
            };
            law_two_reads_are_one(next, b);
            assert(whole.held.skip(n) =~= next.held + b);
            assert(whole.read() == before(says(what), next.and(b).read()));
            assert(says(what) + (next.read().1 + next.read().0.and(b).read().1) =~= (says(what)
                + next.read().1) + next.read().0.and(b).read().1);
        }
    }
}

// ---- laws of what is read ----

impl Reading {
    /// What is made of what is held when nothing follows it.
    pub open spec fn flushed(self) -> (Reading, Seq<Said>) {
        let held = self.held;
        let said = if self.pasting {
            Seq::empty()
        } else if held.len() == 1 && held[0] == 0x1b {
            says(struck(Key::Escape, 0, None))
        } else if held.len() == 2 && held[0] == 0x1b && held[1] < 0x80 {
            says(byte_key(held[1], ALT))
        } else {
            Seq::empty()
        };
        if said.len() > 0 {
            (Reading { held: Seq::empty(), ..self }, said)
        } else {
            (self, said)
        }
    }
}

/// An escape that nothing follows is the key, and with a letter behind it the
/// letter with alt.
pub proof fn law_a_lone_escape_is_the_key(r: Reading, b: u8)
    requires
        !r.pasting,
    ensures
        ({
            let alone = Reading { held: seq![0x1bu8], ..r };
            &&& alone.flushed().0.held.len() == 0
            &&& alone.flushed().1 == seq![
                Said::Key(
                    KeyInput {
                        key: Key::Escape,
                        mods: Mods(0),
                        action: KeyAction::Press,
                        text: None,
                    },
                ),
            ]
        }),
        0x20 <= b < 0x7f ==> ({
            let two = Reading { held: seq![0x1bu8, b], ..r };
            &&& two.flushed().0.held.len() == 0
            &&& two.flushed().1 == seq![
                Said::Key(
                    KeyInput {
                        key: Key::Char(b as char),
                        mods: Mods(2),
                        action: KeyAction::Press,
                        text: None,
                    },
                ),
            ]
        }),
        (Reading { held: seq![b], ..r }).flushed().1.len() > 0 ==> b == 0x1b,
{
}

/// What a byte is: a character is itself and types itself, the bytes below the
/// space are letters with control but for the keys that have their own, and with
/// an escape before it a character has alt.
pub proof fn law_a_byte_is_its_key(b: u8, rest: Seq<u8>)
    ensures
        ({
            let key = |key: Key, mods: u32, text: Option<char>|
                What::Key(KeyInput { key, mods: Mods(mods), action: KeyAction::Press, text });
            let one = token(seq![b] + rest);
            let alt = token(seq![0x1bu8, b] + rest);
            &&& 0x20 <= b < 0x7f ==> one == (
                1int,
                key(Key::Char(b as char), 0, Some(b as char)),
            )
            &&& b == 0x0d ==> one == (1int, key(Key::Enter, 0, None))
            &&& b == 0x09 ==> one == (1int, key(Key::Tab, 0, None))
            &&& b == 0x7f || b == 0x08 ==> one == (1int, key(Key::Backspace, 0, None))
            &&& 1 <= b <= 26 && b != 8 && b != 9 && b != 13 ==> one == (
                1int,
                key(Key::Char((b + 96) as char), 4, None),
            )
            &&& 0x20 <= b < 0x7f && b != 0x5b && b != 0x4f && b != 0x5d && b != 0x5f && b != 0x50
                ==> alt == (2int, key(Key::Char(b as char), 2, None))
        }),
{
    let one = seq![b] + rest;
    let two = seq![0x1bu8, b] + rest;
    assert(one[0] == b);
    assert(two[0] == 0x1b && two[1] == b);
    assert(0u32 | 4 == 4) by (bit_vector);
}

/// A character of any script is read from its bytes as itself.
pub proof fn law_a_character_is_read_from_its_bytes(c: char, rest: Seq<u8>)
    requires
        c as u32 >= 0x80,
    ensures
        token(utf8(seq![c]) + rest) == (
            utf8(seq![c]).len() as int,
            What::Key(
                KeyInput {
                    key: Key::Char(c),
                    mods: Mods(0),
                    action: KeyAction::Press,
                    text: Some(c),
                },
            ),
        ),
{
    let n = c as u32;
    let bytes = utf8(seq![c]);
    assert(seq![c].drop_first() =~= Seq::<char>::empty());
    assert(utf8(seq![c].drop_first()) =~= Seq::<u8>::empty());
    assert(bytes =~= encode_scalar(n));
    let s = bytes + rest;
    assert(last_continuation_byte(n) == 0x80 + n % 64) by (bit_vector);
    if n <= 0x7ff {
        assert(leading_byte_width_2(n) == 0xc0 + n / 64) by (bit_vector)
            requires
                0x80 <= n <= 0x7ff,
        ;
        assert(s[0] == leading_byte_width_2(n) && s[1] == last_continuation_byte(n));
    } else if n <= 0xffff {
        assert(leading_byte_width_3(n) == 0xe0 + n / 4096) by (bit_vector)
            requires
                0x800 <= n <= 0xffff,
        ;
        assert(second_last_continuation_byte(n) == 0x80 + (n / 64) % 64) by (bit_vector);
        assert(s[0] == leading_byte_width_3(n) && s[1] == second_last_continuation_byte(n) && s[2]
            == last_continuation_byte(n));
    } else {
        assert(leading_byte_width_4(n) == 0xf0 + n / 262144) by (bit_vector)
            requires
                0x10000 <= n <= 0x10ffff,
        ;
        assert(third_last_continuation_byte(n) == 0x80 + (n / 4096) % 64) by (bit_vector);
        assert(second_last_continuation_byte(n) == 0x80 + (n / 64) % 64) by (bit_vector);
        assert(s[0] == leading_byte_width_4(n) && s[1] == third_last_continuation_byte(n) && s[2]
            == second_last_continuation_byte(n) && s[3] == last_continuation_byte(n));
    }
}

proof fn lemma_numbers_stop(s: Seq<u8>, i: int, end: int)
    requires
        0 <= i <= end < s.len(),
        forall|k: int| i <= k < end ==> 0x20 <= #[trigger] s[k] <= 0x3f,
        !(0x20 <= s[end] <= 0x3f),
    ensures
        numbers_end(s, i) == end,
    decreases end - i,
{
    if i < end {
        assert(0x20 <= s[i] <= 0x3f);
        lemma_numbers_stop(s, i + 1, end);
    }
}

/// A control sequence is its numbers and the letter that ends it, and ends there.
pub proof fn law_a_sequence_ends_at_its_letter(t: Seq<u8>, last: u8, rest: Seq<u8>)
    requires
        forall|k: int| 0 <= k < t.len() ==> 0x20 <= #[trigger] t[k] <= 0x3f,
        0x40 <= last <= 0x7e,
    ensures
        token(seq![0x1bu8, 0x5b] + t + seq![last] + rest) == (
            t.len() as int + 3,
            meaning(latin(t), last),
        ),
{
    let s = seq![0x1bu8, 0x5b] + t + seq![last] + rest;
    let end = t.len() as int + 2;
    assert(s[0] == 0x1b && s[1] == 0x5b && s[end] == last);
    assert forall|k: int| 2 <= k < end implies 0x20 <= #[trigger] s[k] <= 0x3f by {
        assert(s[k] == t[k - 2]);
    }
    lemma_numbers_stop(s, 2, end);
    assert(s.subrange(2, end) =~= t);
}

proof fn lemma_plain_number(n: nat)
    requires
        n <= u32::MAX,
    ensures
        number(decimal(n), u32::MAX as nat) == Some(n),
        !decimal(n).contains(';'),
        !decimal(n).contains(':'),
        pieces(decimal(n), ':') == seq![decimal(n)],
{
    let s = decimal(n);
    lemma_decimal(n);
    assert(is_digit(s[0]));
    assert(!s.contains(';')) by {
        if s.contains(';') {
            let i = choose|i: int| 0 <= i < s.len() && s[i] == ';';
            assert(is_digit(s[i]));
        }
    }
    assert(!s.contains(':')) by {
        if s.contains(':') {
            let i = choose|i: int| 0 <= i < s.len() && s[i] == ':';
            assert(is_digit(s[i]));
        }
    }
    lemma_first_piece(s, Seq::empty(), ':');
}

/// Two numbers, and what was done with the key behind the second, as a terminal
/// sends them.
proof fn lemma_two_numbers(a: nat, b: nat, c: nat)
    requires
        a <= u32::MAX && b <= u32::MAX && c <= u32::MAX,
    ensures
        ({
            let t = decimal(a) + seq![';'] + decimal(b);
            &&& param(t, 0, 0) == Some(a)
            &&& param(t, 1, 0) == Some(b)
            &&& param(t, 1, 1) is None
            &&& param(t, 2, 0) is None
        }),
        ({
            let t = decimal(a) + seq![';'] + (decimal(b) + seq![':'] + decimal(c));
            &&& param(t, 0, 0) == Some(a)
            &&& param(t, 1, 0) == Some(b)
            &&& param(t, 1, 1) == Some(c)
            &&& param(t, 2, 0) is None
        }),
        param(decimal(a), 0, 0) == Some(a),
        param(decimal(a), 1, 0) is None,
        param(decimal(a), 1, 1) is None,
        param(decimal(a), 2, 0) is None,
{
    let (x, y, z) = (decimal(a), decimal(b), decimal(c));
    lemma_plain_number(a);
    lemma_plain_number(b);
    lemma_plain_number(c);
    lemma_first_piece(x, y, ';');
    lemma_first_piece(y, Seq::empty(), ';');
    assert(seq![x] + seq![y] =~= seq![x, y]);
    let both = y + seq![':'] + z;
    assert(!both.contains(';')) by {
        if both.contains(';') {
            let i = choose|i: int| 0 <= i < both.len() && both[i] == ';';
            if i < y.len() {
                assert(y[i] == ';');
            } else if i > y.len() {
                assert(z[i - y.len() - 1] == ';');
            }
        }
    }
    lemma_first_piece(both, Seq::empty(), ';');
    lemma_first_piece(x, both, ';');
    assert(seq![x] + seq![both] =~= seq![x, both]);
    lemma_first_piece(y, z, ':');
    assert(seq![y] + seq![z] =~= seq![y, z]);
    lemma_first_piece(x, Seq::empty(), ';');
}

/// A key is read with what is held, counted from one as the terminal does, and
/// with what was done with it: pressed, held on or let go.
pub proof fn law_a_key_is_read_with_what_is_held(code: u32, held: u32, last: u8)
    requires
        held <= 15,
    ensures
        ({
            let t = decimal(code as nat) + seq![';'] + decimal((held + 1) as nat);
            let upto = |n: nat| decimal(code as nat) + seq![';'] + (decimal((held + 1) as nat) + seq![
                ':',
            ] + decimal(n));
            let is = |action: KeyAction|
                What::Key(
                    KeyInput { key: coded(code as int), mods: Mods(held), action, text: None },
                );
            &&& meaning(t, 0x75) == is(KeyAction::Press)
            &&& meaning(upto(1), 0x75) == is(KeyAction::Press)
            &&& meaning(upto(2), 0x75) == is(KeyAction::Repeat)
            &&& meaning(upto(3), 0x75) == is(KeyAction::Release)
        }),
{
    assert(held & 15 == held) by (bit_vector)
        requires
            held <= 15,
    ;
    lemma_two_numbers(code as nat, (held + 1) as nat, 1);
    lemma_two_numbers(code as nat, (held + 1) as nat, 2);
    lemma_two_numbers(code as nat, (held + 1) as nat, 3);
}

/// Which number is which key: the letters are themselves, and the rest have the
/// numbers that terminals gave them.
pub proof fn law_a_number_is_its_key(code: int)
    ensures
        coded(9) == Key::Tab && coded(13) == Key::Enter && coded(27) == Key::Escape && coded(127)
            == Key::Backspace,
        0x20 <= code <= 0xd7ff && code != 127 ==> coded(code) == Key::Char(code as char),
        0x10000 <= code <= 0x10ffff ==> coded(code) == Key::Char(code as char),
        57376 <= code <= 57398 ==> coded(code) == Key::Function((code - 57363) as u8),
        numbered(2) == Some(Key::Insert) && numbered(3) == Some(Key::Delete) && numbered(5) == Some(
            Key::PageUp,
        ) && numbered(6) == Some(Key::PageDown) && numbered(1) == Some(Key::Home) && numbered(7)
            == Some(Key::Home) && numbered(4) == Some(Key::End) && numbered(8) == Some(Key::End),
        numbered(11) == Some(Key::Function(1)) && numbered(15) == Some(Key::Function(5))
            && numbered(17) == Some(Key::Function(6)) && numbered(21) == Some(Key::Function(10))
            && numbered(23) == Some(Key::Function(11)) && numbered(24) == Some(Key::Function(12)),
        lettered(0x41) == Some(Key::Up) && lettered(0x42) == Some(Key::Down) && lettered(0x43)
            == Some(Key::Right) && lettered(0x44) == Some(Key::Left) && lettered(0x48) == Some(
            Key::Home,
        ) && lettered(0x46) == Some(Key::End) && lettered(0x50) == Some(Key::Function(1))
            && lettered(0x51) == Some(Key::Function(2)) && lettered(0x53) == Some(
            Key::Function(4),
        ),
{
}

/// The keys with a letter or a number of their own are read with what is held, and
/// with nothing said nothing is.
pub proof fn law_an_arrow_is_read_with_what_is_held(n: u32, held: u32, last: u8, key: Key)
    requires
        held <= 15,
    ensures
        ({
            let t = decimal(n as nat) + seq![';'] + decimal((held + 1) as nat);
            let with = |mods: u32|
                What::Key(KeyInput { key, mods: Mods(mods), action: KeyAction::Press, text: None });
            &&& lettered(last) == Some(key) ==> meaning(t, last) == with(held)
            &&& lettered(last) == Some(key) ==> meaning(decimal(n as nat), last) == with(0)
            &&& numbered(n as int) == Some(key) ==> meaning(t, 0x7e) == with(held)
            &&& numbered(n as int) == Some(key) ==> meaning(decimal(n as nat), 0x7e) == with(0)
            &&& meaning(decimal(200), 0x7e) == What::Paste
            &&& meaning(decimal(n as nat), 0x5a) == What::Key(
                KeyInput {
                    key: Key::Tab,
                    mods: Mods(1),
                    action: KeyAction::Press,
                    text: None,
                },
            )
        }),
{
    assert(held & 15 == held) by (bit_vector)
        requires
            held <= 15,
    ;
    lemma_two_numbers(n as nat, (held + 1) as nat, 1);
    lemma_two_numbers(200, 1, 1);
}

/// A report of the mouse is where the terminal says, counted from nought where it
/// counts from one, and of the button and what is held that its number says.
pub proof fn law_a_report_is_where_the_terminal_says(b: u32, x: u32, y: u32)
    requires
        1 <= x <= i32::MAX,
        1 <= y <= i32::MAX,
    ensures
        ({
            let t = "<"@ + (decimal(b as nat) + seq![';'] + (decimal(x as nat) + seq![';'] + decimal(
                y as nat,
            )));
            &&& meaning(t, 0x4d) == What::Mouse(
                mouse_report(b, (x - 1) as i32, (y - 1) as i32, false),
            )
            &&& meaning(t, 0x6d) == What::Mouse(
                mouse_report(b, (x - 1) as i32, (y - 1) as i32, true),
            )
        }),
{
    let (p, q, r) = (decimal(b as nat), decimal(x as nat), decimal(y as nat));
    lemma_plain_number(b as nat);
    lemma_plain_number(x as nat);
    lemma_plain_number(y as nat);
    reveal_strlit("<");
    let inner = p + seq![';'] + (q + seq![';'] + r);
    let t = "<"@ + inner;
    assert(t.subrange(0, 1) =~= "<"@);
    assert(t.skip(1) =~= inner);
    lemma_first_piece(p, q + seq![';'] + r, ';');
    lemma_first_piece(q, r, ';');
    lemma_first_piece(r, Seq::empty(), ';');
    assert(pieces(inner, ';') =~= seq![p, q, r]);
}

/// What the number of a report says: the two lowest bits which button, three being
/// none, then shift, alt and control, then that it moved, then that it is the
/// wheel; a wheel is turned one notch, up, down, left or right.
pub proof fn law_a_report_says_what_the_mouse_did(b: u32, x: i32, y: i32, released: bool)
    ensures
        ({
            let report = mouse_report(b, x, y, released);
            &&& report.x == x && report.y == y
            &&& report.kind == MouseKind::Wheel <==> b & 64 != 0
            &&& report.kind == MouseKind::Move <==> b & 64 == 0 && b & 32 != 0
            &&& report.kind == MouseKind::Release <==> b & 64 == 0 && b & 32 == 0 && released
            &&& report.kind == MouseKind::Press <==> b & 64 == 0 && b & 32 == 0 && !released
            &&& b & 64 == 0 ==> report.button == (if b & 3 == 3 {
                None
            } else {
                Some(b & 3)
            }) && report.wheel == (0i32, 0i32)
            &&& b & 64 != 0 && b & 3 == 0 ==> report.wheel == (0i32, -1i32)
            &&& b & 64 != 0 && b & 3 == 1 ==> report.wheel == (0i32, 1i32)
            &&& b & 64 != 0 && b & 3 == 2 ==> report.wheel == (-1i32, 0i32)
            &&& b & 64 != 0 && b & 3 == 3 ==> report.wheel == (1i32, 0i32)
            &&& report.mods.has_shift() <==> b & 4 != 0
            &&& report.mods.has_alt() <==> b & 8 != 0
            &&& report.mods.has_ctrl() <==> b & 16 != 0
            &&& !report.mods.has_super()
        }),
{
    let s: u32 = if b & 4 != 0 {
        1
    } else {
        0
    };
    let a: u32 = if b & 8 != 0 {
        2
    } else {
        0
    };
    let c: u32 = if b & 16 != 0 {
        4
    } else {
        0
    };
    let m: u32 = s | a | c;
    assert((m & 1 != 0 <==> s == 1) && (m & 2 != 0 <==> a == 2) && (m & 4 != 0 <==> c == 4) && m
        & 8 == 0) by (bit_vector)
        requires
            m == s | a | c,
            s == 0 || s == 1,
            a == 0 || a == 2,
            c == 0 || c == 4,
    ;
    assert(b & 3 <= 3) by (bit_vector);
}

/// What is between the marks of a paste is the paste, and what is behind the last
/// mark is read on.
pub proof fn law_a_paste_is_what_is_between_its_marks(r: Reading, body: Seq<u8>, rest: Seq<u8>)
    requires
        !r.pasting,
        forall|i: int| 0 <= i < body.len() ==> #[trigger] body[i] != 0x1b,
    ensures
        ({
            let start = seq![0x1bu8, 0x5b, 0x32, 0x30, 0x30, 0x7e];
            let end = seq![0x1bu8, 0x5b, 0x32, 0x30, 0x31, 0x7e];
            let after = Reading { held: rest, ..r }.read();
            (Reading { held: start + body + end + rest, ..r }).read() == (
                after.0,
                seq![
                    if body.len() <= 65536 {
                        Said::Paste(lossily(body))
                    } else {
                        Said::PasteRefused { bytes: body.len() as usize }
                    },
                ] + after.1,
            )
        }),
{
    let start = seq![0x1bu8, 0x5b, 0x32, 0x30, 0x30, 0x7e];
    let end = seq![0x1bu8, 0x5b, 0x32, 0x30, 0x31, 0x7e];
    let number = seq![0x32u8, 0x30, 0x30];
    let held = start + body + end + rest;
    let more = body + end + rest;
    assert(held =~= seq![0x1bu8, 0x5b] + number + seq![0x7eu8] + more);
    law_a_sequence_ends_at_its_letter(number, 0x7e, more);
    assert(latin(number) =~= decimal(200)) by {
        lemma_two_hundred();
    }
    lemma_two_numbers(200, 1, 1);
    assert(held.skip(6) =~= more);
    let inside = Reading { held: more, pasting: true, ..r };
    lemma_paste_ends(body, end + rest, 0);
    assert(body + (end + rest) =~= more);
    assert(more.take(body.len() as int) =~= body);
    assert(more.skip(body.len() as int + 6) =~= rest);
    let after = Reading { held: rest, ..r }.read();
    assert((Reading { held: rest, pasting: false, ..inside }) == (Reading { held: rest, ..r }));
    assert(inside.read() == before(seq![pasted(body)], after));
    assert((Reading { held, ..r }).read() == before(Seq::empty(), inside.read()));
    assert(Seq::<Said>::empty() + (seq![pasted(body)] + after.1) =~= seq![pasted(body)] + after.1);
}

proof fn lemma_two_hundred()
    ensures
        decimal(200) == seq!['2', '0', '0'],
{
    reveal_with_fuel(decimal, 4);
    assert(decimal(200) =~= seq!['2', '0', '0']);
}

proof fn lemma_paste_ends(body: Seq<u8>, tail: Seq<u8>, i: int)
    requires
        0 <= i <= body.len(),
        forall|k: int| 0 <= k < body.len() ==> #[trigger] body[k] != 0x1b,
        tail.len() >= 6,
        ends_paste(tail, 0),
    ensures
        paste_end(body + tail, i) == Some(body.len() as int),
    decreases body.len() - i,
{
    let s = body + tail;
    if i < body.len() {
        assert(s[i] == body[i]);
        lemma_paste_ends(body, tail, i + 1);
    } else {
        assert(s[i] == tail[0] && s[i + 1] == tail[1] && s[i + 2] == tail[2] && s[i + 3] == tail[3]
            && s[i + 4] == tail[4] && s[i + 5] == tail[5]);
    }
}

/// The terminal says whether it reports in pixels: set, and set for good, are that
/// it does.
pub proof fn law_the_terminal_says_whether_it_reports_in_pixels(n: u8, rest: Seq<char>)
    requires
        n < 10,
    ensures
        meaning("?1016;"@ + seq![(48 + n) as char] + "$"@, 0x79) == What::Mode(n == 1 || n == 3),
{
    reveal_strlit("?1016;");
    reveal_strlit("?1016;1");
    reveal_strlit("?1016;3");
    let t = "?1016;"@ + seq![(48 + n) as char] + "$"@;
    assert(t.subrange(0, 6) =~= "?1016;"@);
    assert(t.subrange(0, 7)[6] == (48 + n) as char);
    assert(n == 1 ==> t.subrange(0, 7) =~= "?1016;1"@);
    assert(n == 3 ==> t.subrange(0, 7) =~= "?1016;3"@);
    assert("?1016;1"@[6] == '1' && "?1016;3"@[6] == '3');
}

/// What the terminal answers to a question that is not of keys, between an opening
/// and its end, is passed over whole.
pub proof fn law_an_answer_is_passed_over(kind: u8, body: Seq<u8>, rest: Seq<u8>)
    requires
        kind == 0x5d || kind == 0x5f || kind == 0x50,
        forall|i: int| 0 <= i < body.len() ==> #[trigger] body[i] != 0x1b && body[i] != 7,
    ensures
        token(seq![0x1bu8, kind] + body + seq![0x1bu8, 0x5c] + rest) == (
            body.len() as int + 4,
            What::Nothing,
        ),
        token(seq![0x1bu8, kind] + body + seq![7u8] + rest) == (
            body.len() as int + 3,
            What::Nothing,
        ),
        token(seq![0x1bu8, kind] + body) == (0int, What::More),
{
    let a = seq![0x1bu8, kind] + body + seq![0x1bu8, 0x5c] + rest;
    let b = seq![0x1bu8, kind] + body + seq![7u8] + rest;
    let c = seq![0x1bu8, kind] + body;
    let n = body.len() as int + 2;
    assert(a[0] == 0x1b && a[1] == kind && a[n] == 0x1b && a[n + 1] == 0x5c);
    assert(b[0] == 0x1b && b[1] == kind && b[n] == 7);
    assert(c[0] == 0x1b && c[1] == kind);
    assert forall|i: int| 2 <= i < n implies #[trigger] a[i] != 0x1b && a[i] != 7 by {
        assert(a[i] == body[i - 2]);
    }
    assert forall|i: int| 2 <= i < n implies #[trigger] b[i] != 0x1b && b[i] != 7 by {
        assert(b[i] == body[i - 2]);
    }
    assert forall|i: int| 2 <= i < n implies #[trigger] c[i] != 0x1b && c[i] != 7 by {
        assert(c[i] == body[i - 2]);
    }
    lemma_string_reaches(a, 2, n);
    lemma_string_reaches(b, 2, n);
    lemma_string_reaches(c, 2, n);
}

proof fn lemma_string_reaches(s: Seq<u8>, i: int, end: int)
    requires
        0 <= i <= end <= s.len(),
        forall|k: int| i <= k < end ==> #[trigger] s[k] != 0x1b && s[k] != 7,
    ensures
        string_end(s, i) == string_end(s, end),
    decreases end - i,
{
    if i < end {
        assert(s[i] != 0x1b && s[i] != 7);
        lemma_string_reaches(s, i + 1, end);
    }
}

}
