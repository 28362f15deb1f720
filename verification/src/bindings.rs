//! `key.<chord> = <action>`: what a person may rebind, and how a chord is
//! spelled.
//!
//! What a settings file says about keys is a list of rows, looked up before the
//! built-in table: a row's answer is a command, no command even if the built-in
//! table has one, or nothing said.
//!
//! A chord needs ctrl, alt or super: a bare letter, or a shifted one, is the
//! page's, so that a text field is a text field. The exception is `f1` to
//! `f24`, which no field types with. A chord is exact: the same key and the
//! same four modifiers, no more and no fewer; caps lock and num lock are not
//! part of any chord.
//!
//! `+` is the separator, so a chord that means the `+` key spells it `plus`;
//! and a space cannot be written at the end of a line that is trimmed, so it is
//! `space`.
use vstd::prelude::*;

use crate::input::{Key, KeyAction, KeyInput, Mods};
use crate::strings::{
    char_lists, chars_of, debug_of, decimal, decimal_string, index_of, is_blank, is_digit,
    is_digit_char, is_space, is_word, lemma_decimal, lemma_index_of, lemma_index_of_is, lemma_trim_end, lemma_trim_start,
    lower, lower_all, lower_char, lower_chars, number, parse_number, pieces, quoted, split, starts,
    starts_with_word, string_of, trim, trim_chars, trim_start,
};

verus! {

/// A key with its modifiers, as written: `ctrl+shift+tab`, `alt+=`, `f5`.
#[derive(Debug, Clone, Copy, PartialEq, Eq, Structural)]
pub struct Chord {
    pub mods: Mods,
    pub key: Key,
}

/// The key that a word in lower case names, of those with names.
pub open spec fn named_key(word: Seq<char>) -> Option<Key> {
    if word == "tab"@ {
        Some(Key::Tab)
    } else if word == "enter"@ {
        Some(Key::Enter)
    } else if word == "esc"@ || word == "escape"@ {
        Some(Key::Escape)
    } else if word == "backspace"@ {
        Some(Key::Backspace)
    } else if word == "insert"@ {
        Some(Key::Insert)
    } else if word == "delete"@ {
        Some(Key::Delete)
    } else if word == "up"@ {
        Some(Key::Up)
    } else if word == "down"@ {
        Some(Key::Down)
    } else if word == "left"@ {
        Some(Key::Left)
    } else if word == "right"@ {
        Some(Key::Right)
    } else if word == "home"@ {
        Some(Key::Home)
    } else if word == "end"@ {
        Some(Key::End)
    } else if word == "pageup"@ {
        Some(Key::PageUp)
    } else if word == "pagedown"@ {
        Some(Key::PageDown)
    } else if word == "plus"@ {
        Some(Key::Char('+'))
    } else if word == "space"@ {
        Some(Key::Char(' '))
    } else {
        None
    }
}

/// The key that a word is: one character, a key with a name, or `f1` to `f24`.
pub open spec fn key_of(word: Seq<char>) -> Option<Key> {
    let low = lower_all(word);
    if word.len() == 1 {
        Some(Key::Char(lower(word[0])))
    } else if named_key(low) is Some {
        named_key(low)
    } else if low.len() > 1 && low[0] == 'f' && is_digit(low[1]) && low[1] != '0' {
        match number(low.skip(1), 255) {
            Some(n) => if 1 <= n <= 24 {
                Some(Key::Function(n as u8))
            } else {
                None
            },
            None => None,
        }
    } else {
        None
    }
}

/// The modifier that a word in lower case names, as its bit.
pub open spec fn modifier(word: Seq<char>) -> Option<u32> {
    if word == "ctrl"@ || word == "control"@ {
        Some(crate::input::CTRL)
    } else if word == "alt"@ || word == "opt"@ || word == "option"@ {
        Some(crate::input::ALT)
    } else if word == "shift"@ {
        Some(crate::input::SHIFT)
    } else if word == "super"@ || word == "meta"@ || word == "cmd"@ {
        Some(crate::input::SUPER)
    } else {
        None
    }
}

/// The modifiers that some words are, after `mods`; or what was not understood.
pub open spec fn modifiers(text: Seq<char>, words: Seq<Seq<char>>, mods: Mods) -> Result<
    Mods,
    Seq<char>,
>
    decreases words.len(),
{
    if words.len() == 0 {
        Ok(mods)
    } else {
        match modifier(lower_all(words[0])) {
            Some(bit) => if mods.0 & bit != 0 {
                Err(text + ": "@ + words[0] + " twice"@)
            } else {
                modifiers(text, words.drop_first(), Mods(mods.0 | bit))
            },
            None => Err(
                if words[0].len() == 0 {
                    text + ": an empty modifier between two +"@
                } else {
                    text + ": "@ + quoted(words[0])
                        + " is not a modifier; ctrl, alt, shift or super"@
                },
            ),
        }
    }
}

/// The chord that a text is, or what was not understood.
pub open spec fn chord_of(written: Seq<char>) -> Result<Chord, Seq<char>> {
    let text = trim(written);
    let parts = pieces(text, '+');
    if text.len() == 0 {
        Err("a chord needs a key"@)
    } else if parts.last().len() == 0 {
        Err(text + ": no key after the last +"@)
    } else {
        match modifiers(text, parts.drop_last(), Mods(0)) {
            Ok(mods) => match key_of(parts.last()) {
                Some(key) => Ok(Chord { mods, key }),
                None => Err(text + ": "@ + quoted(parts.last()) + " is not a key"@),
            },
            Err(why) => Err(why),
        }
    }
}

/// How a key is spelled.
pub open spec fn key_spelled(key: Key) -> Seq<char> {
    match key {
        Key::Tab => "tab"@,
        Key::Enter => "enter"@,
        Key::Escape => "esc"@,
        Key::Backspace => "backspace"@,
        Key::Insert => "insert"@,
        Key::Delete => "delete"@,
        Key::Up => "up"@,
        Key::Down => "down"@,
        Key::Left => "left"@,
        Key::Right => "right"@,
        Key::Home => "home"@,
        Key::End => "end"@,
        Key::PageUp => "pageup"@,
        Key::PageDown => "pagedown"@,
        Key::Char(c) => if c == '+' {
            "plus"@
        } else if c == ' ' {
            "space"@
        } else {
            seq![c]
        },
        Key::Function(n) => "f"@ + decimal(n as nat),
        Key::Other(n) => "other("@ + decimal(n as nat) + ")"@,
    }
}

/// A word and its `+`, when it is held.
pub open spec fn held_word(held: bool, word: Seq<char>) -> Seq<char> {
    if held {
        word
    } else {
        Seq::empty()
    }
}

impl Chord {
    /// The spelling, modifiers in one fixed order.
    pub open spec fn spelled(self) -> Seq<char> {
        held_word(self.mods.has_ctrl(), "ctrl+"@) + held_word(self.mods.has_alt(), "alt+"@)
            + held_word(self.mods.has_shift(), "shift+"@) + held_word(
            self.mods.has_super(),
            "super+"@,
        ) + key_spelled(self.key)
    }

    /// Whether an input is this chord.
    pub open spec fn answers(self, input: KeyInput) -> bool {
        &&& self.key == (match input.key {
            Key::Char(c) => Key::Char(lower(c)),
            other => other,
        })
        &&& input.mods.has_ctrl() == self.mods.has_ctrl()
        &&& input.mods.has_alt() == self.mods.has_alt()
        &&& input.mods.has_shift() == self.mods.has_shift()
        &&& input.mods.has_super() == self.mods.has_super()
    }

    /// `mod+…+key`, case-insensitive for the words. Modifiers: `ctrl`, `alt`,
    /// `shift`, `super` (also `meta`, `cmd`). Keys: one character (`plus` for
    /// `+`, `space` for ` `), or a key with a name, or `f1` to `f24`. An error
    /// names what was not understood.
    ///
    /// A letter is kept lower-case whatever case it was written in: the
    /// keyboard protocol reports the key, not the character shift made of it.
    pub fn parse(text: &str) -> (r: Result<Chord, String>)
        ensures
            match r {
                Ok(chord) => chord_of(text@) == Ok::<Chord, Seq<char>>(chord),
                Err(why) => chord_of(text@) == Err::<Chord, Seq<char>>(why@),
            },
    {
        let all = chars_of(text);
        let trimmed = trim_chars(all.as_slice());
        let mut parts = split(trimmed, '+');
        let ghost whole = pieces(trimmed@, '+');
        if trimmed.len() == 0 {
            return Err("a chord needs a key".to_owned());
        }
        let key = match parts.pop() {
            Some(key) => key,
            None => Vec::new(),
        };
        proof {
            assert(key@ == whole.last());
            assert(char_lists(parts@) =~= whole.drop_last());
        }
        if key.len() == 0 {
            let mut why = string_of(trimmed);
            why.append(": no key after the last +");
            return Err(why);
        }
        let mods = match modifiers_of(trimmed, &parts) {
            Ok(mods) => mods,
            Err(why) => return Err(why),
        };
        match parse_key(key.as_slice()) {
            Some(key) => Ok(Chord { mods, key }),
            None => {
                let mut why = string_of(trimmed);
                why.append(": ");
                why.append(debug_of(string_of(key.as_slice()).as_str()).as_str());
                why.append(" is not a key");
                Err(why)
            },
        }
    }

    /// The spelling `parse` reads, modifiers in one fixed order.
    pub fn spell(&self) -> (r: String)
        ensures
            r@ == self.spelled(),
    {
        let mut out = String::new();
        if self.mods.ctrl() {
            out.append("ctrl+");
        }
        if self.mods.alt() {
            out.append("alt+");
        }
        if self.mods.shift() {
            out.append("shift+");
        }
        if self.mods.meta() {
            out.append("super+");
        }
        out.append(spell_key(self.key).as_str());
        proof {
            assert(out@ =~= self.spelled());
        }
        out
    }

    /// Whether `input` is this chord: same key, same ctrl, alt, shift and
    /// super.
    pub fn matches(&self, input: &KeyInput) -> (r: bool)
        ensures
            r == self.answers(*input),
    {
        let key = match input.key {
            Key::Char(c) => Key::Char(lower_char(c)),
            other => other,
        };
        key == self.key && input.mods.ctrl() == self.mods.ctrl() && input.mods.alt()
            == self.mods.alt() && input.mods.shift() == self.mods.shift() && input.mods.meta()
            == self.mods.meta()
    }
}

/// The modifiers that some words are.
fn modifiers_of(text: &[char], words: &Vec<Vec<char>>) -> (r: Result<Mods, String>)
    ensures
        match r {
            Ok(mods) => modifiers(text@, char_lists(words@), Mods(0)) == Ok::<Mods, Seq<char>>(
                mods,
            ),
            Err(why) => modifiers(text@, char_lists(words@), Mods(0)) == Err::<Mods, Seq<char>>(
                why@,
            ),
        },
{
    let ghost all = char_lists(words@);
    let mut mods = Mods(0);
    let mut i: usize = 0;
    proof {
        assert(all.skip(0) =~= all);
    }
    while i < words.len()
        invariant
            i <= words@.len(),
            all == char_lists(words@),
            modifiers(text@, all, Mods(0)) == modifiers(text@, all.skip(i as int), mods),
        decreases words@.len() - i,
    {
        let word = words[i].as_slice();
        let low = lower_chars(word);
        proof {
            assert(all.skip(i as int)[0] == word@);
            assert(all.skip(i as int).drop_first() =~= all.skip(i + 1));
        }
        let bit = match modifier_named(low.as_slice()) {
            Some(bit) => bit,
            None => {
                let mut why = string_of(text);
                if word.len() == 0 {
                    why.append(": an empty modifier between two +");
                } else {
                    why.append(": ");
                    why.append(debug_of(string_of(word).as_str()).as_str());
                    why.append(" is not a modifier; ctrl, alt, shift or super");
                }
                return Err(why);
            },
        };
        if mods.0 & bit != 0 {
            let mut why = string_of(text);
            why.append(": ");
            why.append(string_of(word).as_str());
            why.append(" twice");
            return Err(why);
        }
        mods = mods.with(bit);
        i += 1;
    }
    proof {
        assert(all.skip(i as int) =~= Seq::empty());
    }
    Ok(mods)
}

/// The modifier that a word in lower case names.
fn modifier_named(word: &[char]) -> (r: Option<u32>)
    ensures
        r == modifier(word@),
{
    if is_word(word, "ctrl") || is_word(word, "control") {
        Some(Mods::CTRL)
    } else if is_word(word, "alt") || is_word(word, "opt") || is_word(word, "option") {
        Some(Mods::ALT)
    } else if is_word(word, "shift") {
        Some(Mods::SHIFT)
    } else if is_word(word, "super") || is_word(word, "meta") || is_word(word, "cmd") {
        Some(Mods::SUPER)
    } else {
        None
    }
}

/// The key that a word in lower case names, of those with names.
fn key_named(word: &[char]) -> (r: Option<Key>)
    ensures
        r == named_key(word@),
{
    if is_word(word, "tab") {
        Some(Key::Tab)
    } else if is_word(word, "enter") {
        Some(Key::Enter)
    } else if is_word(word, "esc") || is_word(word, "escape") {
        Some(Key::Escape)
    } else if is_word(word, "backspace") {
        Some(Key::Backspace)
    } else if is_word(word, "insert") {
        Some(Key::Insert)
    } else if is_word(word, "delete") {
        Some(Key::Delete)
    } else if is_word(word, "up") {
        Some(Key::Up)
    } else if is_word(word, "down") {
        Some(Key::Down)
    } else if is_word(word, "left") {
        Some(Key::Left)
    } else if is_word(word, "right") {
        Some(Key::Right)
    } else if is_word(word, "home") {
        Some(Key::Home)
    } else if is_word(word, "end") {
        Some(Key::End)
    } else if is_word(word, "pageup") {
        Some(Key::PageUp)
    } else if is_word(word, "pagedown") {
        Some(Key::PageDown)
    } else if is_word(word, "plus") {
        Some(Key::Char('+'))
    } else if is_word(word, "space") {
        Some(Key::Char(' '))
    } else {
        None
    }
}

/// One key word, or `None`.
fn parse_key(word: &[char]) -> (r: Option<Key>)
    ensures
        r == key_of(word@),
{
    let low = lower_chars(word);
    if word.len() == 1 {
        return Some(Key::Char(lower_char(word[0])));
    }
    match key_named(low.as_slice()) {
        Some(key) => return Some(key),
        None => {},
    }
    if low.len() > 1 && low[0] == 'f' && is_digit_char(low[1]) && low[1] != '0' {
        let digits = vstd::slice::slice_subrange(low.as_slice(), 1, low.len());
        proof {
            assert(digits@ =~= low@.skip(1));
        }
        match parse_number(digits, 255) {
            Some(n) => if 1 <= n && n <= 24 {
                Some(Key::Function(n as u8))
            } else {
                None
            },
            None => None,
        }
    } else {
        None
    }
}

/// How [`parse_key`] reads `key` back. [`Key::Other`] is never made by it, and
/// is spelled so that it at least says what it is.
fn spell_key(key: Key) -> (r: String)
    ensures
        r@ == key_spelled(key),
{
    match key {
        Key::Tab => "tab".to_owned(),
        Key::Enter => "enter".to_owned(),
        Key::Escape => "esc".to_owned(),
        Key::Backspace => "backspace".to_owned(),
        Key::Insert => "insert".to_owned(),
        Key::Delete => "delete".to_owned(),
        Key::Up => "up".to_owned(),
        Key::Down => "down".to_owned(),
        Key::Left => "left".to_owned(),
        Key::Right => "right".to_owned(),
        Key::Home => "home".to_owned(),
        Key::End => "end".to_owned(),
        Key::PageUp => "pageup".to_owned(),
        Key::PageDown => "pagedown".to_owned(),
        Key::Char(c) => if c == '+' {
            "plus".to_owned()
        } else if c == ' ' {
            "space".to_owned()
        } else {
            let mut out = String::new();
            out.push(c);
            proof {
                assert(out@ =~= seq![c]);
            }
            out
        },
        Key::Function(n) => "f".to_owned().concat(decimal_string(n as u64).as_str()),
        Key::Other(n) => {
            let mut out = "other(".to_owned();
            out.append(decimal_string(n as u64).as_str());
            out.append(")");
            out
        },
    }
}

// ---- actions ----

/// The commands that have names: every one of the program's own.
/// `tab-1`…`tab-8` are one command with a number.
#[derive(Debug, Clone, Copy, PartialEq, Eq, Structural)]
pub enum Action {
    Quit,
    EditUrl,
    Reload,
    Back,
    Forward,
    NewTab,
    CloseTab,
    ReopenTab,
    Bookmark,
    NextTab,
    PreviousTab,
    /// The nth tab, counted from one, one to eight; `alt+9` is
    /// [`Action::LastTab`], whatever the count.
    Tab(usize),
    LastTab,
    ListTabs,
    MoveTabLeft,
    MoveTabRight,
    ZoomIn,
    ZoomOut,
    ZoomReset,
    Find,
    /// `alt+p`: the line that allows this page's origin the camera, the
    /// microphone and the rest.
    Permissions,
    Copy,
    CopyUrl,
    ToggleNormal,
}

/// One row of the table: the name a `key.` line gives, the action, the
/// chords the built-in table answers it on (comma-separated, as
/// [`Chord::parse`] reads them), and half a line of what it does.
#[derive(Debug, Clone, Copy, PartialEq, Eq)]
pub struct Row {
    pub name: &'static str,
    pub action: Action,
    pub keys: &'static str,
    pub what: &'static str,
}

/// The name of every action, in the order `--help` lists them. `tab-1`…`tab-8` are
/// one row, whose name and keys are written as ranges; [`Action::every`] and
/// [`defaults`] expand it.
pub const NAMES: [&'static str; 24] = [
    "quit",
    "url",
    "reload",
    "back",
    "forward",
    "new-tab",
    "close-tab",
    "reopen-tab",
    "bookmark",
    "next-tab",
    "previous-tab",
    "tab-1 .. tab-8",
    "last-tab",
    "list-tabs",
    "move-tab-left",
    "move-tab-right",
    "zoom-in",
    "zoom-out",
    "zoom-reset",
    "find",
    "permissions",
    "copy",
    "copy-url",
    "normal-mode",
];

/// The chords of every action, in the order of [`NAMES`].
pub const KEYS: [&'static str; 24] = [
    "ctrl+q",
    "ctrl+l",
    "ctrl+r",
    "alt+left",
    "alt+right",
    "ctrl+t",
    "ctrl+w",
    "ctrl+shift+t, alt+t",
    "ctrl+d",
    "ctrl+tab",
    "ctrl+shift+tab",
    "alt+1 .. alt+8",
    "alt+9",
    "ctrl+shift+a, alt+a",
    "ctrl+shift+pageup, alt+shift+pageup",
    "ctrl+shift+pagedown, alt+shift+pagedown",
    "alt+=, ctrl+=",
    "alt+-, ctrl+-",
    "alt+0, ctrl+0",
    "ctrl+f",
    "alt+p",
    "alt+c",
    "alt+u",
    "ctrl+.",
];

/// What every action does, in the order of [`NAMES`].
pub const WHAT: [&'static str; 24] = [
    "quit",
    "type a url",
    "reload",
    "back",
    "forward",
    "a new tab",
    "close this tab",
    "reopen the tab closed last",
    "bookmark this page, or remove the bookmark",
    "the next tab",
    "the tab before",
    "the nth tab",
    "the last tab",
    "the tab list",
    "move this tab left",
    "move this tab right",
    "zoom in",
    "zoom out",
    "back to 100%",
    "find in the page",
    "allow this site the camera, microphone, location, notifications or clipboard",
    "copy the selection, or the line being typed",
    "copy the url",
    "normal mode on or off",
];

/// How many rows there are.
pub const ROWS: usize = 24;

/// The action of a row.
pub open spec fn action_at(i: int) -> Action {
    if i == 0 {
        Action::Quit
    } else if i == 1 {
        Action::EditUrl
    } else if i == 2 {
        Action::Reload
    } else if i == 3 {
        Action::Back
    } else if i == 4 {
        Action::Forward
    } else if i == 5 {
        Action::NewTab
    } else if i == 6 {
        Action::CloseTab
    } else if i == 7 {
        Action::ReopenTab
    } else if i == 8 {
        Action::Bookmark
    } else if i == 9 {
        Action::NextTab
    } else if i == 10 {
        Action::PreviousTab
    } else if i == 11 {
        Action::Tab(1)
    } else if i == 12 {
        Action::LastTab
    } else if i == 13 {
        Action::ListTabs
    } else if i == 14 {
        Action::MoveTabLeft
    } else if i == 15 {
        Action::MoveTabRight
    } else if i == 16 {
        Action::ZoomIn
    } else if i == 17 {
        Action::ZoomOut
    } else if i == 18 {
        Action::ZoomReset
    } else if i == 19 {
        Action::Find
    } else if i == 20 {
        Action::Permissions
    } else if i == 21 {
        Action::Copy
    } else if i == 22 {
        Action::CopyUrl
    } else {
        Action::ToggleNormal
    }
}

/// The action of a row.
fn action_of_row(i: usize) -> (r: Action)
    requires
        i < ROWS,
    ensures
        r == action_at(i as int),
{
    match i {
        0 => Action::Quit,
        1 => Action::EditUrl,
        2 => Action::Reload,
        3 => Action::Back,
        4 => Action::Forward,
        5 => Action::NewTab,
        6 => Action::CloseTab,
        7 => Action::ReopenTab,
        8 => Action::Bookmark,
        9 => Action::NextTab,
        10 => Action::PreviousTab,
        11 => Action::Tab(1),
        12 => Action::LastTab,
        13 => Action::ListTabs,
        14 => Action::MoveTabLeft,
        15 => Action::MoveTabRight,
        16 => Action::ZoomIn,
        17 => Action::ZoomOut,
        18 => Action::ZoomReset,
        19 => Action::Find,
        20 => Action::Permissions,
        21 => Action::Copy,
        22 => Action::CopyUrl,
        _ => Action::ToggleNormal,
    }
}

/// A row.
pub open spec fn row_at(i: int) -> Row {
    Row { name: NAMES@[i], action: action_at(i), keys: KEYS@[i], what: WHAT@[i] }
}

/// Every row.
pub fn rows() -> (r: Vec<Row>)
    ensures
        r@ == Seq::new(ROWS as nat, |i: int| row_at(i)),
{
    let mut out: Vec<Row> = Vec::new();
    let mut i: usize = 0;
    while i < ROWS
        invariant
            i <= ROWS,
            out@ == Seq::new(i as nat, |i: int| row_at(i)),
        decreases ROWS - i,
    {
        out.push(
            Row { name: NAMES[i], action: action_of_row(i), keys: KEYS[i], what: WHAT[i] },
        );
        i += 1;
        proof {
            assert(out@ =~= Seq::new(i as nat, |i: int| row_at(i)));
        }
    }
    out
}


/// Where the row of a name is, of those with one name each: the number of rows
/// when there is none.
pub open spec fn row_named(name: Seq<char>, from: int) -> int
    decreases ROWS - from,
{
    if from < 0 || from >= ROWS {
        ROWS as int
    } else if !(action_at(from) is Tab) && NAMES@[from]@ == name {
        from
    } else {
        row_named(name, from + 1)
    }
}

/// Where the row of an action is, of those with one name each: the number of
/// rows when there is none.
pub open spec fn row_of(action: Action, from: int) -> int
    decreases ROWS - from,
{
    if from < 0 || from >= ROWS {
        ROWS as int
    } else if !(action_at(from) is Tab) && action_at(from) == action {
        from
    } else {
        row_of(action, from + 1)
    }
}

/// The names of the first `n` rows with one name each, with commas between.
pub open spec fn names(n: int) -> Seq<char>
    decreases n,
{
    if n <= 0 {
        Seq::empty()
    } else if action_at(n - 1) is Tab {
        names(n - 1)
    } else {
        (if names(n - 1).len() == 0 {
            Seq::empty()
        } else {
            names(n - 1) + ", "@
        }) + NAMES@[n - 1]@
    }
}

/// The number in `tab-<n>`, in lower case: one digit, and nothing else.
pub open spec fn tab_number(low: Seq<char>) -> Option<nat> {
    if starts(low, "tab-"@) && low.len() == "tab-"@.len() + 1 && is_digit(low.last()) {
        Some((low.last() as u32 - 48) as nat)
    } else {
        None
    }
}

/// The action that a text names, or why it names none.
pub open spec fn action_named(text: Seq<char>) -> Result<Action, Seq<char>> {
    let low = lower_all(trim(text));
    let i = row_named(low, 0);
    if i < ROWS {
        Ok(action_at(i))
    } else {
        match tab_number(low) {
            Some(n) => if 1 <= n <= 8 {
                Ok(Action::Tab(n as usize))
            } else if n == 9 {
                Err(
                    quoted(text)
                        + ": alt+9 is the last tab, whatever the count; that action is last-tab"@,
                )
            } else {
                Err(no_action(text))
            },
            None => Err(no_action(text)),
        }
    }
}

/// The sentence for a text that names no action.
pub open spec fn no_action(text: Seq<char>) -> Seq<char> {
    quoted(text) + " is not an action; they are "@ + names(ROWS as int)
        + ", tab-1..tab-8, or none"@
}

/// The actions of the first `n` rows, `tab-1 .. tab-8` expanded.
pub open spec fn actions(n: int) -> Seq<Action>
    decreases n,
{
    if n <= 0 {
        Seq::empty()
    } else {
        actions(n - 1) + match action_at(n - 1) {
            Action::Tab(_) => Seq::new(8, |k: int| Action::Tab((k + 1) as usize)),
            action => seq![action],
        }
    }
}

/// The names of the rows with one name each, with commas between.
fn name_list() -> (r: String)
    ensures
        r@ == names(ROWS as int),
{
    let mut out = String::new();
    let mut i: usize = 0;
    while i < ROWS
        invariant
            i <= ROWS,
            out@ == names(i as int),
        decreases ROWS - i,
    {
        match action_of_row(i) {
            Action::Tab(_) => {},
            _ => {
                if !is_blank(out.as_str()) {
                    out.append(", ");
                }
                out.append(NAMES[i]);
                proof {
                    assert(out@ =~= names(i + 1));
                }
            },
        }
        i += 1;
    }
    out
}

impl Action {
    /// A name of the table, or `tab-1`…`tab-8`. `tab-9` is refused with
    /// the name of what `alt+9` does; anything else unknown is an error listing
    /// them.
    pub fn parse(text: &str) -> (r: Result<Action, String>)
        ensures
            match r {
                Ok(action) => action_named(text@) == Ok::<Action, Seq<char>>(action),
                Err(why) => action_named(text@) == Err::<Action, Seq<char>>(why@),
            },
    {
        let all = chars_of(text);
        let low = lower_chars(trim_chars(all.as_slice()));
        let mut i: usize = 0;
        while i < ROWS
            invariant
                i <= ROWS,
                low@ == lower_all(trim(text@)),
                row_named(low@, 0) == row_named(low@, i as int),
            decreases ROWS - i,
        {
            let tab = match action_of_row(i) {
                Action::Tab(_) => true,
                _ => false,
            };
            if !tab && is_word(low.as_slice(), NAMES[i]) {
                return Ok(action_of_row(i));
            }
            i += 1;
        }
        if starts_with_word(low.as_slice(), "tab-") {
            let head = chars_of("tab-");
            if low.len() > head.len() && low.len() - head.len() == 1 && is_digit_char(low[head.len()]) {
                let n: u32 = low[head.len()] as u32 - 48;
                if 1 <= n && n <= 8 {
                    return Ok(Action::Tab(n as usize));
                }
                if n == 9 {
                    let mut why = debug_of(text);
                    why.append(
                        ": alt+9 is the last tab, whatever the count; that action is last-tab",
                    );
                    return Err(why);
                }
            }
        }
        let mut why = debug_of(text);
        why.append(" is not an action; they are ");
        why.append(name_list().as_str());
        why.append(", tab-1..tab-8, or none");
        Err(why)
    }

    /// The name `parse` reads.
    pub open spec fn named(self) -> Seq<char> {
        match self {
            Action::Tab(n) => "tab-"@ + decimal(n as nat),
            _ => {
                let i = row_of(self, 0);
                if i < ROWS {
                    NAMES@[i]@
                } else {
                    Seq::empty()
                }
            },
        }
    }

    /// The name `parse` reads.
    pub fn name(self) -> (r: String)
        ensures
            r@ == self.named(),
    {
        match self {
            Action::Tab(n) => "tab-".to_owned().concat(decimal_string(n as u64).as_str()),
            _ => {
                let mut i: usize = 0;
                while i < ROWS
                    invariant
                        i <= ROWS,
                        !(self is Tab),
                        row_of(self, 0) == row_of(self, i as int),
                    decreases ROWS - i,
                {
                    if action_of_row(i) == self {
                        return NAMES[i].to_owned();
                    }
                    i += 1;
                }
                String::new()
            },
        }
    }

    /// Every action, `tab-1 .. tab-8` expanded, in the rows' order.
    pub fn every() -> (r: Vec<Action>)
        ensures
            r@ == actions(ROWS as int),
    {
        let mut out: Vec<Action> = Vec::new();
        let mut i: usize = 0;
        while i < ROWS
            invariant
                i <= ROWS,
                out@ == actions(i as int),
            decreases ROWS - i,
        {
            let ghost before = out@;
            match action_of_row(i) {
                Action::Tab(_) => {
                    let mut k: usize = 0;
                    while k < 8
                        invariant
                            k <= 8,
                            out@ == before + Seq::new(
                                k as nat,
                                |k: int| Action::Tab((k + 1) as usize),
                            ),
                        decreases 8 - k,
                    {
                        out.push(Action::Tab(k + 1));
                        k += 1;
                        proof {
                            assert(out@ =~= before + Seq::new(
                                k as nat,
                                |k: int| Action::Tab((k + 1) as usize),
                            ));
                        }
                    }
                },
                action => {
                    out.push(action);
                    proof {
                        assert(out@ =~= before + seq![action]);
                    }
                },
            }
            i += 1;
        }
        out
    }
}

/// The chords among some spellings, those that are none left out.
pub open spec fn chords(spelled: Seq<Seq<char>>) -> Seq<Chord>
    decreases spelled.len(),
{
    if spelled.len() == 0 {
        Seq::empty()
    } else {
        match chord_of(spelled.last()) {
            Ok(chord) => chords(spelled.drop_last()).push(chord),
            Err(_) => chords(spelled.drop_last()),
        }
    }
}

/// The chords of the first `n` rows that answer an action.
pub open spec fn row_chords(action: Action, n: int) -> Seq<Chord>
    decreases n,
{
    if n <= 0 {
        Seq::empty()
    } else if action_at(n - 1) == action {
        row_chords(action, n - 1) + chords(pieces(KEYS@[n - 1]@, ','))
    } else {
        row_chords(action, n - 1)
    }
}

/// The chords the built-in table answers an action on.
pub open spec fn default_chords(action: Action) -> Seq<Chord> {
    match action {
        Action::Tab(n) => chords(seq!["alt+"@ + decimal(n as nat)]),
        _ => row_chords(action, ROWS as int),
    }
}

/// The chords among some spellings.
fn chords_of(spelled: &Vec<Vec<char>>) -> (r: Vec<Chord>)
    ensures
        r@ == chords(char_lists(spelled@)),
{
    let ghost all = char_lists(spelled@);
    let mut out: Vec<Chord> = Vec::new();
    let mut i: usize = 0;
    proof {
        assert(all.take(0) =~= Seq::<Seq<char>>::empty());
    }
    while i < spelled.len()
        invariant
            i <= spelled@.len(),
            all == char_lists(spelled@),
            out@ == chords(all.take(i as int)),
        decreases spelled@.len() - i,
    {
        let word = string_of(spelled[i].as_slice());
        proof {
            assert(all.take(i + 1).drop_last() =~= all.take(i as int));
            assert(all.take(i + 1).last() == word@);
        }
        match Chord::parse(word.as_str()) {
            Ok(chord) => out.push(chord),
            Err(_) => {},
        }
        i += 1;
    }
    proof {
        assert(all.take(i as int) =~= all);
    }
    out
}

/// The chords the built-in table answers `action` on, as the table lists
/// them: its row's `keys` parsed, and `alt+n` for `tab-n`.
pub fn defaults(action: Action) -> (r: Vec<Chord>)
    ensures
        r@ == default_chords(action),
{
    match action {
        Action::Tab(n) => {
            let word = "alt+".to_owned().concat(decimal_string(n as u64).as_str());
            let mut spelled: Vec<Vec<char>> = Vec::new();
            spelled.push(chars_of(word.as_str()));
            proof {
                assert(char_lists(spelled@) =~= seq!["alt+"@ + decimal(n as nat)]);
            }
            chords_of(&spelled)
        },
        _ => {
            let mut out: Vec<Chord> = Vec::new();
            let mut i: usize = 0;
            while i < ROWS
                invariant
                    i <= ROWS,
                    out@ == row_chords(action, i as int),
                decreases ROWS - i,
            {
                if action_of_row(i) == action {
                    let keys = chars_of(KEYS[i]);
                    let mut more = chords_of(&split(keys.as_slice(), ','));
                    out.append(&mut more);
                }
                i += 1;
            }
            out
        },
    }
}

// ---- help ----

/// The length of the longest of the first `n` names.
pub open spec fn widest(n: int) -> int
    decreases n,
{
    if n <= 0 {
        0
    } else if NAMES@[n - 1]@.len() > widest(n - 1) {
        NAMES@[n - 1]@.len() as int
    } else {
        widest(n - 1)
    }
}

/// `n` spaces.
pub open spec fn spaces(n: int) -> Seq<char> {
    Seq::new(
        if n < 0 {
            0
        } else {
            n as nat
        },
        |i: int| ' ',
    )
}

/// `n` spaces.
fn padding(n: usize) -> (r: String)
    ensures
        r@ == spaces(n as int),
{
    let mut out = String::new();
    let mut i: usize = 0;
    proof {
        assert(out@ =~= spaces(0));
    }
    while i < n
        invariant
            i <= n,
            out@ == spaces(i as int),
        decreases n - i,
    {
        out.push(' ');
        i += 1;
        proof {
            assert(out@ =~= spaces(i as int));
        }
    }
    out
}

/// The lines of the first `n` rows: each name, padded to the longest, and its
/// chords.
pub open spec fn help_rows(n: int) -> Seq<char>
    decreases n,
{
    if n <= 0 {
        Seq::empty()
    } else {
        let name = NAMES@[n - 1]@;
        help_rows(n - 1) + "  "@ + name + spaces(widest(ROWS as int) - name.len()) + "  "@
            + KEYS@[n - 1]@ + "\n"@
    }
}

/// What stands over the actions in `--help`.
pub const HELP_HEAD: &'static str = "\nactions (key.<chord> = <action> in the settings file; none unbinds):\n";

/// What stands under them.
pub const HELP_TAIL: &'static str = "A chord is ctrl, alt, shift or super joined with + to a key: a character,\n\
plus, space, tab, enter, esc, backspace, insert, delete, up, down, left,\n\
right, home, end, pageup, pagedown or f1..f24; it needs ctrl, alt or super\n\
unless it is an f-key.\n";

/// The `actions:` block `--help` prints after its `keys:`: a name and its
/// default chords per row, and what a chord may be.
pub fn help() -> (r: String)
    ensures
        r@ == HELP_HEAD@ + help_rows(ROWS as int) + HELP_TAIL@,
{
    let mut width: usize = 0;
    let mut i: usize = 0;
    while i < ROWS
        invariant
            i <= ROWS,
            width == widest(i as int),
        decreases ROWS - i,
    {
        let n = chars_of(NAMES[i]).len();
        if n > width {
            width = n;
        }
        i += 1;
    }
    let mut out = HELP_HEAD.to_owned();
    let mut k: usize = 0;
    proof {
        assert(out@ =~= HELP_HEAD@ + help_rows(0));
    }
    while k < ROWS
        invariant
            k <= ROWS,
            width == widest(ROWS as int),
            out@ == HELP_HEAD@ + help_rows(k as int),
        decreases ROWS - k,
    {
        let name = NAMES[k];
        out.append("  ");
        out.append(name);
        let n = chars_of(name).len();
        let gap: usize = if width > n {
            width - n
        } else {
            0
        };
        out.append(padding(gap).as_str());
        proof {
            assert(spaces(gap as int) =~= spaces(width - n));
        }
        out.append("  ");
        out.append(KEYS[k]);
        out.append("\n");
        proof {
            assert(out@ =~= HELP_HEAD@ + help_rows(k + 1));
        }
        k += 1;
    }
    out.append(HELP_TAIL);
    out
}

// ---- rows ----

/// One line of the file: `None` is `= none`, the chord unbound.
#[derive(Debug, Clone, Copy, PartialEq, Eq, Structural)]
pub struct Binding {
    pub chord: Chord,
    pub action: Option<Action>,
}

/// The row that the two halves of a line are, or what is wrong with them.
pub open spec fn binding_of(chord: Seq<char>, value: Seq<char>) -> Result<Binding, Seq<char>> {
    match chord_of(trim(chord)) {
        Ok(c) => if !c.mods.has_ctrl() && !c.mods.has_alt() && !c.mods.has_super()
            && !(c.key is Function) {
            Err(
                "key."@ + trim(chord)
                    + ": a key with no ctrl, alt or super is the page's; add one, or use f1..f24"@,
            )
        } else if lower_all(trim(value)) == "none"@ {
            Ok(Binding { chord: c, action: None })
        } else {
            match action_named(value) {
                Ok(action) => Ok(Binding { chord: c, action: Some(action) }),
                Err(why) => Err(why),
            }
        },
        Err(why) => Err("key."@ + why),
    }
}

impl Binding {
    /// `key.<chord> = <value>`'s two halves, `chord` without the `key.`.
    /// Checked in the order they are written: the chord's spelling, then
    /// that it has ctrl, alt or super or is an f-key, then the action.
    pub fn parse(chord: &str, value: &str) -> (r: Result<Binding, String>)
        ensures
            match r {
                Ok(binding) => binding_of(chord@, value@) == Ok::<Binding, Seq<char>>(binding),
                Err(why) => binding_of(chord@, value@) == Err::<Binding, Seq<char>>(why@),
            },
    {
        let all = chars_of(chord);
        let written = string_of(trim_chars(all.as_slice()));
        let parsed = match Chord::parse(written.as_str()) {
            Ok(parsed) => parsed,
            Err(why) => return Err("key.".to_owned().concat(why.as_str())),
        };
        let function = match parsed.key {
            Key::Function(_) => true,
            _ => false,
        };
        if !parsed.mods.ctrl() && !parsed.mods.alt() && !parsed.mods.meta() && !function {
            let mut why = "key.".to_owned();
            why.append(written.as_str());
            why.append(": a key with no ctrl, alt or super is the page's; add one, or use f1..f24");
            return Err(why);
        }
        let word = chars_of(value);
        let low = lower_chars(trim_chars(word.as_slice()));
        if is_word(low.as_slice(), "none") {
            return Ok(Binding { chord: parsed, action: None });
        }
        match Action::parse(value) {
            Ok(action) => Ok(Binding { chord: parsed, action: Some(action) }),
            Err(why) => Err(why),
        }
    }
}

/// Every `key.` line, in file order.
///
/// A later line for the same chord replaces an earlier one, so that a file
/// can be appended to.
#[derive(Debug, PartialEq, Eq)]
pub struct Bindings {
    pub rows: Vec<Binding>,
}

/// What the rows say about one key.
#[derive(Debug, Clone, Copy, PartialEq, Eq, Structural)]
pub enum Lookup {
    /// This command, whatever the built-in table says.
    Bound(Action),
    /// No command, even if the built-in table has one: the key is the
    /// page's.
    Unbound,
    /// Nothing said; the built-in table answers.
    Default,
}

/// What the last row that answers an input says.
pub open spec fn looked_up(rows: Seq<Binding>, input: KeyInput) -> Lookup
    decreases rows.len(),
{
    if rows.len() == 0 {
        Lookup::Default
    } else if rows.last().chord.answers(input) {
        match rows.last().action {
            Some(action) => Lookup::Bound(action),
            None => Lookup::Unbound,
        }
    } else {
        looked_up(rows.drop_last(), input)
    }
}

impl Default for Bindings {
    fn default() -> (r: Bindings)
        ensures
            r.rows@ == Seq::<Binding>::empty(),
    {
        Bindings { rows: Vec::new() }
    }
}

impl Bindings {
    /// These rows.
    pub fn from_rows(rows: Vec<Binding>) -> (r: Bindings)
        ensures
            r.rows == rows,
    {
        Bindings { rows }
    }

    /// What the rows say about `input`. A release is never a command, so it is
    /// `Default` before any row is looked at.
    pub fn lookup(&self, input: &KeyInput) -> (r: Lookup)
        ensures
            r == (if input.action == KeyAction::Release {
                Lookup::Default
            } else {
                looked_up(self.rows@, *input)
            }),
    {
        if input.action == KeyAction::Release {
            return Lookup::Default;
        }
        let mut i: usize = self.rows.len();
        proof {
            assert(self.rows@.take(i as int) =~= self.rows@);
        }
        while i > 0
            invariant
                i <= self.rows@.len(),
                input.action != KeyAction::Release,
                looked_up(self.rows@, *input) == looked_up(self.rows@.take(i as int), *input),
            decreases i,
        {
            proof {
                assert(self.rows@.take(i as int).last() == self.rows@[i - 1]);
                assert(self.rows@.take(i as int).drop_last() =~= self.rows@.take(i - 1));
            }
            if self.rows[i - 1].chord.matches(input) {
                return match self.rows[i - 1].action {
                    Some(action) => Lookup::Bound(action),
                    None => Lookup::Unbound,
                };
            }
            i -= 1;
        }
        Lookup::Default
    }

    /// Whether there are no rows.
    pub fn is_empty(&self) -> (r: bool)
        ensures
            r == (self.rows@.len() == 0),
    {
        self.rows.len() == 0
    }

    /// The rows, in file order.
    pub fn iter(&self) -> (r: std::slice::Iter<'_, Binding>)
        ensures
            vstd::std_specs::slice::into_iter_elts(r) == self.rows@,
    {
        self.rows.as_slice().iter()
    }
}

// ---- laws ----

/// A text with nothing to trim is left alone.
proof fn lemma_trim_nothing(s: Seq<char>)
    requires
        s.len() > 0,
        !is_space(s[0]),
        !is_space(s.last()),
    ensures
        trim(s) == s,
{
}

/// A text with no separator is one piece.
proof fn lemma_one_piece(s: Seq<char>, sep: char)
    requires
        !s.contains(sep),
    ensures
        pieces(s, sep) == seq![s],
{
    lemma_index_of(s, sep);
}

/// The first piece of a text, and the rest.
proof fn lemma_first_piece(word: Seq<char>, rest: Seq<char>, sep: char)
    requires
        !word.contains(sep),
    ensures
        pieces(word + seq![sep] + rest, sep) == seq![word] + pieces(rest, sep),
{
    let s = word + seq![sep] + rest;
    assert forall|j: int| 0 <= j < word.len() implies s[j] != sep by {
        assert(s[j] == word[j]);
        if s[j] == sep {
            assert(word.contains(sep));
        }
    }
    assert(s[word.len() as int] == sep);
    lemma_index_of_is(s, sep, word.len() as int);
    assert(s.take(word.len() as int) =~= word);
    assert(s.skip(word.len() as int + 1) =~= rest);
}

/// The last piece holds no separator, and ends as the text does.
proof fn lemma_last_piece(s: Seq<char>, sep: char)
    ensures
        pieces(s, sep).len() >= 1,
        !pieces(s, sep).last().contains(sep),
        pieces(s, sep).last().len() > 0 ==> s.len() > 0 && pieces(s, sep).last().last() == s.last(),
    decreases s.len(),
{
    lemma_index_of(s, sep);
    let i = index_of(s, sep);
    if i < s.len() {
        let rest = s.skip(i + 1);
        lemma_last_piece(rest, sep);
        assert((seq![s.take(i)] + pieces(rest, sep)).last() == pieces(rest, sep).last());
    }
}

/// What the names of keys are.
proof fn lemma_key_names()
    ensures
        "tab"@.len() == 3,
        "tab"@[0] == 't',
        "tab"@.last() == 'b',
        "enter"@.len() == 5,
        "enter"@[0] == 'e',
        "enter"@.last() == 'r',
        "esc"@.len() == 3,
        "esc"@[0] == 'e',
        "esc"@.last() == 'c',
        "escape"@.len() == 6,
        "escape"@[0] == 'e',
        "escape"@.last() == 'e',
        "backspace"@.len() == 9,
        "backspace"@[0] == 'b',
        "backspace"@.last() == 'e',
        "insert"@.len() == 6,
        "insert"@[0] == 'i',
        "insert"@.last() == 't',
        "delete"@.len() == 6,
        "delete"@[0] == 'd',
        "delete"@.last() == 'e',
        "up"@.len() == 2,
        "up"@[0] == 'u',
        "up"@.last() == 'p',
        "down"@.len() == 4,
        "down"@[0] == 'd',
        "down"@.last() == 'n',
        "left"@.len() == 4,
        "left"@[0] == 'l',
        "left"@.last() == 't',
        "right"@.len() == 5,
        "right"@[0] == 'r',
        "right"@.last() == 't',
        "home"@.len() == 4,
        "home"@[0] == 'h',
        "home"@.last() == 'e',
        "end"@.len() == 3,
        "end"@[0] == 'e',
        "end"@.last() == 'd',
        "pageup"@.len() == 6,
        "pageup"@[0] == 'p',
        "pageup"@.last() == 'p',
        "pagedown"@.len() == 8,
        "pagedown"@[0] == 'p',
        "pagedown"@.last() == 'n',
        "plus"@.len() == 4,
        "plus"@[0] == 'p',
        "plus"@.last() == 's',
        "space"@.len() == 5,
        "space"@[0] == 's',
        "space"@.last() == 'e',
{
    reveal_strlit("tab");
    reveal_strlit("enter");
    reveal_strlit("esc");
    reveal_strlit("escape");
    reveal_strlit("backspace");
    reveal_strlit("insert");
    reveal_strlit("delete");
    reveal_strlit("up");
    reveal_strlit("down");
    reveal_strlit("left");
    reveal_strlit("right");
    reveal_strlit("home");
    reveal_strlit("end");
    reveal_strlit("pageup");
    reveal_strlit("pagedown");
    reveal_strlit("plus");
    reveal_strlit("space");
}

/// The names of keys are in lower case.
proof fn lemma_key_names_are_lower()
    ensures
        lower_all("tab"@) == "tab"@,
        lower_all("enter"@) == "enter"@,
        lower_all("esc"@) == "esc"@,
        lower_all("escape"@) == "escape"@,
        lower_all("backspace"@) == "backspace"@,
        lower_all("insert"@) == "insert"@,
        lower_all("delete"@) == "delete"@,
        lower_all("up"@) == "up"@,
        lower_all("down"@) == "down"@,
        lower_all("left"@) == "left"@,
        lower_all("right"@) == "right"@,
        lower_all("home"@) == "home"@,
        lower_all("end"@) == "end"@,
        lower_all("pageup"@) == "pageup"@,
        lower_all("pagedown"@) == "pagedown"@,
        lower_all("plus"@) == "plus"@,
        lower_all("space"@) == "space"@,
{
    reveal_strlit("tab");
    reveal_strlit("enter");
    reveal_strlit("esc");
    reveal_strlit("escape");
    reveal_strlit("backspace");
    reveal_strlit("insert");
    reveal_strlit("delete");
    reveal_strlit("up");
    reveal_strlit("down");
    reveal_strlit("left");
    reveal_strlit("right");
    reveal_strlit("home");
    reveal_strlit("end");
    reveal_strlit("pageup");
    reveal_strlit("pagedown");
    reveal_strlit("plus");
    reveal_strlit("space");
    assert(lower_all("tab"@) =~= "tab"@);
    assert(lower_all("enter"@) =~= "enter"@);
    assert(lower_all("esc"@) =~= "esc"@);
    assert(lower_all("escape"@) =~= "escape"@);
    assert(lower_all("backspace"@) =~= "backspace"@);
    assert(lower_all("insert"@) =~= "insert"@);
    assert(lower_all("delete"@) =~= "delete"@);
    assert(lower_all("up"@) =~= "up"@);
    assert(lower_all("down"@) =~= "down"@);
    assert(lower_all("left"@) =~= "left"@);
    assert(lower_all("right"@) =~= "right"@);
    assert(lower_all("home"@) =~= "home"@);
    assert(lower_all("end"@) =~= "end"@);
    assert(lower_all("pageup"@) =~= "pageup"@);
    assert(lower_all("pagedown"@) =~= "pagedown"@);
    assert(lower_all("plus"@) =~= "plus"@);
    assert(lower_all("space"@) =~= "space"@);
}

/// A key that a name is for is read back from it.
proof fn lemma_named_key_reads_back(key: Key)
    requires
        !(key is Function),
        !(key is Other),
        key is Char ==> key == Key::Char('+') || key == Key::Char(' '),
    ensures
        key_of(key_spelled(key)) == Some(key),
        key_spelled(key).len() > 1,
        !is_space(key_spelled(key)[0]),
        !is_space(key_spelled(key).last()),
{
    lemma_key_names();
    lemma_key_names_are_lower();
}

/// No name of a key holds a `+`.
proof fn lemma_key_names_hold_no_plus(key: Key)
    requires
        !(key is Function),
        !(key is Other),
        key is Char ==> key == Key::Char('+') || key == Key::Char(' '),
    ensures
        !key_spelled(key).contains('+'),
{
    reveal_strlit("tab");
    reveal_strlit("enter");
    reveal_strlit("esc");
    reveal_strlit("backspace");
    reveal_strlit("insert");
    reveal_strlit("delete");
    reveal_strlit("up");
    reveal_strlit("down");
    reveal_strlit("left");
    reveal_strlit("right");
    reveal_strlit("home");
    reveal_strlit("end");
    reveal_strlit("pageup");
    reveal_strlit("pagedown");
    reveal_strlit("plus");
    reveal_strlit("space");
}

/// Digits hold no `+`, and are in lower case.
proof fn lemma_digits_are_lower(d: Seq<char>)
    requires
        crate::strings::all_digits(d),
    ensures
        !d.contains('+'),
        lower_all(d) == d,
        d.len() > 0,
        !is_space(d.last()),
{
    assert(lower_all(d) =~= d);
}

/// `f1` to `f24` are read back.
proof fn lemma_function_key_reads_back(n: u8)
    requires
        1 <= n <= 24,
    ensures
        key_of(key_spelled(Key::Function(n))) == Some(Key::Function(n)),
        key_spelled(Key::Function(n)).len() > 1,
        key_spelled(Key::Function(n))[0] == 'f',
        !is_space(key_spelled(Key::Function(n)).last()),
        !key_spelled(Key::Function(n)).contains('+'),
{
    let d = decimal(n as nat);
    let word = key_spelled(Key::Function(n));
    reveal_strlit("f");
    lemma_decimal(n as nat);
    lemma_digits_are_lower(d);
    lemma_key_names();
    assert(word.skip(1) =~= d);
    assert(lower_all(word) =~= word);
    assert(word.last() == d.last());
    assert forall|j: int| 0 <= j < word.len() implies word[j] != '+' by {
        if j > 0 {
            assert(word[j] == d[j - 1]);
            assert(d.contains(d[j - 1]));
        }
    }
    assert(d[0] != '+') by {
        assert(d.contains(d[0]));
    }
    assert(d[0] != '0') by {
        reveal_with_fuel(decimal, 3);
    }
}

/// Any key that a word is, is read back from its spelling, which holds no `+`
/// and no white space at its ends.
proof fn lemma_key_reads_back(word: Seq<char>, key: Key)
    requires
        key_of(word) == Some(key),
        !word.contains('+'),
        word.len() > 0,
        !is_space(word.last()),
    ensures
        key_of(key_spelled(key)) == Some(key),
        key_spelled(key).len() > 0,
        !key_spelled(key).contains('+'),
        !is_space(key_spelled(key)[0]),
        !is_space(key_spelled(key).last()),
{
    match key {
        Key::Char(c) => {
            if c == '+' || c == ' ' {
                lemma_named_key_reads_back(key);
                lemma_key_names_hold_no_plus(key);
            } else {
                let one = seq![c];
                if word.len() == 1 {
                    assert(word.contains(word[0]));
                    assert(word.last() == word[0]);
                    assert(c == lower(word[0]));
                }
                assert(lower(c) == c);
                assert(one[0] == c && one.last() == c);
                assert(!one.contains('+'));
            }
        },
        Key::Function(n) => {
            lemma_function_key_reads_back(n);
        },
        _ => {
            lemma_named_key_reads_back(key);
            lemma_key_names_hold_no_plus(key);
        },
    }
}

/// Adding a modifier's bit to some keeps them modifiers.
proof fn lemma_bits(a: u32, b: u32)
    requires
        a <= 15,
        b == 1 || b == 2 || b == 4 || b == 8,
    ensures
        a | b <= 15,
{
    assert(a | b <= 15) by (bit_vector)
        requires
            a <= 15,
            b == 1 || b == 2 || b == 4 || b == 8,
    ;
}

/// Modifiers that were read are no more than the four.
proof fn lemma_modifiers_are_four(text: Seq<char>, words: Seq<Seq<char>>, mods: Mods)
    requires
        mods.0 <= 15,
        modifiers(text, words, mods) is Ok,
    ensures
        modifiers(text, words, mods)->Ok_0.0 <= 15,
    decreases words.len(),
{
    if words.len() > 0 {
        let bit = modifier(lower_all(words[0]))->0;
        lemma_bits(mods.0, bit);
        lemma_modifiers_are_four(text, words.drop_first(), Mods(mods.0 | bit));
    }
}

/// The modifiers that a spelling names.
pub open spec fn held_words(mods: Mods) -> Seq<Seq<char>> {
    (if mods.has_ctrl() {
        seq!["ctrl"@]
    } else {
        Seq::empty()
    }) + (if mods.has_alt() {
        seq!["alt"@]
    } else {
        Seq::empty()
    }) + (if mods.has_shift() {
        seq!["shift"@]
    } else {
        Seq::empty()
    }) + (if mods.has_super() {
        seq!["super"@]
    } else {
        Seq::empty()
    })
}

/// A word and its `+` before a text is one piece more.
proof fn lemma_held_piece(held: bool, word: Seq<char>, joined: Seq<char>, rest: Seq<char>)
    requires
        !word.contains('+'),
        joined == word + seq!['+'],
    ensures
        pieces(held_word(held, joined) + rest, '+') == (if held {
            seq![word]
        } else {
            Seq::empty()
        }) + pieces(rest, '+'),
{
    if held {
        lemma_first_piece(word, rest, '+');
        assert(held_word(held, joined) + rest =~= word + seq!['+'] + rest);
    } else {
        assert(held_word(held, joined) + rest =~= rest);
        assert(Seq::<Seq<char>>::empty() + pieces(rest, '+') =~= pieces(rest, '+'));
    }
}

/// The pieces of a spelling are the modifiers held and the key.
proof fn lemma_pieces_of_a_spelling(chord: Chord)
    requires
        !key_spelled(chord.key).contains('+'),
    ensures
        pieces(chord.spelled(), '+') == held_words(chord.mods).push(key_spelled(chord.key)),
{
    let m = chord.mods;
    let k = key_spelled(chord.key);
    reveal_strlit("ctrl");
    reveal_strlit("alt");
    reveal_strlit("shift");
    reveal_strlit("super");
    reveal_strlit("ctrl+");
    reveal_strlit("alt+");
    reveal_strlit("shift+");
    reveal_strlit("super+");
    assert("ctrl+"@ =~= "ctrl"@ + seq!['+']);
    assert("alt+"@ =~= "alt"@ + seq!['+']);
    assert("shift+"@ =~= "shift"@ + seq!['+']);
    assert("super+"@ =~= "super"@ + seq!['+']);
    let after_shift = held_word(m.has_super(), "super+"@) + k;
    let after_alt = held_word(m.has_shift(), "shift+"@) + after_shift;
    let after_ctrl = held_word(m.has_alt(), "alt+"@) + after_alt;
    lemma_one_piece(k, '+');
    lemma_held_piece(m.has_super(), "super"@, "super+"@, k);
    lemma_held_piece(m.has_shift(), "shift"@, "shift+"@, after_shift);
    lemma_held_piece(m.has_alt(), "alt"@, "alt+"@, after_alt);
    lemma_held_piece(m.has_ctrl(), "ctrl"@, "ctrl+"@, after_ctrl);
    assert(chord.spelled() =~= held_word(m.has_ctrl(), "ctrl+"@) + after_ctrl);
    assert(pieces(chord.spelled(), '+') =~= held_words(m).push(k));
}

/// What the four words are read as.
proof fn lemma_modifier_words()
    ensures
        modifier(lower_all("ctrl"@)) == Some(4u32),
        modifier(lower_all("alt"@)) == Some(2u32),
        modifier(lower_all("shift"@)) == Some(1u32),
        modifier(lower_all("super"@)) == Some(8u32),
{
    reveal_strlit("ctrl");
    reveal_strlit("alt");
    reveal_strlit("shift");
    reveal_strlit("super");
    reveal_strlit("control");
    reveal_strlit("opt");
    reveal_strlit("option");
    assert(lower_all("ctrl"@) =~= "ctrl"@);
    assert(lower_all("alt"@) =~= "alt"@);
    assert(lower_all("shift"@) =~= "shift"@);
    assert(lower_all("super"@) =~= "super"@);
    assert("alt"@[0] == 'a' && "ctrl"@[0] == 'c' && "shift"@[0] == 's' && "super"@[0] == 's');
    assert("shift"@[1] == 'h' && "super"@[1] == 'u');
    assert("control"@.len() == 7 && "opt"@.len() == 3 && "option"@.len() == 6);
    assert("opt"@[0] == 'o');
}

/// One word of those held, read after `mods`.
proof fn lemma_reading_one(
    text: Seq<char>,
    held: bool,
    word: Seq<char>,
    bit: u32,
    rest: Seq<Seq<char>>,
    mods: Mods,
)
    requires
        modifier(lower_all(word)) == Some(bit),
        mods.0 & bit == 0,
    ensures
        modifiers(
            text,
            (if held {
                seq![word]
            } else {
                Seq::empty()
            }) + rest,
            mods,
        ) == modifiers(
            text,
            rest,
            if held {
                Mods(mods.0 | bit)
            } else {
                mods
            },
        ),
{
    if held {
        let words = seq![word] + rest;
        assert(words[0] == word);
        assert(words.drop_first() =~= rest);
    } else {
        assert(Seq::<Seq<char>>::empty() + rest =~= rest);
    }
}

/// The words of a spelling are read as the modifiers they are of.
proof fn lemma_held_words_read_back(text: Seq<char>, mods: Mods)
    requires
        mods.0 <= 15,
    ensures
        modifiers(text, held_words(mods), Mods(0)) == Ok::<Mods, Seq<char>>(mods),
{
    lemma_modifier_words();
    let m = mods.0;
    let c: u32 = if m & 4 != 0 {
        4
    } else {
        0
    };
    let a: u32 = if m & 2 != 0 {
        c | 2
    } else {
        c
    };
    let s: u32 = if m & 1 != 0 {
        a | 1
    } else {
        a
    };
    let u: u32 = if m & 8 != 0 {
        s | 8
    } else {
        s
    };
    assert(0u32 | 4 == 4 && 0u32 & 4 == 0) by (bit_vector);
    assert(c & 2 == 0) by (bit_vector)
        requires
            c == 4 || c == 0,
    ;
    assert(a & 1 == 0) by (bit_vector)
        requires
            c == 4 || c == 0,
            a == c | 2 || a == c,
    ;
    assert(s & 8 == 0) by (bit_vector)
        requires
            c == 4 || c == 0,
            a == c | 2 || a == c,
            s == a | 1 || s == a,
    ;
    assert(u == m) by (bit_vector)
        requires
            m <= 15,
            c == (if m & 4 != 0 {
                4u32
            } else {
                0u32
            }),
            a == (if m & 2 != 0 {
                c | 2
            } else {
                c
            }),
            s == (if m & 1 != 0 {
                a | 1
            } else {
                a
            }),
            u == (if m & 8 != 0 {
                s | 8
            } else {
                s
            }),
    ;
    let none = Seq::<Seq<char>>::empty();
    let w4 = if mods.has_super() {
        seq!["super"@]
    } else {
        none
    };
    let w3 = (if mods.has_shift() {
        seq!["shift"@]
    } else {
        none
    }) + w4;
    let w2 = (if mods.has_alt() {
        seq!["alt"@]
    } else {
        none
    }) + w3;
    lemma_reading_one(text, mods.has_ctrl(), "ctrl"@, 4, w2, Mods(0));
    lemma_reading_one(text, mods.has_alt(), "alt"@, 2, w3, Mods(c));
    lemma_reading_one(text, mods.has_shift(), "shift"@, 1, w4, Mods(a));
    lemma_reading_one(text, mods.has_super(), "super"@, 8, none, Mods(s));
    assert(w4 + none =~= w4);
    assert(held_words(mods) =~= (if mods.has_ctrl() {
        seq!["ctrl"@]
    } else {
        none
    }) + w2);
}

/// A chord that was read spells back: what [`Chord::spell`] writes is read as
/// the same chord.
pub proof fn law_a_chord_spells_back(written: Seq<char>, chord: Chord)
    requires
        chord_of(written) == Ok::<Chord, Seq<char>>(chord),
    ensures
        chord_of(chord.spelled()) == Ok::<Chord, Seq<char>>(chord),
{
    let text = trim(written);
    let word = pieces(text, '+').last();
    lemma_last_piece(text, '+');
    lemma_trim_start(written);
    lemma_trim_end(trim_start(written));
    lemma_key_reads_back(word, chord.key);
    lemma_modifiers_are_four(text, pieces(text, '+').drop_last(), Mods(0));
    lemma_spelling(chord);
    lemma_spelling_reads_back(chord.spelled(), chord);
}

/// A chord whose modifiers are the four and whose key is read back from its
/// spelling.
pub open spec fn spells(chord: Chord) -> bool {
    let k = key_spelled(chord.key);
    &&& chord.mods.0 <= 15
    &&& key_of(k) == Some(chord.key)
    &&& k.len() > 0
    &&& !k.contains('+')
    &&& !is_space(k[0])
    &&& !is_space(k.last())
}

/// A spelling has nothing to trim.
proof fn lemma_spelling(chord: Chord)
    requires
        spells(chord),
    ensures
        chord.spelled().len() > 0,
        !is_space(chord.spelled()[0]),
        !is_space(chord.spelled().last()),
        trim(chord.spelled()) == chord.spelled(),
{
    let spelled = chord.spelled();
    let k = key_spelled(chord.key);
    assert(spelled.last() == k.last());
    assert(!is_space(spelled[0])) by {
        reveal_strlit("ctrl+");
        reveal_strlit("alt+");
        reveal_strlit("shift+");
        reveal_strlit("super+");
    }
    lemma_trim_nothing(spelled);
}

/// A text that is a chord's spelling once it is trimmed is read as the chord.
proof fn lemma_spelling_reads_back(written: Seq<char>, chord: Chord)
    requires
        spells(chord),
        trim(written) == chord.spelled(),
    ensures
        chord_of(written) == Ok::<Chord, Seq<char>>(chord),
{
    let spelled = chord.spelled();
    lemma_spelling(chord);
    lemma_pieces_of_a_spelling(chord);
    assert(pieces(spelled, '+').drop_last() =~= held_words(chord.mods));
    lemma_held_words_read_back(spelled, chord.mods);
}

/// A row never takes a bare key from the page: its chord has ctrl, alt or
/// super, or is an f-key.
pub proof fn law_a_row_never_takes_a_bare_key(chord: Seq<char>, value: Seq<char>)
    ensures
        binding_of(chord, value) matches Ok(b) ==> b.chord.mods.has_ctrl()
            || b.chord.mods.has_alt() || b.chord.mods.has_super() || b.chord.key is Function,
{
}

/// A later row for the same chord replaces an earlier one, and a row for
/// another chord changes nothing.
pub proof fn law_a_later_row_replaces_an_earlier_one(
    rows: Seq<Binding>,
    row: Binding,
    input: KeyInput,
)
    ensures
        looked_up(rows.push(row), input) == (if row.chord.answers(input) {
            match row.action {
                Some(action) => Lookup::Bound(action),
                None => Lookup::Unbound,
            }
        } else {
            looked_up(rows, input)
        }),
{
    assert(rows.push(row).drop_last() =~= rows);
}

/// How each name starts, and how long it is.
proof fn lemma_names()
    ensures
        NAMES@[0]@.len() == 4,
        NAMES@[0]@[0] == 'q',
        NAMES@[1]@.len() == 3,
        NAMES@[1]@[0] == 'u',
        NAMES@[2]@.len() == 6,
        NAMES@[2]@[0] == 'r',
        NAMES@[3]@.len() == 4,
        NAMES@[3]@[0] == 'b',
        NAMES@[4]@.len() == 7,
        NAMES@[4]@[0] == 'f',
        NAMES@[5]@.len() == 7,
        NAMES@[5]@[0] == 'n',
        NAMES@[6]@.len() == 9,
        NAMES@[6]@[0] == 'c',
        NAMES@[7]@.len() == 10,
        NAMES@[7]@[0] == 'r',
        NAMES@[8]@.len() == 8,
        NAMES@[8]@[0] == 'b',
        NAMES@[9]@.len() == 8,
        NAMES@[9]@[0] == 'n',
        NAMES@[10]@.len() == 12,
        NAMES@[10]@[0] == 'p',
        NAMES@[11]@.len() == 14,
        NAMES@[11]@[0] == 't',
        NAMES@[12]@.len() == 8,
        NAMES@[12]@[0] == 'l',
        NAMES@[13]@.len() == 9,
        NAMES@[13]@[0] == 'l',
        NAMES@[14]@.len() == 13,
        NAMES@[14]@[0] == 'm',
        NAMES@[15]@.len() == 14,
        NAMES@[15]@[0] == 'm',
        NAMES@[16]@.len() == 7,
        NAMES@[16]@[0] == 'z',
        NAMES@[17]@.len() == 8,
        NAMES@[17]@[0] == 'z',
        NAMES@[18]@.len() == 10,
        NAMES@[18]@[0] == 'z',
        NAMES@[19]@.len() == 4,
        NAMES@[19]@[0] == 'f',
        NAMES@[20]@.len() == 11,
        NAMES@[20]@[0] == 'p',
        NAMES@[21]@.len() == 4,
        NAMES@[21]@[0] == 'c',
        NAMES@[22]@.len() == 8,
        NAMES@[22]@[0] == 'c',
        NAMES@[23]@.len() == 11,
        NAMES@[23]@[0] == 'n',
{
    reveal_strlit("quit");
    reveal_strlit("url");
    reveal_strlit("reload");
    reveal_strlit("back");
    reveal_strlit("forward");
    reveal_strlit("new-tab");
    reveal_strlit("close-tab");
    reveal_strlit("reopen-tab");
    reveal_strlit("bookmark");
    reveal_strlit("next-tab");
    reveal_strlit("previous-tab");
    reveal_strlit("tab-1 .. tab-8");
    reveal_strlit("last-tab");
    reveal_strlit("list-tabs");
    reveal_strlit("move-tab-left");
    reveal_strlit("move-tab-right");
    reveal_strlit("zoom-in");
    reveal_strlit("zoom-out");
    reveal_strlit("zoom-reset");
    reveal_strlit("find");
    reveal_strlit("permissions");
    reveal_strlit("copy");
    reveal_strlit("copy-url");
    reveal_strlit("normal-mode");
}

/// The names of actions are in lower case, with nothing to trim.
proof fn lemma_names_are_plain(i: int)
    requires
        0 <= i < ROWS,
    ensures
        lower_all(trim(NAMES@[i]@)) == NAMES@[i]@,
{
    reveal_strlit("quit");
    reveal_strlit("url");
    reveal_strlit("reload");
    reveal_strlit("back");
    reveal_strlit("forward");
    reveal_strlit("new-tab");
    reveal_strlit("close-tab");
    reveal_strlit("reopen-tab");
    reveal_strlit("bookmark");
    reveal_strlit("next-tab");
    reveal_strlit("previous-tab");
    reveal_strlit("tab-1 .. tab-8");
    reveal_strlit("last-tab");
    reveal_strlit("list-tabs");
    reveal_strlit("move-tab-left");
    reveal_strlit("move-tab-right");
    reveal_strlit("zoom-in");
    reveal_strlit("zoom-out");
    reveal_strlit("zoom-reset");
    reveal_strlit("find");
    reveal_strlit("permissions");
    reveal_strlit("copy");
    reveal_strlit("copy-url");
    reveal_strlit("normal-mode");
    let name = NAMES@[i]@;
    assert(!is_space(name[0]) && !is_space(name.last()));
    lemma_trim_nothing(name);
    assert(lower_all(name) =~= name);
}

/// The row of a name is the one that has it.
proof fn lemma_row_named(i: int, from: int)
    requires
        0 <= from <= i < ROWS,
        !(action_at(i) is Tab),
    ensures
        row_named(NAMES@[i]@, from) == i,
    decreases i - from,
{
    lemma_names();
    if from < i {
        lemma_row_named(i, from + 1);
    }
}

/// Every action has a name that is read back as it.
pub proof fn law_every_action_has_a_name(action: Action)
    requires
        action matches Action::Tab(n) ==> 1 <= n <= 8,
    ensures
        action_named(action.named()) == Ok::<Action, Seq<char>>(action),
{
    match action {
        Action::Tab(n) => {
            let d = decimal(n as nat);
            let name = action.named();
            reveal_strlit("tab-");
            lemma_decimal(n as nat);
            lemma_digits_are_lower(d);
            assert(name[0] == 't');
            assert(name.last() == d.last());
            lemma_trim_nothing(name);
            assert(lower_all(name) =~= name);
            assert(d == seq![crate::strings::digit(n as nat)]) by {
                reveal_with_fuel(decimal, 2);
            }
            assert(name.last() == crate::strings::digit(n as nat));
            assert(starts(name, "tab-"@)) by {
                assert(name.subrange(0, 4) =~= "tab-"@);
            }
            lemma_no_row_starts_with_t(name, 0);
        },
        _ => {
            lemma_row_of(action, 0);
            let i = row_of(action, 0);
            lemma_names_are_plain(i);
            lemma_row_named(i, 0);
        },
    }
}

/// Every action but the numbered tabs has a row.
proof fn lemma_row_of(action: Action, from: int)
    requires
        !(action is Tab),
        0 <= from <= ROWS,
        forall|j: int| 0 <= j < from ==> #[trigger] action_at(j) != action,
    ensures
        row_of(action, from) < ROWS,
        row_of(action, from) >= 0,
        action_at(row_of(action, from)) == action,
    decreases ROWS - from,
{
    if from == ROWS {
        assert(action_at(0) != action);
        assert(action_at(1) != action);
        assert(action_at(2) != action);
        assert(action_at(3) != action);
        assert(action_at(4) != action);
        assert(action_at(5) != action);
        assert(action_at(6) != action);
        assert(action_at(7) != action);
        assert(action_at(8) != action);
        assert(action_at(9) != action);
        assert(action_at(10) != action);
        assert(action_at(11) != action);
        assert(action_at(12) != action);
        assert(action_at(13) != action);
        assert(action_at(14) != action);
        assert(action_at(15) != action);
        assert(action_at(16) != action);
        assert(action_at(17) != action);
        assert(action_at(18) != action);
        assert(action_at(19) != action);
        assert(action_at(20) != action);
        assert(action_at(21) != action);
        assert(action_at(22) != action);
        assert(action_at(23) != action);
    } else if action_at(from) != action {
        lemma_row_of(action, from + 1);
    }
}

/// No row's name but that of the numbered tabs starts with a `t`.
proof fn lemma_no_row_starts_with_t(name: Seq<char>, from: int)
    requires
        name.len() > 0,
        name[0] == 't',
        0 <= from <= ROWS,
    ensures
        row_named(name, from) == ROWS,
    decreases ROWS - from,
{
    lemma_names();
    if from < ROWS {
        lemma_no_row_starts_with_t(name, from + 1);
    }
}

// ---- the chords of the table ----

/// The chord of a row of the table that comes first.
spec fn first_chord(i: int) -> Chord {
    let c = Mods(4);
    let a = Mods(2);
    if i == 0 {
        Chord { mods: c, key: Key::Char('q') }
    } else if i == 1 {
        Chord { mods: c, key: Key::Char('l') }
    } else if i == 2 {
        Chord { mods: c, key: Key::Char('r') }
    } else if i == 3 {
        Chord { mods: a, key: Key::Left }
    } else if i == 4 {
        Chord { mods: a, key: Key::Right }
    } else if i == 5 {
        Chord { mods: c, key: Key::Char('t') }
    } else if i == 6 {
        Chord { mods: c, key: Key::Char('w') }
    } else if i == 7 {
        Chord { mods: Mods(5), key: Key::Char('t') }
    } else if i == 8 {
        Chord { mods: c, key: Key::Char('d') }
    } else if i == 9 {
        Chord { mods: c, key: Key::Tab }
    } else if i == 10 {
        Chord { mods: Mods(5), key: Key::Tab }
    } else if i == 12 {
        Chord { mods: a, key: Key::Char('9') }
    } else if i == 13 {
        Chord { mods: Mods(5), key: Key::Char('a') }
    } else if i == 14 {
        Chord { mods: Mods(5), key: Key::PageUp }
    } else if i == 15 {
        Chord { mods: Mods(5), key: Key::PageDown }
    } else if i == 16 {
        Chord { mods: a, key: Key::Char('=') }
    } else if i == 17 {
        Chord { mods: a, key: Key::Char('-') }
    } else if i == 18 {
        Chord { mods: a, key: Key::Char('0') }
    } else if i == 19 {
        Chord { mods: c, key: Key::Char('f') }
    } else if i == 20 {
        Chord { mods: a, key: Key::Char('p') }
    } else if i == 21 {
        Chord { mods: a, key: Key::Char('c') }
    } else if i == 22 {
        Chord { mods: a, key: Key::Char('u') }
    } else {
        Chord { mods: c, key: Key::Char('.') }
    }
}

/// The chord of a row that comes after it, where there is one.
spec fn second_chord(i: int) -> Option<Chord> {
    if i == 7 {
        Some(Chord { mods: Mods(2), key: Key::Char('t') })
    } else if i == 13 {
        Some(Chord { mods: Mods(2), key: Key::Char('a') })
    } else if i == 14 {
        Some(Chord { mods: Mods(3), key: Key::PageUp })
    } else if i == 15 {
        Some(Chord { mods: Mods(3), key: Key::PageDown })
    } else if i == 16 {
        Some(Chord { mods: Mods(4), key: Key::Char('=') })
    } else if i == 17 {
        Some(Chord { mods: Mods(4), key: Key::Char('-') })
    } else if i == 18 {
        Some(Chord { mods: Mods(4), key: Key::Char('0') })
    } else {
        None
    }
}

/// Which modifiers the table's chords hold.
proof fn lemma_table_mods()
    ensures
        Mods(2).has_alt() && !Mods(2).has_ctrl() && !Mods(2).has_shift() && !Mods(2).has_super(),
        Mods(4).has_ctrl() && !Mods(4).has_alt() && !Mods(4).has_shift() && !Mods(4).has_super(),
        Mods(3).has_alt() && Mods(3).has_shift() && !Mods(3).has_ctrl() && !Mods(3).has_super(),
        Mods(5).has_ctrl() && Mods(5).has_shift() && !Mods(5).has_alt() && !Mods(5).has_super(),
{
    assert(2u32 & 1 == 0 && 2u32 & 2 != 0 && 2u32 & 4 == 0 && 2u32 & 8 == 0 && 4u32 & 1 == 0 && 4u32
        & 2 == 0 && 4u32 & 4 != 0 && 4u32 & 8 == 0 && 3u32 & 1 != 0 && 3u32 & 2 != 0 && 3u32 & 4
        == 0 && 3u32 & 8 == 0 && 5u32 & 1 != 0 && 5u32 & 2 == 0 && 5u32 & 4 != 0 && 5u32 & 8 == 0)
        by (bit_vector);
}

/// A key that is one character, and no `+`, no space and no capital, is read
/// back.
proof fn lemma_char_key(c: char)
    requires
        c != '+',
        !is_space(c),
        lower(c) == c,
    ensures
        key_of(key_spelled(Key::Char(c))) == Some(Key::Char(c)),
        key_spelled(Key::Char(c)) == seq![c],
        !seq![c].contains('+'),
{
    assert(c != ' ');
    assert(seq![c][0] == c);
}

/// The chords of the table are chords that spell.
proof fn lemma_table_spells(i: int)
    requires
        0 <= i < ROWS,
        i != 11,
    ensures
        spells(first_chord(i)),
        second_chord(i) matches Some(chord) ==> spells(chord),
{
    lemma_key_spells(first_chord(i).key);
    match second_chord(i) {
        Some(chord) => {
            lemma_key_spells(chord.key);
        },
        None => {},
    }
}

/// The keys of the table are read back.
proof fn lemma_key_spells(key: Key)
    requires
        !(key is Function),
        !(key is Other),
        key matches Key::Char(c) ==> c != '+' && !is_space(c) && lower(c) == c,
    ensures
        ({
            let k = key_spelled(key);
            &&& key_of(k) == Some(key)
            &&& k.len() > 0
            &&& !k.contains('+')
            &&& !is_space(k[0])
            &&& !is_space(k.last())
        }),
{
    match key {
        Key::Char(c) => {
            lemma_char_key(c);
        },
        _ => {
            lemma_named_key_reads_back(key);
            lemma_key_names_hold_no_plus(key);
        },
    }
}

/// What a row of the table says its chords are.
spec fn row_words(i: int) -> Seq<char> {
    match second_chord(i) {
        Some(second) => first_chord(i).spelled() + seq![','] + (seq![' '] + second.spelled()),
        None => first_chord(i).spelled(),
    }
}

/// The words of the names of keys and modifiers, letter by letter.
proof fn lemma_table_words()
    ensures
        "ctrl+"@ == seq!['c', 't', 'r', 'l', '+'],
        "alt+"@ == seq!['a', 'l', 't', '+'],
        "shift+"@ == seq!['s', 'h', 'i', 'f', 't', '+'],
        "tab"@ == seq!['t', 'a', 'b'],
        "left"@ == seq!['l', 'e', 'f', 't'],
        "right"@ == seq!['r', 'i', 'g', 'h', 't'],
        "pageup"@ == seq!['p', 'a', 'g', 'e', 'u', 'p'],
        "pagedown"@ == seq!['p', 'a', 'g', 'e', 'd', 'o', 'w', 'n'],
{
    reveal_strlit("ctrl+");
    reveal_strlit("alt+");
    reveal_strlit("shift+");
    reveal_strlit("tab");
    reveal_strlit("left");
    reveal_strlit("right");
    reveal_strlit("pageup");
    reveal_strlit("pagedown");
    assert("ctrl+"@ =~= seq!['c', 't', 'r', 'l', '+']);
    assert("alt+"@ =~= seq!['a', 'l', 't', '+']);
    assert("shift+"@ =~= seq!['s', 'h', 'i', 'f', 't', '+']);
    assert("tab"@ =~= seq!['t', 'a', 'b']);
    assert("left"@ =~= seq!['l', 'e', 'f', 't']);
    assert("right"@ =~= seq!['r', 'i', 'g', 'h', 't']);
    assert("pageup"@ =~= seq!['p', 'a', 'g', 'e', 'u', 'p']);
    assert("pagedown"@ =~= seq!['p', 'a', 'g', 'e', 'd', 'o', 'w', 'n']);
}

/// Each row of the table is written as its chords are spelled: those with one
/// chord.
proof fn lemma_rows_of_one(i: int)
    requires
        0 <= i < ROWS,
        i != 11,
        second_chord(i) is None,
    ensures
        KEYS@[i]@ == row_words(i),
{
    lemma_table_mods();
    lemma_table_words();
    reveal_strlit("ctrl+q");
    reveal_strlit("ctrl+l");
    reveal_strlit("ctrl+r");
    reveal_strlit("alt+left");
    reveal_strlit("alt+right");
    reveal_strlit("ctrl+t");
    reveal_strlit("ctrl+w");
    reveal_strlit("ctrl+d");
    reveal_strlit("ctrl+tab");
    reveal_strlit("ctrl+shift+tab");
    reveal_strlit("alt+9");
    reveal_strlit("ctrl+f");
    reveal_strlit("alt+p");
    reveal_strlit("alt+c");
    reveal_strlit("alt+u");
    reveal_strlit("ctrl+.");
    assert(KEYS@[i]@ =~= row_words(i));
}

/// Each row of the table is written as its chords are spelled: those with two.
proof fn lemma_rows_of_two(i: int)
    requires
        0 <= i < ROWS,
        second_chord(i) is Some,
    ensures
        KEYS@[i]@ == row_words(i),
{
    lemma_table_mods();
    lemma_table_words();
    reveal_strlit("ctrl+shift+t, alt+t");
    reveal_strlit("ctrl+shift+a, alt+a");
    reveal_strlit("ctrl+shift+pageup, alt+shift+pageup");
    reveal_strlit("ctrl+shift+pagedown, alt+shift+pagedown");
    reveal_strlit("alt+=, ctrl+=");
    reveal_strlit("alt+-, ctrl+-");
    reveal_strlit("alt+0, ctrl+0");
    assert(KEYS@[i]@ =~= row_words(i));
}

/// No chord of the table has a comma in its spelling.
proof fn lemma_no_comma(chord: Chord)
    requires
        !key_spelled(chord.key).contains(','),
    ensures
        !chord.spelled().contains(','),
{
    reveal_strlit("ctrl+");
    reveal_strlit("alt+");
    reveal_strlit("shift+");
    reveal_strlit("super+");
    let a = held_word(chord.mods.has_ctrl(), "ctrl+"@);
    let b = held_word(chord.mods.has_alt(), "alt+"@);
    let c = held_word(chord.mods.has_shift(), "shift+"@);
    let d = held_word(chord.mods.has_super(), "super+"@);
    let k = key_spelled(chord.key);
    let s = chord.spelled();
    assert forall|j: int| 0 <= j < s.len() implies s[j] != ',' by {
        let from = s.len() - k.len();
        if j >= from {
            assert(s[j] == k[j - from]);
            assert(k.contains(k[j - from]));
        } else {
            let m = a + b + c + d;
            assert(s[j] == m[j]);
            if j < a.len() {
                assert(m[j] == a[j]);
            } else if j < a.len() + b.len() {
                assert(m[j] == b[j - a.len()]);
            } else if j < a.len() + b.len() + c.len() {
                assert(m[j] == c[j - a.len() - b.len()]);
            } else {
                assert(m[j] == d[j - a.len() - b.len() - c.len()]);
            }
        }
    }
}

/// The keys of the table have no comma.
proof fn lemma_table_keys_hold_no_comma(i: int)
    requires
        0 <= i < ROWS,
        i != 11,
    ensures
        !key_spelled(first_chord(i).key).contains(','),
        second_chord(i) matches Some(chord) ==> !key_spelled(chord.key).contains(','),
{
    lemma_table_words();
}

/// A spelling after a space is trimmed to itself.
proof fn lemma_spaced_spelling(chord: Chord)
    requires
        spells(chord),
    ensures
        trim(seq![' '] + chord.spelled()) == chord.spelled(),
{
    lemma_spelling(chord);
    let s = seq![' '] + chord.spelled();
    assert(s[0] == ' ');
    assert(s.drop_first() =~= chord.spelled());
}

/// The spellings of a row, and the chords they are.
proof fn lemma_row_chords(i: int)
    requires
        0 <= i < ROWS,
        i != 11,
    ensures
        ({
            let words = pieces(KEYS@[i]@, ',');
            let found = chords(words);
            &&& found == (match second_chord(i) {
                Some(second) => seq![first_chord(i), second],
                None => seq![first_chord(i)],
            })
            &&& words.len() == found.len()
            &&& forall|k: int|
                0 <= k < words.len() ==> (#[trigger] found[k]).spelled() == trim(words[k])
                    && chord_of(words[k]) == Ok::<Chord, Seq<char>>(found[k])
        }),
{
    reveal_with_fuel(chords, 3);
    let first = first_chord(i);
    lemma_table_spells(i);
    lemma_table_keys_hold_no_comma(i);
    lemma_no_comma(first);
    lemma_spelling(first);
    lemma_spelling_reads_back(first.spelled(), first);
    match second_chord(i) {
        Some(second) => {
            lemma_rows_of_two(i);
            lemma_no_comma(second);
            lemma_spelling(second);
            lemma_spaced_spelling(second);
            let rest = seq![' '] + second.spelled();
            assert(!rest.contains(',')) by {
                assert forall|j: int| 0 <= j < rest.len() implies rest[j] != ',' by {
                    if j > 0 {
                        assert(rest[j] == second.spelled()[j - 1]);
                        assert(second.spelled().contains(second.spelled()[j - 1]));
                    }
                }
            }
            lemma_first_piece(first.spelled(), rest, ',');
            lemma_one_piece(rest, ',');
            lemma_spelling_reads_back(rest, second);
            let words = pieces(KEYS@[i]@, ',');
            assert(words =~= seq![first.spelled(), rest]);
            assert(words.drop_last() =~= seq![first.spelled()]);
            assert(words.drop_last().drop_last() =~= Seq::<Seq<char>>::empty());
            assert(chords(words) =~= seq![first, second]);
        },
        None => {
            lemma_rows_of_one(i);
            lemma_one_piece(first.spelled(), ',');
            let words = pieces(KEYS@[i]@, ',');
            assert(words.drop_last() =~= Seq::<Seq<char>>::empty());
            assert(chords(words) =~= seq![first]);
        },
    }
}

/// The row of an action: that of the numbered tabs for one of them.
spec fn place(action: Action) -> int {
    match action {
        Action::Quit => 0,
        Action::EditUrl => 1,
        Action::Reload => 2,
        Action::Back => 3,
        Action::Forward => 4,
        Action::NewTab => 5,
        Action::CloseTab => 6,
        Action::ReopenTab => 7,
        Action::Bookmark => 8,
        Action::NextTab => 9,
        Action::PreviousTab => 10,
        Action::Tab(_) => 11,
        Action::LastTab => 12,
        Action::ListTabs => 13,
        Action::MoveTabLeft => 14,
        Action::MoveTabRight => 15,
        Action::ZoomIn => 16,
        Action::ZoomOut => 17,
        Action::ZoomReset => 18,
        Action::Find => 19,
        Action::Permissions => 20,
        Action::Copy => 21,
        Action::CopyUrl => 22,
        Action::ToggleNormal => 23,
    }
}

/// An action has one row.
proof fn lemma_one_row(action: Action, n: int)
    requires
        !(action is Tab),
        0 <= n <= ROWS,
    ensures
        row_chords(action, n) == (if n <= place(action) {
            Seq::empty()
        } else {
            chords(pieces(KEYS@[place(action)]@, ','))
        }),
    decreases n,
{
    if n > 0 {
        lemma_one_row(action, n - 1);
        assert(place(action_at(n - 1)) == n - 1);
        assert(action_at(place(action)) == action);
        if n - 1 == place(action) {
            assert(row_chords(action, n) =~= chords(pieces(KEYS@[place(action)]@, ',')));
        }
    }
}

/// The chord of a numbered tab.
proof fn lemma_tab_chord(n: usize)
    requires
        1 <= n <= 8,
    ensures
        default_chords(Action::Tab(n)) == seq![
            Chord { mods: Mods(2), key: Key::Char(crate::strings::digit(n as nat)) },
        ],
        default_chords(Action::Tab(n))[0].spelled() == "alt+"@ + decimal(n as nat),
{
    let c = crate::strings::digit(n as nat);
    let chord = Chord { mods: Mods(2), key: Key::Char(c) };
    let word = "alt+"@ + decimal(n as nat);
    reveal_with_fuel(decimal, 2);
    reveal_with_fuel(chords, 2);
    lemma_table_mods();
    lemma_char_key(c);
    lemma_key_spells(chord.key);
    assert(chord.spelled() =~= word);
    lemma_spelling(chord);
    lemma_spelling_reads_back(word, chord);
    assert(seq![word].drop_last() =~= Seq::<Seq<char>>::empty());
    assert(chords(seq![word]) =~= seq![chord]);
}

/// Every spelling of a row of the table is a chord, and spells back as the table
/// has it; none is left out.
pub proof fn law_a_default_spells_as_the_table_has_it(action: Action)
    requires
        !(action is Tab),
    ensures
        ({
            let words = pieces(KEYS@[row_of(action, 0)]@, ',');
            let found = default_chords(action);
            &&& 0 <= row_of(action, 0) < ROWS
            &&& found.len() == words.len()
            &&& found.len() > 0
            &&& forall|k: int|
                0 <= k < words.len() ==> (#[trigger] found[k]).spelled() == trim(words[k])
                    && chord_of(words[k]) == Ok::<Chord, Seq<char>>(found[k])
        }),
{
    lemma_row_of(action, 0);
    let i = row_of(action, 0);
    assert(place(action_at(i)) == i);
    lemma_one_row(action, ROWS as int);
    lemma_row_chords(i);
}

/// `tab-n` is on `alt+n` and on nothing else.
pub proof fn law_a_numbered_tab_is_on_its_number(n: usize)
    requires
        1 <= n <= 8,
    ensures
        default_chords(Action::Tab(n)).len() == 1,
        default_chords(Action::Tab(n))[0].spelled() == "alt+"@ + decimal(n as nat),
{
    lemma_tab_chord(n);
}

/// The action that a chord of the table is for.
spec fn owner(chord: Chord) -> Action {
    match chord.key {
        Key::Left => Action::Back,
        Key::Right => Action::Forward,
        Key::Tab => if chord.mods.0 == 4 {
            Action::NextTab
        } else {
            Action::PreviousTab
        },
        Key::PageUp => Action::MoveTabLeft,
        Key::PageDown => Action::MoveTabRight,
        Key::Char(c) => if c == 'q' {
            Action::Quit
        } else if c == 'l' {
            Action::EditUrl
        } else if c == 'r' {
            Action::Reload
        } else if c == 't' {
            if chord.mods.0 == 4 {
                Action::NewTab
            } else {
                Action::ReopenTab
            }
        } else if c == 'w' {
            Action::CloseTab
        } else if c == 'd' {
            Action::Bookmark
        } else if c == '9' {
            Action::LastTab
        } else if c == 'a' {
            Action::ListTabs
        } else if c == '=' {
            Action::ZoomIn
        } else if c == '-' {
            Action::ZoomOut
        } else if c == '0' {
            Action::ZoomReset
        } else if c == 'f' {
            Action::Find
        } else if c == 'p' {
            Action::Permissions
        } else if c == 'c' {
            Action::Copy
        } else if c == 'u' {
            Action::CopyUrl
        } else if c == '.' {
            Action::ToggleNormal
        } else {
            Action::Tab((c as u32 - 48) as usize)
        },
        _ => Action::Quit,
    }
}

/// The chords of a row are for its action.
proof fn lemma_owner_of_row(i: int)
    requires
        0 <= i < ROWS,
        i != 11,
    ensures
        owner(first_chord(i)) == action_at(i),
        second_chord(i) matches Some(chord) ==> owner(chord) == action_at(i),
{
}

/// The defaults of an action that is no numbered tab.
proof fn lemma_defaults_of_row(action: Action)
    requires
        !(action is Tab),
    ensures
        0 <= place(action) < ROWS,
        place(action) != 11,
        action_at(place(action)) == action,
        default_chords(action) == (match second_chord(place(action)) {
            Some(second) => seq![first_chord(place(action)), second],
            None => seq![first_chord(place(action))],
        }),
{
    lemma_one_row(action, ROWS as int);
    lemma_row_chords(place(action));
}

/// A chord of the table is for the action whose default it is.
proof fn lemma_owner(action: Action, k: int)
    requires
        action matches Action::Tab(n) ==> 1 <= n <= 8,
        0 <= k < default_chords(action).len(),
    ensures
        owner(default_chords(action)[k]) == action,
{
    match action {
        Action::Tab(n) => {
            lemma_tab_chord(n);
        },
        _ => {
            lemma_defaults_of_row(action);
            lemma_owner_of_row(place(action));
        },
    }
}

/// No chord is a default of two actions.
pub proof fn law_no_chord_is_of_two_actions(a: Action, b: Action, i: int, j: int)
    requires
        a != b,
        a matches Action::Tab(n) ==> 1 <= n <= 8,
        b matches Action::Tab(n) ==> 1 <= n <= 8,
        0 <= i < default_chords(a).len(),
        0 <= j < default_chords(b).len(),
    ensures
        default_chords(a)[i] != default_chords(b)[j],
{
    lemma_owner(a, i);
    lemma_owner(b, j);
}

/// Every action goes by its own name, and a numbered tab by its number.
pub proof fn law_an_action_goes_by_its_name(action: Action)
    ensures
        action.named() == match action {
            Action::Tab(n) => "tab-"@ + decimal(n as nat),
            Action::Quit => "quit"@,
            Action::EditUrl => "url"@,
            Action::Reload => "reload"@,
            Action::Back => "back"@,
            Action::Forward => "forward"@,
            Action::NewTab => "new-tab"@,
            Action::CloseTab => "close-tab"@,
            Action::ReopenTab => "reopen-tab"@,
            Action::Bookmark => "bookmark"@,
            Action::NextTab => "next-tab"@,
            Action::PreviousTab => "previous-tab"@,
            Action::LastTab => "last-tab"@,
            Action::ListTabs => "list-tabs"@,
            Action::MoveTabLeft => "move-tab-left"@,
            Action::MoveTabRight => "move-tab-right"@,
            Action::ZoomIn => "zoom-in"@,
            Action::ZoomOut => "zoom-out"@,
            Action::ZoomReset => "zoom-reset"@,
            Action::Find => "find"@,
            Action::Permissions => "permissions"@,
            Action::Copy => "copy"@,
            Action::CopyUrl => "copy-url"@,
            Action::ToggleNormal => "normal-mode"@,
        },
{
    if !(action is Tab) {
        lemma_row_of(action, 0);
        let i = row_of(action, 0);
        assert(action_at(i) == action);
        assert(i == place(action));
    }
}

/// A chord is spelled by what is held, in the order control, alt, shift and super,
/// and then by its key: a character by itself and any other by its name.
pub proof fn law_a_chord_is_spelled_by_its_parts(key: Key, mods: u32)
    ensures
        (Chord { mods: Mods(mods), key }).spelled() == (if mods & 4 != 0 {
            "ctrl+"@
        } else {
            Seq::empty()
        }) + (if mods & 2 != 0 {
            "alt+"@
        } else {
            Seq::empty()
        }) + (if mods & 1 != 0 {
            "shift+"@
        } else {
            Seq::empty()
        }) + (if mods & 8 != 0 {
            "super+"@
        } else {
            Seq::empty()
        }) + match key {
            Key::Tab => "tab"@,
            Key::Enter => "enter"@,
            Key::Escape => "esc"@,
            Key::Backspace => "backspace"@,
            Key::Insert => "insert"@,
            Key::Delete => "delete"@,
            Key::Up => "up"@,
            Key::Down => "down"@,
            Key::Left => "left"@,
            Key::Right => "right"@,
            Key::Home => "home"@,
            Key::End => "end"@,
            Key::PageUp => "pageup"@,
            Key::PageDown => "pagedown"@,
            Key::Char(c) => if c == '+' {
                "plus"@
            } else if c == ' ' {
                "space"@
            } else {
                seq![c]
            },
            Key::Function(n) => "f"@ + decimal(n as nat),
            Key::Other(n) => "other("@ + decimal(n as nat) + ")"@,
        },
{
}

/// A chord is struck by its key with exactly what it holds held, in either case of
/// a letter; what was done with the key does not matter to it.
pub proof fn law_a_chord_is_struck_by_its_key(chord: Chord, input: KeyInput)
    ensures
        chord.answers(input) <==> {
            &&& chord.key == match input.key {
                Key::Char(c) => Key::Char(lower(c)),
                other => other,
            }
            &&& (chord.mods.0 & 1 != 0) == (input.mods.0 & 1 != 0)
            &&& (chord.mods.0 & 2 != 0) == (input.mods.0 & 2 != 0)
            &&& (chord.mods.0 & 4 != 0) == (input.mods.0 & 4 != 0)
            &&& (chord.mods.0 & 8 != 0) == (input.mods.0 & 8 != 0)
        },
{
}

/// What a row is bound to is what it says, and a chord that is bound to nothing is
/// bound to nothing.
pub proof fn law_a_row_binds_its_chord(chord: Seq<char>, value: Seq<char>, c: Chord, action: Action)
    requires
        chord_of(trim(chord)) == Ok::<Chord, Seq<char>>(c),
        c.mods.0 & 4 != 0 || c.mods.0 & 2 != 0 || c.mods.0 & 8 != 0,
    ensures
        lower_all(trim(value)) == "none"@ ==> binding_of(chord, value) == Ok::<Binding, Seq<char>>(
            Binding { chord: c, action: None },
        ),
        lower_all(trim(value)) != "none"@ && action_named(value) == Ok::<Action, Seq<char>>(action)
            ==> binding_of(chord, value) == Ok::<Binding, Seq<char>>(
            Binding { chord: c, action: Some(action) },
        ),
        action_named(value) is Err && lower_all(trim(value)) != "none"@ ==> binding_of(
            chord,
            value,
        ) is Err,
{
}

}
