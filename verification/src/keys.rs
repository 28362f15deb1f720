//! Which keys the program keeps for itself, and what the others are on the
//! wire.
//!
//! The tab keys are the ones a browser has taught everybody, copying is
//! `alt+c` and `alt+u`, and find is `ctrl+f`. Everything else is the page's.
use vstd::prelude::*;

use crate::double::{double_of, law_a_short_whole_number_is_exact};
use crate::input::{Key, KeyAction, KeyInput};
use crate::json::{
    bool_of, field, lemma_each_is_found, lemma_none_is_found, named_once, record_of, text_of, whole_of,
    Json, Value,
};
use crate::strings::{is_digit, is_digit_char, is_letter, is_letter_char, string_of};

verus! {

/// The keys the program keeps for itself.
#[derive(Debug, Clone, Copy, PartialEq, Eq, Structural)]
pub enum Command {
    Quit,
    EditUrl,
    Reload,
    Back,
    Forward,
    NewTab,
    CloseTab,
    NextTab,
    PreviousTab,
    /// The nth tab, counted from one.
    SelectTab(usize),
    /// `alt+c`: the page's selection, or the line being typed, to the host's
    /// clipboard.
    CopySelection,
    /// `alt+u`: the current url to the host's clipboard.
    CopyUrl,
    /// `ctrl+f`: find in the page.
    Find,
}

/// What control with a key is for.
pub open spec fn with_ctrl(key: Key, shift: bool) -> Option<Command> {
    if key == Key::Char('q') {
        Some(Command::Quit)
    } else if key == Key::Char('l') {
        Some(Command::EditUrl)
    } else if key == Key::Char('r') {
        Some(Command::Reload)
    } else if key == Key::Char('t') {
        Some(Command::NewTab)
    } else if key == Key::Char('w') {
        Some(Command::CloseTab)
    } else if key == Key::Char('f') {
        Some(Command::Find)
    } else if key == Key::Tab {
        if shift {
            Some(Command::PreviousTab)
        } else {
            Some(Command::NextTab)
        }
    } else {
        None
    }
}

/// What alt with a key is for.
pub open spec fn with_alt(key: Key) -> Option<Command> {
    match key {
        Key::Left => Some(Command::Back),
        Key::Right => Some(Command::Forward),
        Key::Char(c) => if '1' <= c <= '9' {
            Some(Command::SelectTab((c as int - 48) as usize))
        } else if c == 'c' {
            Some(Command::CopySelection)
        } else if c == 'u' {
            Some(Command::CopyUrl)
        } else {
            None
        },
        _ => None,
    }
}

/// What the program does with a key: nothing, when it is the page's. A key let
/// go is never one of its own.
pub open spec fn commanded(key: KeyInput) -> Option<Command> {
    if key.action == KeyAction::Release {
        None
    } else if key.mods.has_ctrl() && !key.mods.has_alt() {
        with_ctrl(key.key, key.mods.has_shift())
    } else if key.mods.has_alt() && !key.mods.has_ctrl() {
        with_alt(key.key)
    } else {
        None
    }
}

/// Which keys the program answers, and which it hands to the page.
pub fn command(key: &KeyInput) -> (r: Option<Command>)
    ensures
        r == commanded(*key),
{
    if key.action == KeyAction::Release {
        return None;
    }
    let ctrl = key.mods.ctrl();
    let alt = key.mods.alt();
    if ctrl && !alt {
        return match key.key {
            Key::Char(c) => match c {
                'q' => Some(Command::Quit),
                'l' => Some(Command::EditUrl),
                'r' => Some(Command::Reload),
                't' => Some(Command::NewTab),
                'w' => Some(Command::CloseTab),
                'f' => Some(Command::Find),
                _ => None,
            },
            Key::Tab => if key.mods.shift() {
                Some(Command::PreviousTab)
            } else {
                Some(Command::NextTab)
            },
            _ => None,
        };
    }
    if alt && !ctrl {
        return match key.key {
            Key::Left => Some(Command::Back),
            Key::Right => Some(Command::Forward),
            Key::Char(c) => if '1' <= c && c <= '9' {
                Some(Command::SelectTab((c as u32 - 48) as usize))
            } else if c == 'c' {
                Some(Command::CopySelection)
            } else if c == 'u' {
                Some(Command::CopyUrl)
            } else {
                None
            },
            _ => None,
        };
    }
    None
}

/// A command that still works while the page in front waits on an answer:
/// leaving, everything about tabs, and copying the url, which touches the page
/// not at all. What waits is everything that would do something to the page
/// that is asking.
pub open spec fn survives(command: Command) -> bool {
    match command {
        Command::EditUrl => false,
        Command::Reload => false,
        Command::Back => false,
        Command::Forward => false,
        Command::CopySelection => false,
        Command::Find => false,
        _ => true,
    }
}

/// Whether a key the program keeps for itself still works while the page in
/// front has a dialog open, or a path being typed for it.
pub fn survives_dialog(command: Command) -> (r: bool)
    ensures
        r == survives(command),
{
    match command {
        Command::Quit | Command::NewTab | Command::CloseTab | Command::NextTab
        | Command::PreviousTab | Command::SelectTab(_) | Command::CopyUrl => true,
        Command::EditUrl | Command::Reload | Command::Back | Command::Forward
        | Command::CopySelection | Command::Find => false,
    }
}

// ---- keys on the wire ----

/// The name, the code and the virtual key code of a key that types nothing.
pub open spec fn key_names(key: Key) -> Option<(Seq<char>, Seq<char>, i64)> {
    match key {
        Key::Tab => Some(("Tab"@, "Tab"@, 9)),
        Key::Enter => Some(("Enter"@, "Enter"@, 13)),
        Key::Escape => Some(("Escape"@, "Escape"@, 27)),
        Key::Backspace => Some(("Backspace"@, "Backspace"@, 8)),
        Key::Insert => Some(("Insert"@, "Insert"@, 45)),
        Key::Delete => Some(("Delete"@, "Delete"@, 46)),
        Key::Up => Some(("ArrowUp"@, "ArrowUp"@, 38)),
        Key::Down => Some(("ArrowDown"@, "ArrowDown"@, 40)),
        Key::Left => Some(("ArrowLeft"@, "ArrowLeft"@, 37)),
        Key::Right => Some(("ArrowRight"@, "ArrowRight"@, 39)),
        Key::Home => Some(("Home"@, "Home"@, 36)),
        Key::End => Some(("End"@, "End"@, 35)),
        Key::PageUp => Some(("PageUp"@, "PageUp"@, 33)),
        Key::PageDown => Some(("PageDown"@, "PageDown"@, 34)),
        _ => None,
    }
}

/// The name, the code and the virtual key code of a key that types nothing.
fn names_of(key: Key) -> (r: Option<(&'static str, &'static str, i64)>)
    ensures
        match r {
            Some((name, code, vk)) => key_names(key) == Some((name@, code@, vk)),
            None => key_names(key) is None,
        },
{
    match key {
        Key::Tab => Some(("Tab", "Tab", 9)),
        Key::Enter => Some(("Enter", "Enter", 13)),
        Key::Escape => Some(("Escape", "Escape", 27)),
        Key::Backspace => Some(("Backspace", "Backspace", 8)),
        Key::Insert => Some(("Insert", "Insert", 45)),
        Key::Delete => Some(("Delete", "Delete", 46)),
        Key::Up => Some(("ArrowUp", "ArrowUp", 38)),
        Key::Down => Some(("ArrowDown", "ArrowDown", 40)),
        Key::Left => Some(("ArrowLeft", "ArrowLeft", 37)),
        Key::Right => Some(("ArrowRight", "ArrowRight", 39)),
        Key::Home => Some(("Home", "Home", 36)),
        Key::End => Some(("End", "End", 35)),
        Key::PageUp => Some(("PageUp", "PageUp", 33)),
        Key::PageDown => Some(("PageDown", "PageDown", 34)),
        _ => None,
    }
}

/// The virtual key code of a character that has a key: that of a letter is its
/// capital's.
pub open spec fn char_code(c: char) -> i64 {
    if 'a' <= c <= 'z' {
        (c as int - 32) as i64
    } else if is_letter(c) || is_digit(c) || c == ' ' {
        c as int as i64
    } else {
        0
    }
}

/// The text a key press puts in the page: what it typed, unless control, alt or
/// super is held, and a carriage return for Enter.
pub open spec fn typed_text(key: KeyInput) -> Option<char> {
    if key.action == KeyAction::Release || key.mods.has_ctrl() || key.mods.has_alt()
        || key.mods.has_super() {
        None
    } else if key.key == Key::Enter {
        Some('\r')
    } else if key.key is Char {
        key.text
    } else {
        None
    }
}

/// The fields every key event has, after its type.
pub open spec fn key_fields(key: KeyInput, name: Seq<char>, code: Seq<char>, vk: i64) -> Seq<
    (Seq<char>, Value),
> {
    seq![
        (
            "type"@,
            Value::Text(
                if key.action == KeyAction::Release {
                    "keyUp"@
                } else if typed_text(key) is Some {
                    "keyDown"@
                } else {
                    "rawKeyDown"@
                },
            ),
        ),
        (
            "modifiers"@,
            Value::Number(double_of(key.mods.engine_mask() as int)),
        ),
        ("key"@, Value::Text(name)),
        ("code"@, Value::Text(code)),
        ("windowsVirtualKeyCode"@, Value::Number(double_of(vk as int))),
        ("autoRepeat"@, Value::Bool(key.action == KeyAction::Repeat)),
    ] + (match typed_text(key) {
        Some(c) => seq![("text"@, Value::Text(seq![c]))],
        None => Seq::empty(),
    })
}

/// A key as a key event: nothing for a character with no key of its own, and
/// for a key with no name here.
pub open spec fn dispatched(key: KeyInput) -> Option<Value> {
    match key_names(key.key) {
        Some((name, code, vk)) => Some(Value::Record(key_fields(key, name, code, vk))),
        None => match key.key {
            Key::Char(c) => if ' ' <= c <= '~' {
                Some(Value::Record(key_fields(key, seq![c], Seq::empty(), char_code(c))))
            } else {
                None
            },
            _ => None,
        },
    }
}

/// One character as a text.
fn one(c: char) -> (r: String)
    ensures
        r@ == seq![c],
{
    let v = vec![c];
    proof {
        assert(v@ =~= seq![c]);
    }
    string_of(v.as_slice())
}

/// A key event.
fn key_event(key: &KeyInput, name: &str, code: &str, vk: i64) -> (r: Json)
    ensures
        r@ == Value::Record(key_fields(*key, name@, code@, vk)),
{
    let bare = !key.mods.ctrl() && !key.mods.alt() && !key.mods.meta();
    let typed: Option<char> = if key.action == KeyAction::Release || !bare {
        None
    } else {
        match key.key {
            Key::Enter => Some('\r'),
            Key::Char(_) => key.text,
            _ => None,
        }
    };
    let kind = if key.action == KeyAction::Release {
        "keyUp"
    } else if typed.is_some() {
        "keyDown"
    } else {
        "rawKeyDown"
    };
    let mut fields = vec![
        ("type", Json::string(kind)),
        ("modifiers", Json::number(key.mods.cdp() as i64)),
        ("key", Json::string(name)),
        ("code", Json::string(code)),
        ("windowsVirtualKeyCode", Json::number(vk)),
        ("autoRepeat", Json::Bool(key.action == KeyAction::Repeat)),
    ];
    match typed {
        Some(c) => fields.push(("text", Json::string(one(c).as_str()))),
        None => {},
    }
    proof {
        assert(typed == typed_text(*key));
        assert(record_of(fields@) =~= key_fields(*key, name@, code@, vk));
    }
    Json::object(fields)
}

/// A key as the parameters of `Input.dispatchKeyEvent`; `None` for a character
/// with no key of its own, and for a key with no name here.
pub fn dispatch(key: &KeyInput) -> (r: Option<Json>)
    ensures
        match r {
            Some(params) => dispatched(*key) == Some(params@),
            None => dispatched(*key) is None,
        },
{
    match names_of(key.key) {
        Some((name, code, vk)) => Some(key_event(key, name, code, vk)),
        None => match key.key {
            Key::Char(c) => if ' ' <= c && c <= '~' {
                let vk: i64 = if 'a' <= c && c <= 'z' {
                    c as u32 as i64 - 32
                } else if is_letter_char(c) || is_digit_char(c) || c == ' ' {
                    c as u32 as i64
                } else {
                    0
                };
                proof {
                    reveal_strlit("");
                    assert(""@ =~= Seq::<char>::empty());
                }
                Some(key_event(key, one(c).as_str(), "", vk))
            } else {
                None
            },
            _ => None,
        },
    }
}

/// Text put in the page as it is.
pub open spec fn inserted(text: Seq<char>) -> Value {
    Value::Record(seq![("text"@, Value::Text(text))])
}

/// The parameters of an `Input.insertText`.
pub fn insert_text(text: &str) -> (r: Json)
    ensures
        r@ == inserted(text@),
{
    let fields = vec![("text", Json::string(text))];
    proof {
        assert(record_of(fields@) =~= inserted(text@)->Record_0);
    }
    Json::object(fields)
}

/// What a key is to the page: a key event, or the text that was produced when
/// it has no key of its own, or nothing.
pub open spec fn sent_key(key: KeyInput) -> Option<(Seq<char>, Value)> {
    match dispatched(key) {
        Some(params) => Some(("Input.dispatchKeyEvent"@, params)),
        None => match key.text {
            Some(c) => if key.action != KeyAction::Release {
                Some(("Input.insertText"@, inserted(seq![c])))
            } else {
                None
            },
            None => None,
        },
    }
}

/// What a key is to the page: a character with no key of its own — an input
/// method's output, an emoji — is text that was produced rather than a key that
/// was pressed.
pub fn send_key(key: &KeyInput) -> (r: Option<(&'static str, Json)>)
    ensures
        match r {
            Some((method, params)) => sent_key(*key) == Some((method@, params@)),
            None => sent_key(*key) is None,
        },
{
    match dispatch(key) {
        Some(params) => Some(("Input.dispatchKeyEvent", params)),
        None => match key.text {
            Some(c) => if key.action != KeyAction::Release {
                Some(("Input.insertText", insert_text(one(c).as_str())))
            } else {
                None
            },
            None => None,
        },
    }
}

// ---- laws ----

/// A key with no modifier, or with shift alone, is never one of the program's.
pub proof fn law_a_bare_key_is_the_pages(key: KeyInput)
    requires
        !key.mods.has_ctrl(),
        !key.mods.has_alt(),
    ensures
        commanded(key) is None,
{
}

/// Letting a key go does nothing that pressing it did not.
pub proof fn law_a_release_is_no_command(key: KeyInput)
    requires
        key.action == KeyAction::Release,
    ensures
        commanded(key) is None,
        dispatched(key) is None ==> sent_key(key) is None,
{
}

/// Control and alt together are the page's.
pub proof fn law_control_and_alt_together_are_the_pages(key: KeyInput)
    requires
        key.mods.has_ctrl(),
        key.mods.has_alt(),
    ensures
        commanded(key) is None,
{
}

/// Which key is which command: with control alone held for one half of them,
/// with alt alone for the other, and never on the way up.
pub proof fn law_a_command_is_on_its_key(key: KeyInput, n: usize)
    ensures
        ({
            let down = key.action != KeyAction::Release;
            let ctrl = down && key.mods.0 & 4u32 != 0 && key.mods.0 & 2u32 == 0;
            let alt = down && key.mods.0 & 2u32 != 0 && key.mods.0 & 4u32 == 0;
            let shift = key.mods.0 & 1u32 != 0;
            let is = commanded(key);
            &&& is == Some(Command::Quit) <==> ctrl && key.key == Key::Char('q')
            &&& is == Some(Command::EditUrl) <==> ctrl && key.key == Key::Char('l')
            &&& is == Some(Command::Reload) <==> ctrl && key.key == Key::Char('r')
            &&& is == Some(Command::NewTab) <==> ctrl && key.key == Key::Char('t')
            &&& is == Some(Command::CloseTab) <==> ctrl && key.key == Key::Char('w')
            &&& is == Some(Command::Find) <==> ctrl && key.key == Key::Char('f')
            &&& is == Some(Command::NextTab) <==> ctrl && !shift && key.key == Key::Tab
            &&& is == Some(Command::PreviousTab) <==> ctrl && shift && key.key == Key::Tab
            &&& is == Some(Command::Back) <==> alt && key.key == Key::Left
            &&& is == Some(Command::Forward) <==> alt && key.key == Key::Right
            &&& is == Some(Command::CopySelection) <==> alt && key.key == Key::Char('c')
            &&& is == Some(Command::CopyUrl) <==> alt && key.key == Key::Char('u')
            &&& is == Some(Command::SelectTab(n)) <==> alt && 1 <= n <= 9 && (key.key matches Key::Char(
                c,
            ) && c as int == '0' as int + n)
        }),
{
}

/// A command that would act on the page waits while the page does: the others,
/// which leave the page or only look at it, go on.
pub proof fn law_what_acts_on_the_page_waits_for_its_dialog(command: Command)
    ensures
        !survives(command) <==> (command == Command::EditUrl || command == Command::Reload
            || command == Command::Back || command == Command::Forward || command
            == Command::CopySelection || command == Command::Find),
{
}

/// What the page is told of a key, each fact under its own name.
proof fn lemma_key_told(key: KeyInput, name: Seq<char>, code: Seq<char>, vk: i64)
    requires
        0 <= vk <= 1000,
    ensures
        ({
            let params = Value::Record(key_fields(key, name, code, vk));
            &&& text_of(field(params, "type"@)) == Some(
                if key.action == KeyAction::Release {
                    "keyUp"@
                } else if typed_text(key) is Some {
                    "keyDown"@
                } else {
                    "rawKeyDown"@
                },
            )
            &&& whole_of(field(params, "modifiers"@)) == Some(key.mods.engine_mask() as i64)
            &&& text_of(field(params, "key"@)) == Some(name)
            &&& text_of(field(params, "code"@)) == Some(code)
            &&& whole_of(field(params, "windowsVirtualKeyCode"@)) == Some(vk)
            &&& bool_of(field(params, "autoRepeat"@)) == Some(key.action == KeyAction::Repeat)
            &&& text_of(field(params, "text"@)) == match typed_text(key) {
                Some(c) => Some(seq![c]),
                None => None,
            }
        }),
{
    let fields = key_fields(key, name, code, vk);
    reveal_strlit("type");
    reveal_strlit("modifiers");
    reveal_strlit("key");
    reveal_strlit("code");
    reveal_strlit("windowsVirtualKeyCode");
    reveal_strlit("autoRepeat");
    reveal_strlit("text");
    assert("type"@.len() == 4);
    assert("modifiers"@.len() == 9);
    assert("key"@.len() == 3);
    assert("code"@.len() == 4);
    assert("windowsVirtualKeyCode"@.len() == 21);
    assert("autoRepeat"@.len() == 10);
    assert("text"@.len() == 4);
    assert("type"@[0] != "code"@[0]);
    assert("type"@[1] != "text"@[1]);
    assert("code"@[0] != "text"@[0]);
    assert(fields[0].0 == "type"@);
    assert(fields[1].0 == "modifiers"@);
    assert(fields[2].0 == "key"@);
    assert(fields[3].0 == "code"@);
    assert(fields[4].0 == "windowsVirtualKeyCode"@);
    assert(fields[5].0 == "autoRepeat"@);
    if typed_text(key) is Some {
        assert(fields[6].0 == "text"@);
    } else {
        lemma_none_is_found(fields, "text"@);
    }
    assert(named_once(fields));
    lemma_each_is_found(fields);
    law_a_short_whole_number_is_exact(key.mods.engine_mask());
    law_a_short_whole_number_is_exact(vk as int);
}

/// The page hears of a key by what it is: down or up, held or not, with the
/// modifiers of the engine, and with text exactly when it types some.
pub proof fn law_the_page_hears_of_a_key(key: KeyInput)
    ensures
        dispatched(key) matches Some(params) ==> {
            let held = key.mods.0 & 2u32 != 0 || key.mods.0 & 4u32 != 0 || key.mods.0 & 8u32 != 0;
            let types = key.action != KeyAction::Release && !held && (key.key == Key::Enter || (
            key.key is Char && key.text is Some));
            &&& text_of(field(params, "type"@)) == Some(
                if key.action == KeyAction::Release {
                    "keyUp"@
                } else if types {
                    "keyDown"@
                } else {
                    "rawKeyDown"@
                },
            )
            &&& bool_of(field(params, "autoRepeat"@)) == Some(key.action == KeyAction::Repeat)
            &&& whole_of(field(params, "modifiers"@)) == Some(key.mods.engine_mask() as i64)
            &&& text_of(field(params, "text"@)) == if !types {
                None
            } else if key.key == Key::Enter {
                Some(seq!['\r'])
            } else {
                Some(seq![key.text->Some_0])
            }
        },
{
    if dispatched(key) is Some {
        match key_names(key.key) {
            Some((name, code, vk)) => {
                lemma_key_told(key, name, code, vk);
            },
            None => {
                let c = key.key->Char_0;
                lemma_key_told(key, seq![c], Seq::empty(), char_code(c));
            },
        }
    }
}

/// A character on the keyboard is named by itself, and its key's code is that
/// of the capital: what the page takes for one key is one key.
pub proof fn law_a_character_is_named_by_itself(key: KeyInput, c: char)
    requires
        key.key == Key::Char(c),
    ensures
        dispatched(key) is Some <==> 32 <= c as int <= 126,
        dispatched(key) matches Some(params) ==> {
            &&& text_of(field(params, "key"@)) == Some(seq![c])
            &&& text_of(field(params, "code"@)) == Some(Seq::<char>::empty())
            &&& 97 <= c as int <= 122 ==> whole_of(field(params, "windowsVirtualKeyCode"@)) == Some(
                (c as int - 32) as i64,
            )
            &&& (65 <= c as int <= 90 || 48 <= c as int <= 57 || c as int == 32) ==> whole_of(
                field(params, "windowsVirtualKeyCode"@),
            ) == Some(c as i64)
        },
        !(32 <= c as int <= 126) ==> sent_key(key) == if key.action == KeyAction::Release
            || key.text is None {
            None
        } else {
            Some(
                (
                    "Input.insertText"@,
                    Value::Record(seq![("text"@, Value::Text(seq![key.text->Some_0]))]),
                ),
            )
        },
{
    if 32 <= c as int <= 126 {
        lemma_key_told(key, seq![c], Seq::empty(), char_code(c));
    }
}

/// The keys that type nothing go by the names and the numbers that pages know.
pub proof fn law_a_named_key_goes_by_its_name(key: KeyInput)
    ensures
        ({
            let told = dispatched(key);
            let is = |name: Seq<char>, vk: int|
                told matches Some(params) && text_of(field(params, "key"@)) == Some(name)
                    && text_of(field(params, "code"@)) == Some(name) && whole_of(
                    field(params, "windowsVirtualKeyCode"@),
                ) == Some(vk as i64);
            &&& key.key == Key::Backspace ==> is("Backspace"@, 8)
            &&& key.key == Key::Tab ==> is("Tab"@, 9)
            &&& key.key == Key::Enter ==> is("Enter"@, 13)
            &&& key.key == Key::Escape ==> is("Escape"@, 27)
            &&& key.key == Key::PageUp ==> is("PageUp"@, 33)
            &&& key.key == Key::PageDown ==> is("PageDown"@, 34)
            &&& key.key == Key::End ==> is("End"@, 35)
            &&& key.key == Key::Home ==> is("Home"@, 36)
            &&& key.key == Key::Left ==> is("ArrowLeft"@, 37)
            &&& key.key == Key::Up ==> is("ArrowUp"@, 38)
            &&& key.key == Key::Right ==> is("ArrowRight"@, 39)
            &&& key.key == Key::Down ==> is("ArrowDown"@, 40)
            &&& key.key == Key::Insert ==> is("Insert"@, 45)
            &&& key.key == Key::Delete ==> is("Delete"@, 46)
            &&& told matches Some(params) ==> sent_key(key) == Some(
                ("Input.dispatchKeyEvent"@, params),
            )
        }),
{
    match key_names(key.key) {
        Some((name, code, vk)) => {
            lemma_key_told(key, name, code, vk);
        },
        None => {},
    }
}

/// What is inserted is the text, under the one name it has.
pub proof fn law_what_is_inserted_is_the_text(text: Seq<char>)
    ensures
        text_of(field(inserted(text), "text"@)) == Some(text),
{
    let fields = inserted(text)->Record_0;
    assert(fields[0].0 == "text"@);
    lemma_each_is_found(fields);
}

}
