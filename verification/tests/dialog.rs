use blinkterm::dialog::{Answer, Dialog, Kind};
use blinkterm::input::{Key, KeyAction, KeyInput, Mods};
use blinkterm::json::Json;
use blinkterm::line::Line;

fn opening(params: &str) -> Dialog {
    Dialog::opening(&Json::parse(params).expect("the test's own JSON")).expect("a dialog")
}

fn of(kind: &str) -> Dialog {
    opening(&format!(
        r#"{{"url":"https://example.com/","message":"sure?","type":"{kind}",
            "hasBrowserHandler":false,"defaultPrompt":""}}"#
    ))
}

fn typed(c: char) -> KeyInput {
    KeyInput {
        key: Key::Char(c),
        mods: Mods::default(),
        action: KeyAction::Press,
        text: Some(c),
    }
}

fn key(k: Key, mods: u32) -> KeyInput {
    KeyInput {
        key: k,
        mods: Mods(mods),
        action: KeyAction::Press,
        text: None,
    }
}

fn released(mut key: KeyInput) -> KeyInput {
    key.action = KeyAction::Release;
    key
}

/// Shift, pressed on its own, as the Kitty protocol reports it.
const LEFT_SHIFT: u32 = 57441;

#[test]
fn the_opening_event_says_which_kind_it_is_and_what_it_asked() {
    // As `chromium-shell` sends it.
    let dialog = opening(
        r#"{"url":"https://example.com/form","frameId":"F","message":"Your name?",
            "type":"prompt","hasBrowserHandler":false,"defaultPrompt":"someone"}"#,
    );
    assert_eq!(dialog.kind, Kind::Prompt);
    assert_eq!(dialog.message, "Your name?");
    assert_eq!(dialog.url, "https://example.com/form");
    assert_eq!(dialog.line, Line::selected("someone"));

    assert_eq!(of("alert").kind, Kind::Alert);
    assert_eq!(of("confirm").kind, Kind::Confirm);
    assert_eq!(of("beforeunload").kind, Kind::BeforeUnload);
    // Only a prompt has a line; the others' is empty and not selected, so
    // nothing about them looks like typing.
    assert_eq!(of("confirm").line.text, "");
    assert!(!of("confirm").line.whole);

    // A kind nobody has keys for is not a dialog this program shows.
    let odd = Json::parse(r#"{"type":"payment","message":"x","url":"y"}"#).expect("JSON");
    assert_eq!(Dialog::opening(&odd), None);
    assert_eq!(Dialog::opening(&Json::empty()), None);

    // And a field the engine left out is empty rather than a failure.
    let bare = Json::parse(r#"{"type":"alert"}"#).expect("JSON");
    let bare = Dialog::opening(&bare).expect("an alert");
    assert_eq!((bare.message.as_str(), bare.url.as_str()), ("", ""));
}

#[test]
fn an_alert_is_dismissed_by_any_key_but_a_bare_modifier() {
    for answer in [
        typed('x'),
        typed('n'),
        key(Key::Enter, 0),
        key(Key::Escape, 0),
        key(Key::Char(' '), 0),
        key(Key::Down, 0),
    ] {
        assert_eq!(of("alert").step(&answer), Answer::Accept, "{answer:?}");
    }
    let mut alert = of("alert");
    assert_eq!(alert.step(&key(Key::Other(LEFT_SHIFT), 0)), Answer::Waiting);
    assert_eq!(alert.step(&released(typed('x'))), Answer::Waiting);
    // An alert has one button, so there is no no: accepting is all that
    // any key can mean, and it is what the page is told.
    assert_eq!(
        alert.reply(Answer::Accept).to_string(),
        r#"{"accept":true}"#
    );
}

#[test]
fn a_confirm_takes_y_n_enter_and_escape_and_ignores_the_rest() {
    for kind in ["confirm", "beforeunload"] {
        for (pressed, wanted) in [
            (typed('y'), Answer::Accept),
            (typed('Y'), Answer::Accept),
            (key(Key::Enter, 0), Answer::Accept),
            (typed('n'), Answer::Dismiss),
            (typed('N'), Answer::Dismiss),
            (key(Key::Escape, 0), Answer::Dismiss),
            (typed('x'), Answer::Waiting),
            (key(Key::Char(' '), 0), Answer::Waiting),
            (key(Key::Tab, 0), Answer::Waiting),
            (key(Key::Char('y'), Mods::CTRL), Answer::Waiting),
            (key(Key::Char('n'), Mods::ALT), Answer::Waiting),
            (key(Key::Other(LEFT_SHIFT), Mods::SHIFT), Answer::Waiting),
            (released(typed('y')), Answer::Waiting),
        ] {
            assert_eq!(of(kind).step(&pressed), wanted, "{kind}: {pressed:?}");
        }
    }
    // A key that means nothing leaves the question where it was.
    let mut confirm = of("confirm");
    confirm.step(&typed('x'));
    assert_eq!(confirm, of("confirm"));
}

#[test]
fn a_prompt_starts_with_its_default_selected_and_sends_back_what_was_typed() {
    let asked = r#"{"url":"u","message":"name?","type":"prompt","defaultPrompt":"default"}"#;

    // Enter straight away: the default is the answer.
    let mut prompt = opening(asked);
    assert_eq!(prompt.step(&key(Key::Enter, 0)), Answer::Accept);
    assert_eq!(
        prompt.reply(Answer::Accept).to_string(),
        r#"{"accept":true,"promptText":"default"}"#
    );

    // Typing replaces it, because it was selected; a shift on the way to a
    // capital does not spend the selection.
    let mut prompt = opening(asked);
    assert_eq!(
        prompt.step(&key(Key::Other(LEFT_SHIFT), Mods::SHIFT)),
        Answer::Waiting
    );
    assert!(prompt.line.whole);
    for c in ['X', 'y'] {
        assert_eq!(prompt.step(&typed(c)), Answer::Waiting);
    }
    assert_eq!(prompt.line.text, "Xy");
    // A y in a prompt is a letter, not a yes.
    assert_eq!(prompt.step(&key(Key::Backspace, 0)), Answer::Waiting);
    assert_eq!(prompt.line.text, "X");
    assert_eq!(prompt.step(&key(Key::Enter, 0)), Answer::Accept);
    assert_eq!(
        prompt.reply(Answer::Accept).to_string(),
        r#"{"accept":true,"promptText":"X"}"#
    );

    // Escape is `null`, whatever was typed: nothing of it is sent.
    let mut prompt = opening(asked);
    prompt.step(&typed('z'));
    assert_eq!(prompt.step(&key(Key::Escape, 0)), Answer::Dismiss);
    assert_eq!(
        prompt.reply(Answer::Dismiss).to_string(),
        r#"{"accept":false}"#
    );
}

#[test]
fn ctrl_q_quits_from_every_kind_of_dialog() {
    for kind in ["alert", "confirm", "prompt", "beforeunload"] {
        assert_eq!(
            of(kind).step(&key(Key::Char('q'), Mods::CTRL)),
            Answer::Quit,
            "{kind}"
        );
    }
    // And a q on its own is a q: an alert's any key, a confirm's nothing,
    // a prompt's letter.
    assert_eq!(of("alert").step(&typed('q')), Answer::Accept);
    assert_eq!(of("confirm").step(&typed('q')), Answer::Waiting);
    assert_eq!(of("prompt").step(&typed('q')), Answer::Waiting);
}

#[test]
fn a_message_is_one_line_however_the_page_wrote_it() {
    let mut dialog = of("confirm");
    dialog.message = "  Delete\n\n3 files?\r\n\tThis\u{7}cannot be undone.  ".to_string();
    assert_eq!(dialog.caption(), "Delete 3 files? This cannot be undone.");
    // Wide characters are characters, and are kept.
    dialog.message = "\u{524a}\u{9664}\u{3057}\u{307e}\u{3059}\u{304b}\u{ff1f}\n".to_string();
    assert_eq!(
        dialog.caption(),
        "\u{524a}\u{9664}\u{3057}\u{307e}\u{3059}\u{304b}\u{ff1f}"
    );

    // The kinds that need a word of their own have one.
    let mut alert = of("alert");
    alert.message = "saved\n".to_string();
    assert_eq!(alert.caption(), "alert: saved");
    alert.message = "\n".to_string();
    assert_eq!(alert.caption(), "alert");
    let mut leaving = of("beforeunload");
    leaving.message.clear();
    assert_eq!(leaving.caption(), "leave this page?");
    assert_eq!(of("prompt").caption(), "sure?");

    assert_eq!(of("alert").hint(), "any key");
    assert_eq!(of("confirm").hint(), "y/n");
    assert_eq!(of("beforeunload").hint(), "y/n");
    assert_eq!(of("prompt").hint(), "enter/esc");
    assert!(of("prompt").typing());
    assert!(!of("confirm").typing());
}

#[test]
fn the_reply_is_what_the_engine_is_told() {
    let confirm = of("confirm");
    assert_eq!(
        confirm.reply(Answer::Accept).to_string(),
        r#"{"accept":true}"#
    );
    assert_eq!(
        confirm.reply(Answer::Dismiss).to_string(),
        r#"{"accept":false}"#
    );
    let leaving = of("beforeunload");
    assert_eq!(
        leaving.reply(Answer::Accept).to_string(),
        r#"{"accept":true}"#,
        "yes is leave"
    );
    let mut prompt = of("prompt");
    prompt.step(&typed('"'));
    assert_eq!(
        prompt.reply(Answer::Accept).to_string(),
        r#"{"accept":true,"promptText":"\""}"#,
        "what was typed is sent as a string, quotes and all"
    );
    // An empty answer is an answer: `prompt()` returns "" and not null.
    let prompt = of("prompt");
    assert_eq!(
        prompt.reply(Answer::Accept).to_string(),
        r#"{"accept":true,"promptText":""}"#
    );
}
